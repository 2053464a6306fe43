//! Sorts the files of a directory tree into category folders by extension,
//! finds duplicate contents, and orders the directory sweep that prunes empty
//! folders. File system work is left to the caller: the library decides.
pub mod config;
pub mod duplicates;
pub mod file_entry;
pub mod matching;
pub mod ordering;
pub mod organizer;
pub mod paths;
pub mod pruning;
pub mod utils;

pub use config::Config;
pub use duplicates::{DuplicateSearch, SeenDigests};
pub use file_entry::FileEntry;
pub use organizer::Organizer;
pub use paths::{join_path, name_text};
pub use utils::{content_checksum, generate_unique_filename};
