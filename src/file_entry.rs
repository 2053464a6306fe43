use vstd::prelude::*;
use crate::config::{category_for, Config};
use crate::matching::{glob_match, glob_matches};
use crate::paths::{
    extension_of, extension_text, join, join_path, name_of, name_text, parent_of, parent_text, stem_of,
    stem_text,
};

verus! {

/// One file found under the root: where it is now.
pub struct FileEntry {
    pub path: String,
}

pub open spec fn others_dir() -> Seq<char> {
    seq!['O', 't', 'h', 'e', 'r', 's']
}

/// Whether a pattern of `globs` matches the whole path or the file name.
pub open spec fn ignored_by(globs: Seq<String>, path: Seq<char>) -> bool {
    exists|i: int|
        0 <= i < globs.len() && (glob_matches(#[trigger] globs[i]@, path) || glob_matches(
            globs[i]@,
            name_of(path),
        ))
}

/// Whether the file at `path` is where sorting would leave it: ignored, or in a
/// folder whose name is the category of its extension, or, for an extension
/// without a category, in a folder named "Others".
pub open spec fn is_sorted_at(globs: Seq<String>, mapping: Seq<(String, String)>, path: Seq<char>) -> bool {
    if ignored_by(globs, path) {
        true
    } else {
        match category_for(mapping, extension_of(name_of(path))) {
            Some(c) => name_of(parent_of(path)) == c,
            None => name_of(parent_of(path)) == others_dir(),
        }
    }
}

/// The folder under `target` for files with the extension `ext`.
pub open spec fn category_dir(target: Seq<char>, mapping: Seq<(String, String)>, ext: Seq<char>) -> Seq<char> {
    match category_for(mapping, ext) {
        Some(c) => join(target, c),
        None => join(target, others_dir()),
    }
}

/// Where sorting puts the file at `path`.
pub open spec fn sorted_path(target: Seq<char>, mapping: Seq<(String, String)>, path: Seq<char>) -> Seq<char> {
    join(category_dir(target, mapping, extension_of(name_of(path))), name_of(path))
}

impl View for FileEntry {
    type V = Seq<char>;

    open spec fn view(&self) -> Seq<char> {
        self.path@
    }
}

impl FileEntry {
    pub fn new(path: String) -> (r: FileEntry)
        ensures
            r@ == path@,
    {
        FileEntry { path }
    }

    /// Records that the file now lies at `new_path`, once it has been moved
    /// there.
    pub fn set_path(&mut self, new_path: String)
        ensures
            final(self)@ == new_path@,
    {
        self.path = new_path;
    }

    /// Whether the file is where sorting would leave it.
    pub fn is_sorted(&self, globs: &Vec<String>, mapping: &Vec<(String, String)>) -> (r: bool)
        ensures
            r == is_sorted_at(globs@, mapping@, self@),
    {
        if self.match_globs(globs) {
            return true;
        }
        let dir_name = self.parent_path();
        let folder = name_text(dir_name.as_str());
        let ext = self.extension();
        match lookup_category(mapping, &ext) {
            Some(category) => folder == category,
            None => {
                proof {
                    reveal_strlit("Others");
                }
                let others = "Others".to_string();
                assert(others@ =~= others_dir());
                folder == others
            },
        }
    }

    /// Whether a pattern of `globs` matches the path or the file name.
    pub fn match_globs(&self, globs: &Vec<String>) -> (r: bool)
        ensures
            r == ignored_by(globs@, self@),
    {
        let name = self.name();
        let mut i: usize = 0;
        while i < globs.len()
            invariant
                i <= globs.len(),
                name@ == name_of(self@),
                forall|j: int|
                    0 <= j < i ==> !(glob_matches(#[trigger] globs@[j]@, self@) || glob_matches(
                        globs@[j]@,
                        name_of(self@),
                    )),
            decreases globs.len() - i,
        {
            if glob_match(globs[i].as_str(), self.path.as_str()) || glob_match(
                globs[i].as_str(),
                name.as_str(),
            ) {
                return true;
            }
            i = i + 1;
        }
        false
    }

    /// The path of the folder that holds the file.
    pub fn parent_path(&self) -> (r: String)
        ensures
            r@ == parent_of(self@),
    {
        parent_text(self.path.as_str())
    }

    pub fn path(&self) -> (r: String)
        ensures
            r@ == self@,
    {
        self.path.clone()
    }

    /// The file name, extension included.
    pub fn name(&self) -> (r: String)
        ensures
            r@ == name_of(self@),
    {
        name_text(self.path.as_str())
    }

    /// The file name without its extension.
    pub fn stem(&self) -> (r: String)
        ensures
            r@ == stem_of(name_of(self@)),
    {
        let name = self.name();
        stem_text(name.as_str())
    }

    /// The extension of the file name, with its leading '.'; empty when there
    /// is none.
    pub fn extension(&self) -> (r: String)
        ensures
            r@ == extension_of(name_of(self@)),
    {
        let name = self.name();
        extension_text(name.as_str())
    }

    /// Where sorting puts the file under the configuration `config`.
    pub fn target_path(&self, config: &Config) -> (r: String)
        ensures
            r@ == sorted_path(config.target@, config.mapping@, self@),
    {
        let name = self.name();
        let ext = extension_text(name.as_str());
        let dir = match lookup_category(&config.mapping, &ext) {
            Some(category) => join_path(config.target.as_str(), category.as_str()),
            None => {
                proof {
                    reveal_strlit("Others");
                }
                let others = "Others";
                assert(others@ =~= others_dir());
                join_path(config.target.as_str(), others)
            },
        };
        join_path(dir.as_str(), name.as_str())
    }
}

/// The category that `mapping` gives to `ext`.
pub fn lookup_category(mapping: &Vec<(String, String)>, ext: &String) -> (r: Option<String>)
    ensures
        match r {
            Some(c) => category_for(mapping@, ext@) == Some(c@),
            None => category_for(mapping@, ext@) is None,
        },
{
    let mut i: usize = mapping.len();
    assert(mapping@.subrange(0, i as int) =~= mapping@);
    while i > 0
        invariant
            i <= mapping.len(),
            category_for(mapping@, ext@) == category_for(mapping@.subrange(0, i as int), ext@),
        decreases i,
    {
        assert(mapping@.subrange(0, i as int).drop_last() =~= mapping@.subrange(0, i - 1));
        if mapping[i - 1].0 == *ext {
            return Some(mapping[i - 1].1.clone());
        }
        i = i - 1;
    }
    None
}

} // verus!
