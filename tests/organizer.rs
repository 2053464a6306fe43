use file_organizer::config::Config;
use file_organizer::duplicates::{duplicates_folder, DuplicateSearch, SeenDigests};
use file_organizer::file_entry::FileEntry;
use file_organizer::organizer::Organizer;
use file_organizer::paths::{extension_text, join_path, name_text, parent_text, stem_text};
use file_organizer::pruning::{depth, prune_order};
use file_organizer::ordering::descending_order;
use file_organizer::utils::{content_checksum, generate_unique_filename};

fn s(x: &str) -> String {
    x.to_string()
}

fn images_config(target: &str) -> Config {
    Config::new(
        s(target),
        vec![(s("Images"), vec![s("jpg"), s("png")])],
        vec![s("*.tmp")],
    )
}

fn organizer_of(config: Config, paths: &[&str]) -> Organizer {
    let found: Vec<String> = paths.iter().map(|p| s(p)).collect();
    let modified: Vec<u128> = vec![0; found.len()];
    Organizer::new(config, found, modified)
}

fn run_sort(org: &mut Organizer) -> usize {
    let mut moves = 0;
    for i in 0..org.files.len() {
        if let Some(dest) = org.sort_destination(i) {
            org.relocate(i, dest);
            moves += 1;
        }
    }
    moves
}

#[test]
fn path_parts() {
    assert_eq!(name_text("target/photos/photo.jpg"), "photo.jpg");
    assert_eq!(name_text("photo.jpg"), "photo.jpg");
    assert_eq!(parent_text("target/photos/photo.jpg"), "target/photos");
    assert_eq!(parent_text("/photo.jpg"), "/");
    assert_eq!(parent_text("photo.jpg"), "");
    assert_eq!(join_path("target", "Images"), "target/Images");
    assert_eq!(join_path("target/", "Images"), "target/Images");
    assert_eq!(join_path("", "Images"), "Images");
}

#[test]
fn extension_and_stem() {
    assert_eq!(extension_text("archive.tar.gz"), ".gz");
    assert_eq!(stem_text("archive.tar.gz"), "archive.tar");
    assert_eq!(extension_text(".bashrc"), "");
    assert_eq!(stem_text(".bashrc"), ".bashrc");
    assert_eq!(extension_text("Makefile"), "");
    assert_eq!(stem_text("Makefile"), "Makefile");
}

#[test]
fn file_entry_accessors() {
    let f = FileEntry::new(s("target/docs/report.final.pdf"));
    assert_eq!(f.path(), "target/docs/report.final.pdf");
    assert_eq!(f.name(), "report.final.pdf");
    assert_eq!(f.stem(), "report.final");
    assert_eq!(f.extension(), ".pdf");
    assert_eq!(f.parent_path(), "target/docs");
}

#[test]
fn config_normalizes_and_last_declaration_wins() {
    let config = Config::new(
        s("target"),
        vec![
            (s("Images"), vec![s("jpg"), s(".png")]),
            (s("Pictures"), vec![s(".jpg")]),
        ],
        vec![],
    );
    assert_eq!(config.target, "target");
    assert_eq!(config.mapping.len(), 2);
    let jpg: Vec<&(String, String)> = config.mapping.iter().filter(|p| p.0 == ".jpg").collect();
    assert_eq!(jpg.len(), 1);
    assert_eq!(jpg[0].1, "Pictures");
    let png: Vec<&(String, String)> = config.mapping.iter().filter(|p| p.0 == ".png").collect();
    assert_eq!(png[0].1, "Images");
}

#[test]
fn sorted_check() {
    let config = images_config("target");
    let f = FileEntry::new(s("target/Images/photo.jpg"));
    assert!(f.is_sorted(&config.ignored, &config.mapping));
    let g = FileEntry::new(s("target/photo.jpg"));
    assert!(!g.is_sorted(&config.ignored, &config.mapping));
    let h = FileEntry::new(s("target/Others/doc.pdf"));
    assert!(h.is_sorted(&config.ignored, &config.mapping));
    let bare = FileEntry::new(s("Images/photo.jpg"));
    assert!(bare.is_sorted(&config.ignored, &config.mapping));
    let wrong = FileEntry::new(s("target/MyImages/photo.jpg"));
    assert!(!wrong.is_sorted(&config.ignored, &config.mapping));
    let k = FileEntry::new(s("target/MyOthers/doc.pdf"));
    assert!(!k.is_sorted(&config.ignored, &config.mapping));
    let t = FileEntry::new(s("target/deep/note.tmp"));
    assert!(t.match_globs(&config.ignored));
    assert!(t.is_sorted(&config.ignored, &config.mapping));
}

#[test]
fn sort_example_scenario() {
    let mut org = organizer_of(
        images_config("target"),
        &["target/photo.jpg", "target/note.tmp", "target/doc.pdf"],
    );
    assert_eq!(org.sort_destination(0), Some(s("target/Images/photo.jpg")));
    assert_eq!(org.sort_destination(1), None);
    assert_eq!(org.sort_destination(2), Some(s("target/Others/doc.pdf")));
    assert_eq!(run_sort(&mut org), 2);
    assert_eq!(org.files[0].path, "target/Images/photo.jpg");
    assert_eq!(org.files[1].path, "target/note.tmp");
    assert_eq!(org.files[2].path, "target/Others/doc.pdf");
}

#[test]
fn second_sort_moves_nothing() {
    let mut org = organizer_of(
        images_config("root/target"),
        &["root/target/a/b/c.png", "root/target/x.jpeg", "root/target/Images/y.txt", "root/target/z"],
    );
    assert_eq!(run_sort(&mut org), 4);
    assert_eq!(run_sort(&mut org), 0);
    assert_eq!(org.files[0].path, "root/target/Images/c.png");
    assert_eq!(org.files[3].path, "root/target/Others/z");
}

#[test]
fn glob_characters_in_category_names() {
    let config = Config::new(s("t"), vec![(s("Images[1]"), vec![s("jpg")])], vec![]);
    let mut org = organizer_of(config, &["t/p.jpg"]);
    assert_eq!(run_sort(&mut org), 1);
    assert_eq!(org.files[0].path, "t/Images[1]/p.jpg");
    assert_eq!(run_sort(&mut org), 0);
}

#[test]
fn relative_root_sorts_once() {
    let mut org = organizer_of(images_config(""), &["photo.jpg", "Images/b.png"]);
    assert_eq!(run_sort(&mut org), 1);
    assert_eq!(org.files[0].path, "Images/photo.jpg");
    assert_eq!(run_sort(&mut org), 0);
}

#[test]
fn ignored_file_is_never_moved() {
    let org = organizer_of(images_config("target"), &["target/elsewhere/keep.tmp"]);
    assert!(org.is_ignored(0));
    assert_eq!(org.sort_destination(0), None);
}

#[test]
fn newest_first_stable() {
    let order = descending_order(&vec![5, 9, 5, 1, 9]);
    assert_eq!(order, vec![1, 4, 0, 2, 3]);
    let org = Organizer::new(
        images_config("t"),
        vec![s("t/a"), s("t/b"), s("t/c")],
        vec![10, 30, 10],
    );
    assert_eq!(org.files[0].path, "t/b");
    assert_eq!(org.files[1].path, "t/a");
    assert_eq!(org.files[2].path, "t/c");
}

#[test]
fn checksum_values() {
    assert_eq!(content_checksum(b"123456789"), "6c40df5f0b497347");
    assert_eq!(content_checksum(b""), "0000000000000000");
    let a = content_checksum(b"same bytes");
    let b = content_checksum(&b"same bytes".to_vec());
    assert_eq!(a, b);
    assert_eq!(a.len(), 16);
    assert_ne!(a, content_checksum(b"other bytes"));
}

#[test]
fn seen_digests_flag_repeats() {
    let mut seen = SeenDigests::new();
    assert!(!seen.observe(&s("00ff")));
    assert!(!seen.observe(&s("0a0b")));
    assert!(seen.observe(&s("00ff")));
    assert!(seen.observe(&s("0a0b")));
}

#[test]
fn duplicate_example_scenario() {
    // b.txt was modified later than a.txt; both hold the same bytes.
    let org = Organizer::new(
        images_config("target"),
        vec![s("target/a.txt"), s("target/b.txt")],
        vec![100, 200],
    );
    assert_eq!(org.files[0].path, "target/b.txt");
    assert_eq!(duplicates_folder(&org), "target/Duplicates");
    let digest = content_checksum(b"identical content");
    let mut search = DuplicateSearch::new(vec![]);
    assert_eq!(search.step(&org, 0, &digest), None);
    assert_eq!(search.step(&org, 1, &digest), Some(s("target/Duplicates/a_1.txt")));
    assert_eq!(search.taken, vec![s("a_1.txt")]);
}

#[test]
fn duplicate_names_do_not_collide() {
    let org = organizer_of(
        images_config("t"),
        &["t/x/a.txt", "t/y/a.txt", "t/z/a.txt", "t/skip.tmp", "t/w/a.txt"],
    );
    let same = content_checksum(b"same");
    let mut search = DuplicateSearch::new(vec![s("a_1.txt")]);
    assert_eq!(search.step(&org, 0, &same), None);
    assert_eq!(search.step(&org, 1, &same), Some(s("t/Duplicates/a_2.txt")));
    assert_eq!(search.step(&org, 2, &same), Some(s("t/Duplicates/a_3.txt")));
    assert_eq!(search.step(&org, 3, &same), None);
    assert_eq!(search.step(&org, 4, &content_checksum(b"other")), None);
}

#[test]
fn unique_names_skip_taken() {
    let f = FileEntry::new(s("target/photo.jpg"));
    assert_eq!(generate_unique_filename(&f, &vec![]), "photo_1.jpg");
    assert_eq!(
        generate_unique_filename(&f, &vec![s("photo_1.jpg"), s("other"), s("photo_2.jpg")]),
        "photo_3.jpg"
    );
    assert_eq!(generate_unique_filename(&f, &vec![s("photo_2.jpg")]), "photo_1.jpg");
    let mut taken = vec![];
    for n in 1..=10 {
        taken.push(format!("photo_{}.jpg", n));
    }
    assert_eq!(generate_unique_filename(&f, &taken), "photo_11.jpg");
    let g = FileEntry::new(s("target/README"));
    assert_eq!(generate_unique_filename(&g, &vec![s("README")]), "README_1");
}

#[test]
fn children_before_parents() {
    assert_eq!(depth("t/a/b"), 2);
    let dirs = vec![s("t"), s("t/a"), s("t/a/b"), s("t/c")];
    assert_eq!(prune_order(&dirs), vec![2, 1, 3, 0]);
}
