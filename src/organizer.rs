use vstd::prelude::*;
use crate::config::{category_for, is_plain_category, Config};
use crate::file_entry::{
    category_dir, ignored_by, is_sorted_at, others_dir, sorted_path, FileEntry,
};
use crate::ordering::{descending_order, int_keys, is_descending_order};
use crate::paths::{
    extension_of, has_no, join, lemma_join_segment, lemma_last_index, name_of, parent_of,
};

verus! {

/// The state of one run: the configuration and the files found under its
/// root, the most recently modified first.
pub struct Organizer {
    pub config: Config,
    pub files: Vec<FileEntry>,
}

/// Settings under which a sorted file stays sorted: every category names a
/// single folder.
pub open spec fn is_orderly(mapping: Seq<(String, String)>) -> bool {
    forall|i: int| 0 <= i < mapping.len() ==> is_plain_category(#[trigger] mapping[i].1@)
}

/// Where the sorting pass sends the file at `path`; `None` when it stays.
pub open spec fn sort_move(
    target: Seq<char>,
    mapping: Seq<(String, String)>,
    globs: Seq<String>,
    path: Seq<char>,
) -> Option<Seq<char>> {
    if is_sorted_at(globs, mapping, path) {
        None
    } else {
        Some(sorted_path(target, mapping, path))
    }
}

/// The paths of the files after a sorting pass in which every move succeeded.
pub open spec fn after_sort(
    target: Seq<char>,
    mapping: Seq<(String, String)>,
    globs: Seq<String>,
    paths: Seq<Seq<char>>,
) -> Seq<Seq<char>> {
    paths.map_values(
        |p: Seq<char>|
            match sort_move(target, mapping, globs, p) {
                Some(d) => d,
                None => p,
            },
    )
}

impl Organizer {
    pub open spec fn paths(&self) -> Seq<Seq<char>> {
        self.files@.map_values(|f: FileEntry| f@)
    }

    /// Takes the files found under the root, with the modification time of
    /// each (zero where it could not be read), and orders them most recently
    /// modified first, files modified at the same time in the order found.
    pub fn new(config: Config, found: Vec<String>, modified: Vec<u128>) -> (r: Organizer)
        requires
            found.len() == modified.len(),
        ensures
            r.config == config,
            exists|order: Seq<usize>|
                is_descending_order(order, int_keys(modified@)) && r.paths() == order.map_values(
                    |k: usize| found@[k as int]@,
                ),
    {
        let order = descending_order(&modified);
        let mut files: Vec<FileEntry> = Vec::new();
        let mut i: usize = 0;
        while i < order.len()
            invariant
                i <= order@.len(),
                is_descending_order(order@, int_keys(modified@)),
                found@.len() == modified@.len(),
                files@.len() == i,
                forall|q: int| 0 <= q < i ==> (#[trigger] files@[q])@ == found@[order@[q] as int]@,
            decreases order@.len() - i,
        {
            files.push(FileEntry::new(found[order[i]].clone()));
            i = i + 1;
        }
        let r = Organizer { config, files };
        assert(r.paths() =~= order@.map_values(|k: usize| found@[k as int]@));
        r
    }

    /// Where the sorting pass sends file `i`: `None` when it is sorted already,
    /// else the folder of its category (or "Others") under the root, under
    /// its own name.
    pub fn sort_destination(&self, i: usize) -> (r: Option<String>)
        requires
            i < self.files@.len(),
        ensures
            r matches Some(d) ==> sort_move(self.config.target@, self.config.mapping@, self.config.ignored@, self.paths()[i as int]) == Some(d@),
            r is None ==> sort_move(self.config.target@, self.config.mapping@, self.config.ignored@, self.paths()[i as int]) is None,
    {
        let file = &self.files[i];
        if file.is_sorted(&self.config.ignored, &self.config.mapping) {
            None
        } else {
            Some(file.target_path(&self.config))
        }
    }

    /// Whether file `i` is exempt from sorting and from the duplicate search.
    pub fn is_ignored(&self, i: usize) -> (r: bool)
        requires
            i < self.files@.len(),
        ensures
            r == ignored_by(self.config.ignored@, self.paths()[i as int]),
    {
        self.files[i].match_globs(&self.config.ignored)
    }

    /// Records that file `i` has been moved to `new_path`.
    pub fn relocate(&mut self, i: usize, new_path: String)
        requires
            i < old(self).files@.len(),
        ensures
            final(self).config == old(self).config,
            final(self).paths() == old(self).paths().update(i as int, new_path@),
    {
        let ghost before = self.paths();
        let mut file = self.files.remove(i);
        file.set_path(new_path);
        self.files.insert(i, file);
        assert(self.paths() =~= before.update(i as int, new_path@));
    }
}

/// Sorting is idempotent: under orderly settings, the place that sorting gives
/// a file is one that a second sort leaves alone.
pub proof fn lemma_sort_idempotent(
    target: Seq<char>,
    mapping: Seq<(String, String)>,
    globs: Seq<String>,
    path: Seq<char>,
)
    requires
        is_orderly(mapping),
    ensures
        sort_move(target, mapping, globs, sorted_path(target, mapping, path)) is None,
{
    let name = name_of(path);
    lemma_last_index(path, '/');
    assert(has_no(name, '/'));
    let ext = extension_of(name);
    let dest = sorted_path(target, mapping, path);
    let dir = category_dir(target, mapping, ext);
    let c = match category_for(mapping, ext) {
        Some(c) => c,
        None => others_dir(),
    };
    lemma_category_plain(mapping, ext);
    assert(is_plain_category(others_dir()));
    assert(dir == join(target, c));
    if target.len() > 0 {
        lemma_join_segment(target, c);
    } else {
        lemma_last_index(c, '/');
        assert(c.subrange(0, c.len() as int) =~= c);
    }
    assert(name_of(dir) == c);
    assert(dir.last() == c.last());
    assert(dir.last() != '/');
    lemma_join_segment(dir, name);
    assert(name_of(dest) == name);
    assert(parent_of(dest) == dir);
}

proof fn lemma_category_plain(mapping: Seq<(String, String)>, ext: Seq<char>)
    requires
        forall|i: int| 0 <= i < mapping.len() ==> is_plain_category(#[trigger] mapping[i].1@),
    ensures
        category_for(mapping, ext) matches Some(c) ==> is_plain_category(c),
    decreases mapping.len(),
{
    if mapping.len() > 0 {
        assert(is_plain_category(mapping[mapping.len() - 1].1@));
        assert forall|i: int| 0 <= i < mapping.drop_last().len() implies is_plain_category(
            #[trigger] mapping.drop_last()[i].1@,
        ) by {
            assert(mapping.drop_last()[i] == mapping[i]);
        }
        lemma_category_plain(mapping.drop_last(), ext);
    }
}

/// A second sorting pass after a complete one moves nothing.
pub proof fn lemma_second_pass_moves_nothing(
    target: Seq<char>,
    mapping: Seq<(String, String)>,
    globs: Seq<String>,
    paths: Seq<Seq<char>>,
)
    requires
        is_orderly(mapping),
    ensures
        forall|i: int|
            0 <= i < paths.len() ==> #[trigger] sort_move(
                target,
                mapping,
                globs,
                after_sort(target, mapping, globs, paths)[i],
            ) is None,
{
    assert forall|i: int| 0 <= i < paths.len() implies #[trigger] sort_move(
        target,
        mapping,
        globs,
        after_sort(target, mapping, globs, paths)[i],
    ) is None by {
        lemma_sort_idempotent(target, mapping, globs, paths[i]);
    }
}

/// Every file that sorting moves lands in the folder of its category under the
/// root, or in "Others" for an extension without one, under its own name.
pub proof fn lemma_sorted_location(
    target: Seq<char>,
    mapping: Seq<(String, String)>,
    globs: Seq<String>,
    path: Seq<char>,
)
    ensures
        sort_move(target, mapping, globs, path) matches Some(d) ==> d == join(
            match category_for(mapping, extension_of(name_of(path))) {
                Some(c) => join(target, c),
                None => join(target, others_dir()),
            },
            name_of(path),
        ),
{
}

/// A file that an ignore pattern matches is never moved by sorting.
pub proof fn lemma_ignored_stays(
    target: Seq<char>,
    mapping: Seq<(String, String)>,
    globs: Seq<String>,
    path: Seq<char>,
)
    requires
        ignored_by(globs, path),
    ensures
        sort_move(target, mapping, globs, path) is None,
{
}

} // verus!
