use vstd::prelude::*;
use crate::file_entry::ignored_by;
use crate::ordering::{int_keys, is_descending_order, lemma_larger_key_first};
use crate::organizer::Organizer;
use crate::paths::{extension_of, join, join_path, name_of, stem_of};
use crate::utils::{generate_unique_filename, is_first_free_name};

verus! {

/// The digests met so far in one pass of the duplicate search.
pub struct SeenDigests {
    seen: Vec<String>,
}

impl View for SeenDigests {
    type V = Set<Seq<char>>;

    closed spec fn view(&self) -> Set<Seq<char>> {
        Set::new(|d: Seq<char>| exists|i: int| 0 <= i < self.seen@.len() && (#[trigger] self.seen@[i])@ == d)
    }
}

impl SeenDigests {
    pub fn new() -> (r: SeenDigests)
        ensures
            r@ == Set::<Seq<char>>::empty(),
    {
        let r = SeenDigests { seen: Vec::new() };
        assert(r@ =~= Set::<Seq<char>>::empty());
        r
    }

    /// Notes the digest of the next file: true when an earlier file of the
    /// pass had it, so that this file is a duplicate.
    pub fn observe(&mut self, digest: &String) -> (repeated: bool)
        ensures
            repeated == old(self)@.contains(digest@),
            final(self)@ == old(self)@.insert(digest@),
    {
        let mut i: usize = 0;
        while i < self.seen.len()
            invariant
                i <= self.seen@.len(),
                self == old(self),
                forall|j: int| 0 <= j < i ==> (#[trigger] self.seen@[j])@ != digest@,
            decreases self.seen@.len() - i,
        {
            if self.seen[i] == *digest {
                assert(self@ =~= old(self)@.insert(digest@));
                return true;
            }
            i = i + 1;
        }
        let ghost before = self.seen@;
        self.seen.push(digest.clone());
        proof {
            assert(!old(self)@.contains(digest@));
            assert(self.seen@[before.len() as int]@ == digest@);
            assert forall|d: Seq<char>| #[trigger] self@.contains(d) == old(self)@.insert(digest@).contains(d) by {
                if old(self)@.contains(d) {
                    let j = choose|j: int| 0 <= j < before.len() && (#[trigger] before[j])@ == d;
                    assert(self.seen@[j] == before[j]);
                }
                if self@.contains(d) {
                    let j = choose|j: int| 0 <= j < self.seen@.len() && (#[trigger] self.seen@[j])@ == d;
                    if j < before.len() {
                        assert(self.seen@[j] == before[j]);
                    }
                }
            }
            assert(self@ =~= old(self)@.insert(digest@));
        }
        false
    }
}

/// The name of the folder, under the root, that receives the duplicates.
pub open spec fn duplicates_dir() -> Seq<char> {
    seq!['D', 'u', 'p', 'l', 'i', 'c', 'a', 't', 'e', 's']
}

/// The folder of duplicates under the root of `org`.
pub fn duplicates_folder(org: &Organizer) -> (r: String)
    ensures
        r@ == join(org.config.target@, duplicates_dir()),
{
    proof {
        reveal_strlit("Duplicates");
    }
    let name = "Duplicates";
    assert(name@ =~= duplicates_dir());
    join_path(org.config.target.as_str(), name)
}

/// The state of one pass of the duplicate search: the digests met so far, and
/// the names that the folder of duplicates holds.
pub struct DuplicateSearch {
    pub seen: SeenDigests,
    pub taken: Vec<String>,
}

impl DuplicateSearch {
    /// Starts a pass, with the names found in the folder of duplicates.
    pub fn new(taken: Vec<String>) -> (r: DuplicateSearch)
        ensures
            r.seen@ == Set::<Seq<char>>::empty(),
            r.taken == taken,
    {
        DuplicateSearch { seen: SeenDigests::new(), taken }
    }

    /// Takes file `i` of `org`, whose content has the digest `digest`, and
    /// says where it goes: `None` when it stays, being exempt or the first
    /// with its digest; else a free name in the folder of duplicates, which is
    /// then counted as taken.
    pub fn step(&mut self, org: &Organizer, i: usize, digest: &String) -> (r: Option<String>)
        requires
            i < org.files@.len(),
        ensures
            ignored_by(org.config.ignored@, org.paths()[i as int]) ==> *final(self) == *old(self),
            !ignored_by(org.config.ignored@, org.paths()[i as int]) ==> final(self).seen@ == old(
                self,
            ).seen@.insert(digest@),
            r is Some <==> (!ignored_by(org.config.ignored@, org.paths()[i as int]) && old(
                self,
            ).seen@.contains(digest@)),
            r is None ==> final(self).taken == old(self).taken,
            r matches Some(p) ==> {
                &&& final(self).taken@.len() == old(self).taken@.len() + 1
                &&& final(self).taken@.drop_last() == old(self).taken@
                &&& is_first_free_name(
                    stem_of(name_of(org.paths()[i as int])),
                    extension_of(name_of(org.paths()[i as int])),
                    old(self).taken@.map_values(|s: String| s@),
                    final(self).taken@.last()@,
                )
                &&& p@ == join(
                    join(org.config.target@, duplicates_dir()),
                    final(self).taken@.last()@,
                )
            },
    {
        if org.is_ignored(i) {
            return None;
        }
        if !self.seen.observe(digest) {
            return None;
        }
        let file = &org.files[i];
        let name = generate_unique_filename(file, &self.taken);
        let dest = join_path(duplicates_folder(org).as_str(), name.as_str());
        self.taken.push(name);
        Some(dest)
    }
}

/// Whether the file at position `i` of a pass is a duplicate: it is searched
/// (`Some`), and a file before it in the pass had the same digest.
pub open spec fn is_repeat(digests: Seq<Option<Seq<char>>>, i: int) -> bool {
    digests[i] is Some && exists|j: int| 0 <= j < i && #[trigger] digests[j] == digests[i]
}

/// The digests of the files searched before position `i` of a pass.
pub open spec fn digests_before(digests: Seq<Option<Seq<char>>>, i: int) -> Set<Seq<char>> {
    Set::new(|d: Seq<char>| exists|j: int| 0 <= j < i && #[trigger] digests[j] == Some(d))
}

/// Observing the searched files of a pass one by one, from an empty set, flags
/// exactly the duplicates: at each file the set holds the digests met before
/// it, `observe` answers whether its digest is among them, and the set then
/// grows by that digest; an exempt file leaves the set as it is.
pub proof fn lemma_pass_flags_repeats(digests: Seq<Option<Seq<char>>>, i: int)
    requires
        0 <= i < digests.len(),
    ensures
        digests_before(digests, 0) == Set::<Seq<char>>::empty(),
        digests[i] matches Some(d) ==> (digests_before(digests, i).contains(d) == is_repeat(
            digests,
            i,
        ) && digests_before(digests, i + 1) == digests_before(digests, i).insert(d)),
        digests[i] is None ==> digests_before(digests, i + 1) == digests_before(digests, i),
{
    assert(digests_before(digests, 0) =~= Set::<Seq<char>>::empty());
    if let Some(d) = digests[i] {
        if digests_before(digests, i).contains(d) {
            let j = choose|j: int| 0 <= j < i && #[trigger] digests[j] == Some(d);
            assert(digests[j] == digests[i]);
        }
        if is_repeat(digests, i) {
            let j = choose|j: int| 0 <= j < i && #[trigger] digests[j] == digests[i];
            assert(digests_before(digests, i).contains(d));
        }
        assert(digests_before(digests, i + 1) =~= digests_before(digests, i).insert(d));
    } else {
        assert(digests_before(digests, i + 1) =~= digests_before(digests, i));
    }
}

/// Of two files with the same content, the duplicate search moves the older
/// one and keeps the more recently modified one in place: the pass visits the
/// files newest first (`order`, by `modified`), and only a digest met before is
/// a duplicate. `digests` holds the digest of each file, `None` for one that
/// an ignore pattern exempts.
pub proof fn lemma_newer_copy_kept(
    modified: Seq<u128>,
    order: Seq<usize>,
    digests: Seq<Option<Seq<char>>>,
    newer: int,
    older: int,
)
    requires
        is_descending_order(order, int_keys(modified)),
        digests.len() == modified.len(),
        0 <= newer < order.len(),
        0 <= older < order.len(),
        digests[order[newer] as int] is Some,
        digests[order[newer] as int] == digests[order[older] as int],
        modified[order[newer] as int] > modified[order[older] as int],
        forall|k: int| 0 <= k < newer ==> digests[order[k] as int] != digests[order[newer] as int],
    ensures
        !is_repeat(order.map_values(|f: usize| digests[f as int]), newer),
        is_repeat(order.map_values(|f: usize| digests[f as int]), older),
{
    lemma_larger_key_first(order, int_keys(modified), newer, older);
    let pass = order.map_values(|f: usize| digests[f as int]);
    assert(pass[newer] == pass[older]);
    if is_repeat(pass, newer) {
        let j = choose|j: int| 0 <= j < newer && #[trigger] pass[j] == pass[newer];
        assert(pass[j] == digests[order[j] as int]);
    }
}

} // verus!
