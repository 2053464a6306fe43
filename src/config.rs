use vstd::prelude::*;
use crate::paths::has_no;

verus! {

/// The settings of one run: the root to organize, the category of each
/// extension, and the glob patterns of files to leave alone.
pub struct Config {
    pub target: String,
    /// Pairs of a normalized extension (".txt") and a category name, one pair
    /// per extension.
    pub mapping: Vec<(String, String)>,
    pub ignored: Vec<String>,
}

/// The category given to `ext` by `mapping`, the last pair for it winning.
pub open spec fn category_for(mapping: Seq<(String, String)>, ext: Seq<char>) -> Option<Seq<char>>
    decreases mapping.len(),
{
    if mapping.len() == 0 {
        None
    } else if mapping.last().0@ == ext {
        Some(mapping.last().1@)
    } else {
        category_for(mapping.drop_last(), ext)
    }
}

pub open spec fn keys_unique(mapping: Seq<(String, String)>) -> bool {
    forall|i: int, j: int|
        0 <= i < j < mapping.len() ==> mapping[i].0@ != mapping[j].0@
}

/// An extension with its leading '.' added where it lacks one.
pub open spec fn normalized(ext: Seq<char>) -> Seq<char> {
    if ext.len() > 0 && ext[0] == '.' {
        ext
    } else {
        seq!['.'] + ext
    }
}

/// Whether `exts` holds an extension that normalizes to `ext`.
pub open spec fn lists_extension(exts: Seq<String>, ext: Seq<char>) -> bool {
    exists|k: int| 0 <= k < exts.len() && normalized(#[trigger] exts[k]@) == ext
}

/// The category that the declared rules (a category and its extensions, in
/// order) give to `ext`: the last declaration wins.
pub open spec fn declared_category(rules: Seq<(String, Vec<String>)>, ext: Seq<char>) -> Option<
    Seq<char>,
>
    decreases rules.len(),
{
    if rules.len() == 0 {
        None
    } else if lists_extension(rules.last().1@, ext) {
        Some(rules.last().0@)
    } else {
        declared_category(rules.drop_last(), ext)
    }
}

/// A category that names one folder: a nonempty name without '/'.
pub open spec fn is_plain_category(c: Seq<char>) -> bool {
    c.len() > 0 && has_no(c, '/')
}

impl Config {
    /// Builds the configuration of the root `target` from the declared rules,
    /// each extension normalized to start with '.', the last declaration of
    /// an extension winning, and from the ignore patterns.
    pub fn new(target: String, rules: Vec<(String, Vec<String>)>, ignored: Vec<String>) -> (r:
        Config)
        ensures
            r.target@ == target@,
            r.ignored@ == ignored@,
            keys_unique(r.mapping@),
            forall|ext: Seq<char>| category_for(r.mapping@, ext) == declared_category(rules@, ext),
    {
        let mut mapping: Vec<(String, String)> = Vec::new();
        let mut i: usize = 0;
        while i < rules.len()
            invariant
                i <= rules.len(),
                keys_unique(mapping@),
                forall|ext: Seq<char>|
                    category_for(mapping@, ext) == declared_category(rules@.subrange(0, i as int), ext),
            decreases rules.len() - i,
        {
            let category = &rules[i].0;
            let exts = &rules[i].1;
            let ghost before = mapping@;
            let mut k: usize = 0;
            while k < exts.len()
                invariant
                    i < rules.len(),
                    category == &rules@[i as int].0,
                    exts == &rules@[i as int].1,
                    k <= exts.len(),
                    keys_unique(mapping@),
                    forall|ext: Seq<char>|
                        category_for(mapping@, ext) == if lists_extension(exts@.subrange(0, k as int), ext) {
                            Some(category@)
                        } else {
                            category_for(before, ext)
                        },
                decreases exts.len() - k,
            {
                let ext = normalize_extension(&exts[k]);
                set_category(&mut mapping, ext, category.clone());
                proof {
                    let done = exts@.subrange(0, k + 1);
                    assert forall|e: Seq<char>|
                        lists_extension(done, e) == (lists_extension(exts@.subrange(0, k as int), e)
                            || normalized(exts@[k as int]@) == e) by {
                        if lists_extension(done, e) {
                            let j = choose|j: int| 0 <= j < done.len() && normalized(#[trigger] done[j]@) == e;
                            if j < k {
                                assert(exts@.subrange(0, k as int)[j] == done[j]);
                            }
                        }
                        if lists_extension(exts@.subrange(0, k as int), e) {
                            let j = choose|j: int| 0 <= j < k && normalized(#[trigger] exts@.subrange(0, k as int)[j]@) == e;
                            assert(done[j] == exts@.subrange(0, k as int)[j]);
                        }
                        if normalized(exts@[k as int]@) == e {
                            assert(done[k as int] == exts@[k as int]);
                        }
                    }
                }
                k = k + 1;
            }
            proof {
                let pre = rules@.subrange(0, i + 1);
                assert(pre.drop_last() =~= rules@.subrange(0, i as int));
                assert(exts@.subrange(0, k as int) =~= exts@);
            }
            i = i + 1;
        }
        assert(rules@.subrange(0, rules.len() as int) =~= rules@);
        Config { target, mapping, ignored }
    }
}

/// The extension `ext` with a leading '.' added where it lacks one.
pub fn normalize_extension(ext: &String) -> (r: String)
    ensures
        r@ == normalized(ext@),
{
    let s = ext.as_str();
    if s.unicode_len() > 0 && s.get_char(0) == '.' {
        ext.clone()
    } else {
        proof {
            reveal_strlit(".");
        }
        ".".to_string().concat(s)
    }
}

/// Gives `ext` the category `category`, replacing the pair that held it.
pub fn set_category(mapping: &mut Vec<(String, String)>, ext: String, category: String)
    requires
        keys_unique(old(mapping)@),
    ensures
        keys_unique(final(mapping)@),
        forall|e: Seq<char>|
            category_for(final(mapping)@, e) == if e == ext@ {
                Some(category@)
            } else {
                category_for(old(mapping)@, e)
            },
{
    let mut i: usize = 0;
    while i < mapping.len()
        invariant
            i <= mapping.len(),
            mapping@ == old(mapping)@,
            keys_unique(mapping@),
            forall|j: int| 0 <= j < i ==> mapping@[j].0@ != ext@,
        decreases mapping.len() - i,
    {
        if mapping[i].0 == ext {
            let ghost pre = mapping@;
            mapping.set(i, (ext, category));
            proof {
                lemma_category_after_set(pre, i as int, mapping@);
            }
            return;
        }
        i = i + 1;
    }
    let ghost pre = mapping@;
    mapping.push((ext, category));
    proof {
        assert(mapping@.drop_last() =~= pre);
        assert forall|e: Seq<char>| e != ext@ implies category_for(mapping@, e) == category_for(pre, e) by {}
    }
}

proof fn lemma_category_absent(m: Seq<(String, String)>, ext: Seq<char>)
    requires
        forall|j: int| 0 <= j < m.len() ==> m[j].0@ != ext,
    ensures
        category_for(m, ext) is None,
    decreases m.len(),
{
    if m.len() > 0 {
        lemma_category_absent(m.drop_last(), ext);
    }
}

/// Replacing the pair at `i` by one with the same extension changes the
/// category of that extension alone.
proof fn lemma_category_after_set(pre: Seq<(String, String)>, i: int, post: Seq<(String, String)>)
    requires
        keys_unique(pre),
        0 <= i < pre.len(),
        post.len() == pre.len(),
        post[i].0@ == pre[i].0@,
        forall|j: int| 0 <= j < pre.len() && j != i ==> post[j] == pre[j],
    ensures
        keys_unique(post),
        forall|e: Seq<char>|
            category_for(post, e) == if e == pre[i].0@ {
                Some(post[i].1@)
            } else {
                category_for(pre, e)
            },
    decreases pre.len(),
{
    assert forall|a: int, b: int| 0 <= a < b < post.len() implies post[a].0@ != post[b].0@ by {
        assert(pre[a].0@ != pre[b].0@);
    }
    if i == pre.len() - 1 {
        assert(post.drop_last() =~= pre.drop_last());
        assert forall|j: int| 0 <= j < pre.drop_last().len() implies pre.drop_last()[j].0@ != pre[i].0@ by {
            assert(pre[j].0@ != pre[i].0@);
        }
        lemma_category_absent(pre.drop_last(), pre[i].0@);
        assert forall|e: Seq<char>|
            category_for(post, e) == if e == pre[i].0@ {
                Some(post[i].1@)
            } else {
                category_for(pre, e)
            } by {}
    } else {
        assert(post.last() == pre.last());
        assert(pre.last().0@ != pre[i].0@);
        assert(pre.drop_last()[i] == pre[i]);
        lemma_category_after_set(pre.drop_last(), i, post.drop_last());
        assert forall|e: Seq<char>|
            category_for(post, e) == if e == pre[i].0@ {
                Some(post[i].1@)
            } else {
                category_for(pre, e)
            } by {
            assert(post.drop_last()[i] == post[i]);
            if post.last().0@ == e {
                assert(category_for(post, e) == Some(post.last().1@));
                assert(category_for(pre, e) == Some(pre.last().1@));
            } else {
                assert(category_for(post, e) == category_for(post.drop_last(), e));
                assert(category_for(pre, e) == category_for(pre.drop_last(), e));
            }
        }
    }
}

} // verus!
