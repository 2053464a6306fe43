use vstd::prelude::*;

verus! {

/// Index of the last occurrence of `c` in `s`, or -1 when there is none.
pub open spec fn last_index(s: Seq<char>, c: char) -> int
    decreases s.len(),
{
    if s.len() == 0 {
        -1
    } else if s.last() == c {
        s.len() - 1
    } else {
        last_index(s.drop_last(), c)
    }
}

/// The final segment of a path: what follows its last '/'. Paths are taken as
/// the directory walk gives them, with no trailing or doubled '/': for "a/b/"
/// the segment is empty, where `std::path::Path` would give "b".
pub open spec fn name_of(p: Seq<char>) -> Seq<char> {
    p.subrange(last_index(p, '/') + 1, p.len() as int)
}

/// The path without its final segment; "/" for a segment right under the root,
/// empty for a bare name. Only the last '/' is dropped: the parent of "a//b"
/// is "a/", where `std::path::Path` would give "a".
pub open spec fn parent_of(p: Seq<char>) -> Seq<char> {
    let k = last_index(p, '/');
    if k < 0 {
        Seq::empty()
    } else if k == 0 {
        seq!['/']
    } else {
        p.subrange(0, k)
    }
}

/// The extension of a file name, from its last '.' inclusive; empty when the
/// name has no '.' but at its start.
pub open spec fn extension_of(name: Seq<char>) -> Seq<char> {
    let d = last_index(name, '.');
    if d <= 0 {
        Seq::empty()
    } else {
        name.subrange(d, name.len() as int)
    }
}

/// The file name without its extension.
pub open spec fn stem_of(name: Seq<char>) -> Seq<char> {
    let d = last_index(name, '.');
    if d <= 0 {
        name
    } else {
        name.subrange(0, d)
    }
}

/// `a` followed by the segment `b`, with one '/' between them.
pub open spec fn join(a: Seq<char>, b: Seq<char>) -> Seq<char> {
    if a.len() == 0 {
        b
    } else if a.last() == '/' {
        a + b
    } else {
        a + seq!['/'] + b
    }
}

pub open spec fn has_no(s: Seq<char>, c: char) -> bool {
    forall|i: int| 0 <= i < s.len() ==> s[i] != c
}

pub proof fn lemma_last_index(s: Seq<char>, c: char)
    ensures
        -1 <= last_index(s, c) < s.len(),
        last_index(s, c) >= 0 ==> s[last_index(s, c)] == c,
        forall|k: int| last_index(s, c) < k < s.len() ==> s[k] != c,
    decreases s.len(),
{
    if s.len() > 0 && s.last() != c {
        lemma_last_index(s.drop_last(), c);
        assert forall|k: int| last_index(s, c) < k < s.len() implies s[k] != c by {
            if k < s.len() - 1 {
                assert(s.drop_last()[k] == s[k]);
            }
        }
    }
}

/// The last occurrence of `c` in `a + b`, where `b` holds no `c`, is that in `a`.
pub proof fn lemma_last_index_append(a: Seq<char>, b: Seq<char>, c: char)
    requires
        has_no(b, c),
    ensures
        last_index(a + b, c) == last_index(a, c),
    decreases b.len(),
{
    if b.len() == 0 {
        assert(a + b =~= a);
    } else {
        assert((a + b).drop_last() =~= a + b.drop_last());
        lemma_last_index_append(a, b.drop_last(), c);
    }
}

/// Joining a segment without '/' to a nonempty path: the segment is the name,
/// and the parent is the path itself unless it ends in '/'.
pub proof fn lemma_join_segment(a: Seq<char>, b: Seq<char>)
    requires
        a.len() > 0,
        has_no(b, '/'),
    ensures
        name_of(join(a, b)) == b,
        a.last() != '/' ==> parent_of(join(a, b)) == a,
{
    let j = join(a, b);
    if a.last() == '/' {
        lemma_last_index_append(a, b, '/');
        assert(a[a.len() - 1] == '/');
        assert(last_index(a, '/') == a.len() - 1) by {
            assert(a.drop_last().push(a.last()) =~= a);
        }
        assert(j.subrange(a.len() as int, j.len() as int) =~= b);
    } else {
        let a1 = a + seq!['/'];
        lemma_last_index_append(a1, b, '/');
        assert(last_index(a1, '/') == a.len()) by {
            assert(a1.last() == '/');
        }
        assert(j.subrange(a.len() as int + 1, j.len() as int) =~= b);
        assert(j.subrange(0, a.len() as int) =~= a);
    }
}

/// Finds the last occurrence of `c` in `s`.
pub fn find_last(s: &str, c: char) -> (r: Option<usize>)
    ensures
        match r {
            Some(i) => i == last_index(s@, c),
            None => last_index(s@, c) == -1,
        },
{
    let n = s.unicode_len();
    let mut i: usize = n;
    assert(s@.subrange(0, n as int) =~= s@);
    while i > 0
        invariant
            i <= n,
            n == s@.len(),
            last_index(s@, c) == last_index(s@.subrange(0, i as int), c),
        decreases i,
    {
        if s.get_char(i - 1) == c {
            return Some(i - 1);
        }
        assert(s@.subrange(0, i as int).drop_last() =~= s@.subrange(0, i - 1));
        i = i - 1;
    }
    None
}

/// The final segment of the path `p`.
pub fn name_text(p: &str) -> (r: String)
    ensures
        r@ == name_of(p@),
{
    proof {
        lemma_last_index(p@, '/');
    }
    let n = p.unicode_len();
    let start: usize = match find_last(p, '/') {
        Some(k) => k + 1,
        None => 0,
    };
    p.substring_char(start, n).to_string()
}

/// The path `p` without its final segment.
pub fn parent_text(p: &str) -> (r: String)
    ensures
        r@ == parent_of(p@),
{
    proof {
        lemma_last_index(p@, '/');
    }
    match find_last(p, '/') {
        Some(k) => {
            if k == 0 {
                p.substring_char(0, 1).to_string()
            } else {
                p.substring_char(0, k).to_string()
            }
        },
        None => String::new(),
    }
}

/// The extension of the file name `name`, '.' included.
pub fn extension_text(name: &str) -> (r: String)
    ensures
        r@ == extension_of(name@),
{
    proof {
        lemma_last_index(name@, '.');
    }
    let n = name.unicode_len();
    match find_last(name, '.') {
        Some(d) => {
            if d == 0 {
                String::new()
            } else {
                name.substring_char(d, n).to_string()
            }
        },
        None => String::new(),
    }
}

/// The file name `name` without its extension.
pub fn stem_text(name: &str) -> (r: String)
    ensures
        r@ == stem_of(name@),
{
    proof {
        lemma_last_index(name@, '.');
    }
    let n = name.unicode_len();
    match find_last(name, '.') {
        Some(d) => {
            if d == 0 {
                name.to_string()
            } else {
                name.substring_char(0, d).to_string()
            }
        },
        None => name.to_string(),
    }
}

/// The path `a` followed by the segment `b`.
pub fn join_path(a: &str, b: &str) -> (r: String)
    ensures
        r@ == join(a@, b@),
{
    let n = a.unicode_len();
    if n == 0 {
        b.to_string()
    } else if a.get_char(n - 1) == '/' {
        a.to_string().concat(b)
    } else {
        proof {
            reveal_strlit("/");
        }
        a.to_string().concat("/").concat(b)
    }
}

} // verus!
