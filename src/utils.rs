use vstd::prelude::*;
use vstd::set_lib::lemma_len_subset;
use crate::file_entry::FileEntry;
use crate::paths::{extension_of, name_of, stem_of};

verus! {

/// The CRC-64/ECMA-182 checksum of a byte sequence.
pub uninterp spec fn crc64_ecma(bytes: Seq<u8>) -> u64;

/// Relies on crc::Crc::<u64>::checksum, with the catalog algorithm
/// CRC_64_ECMA_182: the digest depends on the bytes alone.
#[verifier::external_body]
fn crc64(bytes: &[u8]) -> (r: u64)
    ensures
        r == crc64_ecma(bytes@),
{
    crc::Crc::<u64>::new(&crc::CRC_64_ECMA_182).checksum(bytes)
}

pub open spec fn hex_chars() -> Seq<char> {
    seq!['0', '1', '2', '3', '4', '5', '6', '7', '8', '9', 'a', 'b', 'c', 'd', 'e', 'f']
}

/// The `n` lowest hexadecimal digits of `d`, most significant first.
pub open spec fn hex_of(d: nat, n: nat) -> Seq<char>
    decreases n,
{
    if n == 0 {
        Seq::empty()
    } else {
        hex_of(d / 16, (n - 1) as nat).push(hex_chars()[(d % 16) as int])
    }
}

/// The decimal digits of `n`.
pub open spec fn decimal_of(n: nat) -> Seq<char>
    decreases n,
{
    if n < 10 {
        seq![hex_chars()[n as int]]
    } else {
        decimal_of(n / 10).push(hex_chars()[(n % 10) as int])
    }
}

/// The checksum text of a file content: its CRC-64 in 16 lowercase
/// hexadecimal digits.
pub open spec fn checksum_of(content: Seq<u8>) -> Seq<char> {
    hex_of(crc64_ecma(content) as nat, 16)
}

/// The name "<stem>_<n><ext>".
pub open spec fn numbered_name(stem: Seq<char>, ext: Seq<char>, n: nat) -> Seq<char> {
    stem + seq!['_'] + decimal_of(n) + ext
}

pub proof fn lemma_hex_len(d: nat, n: nat)
    ensures
        hex_of(d, n).len() == n,
    decreases n,
{
    if n > 0 {
        lemma_hex_len(d / 16, (n - 1) as nat);
    }
}

fn hex_text(d: u64, n: usize) -> (r: String)
    ensures
        r@ == hex_of(d as nat, n as nat),
    decreases n,
{
    if n == 0 {
        String::new()
    } else {
        let head = hex_text(d / 16, n - 1);
        let k = (d % 16) as usize;
        let digits = "0123456789abcdef";
        proof {
            reveal_strlit("0123456789abcdef");
            assert(digits@ =~= hex_chars());
        }
        let r = head.concat(digits.substring_char(k, k + 1));
        assert(r@ =~= hex_of(d as nat, n as nat));
        r
    }
}

fn decimal_text(n: u128) -> (r: String)
    ensures
        r@ == decimal_of(n as nat),
    decreases n,
{
    let digits = "0123456789";
    proof {
        reveal_strlit("0123456789");
        assert(digits@ =~= hex_chars().subrange(0, 10));
    }
    if n < 10 {
        let k = n as usize;
        let r = digits.substring_char(k, k + 1).to_string();
        assert(r@ =~= decimal_of(n as nat));
        r
    } else {
        let head = decimal_text(n / 10);
        let k = (n % 10) as usize;
        let r = head.concat(digits.substring_char(k, k + 1));
        assert(r@ =~= decimal_of(n as nat));
        r
    }
}

/// The checksum of a file's content: CRC-64/ECMA-182 over all its bytes in
/// order, as 16 lowercase hexadecimal digits.
pub fn content_checksum(content: &[u8]) -> (r: String)
    ensures
        r@ == checksum_of(content@),
        r@.len() == 16,
{
    proof {
        lemma_hex_len(crc64_ecma(content@) as nat, 16);
    }
    hex_text(crc64(content), 16)
}

/// The checksum depends on the content alone: the same bytes, wherever and
/// whenever read, give the same digest text.
pub proof fn lemma_checksum_determined(a: Seq<u8>, b: Seq<u8>)
    requires
        a == b,
    ensures
        checksum_of(a) == checksum_of(b),
{
}

proof fn lemma_decimal_nonempty(n: nat)
    ensures
        decimal_of(n).len() >= 1,
        n >= 10 ==> decimal_of(n).len() >= 2,
    decreases n,
{
    if n >= 10 {
        lemma_decimal_nonempty(n / 10);
    }
}

/// Distinct numbers have distinct decimal texts.
proof fn lemma_decimal_injective(a: nat, b: nat)
    requires
        decimal_of(a) == decimal_of(b),
    ensures
        a == b,
    decreases a,
{
    lemma_decimal_nonempty(a);
    lemma_decimal_nonempty(b);
    if a >= 10 && b >= 10 {
        let da = decimal_of(a);
        let db = decimal_of(b);
        assert(da.drop_last() =~= decimal_of(a / 10));
        assert(db.drop_last() =~= decimal_of(b / 10));
        lemma_decimal_injective(a / 10, b / 10);
        assert(da.last() == hex_chars()[(a % 10) as int]);
        assert(db.last() == hex_chars()[(b % 10) as int]);
    } else if a < 10 && b < 10 {
        assert(decimal_of(a)[0] == hex_chars()[a as int]);
        assert(decimal_of(b)[0] == hex_chars()[b as int]);
    }
}

/// Distinct numbers give distinct numbered names.
pub proof fn lemma_numbered_injective(stem: Seq<char>, ext: Seq<char>, a: nat, b: nat)
    requires
        numbered_name(stem, ext, a) == numbered_name(stem, ext, b),
    ensures
        a == b,
{
    let p = stem + seq!['_'];
    let x = numbered_name(stem, ext, a);
    let y = numbered_name(stem, ext, b);
    assert(x.len() == p.len() + decimal_of(a).len() + ext.len());
    assert(y.len() == p.len() + decimal_of(b).len() + ext.len());
    assert(decimal_of(a).len() == decimal_of(b).len());
    assert(x.subrange(p.len() as int, p.len() + decimal_of(a).len() as int) =~= decimal_of(a));
    assert(y.subrange(p.len() as int, p.len() + decimal_of(b).len() as int) =~= decimal_of(b));
    lemma_decimal_injective(a, b);
}

/// `r` is "<stem>_<n><ext>" for the least `n` from 1 up that gives a name
/// outside `taken`.
pub open spec fn is_first_free_name(
    stem: Seq<char>,
    ext: Seq<char>,
    taken: Seq<Seq<char>>,
    r: Seq<char>,
) -> bool {
    exists|n: nat|
        n >= 1 && r == numbered_name(stem, ext, n) && !taken.contains(r) && forall|k: nat|
            1 <= k < n ==> taken.contains(#[trigger] numbered_name(stem, ext, k))
}

/// A name for a duplicate of `file` in a folder that already holds the entries
/// named in `taken`: "<stem>_<n><ext>" with the least `n` from 1 up whose name
/// is free.
pub fn generate_unique_filename(file: &FileEntry, taken: &Vec<String>) -> (r: String)
    ensures
        is_first_free_name(
            stem_of(name_of(file@)),
            extension_of(name_of(file@)),
            taken@.map_values(|s: String| s@),
            r@,
        ),
{
    let stem = file.stem();
    let ext = file.extension();
    let ghost names = taken@.map_values(|s: String| s@);
    let ghost mut used: Set<Seq<char>> = Set::empty();
    proof {
        names.lemma_cardinality_of_set();
    }
    let mut n: u128 = 1;
    loop
        invariant
            1 <= n <= taken@.len() + 1,
            stem@ == stem_of(name_of(file@)),
            ext@ == extension_of(name_of(file@)),
            names == taken@.map_values(|s: String| s@),
            names.to_set().len() <= taken@.len(),
            used.finite(),
            used.len() == n - 1,
            used.subset_of(names.to_set()),
            forall|x: Seq<char>|
                #[trigger] used.contains(x) ==> exists|k: nat| 1 <= k < n && x == numbered_name(stem@, ext@, k),
            forall|k: nat| 1 <= k < n ==> names.contains(#[trigger] numbered_name(stem@, ext@, k)),
        decreases taken@.len() + 1 - n,
    {
        proof {
            reveal_strlit("_");
        }
        let candidate = stem.clone().concat("_").concat(decimal_text(n).as_str()).concat(ext.as_str());
        assert(candidate@ =~= numbered_name(stem@, ext@, n as nat));
        let mut i: usize = 0;
        let mut found = false;
        while i < taken.len()
            invariant
                i <= taken@.len(),
                names == taken@.map_values(|s: String| s@),
                !found ==> forall|j: int| 0 <= j < i ==> names[j] != candidate@,
                found ==> names.contains(candidate@),
            decreases taken@.len() - i,
        {
            if taken[i] == candidate {
                found = true;
                assert(names[i as int] == candidate@);
            }
            i = i + 1;
        }
        if !found {
            assert(is_first_free_name(stem@, ext@, names, candidate@)) by {
                assert(candidate@ == numbered_name(stem@, ext@, n as nat));
            }
            return candidate;
        }
        proof {
            let c = candidate@;
            if used.contains(c) {
                let k = choose|k: nat| 1 <= k < n && c == numbered_name(stem@, ext@, k);
                lemma_numbered_injective(stem@, ext@, k, n as nat);
            }
            let next = used.insert(c);
            assert(next.subset_of(names.to_set()));
            lemma_len_subset(next, names.to_set());
            assert forall|x: Seq<char>| #[trigger] next.contains(x) implies exists|k: nat|
                1 <= k < n + 1 && x == numbered_name(stem@, ext@, k) by {
                if x == c {
                    assert(x == numbered_name(stem@, ext@, n as nat));
                } else {
                    let k = choose|k: nat| 1 <= k < n && x == numbered_name(stem@, ext@, k);
                }
            }
            used = next;
        }
        n = n + 1;
    }
}

} // verus!
