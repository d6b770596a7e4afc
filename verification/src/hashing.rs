use vstd::prelude::*;
use crate::format::push_char;
use crate::text::{copy_strings, spec_ascii_lower, eq_ignore_ascii_case, views};

verus! {

/// The 64-bit xxHash (seed 0) of `data`, as the `xxhash-rust` crate computes it.
pub uninterp spec fn xxh64_of(data: Seq<u8>) -> u64;

/// Hashes `data` with `xxhash_rust::xxh64::xxh64` and seed 0; the result is
/// the crate's XXH64 digest of the bytes.
#[verifier::external_body]
fn xxh64_digest(data: &[u8]) -> (r: u64)
    ensures
        r == xxh64_of(data@),
{
    xxhash_rust::xxh64::xxh64(data, 0)
}

/// Lower-case hexadecimal digit of `d` (below 16).
pub open spec fn hex_char(d: nat) -> char {
    if d < 10 {
        ((48 + d) as u8) as char
    } else {
        ((87 + d) as u8) as char
    }
}

/// The `n` lowest hexadecimal digits of `v`, most significant first.
pub open spec fn hex_digits(v: nat, n: nat) -> Seq<char>
    decreases n,
{
    if n == 0 {
        Seq::empty()
    } else {
        hex_digits(v / 16, (n - 1) as nat).push(hex_char(v % 16))
    }
}

fn hex_digit(d: u64) -> (c: char)
    requires
        d < 16,
    ensures
        c == hex_char(d as nat),
{
    if d < 10 {
        ((d as u8) + 48u8) as char
    } else {
        ((d as u8) + 87u8) as char
    }
}

fn hex_string(v: u64, n: u32) -> (r: String)
    ensures
        r@ == hex_digits(v as nat, n as nat),
    decreases n,
{
    if n == 0 {
        let r = String::new();
        proof {
            assert(r@ =~= Seq::<char>::empty());
        }
        r
    } else {
        let mut r = hex_string(v / 16, n - 1);
        push_char(&mut r, hex_digit(v % 16));
        r
    }
}

/// The xxHash of `content` as 16 lower-case hexadecimal digits.
pub fn content_xxhash(content: &[u8]) -> (r: String)
    ensures
        r@ == hex_digits(xxh64_of(content@) as nat, 16),
{
    hex_string(xxh64_digest(content), 16)
}

/// White space as `char::is_whitespace` documents it: the chars with the
/// Unicode `White_Space` property.
pub open spec fn spec_is_whitespace(c: char) -> bool {
    ||| ('\u{9}' <= c && c <= '\u{d}')
    ||| c == ' '
    ||| c == '\u{85}'
    ||| c == '\u{a0}'
    ||| c == '\u{1680}'
    ||| ('\u{2000}' <= c && c <= '\u{200a}')
    ||| c == '\u{2028}'
    ||| c == '\u{2029}'
    ||| c == '\u{202f}'
    ||| c == '\u{205f}'
    ||| c == '\u{3000}'
}

/// `s` without its leading white space.
pub open spec fn trim_start(s: Seq<char>) -> Seq<char>
    decreases s.len(),
{
    if s.len() > 0 && spec_is_whitespace(s[0]) {
        trim_start(s.drop_first())
    } else {
        s
    }
}

/// `s` without its trailing white space.
pub open spec fn trim_end_ws(s: Seq<char>) -> Seq<char>
    decreases s.len(),
{
    if s.len() > 0 && spec_is_whitespace(s.last()) {
        trim_end_ws(s.drop_last())
    } else {
        s
    }
}

/// `s` without leading and trailing white space (as `str::trim`).
pub open spec fn spec_trim(s: Seq<char>) -> Seq<char> {
    trim_end_ws(trim_start(s))
}

/// Two character sequences are equal once ASCII letters are folded to lower
/// case (as `str::eq_ignore_ascii_case`).
pub open spec fn spec_eq_ignore_ascii_case(a: Seq<char>, b: Seq<char>) -> bool {
    &&& a.len() == b.len()
    &&& forall|i: int| 0 <= i < a.len() ==> spec_ascii_lower(a[i]) == spec_ascii_lower(b[i])
}

/// An expected hash that, trimmed, equals the actual one ignoring ASCII case.
pub open spec fn hash_accepted(expected: Seq<Seq<char>>, actual: Seq<char>) -> bool {
    exists|i: int| 0 <= i < expected.len() && spec_eq_ignore_ascii_case(spec_trim(#[trigger] expected[i]), actual)
}

fn is_whitespace(c: char) -> (r: bool)
    ensures
        r == spec_is_whitespace(c),
{
    ('\u{9}' <= c && c <= '\u{d}') || c == ' ' || c == '\u{85}' || c == '\u{a0}' || c == '\u{1680}'
        || ('\u{2000}' <= c && c <= '\u{200a}') || c == '\u{2028}' || c == '\u{2029}' || c
        == '\u{202f}' || c == '\u{205f}' || c == '\u{3000}'
}

/// Whether `expected`, without surrounding white space, equals `actual`
/// ignoring ASCII case.
fn trimmed_matches(expected: &str, actual: &str) -> (r: bool)
    ensures
        r == spec_eq_ignore_ascii_case(spec_trim(expected@), actual@),
{
    let n = expected.unicode_len();
    let mut start: usize = 0;
    proof {
        assert(expected@.subrange(0, n as int) =~= expected@);
    }
    while start < n && is_whitespace(expected.get_char(start))
        invariant
            n == expected@.len(),
            start <= n,
            trim_start(expected@) == trim_start(expected@.subrange(start as int, n as int)),
        decreases n - start,
    {
        proof {
            assert(expected@.subrange(start as int, n as int).drop_first() =~= expected@.subrange(
                start + 1,
                n as int,
            ));
        }
        start = start + 1;
    }
    let mut end: usize = n;
    while end > start && is_whitespace(expected.get_char(end - 1))
        invariant
            n == expected@.len(),
            start <= end <= n,
            spec_trim(expected@) == trim_end_ws(expected@.subrange(start as int, end as int)),
        decreases end,
    {
        proof {
            assert(expected@.subrange(start as int, end as int).drop_last() =~= expected@.subrange(
                start as int,
                end - 1,
            ));
        }
        end = end - 1;
    }
    let ghost trimmed = expected@.subrange(start as int, end as int);
    assert(spec_trim(expected@) == trimmed);
    let m = actual.unicode_len();
    if end - start != m {
        return false;
    }
    let mut i: usize = 0;
    while i < m
        invariant
            m == actual@.len(),
            start + m == end <= n,
            n == expected@.len(),
            i <= m,
            trimmed == expected@.subrange(start as int, end as int),
            trimmed == spec_trim(expected@),
            forall|j: int|
                0 <= j < i ==> spec_ascii_lower(#[trigger] trimmed[j]) == spec_ascii_lower(
                    actual@[j],
                ),
        decreases m - i,
    {
        if !eq_ignore_ascii_case(expected.get_char(start + i), actual.get_char(i)) {
            assert(trimmed[i as int] == expected@[start + i]);
            return false;
        }
        i = i + 1;
    }
    true
}

/// The hash of a downloaded archive did not match any expected hash.
pub struct HashMismatch {
    pub actual: String,
    pub expected: Vec<String>,
}

/// Checks downloaded content against the expected hashes: it passes, giving
/// the actual hash, exactly when one expected hash, trimmed, equals the
/// content's xxHash (16 hexadecimal digits) ignoring ASCII case.
pub fn verify_xxhash(content: &[u8], expected_hashes: &[String]) -> (r: Result<String, HashMismatch>)
    ensures
        match r {
            Ok(actual) => {
                &&& actual@ == hex_digits(xxh64_of(content@) as nat, 16)
                &&& hash_accepted(views(expected_hashes@), actual@)
            },
            Err(e) => {
                &&& e.actual@ == hex_digits(xxh64_of(content@) as nat, 16)
                &&& !hash_accepted(views(expected_hashes@), e.actual@)
                &&& views(e.expected@) == views(expected_hashes@)
            },
        },
{
    let actual = content_xxhash(content);
    let n = expected_hashes.len();
    for i in 0..n
        invariant
            n == expected_hashes@.len(),
            actual@ == hex_digits(xxh64_of(content@) as nat, 16),
            forall|j: int|
                0 <= j < i ==> !spec_eq_ignore_ascii_case(
                    spec_trim(#[trigger] expected_hashes@[j]@),
                    actual@,
                ),
    {
        if trimmed_matches(expected_hashes[i].as_str(), actual.as_str()) {
            assert(views(expected_hashes@)[i as int] == expected_hashes@[i as int]@);
            assert(spec_eq_ignore_ascii_case(spec_trim(views(expected_hashes@)[i as int]), actual@));
            assert(hash_accepted(views(expected_hashes@), actual@));
            return Ok(actual);
        }
    }
    proof {
        assert forall|j: int| 0 <= j < views(expected_hashes@).len() implies !spec_eq_ignore_ascii_case(
            spec_trim(#[trigger] views(expected_hashes@)[j]),
            actual@,
        ) by {
            assert(views(expected_hashes@)[j] == expected_hashes@[j]@);
        }
    }
    let mut expected: Vec<String> = Vec::new();
    for i in 0..n
        invariant
            n == expected_hashes@.len(),
            expected.len() == i,
            forall|j: int| 0 <= j < i ==> #[trigger] expected@[j]@ == expected_hashes@[j]@,
    {
        expected.push(expected_hashes[i].clone());
    }
    assert(views(expected@) =~= views(expected_hashes@));
    Err(HashMismatch { actual, expected })
}

} // verus!

verus! {

/// `c` is a lower-case hexadecimal digit.
pub open spec fn is_lower_hex(c: char) -> bool {
    ('0' <= c && c <= '9') || ('a' <= c && c <= 'f')
}

/// The value of a hexadecimal digit.
pub open spec fn hex_value(c: char) -> int {
    if '0' <= c && c <= '9' {
        c as int - '0' as int
    } else {
        c as int - 'a' as int + 10
    }
}

/// A string of hexadecimal digits read as a number, most significant first.
pub open spec fn read_hex(s: Seq<char>) -> int
    decreases s.len(),
{
    if s.len() == 0 {
        0
    } else {
        read_hex(s.drop_last()) * 16 + hex_value(s.last())
    }
}

/// Sixteen to the power `n`.
pub open spec fn pow16(n: nat) -> nat
    decreases n,
{
    if n == 0 {
        1
    } else {
        16 * pow16((n - 1) as nat)
    }
}

/// Below `16^n`, the `n` digits of `v` are lower-case hexadecimal digits that
/// read back as `v`.
pub proof fn lemma_hex_digits_read_back(v: nat, n: nat)
    requires
        v < pow16(n),
    ensures
        hex_digits(v, n).len() == n,
        forall|i: int| 0 <= i < n ==> is_lower_hex(#[trigger] hex_digits(v, n)[i]),
        read_hex(hex_digits(v, n)) == v,
    decreases n,
{
    if n > 0 {
        let p = pow16((n - 1) as nat);
        assert(v / 16 < p) by (nonlinear_arith)
            requires
                v < 16 * p,
        ;
        lemma_hex_digits_read_back(v / 16, (n - 1) as nat);
        let h = hex_digits(v / 16, (n - 1) as nat);
        let d = v % 16;
        let c = hex_char(d);
        assert(hex_digits(v, n) == h.push(c));
        assert(h.push(c).drop_last() =~= h);
        if d < 10 {
            assert(c as int == 48 + d);
        } else {
            assert(c as int == 87 + d);
        }
        assert(is_lower_hex(c) && hex_value(c) == d);
        assert(v / 16 * 16 + v % 16 == v) by (nonlinear_arith);
        assert forall|i: int| 0 <= i < n implies is_lower_hex(#[trigger] hex_digits(v, n)[i]) by {
            if i < n - 1 {
                assert(hex_digits(v, n)[i] == h[i]);
            }
        }
    }
}

/// The digest string that `content_xxhash` and `verify_xxhash` give is the
/// standard rendering of the hash: sixteen lower-case hexadecimal digits
/// that, read in base 16, give back `xxh64_of(content)`.
pub proof fn lemma_digest_is_hex_of_hash(content: Seq<u8>)
    ensures
        hex_digits(xxh64_of(content) as nat, 16).len() == 16,
        forall|i: int|
            0 <= i < 16 ==> is_lower_hex(#[trigger] hex_digits(xxh64_of(content) as nat, 16)[i]),
        read_hex(hex_digits(xxh64_of(content) as nat, 16)) == xxh64_of(content),
{
    reveal_with_fuel(pow16, 17);
    assert(pow16(16) == 0x1_0000_0000_0000_0000);
    lemma_hex_digits_read_back(xxh64_of(content) as nat, 16);
}

} // verus!
