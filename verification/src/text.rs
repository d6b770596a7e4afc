use vstd::prelude::*;

verus! {

/// ASCII letter, as `char::is_ascii_alphabetic` documents it.
pub open spec fn spec_ascii_alpha(c: char) -> bool {
    (97 <= (c as u32) && (c as u32) <= 122) || (65 <= (c as u32) && (c as u32) <= 90)
}

/// ASCII digit.
pub open spec fn spec_ascii_digit(c: char) -> bool {
    48 <= (c as u32) && (c as u32) <= 57
}

/// ASCII letter or digit, as `char::is_ascii_alphanumeric` documents it.
pub open spec fn spec_ascii_alnum(c: char) -> bool {
    spec_ascii_alpha(c) || spec_ascii_digit(c)
}

/// Code point of the lower-case form of an ASCII upper-case letter; every
/// other char keeps its own code point.
pub open spec fn spec_ascii_lower(c: char) -> u32 {
    if 65 <= (c as u32) && (c as u32) <= 90 {
        ((c as u32) + 32) as u32
    } else {
        c as u32
    }
}

pub fn is_ascii_alpha(c: char) -> (r: bool)
    ensures
        r == spec_ascii_alpha(c),
{
    let x = c as u32;
    (97 <= x && x <= 122) || (65 <= x && x <= 90)
}

pub fn is_ascii_alnum(c: char) -> (r: bool)
    ensures
        r == spec_ascii_alnum(c),
{
    let x = c as u32;
    is_ascii_alpha(c) || (48 <= x && x <= 57)
}

/// Equality of two chars once ASCII letters are folded to lower case.
pub fn eq_ignore_ascii_case(a: char, b: char) -> (r: bool)
    ensures
        r == (spec_ascii_lower(a) == spec_ascii_lower(b)),
{
    let xa = a as u32;
    let xb = b as u32;
    let la: u32 = if 65 <= xa && xa <= 90 { xa + 32 } else { xa };
    let lb: u32 = if 65 <= xb && xb <= 90 { xb + 32 } else { xb };
    la == lb
}

/// Character-wise equality of two strings.
pub fn str_equal(a: &str, b: &str) -> (r: bool)
    ensures
        r == (a@ == b@),
{
    let n = a.unicode_len();
    if n != b.unicode_len() {
        return false;
    }
    let mut i: usize = 0;
    while i < n
        invariant
            n == a@.len(),
            n == b@.len(),
            i <= n,
            forall|j: int| 0 <= j < i ==> a@[j] == b@[j],
        decreases n - i,
    {
        if a.get_char(i) != b.get_char(i) {
            return false;
        }
        i = i + 1;
    }
    assert(a@ =~= b@);
    true
}

} // verus!

verus! {

/// Chars with the same code point are the same char.
pub proof fn lemma_char_code_injective(a: char, b: char)
    requires
        a as u32 == b as u32,
    ensures
        a == b,
{
}

/// The character sequences of a sequence of strings.
pub open spec fn views(v: Seq<String>) -> Seq<Seq<char>> {
    Seq::new(v.len(), |i: int| v[i]@)
}

/// Whether one of the strings of `v` equals `s`.
pub fn contains_string(v: &[String], s: &str) -> (r: bool)
    ensures
        r == views(v@).contains(s@),
{
    let n = v.len();
    let mut i: usize = 0;
    while i < n
        invariant
            n == v@.len(),
            i <= n,
            forall|j: int| 0 <= j < i ==> v@[j]@ != s@,
        decreases n - i,
    {
        if str_equal(v[i].as_str(), s) {
            assert(views(v@)[i as int] == s@);
            return true;
        }
        i = i + 1;
    }
    proof {
        if views(v@).contains(s@) {
            let j = views(v@).index_of(s@);
            assert(v@[j]@ == s@);
        }
    }
    false
}

} // verus!

verus! {

/// What a sequence holds after one more element.
pub proof fn lemma_push_contains<A>(s: Seq<A>, x: A)
    ensures
        forall|q: A| #[trigger] s.push(x).contains(q) <==> s.contains(q) || q == x,
{
    assert forall|q: A| #[trigger] s.push(x).contains(q) <==> s.contains(q) || q == x by {
        if s.push(x).contains(q) {
            let j = s.push(x).index_of(q);
            if j < s.len() {
                assert(s[j] == q);
            }
        }
        if s.contains(q) {
            let j = s.index_of(q);
            assert(s.push(x)[j] == q);
        }
        if q == x {
            assert(s.push(x)[s.len() as int] == q);
        }
    }
}

/// What a prefix holds once it is one element longer.
pub proof fn lemma_take_next<A>(s: Seq<A>, i: int)
    requires
        0 <= i < s.len(),
    ensures
        s.take(i + 1) == s.take(i).push(s[i]),
        forall|q: A| #[trigger] s.take(i + 1).contains(q) <==> s.take(i).contains(q) || q == s[i],
{
    assert(s.take(i + 1) =~= s.take(i).push(s[i]));
    lemma_push_contains(s.take(i), s[i]);
}

} // verus!

verus! {

/// A copy of a list of strings.
pub fn copy_strings(v: &Vec<String>) -> (r: Vec<String>)
    ensures
        views(r@) == views(v@),
{
    let mut r: Vec<String> = Vec::new();
    let n = v.len();
    for i in 0..n
        invariant
            n == v@.len(),
            r.len() == i,
            forall|j: int| 0 <= j < i ==> #[trigger] r@[j]@ == v@[j]@,
    {
        r.push(v[i].clone());
    }
    assert(views(r@) =~= views(v@));
    r
}

} // verus!
