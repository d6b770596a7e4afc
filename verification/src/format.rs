use vstd::prelude::*;

verus! {

/// Appends one char to a string (`String::push`, which the standard library
/// documents as appending the char to the end of the string).
#[verifier::external_body]
pub(crate) fn push_char(s: &mut String, c: char)
    ensures
        final(s)@ == old(s)@.push(c),
{
    s.push(c);
}

/// The ASCII digit of `d`.
pub open spec fn digit_char(d: nat) -> char {
    ((48 + d) as u8) as char
}

/// Decimal notation of `n`, without leading zeros.
pub open spec fn decimal(n: nat) -> Seq<char>
    decreases n,
{
    if n < 10 {
        seq![digit_char(n)]
    } else {
        decimal(n / 10).push(digit_char(n % 10))
    }
}

/// `s` without its trailing occurrences of `c`.
pub open spec fn trim_end(s: Seq<char>, c: char) -> Seq<char>
    decreases s.len(),
{
    if s.len() > 0 && s.last() == c {
        trim_end(s.drop_last(), c)
    } else {
        s
    }
}

fn digit(d: u32) -> (c: char)
    requires
        d < 10,
    ensures
        c == digit_char(d as nat),
{
    ((d as u8) + 48u8) as char
}

/// Decimal notation of `n`.
pub fn decimal_string(n: u32) -> (r: String)
    ensures
        r@ == decimal(n as nat),
    decreases n,
{
    if n < 10 {
        let mut s = String::new();
        push_char(&mut s, digit(n));
        proof {
            assert(s@ =~= seq![digit_char(n as nat)]);
        }
        s
    } else {
        let mut s = decimal_string(n / 10);
        push_char(&mut s, digit(n % 10));
        s
    }
}

/// `s` without its trailing `/` characters.
pub fn trim_trailing_slashes(s: &str) -> (r: String)
    ensures
        r@ == trim_end(s@, '/'),
{
    let mut k = s.unicode_len();
    proof {
        assert(s@.subrange(0, k as int) =~= s@);
    }
    while k > 0 && s.get_char(k - 1) == '/'
        invariant
            k <= s@.len(),
            trim_end(s@, '/') == trim_end(s@.subrange(0, k as int), '/'),
        decreases k,
    {
        proof {
            assert(s@.subrange(0, k as int).drop_last() =~= s@.subrange(0, k - 1));
        }
        k = k - 1;
    }
    let part = s.substring_char(0, k);
    String::from_str(part)
}

/// The address of `path` below a mirror: the mirror address without its
/// trailing slashes, a slash, then the path.
pub fn mirror_url(mirror: &str, path: &str) -> (r: String)
    ensures
        r@ == trim_end(mirror@, '/') + "/"@ + path@,
{
    let mut r = trim_trailing_slashes(mirror);
    r.append("/");
    r.append(path);
    r
}

/// The download address of a GameBanana file below a mirror.
pub fn download_url(mirror: &str, file_id: u32) -> (r: String)
    ensures
        r@ == trim_end(mirror@, '/') + "/"@ + decimal(file_id as nat),
{
    let id = decimal_string(file_id);
    mirror_url(mirror, id.as_str())
}

} // verus!
