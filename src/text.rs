//! ASCII text of numbers, and the UTF-8 view of byte strings.

use vstd::prelude::*;
use vstd::string::StringSliceAdditionalSpecFns;

verus! {

/// The ASCII digit of a value below sixteen, in lower case.
pub open spec fn digit(d: nat) -> u8 {
    if d < 10 {
        (48 + d) as u8
    } else {
        (97 + d - 10) as u8
    }
}

/// The decimal text of `n`, without leading zeros.
pub open spec fn decimal(n: nat) -> Seq<u8>
    decreases n,
{
    if n < 10 {
        seq![digit(n)]
    } else {
        decimal(n / 10).push(digit(n % 10))
    }
}

/// The lower-case hexadecimal text of `n`, without leading zeros.
pub open spec fn hex(n: nat) -> Seq<u8>
    decreases n,
{
    if n < 16 {
        seq![digit(n)]
    } else {
        hex(n / 16).push(digit(n % 16))
    }
}

/// Whether every byte is below 128.
pub open spec fn all_ascii(b: Seq<u8>) -> bool {
    forall|i: int| 0 <= i < b.len() ==> b[i] < 128
}

/// What `str::from_utf8` makes of a byte string: its characters where the bytes are
/// well-formed UTF-8, nothing otherwise.
pub uninterp spec fn utf8_decode(b: Seq<u8>) -> Option<Seq<char>>;

/// Whether `s` holds, one for one, the characters whose codes are the bytes of `b`.
pub open spec fn same_ascii(s: Seq<char>, b: Seq<u8>) -> bool {
    &&& s.len() == b.len()
    &&& forall|i: int| 0 <= i < s.len() ==> s[i] as u32 == b[i] as u32
}

/// Relies on `core::str::from_utf8`: it succeeds exactly on well-formed UTF-8, the text
/// it gives is made of exactly the input bytes, and bytes below 128 are each one
/// character of that code.
#[verifier::external_body]
pub(crate) fn utf8_str(b: &[u8]) -> (r: Option<&str>)
    ensures
        r.is_some() ==> utf8_decode(b@) == Some(r.unwrap()@),
        r.is_some() ==> r.unwrap().spec_bytes() == b@,
        r.is_none() ==> utf8_decode(b@).is_none(),
        all_ascii(b@) ==> r.is_some() && same_ascii(r.unwrap()@, b@),
{
    core::str::from_utf8(b).ok()
}

pub(crate) fn push_byte(out: &mut Vec<u8>, c: u8)
    requires
        c < 128,
    ensures
        final(out)@ == old(out)@.push(c),
        all_ascii(old(out)@) ==> all_ascii(final(out)@),
{
    out.push(c);
}

fn digit_byte(d: u32) -> (r: u8)
    requires
        d < 16,
    ensures
        r == digit(d as nat),
        r < 128,
{
    if d < 10 {
        (48 + d) as u8
    } else {
        (97 + d - 10) as u8
    }
}

/// Appends the decimal text of `v`.
pub(crate) fn push_decimal(out: &mut Vec<u8>, v: u32)
    ensures
        final(out)@ == old(out)@ + decimal(v as nat),
        all_ascii(old(out)@) ==> all_ascii(final(out)@),
    decreases v,
{
    if v >= 10 {
        push_decimal(out, v / 10);
    }
    let d = digit_byte(v % 10);
    out.push(d);
}

/// Appends the hexadecimal text of `v`.
pub(crate) fn push_hex(out: &mut Vec<u8>, v: u32)
    ensures
        final(out)@ == old(out)@ + hex(v as nat),
        all_ascii(old(out)@) ==> all_ascii(final(out)@),
    decreases v,
{
    if v >= 16 {
        push_hex(out, v / 16);
    }
    let d = digit_byte(v % 16);
    out.push(d);
}

/// Turns ASCII bytes into a string of the same characters.
pub(crate) fn ascii_str(b: &Vec<u8>) -> (r: String)
    requires
        all_ascii(b@),
    ensures
        same_ascii(r@, b@),
{
    match utf8_str(b.as_slice()) {
        Some(s) => s.to_owned(),
        None => String::new(),
    }
}

/// The index of the first zero byte of `s` at or after `i`, or the length of `s`.
pub open spec fn first_zero_from(s: Seq<u8>, i: int) -> int
    decreases s.len() - i,
{
    if i >= s.len() {
        s.len() as int
    } else if s[i] == 0 {
        i
    } else {
        first_zero_from(s, i + 1)
    }
}

/// The first zero byte at or after `i` lies between `i` and the end.
pub proof fn lemma_first_zero_bounds(s: Seq<u8>, i: int)
    requires
        0 <= i <= s.len(),
    ensures
        i <= first_zero_from(s, i) <= s.len(),
    decreases s.len() - i,
{
    if i < s.len() && s[i] != 0 {
        lemma_first_zero_bounds(s, i + 1);
    }
}

/// The bytes of `s` before its first zero byte (all of `s` when it holds none).
pub open spec fn until_zero(s: Seq<u8>) -> Seq<u8> {
    s.take(first_zero_from(s, 0))
}

/// Finds the first zero byte of `s`, or its length.
pub fn zero_end(s: &[u8]) -> (r: usize)
    ensures
        r == first_zero_from(s@, 0),
        r <= s.len(),
{
    let mut i: usize = 0;
    while i < s.len()
        invariant
            0 <= i <= s.len(),
            first_zero_from(s@, 0) == first_zero_from(s@, i as int),
        decreases s.len() - i,
    {
        if s[i] == 0 {
            return i;
        }
        i = i + 1;
    }
    i
}

} // verus!
