//! IP addresses with a prefix length, their net masks and their text form.

use vstd::prelude::*;
use vstd::arithmetic::power2::{pow2, lemma2_to64};
use vstd::bits::lemma_u32_shl_is_mul;

use crate::text::{all_ascii, ascii_str, decimal, hex, push_decimal, push_hex, push_byte};

verus! {

/// ASCII `.`.
pub const DOT: u8 = 46;

/// ASCII `:`.
pub const COLON: u8 = 58;

/// ASCII `1`.
pub const ONE: u8 = 49;

/// IP address.
#[derive(Debug, Clone, Copy, PartialEq, Eq, Hash)]
pub enum Ip {
    /// IP version 4, as its four octets.
    V4([u8; 4]),
    /// IP version 6, as eight 16-bit groups in reading order.
    V6([u16; 8]),
}

/// Whether every octet of an IPv4 address is zero.
pub open spec fn v4_unspecified(ip: [u8; 4]) -> bool {
    forall|i: int| 0 <= i < 4 ==> ip[i] == 0
}

/// Whether an IPv4 address lies in 127.0.0.0/8.
pub open spec fn v4_loopback(ip: [u8; 4]) -> bool {
    ip[0] == 127
}

/// Whether every group of an IPv6 address is zero (`::`).
pub open spec fn v6_unspecified(ip: [u16; 8]) -> bool {
    forall|i: int| 0 <= i < 8 ==> ip[i] == 0
}

/// Whether an IPv6 address is `::1`.
pub open spec fn v6_loopback(ip: [u16; 8]) -> bool {
    (forall|i: int| 0 <= i < 7 ==> ip[i] == 0) && ip[7] == 1
}

fn is_v4_unspecified(ip: [u8; 4]) -> (r: bool)
    ensures
        r == v4_unspecified(ip),
{
    ip[0] == 0 && ip[1] == 0 && ip[2] == 0 && ip[3] == 0
}

fn is_v4_loopback(ip: [u8; 4]) -> (r: bool)
    ensures
        r == v4_loopback(ip),
{
    ip[0] == 127
}

fn is_v6_unspecified(ip: [u16; 8]) -> (r: bool)
    ensures
        r == v6_unspecified(ip),
{
    ip[0] == 0 && ip[1] == 0 && ip[2] == 0 && ip[3] == 0 && ip[4] == 0 && ip[5] == 0
        && ip[6] == 0 && ip[7] == 0
}

fn is_v6_loopback(ip: [u16; 8]) -> (r: bool)
    ensures
        r == v6_loopback(ip),
{
    ip[0] == 0 && ip[1] == 0 && ip[2] == 0 && ip[3] == 0 && ip[4] == 0 && ip[5] == 0
        && ip[6] == 0 && ip[7] == 1
}

/// The dotted-decimal text of an IPv4 address.
pub open spec fn v4_text(ip: [u8; 4]) -> Seq<u8> {
    decimal(ip[0] as nat) + seq![DOT] + decimal(ip[1] as nat) + seq![DOT] + decimal(ip[2] as nat)
        + seq![DOT] + decimal(ip[3] as nat)
}

/// The text of an IPv6 address: `::`, `::1`, or all eight groups in lower-case hex
/// separated by colons, each without leading zeros.
pub open spec fn v6_text(ip: [u16; 8]) -> Seq<u8> {
    if v6_unspecified(ip) {
        seq![COLON, COLON]
    } else if v6_loopback(ip) {
        seq![COLON, COLON, ONE]
    } else {
        v6_groups(ip, 8)
    }
}

/// The text of an address, as ASCII bytes.
pub open spec fn ip_text(ip: Ip) -> Seq<u8> {
    match ip {
        Ip::V4(a) => v4_text(a),
        Ip::V6(a) => v6_text(a),
    }
}

impl Ip {
    /// Returns whether it is the unspecified (all-zero) address.
    pub fn is_unspecified(&self) -> (r: bool)
        ensures
            r == match *self {
                Ip::V4(a) => v4_unspecified(a),
                Ip::V6(a) => v6_unspecified(a),
            },
    {
        match self {
            Ip::V4(addr) => is_v4_unspecified(*addr),
            Ip::V6(addr) => is_v6_unspecified(*addr),
        }
    }

    /// Returns whether it is a loopback address.
    pub fn is_loopback(&self) -> (r: bool)
        ensures
            r == match *self {
                Ip::V4(a) => v4_loopback(a),
                Ip::V6(a) => v6_loopback(a),
            },
    {
        match self {
            Ip::V4(addr) => is_v4_loopback(*addr),
            Ip::V6(addr) => is_v6_loopback(*addr),
        }
    }

    /// Writes the text of the address as ASCII bytes.
    pub fn text_bytes(&self) -> (r: Vec<u8>)
        ensures
            r@ == ip_text(*self),
            all_ascii(r@),
    {
        let mut out: Vec<u8> = Vec::new();
        match self {
            Ip::V4(a) => {
                push_decimal(&mut out, a[0] as u32);
                push_byte(&mut out, DOT);
                push_decimal(&mut out, a[1] as u32);
                push_byte(&mut out, DOT);
                push_decimal(&mut out, a[2] as u32);
                push_byte(&mut out, DOT);
                push_decimal(&mut out, a[3] as u32);
                assert(out@ == v4_text(*a));
            },
            Ip::V6(a) => {
                if is_v6_unspecified(*a) {
                    push_byte(&mut out, COLON);
                    push_byte(&mut out, COLON);
                    assert(out@ == seq![COLON, COLON]);
                } else if is_v6_loopback(*a) {
                    push_byte(&mut out, COLON);
                    push_byte(&mut out, COLON);
                    push_byte(&mut out, ONE);
                    assert(out@ == seq![COLON, COLON, ONE]);
                } else {
                    let mut i: usize = 0;
                    while i < 8
                        invariant
                            0 <= i <= 8,
                            out@ == (if i == 0 { seq![] } else { v6_groups(*a, i as int) }),
                            all_ascii(out@),
                        decreases 8 - i,
                    {
                        if i > 0 {
                            push_byte(&mut out, COLON);
                        }
                        push_hex(&mut out, a[i] as u32);
                        i = i + 1;
                    }
                    assert(out@ == v6_text(*a));
                }
            },
        }
        out
    }

    /// Returns the text of the address: dotted decimal for IPv4; `::`, `::1` or eight
    /// colon-separated hex groups for IPv6.
    pub fn to_text(&self) -> (r: String)
        ensures
            r@.len() == ip_text(*self).len(),
            forall|i: int| 0 <= i < r@.len() ==> r@[i] as u32 == ip_text(*self)[i] as u32,
    {
        let bytes = self.text_bytes();
        ascii_str(&bytes)
    }
}

/// The first `n` hex groups of an IPv6 address joined by colons.
pub open spec fn v6_groups(ip: [u16; 8], n: int) -> Seq<u8>
    decreases n,
{
    if n <= 1 {
        hex(ip[0] as nat)
    } else {
        v6_groups(ip, n - 1) + seq![COLON] + hex(ip[n - 1] as nat)
    }
}

/// An address of an interface.
#[derive(Debug, Clone, Copy, PartialEq, Eq, Hash)]
pub struct Address {
    /// The IP address.
    pub ip: Ip,
    /// The length of the network prefix, in bits.
    pub prefix: u8,
}

/// The `width`-bit value whose top `n` bits are set and the others clear.
pub open spec fn top_ones(width: nat, n: nat) -> nat {
    (pow2(width) - pow2((width - n) as nat)) as nat
}

/// How many of the `width` bits that start `start` bits into a mask of `prefix` leading
/// ones are set.
pub open spec fn ones_in(prefix: int, start: int, width: int) -> nat {
    if prefix <= start {
        0
    } else if prefix - start >= width {
        width as nat
    } else {
        (prefix - start) as nat
    }
}

/// The net mask of a prefix length, in the family of `ip`: the top `prefix` bits set.
pub open spec fn mask_of(ip: Ip, prefix: int) -> Ip {
    match ip {
        Ip::V4(_) => Ip::V4(
            [
                top_ones(8, ones_in(prefix, 0, 8)) as u8,
                top_ones(8, ones_in(prefix, 8, 8)) as u8,
                top_ones(8, ones_in(prefix, 16, 8)) as u8,
                top_ones(8, ones_in(prefix, 24, 8)) as u8,
            ],
        ),
        Ip::V6(_) => Ip::V6(
            [
                top_ones(16, ones_in(prefix, 0, 16)) as u16,
                top_ones(16, ones_in(prefix, 16, 16)) as u16,
                top_ones(16, ones_in(prefix, 32, 16)) as u16,
                top_ones(16, ones_in(prefix, 48, 16)) as u16,
                top_ones(16, ones_in(prefix, 64, 16)) as u16,
                top_ones(16, ones_in(prefix, 80, 16)) as u16,
                top_ones(16, ones_in(prefix, 96, 16)) as u16,
                top_ones(16, ones_in(prefix, 112, 16)) as u16,
            ],
        ),
    }
}

/// The largest prefix length of the family of `ip`.
pub open spec fn max_prefix(ip: Ip) -> int {
    match ip {
        Ip::V4(_) => 32,
        Ip::V6(_) => 128,
    }
}

/// The `width` bits that start `start` bits into the mask of `prefix` leading ones.
fn mask_part(prefix: u8, start: u8, width: u32) -> (r: u32)
    requires
        width == 8 || width == 16,
    ensures
        r == top_ones(width as nat, ones_in(prefix as int, start as int, width as int)),
        r < pow2(width as nat),
{
    let n: u32 = if prefix <= start {
        0
    } else if (prefix - start) as u32 >= width {
        width
    } else {
        (prefix - start) as u32
    };
    let shift: u32 = width - n;
    proof {
        lemma2_to64();
        lemma_u32_shl_is_mul(1, shift);
        lemma_u32_shl_is_mul(1, width);
    }
    let low: u32 = 1u32 << shift;
    let full: u32 = 1u32 << width;
    full - low
}

impl Address {
    /// Computes the net mask of the prefix length, in the address's own family.
    pub fn net_mask(&self) -> (r: Ip)
        requires
            self.prefix as int <= max_prefix(self.ip),
        ensures
            r == mask_of(self.ip, self.prefix as int),
    {
        let p = self.prefix;
        match self.ip {
            Ip::V4(_) => Ip::V4(
                [
                    mask_part(p, 0, 8) as u8,
                    mask_part(p, 8, 8) as u8,
                    mask_part(p, 16, 8) as u8,
                    mask_part(p, 24, 8) as u8,
                ],
            ),
            Ip::V6(_) => Ip::V6(
                [
                    mask_part(p, 0, 16) as u16,
                    mask_part(p, 16, 16) as u16,
                    mask_part(p, 32, 16) as u16,
                    mask_part(p, 48, 16) as u16,
                    mask_part(p, 64, 16) as u16,
                    mask_part(p, 80, 16) as u16,
                    mask_part(p, 96, 16) as u16,
                    mask_part(p, 112, 16) as u16,
                ],
            ),
        }
    }

    /// Returns the text of the address (without the prefix length).
    pub fn to_text(&self) -> (r: String)
        ensures
            r@.len() == ip_text(self.ip).len(),
            forall|i: int| 0 <= i < r@.len() ==> r@[i] as u32 == ip_text(self.ip)[i] as u32,
    {
        self.ip.to_text()
    }
}

} // verus!
