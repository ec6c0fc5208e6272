//! The netlink address dump: the request, and the walk over the messages of one
//! received datagram and over the attributes of each address message.
//!
//! Multi-byte fields are read in the byte order of the host, which on the supported
//! targets is little-endian.
//!
//! A message or attribute whose declared length does not fit what is left stops the walk
//! over its datagram or message without an error of its own: the records read before it
//! stay, and a kernel that sends something this reader does not know does not make the
//! whole enumeration fail.

use vstd::prelude::*;

use crate::network::{Address, Ip};
use vstd::arithmetic::div_mod::lemma_fundamental_div_mod;

verus! {

/// Size of a netlink message header.
pub const HEADER_LEN: usize = 16;

/// Size of the address-message body that follows the header of an address message.
pub const ADDR_MSG_LEN: usize = 8;

/// Size of an attribute's tag-and-length header.
pub const ATTR_HEADER_LEN: usize = 4;

/// Message type: end of a multi-part reply.
pub const MSG_DONE: u16 = 3;

/// Message type: the kernel reports an error.
pub const MSG_ERROR: u16 = 2;

/// Message type: one address of one interface.
pub const MSG_NEW_ADDRESS: u16 = 20;

/// Message type: request for the addresses.
pub const MSG_GET_ADDRESS: u16 = 22;

/// Request flags: a request, asking for a dump of all entries.
pub const REQUEST_DUMP_FLAGS: u16 = 0x301;

/// Attribute type: the address.
pub const ATTR_ADDRESS: u16 = 1;

/// Attribute type: the local address.
pub const ATTR_LOCAL: u16 = 2;

/// Address family IPv4.
pub const FAMILY_INET: u8 = 2;

/// Address family IPv6.
pub const FAMILY_INET6: u8 = 10;

/// How one received datagram ended.
#[derive(Debug, Clone, Copy, PartialEq, Eq, Structural)]
pub enum StreamEnd {
    /// A DONE message: the dump is complete.
    Done,
    /// An ERROR message: the dump failed.
    Error,
    /// Neither: the dump goes on in the next datagram.
    More,
}

/// One address read from the dump, with the index of its interface.
#[derive(Debug, Clone, Copy, PartialEq, Eq, Hash)]
pub struct AddrRecord {
    /// The kernel's index of the interface.
    pub index: u32,
    /// The address and its prefix length.
    pub address: Address,
}

/// Rounds a length up to the next multiple of four.
pub open spec fn align4(n: int) -> int {
    ((n + 3) / 4) * 4
}

/// The 16-bit field at `i`.
pub open spec fn u16_at(s: Seq<u8>, i: int) -> int {
    s[i] + 256 * s[i + 1]
}

/// The 32-bit field at `i`.
pub open spec fn u32_at(s: Seq<u8>, i: int) -> int {
    s[i] + 256 * s[i + 1] + 65536 * s[i + 2] + 16777216 * s[i + 3]
}

/// Byte `i` of a payload, or zero past its end.
pub open spec fn byte_or_zero(p: Seq<u8>, i: int) -> u8 {
    if i < p.len() {
        p[i]
    } else {
        0
    }
}

/// An IPv4 address from the first four bytes of a payload.
pub open spec fn v4_from(p: Seq<u8>) -> [u8; 4] {
    [byte_or_zero(p, 0), byte_or_zero(p, 1), byte_or_zero(p, 2), byte_or_zero(p, 3)]
}

/// Group `i` of an IPv6 address, in network byte order.
pub open spec fn group_from(p: Seq<u8>, i: int) -> u16 {
    (byte_or_zero(p, 2 * i) * 256 + byte_or_zero(p, 2 * i + 1)) as u16
}

/// An IPv6 address from the first sixteen bytes of a payload.
pub open spec fn v6_from(p: Seq<u8>) -> [u16; 8] {
    [
        group_from(p, 0),
        group_from(p, 1),
        group_from(p, 2),
        group_from(p, 3),
        group_from(p, 4),
        group_from(p, 5),
        group_from(p, 6),
        group_from(p, 7),
    ]
}

/// What one attribute `a` (its declared length long) of an address message yields: a
/// local address of an IPv4 message or an address of an IPv6 message; nothing else.
pub open spec fn attr_records(a: Seq<u8>, family: u8, prefix: u8, index: u32) -> Seq<AddrRecord> {
    let payload = a.skip(ATTR_HEADER_LEN as int);
    if u16_at(a, 2) == ATTR_LOCAL && family == FAMILY_INET {
        seq![AddrRecord { index, address: Address { ip: Ip::V4(v4_from(payload)), prefix } }]
    } else if u16_at(a, 2) == ATTR_ADDRESS && family == FAMILY_INET6 {
        seq![AddrRecord { index, address: Address { ip: Ip::V6(v6_from(payload)), prefix } }]
    } else {
        seq![]
    }
}

/// Whether an attribute header starts `a` and its declared length fits in `a`.
pub open spec fn attr_fits(a: Seq<u8>) -> bool {
    a.len() >= ATTR_HEADER_LEN && ATTR_HEADER_LEN <= u16_at(a, 0) <= a.len()
}

/// The records of an attribute list `a`: attributes are read one after another, each at
/// the aligned end of the one before, until one does not fit.
pub open spec fn attrs_records(a: Seq<u8>, family: u8, prefix: u8, index: u32) -> Seq<AddrRecord>
    decreases a.len(),
{
    if !attr_fits(a) {
        seq![]
    } else {
        let len = u16_at(a, 0);
        let here = attr_records(a.take(len), family, prefix, index);
        let step = align4(len);
        if step < a.len() {
            here + attrs_records(a.skip(step), family, prefix, index)
        } else {
            here
        }
    }
}

/// The records of one address message `m` (its declared length long). A message too
/// short for its body yields none.
pub open spec fn message_records(m: Seq<u8>) -> Seq<AddrRecord> {
    if m.len() < HEADER_LEN + ADDR_MSG_LEN {
        seq![]
    } else {
        attrs_records(
            m.skip(HEADER_LEN + ADDR_MSG_LEN),
            m[HEADER_LEN as int],
            m[HEADER_LEN + 1],
            u32_at(m, HEADER_LEN + 4) as u32,
        )
    }
}

/// Whether a message header starts `s` and its declared length fits in `s`.
pub open spec fn message_fits(s: Seq<u8>) -> bool {
    s.len() >= HEADER_LEN && HEADER_LEN <= u32_at(s, 0) <= s.len()
}

/// The walk over the messages of a datagram `s`: the records of its address messages up
/// to the first DONE or ERROR message, and how it ended. Messages are read one after
/// another, each at the aligned end of the one before, until one does not fit.
pub open spec fn walk(s: Seq<u8>) -> (Seq<AddrRecord>, StreamEnd)
    decreases s.len(),
{
    if !message_fits(s) {
        (seq![], StreamEnd::More)
    } else if u16_at(s, 4) == MSG_DONE {
        (seq![], StreamEnd::Done)
    } else if u16_at(s, 4) == MSG_ERROR {
        (seq![], StreamEnd::Error)
    } else {
        let len = u32_at(s, 0);
        let here = if u16_at(s, 4) == MSG_NEW_ADDRESS {
            message_records(s.take(len))
        } else {
            seq![]
        };
        let step = align4(len);
        if step < s.len() {
            let rest = walk(s.skip(step));
            (here + rest.0, rest.1)
        } else {
            (here, StreamEnd::More)
        }
    }
}

/// The bytes of the dump request: a header (length 24, type get-address, flags request
/// and dump, sequence and port zero) and an address message asking for every family
/// and every interface.
pub open spec fn dump_request_bytes() -> Seq<u8> {
    seq![
        24u8, 0, 0, 0,
        22, 0,
        1, 3,
        0, 0, 0, 0,
        0, 0, 0, 0,
        0, 0, 0, 0,
        0, 0, 0, 0,
    ]
}

/// Builds the dump request.
pub fn dump_request() -> (r: Vec<u8>)
    ensures
        r@ == dump_request_bytes(),
{
    let r: Vec<u8> = vec![
        24u8, 0, 0, 0,
        22, 0,
        1, 3,
        0, 0, 0, 0,
        0, 0, 0, 0,
        0, 0, 0, 0,
        0, 0, 0, 0,
    ];
    assert(r@ =~= dump_request_bytes());
    r
}

fn read_u16(b: &[u8], i: usize) -> (r: u16)
    requires
        i + 2 <= b.len(),
    ensures
        r == u16_at(b@, i as int),
{
    (b[i] as u16) + (b[i + 1] as u16) * 256
}

fn read_u32(b: &[u8], i: usize) -> (r: u32)
    requires
        i + 4 <= b.len(),
    ensures
        r == u32_at(b@, i as int),
{
    (b[i] as u32) + (b[i + 1] as u32) * 256 + (b[i + 2] as u32) * 65536 + (b[i + 3] as u32)
        * 16777216
}

/// Byte `i` of the payload `b[start..end]`, or zero past its end.
fn payload_byte(b: &[u8], start: usize, end: usize, i: usize) -> (r: u8)
    requires
        start <= end <= b.len(),
        i < 16,
    ensures
        r == byte_or_zero(b@.subrange(start as int, end as int), i as int),
{
    if i < end - start {
        b[start + i]
    } else {
        0
    }
}

/// The records of the attribute `b[start..end]` (its declared length long).
fn read_attr(b: &[u8], start: usize, end: usize, family: u8, prefix: u8, index: u32, out: &mut Vec<AddrRecord>)
    requires
        start + ATTR_HEADER_LEN <= end <= b.len(),
    ensures
        final(out)@ == old(out)@ + attr_records(b@.subrange(start as int, end as int), family, prefix, index),
{
    let ghost a = b@.subrange(start as int, end as int);
    let ty = read_u16(b, start + 2);
    assert(ty == u16_at(a, 2));
    let p = start + ATTR_HEADER_LEN;
    assert(a.skip(ATTR_HEADER_LEN as int) =~= b@.subrange(p as int, end as int));
    if ty == ATTR_LOCAL && family == FAMILY_INET {
        let ip = Ip::V4(
            [
                payload_byte(b, p, end, 0),
                payload_byte(b, p, end, 1),
                payload_byte(b, p, end, 2),
                payload_byte(b, p, end, 3),
            ],
        );
        out.push(AddrRecord { index, address: Address { ip, prefix } });
    } else if ty == ATTR_ADDRESS && family == FAMILY_INET6 {
        let mut g: [u16; 8] = [0u16; 8];
        let mut i: usize = 0;
        while i < 8
            invariant
                start + ATTR_HEADER_LEN <= end <= b.len(),
                p == start + ATTR_HEADER_LEN,
                0 <= i <= 8,
                forall|j: int| 0 <= j < i ==> g[j] == group_from(b@.subrange(p as int, end as int), j),
            decreases 8 - i,
        {
            let hi = payload_byte(b, p, end, 2 * i);
            let lo = payload_byte(b, p, end, 2 * i + 1);
            g[i] = (hi as u16) * 256 + (lo as u16);
            i = i + 1;
        }
        let ghost pl = b@.subrange(p as int, end as int);
        assert(g =~= v6_from(pl));
        out.push(AddrRecord { index, address: Address { ip: Ip::V6(g), prefix } });
    }
}

/// Reads the attribute list `b[start..end]`.
#[verifier::rlimit(50)]
fn read_attrs(b: &[u8], start: usize, end: usize, family: u8, prefix: u8, index: u32, out: &mut Vec<AddrRecord>)
    requires
        start <= end <= b.len(),
    ensures
        final(out)@ == old(out)@ + attrs_records(b@.subrange(start as int, end as int), family, prefix, index),
{
    let ghost whole = b@.subrange(start as int, end as int);
    let mut pos: usize = start;
    loop
        invariant_except_break
            old(out)@ + attrs_records(whole, family, prefix, index) == out@ + attrs_records(
                b@.subrange(pos as int, end as int),
                family,
                prefix,
                index,
            ),
        invariant
            start <= pos <= end <= b.len(),
        ensures
            old(out)@ + attrs_records(whole, family, prefix, index) == out@,
        decreases end - pos,
    {
        let ghost a = b@.subrange(pos as int, end as int);
        let rem = end - pos;
        if rem < ATTR_HEADER_LEN {
            assert(attrs_records(a, family, prefix, index) =~= seq![]);
            assert(old(out)@ + attrs_records(whole, family, prefix, index) =~= out@);
            break;
        }
        let len = read_u16(b, pos) as usize;
        assert(len == u16_at(a, 0));
        if len < ATTR_HEADER_LEN || len > rem {
            assert(attrs_records(a, family, prefix, index) =~= seq![]);
            assert(old(out)@ + attrs_records(whole, family, prefix, index) =~= out@);
            break;
        }
        let ghost before = out@;
        assert(a.take(len as int) =~= b@.subrange(pos as int, (pos + len) as int));
        read_attr(b, pos, pos + len, family, prefix, index, out);
        let ghost here = attr_records(a.take(len as int), family, prefix, index);
        let step = (len + 3) / 4 * 4;
        if step >= rem {
            assert(before + attrs_records(a, family, prefix, index) =~= out@);
            break;
        }
        assert(a.skip(step as int) =~= b@.subrange((pos + step) as int, end as int));
        assert(before + (here + attrs_records(a.skip(step as int), family, prefix, index)) =~= out@
            + attrs_records(a.skip(step as int), family, prefix, index));
        pos = pos + step;
    }
}

/// Reads the address message `b[off..off + len]`.
fn read_address_message(b: &[u8], off: usize, len: usize, out: &mut Vec<AddrRecord>)
    requires
        off + len <= b.len(),
    ensures
        final(out)@ == old(out)@ + message_records(b@.subrange(off as int, (off + len) as int)),
{
    let ghost m = b@.subrange(off as int, (off + len) as int);
    if len >= HEADER_LEN + ADDR_MSG_LEN {
        let family = b[off + HEADER_LEN];
        let prefix = b[off + HEADER_LEN + 1];
        let index = read_u32(b, off + HEADER_LEN + 4);
        assert(m.skip((HEADER_LEN + ADDR_MSG_LEN) as int) =~= b@.subrange(
            (off + HEADER_LEN + ADDR_MSG_LEN) as int,
            (off + len) as int,
        ));
        assert(index == u32_at(m, HEADER_LEN + 4));
        read_attrs(b, off + HEADER_LEN + ADDR_MSG_LEN, off + len, family, prefix, index, out);
    } else {
        assert(old(out)@ =~= old(out)@ + message_records(m));
    }
}

/// Walks the messages of one received datagram: returns the records of its address
/// messages up to the first DONE or ERROR message, and how the walk ended.
#[verifier::rlimit(80)]
pub fn parse_datagram(buf: &[u8]) -> (r: (Vec<AddrRecord>, StreamEnd))
    ensures
        r.0@ == walk(buf@).0,
        r.1 == walk(buf@).1,
{
    let mut recs: Vec<AddrRecord> = Vec::new();
    let n = buf.len();
    let mut off: usize = 0;
    assert(buf@.subrange(0, n as int) =~= buf@);
    loop
        invariant
            n == buf.len(),
            off <= n,
            walk(buf@).0 == recs@ + walk(buf@.subrange(off as int, n as int)).0,
            walk(buf@).1 == walk(buf@.subrange(off as int, n as int)).1,
        decreases n - off,
    {
        let ghost s = buf@.subrange(off as int, n as int);
        let rem = n - off;
        if rem < HEADER_LEN {
            assert(recs@ =~= recs@ + walk(s).0);
            return (recs, StreamEnd::More);
        }
        let len32 = read_u32(buf, off);
        assert(len32 == u32_at(s, 0));
        if len32 < HEADER_LEN as u32 || len32 as usize > rem {
            assert(recs@ =~= recs@ + walk(s).0);
            return (recs, StreamEnd::More);
        }
        let len = len32 as usize;
        let ty = read_u16(buf, off + 4);
        assert(ty == u16_at(s, 4));
        if ty == MSG_DONE {
            assert(recs@ =~= recs@ + walk(s).0);
            return (recs, StreamEnd::Done);
        }
        if ty == MSG_ERROR {
            assert(recs@ =~= recs@ + walk(s).0);
            return (recs, StreamEnd::Error);
        }
        let ghost before = recs@;
        let ghost m = s.take(len as int);
        assert(m =~= buf@.subrange(off as int, (off + len) as int));
        if ty == MSG_NEW_ADDRESS {
            read_address_message(buf, off, len, &mut recs);
        }
        let ghost here = if ty == MSG_NEW_ADDRESS {
            message_records(m)
        } else {
            seq![]
        };
        assert(recs@ =~= before + here);
        let pad = (4 - len % 4) % 4;
        if pad >= rem - len {
            return (recs, StreamEnd::More);
        }
        let step = len + pad;
        assert(step == align4(len as int));
        assert(s.skip(step as int) =~= buf@.subrange((off + step) as int, n as int));
        assert(before + (here + walk(s.skip(step as int)).0) =~= recs@ + walk(
            s.skip(step as int),
        ).0);
        off = off + step;
    }
}

/// The two bytes of `x` in the host's (little-endian) order.
pub open spec fn le16(x: nat) -> Seq<u8> {
    seq![(x % 256) as u8, ((x / 256) % 256) as u8]
}

/// The four bytes of `x` in the host's (little-endian) order.
pub open spec fn le32(x: nat) -> Seq<u8> {
    seq![
        (x % 256) as u8,
        ((x / 256) % 256) as u8,
        ((x / 256 / 256) % 256) as u8,
        ((x / 256 / 256 / 256) % 256) as u8,
    ]
}

/// The address family of an IP address on the wire.
pub open spec fn family_of(ip: Ip) -> u8 {
    match ip {
        Ip::V4(_) => FAMILY_INET,
        Ip::V6(_) => FAMILY_INET6,
    }
}

/// The attribute that carries an IP address of its family.
pub open spec fn attr_type_of(ip: Ip) -> u16 {
    match ip {
        Ip::V4(_) => ATTR_LOCAL,
        Ip::V6(_) => ATTR_ADDRESS,
    }
}

/// The bytes of an IP address on the wire: the four octets, or the eight groups in
/// network byte order.
pub open spec fn ip_payload(ip: Ip) -> Seq<u8> {
    match ip {
        Ip::V4(a) => a@,
        Ip::V6(g) => Seq::new(
            16,
            |i: int|
                if i % 2 == 0 {
                    (g[i / 2] / 256) as u8
                } else {
                    (g[i / 2] % 256) as u8
                },
        ),
    }
}

/// One record as an address message: header, address-message body and one attribute
/// holding the address.
pub open spec fn encode_record(r: AddrRecord) -> Seq<u8> {
    let payload = ip_payload(r.address.ip);
    let attr_len = ATTR_HEADER_LEN + payload.len();
    le32((HEADER_LEN + ADDR_MSG_LEN + attr_len) as nat) + le16(MSG_NEW_ADDRESS as nat) + le16(0)
        + le32(0) + le32(0) + seq![family_of(r.address.ip), r.address.prefix, 0u8, 0u8] + le32(
        r.index as nat,
    ) + le16(attr_len as nat) + le16(attr_type_of(r.address.ip) as nat) + payload
}

/// A DONE message without payload.
pub open spec fn done_message() -> Seq<u8> {
    le32(HEADER_LEN as nat) + le16(MSG_DONE as nat) + le16(0) + le32(0) + le32(0)
}

/// A datagram that carries the records, one message each, and ends the dump.
pub open spec fn encode_dump(rs: Seq<AddrRecord>) -> Seq<u8>
    decreases rs.len(),
{
    if rs.len() == 0 {
        done_message()
    } else {
        encode_record(rs[0]) + encode_dump(rs.drop_first())
    }
}

proof fn lemma_le32(x: nat)
    requires
        x < 0x1_0000_0000,
    ensures
        u32_at(le32(x), 0) == x,
{
    lemma_fundamental_div_mod(x as int, 256);
    lemma_fundamental_div_mod((x / 256) as int, 256);
    lemma_fundamental_div_mod((x / 256 / 256) as int, 256);
    lemma_fundamental_div_mod((x / 256 / 256 / 256) as int, 256);
}

proof fn lemma_le16(x: nat)
    requires
        x < 0x1_0000,
    ensures
        u16_at(le16(x), 0) == x,
{
    lemma_fundamental_div_mod(x as int, 256);
    lemma_fundamental_div_mod((x / 256) as int, 256);
}

proof fn lemma_encode_dump_len(rs: Seq<AddrRecord>)
    ensures
        encode_dump(rs).len() >= HEADER_LEN,
    decreases rs.len(),
{
    if rs.len() > 0 {
        lemma_encode_dump_len(rs.drop_first());
    }
}

proof fn lemma_record_round_trip(r: AddrRecord, rest: Seq<u8>)
    requires
        rest.len() >= HEADER_LEN,
    ensures
        message_fits(encode_record(r) + rest),
        u16_at(encode_record(r) + rest, 4) == MSG_NEW_ADDRESS,
        u32_at(encode_record(r) + rest, 0) == encode_record(r).len(),
        encode_record(r).len() % 4 == 0,
        message_records(encode_record(r)) == seq![r],
{
    let payload = ip_payload(r.address.ip);
    let attr_len = ATTR_HEADER_LEN + payload.len();
    let m = encode_record(r);
    let s = m + rest;
    lemma_le32((HEADER_LEN + ADDR_MSG_LEN + attr_len) as nat);
    lemma_le16(MSG_NEW_ADDRESS as nat);
    lemma_le32(r.index as nat);
    lemma_le16(attr_len as nat);
    lemma_le16(attr_type_of(r.address.ip) as nat);
    assert(m.len() == HEADER_LEN + ADDR_MSG_LEN + attr_len);
    assert(u32_at(s, 0) == u32_at(le32((HEADER_LEN + ADDR_MSG_LEN + attr_len) as nat), 0));
    assert(u16_at(s, 4) == u16_at(le16(MSG_NEW_ADDRESS as nat), 0));
    let a = m.skip(HEADER_LEN + ADDR_MSG_LEN);
    assert(a =~= le16(attr_len as nat) + le16(attr_type_of(r.address.ip) as nat) + payload);
    assert(u32_at(m, HEADER_LEN + 4) == u32_at(le32(r.index as nat), 0));
    assert(u16_at(a, 0) == u16_at(le16(attr_len as nat), 0));
    assert(u16_at(a, 2) == u16_at(le16(attr_type_of(r.address.ip) as nat), 0));
    assert(a.take(attr_len as int) =~= a);
    assert(a.skip(ATTR_HEADER_LEN as int) =~= payload);
    assert(m[HEADER_LEN as int] == family_of(r.address.ip));
    assert(m[HEADER_LEN + 1] == r.address.prefix);
    match r.address.ip {
        Ip::V4(x) => {
            assert(v4_from(payload) =~= x);
        },
        Ip::V6(g) => {
            assert forall|i: int| 0 <= i < 8 implies group_from(payload, i) == g[i] by {
                lemma_fundamental_div_mod(g[i] as int, 256);
                assert(payload[2 * i] == (g[i] / 256) as u8);
                assert(payload[2 * i + 1] == (g[i] % 256) as u8);
            }
            assert(v6_from(payload) =~= g);
        },
    }
    assert(attrs_records(a, family_of(r.address.ip), r.address.prefix, r.index) =~= seq![r]);
}

proof fn lemma_done_walk()
    ensures
        walk(done_message()) == (Seq::<AddrRecord>::empty(), StreamEnd::Done),
{
    lemma_le32(HEADER_LEN as nat);
    lemma_le16(MSG_DONE as nat);
    let s = done_message();
    assert(u32_at(s, 0) == u32_at(le32(HEADER_LEN as nat), 0));
    assert(u16_at(s, 4) == u16_at(le16(MSG_DONE as nat), 0));
}

proof fn lemma_walk_step(m: Seq<u8>, rest: Seq<u8>)
    requires
        message_fits(m + rest),
        u16_at(m + rest, 4) == MSG_NEW_ADDRESS,
        u32_at(m + rest, 0) == m.len(),
        m.len() % 4 == 0,
        rest.len() >= HEADER_LEN,
    ensures
        walk(m + rest) == (message_records(m) + walk(rest).0, walk(rest).1),
{
    let s = m + rest;
    assert(s.take(m.len() as int) =~= m);
    assert(align4(m.len() as int) == m.len());
    assert(s.skip(m.len() as int) =~= rest);
}

/// A dump that carries records, each in a well-formed and aligned address message,
/// followed by a DONE message, walks back to exactly those records, in order, and to a
/// complete dump.
pub proof fn lemma_round_trip(rs: Seq<AddrRecord>)
    ensures
        walk(encode_dump(rs)) == (rs, StreamEnd::Done),
    decreases rs.len(),
{
    if rs.len() == 0 {
        lemma_done_walk();
        assert(rs =~= Seq::<AddrRecord>::empty());
    } else {
        let m = encode_record(rs[0]);
        let rest = encode_dump(rs.drop_first());
        lemma_encode_dump_len(rs.drop_first());
        lemma_record_round_trip(rs[0], rest);
        lemma_round_trip(rs.drop_first());
        assert(encode_dump(rs) == m + rest);
        lemma_walk_step(m, rest);
        assert(rs =~= seq![rs[0]] + rs.drop_first());
    }
}

/// A message whose declared length runs past the end of the datagram stops the walk:
/// nothing of it, or of what follows, is read, and the dump goes on in the next datagram.
pub proof fn lemma_truncated_message_stops(s: Seq<u8>)
    requires
        s.len() >= HEADER_LEN,
        u32_at(s, 0) > s.len(),
    ensures
        walk(s) == (Seq::<AddrRecord>::empty(), StreamEnd::More),
{
}

/// After a message that is neither DONE nor ERROR, the walk goes on at its declared
/// length rounded up to a multiple of four, not at the declared length itself.
pub proof fn lemma_next_message_aligned(s: Seq<u8>)
    requires
        message_fits(s),
        u16_at(s, 4) != MSG_DONE,
        u16_at(s, 4) != MSG_ERROR,
        align4(u32_at(s, 0)) < s.len(),
    ensures
        walk(s) == (
            (if u16_at(s, 4) == MSG_NEW_ADDRESS {
                message_records(s.take(u32_at(s, 0)))
            } else {
                seq![]
            }) + walk(s.skip(align4(u32_at(s, 0)))).0,
            walk(s.skip(align4(u32_at(s, 0)))).1,
        ),
{
}

/// After an attribute, the attribute walk goes on at its declared length rounded up to a
/// multiple of four, not at the declared length itself.
pub proof fn lemma_next_attr_aligned(a: Seq<u8>, family: u8, prefix: u8, index: u32)
    requires
        attr_fits(a),
        align4(u16_at(a, 0)) < a.len(),
    ensures
        attrs_records(a, family, prefix, index) == attr_records(a.take(u16_at(a, 0)), family, prefix, index)
            + attrs_records(a.skip(align4(u16_at(a, 0))), family, prefix, index),
{
}

/// An attribute whose declared length is below its header or runs past the end of its
/// message ends the attributes of that message: nothing of it, or of what follows in the
/// message, is read.
pub proof fn lemma_truncated_attr_stops(a: Seq<u8>, family: u8, prefix: u8, index: u32)
    requires
        a.len() >= ATTR_HEADER_LEN,
        u16_at(a, 0) < ATTR_HEADER_LEN || u16_at(a, 0) > a.len(),
    ensures
        attrs_records(a, family, prefix, index) == Seq::<AddrRecord>::empty(),
{
}

/// Whether the walk over the messages of `s` reaches offset `c`: every message before
/// it fits and is neither DONE nor ERROR, and `c` is where the last of them ends,
/// aligned.
pub open spec fn walk_reaches(s: Seq<u8>, c: int) -> bool
    decreases c,
{
    if c == 0 {
        true
    } else if c < 0 || !message_fits(s) || u16_at(s, 4) == MSG_DONE || u16_at(s, 4) == MSG_ERROR {
        false
    } else {
        let step = align4(u32_at(s, 0));
        step <= c && step <= s.len() && walk_reaches(s.skip(step), c - step)
    }
}

/// Where the walk reaches a message that does not fit, the datagram reads as if it were
/// cut there: no byte from that message on changes what the walk gives.
pub proof fn lemma_walk_cut(s: Seq<u8>, c: int)
    requires
        0 <= c <= s.len(),
        walk_reaches(s, c),
        !message_fits(s.skip(c)),
    ensures
        walk(s) == walk(s.take(c)),
    decreases c,
{
    if c == 0 {
        assert(s.skip(0) =~= s);
        assert(!message_fits(s.take(0)));
    } else {
        let len = u32_at(s, 0);
        let step = align4(len);
        let t = s.take(c);
        assert(u32_at(t, 0) == len && u16_at(t, 4) == u16_at(s, 4));
        assert(message_fits(t));
        assert(t.take(len) =~= s.take(len));
        let here = if u16_at(s, 4) == MSG_NEW_ADDRESS {
            message_records(s.take(len))
        } else {
            seq![]
        };
        if step < c {
            assert(t.skip(step) =~= s.skip(step).take(c - step));
            assert(s.skip(step).skip(c - step) =~= s.skip(c));
            lemma_walk_cut(s.skip(step), c - step);
            assert(walk(t) == (here + walk(t.skip(step)).0, walk(t.skip(step)).1));
            assert(walk(s) == (here + walk(s.skip(step)).0, walk(s.skip(step)).1));
        } else {
            assert(walk(t) == (here, StreamEnd::More));
            if step < s.len() {
                assert(s.skip(step) =~= s.skip(c));
                assert(walk(s.skip(step)) == (Seq::<AddrRecord>::empty(), StreamEnd::More));
                assert(here + Seq::<AddrRecord>::empty() =~= here);
            }
        }
    }
}

} // verus!
