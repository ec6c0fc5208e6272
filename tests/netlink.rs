use system_info::enumerate::{name_array, Step};
use system_info::netlink::{dump_request, parse_datagram, AddrRecord, StreamEnd};
use system_info::network::{Address, Ip};
use system_info::registry::Interfaces;

fn header(len: u32, ty: u16) -> Vec<u8> {
    let mut v = Vec::new();
    v.extend_from_slice(&len.to_le_bytes());
    v.extend_from_slice(&ty.to_le_bytes());
    v.extend_from_slice(&[0, 0]);
    v.extend_from_slice(&[0; 8]);
    v
}

fn attr(ty: u16, payload: &[u8]) -> Vec<u8> {
    let mut v = Vec::new();
    v.extend_from_slice(&((4 + payload.len()) as u16).to_le_bytes());
    v.extend_from_slice(&ty.to_le_bytes());
    v.extend_from_slice(payload);
    while v.len() % 4 != 0 {
        v.push(0);
    }
    v
}

fn addr_msg(index: u32, family: u8, prefix: u8, attrs: &[Vec<u8>]) -> Vec<u8> {
    let mut body = vec![family, prefix, 0, 0];
    body.extend_from_slice(&index.to_le_bytes());
    for a in attrs {
        body.extend_from_slice(a);
    }
    let mut v = header((16 + body.len()) as u32, 20);
    v.extend_from_slice(&body);
    v
}

fn done() -> Vec<u8> {
    let mut v = header(20, 3);
    v.extend_from_slice(&[0; 4]);
    v
}

fn error() -> Vec<u8> {
    let mut v = header(36, 2);
    v.extend_from_slice(&[0xf3, 0xff, 0xff, 0xff]);
    v.extend_from_slice(&[0; 16]);
    v
}

fn v4(index: u32, prefix: u8, ip: [u8; 4]) -> Vec<u8> {
    addr_msg(index, 2, prefix, &[attr(1, &ip), attr(2, &ip)])
}

fn v6_bytes(groups: [u16; 8]) -> Vec<u8> {
    groups.iter().flat_map(|g| g.to_be_bytes()).collect()
}

fn v6(index: u32, prefix: u8, groups: [u16; 8]) -> Vec<u8> {
    addr_msg(index, 10, prefix, &[attr(1, &v6_bytes(groups))])
}

fn record(index: u32, ip: Ip, prefix: u8) -> AddrRecord {
    AddrRecord { index, address: Address { ip, prefix } }
}

fn registry_of(records: &Vec<AddrRecord>, names: &[&[u8]]) -> Interfaces {
    let mut reg = Interfaces::empty();
    let names: Vec<_> = names.iter().map(|n| Some(name_array(n))).collect();
    assert!(reg.store_records(records, &names));
    reg
}

fn listing(reg: &Interfaces) -> Vec<(Vec<u8>, Vec<Address>)> {
    let mut out = Vec::new();
    let mut it = reg.iter();
    while let Some(i) = it.next_interface() {
        let mut addrs = Vec::new();
        let mut a = i.addresses();
        while let Some(x) = a.next_addr() {
            addrs.push(x);
        }
        out.push((i.name_bytes().to_vec(), addrs));
    }
    out
}

#[test]
fn scenario_loopback_v4() {
    let mut buf = v4(1, 8, [127, 0, 0, 1]);
    buf.extend(done());
    let (records, end) = parse_datagram(&buf);
    assert_eq!(end, StreamEnd::Done);
    assert_eq!(records, vec![record(1, Ip::V4([127, 0, 0, 1]), 8)]);
    let reg = registry_of(&records, &[b"lo"]);
    let list = listing(&reg);
    assert_eq!(list.len(), 1);
    assert_eq!(list[0].0, b"lo".to_vec());
    assert_eq!(list[0].1, vec![Address { ip: Ip::V4([127, 0, 0, 1]), prefix: 8 }]);
    assert_eq!(list[0].1[0].to_text(), "127.0.0.1");
    assert_eq!(list[0].1[0].net_mask(), Ip::V4([255, 0, 0, 0]));
    let mut it = reg.iter();
    assert_eq!(it.interface().map(|i| i.name()), Some(Some("lo")));
    assert!(it.next_interface().is_some());
    assert!(it.next_interface().is_none());
}

#[test]
fn scenario_two_families_one_record() {
    let g = [0xfe80, 0, 0, 0, 0x21a, 0x2bff, 0xfe3c, 0x4d5e];
    let mut buf = v4(3, 24, [192, 168, 0, 10]);
    buf.extend(v6(3, 64, g));
    buf.extend(done());
    let (records, end) = parse_datagram(&buf);
    assert_eq!(end, StreamEnd::Done);
    let reg = registry_of(&records, &[b"eth0", b"eth0"]);
    let list = listing(&reg);
    assert_eq!(list.len(), 1);
    assert_eq!(list[0].0, b"eth0".to_vec());
    assert_eq!(
        list[0].1,
        vec![
            Address { ip: Ip::V4([192, 168, 0, 10]), prefix: 24 },
            Address { ip: Ip::V6(g), prefix: 64 },
        ]
    );
    assert_eq!(list[0].1[1].to_text(), "fe80:0:0:0:21a:2bff:fe3c:4d5e");
}

#[test]
fn scenario_error_before_done_fails() {
    let mut buf = v4(1, 8, [127, 0, 0, 1]);
    buf.extend(error());
    buf.extend(done());
    let (_, end) = parse_datagram(&buf);
    assert_eq!(end, StreamEnd::Error);
    let mut reg = Interfaces::empty();
    assert_eq!(reg.feed(&buf), Step::Failed);
}

#[test]
fn done_alone_finishes_empty() {
    let mut reg = Interfaces::empty();
    assert_eq!(reg.feed(&done()), Step::Finished);
    assert_eq!(reg.len(), 0);
}

#[test]
fn datagram_without_end_continues() {
    let mut reg = Interfaces::empty();
    assert_eq!(reg.feed(&header(16, 16)), Step::Continue);
    assert_eq!(reg.feed(&[]), Step::Continue);
}

#[test]
fn truncated_message_yields_nothing() {
    let mut buf = v4(1, 8, [127, 0, 0, 1]);
    buf[0] = 100;
    let (records, end) = parse_datagram(&buf);
    assert!(records.is_empty());
    assert_eq!(end, StreamEnd::More);
    let short = &done()[..10];
    assert_eq!(parse_datagram(short), (vec![], StreamEnd::More));
}

#[test]
fn truncated_later_message_keeps_earlier_ones() {
    let mut buf = v4(1, 8, [10, 0, 0, 1]);
    let mut second = v4(2, 8, [10, 0, 0, 2]);
    second[0] = 200;
    buf.extend(second);
    let (records, end) = parse_datagram(&buf);
    assert_eq!(records, vec![record(1, Ip::V4([10, 0, 0, 1]), 8)]);
    assert_eq!(end, StreamEnd::More);
}

#[test]
fn oversized_attribute_stops_its_message_only() {
    let mut bad = attr(2, &[1, 2, 3, 4]);
    bad[0] = 60;
    let mut buf = addr_msg(1, 2, 8, &[attr(2, &[9, 9, 9, 9]), bad]);
    buf.extend(v4(2, 16, [10, 1, 0, 1]));
    buf.extend(done());
    let (records, end) = parse_datagram(&buf);
    assert_eq!(end, StreamEnd::Done);
    assert_eq!(
        records,
        vec![record(1, Ip::V4([9, 9, 9, 9]), 8), record(2, Ip::V4([10, 1, 0, 1]), 16)]
    );
}

#[test]
fn unaligned_attribute_is_followed_at_aligned_offset() {
    // a 7-byte attribute, padded to 8, then the local address
    let odd = attr(8, &[0xaa, 0xbb, 0xcc]);
    assert_eq!(odd.len(), 8);
    let mut buf = addr_msg(5, 2, 12, &[odd, attr(2, &[172, 16, 0, 1])]);
    buf.extend(done());
    let (records, end) = parse_datagram(&buf);
    assert_eq!(end, StreamEnd::Done);
    assert_eq!(records, vec![record(5, Ip::V4([172, 16, 0, 1]), 12)]);
}

#[test]
fn unaligned_message_is_followed_at_aligned_offset() {
    // a message of declared length 18, padded to 20, of an ignored type
    let mut other = header(18, 16);
    other.extend_from_slice(&[0xee, 0xee, 0, 0]);
    let mut buf = other;
    buf.extend(v4(4, 8, [10, 9, 8, 7]));
    buf.extend(done());
    let (records, end) = parse_datagram(&buf);
    assert_eq!(end, StreamEnd::Done);
    assert_eq!(records, vec![record(4, Ip::V4([10, 9, 8, 7]), 8)]);
}

#[test]
fn other_attributes_and_families_are_ignored() {
    // an IPv4 message's plain address attribute, and an IPv6 message's local one
    let mut buf = addr_msg(1, 2, 8, &[attr(1, &[1, 1, 1, 1])]);
    buf.extend(addr_msg(1, 10, 64, &[attr(2, &[0; 16])]));
    buf.extend(addr_msg(1, 7, 8, &[attr(2, &[1, 2, 3, 4])]));
    buf.extend(done());
    let (records, end) = parse_datagram(&buf);
    assert_eq!(end, StreamEnd::Done);
    assert!(records.is_empty());
}

#[test]
fn short_address_payload_is_zero_filled() {
    let mut buf = addr_msg(1, 2, 8, &[attr(2, &[10, 20])]);
    buf.extend(done());
    let (records, _) = parse_datagram(&buf);
    assert_eq!(records, vec![record(1, Ip::V4([10, 20, 0, 0]), 8)]);
}

#[test]
fn records_after_done_are_not_read() {
    let mut buf = v4(1, 8, [10, 0, 0, 1]);
    buf.extend(done());
    buf.extend(v4(2, 8, [10, 0, 0, 2]));
    let (records, end) = parse_datagram(&buf);
    assert_eq!(end, StreamEnd::Done);
    assert_eq!(records.len(), 1);
}

#[test]
fn encoded_records_decode_in_order() {
    let g = [0x2001, 0xdb8, 0, 0, 0, 0, 0, 0x42];
    let mut buf = v4(2, 8, [127, 0, 0, 1]);
    buf.extend(v6(7, 48, g));
    buf.extend(v4(7, 30, [192, 0, 2, 1]));
    buf.extend(v4(0xdeadbeef, 0, [0, 0, 0, 0]));
    buf.extend(done());
    let (records, end) = parse_datagram(&buf);
    assert_eq!(end, StreamEnd::Done);
    assert_eq!(
        records,
        vec![
            record(2, Ip::V4([127, 0, 0, 1]), 8),
            record(7, Ip::V6(g), 48),
            record(7, Ip::V4([192, 0, 2, 1]), 30),
            record(0xdeadbeef, Ip::V4([0, 0, 0, 0]), 0),
        ]
    );
    let reg = registry_of(&records, &[b"lo", b"wlan0", b"wlan0", b"br0"]);
    let list = listing(&reg);
    let names: Vec<&[u8]> = list.iter().map(|(n, _)| n.as_slice()).collect();
    assert_eq!(names, vec![&b"br0"[..], &b"lo"[..], &b"wlan0"[..]]);
    assert_eq!(list[2].1.len(), 2);
    assert_eq!(list[2].1[0].ip, Ip::V6(g));
}

#[test]
fn registry_is_sorted_by_name_bytes() {
    let mut reg = Interfaces::empty();
    let a = Address { ip: Ip::V4([1, 2, 3, 4]), prefix: 8 };
    for n in [&b"wlan0"[..], b"eth0", b"lo", b"eth", b"eth0", b"Eth"] {
        reg.store(name_array(n), a);
    }
    let list = listing(&reg);
    let names: Vec<&[u8]> = list.iter().map(|(n, _)| n.as_slice()).collect();
    assert_eq!(names, vec![&b"Eth"[..], b"eth", b"eth0", b"lo", b"wlan0"]);
    assert_eq!(list[2].1.len(), 2);
}

#[test]
fn missing_name_stores_nothing() {
    let records = vec![record(1, Ip::V4([1, 1, 1, 1]), 8), record(9, Ip::V4([2, 2, 2, 2]), 8)];
    let mut reg = Interfaces::empty();
    assert!(!reg.store_records(&records, &vec![Some(name_array(b"lo")), None]));
    assert_eq!(reg.len(), 0);
}

#[test]
fn non_utf8_interface_name() {
    let records = vec![record(1, Ip::V4([1, 1, 1, 1]), 8)];
    let reg = registry_of(&records, &[&[0x65, 0xfe]]);
    let it = reg.iter();
    let i = it.interface().unwrap();
    assert_eq!(i.name(), None);
    assert_eq!(i.name_bytes(), &[0x65, 0xfe]);
}

#[test]
fn dump_request_layout() {
    let r = dump_request();
    assert_eq!(
        r,
        vec![24, 0, 0, 0, 22, 0, 1, 3, 0, 0, 0, 0, 0, 0, 0, 0, 0, 0, 0, 0, 0, 0, 0, 0]
    );
}

#[test]
fn same_content_gives_same_order() {
    let a = Address { ip: Ip::V4([10, 0, 0, 1]), prefix: 8 };
    let b = Address { ip: Ip::V6([0xfe80, 0, 0, 0, 0, 0, 0, 2]), prefix: 64 };
    let mut first = Interfaces::empty();
    first.store(name_array(b"wlan0"), a);
    first.store(name_array(b"lo"), b);
    first.store(name_array(b"docker0"), a);
    let mut second = Interfaces::empty();
    second.store(name_array(b"docker0"), a);
    second.store(name_array(b"lo"), b);
    second.store(name_array(b"wlan0"), a);
    assert_eq!(listing(&first), listing(&second));
}

#[test]
fn applying_a_datagram_with_found_names() {
    let mut buf = v4(1, 8, [127, 0, 0, 1]);
    buf.extend(done());
    let (records, end) = parse_datagram(&buf);
    let mut reg = Interfaces::empty();
    let names = vec![Some(name_array(b"lo"))];
    assert_eq!(reg.apply_datagram(&records, end, &names), Step::Finished);
    assert_eq!(listing(&reg), vec![(b"lo".to_vec(), vec![Address { ip: Ip::V4([127, 0, 0, 1]), prefix: 8 }])]);
}

#[test]
fn applying_a_datagram_with_a_missing_name_fails() {
    let buf = v4(1, 8, [127, 0, 0, 1]);
    let (records, end) = parse_datagram(&buf);
    assert_eq!(end, StreamEnd::More);
    let mut reg = Interfaces::empty();
    assert_eq!(reg.apply_datagram(&records, end, &vec![None]), Step::Failed);
    assert_eq!(reg.len(), 0);
    assert_eq!(reg.apply_datagram(&records, end, &vec![Some(name_array(b"lo"))]), Step::Continue);
    assert_eq!(reg.len(), 1);
}

#[test]
fn applying_an_error_datagram_fails() {
    let mut buf = v4(1, 8, [127, 0, 0, 1]);
    buf.extend(error());
    let (records, end) = parse_datagram(&buf);
    let mut reg = Interfaces::empty();
    assert_eq!(reg.apply_datagram(&records, end, &vec![Some(name_array(b"lo"))]), Step::Failed);
    assert_eq!(reg.len(), 0);
}

#[test]
fn addresses_across_datagrams_join_one_record() {
    let mut reg = Interfaces::empty();
    let first = v4(2, 24, [10, 0, 0, 1]);
    let (r1, e1) = parse_datagram(&first);
    assert_eq!(reg.apply_datagram(&r1, e1, &vec![Some(name_array(b"eth0"))]), Step::Continue);
    let mut second = v4(2, 16, [10, 1, 0, 1]);
    second.extend(done());
    let (r2, e2) = parse_datagram(&second);
    assert_eq!(reg.apply_datagram(&r2, e2, &vec![Some(name_array(b"eth0"))]), Step::Finished);
    let list = listing(&reg);
    assert_eq!(list.len(), 1);
    assert_eq!(
        list[0].1,
        vec![
            Address { ip: Ip::V4([10, 0, 0, 1]), prefix: 24 },
            Address { ip: Ip::V4([10, 1, 0, 1]), prefix: 16 },
        ]
    );
}
