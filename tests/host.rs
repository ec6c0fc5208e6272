use system_info::host::HostName;

#[test]
fn empty_host_name() {
    let n = HostName::new();
    assert_eq!(n.as_bytes(), b"");
    assert_eq!(n.as_str(), Ok(""));
    assert_eq!(HostName::capacity(), 255);
}

#[test]
fn host_name_ends_at_first_zero() {
    let mut buf = [0u8; 255];
    buf[..4].copy_from_slice(b"node");
    buf[5] = b'x';
    let n = HostName::name(buf);
    assert_eq!(n.as_bytes(), b"node");
    assert_eq!(n.as_str(), Ok("node"));
}

#[test]
fn host_name_of_full_buffer() {
    let buf = [b'a'; 255];
    let n = HostName::name(buf);
    assert_eq!(n.as_bytes().len(), 255);
}

#[test]
fn host_name_not_utf8_gives_bytes() {
    let n = HostName::from_bytes(&[0x66, 0xff, 0x67]);
    assert_eq!(n.as_bytes(), &[0x66, 0xff, 0x67]);
    assert_eq!(n.as_str(), Err(&[0x66u8, 0xff, 0x67][..]));
}

#[test]
fn host_name_from_long_bytes_is_cut() {
    let long = vec![b'h'; 300];
    let n = HostName::from_bytes(&long);
    assert_eq!(n.as_bytes(), &long[..255]);
}

#[test]
fn system_host_name_is_not_empty() {
    let n = match HostName::get() {
        Some(n) => n,
        None => panic!("no host name"),
    };
    assert!(!n.as_bytes().is_empty());
}

#[test]
fn host_names_compare_by_bytes() {
    let mut buf = [0u8; 255];
    buf[..3].copy_from_slice(b"box");
    buf[4] = 7;
    assert!(HostName::name(buf) == HostName::from_bytes(b"box"));
    assert!(HostName::name(buf) != HostName::from_bytes(b"boxes"));
    assert!(HostName::new() == HostName::from_bytes(b""));
}

#[test]
fn host_names_order_by_bytes() {
    let a = HostName::from_bytes(b"alpha");
    let b = HostName::from_bytes(b"beta");
    let al = HostName::from_bytes(b"al");
    assert!(a < b);
    assert!(al < a);
    assert!(b > al);
    assert_eq!(a.partial_cmp(&HostName::from_bytes(b"alpha")), Some(core::cmp::Ordering::Equal));
}

#[test]
fn host_name_equals_text_and_bytes() {
    let n = HostName::from_bytes(b"web1");
    assert!(n == *"web1");
    assert!(*"web1" == n);
    assert!(n == b"web1"[..]);
    assert!(b"web1"[..] == n);
    assert!(n != *"web2");
    let bytes: &[u8] = n.as_ref();
    assert_eq!(bytes, b"web1");
}
