use system_info::network::{Address, Ip};

#[test]
fn v4_mask_of_prefix_8() {
    let a = Address { ip: Ip::V4([127, 0, 0, 1]), prefix: 8 };
    assert_eq!(a.net_mask(), Ip::V4([255, 0, 0, 0]));
}

#[test]
fn v4_mask_edges() {
    let a = Address { ip: Ip::V4([10, 0, 0, 1]), prefix: 0 };
    assert_eq!(a.net_mask(), Ip::V4([0, 0, 0, 0]));
    let a = Address { ip: Ip::V4([10, 0, 0, 1]), prefix: 32 };
    assert_eq!(a.net_mask(), Ip::V4([255, 255, 255, 255]));
    let a = Address { ip: Ip::V4([10, 0, 0, 1]), prefix: 20 };
    assert_eq!(a.net_mask(), Ip::V4([255, 255, 240, 0]));
}

#[test]
fn v6_mask() {
    let a = Address { ip: Ip::V6([0xfe80, 0, 0, 0, 0, 0, 0, 1]), prefix: 64 };
    assert_eq!(a.net_mask(), Ip::V6([0xffff, 0xffff, 0xffff, 0xffff, 0, 0, 0, 0]));
    let a = Address { ip: Ip::V6([0; 8]), prefix: 4 };
    assert_eq!(a.net_mask(), Ip::V6([0xf000, 0, 0, 0, 0, 0, 0, 0]));
    let a = Address { ip: Ip::V6([0; 8]), prefix: 128 };
    assert_eq!(a.net_mask(), Ip::V6([0xffff; 8]));
    let a = Address { ip: Ip::V6([0; 8]), prefix: 0 };
    assert_eq!(a.net_mask(), Ip::V6([0; 8]));
}

#[test]
fn unspecified_and_loopback() {
    assert!(Ip::V4([0, 0, 0, 0]).is_unspecified());
    assert!(!Ip::V4([0, 0, 0, 1]).is_unspecified());
    assert!(Ip::V4([127, 1, 2, 3]).is_loopback());
    assert!(!Ip::V4([128, 0, 0, 1]).is_loopback());
    assert!(Ip::V6([0; 8]).is_unspecified());
    assert!(Ip::V6([0, 0, 0, 0, 0, 0, 0, 1]).is_loopback());
    assert!(!Ip::V6([0, 0, 0, 0, 0, 0, 1, 1]).is_loopback());
}

#[test]
fn address_text() {
    assert_eq!(Ip::V4([127, 0, 0, 1]).to_text(), "127.0.0.1");
    assert_eq!(Ip::V4([255, 10, 0, 200]).to_text(), "255.10.0.200");
    assert_eq!(Ip::V6([0; 8]).to_text(), "::");
    assert_eq!(Ip::V6([0, 0, 0, 0, 0, 0, 0, 1]).to_text(), "::1");
    assert_eq!(Ip::V6([0xfe80, 0, 0, 0, 0x1ff, 0xfe23, 0x4567, 0x890a]).to_text(), "fe80:0:0:0:1ff:fe23:4567:890a");
    let a = Address { ip: Ip::V4([192, 168, 1, 7]), prefix: 24 };
    assert_eq!(a.to_text(), "192.168.1.7");
}
