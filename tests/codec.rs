use lqos_core::address::{IpAddress, XdpIpAddress};

#[test]
fn ipv4_encodes_behind_mapped_prefix() {
    let x = XdpIpAddress::from_ip(IpAddress::V4([10, 0, 0, 5]));
    let mut expected = [0xFFu8; 16];
    expected[12] = 10;
    expected[13] = 0;
    expected[14] = 0;
    expected[15] = 5;
    assert_eq!(x.0, expected);
    assert!(x.is_v4());
}

#[test]
fn ipv6_words_are_byte_swapped() {
    let mut o = [0u8; 16];
    o[0] = 0xfd;
    o[1] = 0x77;
    o[15] = 0x05;
    let x = XdpIpAddress::from_ip(IpAddress::V6(o));
    assert_eq!(x.0[0], 0x77);
    assert_eq!(x.0[1], 0xfd);
    assert_eq!(x.0[14], 0x05);
    assert_eq!(x.0[15], 0x00);
    assert!(!x.is_v4());
}

#[test]
fn round_trip_ipv4() {
    for ip in [[1u8, 2, 3, 4], [0, 0, 0, 0], [255, 255, 255, 255], [192, 168, 1, 254]] {
        let a = IpAddress::V4(ip);
        assert_eq!(XdpIpAddress::from_ip(a).as_ip(), a);
    }
}

#[test]
fn round_trip_ipv6() {
    let mut o = [0u8; 16];
    for i in 0..16 {
        o[i] = (i as u8) * 17 + 3;
    }
    let a = IpAddress::V6(o);
    assert_eq!(XdpIpAddress::from_ip(a).as_ip(), a);
    let zero = IpAddress::V6([0u8; 16]);
    assert_eq!(XdpIpAddress::from_ip(zero).as_ip(), zero);
}

#[test]
fn mapped_prefix_always_decodes_as_ipv4() {
    let mut b = [0xFFu8; 16];
    b[12] = 7;
    b[13] = 8;
    b[14] = 9;
    b[15] = 10;
    assert_eq!(XdpIpAddress(b).as_ip(), IpAddress::V4([7, 8, 9, 10]));
    // an IPv6 address whose layout starts with twelve 0xFF bytes is read as IPv4
    let v6 = IpAddress::V6([0xFFu8; 16]);
    assert_eq!(XdpIpAddress::from_ip(v6).as_ip(), IpAddress::V4([255, 255, 255, 255]));
}

#[test]
fn sentinel_is_all_ones() {
    assert_eq!(XdpIpAddress::sentinel().0, [0xFFu8; 16]);
}

#[test]
fn same_key_compares_bytes() {
    let a = XdpIpAddress::from_ip(IpAddress::V4([1, 2, 3, 4]));
    let b = XdpIpAddress::from_ip(IpAddress::V4([1, 2, 3, 4]));
    let c = XdpIpAddress::from_ip(IpAddress::V4([1, 2, 3, 5]));
    assert!(a.same_key(&b));
    assert!(!a.same_key(&c));
}
