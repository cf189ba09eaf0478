use lqos_core::address::IpAddress;
use lqos_core::classifier::{
    add_ip_to_tc, clear_ips_from_tc, del_ip_from_tc, list_mapped_ips, split_tc_handle,
    ClearAction, ClearEvent, IpHashData, IpHashKey, IpToMap,
};

fn v6(words: [u16; 8]) -> IpAddress {
    let mut o = [0u8; 16];
    for i in 0..8 {
        o[2 * i] = (words[i] >> 8) as u8;
        o[2 * i + 1] = (words[i] & 0xFF) as u8;
    }
    IpAddress::V6(o)
}

#[test]
fn parse_ipv4_single() {
    let map = IpToMap::new("1.2.3.4", (1, 2), 1).unwrap();
    assert_eq!(IpAddress::V4([1, 2, 3, 4]), map.subnet);
    assert_eq!(map.prefix, 128);
    assert_eq!(map.tc_handle, (1, 2));
    assert_eq!(map.cpu, 1);
}

#[test]
fn parse_ipv4_subnet() {
    let map = IpToMap::new("1.2.3.0/24", (1, 2), 1).unwrap();
    assert_eq!(IpAddress::V4([1, 2, 3, 0]), map.subnet);
    assert_eq!(map.prefix, 24 + 96);
    assert_eq!(map.tc_handle, (1, 2));
    assert_eq!(map.cpu, 1);
}

#[test]
fn parse_ipv4_invalid_ip() {
    let map = IpToMap::new("1.2.3.256/24", (1, 2), 1);
    assert!(map.is_err());
}

#[test]
fn parse_ipv4_super_invalid_ip() {
    let map = IpToMap::new("I like sheep", (1, 2), 1);
    assert!(map.is_err());
}

#[test]
fn parse_ipv4_invalid_cidr() {
    let map = IpToMap::new("1.2.3.256/33", (1, 2), 1);
    assert!(map.is_err());
}

#[test]
fn parse_ipv4_negative_cidr() {
    let map = IpToMap::new("1.2.3.256/-1", (1, 2), 1);
    assert!(map.is_err());
}

#[test]
fn parse_ipv6_single() {
    let map = IpToMap::new("dead::beef", (1, 2), 1).unwrap();
    assert_eq!(v6([0xdead, 0, 0, 0, 0, 0, 0, 0xbeef]), map.subnet);
    assert_eq!(map.prefix, 128);
    assert_eq!(map.tc_handle, (1, 2));
    assert_eq!(map.cpu, 1);
}

#[test]
fn parse_ipv6_subnet() {
    let map = IpToMap::new("dead:beef::/64", (1, 2), 1).unwrap();
    assert_eq!(v6([0xdead, 0xbeef, 0, 0, 0, 0, 0, 0]), map.subnet);
    assert_eq!(map.prefix, 64);
    assert_eq!(map.tc_handle, (1, 2));
    assert_eq!(map.cpu, 1);
}

#[test]
fn parse_ipv6_invalid_ip() {
    let map = IpToMap::new("dead:beef", (1, 2), 1);
    assert!(map.is_err());
}

#[test]
fn malformed_inputs_are_rejected() {
    for text in ["bad wolf", "1.2.3.256/24", "1.2.3.4/-1", "fd77::1::5", "", "1.2.3", "1.2.3.4.5",
        "01.2.3.4", "1.2.3.4/", "1::2::3", ":1::", "1:2:3:4:5:6:7:8:9", "12345::1", "1.2.3.4/129",
        "::/129", "1:2:3:4:5:6:7::8"]
    {
        assert!(IpToMap::new(text, (1, 2), 1).is_err(), "{}", text);
        assert!(add_ip_to_tc(text, (1, 2), 1).is_err(), "{}", text);
    }
}

#[test]
fn accepted_forms() {
    assert_eq!(IpToMap::new("::", (0, 0), 0).unwrap().subnet, v6([0; 8]));
    assert_eq!(IpToMap::new("1::", (0, 0), 0).unwrap().subnet, v6([1, 0, 0, 0, 0, 0, 0, 0]));
    assert_eq!(
        IpToMap::new("fd77::1:5", (0, 0), 0).unwrap().subnet,
        v6([0xfd77, 0, 0, 0, 0, 0, 1, 5])
    );
    assert_eq!(
        IpToMap::new("1:2:3:4:5:6:7:8", (0, 0), 0).unwrap().subnet,
        v6([1, 2, 3, 4, 5, 6, 7, 8])
    );
    assert_eq!(IpToMap::new("FD77::A", (0, 0), 0).unwrap().subnet, v6([0xfd77, 0, 0, 0, 0, 0, 0, 10]));
    assert_eq!(IpToMap::new("0.0.0.0/0", (0, 0), 0).unwrap().prefix, 96);
    assert_eq!(IpToMap::new("1.2.3.4/32", (0, 0), 0).unwrap().prefix, 128);
    assert!(IpToMap::new("1.2.3.4/128", (0, 0), 0).is_err());
    assert!(IpToMap::new("1.2.3.4/33", (0, 0), 0).is_err());
    assert_eq!(IpToMap::new("::1/128", (0, 0), 0).unwrap().prefix, 128);
    assert_eq!(IpToMap::new("::1/0", (0, 0), 0).unwrap().prefix, 0);
}

#[test]
fn handle_packs_major_and_minor() {
    let map = IpToMap::new("1.2.3.4", (1, 12), 2).unwrap();
    assert_eq!(map.handle(), 0x0001_000C);
    assert_eq!(split_tc_handle(0x0001_000C), (1, 12));
    assert_eq!(split_tc_handle(0xFFFF_0001), (0xFFFF, 1));
}

#[test]
fn prefix_normalised_and_listed_back() {
    let (k, d) = add_ip_to_tc("1.2.3.0/24", (1, 2), 3).unwrap();
    assert_eq!(k.prefixlen, 120);
    let (h, _) = add_ip_to_tc("1.2.3.4", (1, 2), 3).unwrap();
    assert_eq!(h.prefixlen, 128);
    let listed = list_mapped_ips(&vec![(k, d), (h, d)]);
    assert_eq!(listed[0].prefix_length, 24);
    assert_eq!(listed[0].ip_address, IpAddress::V4([1, 2, 3, 0]));
    assert_eq!(listed[1].prefix_length, 32);
    let (k6, d6) = add_ip_to_tc("dead:beef::/64", (1, 2), 3).unwrap();
    let listed6 = list_mapped_ips(&vec![(k6, d6)]);
    assert_eq!(listed6[0].prefix_length, 64);
    assert_eq!(listed6[0].ip_address, v6([0xdead, 0xbeef, 0, 0, 0, 0, 0, 0]));
}

#[test]
fn same_text_gives_same_key() {
    let (a, _) = add_ip_to_tc("192.168.1.0/24", (1, 2), 3).unwrap();
    let (b, _) = add_ip_to_tc("192.168.1.0/24", (4, 5), 6).unwrap();
    assert_eq!(a, b);
    assert_eq!(del_ip_from_tc("192.168.1.0/24").unwrap(), a);
    // a bare address names a different key than the subnet
    assert_ne!(del_ip_from_tc("192.168.1.0").unwrap(), a);
}

#[test]
fn add_list_clear_scenario() {
    let (key, data) = add_ip_to_tc("10.0.0.5", (1, 12), 2).unwrap();
    assert_eq!(data, IpHashData { cpu: 2, tc_handle: (1 << 16) | 12 });
    let listed = list_mapped_ips(&vec![(key, data)]);
    assert_eq!(listed.len(), 1);
    assert_eq!(listed[0].ip_address, IpAddress::V4([10, 0, 0, 5]));
    assert_eq!(listed[0].prefix_length, 32);
    assert_eq!(listed[0].cpu, 2);
    assert_eq!(split_tc_handle(listed[0].tc_handle), (1, 12));

    // clearing: ask for a key, delete it, ask again, until none is left
    assert!(matches!(clear_ips_from_tc(ClearEvent::Start), ClearAction::AskFirstKey));
    match clear_ips_from_tc(ClearEvent::NextKey(Some(key))) {
        ClearAction::Delete(k) => assert_eq!(k, key),
        _ => panic!("expected a delete"),
    }
    assert!(matches!(clear_ips_from_tc(ClearEvent::Deleted(true)), ClearAction::AskFirstKey));
    assert!(matches!(clear_ips_from_tc(ClearEvent::NextKey(None)), ClearAction::Finished));
    assert!(matches!(clear_ips_from_tc(ClearEvent::Deleted(false)), ClearAction::Failed));
    assert!(list_mapped_ips(&Vec::<(IpHashKey, IpHashData)>::new()).is_empty());
}

#[test]
fn ipv6_with_dotted_quad_tail() {
    assert_eq!(
        IpToMap::new("::ffff:1.2.3.4", (0, 0), 0).unwrap().subnet,
        v6([0, 0, 0, 0, 0, 0xffff, 0x0102, 0x0304])
    );
    assert_eq!(
        IpToMap::new("1:2:3:4:5:6:10.0.0.1", (0, 0), 0).unwrap().subnet,
        v6([1, 2, 3, 4, 5, 6, 0x0a00, 0x0001])
    );
    assert_eq!(IpToMap::new("::1.2.3.4/120", (0, 0), 0).unwrap().prefix, 120);
    for text in ["1.2.3.4::", "::1.2.3.4:5", "::1.2.3", "1:2:3:4:5:6:7:1.2.3.4", "1.2.3.4::1",
        "::1.2.3.256", "1:2:3:4:5:6:7:8:1.2.3.4"]
    {
        assert!(IpToMap::new(text, (0, 0), 0).is_err(), "{}", text);
    }
}
