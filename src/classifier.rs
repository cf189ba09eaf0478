use vstd::prelude::*;
use vstd::string::StringSliceAdditionalSpecFns;

use crate::address::{
    canonical_bytes, decoded_ip, is_mapped_v4, same_ip, swapped_byte, IpAddress, XdpIpAddress,
};
use crate::counters::delta;
use crate::ipparse::{parse_ipv4, parse_ipv6, parse_v4, parse_v6, words_to_octets, COLON};
use crate::text::{dec_number_ok, dec_value, find_sep, first_sep, parse_dec};

verus! {

pub const SLASH: u8 = 47;

/// The value of a classification entry: the CPU and the queue handle.
#[derive(Clone, Copy, Debug, PartialEq, Eq)]
pub struct IpHashData {
    pub cpu: u32,
    pub tc_handle: u32,
}

/// The key of a classification entry: a prefix length over the 128-bit
/// mapped address space, and the address in the kernel's layout.
#[derive(Clone, Copy, Debug, PartialEq, Eq)]
pub struct IpHashKey {
    pub prefixlen: u32,
    pub address: [u8; 16],
}

/// A classification entry as it is listed.
#[derive(Clone, Copy, Debug, PartialEq, Eq)]
pub struct IpMapping {
    pub ip_address: IpAddress,
    pub prefix_length: u32,
    pub tc_handle: u32,
    pub cpu: u32,
}

/// An address or subnet bound to a queue, as parsed.
#[derive(Clone, Copy, Debug, PartialEq, Eq)]
pub struct IpToMap {
    pub subnet: IpAddress,
    pub prefix: u32,
    pub tc_handle: (u16, u16),
    pub cpu: u32,
}

/// The text does not hold an address with an optional `/prefix`.
#[derive(Clone, Copy, Debug, PartialEq, Eq)]
pub enum ClassifierError {
    Parse,
}

/// What an address text stands for: (is IPv6, its octets, the prefix length
/// over the mapped space), or nothing where the text is malformed.
///
/// The text is an address with an optional `/prefix` of decimal digits. An
/// address holding a `:` is IPv6, with a prefix of 0 to 128. Otherwise it is
/// IPv4, with a prefix of 0 to 32 that is moved into the mapped space by
/// adding 96. Without a prefix the entry is a host route of length 128.
pub open spec fn parse_entry(s: Seq<u8>) -> Option<(bool, Seq<u8>, u32)> {
    let n = s.len() as int;
    let slash = first_sep(s, 0, n, SLASH);
    let has_prefix = slash < n;
    let raw = if has_prefix {
        dec_value(s, slash + 1, n)
    } else {
        128
    };
    if has_prefix && !dec_number_ok(s, slash + 1, n, 128) {
        None
    } else if first_sep(s, 0, slash, COLON) < slash {
        match parse_v6(s, 0, slash) {
            Some(w) => Some((true, words_to_octets(w), raw as u32)),
            None => None,
        }
    } else {
        let p = if has_prefix {
            raw + 96
        } else {
            128
        };
        if p > 128 {
            None
        } else {
            match parse_v4(s, 0, slash) {
                Some(o) => Some((false, o, p as u32)),
                None => None,
            }
        }
    }
}

/// `ip` is the address of family `v6` with octets `o`.
pub open spec fn ip_matches(ip: IpAddress, v6: bool, o: Seq<u8>) -> bool {
    match ip {
        IpAddress::V4(x) => !v6 && x@ == o,
        IpAddress::V6(x) => v6 && x@ == o,
    }
}

/// The key bytes of an address of family `v6` with octets `o`.
pub open spec fn key_bytes(v6: bool, o: Seq<u8>) -> Seq<u8> {
    if v6 {
        Seq::new(16, |i: int| swapped_byte(o, i))
    } else {
        Seq::new(12, |i: int| 0xFFu8) + o
    }
}

/// A queue handle from its major and minor numbers.
pub open spec fn handle_of(h: (u16, u16)) -> u32 {
    (h.0 * 65536 + h.1) as u32
}

/// The prefix length shown for a stored key: IPv4 keys come back to the
/// 0-32 range.
pub open spec fn display_prefix(k: IpHashKey) -> u32 {
    if is_mapped_v4(k.address@) {
        delta(k.prefixlen as u64, 96) as u32
    } else {
        k.prefixlen
    }
}

/// An entry as listed from its stored key and value.
pub open spec fn lists_as(m: IpMapping, k: IpHashKey, d: IpHashData) -> bool {
    &&& same_ip(m.ip_address, decoded_ip(k.address@))
    &&& m.prefix_length == display_prefix(k)
    &&& m.tc_handle == d.tc_handle
    &&& m.cpu == d.cpu
}

impl IpToMap {
    /// Parses an address or subnet text for the queue `tc_handle` on `cpu`.
    pub fn new(address: &str, tc_handle: (u16, u16), cpu: u32) -> (r: Result<IpToMap, ClassifierError>)
        ensures
            match r {
                Ok(m) => parse_entry(address.spec_bytes()) matches Some((v6, o, p)) && ip_matches(
                    m.subnet,
                    v6,
                    o,
                ) && m.prefix == p && m.tc_handle == tc_handle && m.cpu == cpu,
                Err(_) => parse_entry(address.spec_bytes()) is None,
            },
    {
        let s = address.as_bytes();
        let n = s.len();
        let slash = find_sep(s, 0, n, SLASH);
        let mut raw: u32 = 128;
        if slash < n {
            raw = match parse_dec(s, slash + 1, n, 128) {
                Some(v) => v,
                None => return Err(ClassifierError::Parse),
            };
        }
        let colon = find_sep(s, 0, slash, COLON);
        if colon < slash {
            match parse_ipv6(s, 0, slash) {
                Some(o) => Ok(IpToMap { subnet: IpAddress::V6(o), prefix: raw, tc_handle, cpu }),
                None => Err(ClassifierError::Parse),
            }
        } else {
            if slash < n && raw > 32 {
                return Err(ClassifierError::Parse);
            }
            let p = if slash < n {
                raw + 96
            } else {
                128
            };
            match parse_ipv4(s, 0, slash) {
                Some(o) => Ok(IpToMap { subnet: IpAddress::V4(o), prefix: p, tc_handle, cpu }),
                None => Err(ClassifierError::Parse),
            }
        }
    }

    /// The queue handle: major in the high 16 bits, minor in the low ones.
    pub fn handle(&self) -> (r: u32)
        ensures
            r == handle_of(self.tc_handle),
    {
        (self.tc_handle.0 as u32) * 65536 + self.tc_handle.1 as u32
    }

    /// The key under which the entry is stored.
    pub fn key(&self) -> (r: IpHashKey)
        ensures
            r.prefixlen == self.prefix,
            r.address@ == canonical_bytes(self.subnet),
    {
        IpHashKey { prefixlen: self.prefix, address: XdpIpAddress::from_ip(self.subnet).0 }
    }
}

proof fn lemma_key_bytes(ip: IpAddress, v6: bool, o: Seq<u8>)
    requires
        ip_matches(ip, v6, o),
    ensures
        canonical_bytes(ip) == key_bytes(v6, o),
{
}

/// The entry to insert into the classification table for an address or
/// subnet text, bound to `tc_handle` on `cpu`. The table itself refuses a
/// key that it already holds.
pub fn add_ip_to_tc(address: &str, tc_handle: (u16, u16), cpu: u32) -> (r: Result<
    (IpHashKey, IpHashData),
    ClassifierError,
>)
    ensures
        match r {
            Ok((k, d)) => parse_entry(address.spec_bytes()) matches Some((v6, o, p))
                && k.prefixlen == p && k.address@ == key_bytes(v6, o) && d.cpu == cpu
                && d.tc_handle == handle_of(tc_handle),
            Err(_) => parse_entry(address.spec_bytes()) is None,
        },
{
    let m = IpToMap::new(address, tc_handle, cpu)?;
    let k = m.key();
    proof {
        let (v6, o, p) = parse_entry(address.spec_bytes())->Some_0;
        lemma_key_bytes(m.subnet, v6, o);
    }
    Ok((k, IpHashData { cpu: m.cpu, tc_handle: m.handle() }))
}

/// The key to delete from the classification table for an address or
/// subnet text: the same key that inserting the same text makes. A subnet
/// entry is deleted by the same subnet text.
pub fn del_ip_from_tc(address: &str) -> (r: Result<IpHashKey, ClassifierError>)
    ensures
        match r {
            Ok(k) => parse_entry(address.spec_bytes()) matches Some((v6, o, p)) && k.prefixlen
                == p && k.address@ == key_bytes(v6, o),
            Err(_) => parse_entry(address.spec_bytes()) is None,
        },
{
    let m = IpToMap::new(address, (0, 0), 0)?;
    let k = m.key();
    proof {
        let (v6, o, p) = parse_entry(address.spec_bytes())->Some_0;
        lemma_key_bytes(m.subnet, v6, o);
    }
    Ok(k)
}

/// The listing of a snapshot of the classification table, in its order.
pub fn list_mapped_ips(raw: &Vec<(IpHashKey, IpHashData)>) -> (r: Vec<IpMapping>)
    ensures
        r@.len() == raw@.len(),
        forall|i: int| 0 <= i < raw@.len() ==> lists_as(#[trigger] r@[i], raw@[i].0, raw@[i].1),
{
    let mut r: Vec<IpMapping> = Vec::new();
    let mut i: usize = 0;
    while i < raw.len()
        invariant
            i <= raw@.len(),
            r@.len() == i,
            forall|j: int| 0 <= j < i ==> lists_as(#[trigger] r@[j], raw@[j].0, raw@[j].1),
        decreases raw@.len() - i,
    {
        let (k, d) = raw[i];
        let a = XdpIpAddress(k.address);
        let v4 = a.is_v4();
        let prefix = if v4 && k.prefixlen >= 96 {
            k.prefixlen - 96
        } else if v4 {
            0
        } else {
            k.prefixlen
        };
        r.push(IpMapping { ip_address: a.as_ip(), prefix_length: prefix, tc_handle: d.tc_handle, cpu: d.cpu });
        i = i + 1;
    }
    r
}

/// The major and minor numbers of a queue handle.
pub fn split_tc_handle(h: u32) -> (r: (u16, u16))
    ensures
        r.0 == h / 65536,
        r.1 == h % 65536,
{
    ((h / 65536) as u16, (h % 65536) as u16)
}

/// An IPv4 subnet of length `p` is stored at `p + 96` and listed as `p`; an
/// IPv4 host is stored at 128 and listed as 32.
pub proof fn lemma_v4_prefix_round_trip(o: Seq<u8>, a: [u8; 16], p: u32)
    requires
        o.len() == 4,
        a@ == key_bytes(false, o),
        p <= 32,
    ensures
        display_prefix((IpHashKey { prefixlen: (p + 96) as u32, address: a })) == p,
        display_prefix((IpHashKey { prefixlen: 128, address: a })) == 32,
{
    assert forall|i: int| 0 <= i < 12 implies a@[i] == 0xFFu8 by {
        assert(key_bytes(false, o)[i] == 0xFFu8);
    }
}

/// An event in clearing the classification table.
#[derive(Clone, Copy, Debug)]
pub enum ClearEvent {
    Start,
    NextKey(Option<IpHashKey>),
    Deleted(bool),
}

/// What to do next in clearing the classification table.
#[derive(Clone, Copy, Debug)]
pub enum ClearAction {
    AskFirstKey,
    Delete(IpHashKey),
    Finished,
    Failed,
}

/// One step of clearing the classification table. Each round asks the table
/// for its first key afresh and deletes that key, so that no list of keys is
/// kept across deletions; the table is clear when it has no first key.
pub fn clear_ips_from_tc(event: ClearEvent) -> (r: ClearAction)
    ensures
        match event {
            ClearEvent::Start => r is AskFirstKey,
            ClearEvent::NextKey(Some(k)) => r == ClearAction::Delete(k),
            ClearEvent::NextKey(None) => r is Finished,
            ClearEvent::Deleted(true) => r is AskFirstKey,
            ClearEvent::Deleted(false) => r is Failed,
        },
{
    match event {
        ClearEvent::Start => ClearAction::AskFirstKey,
        ClearEvent::NextKey(Some(k)) => ClearAction::Delete(k),
        ClearEvent::NextKey(None) => ClearAction::Finished,
        ClearEvent::Deleted(true) => ClearAction::AskFirstKey,
        ClearEvent::Deleted(false) => ClearAction::Failed,
    }
}

} // verus!
