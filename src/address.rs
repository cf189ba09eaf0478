use vstd::prelude::*;

verus! {

/// An IP endpoint as user space sees it. IPv6 octets are in network order,
/// the order in which the address is written.
#[derive(Clone, Copy, Debug, PartialEq, Eq)]
pub enum IpAddress {
    V4([u8; 4]),
    V6([u8; 16]),
}

/// The 16-byte key layout that the kernel tables use for an address.
#[derive(Clone, Copy, Debug, PartialEq, Eq)]
pub struct XdpIpAddress(pub [u8; 16]);

/// Byte `i` of the kernel layout of the native IPv6 octets `o`: each 16-bit
/// word has its two bytes swapped.
pub open spec fn swapped_byte(o: Seq<u8>, i: int) -> u8 {
    if i % 2 == 0 {
        o[i + 1]
    } else {
        o[i - 1]
    }
}

/// The 16 key bytes of an address.
pub open spec fn canonical_bytes(ip: IpAddress) -> Seq<u8> {
    match ip {
        IpAddress::V4(o) => Seq::new(12, |i: int| 0xFFu8) + o@,
        IpAddress::V6(o) => Seq::new(16, |i: int| swapped_byte(o@, i)),
    }
}

/// The first twelve key bytes are all 0xFF: the key holds an IPv4 address.
pub open spec fn is_mapped_v4(b: Seq<u8>) -> bool {
    forall|i: int| 0 <= i < 12 ==> b[i] == 0xFFu8
}

/// Equality of two addresses, read through their octets.
pub open spec fn same_ip(a: IpAddress, b: IpAddress) -> bool {
    match (a, b) {
        (IpAddress::V4(x), IpAddress::V4(y)) => x@ == y@,
        (IpAddress::V6(x), IpAddress::V6(y)) => x@ == y@,
        _ => false,
    }
}

/// The address a key decodes to.
pub open spec fn decoded_ip(b: Seq<u8>) -> IpAddress {
    if is_mapped_v4(b) {
        IpAddress::V4([b[12], b[13], b[14], b[15]])
    } else {
        IpAddress::V6(
            [
                b[1],
                b[0],
                b[3],
                b[2],
                b[5],
                b[4],
                b[7],
                b[6],
                b[9],
                b[8],
                b[11],
                b[10],
                b[13],
                b[12],
                b[15],
                b[14],
            ],
        )
    }
}

/// An IPv6 address whose kernel layout starts with twelve 0xFF bytes cannot
/// be told apart from an IPv4 address once encoded.
pub open spec fn encodes_unambiguously(ip: IpAddress) -> bool {
    match ip {
        IpAddress::V4(_) => true,
        IpAddress::V6(o) => !is_mapped_v4(canonical_bytes(ip)),
    }
}

impl XdpIpAddress {
    /// The all-0xFF key, which stands for "no key".
    pub fn sentinel() -> (r: XdpIpAddress)
        ensures
            forall|i: int| 0 <= i < 16 ==> r.0@[i] == 0xFFu8,
    {
        XdpIpAddress([0xFFu8; 16])
    }

    /// Encodes an address in the kernel's key layout.
    pub fn from_ip(ip: IpAddress) -> (r: XdpIpAddress)
        ensures
            r.0@ == canonical_bytes(ip),
    {
        match ip {
            IpAddress::V4(o) => {
                let r = XdpIpAddress(
                    [
                        0xFF,
                        0xFF,
                        0xFF,
                        0xFF,
                        0xFF,
                        0xFF,
                        0xFF,
                        0xFF,
                        0xFF,
                        0xFF,
                        0xFF,
                        0xFF,
                        o[0],
                        o[1],
                        o[2],
                        o[3],
                    ],
                );
                assert(r.0@ =~= canonical_bytes(ip));
                r
            },
            IpAddress::V6(o) => {
                let r = XdpIpAddress(
                    [
                        o[1],
                        o[0],
                        o[3],
                        o[2],
                        o[5],
                        o[4],
                        o[7],
                        o[6],
                        o[9],
                        o[8],
                        o[11],
                        o[10],
                        o[13],
                        o[12],
                        o[15],
                        o[14],
                    ],
                );
                assert(r.0@ =~= canonical_bytes(ip));
                r
            },
        }
    }

    /// True when the key holds an IPv4 address.
    pub fn is_v4(&self) -> (r: bool)
        ensures
            r == is_mapped_v4(self.0@),
    {
        let mut i: usize = 0;
        while i < 12
            invariant
                i <= 12,
                forall|j: int| 0 <= j < i ==> self.0@[j] == 0xFFu8,
            decreases 12 - i,
        {
            if self.0[i] != 0xFF {
                return false;
            }
            i = i + 1;
        }
        true
    }

    /// Decodes a key into the address it holds.
    pub fn as_ip(&self) -> (r: IpAddress)
        ensures
            same_ip(r, decoded_ip(self.0@)),
            (r is V4) == is_mapped_v4(self.0@),
    {
        let b = &self.0;
        if self.is_v4() {
            IpAddress::V4([b[12], b[13], b[14], b[15]])
        } else {
            IpAddress::V6(
                [
                    b[1],
                    b[0],
                    b[3],
                    b[2],
                    b[5],
                    b[4],
                    b[7],
                    b[6],
                    b[9],
                    b[8],
                    b[11],
                    b[10],
                    b[13],
                    b[12],
                    b[15],
                    b[14],
                ],
            )
        }
    }

    /// Byte-wise equality of two keys.
    pub fn same_key(&self, other: &XdpIpAddress) -> (r: bool)
        ensures
            r == (self.0@ == other.0@),
    {
        let mut i: usize = 0;
        while i < 16
            invariant
                i <= 16,
                forall|j: int| 0 <= j < i ==> self.0@[j] == other.0@[j],
            decreases 16 - i,
        {
            if self.0[i] != other.0[i] {
                return false;
            }
            i = i + 1;
        }
        assert(self.0@ =~= other.0@);
        true
    }
}

/// Decoding the encoding of an address gives the address back, for every
/// IPv4 address and every IPv6 address whose encoding is not read as IPv4.
pub proof fn lemma_round_trip(ip: IpAddress)
    requires
        encodes_unambiguously(ip),
    ensures
        same_ip(decoded_ip(canonical_bytes(ip)), ip),
{
    let b = canonical_bytes(ip);
    match ip {
        IpAddress::V4(o) => {
            assert(is_mapped_v4(b));
            if let IpAddress::V4(d) = decoded_ip(b) {
                assert(d@ =~= o@);
            }
        },
        IpAddress::V6(o) => {
            if let IpAddress::V6(d) = decoded_ip(b) {
                assert(d@ =~= o@);
            }
        },
    }
}

/// Whatever way a key was built, twelve leading 0xFF bytes decode to IPv4.
pub proof fn lemma_mapped_decodes_to_v4(b: Seq<u8>)
    requires
        b.len() == 16,
        is_mapped_v4(b),
    ensures
        decoded_ip(b) is V4,
{
}

} // verus!
