//! Protocol-level value types: MAC and IPv4 addresses, the three header
//! records of the illustrative Ethernet/IPv4/UDP stack, and routing entries.
//!
//! Multi-byte header fields are kept in network order exactly as they sit in
//! a frame; `swap16` moves a 16-bit value between host and network order.

use vstd::prelude::*;
use vstd::string::StringSliceAdditionalSpecFns;

verus! {

/// Exchanges the two bytes of a 16-bit value, converting between host order
/// and the network order stored in header fields.
pub open spec fn spec_swap16(x: u16) -> u16 {
    (((x as int) % 256) * 256 + (x as int) / 256) as u16
}

/// Swapping twice restores the original value.
pub proof fn lemma_swap16_involutive(x: u16)
    ensures
        spec_swap16(spec_swap16(x)) == x,
{
}

pub fn swap16(x: u16) -> (r: u16)
    ensures
        r == spec_swap16(x),
{
    (x % 256) * 256 + x / 256
}

/// A six-byte Ethernet hardware address.
#[derive(Clone, Copy, Debug)]
pub struct MacAddr {
    raw: [u8; 6],
}

impl MacAddr {
    /// The bytes of the address, as a sequence.
    pub closed spec fn spec_bytes(&self) -> Seq<u8> {
        self.raw@
    }

    /// The all-zero address.
    pub fn new() -> (r: Self)
        ensures
            r.spec_bytes() == seq![0u8, 0u8, 0u8, 0u8, 0u8, 0u8],
    {
        let r = MacAddr { raw: [0u8; 6] };
        proof {
            assert(r.raw@ =~= seq![0u8, 0u8, 0u8, 0u8, 0u8, 0u8]);
        }
        r
    }

    /// The all-zero address, used where no address has been learned yet.
    pub fn invalid() -> (r: Self)
        ensures
            r.spec_bytes() == seq![0u8, 0u8, 0u8, 0u8, 0u8, 0u8],
    {
        Self::new()
    }

    pub fn from_bytes(bytes: [u8; 6]) -> (r: Self)
        ensures
            r.spec_bytes() == bytes@,
    {
        MacAddr { raw: bytes }
    }

    pub fn as_bytes(&self) -> (r: [u8; 6])
        ensures
            r@ == self.spec_bytes(),
    {
        self.raw
    }
}

/// An IPv4 address held as its four dotted-quad octets.
#[derive(Clone, Copy, Debug)]
pub struct Ipv4Addr {
    octets: [u8; 4],
}

/// The 32-bit value whose little-endian bytes are the given octets: the form
/// an address takes when its network-order bytes are loaded as a host `u32`.
pub open spec fn spec_u32_from_octets_le(o: Seq<u8>) -> u32
    recommends
        o.len() == 4,
{
    (o[0] as int + o[1] as int * 0x100 + o[2] as int * 0x10000 + o[3] as int * 0x1000000) as u32
}

/// The 32-bit value of the octets read as a big-endian (network order) number.
pub open spec fn spec_u32_from_octets_be(o: Seq<u8>) -> u32
    recommends
        o.len() == 4,
{
    (o[3] as int + o[2] as int * 0x100 + o[1] as int * 0x10000 + o[0] as int * 0x1000000) as u32
}

impl Ipv4Addr {
    pub closed spec fn spec_octets(&self) -> Seq<u8> {
        self.octets@
    }

    pub fn new(octets: [u8; 4]) -> (r: Self)
        ensures
            r.spec_octets() == octets@,
    {
        Ipv4Addr { octets }
    }

    /// Rebuilds an address from the `u32` form returned by [`Self::to_u32_be`].
    pub fn from_be(x: u32) -> (r: Self)
        ensures
            r.spec_octets().len() == 4,
            spec_u32_from_octets_le(r.spec_octets()) == x,
    {
        let b0 = (x % 256) as u8;
        let b1 = ((x / 256) % 256) as u8;
        let b2 = ((x / 65536) % 256) as u8;
        let b3 = (x / 16777216) as u8;
        let r = Ipv4Addr { octets: [b0, b1, b2, b3] };
        proof {
            assert(spec_u32_from_octets_le(r.octets@) == x) by (nonlinear_arith)
                requires
                    r.octets@[0] == x % 256,
                    r.octets@[1] == (x / 256) % 256,
                    r.octets@[2] == (x / 65536) % 256,
                    r.octets@[3] == x / 16777216,
            ;
        }
        r
    }

    pub fn octets(&self) -> (r: [u8; 4])
        ensures
            r@ == self.spec_octets(),
    {
        self.octets
    }

    /// The address as a big-endian number, e.g. `192.168.0.1` gives
    /// `0xC0A80001`.
    pub fn to_u32_le(&self) -> (r: u32)
        ensures
            r == spec_u32_from_octets_be(self.spec_octets()),
    {
        self.octets[3] as u32 + self.octets[2] as u32 * 0x100 + self.octets[1] as u32 * 0x10000
            + self.octets[0] as u32 * 0x1000000
    }

    /// The address as a `u32` in the machine representation of its
    /// network-order bytes, the form header fields and routes store.
    pub fn to_u32_be(&self) -> (r: u32)
        ensures
            r == spec_u32_from_octets_le(self.spec_octets()),
    {
        self.octets[0] as u32 + self.octets[1] as u32 * 0x100 + self.octets[2] as u32 * 0x10000
            + self.octets[3] as u32 * 0x1000000
    }

    /// The address as a big-endian number; alias of [`Self::to_u32_le`].
    pub fn to_bits(&self) -> (r: u32)
        ensures
            r == spec_u32_from_octets_be(self.spec_octets()),
    {
        self.to_u32_le()
    }
}

/// Why a textual IPv4 address failed to parse.
#[derive(Clone, Copy, Debug, PartialEq, Eq, Structural)]
pub enum ParseIpv4Error {
    InvalidAddress,
}

/// The EtherType values the stack understands.
#[derive(Clone, Copy, Debug, PartialEq, Eq, Structural)]
pub enum EtherType {
    Ipv4,
    Arp,
    Ipv6,
}

impl EtherType {
    /// The two bytes of this EtherType in network order.
    pub open spec fn spec_wire_bytes(self) -> (u8, u8) {
        match self {
            EtherType::Ipv4 => (0x08u8, 0x00u8),
            EtherType::Arp => (0x08u8, 0x06u8),
            EtherType::Ipv6 => (0x86u8, 0xDDu8),
        }
    }

    pub fn wire_bytes(self) -> (r: (u8, u8))
        ensures
            r == self.spec_wire_bytes(),
    {
        match self {
            EtherType::Ipv4 => (0x08u8, 0x00u8),
            EtherType::Arp => (0x08u8, 0x06u8),
            EtherType::Ipv6 => (0x86u8, 0xDDu8),
        }
    }

    /// The EtherType named by two network-order bytes, if it is a known one.
    pub open spec fn spec_from_wire_bytes(hi: u8, lo: u8) -> Option<EtherType> {
        if hi == 0x08u8 && lo == 0x00u8 {
            Some(EtherType::Ipv4)
        } else if hi == 0x08u8 && lo == 0x06u8 {
            Some(EtherType::Arp)
        } else if hi == 0x86u8 && lo == 0xDDu8 {
            Some(EtherType::Ipv6)
        } else {
            None
        }
    }

    pub fn from_wire_bytes(hi: u8, lo: u8) -> (r: Option<EtherType>)
        ensures
            r == EtherType::spec_from_wire_bytes(hi, lo),
    {
        if hi == 0x08u8 && lo == 0x00u8 {
            Some(EtherType::Ipv4)
        } else if hi == 0x08u8 && lo == 0x06u8 {
            Some(EtherType::Arp)
        } else if hi == 0x86u8 && lo == 0xDDu8 {
            Some(EtherType::Ipv6)
        } else {
            None
        }
    }
}

/// Wire bytes round-trip: decoding what an EtherType encodes gives it back.
pub proof fn lemma_ether_type_round_trip(t: EtherType)
    ensures
        EtherType::spec_from_wire_bytes(t.spec_wire_bytes().0, t.spec_wire_bytes().1) == Some(t),
{
}

/// The IP protocol numbers the stack understands.
#[derive(Clone, Copy, Debug, PartialEq, Eq, Structural)]
pub enum Ipv4ProtoType {
    TCP,
    UDP,
}

impl Ipv4ProtoType {
    /// The protocol number carried in an IPv4 header.
    pub open spec fn spec_code(self) -> u8 {
        match self {
            Ipv4ProtoType::TCP => 0x06u8,
            Ipv4ProtoType::UDP => 0x11u8,
        }
    }

    pub fn code(self) -> (r: u8)
        ensures
            r == self.spec_code(),
    {
        match self {
            Ipv4ProtoType::TCP => 0x06u8,
            Ipv4ProtoType::UDP => 0x11u8,
        }
    }

    pub open spec fn spec_from_code(c: u8) -> Option<Ipv4ProtoType> {
        if c == 0x06u8 {
            Some(Ipv4ProtoType::TCP)
        } else if c == 0x11u8 {
            Some(Ipv4ProtoType::UDP)
        } else {
            None
        }
    }

    pub fn from_code(c: u8) -> (r: Option<Ipv4ProtoType>)
        ensures
            r == Ipv4ProtoType::spec_from_code(c),
    {
        if c == 0x06u8 {
            Some(Ipv4ProtoType::TCP)
        } else if c == 0x11u8 {
            Some(Ipv4ProtoType::UDP)
        } else {
            None
        }
    }
}

/// An Ethernet header: destination, source, EtherType.
#[derive(Clone, Copy, Debug)]
pub struct EthHeader {
    pub dst: MacAddr,
    pub src: MacAddr,
    pub ether_ty: EtherType,
}

/// An IPv4 header. The 16- and 32-bit fields hold network-order values
/// exactly as they sit in the frame; `len` converts the total length to
/// host order.
#[derive(Clone, Copy, Debug)]
pub struct Ipv4Header {
    pub version_ihl: u8,
    pub tos: u8,
    pub tot_len: u16,
    pub id: u16,
    pub frag_off: u16,
    pub ttl: u8,
    pub protocol: Ipv4ProtoType,
    pub cksum: u16,
    pub src: u32,
    pub dst: u32,
}

impl Ipv4Header {
    /// The packed version/IHL byte: version in the high nibble, header
    /// length in 32-bit words in the low nibble.
    pub open spec fn spec_version_ihl(&self) -> u8 {
        self.version_ihl
    }

    pub open spec fn spec_version(&self) -> u8 {
        self.spec_version_ihl() / 16
    }

    pub open spec fn spec_ihl(&self) -> u8 {
        (self.spec_version_ihl() % 16) as u8
    }

    /// A zeroed header carrying the given protocol.
    pub fn zeroed(protocol: Ipv4ProtoType) -> (r: Self)
        ensures
            r.spec_version_ihl() == 0,
            r.tos == 0 && r.tot_len == 0 && r.id == 0 && r.frag_off == 0,
            r.ttl == 0 && r.cksum == 0 && r.src == 0 && r.dst == 0,
            r.protocol == protocol,
    {
        Ipv4Header {
            version_ihl: 0,
            tos: 0,
            tot_len: 0,
            id: 0,
            frag_off: 0,
            ttl: 0,
            protocol,
            cksum: 0,
            src: 0,
            dst: 0,
        }
    }

    pub fn version(&self) -> (r: u8)
        ensures
            r == self.spec_version(),
    {
        let b = self.version_ihl;
        proof {
            assert((b & 0xf0) >> 4 == b / 16) by (bit_vector);
        }
        (b & 0xf0) >> 4
    }

    pub fn ihl(&self) -> (r: u8)
        ensures
            r == self.spec_ihl(),
    {
        let b = self.version_ihl;
        proof {
            assert(b & 0xf == b % 16) by (bit_vector);
        }
        b & 0xf
    }

    /// The total length of the IPv4 packet in host order.
    pub fn len(&self) -> (r: u16)
        ensures
            r == spec_swap16(self.tot_len),
    {
        swap16(self.tot_len)
    }

    /// Stores the version in the high nibble, keeping the IHL nibble.
    pub fn set_version(&mut self, version: u8)
        requires
            version <= 0xf,
        ensures
            final(self).spec_version() == version,
            final(self).spec_ihl() == old(self).spec_ihl(),
            final(self).tos == old(self).tos && final(self).tot_len == old(self).tot_len,
            final(self).id == old(self).id && final(self).frag_off == old(self).frag_off,
            final(self).ttl == old(self).ttl && final(self).protocol == old(self).protocol,
            final(self).cksum == old(self).cksum && final(self).src == old(self).src,
            final(self).dst == old(self).dst,
    {
        self.version_ihl = (self.version_ihl & 0xf) | (version << 4);
        proof {
            let b = self.version_ihl;
            let o = old(self).version_ihl;
            assert(b / 16 == version && b % 16 == o % 16) by (bit_vector)
                requires
                    b == (o & 0xf) | (version << 4),
                    version <= 0xf,
            ;
        }
    }

    /// Stores the header length (in words) in the low nibble, keeping the
    /// version nibble.
    pub fn set_ihl(&mut self, ihl: u8)
        requires
            ihl <= 0xf,
        ensures
            final(self).spec_ihl() == ihl,
            final(self).spec_version() == old(self).spec_version(),
            final(self).tos == old(self).tos && final(self).tot_len == old(self).tot_len,
            final(self).id == old(self).id && final(self).frag_off == old(self).frag_off,
            final(self).ttl == old(self).ttl && final(self).protocol == old(self).protocol,
            final(self).cksum == old(self).cksum && final(self).src == old(self).src,
            final(self).dst == old(self).dst,
    {
        self.version_ihl = (self.version_ihl & 0xf0) | ihl;
        proof {
            let b = self.version_ihl;
            let o = old(self).version_ihl;
            assert(b % 16 == ihl && b / 16 == o / 16) by (bit_vector)
                requires
                    b == (o & 0xf0) | ihl,
                    ihl <= 0xf,
            ;
        }
    }
}

/// A UDP header; all fields in network order.
#[derive(Clone, Copy, Debug)]
pub struct UdpHeader {
    pub src: u16,
    pub dst: u16,
    pub len: u16,
    pub chksum: u16,
}

/// One routing entry: traffic whose destination shares the first `cidr` bits
/// with `ip` leaves through NIC `nic`. Addresses are held in the `u32` form
/// of their network-order bytes, so the mask covers the low-order bits.
#[derive(Clone, Copy, Debug)]
pub struct Route {
    pub ip: u32,
    pub cidr_mask: u32,
    pub nic: u16,
    pub cidr: u8,
}

/// The mask selecting the bits a route of the given prefix length compares.
pub open spec fn spec_cidr_mask(cidr: u8) -> u32
    recommends
        cidr <= 32,
{
    ((1u64 << cidr) - 1) as u32
}

impl Route {
    /// A route is well formed when its mask matches its prefix length.
    pub open spec fn wf(&self) -> bool {
        self.cidr <= 32 && self.cidr_mask == spec_cidr_mask(self.cidr)
    }

    /// Whether `ip` (in network-order `u32` form) falls under this route.
    pub open spec fn spec_matches(&self, ip: u32) -> bool {
        (self.ip ^ ip) & self.cidr_mask == 0
    }

    pub fn new(ip: Ipv4Addr, cidr: u8, nic: u16) -> (r: Route)
        requires
            cidr <= 32,
        ensures
            r.wf(),
            r.ip == spec_u32_from_octets_le(ip.spec_octets()),
            r.cidr == cidr,
            r.nic == nic,
    {
        proof {
            assert(1u64 << cidr >= 1 && 1u64 << cidr <= 0x1_0000_0000u64) by (bit_vector)
                requires
                    cidr <= 32,
            ;
        }
        let mask64: u64 = (1u64 << cidr) - 1;
        let mask: u32 = mask64 as u32;
        Route { ip: ip.to_u32_be(), cidr_mask: mask, cidr, nic }
    }

    /// Tests `ip` against this route's prefix.
    pub fn matches(&self, ip: u32) -> (r: bool)
        ensures
            r == self.spec_matches(ip),
    {
        ((self.ip ^ ip) & self.cidr_mask) == 0
    }
}

/// Picks the route for `dst` by longest prefix: the result is the first
/// index whose route matches with the greatest `cidr`; `None` exactly when
/// no route matches.
pub fn select_route(routes: &Vec<Route>, dst: u32) -> (r: Option<usize>)
    ensures
        match r {
            Some(i) => {
                &&& 0 <= i < routes@.len()
                &&& routes@[i as int].spec_matches(dst)
                &&& forall|j: int|
                    0 <= j < routes@.len() && routes@[j].spec_matches(dst) ==> routes@[j].cidr <= routes@[i as int].cidr
                &&& forall|j: int|
                    0 <= j < i && routes@[j].spec_matches(dst) ==> routes@[j].cidr < routes@[i as int].cidr
            },
            None => forall|j: int| 0 <= j < routes@.len() ==> !routes@[j].spec_matches(dst),
        },
{
    let mut best: Option<usize> = None;
    let mut idx: usize = 0;
    while idx < routes.len()
        invariant
            0 <= idx <= routes@.len(),
            match best {
                Some(i) => {
                    &&& 0 <= i < idx
                    &&& routes@[i as int].spec_matches(dst)
                    &&& forall|j: int|
                        0 <= j < idx && routes@[j].spec_matches(dst) ==> routes@[j].cidr
                            <= routes@[i as int].cidr
                    &&& forall|j: int|
                        0 <= j < i && routes@[j].spec_matches(dst) ==> routes@[j].cidr < routes@[i as int].cidr
                },
                None => forall|j: int| 0 <= j < idx ==> !routes@[j].spec_matches(dst),
            },
        decreases routes@.len() - idx,
    {
        if routes[idx].matches(dst) {
            let better = match best {
                Some(i) => routes[idx].cidr > routes[i].cidr,
                None => true,
            };
            if better {
                best = Some(idx);
            }
        }
        idx = idx + 1;
    }
    best
}

/// One step of the dotted-quad parser on byte `c`: the state carries the
/// octets completed so far, the value of the field being read, and how many
/// digits it has; `None` means the text was rejected.
pub open spec fn spec_ipv4_step(st: Option<(Seq<u8>, int, int)>, c: u8) -> Option<
    (Seq<u8>, int, int),
> {
    match st {
        None => None,
        Some((octets, field, digits)) => {
            if c == 46 {
                // a dot ends the current octet field
                if digits == 0 || octets.len() >= 3 {
                    None
                } else {
                    Some((octets.push(field as u8), 0, 0))
                }
            } else if 48 <= c <= 57 {
                if digits >= 3 || field * 10 + (c - 48) > 255 {
                    None
                } else {
                    Some((octets, field * 10 + (c - 48), digits + 1))
                }
            } else {
                None
            }
        },
    }
}

/// The parser state after reading the first `n` bytes of `s`.
pub open spec fn spec_ipv4_run(s: Seq<u8>, n: int) -> Option<(Seq<u8>, int, int)>
    decreases n,
{
    if n <= 0 {
        Some((Seq::empty(), 0, 0))
    } else {
        spec_ipv4_step(spec_ipv4_run(s, n - 1), s[n - 1])
    }
}

/// Once the parser has rejected a prefix, every longer prefix is rejected.
pub proof fn lemma_ipv4_run_none_persists(s: Seq<u8>, n: int, m: int)
    requires
        0 <= n <= m,
        spec_ipv4_run(s, n) is None,
    ensures
        spec_ipv4_run(s, m) is None,
    decreases m - n,
{
    if m > n {
        lemma_ipv4_run_none_persists(s, n, m - 1);
    }
}

/// The four octets denoted by a dotted-quad text, or `None` when it is not
/// one: four decimal fields of one to three digits, each at most 255,
/// separated by single dots.
pub open spec fn spec_parse_ipv4(s: Seq<u8>) -> Option<Seq<u8>> {
    match spec_ipv4_run(s, s.len() as int) {
        Some((octets, field, digits)) => if octets.len() == 3 && digits >= 1 {
            Some(octets.push(field as u8))
        } else {
            None
        },
        None => None,
    }
}

/// Parses a dotted-quad IPv4 address such as `"192.168.10.1"`, accepting
/// exactly the texts [`spec_parse_ipv4`] accepts.
pub fn parse_ipv4(s: &str) -> (r: Result<Ipv4Addr, ParseIpv4Error>)
    ensures
        match r {
            Ok(a) => spec_parse_ipv4(s.spec_bytes()) == Some(a.spec_octets()),
            Err(e) => spec_parse_ipv4(s.spec_bytes()) is None && e
                == ParseIpv4Error::InvalidAddress,
        },
{
    let bytes: &[u8] = s.as_bytes();
    let ghost bs = s.spec_bytes();
    let mut octets: [u8; 4] = [0u8; 4];
    let mut field: u32 = 0;
    let mut digits: u32 = 0;
    let mut slot: usize = 0;
    let mut i: usize = 0;
    let n = bytes.len();
    proof {
        assert(octets@.take(0) =~= Seq::<u8>::empty());
    }
    while i < n
        invariant
            0 <= i <= n,
            n == bs.len(),
            bs == bytes@,
            bs == s.spec_bytes(),
            slot <= 3,
            field <= 255,
            digits <= 3,
            spec_ipv4_run(bs, i as int) == Some(
                (octets@.take(slot as int), field as int, digits as int),
            ),
        decreases n - i,
    {
        let c = *vstd::slice::slice_index_get(bytes, i);
        let ghost pre_octets = octets@;
        proof {
            assert(c == bs[i as int]);
            assert(spec_ipv4_run(bs, i + 1) == spec_ipv4_step(
                spec_ipv4_run(bs, i as int),
                bs[i as int],
            ));
        }
        if c == 46u8 {
            // a dot ends the current octet field
            if digits == 0 || slot >= 3 {
                proof {
                    assert(spec_ipv4_run(bs, i + 1) is None);
                    lemma_ipv4_run_none_persists(bs, i + 1, bs.len() as int);
                }
                return Err(ParseIpv4Error::InvalidAddress);
            }
            octets[slot] = field as u8;
            slot = slot + 1;
            field = 0;
            digits = 0;
            proof {
                assert(octets@.take(slot as int) =~= pre_octets.take(slot - 1).push(
                    octets@[slot - 1],
                ));
            }
        } else if 48u8 <= c && c <= 57u8 {
            let d = (c - 48u8) as u32;
            let next = field * 10 + d;
            if digits >= 3 || next > 255 {
                proof {
                    assert(spec_ipv4_run(bs, i + 1) is None);
                    lemma_ipv4_run_none_persists(bs, i + 1, bs.len() as int);
                }
                return Err(ParseIpv4Error::InvalidAddress);
            }
            field = next;
            digits = digits + 1;
        } else {
            proof {
                assert(spec_ipv4_run(bs, i + 1) is None);
                lemma_ipv4_run_none_persists(bs, i + 1, bs.len() as int);
            }
            return Err(ParseIpv4Error::InvalidAddress);
        }
        i = i + 1;
    }
    if slot != 3 || digits == 0 {
        return Err(ParseIpv4Error::InvalidAddress);
    }
    octets[3] = field as u8;
    let r = Ipv4Addr::new(octets);
    proof {
        assert(octets@ =~= pre_take_full(octets@));
    }
    Ok(r)
}

/// The whole array seen as its first three octets plus the last.
pub open spec fn pre_take_full(o: Seq<u8>) -> Seq<u8>
    recommends
        o.len() == 4,
{
    o.take(3).push(o[3])
}

} // verus!
