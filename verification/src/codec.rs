//! Byte-level encoding and decoding of the Ethernet, IPv4 and UDP headers,
//! and the IPv4 pseudo-header checksum used for transmit offload.
//!
//! Each header has a spec-level byte image (`spec_*_bytes`), a spec-level
//! parser (`spec_parse_*`), executable writers and readers proved against
//! them, and a round-trip lemma: parsing the image of a header yields the
//! header back.

use vstd::prelude::*;

use crate::protocol::{EthHeader, EtherType, Ipv4Header, Ipv4ProtoType, MacAddr, UdpHeader};

verus! {

/// Bytes an Ethernet header occupies.
pub const ETH_HEADER_LEN: usize = 14;

/// Bytes an IPv4 header without options occupies.
pub const IPV4_HEADER_LEN: usize = 20;

/// Bytes a UDP header occupies.
pub const UDP_HEADER_LEN: usize = 8;

/// The two memory bytes of a 16-bit header field (fields hold network-order
/// values, so these are the wire bytes in order).
pub open spec fn spec_le2(x: u16) -> Seq<u8> {
    seq![(x as int % 256) as u8, (x as int / 256) as u8]
}

/// The four memory bytes of a 32-bit header field.
pub open spec fn spec_le4(x: u32) -> Seq<u8> {
    seq![
        (x as int % 256) as u8,
        (x as int / 256 % 256) as u8,
        (x as int / 65536 % 256) as u8,
        (x as int / 16777216) as u8,
    ]
}

/// The 16-bit value stored as the two bytes `b0`, `b1`.
pub open spec fn spec_u16_of(b0: u8, b1: u8) -> u16 {
    (b0 as int + b1 as int * 256) as u16
}

/// The 32-bit value stored as four bytes.
pub open spec fn spec_u32_of(b0: u8, b1: u8, b2: u8, b3: u8) -> u32 {
    (b0 as int + b1 as int * 256 + b2 as int * 65536 + b3 as int * 16777216) as u32
}

/// Storing a 16-bit field and reading it back is the identity.
pub proof fn lemma_le2_round_trip(x: u16)
    ensures
        spec_u16_of(spec_le2(x)[0], spec_le2(x)[1]) == x,
{
}

/// Storing a 32-bit field and reading it back is the identity.
pub proof fn lemma_le4_round_trip(x: u32)
    ensures
        spec_u32_of(spec_le4(x)[0], spec_le4(x)[1], spec_le4(x)[2], spec_le4(x)[3]) == x,
{
    let b = spec_le4(x);
    assert(b[0] as int + b[1] as int * 256 + b[2] as int * 65536 + b[3] as int * 16777216
        == x as int) by (nonlinear_arith)
        requires
            b[0] == (x as int % 256) as u8,
            b[1] == (x as int / 256 % 256) as u8,
            b[2] == (x as int / 65536 % 256) as u8,
            b[3] == (x as int / 16777216) as u8,
    ;
}

fn put2(buf: &mut Vec<u8>, pos: usize, x: u16)
    requires
        pos + 2 <= old(buf).len(),
    ensures
        final(buf)@.len() == old(buf)@.len(),
        final(buf)@.subrange(pos as int, pos + 2) == spec_le2(x),
        forall|i: int|
            0 <= i < old(buf)@.len() && !(pos <= i < pos + 2) ==> final(buf)@[i] == old(buf)@[i],
{
    let b0 = (x % 256) as u8;
    let b1 = (x / 256) as u8;
    buf.set(pos, b0);
    buf.set(pos + 1, b1);
    proof {
        assert(buf@.subrange(pos as int, pos + 2) =~= spec_le2(x));
    }
}

fn put4(buf: &mut Vec<u8>, pos: usize, x: u32)
    requires
        pos + 4 <= old(buf).len(),
    ensures
        final(buf)@.len() == old(buf)@.len(),
        final(buf)@.subrange(pos as int, pos + 4) == spec_le4(x),
        forall|i: int|
            0 <= i < old(buf)@.len() && !(pos <= i < pos + 4) ==> final(buf)@[i] == old(buf)@[i],
{
    let b0 = (x % 256) as u8;
    let b1 = ((x / 256) % 256) as u8;
    let b2 = ((x / 65536) % 256) as u8;
    let b3 = (x / 16777216) as u8;
    buf.set(pos, b0);
    buf.set(pos + 1, b1);
    buf.set(pos + 2, b2);
    buf.set(pos + 3, b3);
    proof {
        assert(buf@.subrange(pos as int, pos + 4) =~= spec_le4(x));
    }
}

fn get2(buf: &Vec<u8>, pos: usize) -> (r: u16)
    requires
        pos + 2 <= buf.len(),
    ensures
        r == spec_u16_of(buf@[pos as int], buf@[pos + 1]),
{
    buf[pos] as u16 + buf[pos + 1] as u16 * 256
}

fn get4(buf: &Vec<u8>, pos: usize) -> (r: u32)
    requires
        pos + 4 <= buf.len(),
    ensures
        r == spec_u32_of(buf@[pos as int], buf@[pos + 1], buf@[pos + 2], buf@[pos + 3]),
{
    buf[pos] as u32 + buf[pos + 1] as u32 * 256 + buf[pos + 2] as u32 * 65536 + buf[pos
        + 3] as u32 * 16777216
}

/// The 14-byte image of an Ethernet header.
pub open spec fn spec_eth_bytes(h: EthHeader) -> Seq<u8> {
    h.dst.spec_bytes() + h.src.spec_bytes() + seq![
        h.ether_ty.spec_wire_bytes().0,
        h.ether_ty.spec_wire_bytes().1,
    ]
}

/// Whether 14 bytes decode to the Ethernet header `h`.
pub open spec fn spec_eth_parses_to(b: Seq<u8>, h: EthHeader) -> bool
    recommends
        b.len() == ETH_HEADER_LEN,
{
    &&& h.dst.spec_bytes() == b.subrange(0, 6)
    &&& h.src.spec_bytes() == b.subrange(6, 12)
    &&& Some(h.ether_ty) == EtherType::spec_from_wire_bytes(b[12], b[13])
}

/// Whether 14 bytes decode to some Ethernet header at all: exactly when the
/// EtherType is a known one.
pub open spec fn spec_eth_parse_ok(b: Seq<u8>) -> bool
    recommends
        b.len() == ETH_HEADER_LEN,
{
    EtherType::spec_from_wire_bytes(b[12], b[13]) is Some
}

/// Encoding an Ethernet header gives bytes that decode to it.
pub proof fn lemma_eth_round_trip(h: EthHeader)
    requires
        h.dst.spec_bytes().len() == 6,
        h.src.spec_bytes().len() == 6,
    ensures
        spec_eth_parses_to(spec_eth_bytes(h), h),
{
    let b = spec_eth_bytes(h);
    assert(b.subrange(0, 6) =~= h.dst.spec_bytes());
    assert(b.subrange(6, 12) =~= h.src.spec_bytes());
}

/// Writes `h` at `buf[pos .. pos + 14]`, leaving all other bytes unchanged.
pub fn write_eth_header(buf: &mut Vec<u8>, pos: usize, h: &EthHeader)
    requires
        pos + ETH_HEADER_LEN <= old(buf).len(),
    ensures
        final(buf)@.len() == old(buf)@.len(),
        final(buf)@.subrange(pos as int, pos + ETH_HEADER_LEN) == spec_eth_bytes(*h),
        forall|i: int|
            0 <= i < old(buf)@.len() && !(pos <= i < pos + ETH_HEADER_LEN) ==> final(buf)@[i]
                == old(buf)@[i],
{
    let dst = h.dst.as_bytes();
    let src = h.src.as_bytes();
    let mut k: usize = 0;
    while k < 6
        invariant
            0 <= k <= 6,
            pos + ETH_HEADER_LEN <= buf.len(),
            buf@.len() == old(buf)@.len(),
            dst@ == h.dst.spec_bytes(),
            forall|i: int| pos <= i < pos + k ==> buf@[i] == dst@[i - pos],
            forall|i: int|
                0 <= i < old(buf)@.len() && !(pos <= i < pos + k) ==> buf@[i] == old(buf)@[i],
        decreases 6 - k,
    {
        buf.set(pos + k, dst[k]);
        k = k + 1;
    }
    let mut k: usize = 0;
    while k < 6
        invariant
            0 <= k <= 6,
            pos + ETH_HEADER_LEN <= buf.len(),
            buf@.len() == old(buf)@.len(),
            src@ == h.src.spec_bytes(),
            dst@ == h.dst.spec_bytes(),
            forall|i: int| pos <= i < pos + 6 ==> buf@[i] == dst@[i - pos],
            forall|i: int| pos + 6 <= i < pos + 6 + k ==> buf@[i] == src@[i - pos - 6],
            forall|i: int|
                0 <= i < old(buf)@.len() && !(pos <= i < pos + 6 + k) ==> buf@[i] == old(buf)@[i],
        decreases 6 - k,
    {
        buf.set(pos + 6 + k, src[k]);
        k = k + 1;
    }
    let (hi, lo) = h.ether_ty.wire_bytes();
    buf.set(pos + 12, hi);
    buf.set(pos + 13, lo);
    proof {
        assert(buf@.subrange(pos as int, pos + ETH_HEADER_LEN) =~= spec_eth_bytes(*h));
    }
}

/// Reads an Ethernet header from `buf[pos ..]`; `None` when the EtherType is
/// not a known one.
pub fn read_eth_header(buf: &Vec<u8>, pos: usize) -> (r: Option<EthHeader>)
    requires
        pos + ETH_HEADER_LEN <= buf.len(),
    ensures
        match r {
            Some(h) => spec_eth_parses_to(buf@.subrange(pos as int, pos + ETH_HEADER_LEN), h),
            None => !spec_eth_parse_ok(buf@.subrange(pos as int, pos + ETH_HEADER_LEN)),
        },
{
    let ghost window = buf@.subrange(pos as int, pos + ETH_HEADER_LEN);
    let mut dst: [u8; 6] = [0u8; 6];
    let mut src: [u8; 6] = [0u8; 6];
    let mut k: usize = 0;
    while k < 6
        invariant
            0 <= k <= 6,
            pos + ETH_HEADER_LEN <= buf.len(),
            forall|i: int| 0 <= i < k ==> dst@[i] == buf@[pos + i],
        decreases 6 - k,
    {
        dst[k] = buf[pos + k];
        k = k + 1;
    }
    let mut k: usize = 0;
    while k < 6
        invariant
            0 <= k <= 6,
            pos + ETH_HEADER_LEN <= buf.len(),
            forall|i: int| 0 <= i < 6 ==> dst@[i] == buf@[pos + i],
            forall|i: int| 0 <= i < k ==> src@[i] == buf@[pos + 6 + i],
        decreases 6 - k,
    {
        src[k] = buf[pos + 6 + k];
        k = k + 1;
    }
    match EtherType::from_wire_bytes(buf[pos + 12], buf[pos + 13]) {
        Some(t) => {
            let h = EthHeader {
                dst: MacAddr::from_bytes(dst),
                src: MacAddr::from_bytes(src),
                ether_ty: t,
            };
            proof {
                assert(dst@ =~= window.subrange(0, 6));
                assert(src@ =~= window.subrange(6, 12));
            }
            Some(h)
        },
        None => None,
    }
}

/// The 20-byte image of an IPv4 header without options.
pub open spec fn spec_ipv4_bytes(h: Ipv4Header) -> Seq<u8> {
    seq![h.version_ihl, h.tos] + spec_le2(h.tot_len) + spec_le2(h.id) + spec_le2(h.frag_off)
        + seq![h.ttl, h.protocol.spec_code()] + spec_le2(h.cksum) + spec_le4(h.src) + spec_le4(
        h.dst,
    )
}

/// Parses 20 bytes as an IPv4 header; `None` when the protocol number is
/// unknown.
pub open spec fn spec_parse_ipv4(b: Seq<u8>) -> Option<Ipv4Header>
    recommends
        b.len() == IPV4_HEADER_LEN,
{
    match Ipv4ProtoType::spec_from_code(b[9]) {
        Some(p) => Some(
            Ipv4Header {
                version_ihl: b[0],
                tos: b[1],
                tot_len: spec_u16_of(b[2], b[3]),
                id: spec_u16_of(b[4], b[5]),
                frag_off: spec_u16_of(b[6], b[7]),
                ttl: b[8],
                protocol: p,
                cksum: spec_u16_of(b[10], b[11]),
                src: spec_u32_of(b[12], b[13], b[14], b[15]),
                dst: spec_u32_of(b[16], b[17], b[18], b[19]),
            },
        ),
        None => None,
    }
}

/// Encoding an IPv4 header and parsing the bytes returns the header.
pub proof fn lemma_ipv4_round_trip(h: Ipv4Header)
    ensures
        spec_parse_ipv4(spec_ipv4_bytes(h)) == Some(h),
{
    let b = spec_ipv4_bytes(h);
    lemma_le2_round_trip(h.tot_len);
    lemma_le2_round_trip(h.id);
    lemma_le2_round_trip(h.frag_off);
    lemma_le2_round_trip(h.cksum);
    lemma_le4_round_trip(h.src);
    lemma_le4_round_trip(h.dst);
}

/// Writes `h` at `buf[pos .. pos + 20]`, leaving all other bytes unchanged.
pub fn write_ipv4_header(buf: &mut Vec<u8>, pos: usize, h: &Ipv4Header)
    requires
        pos + IPV4_HEADER_LEN <= old(buf).len(),
    ensures
        final(buf)@.len() == old(buf)@.len(),
        final(buf)@.subrange(pos as int, pos + IPV4_HEADER_LEN) == spec_ipv4_bytes(*h),
        forall|i: int|
            0 <= i < old(buf)@.len() && !(pos <= i < pos + IPV4_HEADER_LEN) ==> final(buf)@[i]
                == old(buf)@[i],
{
    buf.set(pos, h.version_ihl);
    buf.set(pos + 1, h.tos);
    put2(buf, pos + 2, h.tot_len);
    put2(buf, pos + 4, h.id);
    put2(buf, pos + 6, h.frag_off);
    buf.set(pos + 8, h.ttl);
    buf.set(pos + 9, h.protocol.code());
    put2(buf, pos + 10, h.cksum);
    put4(buf, pos + 12, h.src);
    put4(buf, pos + 16, h.dst);
    proof {
        assert(buf@.subrange(pos as int, pos + IPV4_HEADER_LEN) =~= spec_ipv4_bytes(*h));
    }
}

/// Reads an IPv4 header from `buf[pos ..]`; `None` when the protocol number
/// is not a known one.
pub fn read_ipv4_header(buf: &Vec<u8>, pos: usize) -> (r: Option<Ipv4Header>)
    requires
        pos + IPV4_HEADER_LEN <= buf.len(),
    ensures
        r == spec_parse_ipv4(buf@.subrange(pos as int, pos + IPV4_HEADER_LEN)),
{
    let ghost window = buf@.subrange(pos as int, pos + IPV4_HEADER_LEN);
    match Ipv4ProtoType::from_code(buf[pos + 9]) {
        Some(p) => {
            let h = Ipv4Header {
                version_ihl: buf[pos],
                tos: buf[pos + 1],
                tot_len: get2(buf, pos + 2),
                id: get2(buf, pos + 4),
                frag_off: get2(buf, pos + 6),
                ttl: buf[pos + 8],
                protocol: p,
                cksum: get2(buf, pos + 10),
                src: get4(buf, pos + 12),
                dst: get4(buf, pos + 16),
            };
            Some(h)
        },
        None => None,
    }
}

/// The 8-byte image of a UDP header.
pub open spec fn spec_udp_bytes(h: UdpHeader) -> Seq<u8> {
    spec_le2(h.src) + spec_le2(h.dst) + spec_le2(h.len) + spec_le2(h.chksum)
}

/// Parses 8 bytes as a UDP header.
pub open spec fn spec_parse_udp(b: Seq<u8>) -> UdpHeader
    recommends
        b.len() == UDP_HEADER_LEN,
{
    UdpHeader {
        src: spec_u16_of(b[0], b[1]),
        dst: spec_u16_of(b[2], b[3]),
        len: spec_u16_of(b[4], b[5]),
        chksum: spec_u16_of(b[6], b[7]),
    }
}

/// Encoding a UDP header and parsing the bytes returns the header.
pub proof fn lemma_udp_round_trip(h: UdpHeader)
    ensures
        spec_parse_udp(spec_udp_bytes(h)) == h,
{
}

/// Writes `h` at `buf[pos .. pos + 8]`, leaving all other bytes unchanged.
pub fn write_udp_header(buf: &mut Vec<u8>, pos: usize, h: &UdpHeader)
    requires
        pos + UDP_HEADER_LEN <= old(buf).len(),
    ensures
        final(buf)@.len() == old(buf)@.len(),
        final(buf)@.subrange(pos as int, pos + UDP_HEADER_LEN) == spec_udp_bytes(*h),
        forall|i: int|
            0 <= i < old(buf)@.len() && !(pos <= i < pos + UDP_HEADER_LEN) ==> final(buf)@[i]
                == old(buf)@[i],
{
    put2(buf, pos, h.src);
    put2(buf, pos + 2, h.dst);
    put2(buf, pos + 4, h.len);
    put2(buf, pos + 6, h.chksum);
    proof {
        assert(buf@.subrange(pos as int, pos + UDP_HEADER_LEN) =~= spec_udp_bytes(*h));
    }
}

/// Reads a UDP header from `buf[pos ..]`.
pub fn read_udp_header(buf: &Vec<u8>, pos: usize) -> (r: UdpHeader)
    requires
        pos + UDP_HEADER_LEN <= buf.len(),
    ensures
        r == spec_parse_udp(buf@.subrange(pos as int, pos + UDP_HEADER_LEN)),
{
    let ghost window = buf@.subrange(pos as int, pos + UDP_HEADER_LEN);
    let h = UdpHeader {
        src: get2(buf, pos),
        dst: get2(buf, pos + 2),
        len: get2(buf, pos + 4),
        chksum: get2(buf, pos + 6),
    };
    h
}

/// One carry-folding step of a ones'-complement sum.
pub open spec fn spec_fold16(s: int) -> int {
    s % 0x10000 + s / 0x10000
}

/// The IPv4 pseudo-header sum for transmit checksum offload: the
/// carry-folded 16-bit ones'-complement sum of source address, destination
/// address, protocol number and L4 length (total length minus the header).
pub open spec fn spec_phdr_cksum(h: Ipv4Header) -> int {
    spec_fold16(spec_fold16(spec_phdr_words(h)))
}

/// The plain integer sum of the pseudo-header 16-bit words.
pub open spec fn spec_phdr_words(h: Ipv4Header) -> int {
    let s = spec_le4(h.src);
    let d = spec_le4(h.dst);
    let l4len = crate::protocol::spec_swap16(h.tot_len) - 4 * h.spec_ihl();
    (s[0] as int * 256 + s[1]) + (s[2] as int * 256 + s[3]) + (d[0] as int * 256 + d[1]) + (
    d[2] as int * 256 + d[3]) + h.protocol.spec_code() + l4len
}

/// Computes the pseudo-header checksum of `h` for offload; the L4 length
/// must not exceed the total length.
pub fn ipv4_phdr_cksum(h: &Ipv4Header) -> (r: u16)
    requires
        crate::protocol::spec_swap16(h.tot_len) >= 4 * h.spec_ihl(),
    ensures
        r == spec_phdr_cksum(*h),
{
    let src = h.src;
    let dst = h.dst;
    let s0: u32 = (src % 256) * 256 + (src / 256) % 256;
    let s1: u32 = ((src / 65536) % 256) * 256 + src / 16777216;
    let d0: u32 = (dst % 256) * 256 + (dst / 256) % 256;
    let d1: u32 = ((dst / 65536) % 256) * 256 + dst / 16777216;
    let l4len: u32 = (crate::protocol::swap16(h.tot_len) - 4 * (h.ihl() as u16)) as u32;
    let total: u32 = s0 + s1 + d0 + d1 + h.protocol.code() as u32 + l4len;
    let once: u32 = total % 0x10000 + total / 0x10000;
    let twice: u32 = once % 0x10000 + once / 0x10000;
    proof {
        assert(s0 + s1 + d0 + d1 + h.protocol.spec_code() + l4len == spec_phdr_words(*h));
    }
    twice as u16
}

} // verus!
