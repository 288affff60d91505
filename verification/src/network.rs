//! Link-layer parsing: Ethernet, IPv4, IPv6 and UDP.  A captured frame
//! goes in; the endpoints and the UDP payload come out.
use vstd::prelude::*;
use crate::hosts::{any_holds, cidr_text, CidrError, entries_ranges, index_of_from, range_holds, CidrRange};
use crate::ip::IpAddr;
use crate::text::trim;

verus! {

/// Big-endian `u16` at `p`.
pub open spec fn be16(d: Seq<u8>, p: int) -> u16 {
    (d[p] as int * 0x100 + d[p + 1] as int) as u16
}

/// Big-endian `u32` at `p`.
pub open spec fn be32(d: Seq<u8>, p: int) -> u32 {
    (d[p] as int * 0x1000000 + d[p + 1] as int * 0x10000 + d[p + 2] as int * 0x100 + d[p
        + 3] as int) as u32
}

/// Big-endian `u128` at `p` (eight big-endian `u16` groups).
#[verifier::opaque]
pub open spec fn be128(d: Seq<u8>, p: int) -> u128 {
    (be16(d, p) as int * 0x10000000000000000000000000000 + be16(d, p + 2) as int
        * 0x1000000000000000000000000 + be16(d, p + 4) as int * 0x100000000000000000000 + be16(
        d,
        p + 6,
    ) as int * 0x10000000000000000 + be16(d, p + 8) as int * 0x1000000000000 + be16(d, p + 10) as int
        * 0x100000000 + be16(d, p + 12) as int * 0x10000 + be16(d, p + 14) as int) as u128
}

fn read_be16(d: &[u8], p: usize) -> (r: u16)
    requires
        p + 2 <= d@.len(),
    ensures
        r == be16(d@, p as int),
{
    (d[p] as u16) * 0x100 + (d[p + 1] as u16)
}

fn read_be32(d: &[u8], p: usize) -> (r: u32)
    requires
        p + 4 <= d@.len(),
    ensures
        r == be32(d@, p as int),
{
    (d[p] as u32) * 0x1000000 + (d[p + 1] as u32) * 0x10000 + (d[p + 2] as u32) * 0x100 + (d[p
        + 3] as u32)
}

fn read_be128(d: &[u8], p: usize) -> (r: u128)
    requires
        p + 16 <= d@.len(),
    ensures
        r == be128(d@, p as int),
{
    reveal(be128);
    let n = d.len();
    assert(p + 16 <= n);
    let g0 = read_be16(d, p) as u128;
    let g1 = read_be16(d, p + 2) as u128;
    let g2 = read_be16(d, p + 4) as u128;
    let g3 = read_be16(d, p + 6) as u128;
    let g4 = read_be16(d, p + 8) as u128;
    let g5 = read_be16(d, p + 10) as u128;
    let g6 = read_be16(d, p + 12) as u128;
    let g7 = read_be16(d, p + 14) as u128;
    g0 * 0x10000000000000000000000000000 + g1 * 0x1000000000000000000000000 + g2
        * 0x100000000000000000000 + g3 * 0x10000000000000000 + g4 * 0x1000000000000 + g5
        * 0x100000000 + g6 * 0x10000 + g7
}

// ---------------------------------------------------------------------------
// Ethernet
// ---------------------------------------------------------------------------

/// An Ethernet II header.
#[derive(Clone, Copy, Debug)]
pub struct EthernetHeader {
    pub dst_mac: [u8; 6],
    pub src_mac: [u8; 6],
    pub ether_type: u16,
}

pub const IPV4_TYPE: u16 = 0x0800;

pub const IPV6_TYPE: u16 = 0x86DD;

/// Reads the 14-byte Ethernet header: destination and source MAC, then
/// the big-endian EtherType.
pub fn parse_ethernet_header(data: &[u8]) -> (r: Option<EthernetHeader>)
    ensures
        match r {
            Some(h) => data@.len() >= 14 && h.dst_mac@ == data@.subrange(0, 6) && h.src_mac@
                == data@.subrange(6, 12) && h.ether_type == be16(data@, 12),
            None => data@.len() < 14,
        },
{
    if data.len() < 14 {
        return None;
    }
    let dst_mac = [data[0], data[1], data[2], data[3], data[4], data[5]];
    let src_mac = [data[6], data[7], data[8], data[9], data[10], data[11]];
    assert(dst_mac@ =~= data@.subrange(0, 6));
    assert(src_mac@ =~= data@.subrange(6, 12));
    Some(EthernetHeader { dst_mac, src_mac, ether_type: read_be16(data, 12) })
}

// ---------------------------------------------------------------------------
// IPv4 and IPv6
// ---------------------------------------------------------------------------

/// The fields of an IPv4 header that the extraction reads.
#[derive(Clone, Copy, Debug, PartialEq, Eq, Structural)]
pub struct Ipv4Header {
    pub src_ip: u32,
    pub dst_ip: u32,
    pub protocol: u8,
    pub header_len: usize,
    /// The packet's total length (header and payload) in bytes.
    pub total_len: usize,
}

/// An IPv4 header: version 4, a header length (IHL, in 32-bit words) of
/// at least 20 bytes that fits the packet, and a total length between the
/// header length and the packet length.
pub open spec fn ipv4_header(d: Seq<u8>) -> Option<Ipv4Header> {
    if d.len() < 20 || d[0] >> 4 != 4 {
        None
    } else {
        let ihl = (d[0] & 0x0f) as int * 4;
        let total = be16(d, 2) as int;
        if ihl < 20 || ihl > d.len() || total < ihl || total > d.len() {
            None
        } else {
            Some(
                Ipv4Header {
                    src_ip: be32(d, 12),
                    dst_ip: be32(d, 16),
                    protocol: d[9],
                    header_len: ihl as usize,
                    total_len: total as usize,
                },
            )
        }
    }
}

pub fn parse_ipv4_header(data: &[u8]) -> (r: Option<Ipv4Header>)
    ensures
        r == ipv4_header(data@),
{
    if data.len() < 20 {
        return None;
    }
    let version = data[0] >> 4;
    if version != 4 {
        return None;
    }
    let ihl = ((data[0] & 0x0F) as usize) * 4;
    if ihl < 20 || ihl > data.len() {
        return None;
    }
    let total_length = read_be16(data, 2) as usize;
    if total_length < ihl || total_length > data.len() {
        return None;
    }
    Some(
        Ipv4Header {
            src_ip: read_be32(data, 12),
            dst_ip: read_be32(data, 16),
            protocol: data[9],
            header_len: ihl,
            total_len: total_length,
        },
    )
}

/// The fields of an IPv6 header that the extraction reads.
#[derive(Clone, Copy, Debug, PartialEq, Eq, Structural)]
pub struct Ipv6Header {
    pub src_ip: u128,
    pub dst_ip: u128,
    pub next_header: u8,
    /// The length of what follows the 40-byte header.
    pub payload_len: u16,
}

/// An IPv6 header: 40 bytes, version 6.
pub open spec fn ipv6_header(d: Seq<u8>) -> Option<Ipv6Header> {
    if d.len() < 40 || (d[0] >> 4) & 0x0f != 6 {
        None
    } else {
        Some(
            Ipv6Header {
                src_ip: be128(d, 8),
                dst_ip: be128(d, 24),
                next_header: d[6],
                payload_len: be16(d, 4),
            },
        )
    }
}

pub fn parse_ipv6_header(data: &[u8]) -> (r: Option<Ipv6Header>)
    ensures
        r == ipv6_header(data@),
{
    if data.len() < 40 {
        return None;
    }
    let version = (data[0] >> 4) & 0x0F;
    if version != 6 {
        return None;
    }
    Some(
        Ipv6Header {
            src_ip: read_be128(data, 8),
            dst_ip: read_be128(data, 24),
            next_header: data[6],
            payload_len: read_be16(data, 4),
        },
    )
}

// ---------------------------------------------------------------------------
// UDP
// ---------------------------------------------------------------------------

/// Where the UDP datagram lies in an IP packet, with the endpoints: the
/// offset of the UDP header and the end of the IP packet (its total length
/// for IPv4, the header plus the payload length for IPv6).  The packet must
/// be UDP (protocol 17) and hold the 8-byte UDP header within its length.
pub open spec fn udp_start(ip: Seq<u8>, v6: bool) -> Option<(IpAddr, IpAddr, int, int)> {
    if v6 {
        match ipv6_header(ip) {
            Some(h) => {
                let end = 40 + h.payload_len as int;
                if h.next_header == 17 && 48 <= end && end <= ip.len() {
                    Some((IpAddr::V6(h.src_ip), IpAddr::V6(h.dst_ip), 40, end))
                } else {
                    None
                }
            },
            None => None,
        }
    } else {
        match ipv4_header(ip) {
            Some(h) => if h.protocol == 17 && h.header_len + 8 <= h.total_len {
                Some(
                    (
                        IpAddr::V4(h.src_ip),
                        IpAddr::V4(h.dst_ip),
                        h.header_len as int,
                        h.total_len as int,
                    ),
                )
            } else {
                None
            },
            None => None,
        }
    }
}

/// A frame's IP packet (after the 14-byte Ethernet header) and whether it
/// is IPv6; `None` for frames that carry neither IPv4 nor IPv6.
pub open spec fn ip_packet(frame: Seq<u8>) -> Option<(Seq<u8>, bool)> {
    if frame.len() < 14 {
        None
    } else if be16(frame, 12) == IPV4_TYPE {
        Some((frame.skip(14), false))
    } else if be16(frame, 12) == IPV6_TYPE {
        Some((frame.skip(14), true))
    } else {
        None
    }
}

/// The endpoints of a frame's UDP datagram, the offset of its UDP header in
/// the frame and the end of its IP packet (anything after it, such as
/// Ethernet padding, belongs to no datagram).
pub open spec fn udp_in_frame(frame: Seq<u8>) -> Option<(IpAddr, IpAddr, int, int)> {
    match ip_packet(frame) {
        Some((ip, v6)) => match udp_start(ip, v6) {
            Some((s, d, u, e)) => Some((s, d, 14 + u, 14 + e)),
            None => None,
        },
        None => None,
    }
}

fn udp_start_exec(ip: &[u8], v6: bool) -> (r: Option<(IpAddr, IpAddr, usize, usize)>)
    ensures
        match r {
            Some((s, d, u, e)) => udp_start(ip@, v6) == Some((s, d, u as int, e as int)),
            None => udp_start(ip@, v6) is None,
        },
{
    if v6 {
        match parse_ipv6_header(ip) {
            Some(h) => {
                let end = 40 + h.payload_len as usize;
                if h.next_header == 17 && 48 <= end && end <= ip.len() {
                    Some((IpAddr::V6(h.src_ip), IpAddr::V6(h.dst_ip), 40, end))
                } else {
                    None
                }
            },
            None => None,
        }
    } else {
        match parse_ipv4_header(ip) {
            Some(h) => if h.protocol == 17 && h.header_len + 8 <= h.total_len {
                Some((IpAddr::V4(h.src_ip), IpAddr::V4(h.dst_ip), h.header_len, h.total_len))
            } else {
                None
            },
            None => None,
        }
    }
}

fn udp_in_frame_exec(frame: &[u8]) -> (r: Option<(IpAddr, IpAddr, usize, usize)>)
    ensures
        match r {
            Some((s, d, u, e)) => udp_in_frame(frame@) == Some((s, d, u as int, e as int)) && u
                + 8 <= e <= frame@.len(),
            None => udp_in_frame(frame@) is None,
        },
{
    let eth = match parse_ethernet_header(frame) {
        Some(h) => h,
        None => return None,
    };
    let v6 = if eth.ether_type == IPV4_TYPE {
        false
    } else if eth.ether_type == IPV6_TYPE {
        true
    } else {
        return None;
    };
    let ip = &frame[14..frame.len()];
    assert(ip@ =~= frame@.skip(14));
    match udp_start_exec(ip, v6) {
        Some((s, d, u, e)) => Some((s, d, 14 + u, 14 + e)),
        None => None,
    }
}

/// Extracts the endpoints and the UDP payload from a raw Ethernet frame
/// carrying IPv4 or IPv6.  The payload runs from the end of the UDP header
/// to the end of the IP packet.
pub fn extract_udp_payload(data: &[u8]) -> (r: Option<(IpAddr, IpAddr, &[u8])>)
    ensures
        match r {
            Some((s, d, p)) => udp_in_frame(data@) matches Some((s2, d2, u, e)) && s == s2 && d
                == d2 && p@ == data@.subrange(u + 8, e),
            None => udp_in_frame(data@) is None,
        },
{
    match udp_in_frame_exec(data) {
        Some((s, d, u, e)) => {
            let p = &data[u + 8..e];
            Some((s, d, p))
        },
        None => None,
    }
}

/// Like [`extract_udp_payload`], with the UDP source and destination
/// ports as well.
pub fn extract_udp_packet(data: &[u8]) -> (r: Option<(IpAddr, IpAddr, u16, u16, &[u8])>)
    ensures
        match r {
            Some((s, d, sp, dp, p)) => udp_in_frame(data@) matches Some((s2, d2, u, e)) && s == s2
                && d == d2 && sp == be16(data@, u) && dp == be16(data@, u + 2) && p@
                == data@.subrange(u + 8, e),
            None => udp_in_frame(data@) is None,
        },
{
    match udp_in_frame_exec(data) {
        Some((s, d, u, e)) => {
            let sp = read_be16(data, u);
            let dp = read_be16(data, u + 2);
            let p = &data[u + 8..e];
            Some((s, d, sp, dp, p))
        },
        None => None,
    }
}

// ---------------------------------------------------------------------------
// CIDR matching on text
// ---------------------------------------------------------------------------

/// Whether `ip` lies in the range written as `cidr` ("5.188.125.0/24"):
/// the text read as a CIDR entry, as the host filter reads its entries,
/// holds the address; text that is no CIDR entry holds no address.
pub open spec fn cidr_holds(ip: IpAddr, cidr: Seq<char>) -> bool {
    match cidr_text(cidr) {
        Ok(r) => range_holds(r, ip),
        Err(_) => false,
    }
}

/// Does `ip` fall inside `cidr` ("5.188.125.0/24")?
pub fn ip_in_cidr(ip: IpAddr, cidr: &str) -> (b: bool)
    ensures
        b == cidr_holds(ip, cidr@),
{
    match CidrRange::parse(cidr) {
        Ok(r) => r.contains(ip),
        Err(_) => false,
    }
}

/// Testing an address against one CIDR text agrees with a host filter
/// built from that text alone.
pub proof fn law_ip_in_cidr_agrees_with_filter(c: Seq<char>, ip: IpAddr)
    requires
        trim(c) == c,
        entries_ranges(seq![c]) is Ok,
    ensures
        cidr_holds(ip, c) == any_holds(entries_ranges(seq![c])->Ok_0, ip),
{
    let cs = seq![c];
    assert(cs.drop_last() =~= Seq::<Seq<char>>::empty());
    assert(cs.last() == c);
    assert(entries_ranges(Seq::<Seq<char>>::empty()) == Ok::<Seq<CidrRange>, CidrError>(
        Seq::empty(),
    ));
    assert(entries_ranges(cs.drop_last()) == Ok::<Seq<CidrRange>, CidrError>(Seq::empty()));
    let rs = entries_ranges(cs)->Ok_0;
    if c.len() == 0 {
        assert(index_of_from(c, '/', 0) is None);
        assert(rs =~= Seq::<CidrRange>::empty());
    } else {
        let r = cidr_text(c)->Ok_0;
        assert(rs =~= seq![r]);
        if range_holds(r, ip) {
            assert(range_holds(rs[0], ip));
        }
    }
}

} // verus!
