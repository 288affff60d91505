use albion_translator::ip::IpAddr;
use albion_translator::network::{extract_udp_packet, extract_udp_payload, ip_in_cidr, parse_ethernet_header};

/// A full ethernet+IPv4+UDP frame wrapping `payload` as the UDP body.
fn wrap_udp_frame(payload: &[u8]) -> Vec<u8> {
    let mut frame = Vec::new();
    frame.extend_from_slice(&[0x00, 0x11, 0x22, 0x33, 0x44, 0x55]); // dst mac
    frame.extend_from_slice(&[0x66, 0x77, 0x88, 0x99, 0xaa, 0xbb]); // src mac
    frame.extend_from_slice(&[0x08, 0x00]); // IPv4 ethertype
    frame.push(0x45); // version 4, ihl 5
    frame.push(0x00); // dscp/ecn
    let total_len = 20 + 8 + payload.len();
    frame.extend_from_slice(&(total_len as u16).to_be_bytes());
    frame.extend_from_slice(&[0x00, 0x01]); // id
    frame.extend_from_slice(&[0x40, 0x00]); // flags/frag
    frame.push(64); // ttl
    frame.push(17); // udp
    frame.extend_from_slice(&[0x00, 0x00]); // checksum
    frame.extend_from_slice(&[5, 188, 125, 53]); // src ip
    frame.extend_from_slice(&[10, 208, 46, 229]); // dst ip
    frame.extend_from_slice(&[0x13, 0xc0]); // src port 5056
    frame.extend_from_slice(&[0xa4, 0xf8]); // dst port
    frame.extend_from_slice(&((8 + payload.len()) as u16).to_be_bytes());
    frame.extend_from_slice(&[0x00, 0x00]); // checksum
    frame.extend_from_slice(payload);
    frame
}

#[test]
fn extracts_udp_payload_at_photon_offset() {
    let payload: Vec<u8> = vec![
        0x00, 0x00, 0x00, 0x03, // peer_id, flags, command_count = 3
        0xd2, 0xe7, 0x5d, 0x32, // timestamp
        0x68, 0xe4, 0xd5, 0xa1, // challenge
        0x07, 0x00, 0x00, 0x00, // SendUnreliable, channel, flags, reserved
        0x00, 0x00, 0x00, 0x39, // command length = 57
        0x00, 0x00, 0x14, 0x13, // sequence
        0x00, 0x00, 0x29, 0x81, // unreliable seq
        0xf3, 0x04, // event message
    ];
    let frame = wrap_udp_frame(&payload);
    let (src, dst, extracted) = extract_udp_payload(&frame).expect("extract");
    assert_eq!(src, IpAddr::v4(5, 188, 125, 53));
    assert_eq!(dst, IpAddr::v4(10, 208, 46, 229));
    assert_eq!(extracted, payload.as_slice());
    assert_eq!(extracted[3], 0x03, "command_count must be at byte 3");
    assert_eq!(&extracted[28..30], &[0xf3, 0x04], "message must start at byte 28");
}

#[test]
fn rejects_non_udp_frames() {
    let mut frame = wrap_udp_frame(&[1, 2, 3]);
    frame[23] = 6; // tcp instead of udp
    assert!(extract_udp_payload(&frame).is_none());
}

// ---------------------------------------------------------------------------
// Further cases
// ---------------------------------------------------------------------------

#[test]
fn ports_come_with_the_payload() {
    let frame = wrap_udp_frame(&[9, 9]);
    let (_, _, sp, dp, p) = extract_udp_packet(&frame).unwrap();
    assert_eq!(sp, 5056);
    assert_eq!(dp, 0xa4f8);
    assert_eq!(p, &[9, 9]);
}

#[test]
fn ethernet_header_fields() {
    let frame = wrap_udp_frame(&[]);
    let h = parse_ethernet_header(&frame).unwrap();
    assert_eq!(h.dst_mac, [0x00, 0x11, 0x22, 0x33, 0x44, 0x55]);
    assert_eq!(h.src_mac, [0x66, 0x77, 0x88, 0x99, 0xaa, 0xbb]);
    assert_eq!(h.ether_type, 0x0800);
    assert!(parse_ethernet_header(&frame[..13]).is_none());
}

#[test]
fn ipv6_udp_frames_are_extracted() {
    let mut f = vec![0u8; 12];
    f.extend_from_slice(&[0x86, 0xdd]);
    f.extend_from_slice(&[0x60, 0, 0, 0, 0, 10, 17, 64]);
    let mut src = [0u8; 16];
    src[0] = 0x20;
    src[1] = 0x01;
    src[15] = 1;
    let dst = [0u8; 16];
    f.extend_from_slice(&src);
    f.extend_from_slice(&dst);
    f.extend_from_slice(&[0x13, 0xbf, 0x13, 0xc0, 0, 10, 0, 0, 7, 8]);
    let (s, d, p) = extract_udp_payload(&f).unwrap();
    assert_eq!(s, IpAddr::V6((0x2001u128 << 112) | 1));
    assert_eq!(d, IpAddr::V6(0));
    assert_eq!(p, &[7, 8]);
}

#[test]
fn bad_ipv4_headers_are_rejected() {
    let mut f = wrap_udp_frame(&[1]);
    f[14] = 0x44; // ihl 4 words: too short
    assert!(extract_udp_payload(&f).is_none());
    let mut g = wrap_udp_frame(&[1]);
    g[16] = 0xff; // total length past the frame
    assert!(extract_udp_payload(&g).is_none());
    let mut h = wrap_udp_frame(&[1]);
    h[12] = 0x08;
    h[13] = 0x06; // ARP
    assert!(extract_udp_payload(&h).is_none());
}

#[test]
fn ip_in_cidr_reads_text_ranges() {
    let a = IpAddr::v4(5, 188, 125, 47);
    assert!(ip_in_cidr(a, "5.188.125.0/24"));
    assert!(!ip_in_cidr(a, "5.188.126.0/24"));
    assert!(ip_in_cidr(a, "0.0.0.0/0"));
    assert!(!ip_in_cidr(a, "5.188.125.0/33"));
    assert!(!ip_in_cidr(IpAddr::v4(5, 188, 126, 1), "5.188.125.0/24"));
    assert!(!ip_in_cidr(a, "5.188.125.0"));
    assert!(!ip_in_cidr(a, "5.188.125/24"));
    assert!(!ip_in_cidr(a, "::/0"));
    let b = IpAddr::parse("2001:db8::dead:beef").unwrap();
    assert!(ip_in_cidr(b, "2001:db8::/32"));
    assert!(!ip_in_cidr(b, "2001:db9::/32"));
    assert!(ip_in_cidr(b, "2001:0db8:0:0:0:0:0:0/32"));
    assert!(!ip_in_cidr(b, "5.188.125.0/24"));
}

#[test]
fn ethernet_padding_is_not_payload() {
    let mut frame = wrap_udp_frame(&[1, 2, 3]);
    frame.extend_from_slice(&[0u8; 15]);
    let (_, _, p) = extract_udp_payload(&frame).unwrap();
    assert_eq!(p, &[1u8, 2, 3]);
    let (_, _, _, _, q) = extract_udp_packet(&frame).unwrap();
    assert_eq!(q, &[1u8, 2, 3]);
}
