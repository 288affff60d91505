use albion_translator::hosts::{CidrError, CidrRange, HostFilter};
use albion_translator::ip::IpAddr;
use albion_translator::number::IntErrorKind;

fn ip(s: &str) -> IpAddr {
    IpAddr::parse(s).unwrap()
}

#[test]
fn v4_range_contains_member_and_rejects_outsider() {
    let filter = HostFilter::from_cidrs(&["5.188.125.0/24"]).unwrap();
    assert!(filter.contains(ip("5.188.125.47")));
    assert!(!filter.contains(ip("5.188.126.1")));
}

#[test]
fn v6_range_contains_member_and_rejects_outsider() {
    let filter = HostFilter::from_cidrs(&["2001:db8::/32"]).unwrap();
    assert!(filter.contains(ip("2001:db8::dead:beef")));
    assert!(!filter.contains(ip("2001:db9::1")));
}

#[test]
fn v4_range_does_not_match_v6_address() {
    let filter = HostFilter::from_cidrs(&["5.188.125.0/24"]).unwrap();
    assert!(!filter.contains(ip("::1")));
}

#[test]
fn rejects_invalid_cidr() {
    assert!(HostFilter::from_cidrs(&["5.188.125.0/33"]).is_err());
    assert!(HostFilter::from_cidrs(&["not-an-ip/24"]).is_err());
    assert!(HostFilter::from_cidrs(&["5.188.125.0"]).is_err());
}

#[test]
fn from_file_skips_comments_and_blank_lines() {
    let content = "# Albion server ranges\n\n5.188.125.0/24   # primary fleet\n  85.234.70.0/24\n";
    let filter = HostFilter::from_hosts_text(content).unwrap();
    assert_eq!(filter.len(), 2);
    assert!(filter.contains(ip("5.188.125.9")));
    assert!(filter.contains(ip("85.234.70.200")));
}

// ---------------------------------------------------------------------------
// Further cases
// ---------------------------------------------------------------------------

#[test]
fn cidr_error_messages() {
    assert_eq!(
        HostFilter::from_cidrs(&["5.188.125.0/33"]).err().unwrap(),
        "IPv4 prefix length must be <= 32"
    );
    assert_eq!(
        HostFilter::from_cidrs(&["not-an-ip/24"]).err().unwrap(),
        "invalid IP address: invalid IP address syntax"
    );
    assert_eq!(HostFilter::from_cidrs(&["5.188.125.0"]).err().unwrap(), "missing /prefix");
    assert_eq!(
        HostFilter::from_cidrs(&["::/129"]).err().unwrap(),
        "IPv6 prefix length must be <= 128"
    );
    assert_eq!(
        HostFilter::from_cidrs(&["1.2.3.4/"]).err().unwrap(),
        "invalid prefix length: cannot parse integer from empty string"
    );
    assert_eq!(
        HostFilter::from_cidrs(&["1.2.3.4/x"]).err().unwrap(),
        "invalid prefix length: invalid digit found in string"
    );
    assert_eq!(
        HostFilter::from_cidrs(&["1.2.3.4/300"]).err().unwrap(),
        "invalid prefix length: number too large to fit in target type"
    );
}

#[test]
fn cidr_parse_masks_the_network() {
    assert_eq!(
        CidrRange::parse("5.188.125.77/24"),
        Ok(CidrRange::V4 { network: 0x05bc7d00, mask: 0xffffff00 })
    );
    assert_eq!(CidrRange::parse("1.2.3.4/0"), Ok(CidrRange::V4 { network: 0, mask: 0 }));
    assert_eq!(
        CidrRange::parse("1.2.3.4/+8"),
        Ok(CidrRange::V4 { network: 0x01000000, mask: 0xff000000 })
    );
    assert_eq!(
        CidrRange::parse("1.2.3.4/-8"),
        Err(CidrError::InvalidPrefix(IntErrorKind::InvalidDigit))
    );
}

#[test]
fn blank_entries_are_skipped_and_first_error_wins() {
    let f = HostFilter::from_cidrs(&["  ", "10.0.0.0/8", ""]).unwrap();
    assert_eq!(f.len(), 1);
    assert!(!f.is_empty());
    assert_eq!(
        HostFilter::from_cidrs(&["bad", "1.2.3.4/99"]).err().unwrap(),
        "missing /prefix"
    );
    assert!(HostFilter::from_cidrs(&[]).unwrap().is_empty());
}

#[test]
fn hosts_text_reports_the_bad_line() {
    let e = HostFilter::from_hosts_text("10.0.0.0/8\r\n# c\nnope/1 # x\n").err().unwrap();
    assert_eq!(e.line_number, 3);
    assert_eq!(e.entry, "nope/1");
    assert_eq!(e.error, CidrError::InvalidAddress);
}

#[test]
fn ip_text_follows_the_std_grammar() {
    assert_eq!(IpAddr::parse("1.2.3.4"), Some(IpAddr::V4(0x01020304)));
    assert_eq!(IpAddr::parse("01.2.3.4"), None);
    assert_eq!(IpAddr::parse("256.2.3.4"), None);
    assert_eq!(IpAddr::parse("1.2.3"), None);
    assert_eq!(IpAddr::parse("::"), Some(IpAddr::V6(0)));
    assert_eq!(IpAddr::parse("::1"), Some(IpAddr::V6(1)));
    assert_eq!(IpAddr::parse("1::"), Some(IpAddr::V6(1u128 << 112)));
    assert_eq!(
        IpAddr::parse("::ffff:1.2.3.4"),
        Some(IpAddr::V6(0xffff_0102_0304))
    );
    assert_eq!(
        IpAddr::parse("1:2:3:4:5:6:7:8"),
        Some(IpAddr::V6(0x0001_0002_0003_0004_0005_0006_0007_0008))
    );
    assert_eq!(IpAddr::parse("1:2:3:4:5:6:7::"), Some(IpAddr::V6(0x0001_0002_0003_0004_0005_0006_0007_0000)));
    assert_eq!(IpAddr::parse("1:2:3:4:5:6:7:8:9"), None);
    assert_eq!(IpAddr::parse("1::2::3"), None);
    assert_eq!(IpAddr::parse(":::"), None);
    assert_eq!(IpAddr::parse("12345::"), None);
    assert_eq!(IpAddr::parse("1:2:3:4:5:6::1.2.3.4"), None);
    assert_eq!(IpAddr::parse("1.2.3.4::"), None);
    assert_eq!(IpAddr::parse(""), None);
    assert_eq!(IpAddr::parse("fe80::1"), Some(IpAddr::V6((0xfe80u128 << 112) | 1)));
    assert_eq!(IpAddr::parse("::1.2.3.4:5"), None);
    assert_eq!(IpAddr::parse("1:2:3:4:5:1.2.3.4"), None);
    assert_eq!(IpAddr::parse("00000::"), None);
    assert_eq!(IpAddr::parse("::0000"), Some(IpAddr::V6(0)));
    assert_eq!(IpAddr::parse("1.2.3.04"), None);
    assert_eq!(IpAddr::parse("1:2:3:4:5:6:1.2.3.4"), Some(IpAddr::V6(0x0001_0002_0003_0004_0005_0006_0102_0304)));
}

#[test]
fn ranges_hold_their_own_address_and_prefix_extremes() {
    for entry in ["5.188.125.77/24", "10.0.0.1/32", "2001:db8::7/48", "::1/128"] {
        let f = HostFilter::from_cidrs(&[entry]).unwrap();
        let addr = entry.split('/').next().unwrap();
        assert!(f.contains(ip(addr)), "{}", entry);
    }
    let all = HostFilter::from_cidrs(&["9.9.9.9/0"]).unwrap();
    assert!(all.contains(ip("1.2.3.4")));
    assert!(!all.contains(ip("::1")));
    let one = HostFilter::from_cidrs(&["10.0.0.1/32"]).unwrap();
    assert!(!one.contains(ip("10.0.0.2")));
}
