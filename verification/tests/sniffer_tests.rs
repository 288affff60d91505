use albion_translator::channel::ChatChannel;
use albion_translator::hosts::HostFilter;
use albion_translator::ip::IpAddr;
use albion_translator::photon::PhotonDecoder;
use albion_translator::sniffer::{
    choose_device, looks_like_tunnel, not_found_message, process_frame, restore_entry,
    save_entry, usable_ipv4, CaptureDeviceInfo, DeviceChoice, DeviceSummary, DiagCounter,
    FrameOutcome, SnifferError,
};

#[test]
fn tunnel_heuristic_flags_vpn_adapters() {
    assert!(looks_like_tunnel(
        "\\Device\\NPF_{D8484304-D804-6AA0-A33D-72368368364D}",
        "Cloudflare WARP Interface Tunnel"
    ));
    assert!(looks_like_tunnel("wg0", "WireGuard Tunnel"));
    assert!(looks_like_tunnel("tailscale0", ""));
    assert!(looks_like_tunnel("", "TAP-Windows Adapter V9"));
    assert!(looks_like_tunnel("tun0", ""));
    assert!(looks_like_tunnel("CloudflareWARP", ""));
}

#[test]
fn tunnel_heuristic_ignores_physical_adapters() {
    assert!(!looks_like_tunnel(
        "\\Device\\NPF_{88FA266C-1A3A-4044-BEE5-B452A5C4A23F}",
        "Intel(R) Wi-Fi 6 AX201 160MHz"
    ));
    assert!(!looks_like_tunnel("enp0s31f6", ""));
    assert!(!looks_like_tunnel("eth0", "Realtek PCIe GbE Family Controller"));
    assert!(!looks_like_tunnel("", "Fortinet Ethernet Adapter"));
}

#[test]
fn usable_ipv4_rejects_loopback_and_linklocal() {
    assert!(!usable_ipv4(&IpAddr::v4(169, 254, 44, 80)));
    assert!(!usable_ipv4(&IpAddr::v4(169, 254, 193, 51)));
    assert!(!usable_ipv4(&IpAddr::v4(127, 0, 0, 1)));
    assert!(!usable_ipv4(&IpAddr::v4(0, 0, 0, 0)));
    assert!(usable_ipv4(&IpAddr::v4(192, 168, 10, 25)));
    assert!(!usable_ipv4(&IpAddr::parse("fe80::1").unwrap()));
}

// ---------------------------------------------------------------------------
// Further cases
// ---------------------------------------------------------------------------

fn device(name: &str, desc: Option<&str>, addrs: Vec<IpAddr>) -> DeviceSummary {
    DeviceSummary { name: name.to_string(), desc: desc.map(|d| d.to_string()), addresses: addrs }
}

#[test]
fn device_choice_prefers_named_then_primary_then_physical() {
    let devs = vec![
        device("warp0", Some("Cloudflare WARP"), vec![IpAddr::v4(172, 16, 0, 2)]),
        device("eth0", None, vec![IpAddr::v4(169, 254, 1, 1)]),
        device("wlan0", Some("Intel Wi-Fi"), vec![IpAddr::v4(192, 168, 1, 5)]),
    ];
    assert_eq!(choose_device(&devs, Some("eth0"), None), DeviceChoice::Listed(1));
    assert_eq!(choose_device(&devs, Some("nope"), None), DeviceChoice::NotFound);
    assert_eq!(
        choose_device(&devs, Some(""), Some(IpAddr::v4(192, 168, 1, 5))),
        DeviceChoice::Listed(2)
    );
    // The primary address lives on the tunnel: the first physical adapter
    // with a usable IPv4 is taken.
    assert_eq!(
        choose_device(&devs, None, Some(IpAddr::v4(172, 16, 0, 2))),
        DeviceChoice::Listed(2)
    );
    assert_eq!(choose_device(&devs, None, None), DeviceChoice::SystemDefault);
    assert_eq!(
        choose_device(&devs, None, Some(IpAddr::v4(8, 8, 8, 8))),
        DeviceChoice::SystemDefault
    );
    assert_eq!(
        not_found_message("nope", &devs),
        "selected interface not found: nope (available: warp0, eth0, wlan0)"
    );
}

#[test]
fn capture_device_info_labels() {
    let d = device("wlan0", Some("Intel Wi-Fi"), vec![IpAddr::v4(127, 0, 0, 1), IpAddr::v4(10, 1, 2, 3)]);
    let info = CaptureDeviceInfo::from_device(&d);
    assert_eq!(info.label, "Intel Wi-Fi (wlan0)");
    assert_eq!(info.ipv4, "10.1.2.3");
    assert!(!info.is_tunnel);
    let bare = CaptureDeviceInfo::from_device(&device("tun0", Some(""), vec![]));
    assert_eq!(bare.label, "tun0");
    assert_eq!(bare.ipv4, "");
    assert!(bare.is_tunnel);
}

#[test]
fn sniffer_error_messages() {
    assert_eq!(SnifferError::AlreadyRunning.message(), "Capture already running");
    assert_eq!(SnifferError::NoDevice.message(), "No network device found");
    assert_eq!(
        SnifferError::CaptureOpen("denied".to_string()).message(),
        "Failed to open capture: denied"
    );
}

#[test]
fn saved_channel_entries_round_trip() {
    let (id, label) = save_entry(-25813, ChatChannel::Guild).unwrap();
    assert_eq!(id, "-25813");
    assert_eq!(label, "Guild");
    assert_eq!(restore_entry(&id, &label), Some((-25813, ChatChannel::Guild)));
    assert_eq!(save_entry(5, ChatChannel::Say).unwrap().1, "Local");
    assert!(save_entry(7, ChatChannel::Unknown).is_none());
    assert!(save_entry(7, ChatChannel::Language).is_none());
    assert_eq!(restore_entry("12", "Unknown"), None);
    assert_eq!(restore_entry("x", "Guild"), None);
    assert_eq!(save_entry(i64::MIN, ChatChannel::Party).unwrap().0, "-9223372036854775808");
}

fn udp_frame(src: [u8; 4], dst: [u8; 4], sport: u16, dport: u16, payload: &[u8]) -> Vec<u8> {
    let mut f = vec![0u8; 12];
    f.extend_from_slice(&[0x08, 0x00]);
    f.push(0x45);
    f.push(0);
    f.extend_from_slice(&((20 + 8 + payload.len()) as u16).to_be_bytes());
    f.extend_from_slice(&[0, 1, 0x40, 0, 64, 17, 0, 0]);
    f.extend_from_slice(&src);
    f.extend_from_slice(&dst);
    f.extend_from_slice(&sport.to_be_bytes());
    f.extend_from_slice(&dport.to_be_bytes());
    f.extend_from_slice(&((8 + payload.len()) as u16).to_be_bytes());
    f.extend_from_slice(&[0, 0]);
    f.extend_from_slice(payload);
    f
}

#[test]
fn frames_are_filtered_by_host_ranges() {
    let filter = HostFilter::from_cidrs(&["5.188.125.0/24"]).unwrap();
    let mut decoder = PhotonDecoder::new();
    let outside = udp_frame([1, 1, 1, 1], [2, 2, 2, 2], 5056, 4000, &[0; 12]);
    assert!(matches!(process_frame(&mut decoder, Some(&filter), &outside), FrameOutcome::Filtered));
    let inside = udp_frame([10, 0, 0, 1], [5, 188, 125, 9], 4000, 5056, &[0; 12]);
    assert!(matches!(process_frame(&mut decoder, Some(&filter), &inside), FrameOutcome::Decoded(None)));
    assert!(matches!(process_frame(&mut decoder, None, &outside), FrameOutcome::Decoded(None)));
    assert!(matches!(process_frame(&mut decoder, None, &[0u8; 10]), FrameOutcome::NotUdp));
}

#[test]
fn diagnostic_counts_and_top_ports() {
    let mut c = DiagCounter::new();
    for _ in 0..3 {
        c.record(&udp_frame([1, 1, 1, 1], [2, 2, 2, 2], 40000, 443, &[]));
    }
    c.record(&udp_frame([1, 1, 1, 1], [2, 2, 2, 2], 5056, 60000, &[]));
    for _ in 0..2 {
        c.record(&udp_frame([1, 1, 1, 1], [2, 2, 2, 2], 53, 53000, &[]));
    }
    for p in [1u16, 2, 3, 4] {
        c.record(&udp_frame([1, 1, 1, 1], [2, 2, 2, 2], p, 9999, &[]));
    }
    c.record(&[0u8; 5]);
    let r = c.report("eth0".to_string(), 10);
    assert_eq!(r.total_packets, 11);
    assert_eq!(r.udp_packets, 10);
    assert_eq!(r.albion_packets, 1);
    assert_eq!(r.top_udp_ports, vec![(443, 3), (53, 2), (5056, 1), (1, 1), (2, 1)]);
    assert_eq!(r.device, "eth0");
    assert_eq!(r.duration_secs, 10);
}

#[test]
fn empty_host_filter_filters_nothing() {
    let empty = HostFilter::from_hosts_text("# no ranges yet\n").unwrap();
    assert!(empty.is_empty());
    let mut decoder = PhotonDecoder::new();
    let frame = udp_frame([1, 1, 1, 1], [2, 2, 2, 2], 5056, 4000, &[0; 12]);
    assert!(matches!(process_frame(&mut decoder, Some(&empty), &frame), FrameOutcome::Decoded(None)));
}

#[test]
fn lowered_adapter_text_is_tokenised() {
    assert!(albion_translator::sniffer::tunnel_in_text("wg0 wireguard tunnel"));
    assert!(!albion_translator::sniffer::tunnel_in_text(" fortinet ethernet adapter"));
    assert!(!albion_translator::sniffer::tunnel_in_text("TUN0"));
}
