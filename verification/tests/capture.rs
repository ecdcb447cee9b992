use backbone_td::capture::{classify_frame, stat, unix_millis, FilterStats, PacketClass};
use backbone_td::topk::small_flow_sampling::{PacketOutcome, Sampler, TimeoutModel};
use backbone_td::util::tor::FlowLabel;
use backbone_td::util::helpers::IpText;

fn ethernet(ethertype: u16, payload: &[u8]) -> Vec<u8> {
    let mut f = vec![0xde, 0xf0, 0x12, 0x34, 0x45, 0x67, 0x12, 0x34, 0x56, 0x78, 0x9a, 0xbc];
    f.push((ethertype >> 8) as u8);
    f.push(ethertype as u8);
    f.extend_from_slice(payload);
    f
}

fn ipv4(protocol: u8, src: [u8; 4], dst: [u8; 4], payload: &[u8]) -> Vec<u8> {
    let total = 20 + payload.len() as u16;
    let mut p = vec![0x45, 0, (total >> 8) as u8, total as u8, 0, 0, 0, 0, 64, protocol, 0, 0];
    p.extend_from_slice(&src);
    p.extend_from_slice(&dst);
    p.extend_from_slice(payload);
    p
}

fn ipv6(next: u8, src: [u8; 16], dst: [u8; 16], payload: &[u8]) -> Vec<u8> {
    let len = payload.len() as u16;
    let mut p = vec![0x60, 0, 0, 0, (len >> 8) as u8, len as u8, next, 64];
    p.extend_from_slice(&src);
    p.extend_from_slice(&dst);
    p.extend_from_slice(payload);
    p
}

fn ports(sport: u16, dport: u16, len: usize) -> Vec<u8> {
    let mut t = vec![(sport >> 8) as u8, sport as u8, (dport >> 8) as u8, dport as u8];
    t.resize(len, 0);
    if len >= 13 {
        t[12] = 0x50;
    }
    t
}

fn text(t: &IpText) -> String {
    match t {
        IpText::Text(s) => s.clone(),
        IpText::Ipv6(seg) => format!("{:?}", seg),
    }
}

#[test]
fn a_tcp_frame() {
    let f = ethernet(0x0800, &ipv4(6, [10, 0, 0, 1], [10, 0, 0, 2], &ports(443, 55000, 20)));
    match classify_frame(&f) {
        PacketClass::Tcp { src, dst, src_port, dst_port } => {
            assert_eq!(text(&src), "10.0.0.1");
            assert_eq!(text(&dst), "10.0.0.2");
            assert_eq!((src_port, dst_port), (443, 55000));
        }
        _ => panic!("a TCP frame"),
    }
}

#[test]
fn a_udp_frame() {
    let f = ethernet(0x0800, &ipv4(17, [1, 2, 3, 4], [5, 6, 7, 8], &ports(53, 1234, 8)));
    match classify_frame(&f) {
        PacketClass::Udp { src, dst, src_port, dst_port } => {
            assert_eq!(text(&src), "1.2.3.4");
            assert_eq!(text(&dst), "5.6.7.8");
            assert_eq!((src_port, dst_port), (53, 1234));
        }
        _ => panic!("a UDP frame"),
    }
}

#[test]
fn an_icmp_frame() {
    let f = ethernet(0x0800, &ipv4(1, [1, 2, 3, 4], [5, 6, 7, 8], &[8, 0, 0, 0]));
    match classify_frame(&f) {
        PacketClass::OtherIp { src, dst } => {
            assert_eq!(text(&src), "1.2.3.4");
            assert_eq!(text(&dst), "5.6.7.8");
        }
        _ => panic!("another IP protocol"),
    }
}

#[test]
fn an_ipv6_tcp_frame() {
    let mut a = [0u8; 16];
    a[0] = 0x20;
    a[1] = 0x01;
    a[15] = 1;
    let mut b = [0u8; 16];
    b[15] = 2;
    let f = ethernet(0x86DD, &ipv6(6, a, b, &ports(1, 2, 20)));
    match classify_frame(&f) {
        PacketClass::Tcp { src, dst, src_port, dst_port } => {
            match src {
                IpText::Ipv6(seg) => assert_eq!(seg, [0x2001, 0, 0, 0, 0, 0, 0, 1]),
                _ => panic!("an IPv6 address"),
            }
            match dst {
                IpText::Ipv6(seg) => assert_eq!(seg, [0, 0, 0, 0, 0, 0, 0, 2]),
                _ => panic!("an IPv6 address"),
            }
            assert_eq!((src_port, dst_port), (1, 2));
        }
        _ => panic!("a TCP frame"),
    }
}

#[test]
fn frames_that_are_skipped() {
    assert!(matches!(classify_frame(&[0u8; 10]), PacketClass::ShortFrame));
    assert!(matches!(classify_frame(&ethernet(0x0806, &[0u8; 28])), PacketClass::Skip));
    assert!(matches!(classify_frame(&ethernet(0x0800, &[0x45, 0, 0])), PacketClass::Skip));
    let short_tcp = ethernet(0x0800, &ipv4(6, [1, 1, 1, 1], [2, 2, 2, 2], &[0, 1]));
    assert!(matches!(classify_frame(&short_tcp), PacketClass::Skip));
}

#[test]
fn milliseconds_of_a_capture() {
    assert_eq!(unix_millis(1_700_000_000, 123_456), 1_700_000_000_123);
    assert_eq!(unix_millis(0, 999), 0);
}

#[test]
fn counts_before_and_after_sampling() {
    let mut s = FilterStats::new();
    s.count_frame();
    assert!(s.can_record_tcp(true, true, "1.1.1.1", "2.2.2.2", "1", "2"));
    s.record_tcp(true, true, "1.1.1.1", "2.2.2.2", "1", "2");
    s.record_tcp(false, false, "3.3.3.3", "2.2.2.2", "1", "2");
    s.record_tcp(true, false, "2.2.2.2", "1.1.1.1", "2", "1");
    s.record_other("9.9.9.9", "8.8.8.8", "", "");
    assert_eq!(s.total_pkt_count_before, 1);
    assert_eq!(s.after_rule_based_pkt_count, 3);
    assert_eq!(s.tor_pkt_count_before, 2);
    assert_eq!(s.total_pkt_count_after, 1);
    assert_eq!(s.tor_pkt_count_after, 1);
    assert_eq!(s.total_flow_count_before.len(), 2);
    assert_eq!(s.total_flow_count_before.get(&"1.1.1.1, 2.2.2.2, 1, 2".to_string()), Some(2));
    assert_eq!(s.tor_flow_count_before.get(&"1.1.1.1, 2.2.2.2, 1, 2".to_string()), Some(2));
    assert_eq!(s.total_flow_count_after.get(&"1.1.1.1, 2.2.2.2, 1, 2".to_string()), Some(1));
    assert_eq!(s.nontcp_total_flow_count.get(&"9.9.9.9, 8.8.8.8, , ".to_string()), Some(1));
    assert!(s.can_record_other("9.9.9.9", "8.8.8.8", "", ""));
}

#[test]
fn ipv4_options_move_the_transport_header() {
    // A header of six words: four bytes of options before the TCP header.
    let tcp = ports(8080, 22, 20);
    let total = 24 + tcp.len() as u16;
    let mut p = vec![0x46, 0, (total >> 8) as u8, total as u8, 0, 0, 0, 0, 64, 6, 0, 0];
    p.extend_from_slice(&[192, 168, 0, 1]);
    p.extend_from_slice(&[192, 168, 0, 2]);
    p.extend_from_slice(&[1, 1, 0, 0]);
    p.extend_from_slice(&tcp);
    match classify_frame(&ethernet(0x0800, &p)) {
        PacketClass::Tcp { src, dst, src_port, dst_port } => {
            assert_eq!(text(&src), "192.168.0.1");
            assert_eq!(text(&dst), "192.168.0.2");
            assert_eq!((src_port, dst_port), (8080, 22));
        }
        _ => panic!("a TCP frame behind IPv4 options"),
    }
}

#[test]
fn the_ip_lengths_cut_the_payload() {
    // The IPv4 total length leaves room for only 10 bytes of TCP header.
    let mut p = ipv4(6, [10, 0, 0, 1], [10, 0, 0, 2], &ports(1, 2, 20));
    p[2] = 0;
    p[3] = 30;
    assert!(matches!(classify_frame(&ethernet(0x0800, &p)), PacketClass::Skip));
    // The IPv6 payload length leaves room for only 6 bytes of UDP header.
    let mut q = ipv6(17, [0; 16], [0; 16], &ports(1, 2, 8));
    q[4] = 0;
    q[5] = 6;
    assert!(matches!(classify_frame(&ethernet(0x86DD, &q)), PacketClass::Skip));
    // A total length past the end of the data is cut at the end of the data.
    let mut r = ipv4(17, [10, 0, 0, 1], [10, 0, 0, 2], &ports(5, 6, 8));
    r[2] = 0xff;
    r[3] = 0xff;
    match classify_frame(&ethernet(0x0800, &r)) {
        PacketClass::Udp { src_port, dst_port, .. } => assert_eq!((src_port, dst_port), (5, 6)),
        _ => panic!("a UDP frame"),
    }
}

/// A timeout model with a fixed answer.
struct Always(bool);

impl TimeoutModel for Always {
    fn timed_out(&mut self, _tau: u64, _last_delta: u16, _default_delta: u16) -> bool {
        self.0
    }
}

#[test]
fn a_run_counts_packets_before_and_after_sampling() {
    let labels = FlowLabel::new(b"1.1.1.1,2.2.2.2,1,2\n").unwrap();
    let mut sampler = Sampler::new(16000, 1000, 0, 64, 2, 4, vec![0; 4], vec![0; 4], 1, 2);
    let mut stats = FilterStats::new();
    let packets = [
        ("1.1.1.1", "2.2.2.2", "1", "2", false),
        ("2.2.2.2", "1.1.1.1", "2", "1", false),
        ("3.3.3.3", "4.4.4.4", "5", "6", false),
        // The Tor flow times out here: it is counted before sampling only.
        ("1.1.1.1", "2.2.2.2", "1", "2", true),
        ("2.2.2.2", "1.1.1.1", "2", "1", false),
    ];
    for (i, (a, b, c, d, t)) in packets.iter().enumerate() {
        stats.count_frame();
        let r = stat(&mut sampler, &mut Always(*t), &labels, &mut stats, a, b, c, d, 1000 * (i as u64 + 1));
        assert!(r.is_some());
        assert_ne!(r, Some(PacketOutcome::CountOverflow));
    }
    assert_eq!(stats.total_pkt_count_before, 5);
    assert_eq!(stats.after_rule_based_pkt_count, 5);
    assert_eq!(stats.tor_pkt_count_before, 4);
    assert_eq!(stats.tor_pkt_count_after, 2);
    assert_eq!(stats.total_pkt_count_after, 3);
    assert_eq!(stats.total_flow_count_before.len(), 2);
    assert_eq!(stats.total_flow_count_after.len(), 2);
    assert_eq!(stats.tor_flow_count_before.len(), 1);
    assert_eq!(stats.tor_flow_count_after.len(), 1);
    assert_eq!(stats.tor_flow_count_before.get(&"1.1.1.1, 2.2.2.2, 1, 2".to_string()), Some(4));
    assert_eq!(stats.tor_flow_count_after.get(&"1.1.1.1, 2.2.2.2, 1, 2".to_string()), Some(2));
    assert!(!sampler.should_sample("2.2.2.2", "1.1.1.1", "2", "1"));
}
