use backbone_td::flow_table::FlowTable;
use backbone_td::util::gen_data::random_flow;
use backbone_td::util::helpers::{get_flow_key, ip_from_u8, update_flow_count, IpText};
use backbone_td::util::pkt_type::PacketDirection;
use backbone_td::util::text::{decimal, flow_key, ipv4_string};
use backbone_td::util::tor::{FlowLabel, FlowLabelError};

#[test]
fn decimal_text() {
    assert_eq!(decimal(0), "0");
    assert_eq!(decimal(7), "7");
    assert_eq!(decimal(8080), "8080");
    assert_eq!(decimal(u64::MAX), u64::MAX.to_string());
}

#[test]
fn flow_key_text() {
    assert_eq!(flow_key("10.0.0.1", "10.0.0.2", "443", "55000"), "10.0.0.1, 10.0.0.2, 443, 55000");
    assert_eq!(flow_key("", "", "", ""), ", , , ");
}

#[test]
fn ipv4_text() {
    assert_eq!(ipv4_string(192, 168, 0, 1), "192.168.0.1");
    assert_eq!(ipv4_string(0, 0, 0, 0), "0.0.0.0");
    assert_eq!(ipv4_string(255, 255, 255, 255), "255.255.255.255");
}

#[test]
fn ip_from_bytes() {
    match ip_from_u8(&[10, 1, 2, 3]) {
        IpText::Text(s) => assert_eq!(s, "10.1.2.3"),
        IpText::Ipv6(_) => panic!("four bytes are IPv4"),
    }
    let b: [u8; 16] = [0x20, 0x01, 0x0d, 0xb8, 0, 0, 0, 0, 0, 0, 0, 0, 0, 0, 0x01, 0x02];
    match ip_from_u8(&b) {
        IpText::Ipv6(seg) => assert_eq!(seg, [0x2001, 0x0db8, 0, 0, 0, 0, 0, 0x0102]),
        IpText::Text(_) => panic!("sixteen bytes are IPv6"),
    }
    match ip_from_u8(&[1, 2, 3]) {
        IpText::Text(s) => assert_eq!(s, "Invalid IP length"),
        IpText::Ipv6(_) => panic!("three bytes are no address"),
    }
}

#[test]
fn flow_key_parts_by_direction() {
    let up = get_flow_key("1.1.1.1", "2.2.2.2", 10, 20, PacketDirection::Upstream);
    assert_eq!(up, ("1.1.1.1".to_string(), "2.2.2.2".to_string(), 10, 20));
    let down = get_flow_key("2.2.2.2", "1.1.1.1", 20, 10, PacketDirection::Downstream);
    assert_eq!(down, up);
}

#[test]
fn flow_counts_join_both_directions() {
    let mut t: FlowTable<u32> = FlowTable::new();
    update_flow_count(&mut t, "1.1.1.1", "2.2.2.2", "10", "20");
    update_flow_count(&mut t, "2.2.2.2", "1.1.1.1", "20", "10");
    update_flow_count(&mut t, "1.1.1.1", "2.2.2.2", "10", "20");
    update_flow_count(&mut t, "3.3.3.3", "2.2.2.2", "", "");
    assert_eq!(t.len(), 2);
    assert_eq!(t.get(&"1.1.1.1, 2.2.2.2, 10, 20".to_string()), Some(3));
    assert_eq!(t.get(&"2.2.2.2, 1.1.1.1, 20, 10".to_string()), None);
    assert_eq!(t.get(&"3.3.3.3, 2.2.2.2, , ".to_string()), Some(1));
}

#[test]
fn flow_table_basics() {
    let mut t: FlowTable<(u32, bool)> = FlowTable::new();
    assert_eq!(t.len(), 0);
    t.insert("a".to_string(), (1, false));
    t.insert("b".to_string(), (2, true));
    t.insert("a".to_string(), (3, true));
    assert_eq!(t.len(), 2);
    assert!(t.contains_key(&"a".to_string()));
    assert_eq!(t.get(&"a".to_string()), Some((3, true)));
    assert_eq!(t.remove(&"a".to_string()), Some((3, true)));
    assert_eq!(t.remove(&"a".to_string()), None);
    assert_eq!(t.to_vec(), vec![("b".to_string(), (2, true))]);
    assert_eq!(t.pairs().len(), 1);
}

#[test]
fn tor_labels_from_csv() {
    let csv = b"10.0.0.1,10.0.0.2,443,55000\n192.168.1.5,8.8.8.8,9001,40000\n";
    let l = FlowLabel::new(csv).unwrap();
    assert!(l.is_tor("10.0.0.1", "10.0.0.2", "443", "55000"));
    assert!(l.is_tor("10.0.0.2", "10.0.0.1", "55000", "443"));
    assert!(l.is_tor("8.8.8.8", "192.168.1.5", "40000", "9001"));
    assert!(!l.is_tor("10.0.0.1", "10.0.0.2", "443", "55001"));
}

#[test]
fn tor_labels_refuse_bad_csv() {
    let csv = b"a,b,c,d\ne,f\n";
    match FlowLabel::new(csv) {
        Err(FlowLabelError::Csv(_)) => {}
        Ok(_) => panic!("records of unequal lengths are refused"),
    }
}

#[test]
fn random_flows_are_five_bytes_later() {
    let (key, ts) = random_flow(&mut rand::thread_rng(), &1000);
    assert_eq!(key.len(), 5);
    assert!(ts >= 1001 && ts <= 2000);
    let mut seen_other = false;
    let mut rng = rand::thread_rng();
    for _ in 0..50 {
        let (_, t) = random_flow(&mut rng, &0);
        assert!(t >= 1 && t <= 1000);
        if t != 1 {
            seen_other = true;
        }
    }
    assert!(seen_other);
}
