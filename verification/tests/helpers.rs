use backbone_td::flow_table::FlowTable;
use backbone_td::util::helpers::{port_from_u8, port_to_u8, update_flow_count};

#[test]
fn test_port_conversion() {
    let port: u16 = 8080;

    let bytes = port_to_u8(port);
    // `31` is the high byte and `144` is the low byte
    assert_eq!(bytes, vec![31, 144]);

    let reconstructed_port = port_from_u8(bytes[0], bytes[1]);
    assert_eq!(reconstructed_port, port);
}

#[test]
fn each_counted_packet_adds_one_to_the_total() {
    let mut t: FlowTable<u32> = FlowTable::new();
    let total = |t: &FlowTable<u32>| t.to_vec().iter().map(|(_, n)| *n as u64).sum::<u64>();
    update_flow_count(&mut t, "1.1.1.1", "2.2.2.2", "10", "20");
    update_flow_count(&mut t, "2.2.2.2", "1.1.1.1", "20", "10");
    update_flow_count(&mut t, "3.3.3.3", "2.2.2.2", "30", "20");
    update_flow_count(&mut t, "1.1.1.1", "2.2.2.2", "10", "20");
    assert_eq!(total(&t), 4);
    assert_eq!(t.len(), 2);
    assert_eq!(t.get(&"1.1.1.1, 2.2.2.2, 10, 20".to_string()), Some(3));
    assert_eq!(t.get(&"2.2.2.2, 1.1.1.1, 20, 10".to_string()), None);
    assert_eq!(t.get(&"3.3.3.3, 2.2.2.2, 30, 20".to_string()), Some(1));
}
