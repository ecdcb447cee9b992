use backbone_td::config::{
    is_valid_ratio, is_valid_src_dataset, label_file_path, parse_decimal, parse_exp_config, pcap_file_path,
    ConfigError, ExpConfig,
};
use backbone_td::memory_stats::MemoryStats;

#[test]
fn an_experiment_configuration() {
    assert_eq!(
        parse_exp_config("ELEPHANT_100-MOUSE_10-DELTA_8000"),
        Ok(ExpConfig { elephant_length: 100, mouse_length: 10, default_delta: 8000 })
    );
    assert_eq!(
        parse_exp_config("run-ELEPHANT_1000-MOUSE_30-DELTA_16000-x"),
        Ok(ExpConfig { elephant_length: 1000, mouse_length: 30, default_delta: 16000 })
    );
}

#[test]
fn experiment_configurations_refused() {
    assert_eq!(parse_exp_config("ELEPHANT_100-MOUSE_10"), Err(ConfigError::NoMatch));
    assert_eq!(parse_exp_config("ELEPHANT_99999999999-MOUSE_10-DELTA_8000"), Err(ConfigError::ElephantLength));
    assert_eq!(parse_exp_config("ELEPHANT_1-MOUSE_4294967296-DELTA_8000"), Err(ConfigError::MouseLength));
    assert_eq!(parse_exp_config("ELEPHANT_1-MOUSE_2-DELTA_70000"), Err(ConfigError::DeltaLength));
}

#[test]
fn decimal_numbers() {
    assert_eq!(parse_decimal("0", 10), Some(0));
    assert_eq!(parse_decimal("+12", 100), Some(12));
    assert_eq!(parse_decimal("4294967295", u32::MAX as u64), Some(4294967295));
    assert_eq!(parse_decimal("4294967296", u32::MAX as u64), None);
    assert_eq!(parse_decimal("", 10), None);
    assert_eq!(parse_decimal("+", 10), None);
    assert_eq!(parse_decimal("-1", 10), None);
    assert_eq!(parse_decimal("12a", 100), None);
    assert_eq!(parse_decimal("11", 10), None);
}

#[test]
fn datasets_and_ratios() {
    assert!(is_valid_src_dataset("cetc30"));
    assert!(is_valid_src_dataset("tcub"));
    assert!(!is_valid_src_dataset("cetc31"));
    assert!(is_valid_ratio(".0010"));
    assert!(!is_valid_ratio("0.0010"));
    assert_eq!(pcap_file_path("cetc30", ".0010"), "/_data/LOWPTOR/cetc30/lowptor-cetc30-.0010.pcap");
    assert_eq!(label_file_path("tcub"), "/_code/backbone_traffic_detection/data/lowptor-tcub-label-tor.csv");
}

#[test]
fn memory_totals_and_peak() {
    let mut s = MemoryStats::new();
    s.active_items_memory = 100;
    s.active_nodes_memory = 20;
    s.non_target_memory = 3;
    assert_eq!(s.total_active_memory(), 123);
    s.update_peak();
    assert_eq!(s.peak_total_memory, 123);
    s.active_items_memory = 1;
    s.update_peak();
    assert_eq!(s.peak_total_memory, 123);
}
