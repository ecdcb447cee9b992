use backbone_td::topk::min_heap::{MinHeap, Node};
use backbone_td::topk::small_flow_sampling::{
    cell_of, decay_threshold, decays, row_hash_input, seconds_of_millis, Item, PacketOutcome, PacketState, RowStep,
    Sampler, TimeoutModel,
};

/// The decay thresholds that the sampler's maker computes from a probability:
/// `1 - p^step` (increment) or `p^step`, scaled to `2^31`.
fn p_occurrences(p: f64, steps: usize, increment: bool) -> Vec<u32> {
    let mut occurrences = Vec::with_capacity(steps);
    for step in 0..steps {
        let probability = p.powf(step as f64);
        let tier = if increment {
            (1. - probability) * (1u32 << 31) as f64
        } else {
            probability * (1u32 << 31) as f64
        };
        occurrences.push(tier as u32);
    }
    occurrences
}

fn make_sampler(
    default_delta: u16,
    elephant_length: u32,
    mouse_length: u32,
    w: usize,
    h: usize,
    k: usize,
    p_1: f64,
    p_2: f64,
) -> Sampler {
    Sampler::new(
        default_delta,
        elephant_length,
        mouse_length,
        w,
        h,
        k,
        p_occurrences(p_1, k, true),
        p_occurrences(p_2, k, false),
        42,
        7,
    )
}

#[test]
fn test_new() {
    let default_delta: u16 = 16_000;
    let elephant_length: u32 = 1000;
    let mouse_length: u32 = 30;
    let w = 600;
    let h = 3;
    let k = 100;
    let p_1 = 0.98;
    let p_2 = 0.96;

    let topk: Sampler = make_sampler(default_delta, elephant_length, mouse_length, w, h, k, p_1, p_2);

    assert_eq!(topk.hash_counter.len(), 3);
    assert_eq!(topk.hash_counter[0].len(), 600);
    assert_eq!(topk.efp_counter.len(), 0);
}

#[test]
fn new_sampler_has_empty_cells() {
    let s = make_sampler(8000, 100, 10, 7, 2, 5, 0.99, 0.96);
    for row in &s.hash_counter {
        for c in row {
            assert_eq!(*c, Item::default(8000));
        }
    }
    assert_eq!(s.decay_occ4delta.len(), 5);
    assert_eq!(s.decay_occ4delta[0], 0);
    assert_eq!(s.decay_occ4n[0], 1u32 << 31);
}

#[test]
fn item_reset_empties_the_cell() {
    let mut it = Item { hashkey: 7, n: 3, d: 2, last_delta: 5, last_ts: 99 };
    it.reset(16_000);
    assert_eq!(it, Item { hashkey: 0, n: 0, d: 0, last_delta: 16_000, last_ts: 0 });
}

#[test]
fn seconds_round_to_nearest() {
    assert_eq!(seconds_of_millis(0), 0);
    assert_eq!(seconds_of_millis(499), 0);
    assert_eq!(seconds_of_millis(500), 1);
    assert_eq!(seconds_of_millis(1499), 1);
    assert_eq!(seconds_of_millis(1500), 2);
    assert_eq!(seconds_of_millis(65_534_499), 65534);
    assert_eq!(seconds_of_millis(65_534_500), 65535);
    assert_eq!(seconds_of_millis(u64::MAX), 65535);
}

#[test]
fn decay_threshold_past_the_table() {
    let t = vec![5, 7, 9];
    assert_eq!(decay_threshold(&t, 1), 7);
    assert_eq!(decay_threshold(&t, 3), 9);
    assert_eq!(decay_threshold(&t, 100), 9);
    assert_eq!(decay_threshold(&vec![], 0), 0);
}

/// A timeout model that always gives the same answer.
struct Fixed(bool);

impl TimeoutModel for Fixed {
    fn timed_out(&mut self, _tau: u64, _last_delta: u16, _default_delta: u16) -> bool {
        self.0
    }
}

/// Runs one packet; `timed_out` decides each matched cell. False if the
/// packet was ignored.
fn run_packet(s: &mut Sampler, up: &str, down: &str, ts: u64, timed_out: bool) -> bool {
    let outcome = s.on_pkt_received(up, down, ts, &mut Fixed(timed_out));
    assert!(outcome != PacketOutcome::CountOverflow);
    outcome != PacketOutcome::Ignored
}

/// Runs one packet through the steps one by one.
fn run_packet_by_steps(s: &mut Sampler, up: &str, down: &str, ts: u64, timed_out: bool) -> PacketOutcome {
    let mut st = match s.begin_packet(up, down) {
        Some(st) => st,
        None => return PacketOutcome::Ignored,
    };
    for i in 0..s.h {
        let _idx = s.row_index(&mut st, i);
        match s.visit_cell(&mut st, i, ts) {
            RowStep::Decayed => {}
            RowStep::Matched { .. } => {
                if s.settle_cell(&mut st, i, ts, timed_out) {
                    return PacketOutcome::TimedOut;
                }
            }
        }
    }
    s.finish_packet(&st);
    PacketOutcome::Counted
}

#[test]
fn packets_are_counted_and_make_candidates() {
    let mut s = make_sampler(16_000, 1000, 0, 1 << 12, 3, 4, 0.99, 0.96);
    let up = "10.0.0.1, 10.0.0.2, 1000, 80";
    let down = "10.0.0.2, 10.0.0.1, 80, 1000";
    for t in 1..=3u64 {
        assert!(run_packet(&mut s, up, down, t * 10, false));
    }
    assert!(s.get_efp("10.0.0.1", "10.0.0.2", "1000", "80").is_some());
    assert!(s.get_efp("10.0.0.2", "10.0.0.1", "80", "1000").is_some());
    assert!(s.should_sample("10.0.0.1", "10.0.0.2", "1000", "80"));
    assert_eq!(s.efp_counter.len(), 1);
    // The packets in the other direction are counted under the same key.
    assert!(run_packet(&mut s, down, up, 40, false));
    assert_eq!(s.efp_counter.len(), 1);
    assert_eq!(s.get_efs().len(), 1);
    assert_eq!(s.get_efs()[0].as_str(), up);
}

#[test]
fn a_timed_out_flow_stops_being_sampled() {
    let mut s = make_sampler(16_000, 1000, 0, 1 << 12, 3, 4, 0.99, 0.96);
    let up = "1.1.1.1, 2.2.2.2, 5, 6";
    let down = "2.2.2.2, 1.1.1.1, 6, 5";
    assert!(run_packet(&mut s, up, down, 100, false));
    assert!(run_packet(&mut s, up, down, 200, true));
    assert!(!s.should_sample("1.1.1.1", "2.2.2.2", "5", "6"));
    assert!(!s.should_sample("2.2.2.2", "1.1.1.1", "6", "5"));
    assert_eq!(s.get_efp("1.1.1.1", "2.2.2.2", "5", "6"), None);
    // Later packets of the flow are ignored, in either direction.
    assert!(s.begin_packet(up, down).is_none());
    assert!(s.begin_packet(down, up).is_none());
}

#[test]
fn a_mouse_does_not_time_out() {
    let mut s = make_sampler(16_000, 1000, 5, 1 << 12, 3, 4, 0.99, 0.96);
    let up = "1.1.1.1, 2.2.2.2, 5, 6";
    let down = "2.2.2.2, 1.1.1.1, 6, 5";
    assert!(run_packet(&mut s, up, down, 100, true));
    assert!(run_packet(&mut s, up, down, 200, true));
    assert!(s.should_sample("1.1.1.1", "2.2.2.2", "5", "6"));
}

#[test]
fn the_candidates_never_exceed_k() {
    let k = 3;
    let mut s = make_sampler(16_000, 1000, 0, 1 << 12, 3, k, 0.99, 0.96);
    for f in 0..20u32 {
        let up = format!("10.0.0.{}, 10.0.1.1, {}, 80", f, 1000 + f);
        let down = format!("10.0.1.1, 10.0.0.{}, 80, {}", f, 1000 + f);
        assert!(run_packet(&mut s, &up, &down, 10 + f as u64, false));
        assert!(s.efp_counter.len() <= k);
    }
    assert_eq!(s.efp_counter.len(), k);
}

#[test]
fn elephants_leave_the_candidates() {
    let mut s = make_sampler(16_000, 3, 0, 1 << 12, 3, 4, 0.99, 0.96);
    let up = "9.9.9.9, 8.8.8.8, 1, 2";
    let down = "8.8.8.8, 9.9.9.9, 2, 1";
    for t in 1..=10u64 {
        run_packet(&mut s, up, down, t, false);
        if !s.should_sample("9.9.9.9", "8.8.8.8", "1", "2") {
            break;
        }
    }
    // Once its count passed the elephant length, the flow was cleaned up:
    // excluded, with its count, no longer a candidate.
    assert!(!s.should_sample("9.9.9.9", "8.8.8.8", "1", "2"));
    assert_eq!(s.get_efp("9.9.9.9", "8.8.8.8", "1", "2"), None);
    let key = String::from(up);
    let rec = s.non_target.get(&key).unwrap();
    assert!(rec.0 > 3);
    assert_eq!((rec.1, rec.2), (0, false));
}

#[test]
fn ranked_items_are_largest_first() {
    let mut s = make_sampler(16_000, 1000, 0, 8, 2, 4, 0.99, 0.96);
    s.hash_counter[0][3] = Item { hashkey: 1, n: 2, d: 0, last_delta: 0, last_ts: 0 };
    s.hash_counter[1][1] = Item { hashkey: 2, n: 5, d: 0, last_delta: 0, last_ts: 0 };
    s.hash_counter[0][6] = Item { hashkey: 3, n: 2, d: 0, last_delta: 0, last_ts: 0 };
    let r = s.ranked_items();
    let places: Vec<(u32, usize, usize)> = r.iter().map(|(it, i, j)| (it.n, *i, *j)).collect();
    assert_eq!(places, vec![(5, 1, 1), (2, 0, 3), (2, 0, 6)]);
    assert_eq!(s.active_items().len(), 3);
}

#[test]
fn heap_push_peek_pop() {
    let mut h = MinHeap::with_capacity(20);
    assert_eq!(h.peek(), 0);
    h.push(Node::new("1".to_string(), 43, false));
    h.push(Node::new("31".to_string(), 343, false));
    h.push(Node::new("134".to_string(), 323, false));
    h.push(Node::new("12".to_string(), 3243345, false));
    h.push(Node::new("12".to_string(), 32, true));
    assert_eq!(h.len(), 4);
    assert_eq!(h.peek(), 32);
    assert_eq!(h.get("12"), Some(&32));
    h.pop();
    assert_eq!(h.get("12"), None);
    assert_eq!(h.peek(), 43);
    h.update(Node::new("31".to_string(), 23423, false));
    assert_eq!(h.get("31"), Some(&23423));
    h.update(Node::new("77".to_string(), 1, false));
    assert_eq!(h.get("77"), None);
    h.remove("1");
    assert_eq!(h.len(), 2);
    assert_eq!(h.peek(), 323);
    let mut nodes = h.get_all_nodes();
    nodes.sort_by(|a, b| a.flow_key.cmp(&b.flow_key));
    assert_eq!(nodes, vec![Node::new("134".to_string(), 323, false), Node::new("31".to_string(), 23423, false)]);
}

#[test]
fn heap_gc_removes_elephants() {
    let mut h = MinHeap::new();
    h.push(Node::new("a".to_string(), 5, false));
    h.push(Node::new("b".to_string(), 1500, false));
    h.push(Node::new("c".to_string(), 1000, false));
    h.push(Node::new("d".to_string(), 2000, true));
    let mut gone = h.gc(&1000);
    gone.sort();
    assert_eq!(gone, vec![("b".to_string(), 1500), ("d".to_string(), 2000)]);
    assert_eq!(h.len(), 2);
    let mut keys: Vec<String> = h.get_efs().into_iter().cloned().collect();
    keys.sort();
    assert_eq!(keys, vec!["a".to_string(), "c".to_string()]);
    let mut detailed: Vec<(String, u32, bool)> = h.get_efs_detailed().into_iter().map(|(k, m, t)| (k.clone(), m, t)).collect();
    detailed.sort();
    assert_eq!(detailed, vec![("a".to_string(), 5, false), ("c".to_string(), 1000, false)]);
}

#[test]
fn node_repr_keeps_its_text() {
    let n = Node::new("1.2.3.4, 5.6.7.8, 1, 2".to_string(), 7, true);
    assert_eq!(n.__repr__(), "Node(flow_key=\"1.2.3.4, 5.6.7.8, 1, 2\", m=7, to=true");
}

#[test]
fn a_decay_happens_below_its_threshold() {
    assert!(decays(0, 1));
    assert!(decays(99, 100));
    assert!(!decays(100, 100));
    assert!(!decays(5, 0));
    assert!(!decays(u32::MAX, u32::MAX));
}

#[test]
fn each_row_hashes_its_own_pair() {
    assert_eq!(row_hash_input(42, 0), (42, 0));
    assert_eq!(row_hash_input(42, 3), (42, 3));
    assert_eq!(cell_of(10, 4), 2);
    assert_eq!(cell_of(u64::MAX, 1000), (u64::MAX % 1000) as usize);
    assert_eq!(cell_of(7, 1), 0);
}

#[test]
fn the_steps_and_the_whole_packet_agree_on_outcomes() {
    let mut s = make_sampler(16_000, 1000, 0, 1 << 12, 3, 4, 0.99, 0.96);
    let up = "9.9.9.9, 8.8.8.8, 1, 2";
    let down = "8.8.8.8, 9.9.9.9, 2, 1";
    assert_eq!(run_packet_by_steps(&mut s, up, down, 10, false), PacketOutcome::Counted);
    assert_eq!(s.get_efp("9.9.9.9", "8.8.8.8", "1", "2"), Some(1));
    assert_eq!(s.on_pkt_received(up, down, 20, &mut Fixed(false)), PacketOutcome::Counted);
    assert_eq!(s.get_efp("9.9.9.9", "8.8.8.8", "1", "2"), Some(2));
    assert_eq!(s.on_pkt_received_raw("8.8.8.8", "9.9.9.9", "2", "1", 30, &mut Fixed(true)), PacketOutcome::TimedOut);
    assert!(!s.should_sample("9.9.9.9", "8.8.8.8", "1", "2"));
    assert_eq!(s.on_pkt_received(up, down, 40, &mut Fixed(false)), PacketOutcome::Ignored);
    assert_eq!(run_packet_by_steps(&mut s, down, up, 50, false), PacketOutcome::Ignored);
}

/// A packet of flow `key` whose hash is `hk`, in cell 0 of the single row.
fn one_cell_packet(key: &str, hk: u64) -> PacketState {
    PacketState { flow_key: key.to_string(), item_hashkey: hk, max_n: 0, rows: vec![0], last_draw: 0 }
}

/// A model that counts how often it is asked.
struct Counting(u32);

impl TimeoutModel for Counting {
    fn timed_out(&mut self, _tau: u64, _last_delta: u16, _default_delta: u16) -> bool {
        self.0 += 1;
        false
    }
}

#[test]
fn a_second_packet_of_a_flow_raises_its_count() {
    let mut s = make_sampler(16000, 100, 10, 1, 1, 4, 0.5, 0.5);
    assert_eq!(s.run_packet(&mut one_cell_packet("A", 5), 1000, &mut Fixed(false)), PacketOutcome::Counted);
    assert_eq!(s.run_packet(&mut one_cell_packet("A", 5), 1100, &mut Fixed(false)), PacketOutcome::Counted);
    assert_eq!(s.efp_counter.len(), 1);
    assert_eq!(s.efp_counter.get("A"), Some(&2));
    let c = s.hash_counter[0][0];
    assert_eq!((c.hashkey, c.n, c.last_ts, c.last_delta), (5, 2, 1100, 16000));
    assert_eq!(s.non_target.len(), 0);
}

#[test]
fn a_timed_out_flow_is_recorded_and_its_cell_emptied() {
    let mut s = make_sampler(1000, 100, 0, 1, 1, 4, 0.5, 0.5);
    assert_eq!(s.run_packet(&mut one_cell_packet("A", 5), 1000, &mut Fixed(false)), PacketOutcome::Counted);
    assert_eq!(s.run_packet(&mut one_cell_packet("A", 5), 6000, &mut Fixed(true)), PacketOutcome::TimedOut);
    assert_eq!(s.non_target.get(&"A".to_string()), Some((2, 5, true)));
    assert_eq!(s.efp_counter.len(), 0);
    assert_eq!(s.hash_counter[0][0], Item::default(1000));
}

#[test]
fn an_elephant_is_excluded_and_its_cells_emptied() {
    let mut s = make_sampler(16000, 1, 10, 1, 1, 4, 0.5, 0.5);
    for t in 0..2u64 {
        assert_eq!(s.run_packet(&mut one_cell_packet("A", 5), 1000 + t, &mut Fixed(false)), PacketOutcome::Counted);
    }
    assert_eq!(s.efp_counter.get("A"), Some(&2));
    assert_eq!(s.run_packet(&mut one_cell_packet("A", 5), 1002, &mut Fixed(false)), PacketOutcome::Counted);
    assert_eq!(s.non_target.get(&"A".to_string()), Some((2, 0, false)));
    assert_eq!(s.efp_counter.len(), 0);
    assert_eq!(s.hash_counter[0][0], Item::default(16000));
}

#[test]
fn a_full_candidate_table_evicts_its_least() {
    let mut s = make_sampler(16000, 100, 10, 1, 1, 2, 0.5, 0.0);
    assert_eq!(s.run_packet(&mut one_cell_packet("A", 1), 1000, &mut Fixed(false)), PacketOutcome::Counted);
    assert_eq!(s.run_packet(&mut one_cell_packet("B", 2), 2000, &mut Fixed(false)), PacketOutcome::Counted);
    assert_eq!(s.run_packet(&mut one_cell_packet("C", 3), 3000, &mut Fixed(false)), PacketOutcome::Counted);
    assert_eq!(s.efp_counter.len(), 2);
    assert_eq!(s.efp_counter.get("A"), Some(&1));
    assert_eq!(s.efp_counter.get("B"), None);
    assert_eq!(s.efp_counter.get("C"), Some(&0));
    assert_eq!(s.non_target.len(), 0);
}

#[test]
fn a_full_cell_stops_the_packet() {
    let mut s = make_sampler(16000, 100, 10, 1, 1, 4, 0.5, 0.5);
    s.hash_counter[0][0] = Item { hashkey: 5, n: u32::MAX, d: 0, last_delta: 16000, last_ts: 10 };
    assert_eq!(s.run_packet(&mut one_cell_packet("A", 5), 1000, &mut Fixed(false)), PacketOutcome::CountOverflow);
    assert_eq!(s.efp_counter.len(), 0);
    assert_eq!(s.hash_counter[0][0].n, u32::MAX);
}

#[test]
fn an_ignored_packet_leaves_the_model_alone() {
    let mut s = make_sampler(16000, 1000, 0, 1 << 12, 3, 4, 0.99, 0.96);
    let up = "1.1.1.1, 2.2.2.2, 5, 6";
    let down = "2.2.2.2, 1.1.1.1, 6, 5";
    let mut m = Counting(0);
    // Each of the three rows asks the model once.
    assert_eq!(s.on_pkt_received(up, down, 100, &mut m), PacketOutcome::Counted);
    assert_eq!(m.0, 3);
    assert_eq!(s.on_pkt_received(up, down, 200, &mut m), PacketOutcome::Counted);
    assert_eq!(m.0, 6);
    assert_eq!(s.on_pkt_received(down, up, 300, &mut Fixed(true)), PacketOutcome::TimedOut);
    assert_eq!(s.on_pkt_received(up, down, 400, &mut m), PacketOutcome::Ignored);
    assert_eq!(m.0, 6);
}
