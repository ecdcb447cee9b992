//! The small-flow sampler: a count sketch of `h` rows of `w` cells, a table of
//! at most `k` candidate elephant flows, and the set of flows that are no
//! longer sampled.
//!
//! A packet is handled in steps, so that the caller can supply, for each
//! matched cell, whether the gap since the cell's last packet exceeds the
//! forecast timeout: `begin_packet`, then for each row `row_index` and
//! `visit_cell` (and `settle_cell` when the cell matched), then
//! `finish_packet`.
use vstd::prelude::*;
use ahash::RandomState;
use rand::rngs::SmallRng;
use crate::flow_table::{FlowTable, lists_map, keys_of};
use crate::topk::min_heap::{MinHeap, Node, is_least_count, above_limit, within_limit};
use crate::topk::randomness::{hasher_with_seed, hash_one, small_rng_from_seed, random_u32};
use crate::util::text::{flow_key, flow_key_text};

verus! {

/// A cell of the count sketch.
#[derive(Clone, Copy, Debug, PartialEq, Eq, Structural)]
pub struct Item {
    /// The hash of the flow that holds the cell.
    pub hashkey: u64,
    /// The packet count of that flow.
    pub n: u32,
    /// The flow's duration so far, in whole seconds.
    pub d: u16,
    /// The flow's timeout, in milliseconds.
    pub last_delta: u16,
    /// The timestamp of the flow's last packet, in milliseconds; 0 before any.
    pub last_ts: u64,
}

/// An empty cell whose timeout is `default_delta`.
pub open spec fn empty_item(default_delta: u16) -> Item {
    Item { hashkey: 0, n: 0, d: 0, last_delta: default_delta, last_ts: 0 }
}

impl Item {
    /// An empty cell whose timeout is `default_delta`.
    pub fn default(default_delta: u16) -> (it: Self)
        ensures
            it == empty_item(default_delta),
    {
        Item { hashkey: 0, n: 0, d: 0, last_delta: default_delta, last_ts: 0 }
    }

    /// Empties the cell, with timeout `default_delta`.
    pub fn reset(&mut self, default_delta: u16)
        ensures
            *final(self) == empty_item(default_delta),
    {
        self.hashkey = 0;
        self.n = 0;
        self.d = 0;
        self.last_delta = default_delta;
        self.last_ts = 0;
    }
}

/// `tau` milliseconds in whole seconds, rounded to the nearest (halves up),
/// and capped at `u16::MAX`.
pub open spec fn whole_seconds(tau: u64) -> u16 {
    let r = tau / 1000 + (if tau % 1000 >= 500 { 1int } else { 0int });
    if r > 65535 {
        65535
    } else {
        r as u16
    }
}

/// `tau` milliseconds in whole seconds, rounded to the nearest (halves up),
/// and capped at `u16::MAX`.
pub fn seconds_of_millis(tau: u64) -> (s: u16)
    ensures
        s == whole_seconds(tau),
{
    let r = tau / 1000 + (if tau % 1000 >= 500 { 1u64 } else { 0u64 });
    if r > 65535 {
        65535
    } else {
        r as u16
    }
}

/// The gap between `ts` and the cell's last packet (0 if it has none, and
/// 0 if `ts` is earlier).
pub open spec fn gap_since(c: Item, ts: u64) -> u64 {
    if c.last_ts != 0 {
        ts.saturating_sub(c.last_ts)
    } else {
        0
    }
}

/// The cell belongs to the flow with hash `hk`, or is free.
pub open spec fn cell_matches(c: Item, hk: u64) -> bool {
    c.hashkey == hk || c.n == 0
}

/// The cell after one more packet, at `ts`, of the flow with hash `hk`: the
/// count grows by one and the duration by the gap in whole seconds.
pub open spec fn counted(c: Item, hk: u64, ts: u64) -> Item {
    Item {
        hashkey: hk,
        n: (c.n + 1) as u32,
        d: if c.last_ts != 0 {
            c.d.saturating_add(whole_seconds(gap_since(c, ts)))
        } else {
            c.d
        },
        last_delta: c.last_delta,
        last_ts: c.last_ts,
    }
}

/// The threshold of a decay table at position `at`: its entry there, or its
/// last entry past its end, or 0 if it is empty.
pub open spec fn threshold_at(table: Seq<u32>, at: int) -> u32 {
    if 0 <= at < table.len() {
        table[at]
    } else if table.len() > 0 {
        table.last()
    } else {
        0
    }
}

/// The threshold of a decay table at position `at`.
pub fn decay_threshold(table: &Vec<u32>, at: usize) -> (t: u32)
    ensures
        t == threshold_at(table@, at as int),
{
    if at < table.len() {
        table[at]
    } else if table.len() > 0 {
        table[table.len() - 1]
    } else {
        0
    }
}

/// A decay happens when its random draw is below its threshold.
pub fn decays(draw: u32, threshold: u32) -> (b: bool)
    ensures
        b == (draw < threshold),
{
    draw < threshold
}

/// The count `n` after a decay draw `draw` against `threshold`: one less (not
/// below 0) when the draw is below the threshold, else unchanged.
pub open spec fn decayed_count(n: u32, draw: u32, threshold: u32) -> u32 {
    if draw < threshold { n.saturating_sub(1) } else { n }
}

/// The timeout `delta` after a decay draw `draw` against `threshold`: a
/// second (1000 ms) less (not below 0) when the draw is below the threshold,
/// else unchanged.
pub open spec fn decayed_delta(delta: u16, draw: u32, threshold: u32) -> u16 {
    if draw < threshold { delta.saturating_sub(1000) } else { delta }
}

/// A decay takes exactly one off a count (a count of 0 stays 0), and exactly
/// a second (1000 ms) off a timeout (not below 0), when its draw is below
/// its threshold; otherwise it changes nothing. So a count never drops by
/// more than one per decay.
pub proof fn lemma_decay_takes_one_step(n: u32, delta: u16, draw: u32, threshold: u32)
    ensures
        draw < threshold && n > 0 ==> decayed_count(n, draw, threshold) + 1 == n,
        draw < threshold && n == 0 ==> decayed_count(n, draw, threshold) == 0,
        draw >= threshold ==> decayed_count(n, draw, threshold) == n,
        decayed_count(n, draw, threshold) <= n,
        decayed_count(n, draw, threshold) + 1 >= n,
        draw < threshold && delta >= 1000 ==> decayed_delta(delta, draw, threshold) + 1000 == delta,
        draw < threshold && delta < 1000 ==> decayed_delta(delta, draw, threshold) == 0,
        draw >= threshold ==> decayed_delta(delta, draw, threshold) == delta,
{
}

/// In a row whose cell belongs to another flow, a packet leaves the cell as
/// it was but for its count, which drops by at most one: by exactly one
/// when the row's draw is below the decay threshold at that count and the
/// count is not 0.
pub proof fn lemma_other_flow_cell_decays_by_one(s: Sampler, hk: u64, ts: u64, c: Item, draw: u32)
    requires
        !cell_matches(c, hk),
    ensures
        ({
            let c2 = row_result(s, hk, ts, c, draw);
            let t = threshold_at(s.decay_occ4n@, c.n as int);
            &&& c2.hashkey == c.hashkey && c2.d == c.d && c2.last_delta == c.last_delta && c2.last_ts == c.last_ts
            &&& draw < t ==> c2.n + 1 == c.n
            &&& draw >= t ==> c2.n == c.n
        }),
{
}

/// What is hashed to choose the cell of row `i` for a flow whose hash is
/// `hashkey`: the pair of the two, so that each row has its own cell.
pub fn row_hash_input(hashkey: u64, i: usize) -> (r: (u64, usize))
    ensures
        r == (hashkey, i),
{
    (hashkey, i)
}

/// The cell, among `w`, that the hash value `hv` falls in: `hv` modulo `w`.
pub open spec fn cell_at(hv: u64, w: usize) -> int {
    (hv % (w as u64)) as int
}

/// The cell, among `w`, that the hash value `hv` falls in: `hv` modulo `w`.
pub fn cell_of(hv: u64, w: usize) -> (idx: usize)
    requires
        w > 0,
    ensures
        idx == cell_at(hv, w),
        idx < w,
{
    (hv % (w as u64)) as usize
}

/// `g2` is the grid `g` with cell (`i`, `j`) set to `c`.
pub open spec fn grid_set(g: Seq<Vec<Item>>, g2: Seq<Vec<Item>>, i: int, j: int, c: Item) -> bool {
    &&& g2.len() == g.len()
    &&& forall|a: int| 0 <= a < g.len() ==> #[trigger] g2[a]@ == (if a == i {
        g[a]@.update(j, c)
    } else {
        g[a]@
    })
}

/// `g2` is the grid `g` with, in each row `a`, cell `rows[a]` emptied.
pub open spec fn grid_reset_rows(g: Seq<Vec<Item>>, g2: Seq<Vec<Item>>, rows: Seq<usize>, default_delta: u16) -> bool {
    &&& g2.len() == g.len()
    &&& forall|a: int| 0 <= a < g.len() ==> #[trigger] g2[a]@ == g[a]@.update(rows[a] as int, empty_item(default_delta))
}

/// The key under which a packet of the flow is counted: the key in the
/// packet's direction if the candidates hold it, else the key in the other
/// direction if they hold that, else the key in the packet's direction.
pub open spec fn chosen_key(efp: Map<Seq<char>, (u32, bool)>, up: Seq<char>, down: Seq<char>) -> Seq<char> {
    if efp.contains_key(up) {
        up
    } else if efp.contains_key(down) {
        down
    } else {
        up
    }
}

/// A flow that is a candidate under the key of one direction only is
/// counted under that key whichever direction its packet travels, so the
/// two directions of a candidate flow are one flow to the sampler.
pub proof fn lemma_chosen_key_both_ways(efp: Map<Seq<char>, (u32, bool)>, up: Seq<char>, down: Seq<char>)
    requires
        efp.contains_key(up) != efp.contains_key(down),
    ensures
        chosen_key(efp, up, down) == chosen_key(efp, down, up),
        efp.contains_key(chosen_key(efp, up, down)),
{
}

/// The record of flows moved out of the candidates by a clean-up: their
/// count, duration 0, and not timed out.
pub open spec fn gc_marks(m: Map<Seq<char>, u32>) -> Map<Seq<char>, (u32, u16, bool)> {
    Map::new(|k: Seq<char>| m.contains_key(k), |k: Seq<char>| (m[k], 0u16, false))
}

/// A flow whose key is `up` one way and `down` the other is sampled unless
/// either key is excluded.
pub open spec fn is_sampled(non_target: Map<Seq<char>, (u32, u16, bool)>, up: Seq<char>, down: Seq<char>) -> bool {
    !(non_target.contains_key(up) || non_target.contains_key(down))
}

/// The candidate count of a flow whose key is `up` one way and `down` the
/// other: under `up` if held, else under `down`, else none.
pub open spec fn candidate_count(efp: Map<Seq<char>, (u32, bool)>, up: Seq<char>, down: Seq<char>) -> Option<u32> {
    if efp.contains_key(up) {
        Some(efp[up].0)
    } else if efp.contains_key(down) {
        Some(efp[down].0)
    } else {
        None
    }
}

/// Every flow excluded in `old` is still excluded in `new`, with the same record.
pub open spec fn keeps_excluded(old: Map<Seq<char>, (u32, u16, bool)>, new: Map<Seq<char>, (u32, u16, bool)>) -> bool {
    forall|key: Seq<char>| #[trigger] old.contains_key(key) ==> new.contains_key(key) && new[key] == old[key]
}

/// Whether a flow is sampled does not depend on the direction of the packet
/// that asks: the flow from `a`:`c` to `b`:`d` is sampled exactly when the
/// flow from `b`:`d` to `a`:`c` is.
pub proof fn lemma_sampling_is_direction_free(
    non_target: Map<Seq<char>, (u32, u16, bool)>,
    a: Seq<char>,
    b: Seq<char>,
    c: Seq<char>,
    d: Seq<char>,
)
    ensures
        is_sampled(non_target, flow_key_text(a, b, c, d), flow_key_text(b, a, d, c))
            == is_sampled(non_target, flow_key_text(b, a, d, c), flow_key_text(a, b, c, d)),
{
}

/// The least count among the candidates (0 if there are none).
pub open spec fn least_count(m: Map<Seq<char>, (u32, bool)>) -> u32 {
    choose|r: u32| is_least_count(m, r)
}

/// The least count is unique.
pub proof fn lemma_least_count_unique(m: Map<Seq<char>, (u32, bool)>, r: u32)
    requires
        is_least_count(m, r),
    ensures
        least_count(m) == r,
{
    let c = least_count(m);
    assert(is_least_count(m, c));
    if m.dom() != Set::<Seq<char>>::empty() {
        let k1 = choose|k: Seq<char>| #[trigger] m.contains_key(k) && m[k].0 == r;
        let k2 = choose|k: Seq<char>| #[trigger] m.contains_key(k) && m[k].0 == c;
        assert(c <= m[k1].0);
        assert(r <= m[k2].0);
    }
}

/// The state of a packet between its steps.
pub struct PacketState {
    /// The key under which the packet is counted.
    pub flow_key: String,
    /// The hash of that key.
    pub item_hashkey: u64,
    /// The largest count among the cells the packet matched so far.
    pub max_n: u32,
    /// The cell chosen in each row visited so far.
    pub rows: Vec<usize>,
    /// The last random draw made for a decay while visiting or settling a
    /// cell (0 before any).
    pub last_draw: u32,
}

/// What a visit of a row found.
pub enum RowStep {
    /// The cell belonged to another flow; its count may have decayed.
    Decayed,
    /// The cell is the flow's: it was counted. `tau` is the gap since the
    /// flow's previous packet in this cell and `last_delta` its timeout; the
    /// caller decides from them whether the flow timed out.
    Matched { tau: u64, last_delta: u16 },
}

/// The cells of a grid, row by row.
pub open spec fn grid_view(g: Seq<Vec<Item>>) -> Seq<Seq<Item>> {
    g.map_values(|v: Vec<Item>| v@)
}

/// The grid `g` with, in each row `a`, cell `rows[a]` emptied.
pub open spec fn reset_view(g: Seq<Seq<Item>>, rows: Seq<usize>, default_delta: u16) -> Seq<Seq<Item>> {
    Seq::new(g.len(), |a: int| g[a].update(rows[a] as int, empty_item(default_delta)))
}

/// What finishing a packet of the flow `fk` does, from the candidates `e`,
/// the excluded flows `nt` and the sketch `g` to `e2`, `nt2` and `g2`, for
/// at most `k` candidates, elephants above `elephant_length`, the packet's
/// largest matched count `max_n` and its cells `rows`. If the candidates
/// are full and `max_n` is below their least count, nothing. If the flow is
/// a candidate whose count is above `elephant_length`, every candidate
/// above it leaves the candidates and is excluded with its count, duration
/// 0 and not timed out, and the flow's cells are emptied. If it is a
/// candidate otherwise, its count becomes `max_n`. If it is not a
/// candidate, it becomes one with count `max_n`, in place of a candidate of
/// least count when the candidates are full.
pub open spec fn finish_rel(
    e: Map<Seq<char>, (u32, bool)>,
    nt: Map<Seq<char>, (u32, u16, bool)>,
    g: Seq<Seq<Item>>,
    k: usize,
    elephant_length: u32,
    default_delta: u16,
    fk: Seq<char>,
    max_n: u32,
    rows: Seq<usize>,
    e2: Map<Seq<char>, (u32, bool)>,
    nt2: Map<Seq<char>, (u32, u16, bool)>,
    g2: Seq<Seq<Item>>,
) -> bool {
    let full = e.dom().len() >= k;
    let least = least_count(e);
    if max_n < least && full {
        &&& e2 == e
        &&& nt2 == nt
        &&& g2 == g
    } else if e.contains_key(fk) {
        if e[fk].0 > elephant_length {
            &&& e2 == within_limit(e, elephant_length)
            &&& nt2 == nt.union_prefer_right(gc_marks(above_limit(e, elephant_length)))
            &&& g2 == reset_view(g, rows, default_delta)
        } else {
            &&& e2 == e.insert(fk, (max_n, false))
            &&& nt2 == nt
            &&& g2 == g
        }
    } else {
        &&& nt2 == nt
        &&& g2 == g
        &&& if full {
            exists|k0: Seq<char>| {
                &&& #[trigger] e.contains_key(k0)
                &&& e[k0].0 == least
                &&& e2 == e.remove(k0).insert(fk, (max_n, false))
            }
        } else {
            e2 == e.insert(fk, (max_n, false))
        }
    }
}

/// The cell that a packet visits in row `i` of the sampler `s`.
pub open spec fn visited_cell(s: Sampler, rows: Seq<usize>, i: int) -> Item {
    s.hash_counter@[i]@[rows[i] as int]
}

/// The cell `c` of a row after a packet of the flow with hash `hk`, at
/// `ts`, that goes on past it, with the row's random draw `draw`: counted
/// and its timeout decayed by the draw (against `decay_occ4delta` at its
/// duration) if it is the flow's or free, else its count decayed by the
/// draw (against `decay_occ4n` at its count).
pub open spec fn row_result(s: Sampler, hk: u64, ts: u64, c: Item, draw: u32) -> Item {
    if cell_matches(c, hk) {
        let cc = counted(c, hk, ts);
        Item {
            last_delta: decayed_delta(cc.last_delta, draw, threshold_at(s.decay_occ4delta@, cc.d as int)),
            last_ts: ts,
            ..cc
        }
    } else {
        Item { n: decayed_count(c.n, draw, threshold_at(s.decay_occ4n@, c.n as int)), ..c }
    }
}

/// The packet stops at row `i` because the flow's cell there already holds
/// the largest count.
pub open spec fn overflows_at(s: Sampler, rows: Seq<usize>, hk: u64, i: int) -> bool {
    let c = visited_cell(s, rows, i);
    cell_matches(c, hk) && c.n == u32::MAX
}

/// The packet stops at row `i` because the flow timed out there: the cell
/// is the flow's or free, the timeout model said so (`answers[i]`), and the
/// flow's count there, with this packet, is above `mouse_length`.
pub open spec fn times_out_at(s: Sampler, rows: Seq<usize>, hk: u64, ts: u64, answers: Seq<bool>, i: int) -> bool {
    let c = visited_cell(s, rows, i);
    &&& cell_matches(c, hk)
    &&& c.n < u32::MAX
    &&& answers[i]
    &&& counted(c, hk, ts).n > s.mouse_length
}

/// The packet goes on past row `i`.
pub open spec fn goes_on(s: Sampler, rows: Seq<usize>, hk: u64, ts: u64, answers: Seq<bool>, i: int) -> bool {
    !overflows_at(s, rows, hk, i) && !times_out_at(s, rows, hk, ts, answers, i)
}

/// The sketch of `s` after a packet went on past its first `t` rows.
pub open spec fn grid_after(s: Sampler, rows: Seq<usize>, hk: u64, ts: u64, draws: Seq<u32>, t: int) -> Seq<Seq<Item>> {
    Seq::new(
        s.hash_counter@.len(),
        |a: int|
            if a < t {
                s.hash_counter@[a]@.update(rows[a] as int, row_result(s, hk, ts, visited_cell(s, rows, a), draws[a]))
            } else {
                s.hash_counter@[a]@
            },
    )
}

/// The largest count, with the packet, among the flow's cells in the first
/// `t` rows (0 if none).
pub open spec fn max_matched(s: Sampler, rows: Seq<usize>, hk: u64, ts: u64, t: nat) -> u32
    decreases t,
{
    if t == 0 {
        0
    } else {
        let m = max_matched(s, rows, hk, ts, (t - 1) as nat);
        let c = visited_cell(s, rows, t - 1);
        if cell_matches(c, hk) && counted(c, hk, ts).n > m {
            counted(c, hk, ts).n
        } else {
            m
        }
    }
}

/// The sampler `s` becomes `new` by a packet of the flow `fk`, whose hash is
/// `hk`, whose cells are `rows`, at `ts`, with the random draws `draws` and
/// the timeout model's answers `answers` row by row, and with outcome `r`.
/// The rows are visited in order until one stops the packet:
/// - `CountOverflow` at the first row whose flow cell holds the largest
///   count; the rows before it are done, nothing else changes;
/// - `TimedOut` at the first row where the flow times out: the rows before
///   it are done, its cell is emptied, the flow is excluded with the count
///   and duration of that cell with this packet and timed out, and it
///   leaves the candidates;
/// - `Counted` when no row stops it: every row is done, then the packet is
///   finished (`finish_rel`) with its largest matched count.
pub open spec fn packet_run(
    s: Sampler,
    new: Sampler,
    fk: Seq<char>,
    hk: u64,
    rows: Seq<usize>,
    ts: u64,
    draws: Seq<u32>,
    answers: Seq<bool>,
    r: PacketOutcome,
) -> bool {
    let h = s.h as int;
    &&& rows.len() == h
    &&& draws.len() == h
    &&& answers.len() == h
    &&& match r {
        PacketOutcome::Ignored => false,
        PacketOutcome::CountOverflow => exists|t: int| {
            &&& 0 <= t < h
            &&& #[trigger] overflows_at(s, rows, hk, t)
            &&& forall|a: int| 0 <= a < t ==> #[trigger] goes_on(s, rows, hk, ts, answers, a)
            &&& grid_view(new.hash_counter@) == grid_after(s, rows, hk, ts, draws, t)
            &&& new.efp_counter@ == s.efp_counter@
            &&& new.non_target@ == s.non_target@
        },
        PacketOutcome::TimedOut => exists|t: int| {
            let cc = counted(visited_cell(s, rows, t), hk, ts);
            &&& 0 <= t < h
            &&& #[trigger] times_out_at(s, rows, hk, ts, answers, t)
            &&& forall|a: int| 0 <= a < t ==> #[trigger] goes_on(s, rows, hk, ts, answers, a)
            &&& grid_view(new.hash_counter@) == grid_after(s, rows, hk, ts, draws, t).update(
                t,
                s.hash_counter@[t]@.update(rows[t] as int, empty_item(s.default_delta)),
            )
            &&& new.non_target@ == s.non_target@.insert(fk, (cc.n, cc.d, true))
            &&& new.efp_counter@ == s.efp_counter@.remove(fk)
        },
        PacketOutcome::Counted => {
            &&& forall|a: int| 0 <= a < h ==> #[trigger] goes_on(s, rows, hk, ts, answers, a)
            &&& finish_rel(
                s.efp_counter@,
                s.non_target@,
                grid_after(s, rows, hk, ts, draws, h),
                s.k,
                s.elephant_length,
                s.default_delta,
                fk,
                max_matched(s, rows, hk, ts, h as nat),
                rows,
                new.efp_counter@,
                new.non_target@,
                grid_view(new.hash_counter@),
            )
        },
    }
}

/// The sampler `s` becomes `new` by a packet of the flow whose key is `up`
/// in the packet's direction and `down` in the other, at `ts`, with outcome
/// `r`. A packet of an excluded flow is ignored and changes nothing.
/// Otherwise the sampler changes as `packet_run` says for the chosen key,
/// for some hash and cells of it (the hasher's values are not stated), some
/// random draws and some answers of the timeout model. A packet that times
/// out leaves its flow excluded and no candidate; while the candidates are
/// not full, a counted packet leaves its flow a candidate or excluded.
pub open spec fn packet_handled(s: Sampler, new: Sampler, up: Seq<char>, down: Seq<char>, ts: u64, r: PacketOutcome) -> bool {
    let fk = chosen_key(s.efp_counter@, up, down);
    &&& (r == PacketOutcome::Ignored) <==> !is_sampled(s.non_target@, up, down)
    &&& r == PacketOutcome::Ignored ==> new == s
    &&& r != PacketOutcome::Ignored ==> exists|hk: u64, rows: Seq<usize>, draws: Seq<u32>, answers: Seq<bool>| {
        &&& forall|a: int| 0 <= a < rows.len() ==> #[trigger] rows[a] < s.w
        &&& #[trigger] packet_run(s, new, fk, hk, rows, ts, draws, answers, r)
    }
    &&& r == PacketOutcome::TimedOut ==> {
        &&& new.non_target@.contains_key(fk)
        &&& !new.efp_counter@.contains_key(fk)
    }
    &&& (r == PacketOutcome::Counted && s.efp_counter@.dom().len() < s.k)
        ==> (new.efp_counter@.contains_key(fk) || new.non_target@.contains_key(fk))
}

/// Decides, for a cell that a packet matched, whether its flow timed out
/// there: from the gap `tau` since the flow's previous packet in that cell
/// (in milliseconds), the cell's timeout `last_delta`, and the sampler's
/// default timeout. A model may learn from each gap it is asked about.
pub trait TimeoutModel {
    fn timed_out(&mut self, tau: u64, last_delta: u16, default_delta: u16) -> bool;
}

/// What became of a packet handed to the sampler.
#[derive(Clone, Copy, Debug, PartialEq, Eq, Structural)]
pub enum PacketOutcome {
    /// Its flow is no longer sampled; nothing changed.
    Ignored,
    /// Its flow timed out in one of its cells and is no longer sampled.
    TimedOut,
    /// It was counted in every row and the candidates were updated.
    Counted,
    /// A cell of its flow already holds the largest count; counting it would
    /// overflow. The rows before that one were visited.
    CountOverflow,
}

/// The sampler.
pub struct Sampler {
    /// The initial timeout of a flow, in milliseconds.
    pub default_delta: u16,
    /// Candidates with a count above this are elephants.
    pub elephant_length: u32,
    /// Flows with a count at most this are mice: they do not time out.
    pub mouse_length: u32,
    pub hasher: RandomState,
    pub random: SmallRng,
    /// The most candidates kept.
    pub k: usize,
    /// The cells in a row.
    pub w: usize,
    /// The rows.
    pub h: usize,
    /// Thresholds for the decay of a timeout, by duration in seconds.
    pub decay_occ4delta: Vec<u32>,
    /// Thresholds for the decay of a count, by count.
    pub decay_occ4n: Vec<u32>,
    /// The count sketch: `h` rows of `w` cells.
    pub hash_counter: Vec<Vec<Item>>,
    /// The candidate elephant flows.
    pub efp_counter: MinHeap,
    /// The flows no longer sampled, with their count, duration, and whether
    /// they left by timing out.
    pub non_target: FlowTable<(u32, u16, bool)>,
}

impl Sampler {
    /// The sampler's invariant: the sketch has its shape, the tables theirs,
    /// there are at most `k` candidates, and no candidate is a flow that is
    /// no longer sampled.
    pub open spec fn wf(&self) -> bool {
        &&& self.grid_ok()
        &&& self.h > 0
        &&& self.k > 0
        &&& self.efp_counter.wf()
        &&& self.non_target.wf()
        &&& self.efp_counter@.dom().finite()
        &&& self.efp_counter@.dom().len() <= self.k
        &&& forall|key: Seq<char>| #[trigger] self.efp_counter@.contains_key(key) ==> !self.non_target@.contains_key(key)
    }

    /// The sketch has `h` rows of `w` cells, and `w` is not 0.
    pub open spec fn grid_ok(&self) -> bool {
        &&& self.w > 0
        &&& self.hash_counter@.len() == self.h
        &&& forall|i: int| 0 <= i < self.h ==> (#[trigger] self.hash_counter@[i])@.len() == self.w
    }

    /// The cell in row `i`, position `j`.
    pub open spec fn cell(&self, i: int, j: int) -> Item {
        self.hash_counter@[i]@[j]
    }

    /// The settings and random sources of `self` and `other` are the same.
    pub open spec fn same_settings(&self, other: &Sampler) -> bool {
        &&& self.default_delta == other.default_delta
        &&& self.elephant_length == other.elephant_length
        &&& self.mouse_length == other.mouse_length
        &&& self.hasher == other.hasher
        &&& self.k == other.k
        &&& self.w == other.w
        &&& self.h == other.h
        &&& self.decay_occ4delta@ == other.decay_occ4delta@
        &&& self.decay_occ4n@ == other.decay_occ4n@
    }

    /// A sampler with an empty sketch (every cell empty, with timeout
    /// `default_delta`), no candidates and no excluded flows. The hasher is
    /// keyed by `seed`; the random generator is seeded by `rng_seed`.
    pub fn new(
        default_delta: u16,
        elephant_length: u32,
        mouse_length: u32,
        w: usize,
        h: usize,
        k: usize,
        decay_occ4delta: Vec<u32>,
        decay_occ4n: Vec<u32>,
        seed: u64,
        rng_seed: u64,
    ) -> (s: Sampler)
        requires
            w > 0,
            h > 0,
            k > 0,
        ensures
            s.wf(),
            s.default_delta == default_delta,
            s.elephant_length == elephant_length,
            s.mouse_length == mouse_length,
            s.w == w,
            s.h == h,
            s.k == k,
            s.decay_occ4delta@ == decay_occ4delta@,
            s.decay_occ4n@ == decay_occ4n@,
            forall|i: int, j: int| 0 <= i < h && 0 <= j < w ==> #[trigger] s.cell(i, j) == empty_item(default_delta),
            s.efp_counter@ == Map::<Seq<char>, (u32, bool)>::empty(),
            s.non_target@ == Map::<Seq<char>, (u32, u16, bool)>::empty(),
    {
        let mut hash_counter: Vec<Vec<Item>> = Vec::new();
        let mut i: usize = 0;
        while i < h
            invariant
                i <= h,
                hash_counter@.len() == i,
                forall|a: int| 0 <= a < i ==> (#[trigger] hash_counter@[a])@.len() == w,
                forall|a: int, j: int| 0 <= a < i && 0 <= j < w ==> #[trigger] hash_counter@[a]@[j] == empty_item(default_delta),
            decreases h - i,
        {
            let mut row: Vec<Item> = Vec::new();
            let mut j: usize = 0;
            while j < w
                invariant
                    j <= w,
                    row@.len() == j,
                    forall|b: int| 0 <= b < j ==> #[trigger] row@[b] == empty_item(default_delta),
                decreases w - j,
            {
                row.push(Item::default(default_delta));
                j = j + 1;
            }
            hash_counter.push(row);
            i = i + 1;
        }
        let efp_counter = MinHeap::with_capacity(k);
        let non_target: FlowTable<(u32, u16, bool)> = FlowTable::new();
        proof {
            assert(efp_counter@.dom() =~= Set::<Seq<char>>::empty());
        }
        Sampler {
            default_delta,
            elephant_length,
            mouse_length,
            hasher: hasher_with_seed(seed),
            random: small_rng_from_seed(rng_seed),
            k,
            w,
            h,
            decay_occ4delta,
            decay_occ4n,
            hash_counter,
            efp_counter,
            non_target,
        }
    }

    /// The key under which a packet of the flow whose key is
    /// `flow_key_upstream` in its direction and `flow_key_downstream` in the
    /// other is counted (see `chosen_key`).
    pub fn choose_flow_key(&self, flow_key_upstream: &str, flow_key_downstream: &str) -> (k: String)
        requires
            self.wf(),
        ensures
            k@ == chosen_key(self.efp_counter@, flow_key_upstream@, flow_key_downstream@),
    {
        if self.efp_counter.get(flow_key_upstream).is_some() {
            String::from_str(flow_key_upstream)
        } else if self.efp_counter.get(flow_key_downstream).is_some() {
            String::from_str(flow_key_downstream)
        } else {
            String::from_str(flow_key_upstream)
        }
    }

    /// Whether packets of the flow from `src_ip`:`src_port` to
    /// `dst_ip`:`dst_port` are still sampled: neither direction of its key
    /// is excluded.
    pub fn should_sample(&self, src_ip: &str, dst_ip: &str, src_port: &str, dst_port: &str) -> (b: bool)
        requires
            self.wf(),
        ensures
            b == is_sampled(
                self.non_target@,
                flow_key_text(src_ip@, dst_ip@, src_port@, dst_port@),
                flow_key_text(dst_ip@, src_ip@, dst_port@, src_port@),
            ),
    {
        let flow_key_upstream = flow_key(src_ip, dst_ip, src_port, dst_port);
        let flow_key_downstream = flow_key(dst_ip, src_ip, dst_port, src_port);
        if self.non_target.contains_key(&flow_key_upstream) || self.non_target.contains_key(&flow_key_downstream) {
            false
        } else {
            true
        }
    }

    /// The candidate count of the flow from `src_ip`:`src_port` to
    /// `dst_ip`:`dst_port`: under its key in this direction, else in the
    /// other; `None` if it is no candidate.
    pub fn get_efp(&self, src_ip: &str, dst_ip: &str, src_port: &str, dst_port: &str) -> (r: Option<u32>)
        requires
            self.wf(),
        ensures
            r == candidate_count(
                self.efp_counter@,
                flow_key_text(src_ip@, dst_ip@, src_port@, dst_port@),
                flow_key_text(dst_ip@, src_ip@, dst_port@, src_port@),
            ),
    {
        let flow_key_upstream = flow_key(src_ip, dst_ip, src_port, dst_port);
        let flow_key_downstream = flow_key(dst_ip, src_ip, dst_port, src_port);
        if let Some(m) = self.efp_counter.get(flow_key_upstream.as_str()) {
            return Some(*m);
        }
        if let Some(m) = self.efp_counter.get(flow_key_downstream.as_str()) {
            return Some(*m);
        }
        None
    }

    /// The keys of the candidates, each once, in an order the heap leaves open.
    pub fn get_efs(&self) -> (r: Vec<&String>)
        requires
            self.wf(),
        ensures
            r@.map_values(|k: &String| k@).no_duplicates(),
            r@.map_values(|k: &String| k@).to_set() == self.efp_counter@.dom(),
    {
        self.efp_counter.get_efs()
    }

    /// Starts a packet of the flow whose key is `flow_key_upstream` in the
    /// packet's direction and `flow_key_downstream` in the other. A flow that
    /// is no longer sampled is ignored: `None`. Otherwise the state of the
    /// packet, counted under the chosen key, with no rows visited yet.
    pub fn begin_packet(&self, flow_key_upstream: &str, flow_key_downstream: &str) -> (r: Option<PacketState>)
        requires
            self.wf(),
        ensures
            r is None <==> (self.non_target@.contains_key(flow_key_upstream@)
                || self.non_target@.contains_key(flow_key_downstream@)),
            r matches Some(st) ==> {
                &&& st.flow_key@ == chosen_key(self.efp_counter@, flow_key_upstream@, flow_key_downstream@)
                &&& st.max_n == 0
                &&& st.rows@.len() == 0
                &&& st.last_draw == 0
            },
    {
        let up = String::from_str(flow_key_upstream);
        let down = String::from_str(flow_key_downstream);
        if self.non_target.contains_key(&up) || self.non_target.contains_key(&down) {
            return None;
        }
        let flow_key = self.choose_flow_key(flow_key_upstream, flow_key_downstream);
        let item_hashkey = hash_one(&self.hasher, flow_key.as_str());
        Some(PacketState { flow_key, item_hashkey, max_n: 0, rows: Vec::new(), last_draw: 0 })
    }

    /// The cell of row `i` for the packet's flow: the hash of the pair of the
    /// flow's hash and the row (`row_hash_input`), modulo `w` (`cell_of`). It
    /// is recorded in the packet's state.
    pub fn row_index(&self, st: &mut PacketState, i: usize) -> (idx: usize)
        requires
            self.wf(),
            i < self.h,
            old(st).rows@.len() == i,
        ensures
            idx < self.w,
            exists|hv: u64| idx == #[trigger] cell_at(hv, self.w),
            final(st).rows@ == old(st).rows@.push(idx),
            final(st).flow_key == old(st).flow_key,
            final(st).item_hashkey == old(st).item_hashkey,
            final(st).max_n == old(st).max_n,
            final(st).last_draw == old(st).last_draw,
    {
        let key = row_hash_input(st.item_hashkey, i);
        let hv = hash_one(&self.hasher, &key);
        let idx = cell_of(hv, self.w);
        st.rows.push(idx);
        idx
    }

    /// Visits the cell of row `i` recorded for the packet. If it is the
    /// flow's or free, it is counted (see `counted`) and the gap and timeout
    /// are returned; otherwise its count may decay by one, by a random draw
    /// against `decay_occ4n` at its count (`decays`); the draw is recorded in
    /// the packet's state.
    pub fn visit_cell(&mut self, st: &mut PacketState, i: usize, ts: u64) -> (r: RowStep)
        requires
            old(self).wf(),
            i < old(self).h,
            i < old(st).rows@.len(),
            old(st).rows@[i as int] < old(self).w,
            cell_matches(old(self).cell(i as int, old(st).rows@[i as int] as int), old(st).item_hashkey)
                ==> old(self).cell(i as int, old(st).rows@[i as int] as int).n < u32::MAX,
        ensures
            final(self).wf(),
            final(self).same_settings(&*old(self)),
            final(self).efp_counter@ == old(self).efp_counter@,
            final(self).non_target@ == old(self).non_target@,
            final(st).flow_key == old(st).flow_key,
            final(st).item_hashkey == old(st).item_hashkey,
            final(st).max_n == old(st).max_n,
            final(st).rows@ == old(st).rows@,
            ({
                let j = old(st).rows@[i as int] as int;
                let c = old(self).cell(i as int, j);
                let hk = old(st).item_hashkey;
                if cell_matches(c, hk) {
                    &&& r == RowStep::Matched { tau: gap_since(c, ts), last_delta: c.last_delta }
                    &&& grid_set(old(self).hash_counter@, final(self).hash_counter@, i as int, j, counted(c, hk, ts))
                    &&& final(st).last_draw == old(st).last_draw
                } else {
                    let n2 = decayed_count(c.n, final(st).last_draw, threshold_at(old(self).decay_occ4n@, c.n as int));
                    &&& r == RowStep::Decayed
                    &&& grid_set(old(self).hash_counter@, final(self).hash_counter@, i as int, j, Item { n: n2, ..c })
                    &&& n2 as int == (if final(st).last_draw < threshold_at(old(self).decay_occ4n@, c.n as int) && c.n > 0 {
                        c.n - 1
                    } else {
                        c.n as int
                    })
                }
            }),
    {
        let idx = st.rows[i];
        let c = self.hash_counter[i][idx];
        if c.hashkey == st.item_hashkey || c.n == 0 {
            let mut tau: u64 = 0;
            let mut d = c.d;
            if c.last_ts != 0 {
                tau = ts.saturating_sub(c.last_ts);
                d = c.d.saturating_add(seconds_of_millis(tau));
            }
            let c2 = Item { hashkey: st.item_hashkey, n: c.n + 1, d, last_delta: c.last_delta, last_ts: c.last_ts };
            assert(c2 == counted(c, st.item_hashkey, ts));
            self.set_cell(i, idx, c2);
            RowStep::Matched { tau, last_delta: c.last_delta }
        } else {
            let threshold = decay_threshold(&self.decay_occ4n, c.n as usize);
            let draw = random_u32(&mut self.random);
            st.last_draw = draw;
            let mut n2 = c.n;
            if decays(draw, threshold) {
                n2 = c.n.saturating_sub(1);
            }
            self.set_cell(i, idx, Item { n: n2, ..c });
            RowStep::Decayed
        }
    }

    /// Sets the cell in row `i`, position `j`.
    fn set_cell(&mut self, i: usize, j: usize, c: Item)
        requires
            old(self).grid_ok(),
            i < old(self).h,
            j < old(self).w,
        ensures
            final(self).grid_ok(),
            final(self).same_settings(&*old(self)),
            final(self).efp_counter == old(self).efp_counter,
            final(self).non_target == old(self).non_target,
            grid_set(old(self).hash_counter@, final(self).hash_counter@, i as int, j as int, c),
    {
        self.hash_counter[i][j] = c;
    }

    /// Empties, in each row `a`, the cell `rows[a]`.
    fn reset_rows(&mut self, rows: &Vec<usize>)
        requires
            old(self).grid_ok(),
            rows@.len() == old(self).h,
            forall|a: int| 0 <= a < old(self).h ==> #[trigger] rows@[a] < old(self).w,
        ensures
            final(self).grid_ok(),
            final(self).same_settings(&*old(self)),
            final(self).efp_counter == old(self).efp_counter,
            final(self).non_target == old(self).non_target,
            grid_reset_rows(old(self).hash_counter@, final(self).hash_counter@, rows@, old(self).default_delta),
    {
        let ghost g = self.hash_counter@;
        let mut i: usize = 0;
        while i < self.h
            invariant
                i <= self.h,
                self.grid_ok(),
                self.same_settings(&*old(self)),
                self.efp_counter == old(self).efp_counter,
                self.non_target == old(self).non_target,
                g == old(self).hash_counter@,
                rows@.len() == self.h,
                forall|a: int| 0 <= a < self.h ==> #[trigger] rows@[a] < self.w,
                forall|a: int| 0 <= a < self.h ==> #[trigger] self.hash_counter@[a]@ == (if a < i {
                    g[a]@.update(rows@[a] as int, empty_item(self.default_delta))
                } else {
                    g[a]@
                }),
            decreases self.h - i,
        {
            let d = Item::default(self.default_delta);
            self.set_cell(i, rows[i], d);
            i = i + 1;
        }
    }

    /// Settles the matched cell of row `i` once the caller knows whether the
    /// flow timed out there. A flow that timed out and is no mouse (count
    /// above `mouse_length`) stops being sampled: it is recorded with the
    /// cell's count and duration, its cell is emptied, it leaves the
    /// candidates, and the packet is done (`true`). Otherwise the cell's
    /// timeout may decay by a second, by a random draw against
    /// `decay_occ4delta` at its duration (`decays`; the draw is recorded in
    /// the packet's state), its last timestamp becomes `ts`, and
    /// the packet's largest count takes in the cell's count (`false`).
    pub fn settle_cell(&mut self, st: &mut PacketState, i: usize, ts: u64, timed_out: bool) -> (done: bool)
        requires
            old(self).wf(),
            i < old(self).h,
            i < old(st).rows@.len(),
            old(st).rows@[i as int] < old(self).w,
            !old(self).non_target@.contains_key(old(st).flow_key@),
        ensures
            final(self).wf(),
            final(self).same_settings(&*old(self)),
            ({
                let j = old(st).rows@[i as int] as int;
                let c = old(self).cell(i as int, j);
                &&& done == (timed_out && c.n > old(self).mouse_length)
                &&& done ==> {
                    &&& final(self).non_target@ == old(self).non_target@.insert(old(st).flow_key@, (c.n, c.d, true))
                    &&& final(self).efp_counter@ == old(self).efp_counter@.remove(old(st).flow_key@)
                    &&& grid_set(old(self).hash_counter@, final(self).hash_counter@, i as int, j, empty_item(old(self).default_delta))
                    &&& final(st).max_n == old(st).max_n
                    &&& final(st).last_draw == old(st).last_draw
                }
                &&& !done ==> {
                    let ld = decayed_delta(c.last_delta, final(st).last_draw, threshold_at(old(self).decay_occ4delta@, c.d as int));
                    &&& final(self).non_target@ == old(self).non_target@
                    &&& final(self).efp_counter@ == old(self).efp_counter@
                    &&& grid_set(old(self).hash_counter@, final(self).hash_counter@, i as int, j, Item { last_delta: ld, last_ts: ts, ..c })
                    &&& ld as int == (if final(st).last_draw < threshold_at(old(self).decay_occ4delta@, c.d as int) {
                        if c.last_delta >= 1000 { c.last_delta - 1000 } else { 0 }
                    } else {
                        c.last_delta as int
                    })
                    &&& final(st).max_n == (if c.n > old(st).max_n { c.n } else { old(st).max_n })
                }
            }),
            final(st).flow_key == old(st).flow_key,
            final(st).item_hashkey == old(st).item_hashkey,
            final(st).rows@ == old(st).rows@,
            keeps_excluded(old(self).non_target@, final(self).non_target@),
    {
        let idx = st.rows[i];
        let c = self.hash_counter[i][idx];
        if timed_out && c.n > self.mouse_length {
            let d = Item::default(self.default_delta);
            self.set_cell(i, idx, d);
            self.non_target.insert(st.flow_key.clone(), (c.n, c.d, true));
            self.efp_counter.remove(st.flow_key.as_str());
            proof {
                let e = self.efp_counter@;
                let ghost oe = old(self).efp_counter@;
                assert(e.dom() =~= oe.dom().remove(st.flow_key@));
                assert(e.dom().len() <= oe.dom().len()) by {
                    vstd::set_lib::lemma_len_subset(e.dom(), oe.dom());
                }
            }
            true
        } else {
            let threshold = decay_threshold(&self.decay_occ4delta, c.d as usize);
            let draw = random_u32(&mut self.random);
            st.last_draw = draw;
            let mut ld = c.last_delta;
            if decays(draw, threshold) {
                ld = c.last_delta.saturating_sub(1000);
            }
            self.set_cell(i, idx, Item { last_delta: ld, last_ts: ts, ..c });
            if c.n > st.max_n {
                st.max_n = c.n;
            }
            false
        }
    }

    /// What finishing a packet does to the candidates, the excluded flows and
    /// the sketch, from `self` to `new`. If the candidates are full and the
    /// packet's largest count is below their least, nothing. If the flow is a
    /// candidate whose count is above `elephant_length`, every candidate above
    /// it leaves the candidates and is excluded with its count, duration 0 and
    /// not timed out, and the flow's cells are emptied. If it is a candidate
    /// otherwise, its count becomes the packet's largest count. If it is not a
    /// candidate, it becomes one with that count, in place of a candidate of
    /// least count when the candidates are full.
    pub open spec fn finished(&self, new: &Sampler, st: &PacketState) -> bool {
        finish_rel(
            self.efp_counter@,
            self.non_target@,
            grid_view(self.hash_counter@),
            self.k,
            self.elephant_length,
            self.default_delta,
            st.flow_key@,
            st.max_n,
            st.rows@,
            new.efp_counter@,
            new.non_target@,
            grid_view(new.hash_counter@),
        )
    }

    /// Finishes a packet whose every row was visited and settled without the
    /// flow timing out: updates the candidates as `finished` says.
    pub fn finish_packet(&mut self, st: &PacketState)
        requires
            old(self).wf(),
            st.rows@.len() == old(self).h,
            forall|a: int| 0 <= a < old(self).h ==> #[trigger] st.rows@[a] < old(self).w,
            !old(self).non_target@.contains_key(st.flow_key@),
        ensures
            final(self).wf(),
            final(self).same_settings(&*old(self)),
            old(self).finished(&*final(self), st),
            keeps_excluded(old(self).non_target@, final(self).non_target@),
    {
        let ghost e = self.efp_counter@;
        let ghost fk = st.flow_key@;
        let efp_len = self.efp_counter.len();
        let efp_not_full = efp_len < self.k;
        let cur_efp_min = self.efp_counter.peek();
        proof {
            lemma_least_count_unique(e, cur_efp_min);
        }
        if st.max_n < cur_efp_min && !efp_not_full {
            return;
        }
        let found = match self.efp_counter.get(st.flow_key.as_str()) {
            Some(m) => Some(*m),
            None => None,
        };
        if let Some(m) = found {
            if m > self.elephant_length {
                let limit = self.elephant_length;
                let gc_list = self.efp_counter.gc(&limit);
                let ghost am = above_limit(e, limit);
                let ghost nt0 = self.non_target@;
                let ghost g0 = self.hash_counter@;
                proof {
                    assert(am.contains_key(fk));
                    assert(keys_of(gc_list@).contains(fk));
                }
                let mut j: usize = 0;
                while j < gc_list.len()
                    invariant
                        j <= gc_list@.len(),
                        lists_map(gc_list@, am),
                        am == above_limit(e, limit),
                        self.grid_ok(),
                        self.same_settings(&*old(self)),
                        self.efp_counter.wf(),
                        self.non_target.wf(),
                        self.efp_counter@ == within_limit(e, limit),
                        limit == self.elephant_length,
                        st.rows@.len() == self.h,
                        forall|a: int| 0 <= a < self.h ==> #[trigger] st.rows@[a] < self.w,
                        g0 == old(self).hash_counter@,
                        g0.len() == self.h,
                        forall|a: int| 0 <= a < self.h ==> (#[trigger] g0[a])@.len() == self.w,
                        j == 0 ==> self.hash_counter@ == g0,
                        j > 0 ==> grid_reset_rows(g0, self.hash_counter@, st.rows@, self.default_delta),
                        forall|key: Seq<char>| #[trigger] self.non_target@.contains_key(key) <==> (nt0.contains_key(key)
                            || exists|a: int| 0 <= a < j && gc_list@[a].0@ == key),
                        forall|key: Seq<char>| #[trigger] nt0.contains_key(key) ==> self.non_target@[key] == nt0[key],
                        forall|a: int| 0 <= a < j ==> #[trigger] self.non_target@[gc_list@[a].0@] == (gc_list@[a].1, 0u16, false),
                        forall|key: Seq<char>| #[trigger] am.contains_key(key) ==> !nt0.contains_key(key),
                    decreases gc_list@.len() - j,
                {
                    let entry = &gc_list[j];
                    let ghost before = self.non_target@;
                    proof {
                        assert(keys_of(gc_list@)[j as int] == entry.0@);
                        assert(am.contains_key(entry.0@));
                        assert(e[entry.0@].0 > limit);
                    }
                    self.non_target.insert(entry.0.clone(), (entry.1, 0, false));
                    self.efp_counter.remove(entry.0.as_str());
                    proof {
                        assert(e[entry.0@].0 > limit);
                        assert(!within_limit(e, limit).contains_key(entry.0@));
                        assert(self.efp_counter@ =~= within_limit(e, limit));
                    }
                    self.reset_rows(&st.rows);
                    proof {
                        if j > 0 {
                            assert forall|a: int| 0 <= a < g0.len() implies #[trigger] self.hash_counter@[a]@ == g0[a]@.update(st.rows@[a] as int, empty_item(self.default_delta)) by {
                                assert(self.hash_counter@[a]@ =~= g0[a]@.update(st.rows@[a] as int, empty_item(self.default_delta)));
                            }
                        }
                        assert forall|key: Seq<char>| #[trigger] self.non_target@.contains_key(key) <==> (nt0.contains_key(key)
                            || exists|a: int| 0 <= a < j + 1 && gc_list@[a].0@ == key) by {
                            if key == entry.0@ {
                                assert(gc_list@[j as int].0@ == key);
                            }
                        }
                        assert forall|a: int| 0 <= a < j + 1 implies #[trigger] self.non_target@[gc_list@[a].0@] == (gc_list@[a].1, 0u16, false) by {
                            if a < j {
                                assert(keys_of(gc_list@)[a] != keys_of(gc_list@)[j as int]);
                            }
                        }
                    }
                    j = j + 1;
                }
                proof {
                    let nt = self.non_target@;
                    let want = nt0.union_prefer_right(gc_marks(am));
                    assert forall|key: Seq<char>| nt.contains_key(key) <==> want.contains_key(key) by {
                        if nt.contains_key(key) && !nt0.contains_key(key) {
                            let a = choose|a: int| 0 <= a < gc_list@.len() && gc_list@[a].0@ == key;
                            assert(keys_of(gc_list@)[a] == key);
                        }
                        if am.contains_key(key) {
                            assert(keys_of(gc_list@).contains(key));
                            let a = choose|a: int| 0 <= a < gc_list@.len() && keys_of(gc_list@)[a] == key;
                            assert(gc_list@[a].0@ == key);
                        }
                    }
                    assert forall|key: Seq<char>| #[trigger] want.contains_key(key) implies nt[key] == want[key] by {
                        if am.contains_key(key) {
                            assert(keys_of(gc_list@).contains(key));
                            let a = choose|a: int| 0 <= a < gc_list@.len() && keys_of(gc_list@)[a] == key;
                            assert(gc_list@[a].0@ == key);
                            assert(gc_list@.map_values(|e: (String, u32)| e.1)[a] == gc_list@[a].1);
                        }
                    }
                    assert(nt =~= want);
                    assert(grid_view(self.hash_counter@) =~= reset_view(grid_view(g0), st.rows@, self.default_delta));
                    let ne = self.efp_counter@;
                    assert(ne.dom().subset_of(e.dom()));
                    vstd::set_lib::lemma_len_subset(ne.dom(), e.dom());
                }
                return;
            } else {
                self.efp_counter.update(Node { flow_key: st.flow_key.clone(), m: st.max_n, to: false });
                proof {
                    assert(self.efp_counter@.dom() =~= e.dom());
                }
            }
        } else if efp_not_full || st.max_n >= cur_efp_min {
            if self.efp_counter.len() >= self.k {
                self.efp_counter.pop();
                proof {
                    assert(e.dom() != Set::<Seq<char>>::empty()) by {
                        assert(e.dom().len() > 0);
                    }
                    let k0 = choose|k0: Seq<char>| {
                        &&& #[trigger] e.contains_key(k0)
                        &&& forall|j: Seq<char>| #[trigger] e.contains_key(j) ==> e[k0].0 <= e[j].0
                        &&& self.efp_counter@ == e.remove(k0)
                    };
                    assert(is_least_count(e, e[k0].0)) by {
                        assert(e.contains_key(k0));
                    }
                    lemma_least_count_unique(e, e[k0].0);
                }
            }
            let ghost mid = self.efp_counter@;
            self.efp_counter.push(Node { flow_key: st.flow_key.clone(), m: st.max_n, to: false });
            proof {
                assert(self.efp_counter@.dom() =~= mid.dom().insert(fk));
                assert(!mid.dom().contains(fk));
                if efp_len >= self.k {
                    assert(mid.dom() =~= e.dom().remove(choose|k0: Seq<char>| e.contains_key(k0) && mid == e.remove(k0)));
                }
            }
        }
    }

    /// Counts a packet whose key, hash and cells are known (`st`, as
    /// `begin_packet` and `row_index` make it): visits its rows in order,
    /// asking `model` whether the flow timed out in each cell it matched,
    /// then finishes it, as `packet_run` says for some random draws and some
    /// answers of the model. While the candidates are not full, a counted
    /// packet leaves its flow a candidate or excluded.
    pub fn run_packet<M: TimeoutModel>(&mut self, st: &mut PacketState, ts: u64, model: &mut M) -> (r: PacketOutcome)
        requires
            old(self).wf(),
            old(st).rows@.len() == old(self).h,
            forall|a: int| 0 <= a < old(self).h ==> #[trigger] old(st).rows@[a] < old(self).w,
            !old(self).non_target@.contains_key(old(st).flow_key@),
            old(st).max_n == 0,
        ensures
            final(self).wf(),
            final(self).same_settings(&*old(self)),
            keeps_excluded(old(self).non_target@, final(self).non_target@),
            r != PacketOutcome::Ignored,
            exists|draws: Seq<u32>, answers: Seq<bool>|
                #[trigger] packet_run(*old(self), *final(self), old(st).flow_key@, old(st).item_hashkey, old(st).rows@, ts, draws, answers, r),
            r == PacketOutcome::TimedOut ==> {
                &&& final(self).non_target@.contains_key(old(st).flow_key@)
                &&& !final(self).efp_counter@.contains_key(old(st).flow_key@)
            },
            (r == PacketOutcome::Counted && old(self).efp_counter@.dom().len() < old(self).k)
                ==> (final(self).efp_counter@.contains_key(old(st).flow_key@) || final(self).non_target@.contains_key(old(st).flow_key@)),
    {
        let ghost s0 = *self;
        let ghost fk = st.flow_key@;
        let ghost hk = st.item_hashkey;
        let ghost rows = st.rows@;
        let ghost mut draws: Seq<u32> = Seq::empty();
        let ghost mut answers: Seq<bool> = Seq::empty();
        let mut i: usize = 0;
        while i < self.h
            invariant
                s0 == *old(self),
                fk == old(st).flow_key@,
                hk == old(st).item_hashkey,
                rows == old(st).rows@,
                s0.wf(),
                i <= self.h,
                self.wf(),
                self.same_settings(&s0),
                self.efp_counter@ == s0.efp_counter@,
                self.non_target@ == s0.non_target@,
                st.flow_key@ == fk,
                st.item_hashkey == hk,
                st.rows@ == rows,
                rows.len() == s0.h,
                forall|a: int| 0 <= a < s0.h ==> #[trigger] rows[a] < s0.w,
                !s0.non_target@.contains_key(fk),
                draws.len() == i,
                answers.len() == i,
                grid_view(self.hash_counter@) == grid_after(s0, rows, hk, ts, draws, i as int),
                st.max_n == max_matched(s0, rows, hk, ts, i as nat),
                forall|a: int| 0 <= a < i ==> #[trigger] goes_on(s0, rows, hk, ts, answers, a),
            decreases self.h - i,
        {
            let idx = st.rows[i];
            let c = self.hash_counter[i][idx];
            proof {
                assert(grid_view(self.hash_counter@)[i as int] == self.hash_counter@[i as int]@);
                assert(c == visited_cell(s0, rows, i as int));
            }
            if (c.hashkey == st.item_hashkey || c.n == 0) && c.n == u32::MAX {
                proof {
                    let pad = Seq::new((s0.h - i) as nat, |x: int| 0u32);
                    let padb = Seq::new((s0.h - i) as nat, |x: int| false);
                    let fd = draws + pad;
                    let fa = answers + padb;
                    assert(grid_after(s0, rows, hk, ts, fd, i as int) =~= grid_after(s0, rows, hk, ts, draws, i as int));
                    assert forall|a: int| 0 <= a < i implies #[trigger] goes_on(s0, rows, hk, ts, fa, a) by {
                        assert(fa[a] == answers[a]);
                        assert(goes_on(s0, rows, hk, ts, answers, a));
                    }
                    assert(overflows_at(s0, rows, hk, i as int));
                    assert(packet_run(s0, *self, fk, hk, rows, ts, fd, fa, PacketOutcome::CountOverflow));
                }
                return PacketOutcome::CountOverflow;
            }
            let ghost g_before = self.hash_counter@;
            match self.visit_cell(st, i, ts) {
                RowStep::Decayed => {
                    proof {
                        let nd = draws.push(st.last_draw);
                        let na = answers.push(false);
                        assert(grid_view(self.hash_counter@) =~= grid_after(s0, rows, hk, ts, nd, i + 1)) by {
                            assert forall|a: int| 0 <= a < self.hash_counter@.len() implies
                                #[trigger] grid_view(self.hash_counter@)[a] == grid_after(s0, rows, hk, ts, nd, i + 1)[a] by {
                                assert(grid_view(g_before)[a] == g_before[a]@);
                                assert(grid_after(s0, rows, hk, ts, draws, i as int)[a] == grid_view(g_before)[a]);
                            }
                        }
                        assert forall|a: int| 0 <= a < i + 1 implies #[trigger] goes_on(s0, rows, hk, ts, na, a) by {
                            if a < i {
                                assert(na[a] == answers[a]);
                                assert(goes_on(s0, rows, hk, ts, answers, a));
                            }
                        }
                        draws = nd;
                        answers = na;
                    }
                },
                RowStep::Matched { tau, last_delta } => {
                    let ghost g_mid = self.hash_counter@;
                    let timed_out = model.timed_out(tau, last_delta, self.default_delta);
                    let ghost max_before = st.max_n;
                    if self.settle_cell(st, i, ts, timed_out) {
                        proof {
                            let na = answers.push(timed_out);
                            let pad = Seq::new((s0.h - i) as nat, |x: int| 0u32);
                            let padb = Seq::new((s0.h - i - 1) as nat, |x: int| false);
                            let fd = draws + pad;
                            let fa = na + padb;
                            assert(fa[i as int] == timed_out);
                            assert(times_out_at(s0, rows, hk, ts, fa, i as int));
                            assert forall|a: int| 0 <= a < i implies #[trigger] goes_on(s0, rows, hk, ts, fa, a) by {
                                assert(fa[a] == answers[a]);
                                assert(goes_on(s0, rows, hk, ts, answers, a));
                            }
                            let want = grid_after(s0, rows, hk, ts, fd, i as int).update(
                                i as int,
                                s0.hash_counter@[i as int]@.update(rows[i as int] as int, empty_item(s0.default_delta)),
                            );
                            assert(grid_view(self.hash_counter@) =~= want) by {
                                assert forall|a: int| 0 <= a < self.hash_counter@.len() implies
                                    #[trigger] grid_view(self.hash_counter@)[a] == want[a] by {
                                    assert(grid_view(g_before)[a] == g_before[a]@);
                                    assert(grid_after(s0, rows, hk, ts, draws, i as int)[a] == grid_view(g_before)[a]);
                                    if a == i {
                                        assert(self.hash_counter@[a]@ =~= want[a]);
                                    }
                                }
                            }
                            assert(packet_run(s0, *self, fk, hk, rows, ts, fd, fa, PacketOutcome::TimedOut));
                        }
                        return PacketOutcome::TimedOut;
                    }
                    proof {
                        let nd = draws.push(st.last_draw);
                        let na = answers.push(timed_out);
                        assert(grid_view(self.hash_counter@) =~= grid_after(s0, rows, hk, ts, nd, i + 1)) by {
                            assert forall|a: int| 0 <= a < self.hash_counter@.len() implies
                                #[trigger] grid_view(self.hash_counter@)[a] == grid_after(s0, rows, hk, ts, nd, i + 1)[a] by {
                                assert(grid_view(g_before)[a] == g_before[a]@);
                                assert(grid_after(s0, rows, hk, ts, draws, i as int)[a] == grid_view(g_before)[a]);
                                if a == i {
                                    assert(self.hash_counter@[a]@ =~= grid_after(s0, rows, hk, ts, nd, i + 1)[a]);
                                }
                            }
                        }
                        assert forall|a: int| 0 <= a < i + 1 implies #[trigger] goes_on(s0, rows, hk, ts, na, a) by {
                            if a < i {
                                assert(na[a] == answers[a]);
                                assert(goes_on(s0, rows, hk, ts, answers, a));
                            }
                        }
                        draws = nd;
                        answers = na;
                    }
                },
            }
            i = i + 1;
        }
        let ghost before = *self;
        self.finish_packet(st);
        proof {
            assert(packet_run(s0, *self, fk, hk, rows, ts, draws, answers, PacketOutcome::Counted));
            if s0.efp_counter@.dom().len() < s0.k {
                lemma_finished_keeps_flow(&before, &*self, &*st);
            }
        }
        PacketOutcome::Counted
    }

    /// Handles a packet of the flow whose key is `flow_key_upstream` in the
    /// packet's direction and `flow_key_downstream` in the other, at `ts`
    /// milliseconds: `begin_packet`, `row_index` for each row, then
    /// `run_packet`, which asks `model` whether the flow timed out in each
    /// cell it matched.
    ///
    /// A packet of an excluded flow changes nothing, the model included.
    /// Otherwise the sampler changes as `packet_run` says, for the chosen
    /// key, for some hash and cells of it (the hasher's values are not
    /// stated), some random draws and some answers of the model. The
    /// sampler's invariant holds after (at most `k` candidates, none of them
    /// excluded), its settings are kept, and every excluded flow stays
    /// excluded with its record. While the candidates are not full, a packet
    /// that is counted or times out leaves its flow a candidate or excluded.
    pub fn on_pkt_received<M: TimeoutModel>(
        &mut self,
        flow_key_upstream: &str,
        flow_key_downstream: &str,
        ts: u64,
        model: &mut M,
    ) -> (r: PacketOutcome)
        requires
            old(self).wf(),
        ensures
            final(self).wf(),
            final(self).same_settings(&*old(self)),
            keeps_excluded(old(self).non_target@, final(self).non_target@),
            packet_handled(*old(self), *final(self), flow_key_upstream@, flow_key_downstream@, ts, r),
            r == PacketOutcome::Ignored ==> *final(model) == *old(model),
    {
        let mut st = match self.begin_packet(flow_key_upstream, flow_key_downstream) {
            Some(st) => st,
            None => return PacketOutcome::Ignored,
        };
        let ghost fk = st.flow_key@;
        let mut i: usize = 0;
        while i < self.h
            invariant
                i <= self.h,
                *self == *old(self),
                self.wf(),
                st.flow_key@ == fk,
                st.max_n == 0,
                st.rows@.len() == i,
                forall|a: int| 0 <= a < i ==> #[trigger] st.rows@[a] < self.w,
            decreases self.h - i,
        {
            self.row_index(&mut st, i);
            i = i + 1;
        }
        let ghost hk = st.item_hashkey;
        let ghost rows = st.rows@;
        let r = self.run_packet(&mut st, ts, model);
        proof {
            let (draws, answers) = choose|draws: Seq<u32>, answers: Seq<bool>|
                #[trigger] packet_run(*old(self), *self, fk, hk, rows, ts, draws, answers, r);
            assert(packet_run(*old(self), *self, fk, hk, rows, ts, draws, answers, r));
        }
        r
    }

    /// Handles a packet from `src_ip`:`src_port` to `dst_ip`:`dst_port`, as
    /// `on_pkt_received` with the flow's key in the packet's direction and in
    /// the other.
    pub fn on_pkt_received_raw<M: TimeoutModel>(
        &mut self,
        src_ip: &str,
        dst_ip: &str,
        src_port: &str,
        dst_port: &str,
        ts: u64,
        model: &mut M,
    ) -> (r: PacketOutcome)
        requires
            old(self).wf(),
        ensures
            final(self).wf(),
            final(self).same_settings(&*old(self)),
            keeps_excluded(old(self).non_target@, final(self).non_target@),
            packet_handled(
                *old(self),
                *final(self),
                flow_key_text(src_ip@, dst_ip@, src_port@, dst_port@),
                flow_key_text(dst_ip@, src_ip@, dst_port@, src_port@),
                ts,
                r,
            ),
            r == PacketOutcome::Ignored ==> *final(model) == *old(model),
    {
        let flow_key_upstream = flow_key(src_ip, dst_ip, src_port, dst_port);
        let flow_key_downstream = flow_key(dst_ip, src_ip, dst_port, src_port);
        self.on_pkt_received(flow_key_upstream.as_str(), flow_key_downstream.as_str(), ts, model)
    }
}

/// While the candidates are not full, finishing a packet leaves its flow a
/// candidate or excluded.
proof fn lemma_finished_keeps_flow(s: &Sampler, new: &Sampler, st: &PacketState)
    requires
        s.finished(new, st),
        s.efp_counter@.dom().len() < s.k,
    ensures
        new.efp_counter@.contains_key(st.flow_key@) || new.non_target@.contains_key(st.flow_key@),
{
    let e = s.efp_counter@;
    let fk = st.flow_key@;
    if e.contains_key(fk) && e[fk].0 > s.elephant_length {
        assert(above_limit(e, s.elephant_length).contains_key(fk));
        assert(gc_marks(above_limit(e, s.elephant_length)).contains_key(fk));
    }
}

} // verus!
