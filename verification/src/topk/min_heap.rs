//! Candidate elephant flows: a min-heap of flows by packet count.
use vstd::prelude::*;
use std::cmp::Reverse;
use priority_queue::PriorityQueue;
use crate::flow_table::{FlowTable, lists_entries, lists_map};
use crate::topk::pq::{
    pq_contents, pq_new, pq_with_capacity, pq_push, pq_peek, pq_pop, pq_remove, pq_get,
    pq_change_priority, pq_len, pq_iter,
};
use crate::util::text::{debug_string, debug_text, dec_digits, push_decimal, push_bool, bool_text};

verus! {

/// A candidate elephant flow: its key, its packet count and a flag.
#[derive(Clone, Debug, PartialEq, Eq)]
pub struct Node {
    pub flow_key: String,
    pub m: u32,
    pub to: bool,
}

/// The text that `Node::__repr__` writes; it has no closing bracket.
pub open spec fn node_repr_text(flow_key: Seq<char>, m: u32, to: bool) -> Seq<char> {
    seq!['N', 'o', 'd', 'e', '(', 'f', 'l', 'o', 'w', '_', 'k', 'e', 'y', '='] + debug_text(flow_key)
        + seq![',', ' ', 'm', '='] + dec_digits(m as nat) + seq![',', ' ', 't', 'o', '='] + bool_text(to)
}

impl Node {
    /// A node for `flow_key` with count `m`.
    pub fn new(flow_key: String, m: u32, to: bool) -> (n: Node)
        ensures
            n.flow_key == flow_key,
            n.m == m,
            n.to == to,
    {
        Node { flow_key, m, to }
    }

    /// A description of the node.
    pub fn __repr__(&self) -> (s: String)
        ensures
            s@ == node_repr_text(self.flow_key@, self.m, self.to),
    {
        proof {
            reveal_strlit("Node(flow_key=");
            reveal_strlit(", m=");
            reveal_strlit(", to=");
        }
        let mut s = String::from_str("Node(flow_key=");
        let d = debug_string(self.flow_key.as_str());
        s.append(d.as_str());
        s.append(", m=");
        push_decimal(&mut s, self.m as u64);
        s.append(", to=");
        push_bool(&mut s, self.to);
        proof {
            assert(s@ =~= node_repr_text(self.flow_key@, self.m, self.to));
        }
        s
    }
}

/// The counts of a table of candidates.
pub open spec fn counts_of(m: Map<Seq<char>, (u32, bool)>) -> Map<Seq<char>, u32> {
    Map::new(|k: Seq<char>| m.contains_key(k), |k: Seq<char>| m[k].0)
}

/// `r` is the least count in `m`, or 0 when `m` is empty.
pub open spec fn is_least_count(m: Map<Seq<char>, (u32, bool)>, r: u32) -> bool {
    if m.dom() == Set::<Seq<char>>::empty() {
        r == 0
    } else {
        &&& exists|k: Seq<char>| #[trigger] m.contains_key(k) && m[k].0 == r
        &&& forall|k: Seq<char>| #[trigger] m.contains_key(k) ==> r <= m[k].0
    }
}

/// The candidates of `m` whose count is above `limit`, with their counts.
pub open spec fn above_limit(m: Map<Seq<char>, (u32, bool)>, limit: u32) -> Map<Seq<char>, u32> {
    Map::new(|k: Seq<char>| m.contains_key(k) && m[k].0 > limit, |k: Seq<char>| m[k].0)
}

/// The candidates of `m` whose count is at most `limit`.
pub open spec fn within_limit(m: Map<Seq<char>, (u32, bool)>, limit: u32) -> Map<Seq<char>, (u32, bool)> {
    Map::new(|k: Seq<char>| m.contains_key(k) && m[k].0 <= limit, |k: Seq<char>| m[k])
}

/// A min-heap of candidate elephant flows, by count, with an index from each
/// flow key to its count and flag.
pub struct MinHeap {
    pub heap: PriorityQueue<String, Reverse<u32>>,
    pub indexer: FlowTable<(u32, bool)>,
}

impl View for MinHeap {
    type V = Map<Seq<char>, (u32, bool)>;

    open spec fn view(&self) -> Map<Seq<char>, (u32, bool)> {
        self.indexer@
    }
}

impl MinHeap {
    /// The heap and the index hold the same flows with the same counts.
    pub open spec fn wf(&self) -> bool {
        &&& self.indexer.wf()
        &&& pq_contents(self.heap) == counts_of(self.indexer@)
    }

    /// An empty heap.
    pub fn new() -> (h: Self)
        ensures
            h.wf(),
            h@ == Map::<Seq<char>, (u32, bool)>::empty(),
    {
        let h = MinHeap { heap: pq_new(), indexer: FlowTable::new() };
        proof {
            assert(counts_of(h.indexer@) =~= Map::<Seq<char>, u32>::empty());
        }
        h
    }

    /// An empty heap with room for `capacity` flows.
    pub fn with_capacity(capacity: usize) -> (h: Self)
        ensures
            h.wf(),
            h@ == Map::<Seq<char>, (u32, bool)>::empty(),
    {
        let h = MinHeap { heap: pq_with_capacity(capacity), indexer: FlowTable::new() };
        proof {
            assert(counts_of(h.indexer@) =~= Map::<Seq<char>, u32>::empty());
        }
        h
    }

    /// Adds the node's flow, or sets its count and flag if it is there.
    pub fn push(&mut self, node: Node)
        requires
            old(self).wf(),
        ensures
            final(self).wf(),
            final(self)@ == old(self)@.insert(node.flow_key@, (node.m, node.to)),
    {
        pq_push(&mut self.heap, node.flow_key.clone(), node.m);
        self.indexer.insert(node.flow_key.clone(), (node.m, node.to));
        proof {
            assert(pq_contents(self.heap) =~= counts_of(self.indexer@));
        }
    }

    /// The least count among the flows; 0 when there are none.
    pub fn peek(&self) -> (r: u32)
        requires
            self.wf(),
        ensures
            is_least_count(self@, r),
    {
        match pq_peek(&self.heap) {
            Some(v) => {
                proof {
                    assert(self@.dom() != Set::<Seq<char>>::empty()) by {
                        let k = choose|k: Seq<char>| #[trigger] pq_contents(self.heap).contains_key(k) && pq_contents(self.heap)[k] == v;
                        assert(self@.dom().contains(k));
                    }
                    assert forall|k: Seq<char>| #[trigger] self@.contains_key(k) implies v <= self@[k].0 by {
                        assert(pq_contents(self.heap).contains_key(k));
                    }
                    let k = choose|k: Seq<char>| #[trigger] pq_contents(self.heap).contains_key(k) && pq_contents(self.heap)[k] == v;
                    assert(self@.contains_key(k) && self@[k].0 == v);
                }
                v
            },
            None => {
                proof {
                    assert(self@.dom() =~= Set::<Seq<char>>::empty()) by {
                        assert forall|k: Seq<char>| !self@.dom().contains(k) by {
                            assert(!pq_contents(self.heap).dom().contains(k));
                        }
                    }
                }
                0
            },
        }
    }

    /// Removes a flow of least count; does nothing when there are none.
    pub fn pop(&mut self)
        requires
            old(self).wf(),
        ensures
            final(self).wf(),
            old(self)@.dom() == Set::<Seq<char>>::empty() ==> final(self)@ == old(self)@,
            old(self)@.dom() != Set::<Seq<char>>::empty() ==> exists|k: Seq<char>| {
                &&& #[trigger] old(self)@.contains_key(k)
                &&& forall|j: Seq<char>| #[trigger] old(self)@.contains_key(j) ==> old(self)@[k].0 <= old(self)@[j].0
                &&& final(self)@ == old(self)@.remove(k)
            },
    {
        let ghost old_view = self@;
        if let Some(node) = pq_pop(&mut self.heap) {
            pq_remove(&mut self.heap, node.0.as_str());
            self.indexer.remove(&node.0);
            proof {
                assert(pq_contents(self.heap) =~= counts_of(self.indexer@));
                assert(old_view.contains_key(node.0@));
                assert forall|j: Seq<char>| #[trigger] old_view.contains_key(j) implies old_view[node.0@].0 <= old_view[j].0 by {
                    assert(counts_of(old_view).contains_key(j));
                }
                assert(old_view.dom() != Set::<Seq<char>>::empty()) by {
                    assert(old_view.dom().contains(node.0@));
                }
            }
        } else {
            proof {
                assert(old_view.dom() =~= Set::<Seq<char>>::empty()) by {
                    assert forall|k: Seq<char>| !old_view.dom().contains(k) by {
                        assert(!counts_of(old_view).dom().contains(k));
                    }
                }
            }
        }
    }

    /// Removes the flow `flow_key`, if it is there.
    pub fn remove(&mut self, flow_key: &str)
        requires
            old(self).wf(),
        ensures
            final(self).wf(),
            final(self)@ == old(self)@.remove(flow_key@),
    {
        if pq_get(&self.heap, flow_key).is_some() {
            pq_remove(&mut self.heap, flow_key);
            self.indexer.remove(&String::from_str(flow_key));
            proof {
                assert(pq_contents(self.heap) =~= counts_of(self.indexer@));
            }
        } else {
            proof {
                assert(self@ =~= self@.remove(flow_key@));
            }
        }
    }

    /// Removes every flow whose count is above `elephant_length`, and returns
    /// them with their counts, each once, in an order the heap leaves open.
    pub fn gc(&mut self, elephant_length: &u32) -> (r: Vec<(String, u32)>)
        requires
            old(self).wf(),
        ensures
            final(self).wf(),
            lists_map(r@, above_limit(old(self)@, *elephant_length)),
            final(self)@ == within_limit(old(self)@, *elephant_length),
    {
        let ghost old_view = self@;
        let limit = *elephant_length;
        let keys_to_remove = {
            let entries = pq_iter(&self.heap);
            let selected = select_above(&entries, limit);
            proof {
                let km = selected@;
                let am = above_limit(old_view, limit);
                assert forall|a: int| 0 <= a < km.len() implies #[trigger] am.contains_key(km[a].0@)
                    && am[km[a].0@] == km[a].1 by {
                    assert(entry_above(entries@, km[a].0@, km[a].1, limit));
                    let b = choose|b: int| 0 <= b < entries@.len() && entries@[b].0@ == km[a].0@
                        && entries@[b].1 == km[a].1 && km[a].1 > limit;
                    assert(pq_contents(self.heap).contains_key(entries@[b].0@));
                }
                assert forall|k: Seq<char>| #[trigger] am.contains_key(k) implies exists|a: int| 0 <= a < km.len() && km[a].0@ == k by {
                    assert(pq_contents(self.heap).contains_key(k));
                    let b = choose|b: int| 0 <= b < entries@.len() && entries@[b].0@ == k;
                    assert(pq_contents(self.heap)[entries@[b].0@] == entries@[b].1);
                    assert(entries@[b].1 > limit);
                    assert(crate::flow_table::keys_of(km).contains(k));
                    let a = choose|a: int| 0 <= a < km.len() && crate::flow_table::keys_of(km)[a] == k;
                    assert(km[a].0@ == k);
                }
                lemma_list_covers_map(km, am);
            }
            selected
        };
        let ghost listed = keys_to_remove@;
        let mut j: usize = 0;
        while j < keys_to_remove.len()
            invariant
                j <= keys_to_remove@.len(),
                keys_to_remove@ == listed,
                self.wf(),
                self@ == old_view.remove_keys(keys_before(listed, j as int)),
            decreases keys_to_remove@.len() - j,
        {
            let key = &keys_to_remove[j].0;
            let ghost before = self@;
            pq_remove(&mut self.heap, key.as_str());
            self.indexer.remove(key);
            proof {
                assert(pq_contents(self.heap) =~= counts_of(self.indexer@));
                assert(key@ == listed[j as int].0@);
                assert(keys_before(listed, j + 1) =~= keys_before(listed, j as int).insert(key@)) by {
                    assert forall|k: Seq<char>| keys_before(listed, j + 1).contains(k) implies keys_before(listed, j as int).insert(key@).contains(k) by {
                        let a = choose|a: int| 0 <= a < j + 1 && listed[a].0@ == k;
                        if a < j {
                            assert(keys_before(listed, j as int).contains(k));
                        }
                    }
                    assert forall|k: Seq<char>| keys_before(listed, j as int).insert(key@).contains(k) implies keys_before(listed, j + 1).contains(k) by {
                        if k != key@ {
                            let a = choose|a: int| 0 <= a < j && listed[a].0@ == k;
                            assert(0 <= a < j + 1 && listed[a].0@ == k);
                        } else {
                            assert(listed[j as int].0@ == k);
                        }
                    }
                }
                assert(self@ =~= old_view.remove_keys(keys_before(listed, j + 1)));
            }
            j = j + 1;
        }
        proof {
            let w = within_limit(old_view, limit);
            let am = above_limit(old_view, limit);
            let removed = keys_before(listed, listed.len() as int);
            assert forall|k: Seq<char>| removed.contains(k) <==> am.contains_key(k) by {
                if removed.contains(k) {
                    let a = choose|a: int| 0 <= a < listed.len() && listed[a].0@ == k;
                    assert(crate::flow_table::keys_of(listed)[a] == k);
                    assert(am.contains_key(crate::flow_table::keys_of(listed)[a]));
                }
                if am.contains_key(k) {
                    assert(crate::flow_table::keys_of(listed).contains(k));
                    let a = choose|a: int| 0 <= a < listed.len() && crate::flow_table::keys_of(listed)[a] == k;
                    assert(listed[a].0@ == k);
                }
            }
            assert(self@ =~= w);
        }
        keys_to_remove
    }

    /// Sets the count and flag of the node's flow, if the flow is there.
    pub fn update(&mut self, node: Node)
        requires
            old(self).wf(),
        ensures
            final(self).wf(),
            final(self)@ == (if old(self)@.contains_key(node.flow_key@) {
                old(self)@.insert(node.flow_key@, (node.m, node.to))
            } else {
                old(self)@
            }),
    {
        if pq_get(&self.heap, node.flow_key.as_str()).is_some() {
            pq_change_priority(&mut self.heap, node.flow_key.as_str(), node.m);
            self.indexer.insert(node.flow_key.clone(), (node.m, node.to));
            proof {
                assert(pq_contents(self.heap) =~= counts_of(self.indexer@));
            }
        }
    }

    /// The count of the flow `flow_key`, if it is there.
    pub fn get(&self, flow_key: &str) -> (r: Option<&u32>)
        requires
            self.wf(),
        ensures
            r == (if self@.contains_key(flow_key@) { Some(&self@[flow_key@].0) } else { None::<&u32> }),
    {
        pq_get(&self.heap, flow_key)
    }

    /// The keys of the flows, each once, in an order the heap leaves open.
    pub fn get_efs(&self) -> (r: Vec<&String>)
        requires
            self.wf(),
        ensures
            r@.map_values(|k: &String| k@).no_duplicates(),
            r@.map_values(|k: &String| k@).to_set() == self@.dom(),
    {
        let entries = pq_iter(&self.heap);
        let mut r: Vec<&String> = Vec::new();
        let mut i: usize = 0;
        while i < entries.len()
            invariant
                i <= entries@.len(),
                r@.len() == i,
                forall|a: int| 0 <= a < i ==> #[trigger] r@[a]@ == entries@[a].0@,
            decreases entries@.len() - i,
        {
            r.push(entries[i].0);
            i = i + 1;
        }
        proof {
            let ks = r@.map_values(|k: &String| k@);
            assert forall|a: int, b: int| 0 <= a < ks.len() && 0 <= b < ks.len() && a != b implies ks[a] != ks[b] by {
                assert(ks[a] == entries@[a].0@);
                assert(ks[b] == entries@[b].0@);
            }
            assert forall|k: Seq<char>| ks.to_set().contains(k) <==> self@.dom().contains(k) by {
                if ks.to_set().contains(k) {
                    let a = choose|a: int| 0 <= a < ks.len() && ks[a] == k;
                    assert(pq_contents(self.heap).contains_key(entries@[a].0@));
                }
                if self@.dom().contains(k) {
                    assert(pq_contents(self.heap).contains_key(k));
                    let b = choose|b: int| 0 <= b < entries@.len() && entries@[b].0@ == k;
                    assert(ks[b] == k);
                }
            }
            assert(ks.to_set() =~= self@.dom());
        }
        r
    }

    /// Each flow with its count and flag, each once, in an order the index leaves open.
    pub fn get_efs_detailed(&self) -> (r: Vec<(&String, u32, bool)>)
        requires
            self.wf(),
        ensures
            lists_entries(
                r@.map_values(|e: (&String, u32, bool)| e.0@),
                r@.map_values(|e: (&String, u32, bool)| (e.1, e.2)),
                self@,
            ),
    {
        let pairs = self.indexer.pairs();
        let mut r: Vec<(&String, u32, bool)> = Vec::new();
        let mut i: usize = 0;
        while i < pairs.len()
            invariant
                i <= pairs@.len(),
                r@.len() == i,
                forall|a: int| 0 <= a < i ==> #[trigger] r@[a].0@ == pairs@[a].0@,
                forall|a: int| 0 <= a < i ==> (#[trigger] r@[a].1, r@[a].2) == pairs@[a].1,
            decreases pairs@.len() - i,
        {
            let (k, v) = pairs[i];
            r.push((k, v.0, v.1));
            i = i + 1;
        }
        proof {
            assert(r@.map_values(|e: (&String, u32, bool)| e.0@) =~= pairs@.map_values(|e: (&String, (u32, bool))| e.0@));
            assert(r@.map_values(|e: (&String, u32, bool)| (e.1, e.2)) =~= pairs@.map_values(|e: (&String, (u32, bool))| e.1));
        }
        r
    }

    /// A node for each flow, each once, in an order the index leaves open.
    pub fn get_all_nodes(&self) -> (r: Vec<Node>)
        requires
            self.wf(),
        ensures
            lists_entries(
                r@.map_values(|n: Node| n.flow_key@),
                r@.map_values(|n: Node| (n.m, n.to)),
                self@,
            ),
    {
        let pairs = self.indexer.pairs();
        let mut r: Vec<Node> = Vec::new();
        let mut i: usize = 0;
        while i < pairs.len()
            invariant
                i <= pairs@.len(),
                r@.len() == i,
                forall|a: int| 0 <= a < i ==> #[trigger] r@[a].flow_key@ == pairs@[a].0@,
                forall|a: int| 0 <= a < i ==> (#[trigger] r@[a].m, r@[a].to) == pairs@[a].1,
            decreases pairs@.len() - i,
        {
            let (k, v) = pairs[i];
            r.push(Node { flow_key: k.clone(), m: v.0, to: v.1 });
            i = i + 1;
        }
        proof {
            assert(r@.map_values(|n: Node| n.flow_key@) =~= pairs@.map_values(|e: (&String, (u32, bool))| e.0@));
            assert(r@.map_values(|n: Node| (n.m, n.to)) =~= pairs@.map_values(|e: (&String, (u32, bool))| e.1));
        }
        r
    }

    /// The number of flows.
    pub fn len(&self) -> (n: usize)
        requires
            self.wf(),
        ensures
            self@.dom().finite(),
            n == self@.dom().len(),
    {
        proof {
            assert(pq_contents(self.heap).dom() == self@.dom());
        }
        pq_len(&self.heap)
    }
}

/// The keys of the first `j` entries of a list.
pub open spec fn keys_before(s: Seq<(String, u32)>, j: int) -> Set<Seq<char>> {
    Set::new(|k: Seq<char>| exists|a: int| 0 <= a < j && s[a].0@ == k)
}

/// Some entry of `entries` has key `k` and count `m`, and `m` is above `limit`.
pub open spec fn entry_above(entries: Seq<(&String, u32)>, k: Seq<char>, m: u32, limit: u32) -> bool {
    exists|b: int| 0 <= b < entries.len() && entries[b].0@ == k && entries[b].1 == m && m > limit
}

/// The entries of `entries` whose count is above `limit`, with owned keys, in the same order.
fn select_above(entries: &Vec<(&String, u32)>, limit: u32) -> (r: Vec<(String, u32)>)
    requires
        forall|a: int, b: int| 0 <= a < entries@.len() && 0 <= b < entries@.len() && a != b ==> #[trigger] entries@[a].0@ != #[trigger] entries@[b].0@,
    ensures
        forall|a: int| 0 <= a < r@.len() ==> #[trigger] entry_above(entries@, r@[a].0@, r@[a].1, limit),
        forall|a: int, b: int| 0 <= a < r@.len() && 0 <= b < r@.len() && a != b ==> #[trigger] r@[a].0@ != #[trigger] r@[b].0@,
        forall|b: int| 0 <= b < entries@.len() && #[trigger] entries@[b].1 > limit ==> crate::flow_table::keys_of(r@).contains(entries@[b].0@),
{
    let mut r: Vec<(String, u32)> = Vec::new();
    let ghost mut origin: Seq<int> = Seq::empty();
    let mut i: usize = 0;
    while i < entries.len()
        invariant
            i <= entries@.len(),
            forall|a: int, b: int| 0 <= a < entries@.len() && 0 <= b < entries@.len() && a != b ==> #[trigger] entries@[a].0@ != #[trigger] entries@[b].0@,
            origin.len() == r@.len(),
            forall|a: int| 0 <= a < r@.len() ==> 0 <= #[trigger] origin[a] < i,
            forall|a: int, c: int| 0 <= a < c < r@.len() ==> #[trigger] origin[a] < #[trigger] origin[c],
            forall|a: int| 0 <= a < r@.len() ==> #[trigger] entries@[origin[a]].0@ == r@[a].0@
                && entries@[origin[a]].1 == r@[a].1 && entries@[origin[a]].1 > limit,
            forall|b: int| 0 <= b < i && #[trigger] entries@[b].1 > limit ==> crate::flow_table::keys_of(r@).contains(entries@[b].0@),
        decreases entries@.len() - i,
    {
        let e = entries[i];
        if e.1 > limit {
            let ghost before = r@;
            r.push((e.0.clone(), e.1));
            proof {
                origin = origin.push(i as int);
                assert forall|b: int| 0 <= b < i + 1 && #[trigger] entries@[b].1 > limit implies crate::flow_table::keys_of(r@).contains(entries@[b].0@) by {
                    if b < i {
                        let a = choose|a: int| 0 <= a < before.len() && crate::flow_table::keys_of(before)[a] == entries@[b].0@;
                        assert(r@[a] == before[a]);
                        assert(crate::flow_table::keys_of(r@)[a] == entries@[b].0@);
                    } else {
                        assert(crate::flow_table::keys_of(r@)[before.len() as int] == entries@[b].0@);
                    }
                }
                assert forall|a: int| 0 <= a < r@.len() implies #[trigger] entries@[origin[a]].0@ == r@[a].0@
                    && entries@[origin[a]].1 == r@[a].1 && entries@[origin[a]].1 > limit by {
                    if a < before.len() {
                        assert(r@[a] == before[a]);
                    }
                }
            }
        }
        i = i + 1;
    }
    proof {
        assert forall|a: int, b: int| 0 <= a < r@.len() && 0 <= b < r@.len() && a != b implies #[trigger] r@[a].0@ != #[trigger] r@[b].0@ by {
            if a < b {
                assert(origin[a] < origin[b]);
            } else {
                assert(origin[b] < origin[a]);
            }
            assert(entries@[origin[a]].0@ != entries@[origin[b]].0@);
        }
        assert forall|a: int| 0 <= a < r@.len() implies #[trigger] entry_above(entries@, r@[a].0@, r@[a].1, limit) by {
            let b = origin[a];
            assert(entries@[b].0@ == r@[a].0@);
        }
    }
    r
}

/// A list with distinct keys, each entry a pair of `m`, and each key of `m`
/// carried by some entry, lists `m`.
proof fn lemma_list_covers_map(s: Seq<(String, u32)>, m: Map<Seq<char>, u32>)
    requires
        forall|a: int| 0 <= a < s.len() ==> #[trigger] m.contains_key(s[a].0@) && m[s[a].0@] == s[a].1,
        forall|a: int, b: int| 0 <= a < s.len() && 0 <= b < s.len() && a != b ==> #[trigger] s[a].0@ != #[trigger] s[b].0@,
        forall|k: Seq<char>| #[trigger] m.contains_key(k) ==> exists|a: int| 0 <= a < s.len() && s[a].0@ == k,
    ensures
        lists_map(s, m),
{
    let ks = crate::flow_table::keys_of(s);
    assert forall|a: int, b: int| 0 <= a < ks.len() && 0 <= b < ks.len() && a != b implies ks[a] != ks[b] by {
        assert(ks[a] == s[a].0@);
        assert(ks[b] == s[b].0@);
    }
    assert(m.dom() =~= ks.to_set()) by {
        assert forall|k: Seq<char>| m.dom().contains(k) <==> ks.to_set().contains(k) by {
            if m.dom().contains(k) {
                let a = choose|a: int| 0 <= a < s.len() && s[a].0@ == k;
                assert(ks[a] == k);
            }
            if ks.to_set().contains(k) {
                let a = choose|a: int| 0 <= a < ks.len() && ks[a] == k;
                assert(m.contains_key(s[a].0@));
            }
        }
    }
    ks.unique_seq_to_set();
    assert forall|k: Seq<char>| #[trigger] m.contains_key(k) implies ks.contains(k) by {
        let a = choose|a: int| 0 <= a < s.len() && s[a].0@ == k;
        assert(ks[a] == k);
    }
}

} // verus!
