//! The non-empty cells of the sketch, ranked by count: largest first, and in
//! row-major order among equal counts.
use vstd::prelude::*;
use crate::topk::small_flow_sampling::{Item, Sampler};

verus! {

broadcast use vstd::seq_lib::group_to_multiset_ensures;

/// A cell with its row and position.
pub type PlacedItem = (Item, usize, usize);

/// Cell position `a` comes before `b` in row-major order.
pub open spec fn pos_before(a: PlacedItem, b: PlacedItem) -> bool {
    a.1 < b.1 || (a.1 == b.1 && a.2 < b.2)
}

/// `x` ranks before `y`: a larger count, or an equal count and an earlier position.
pub open spec fn ranks_before(x: PlacedItem, y: PlacedItem) -> bool {
    x.0.n > y.0.n || (x.0.n == y.0.n && pos_before(x, y))
}

/// Each cell of `s` ranks before every later one.
pub open spec fn ranked(s: Seq<PlacedItem>) -> bool {
    forall|a: int, b: int| 0 <= a < b < s.len() ==> #[trigger] ranks_before(s[a], s[b])
}

/// Each cell of `s` comes before every later one in row-major order.
pub open spec fn row_major(s: Seq<PlacedItem>) -> bool {
    forall|a: int, b: int| 0 <= a < b < s.len() ==> #[trigger] pos_before(s[a], s[b])
}

/// Every cell of `l` is at another position than every cell of `r`.
pub open spec fn apart(l: Seq<PlacedItem>, r: Seq<PlacedItem>) -> bool {
    forall|a: int, b: int| 0 <= a < l.len() && 0 <= b < r.len() ==> (#[trigger] l[a].1, l[a].2) != (#[trigger] r[b].1, r[b].2)
}

proof fn lemma_ranks_before_trans(x: PlacedItem, y: PlacedItem, z: PlacedItem)
    requires
        ranks_before(x, y),
        ranks_before(y, z),
    ensures
        ranks_before(x, z),
{
}

/// Merges two ranked lists whose cells are at distinct positions.
fn merge(left: &Vec<PlacedItem>, right: &Vec<PlacedItem>) -> (r: Vec<PlacedItem>)
    requires
        ranked(left@),
        ranked(right@),
        apart(left@, right@),
    ensures
        ranked(r@),
        r@.to_multiset() == left@.to_multiset().add(right@.to_multiset()),
{
    let mut r: Vec<PlacedItem> = Vec::new();
    let mut i: usize = 0;
    let mut j: usize = 0;
    while i < left.len() || j < right.len()
        invariant
            i <= left@.len(),
            j <= right@.len(),
            ranked(left@),
            ranked(right@),
            apart(left@, right@),
            ranked(r@),
            r@.to_multiset() == left@.subrange(0, i as int).to_multiset().add(right@.subrange(0, j as int).to_multiset()),
            forall|c: int, a: int| 0 <= c < r@.len() && i <= a < left@.len() ==> #[trigger] ranks_before(r@[c], left@[a]),
            forall|c: int, b: int| 0 <= c < r@.len() && j <= b < right@.len() ==> #[trigger] ranks_before(r@[c], right@[b]),
        decreases left@.len() + right@.len() - i - j,
    {
        let take_left = if i < left.len() && j < right.len() {
            let x = left[i];
            let y = right[j];
            x.0.n > y.0.n || (x.0.n == y.0.n && (x.1 < y.1 || (x.1 == y.1 && x.2 < y.2)))
        } else {
            i < left.len()
        };
        let ghost old_r = r@;
        if take_left {
            let x = left[i];
            r.push(x);
            proof {
                assert(left@.subrange(0, i + 1) =~= left@.subrange(0, i as int).push(x));
                vstd::seq_lib::lemma_multiset_commutative(old_r, seq![x]);
                assert forall|c: int, a: int| 0 <= c < r@.len() && i + 1 <= a < left@.len() implies #[trigger] ranks_before(r@[c], left@[a]) by {
                    if c < old_r.len() {
                        assert(r@[c] == old_r[c]);
                    } else {
                        assert(ranks_before(left@[i as int], left@[a]));
                    }
                }
                assert forall|c: int, b: int| 0 <= c < r@.len() && j <= b < right@.len() implies #[trigger] ranks_before(r@[c], right@[b]) by {
                    if c < old_r.len() {
                        assert(r@[c] == old_r[c]);
                    } else {
                        assert(ranks_before(x, right@[j as int]));
                        if b > j {
                            assert(ranks_before(right@[j as int], right@[b]));
                            lemma_ranks_before_trans(x, right@[j as int], right@[b]);
                        }
                    }
                }
                assert forall|a: int, b: int| 0 <= a < b < r@.len() implies #[trigger] ranks_before(r@[a], r@[b]) by {
                    if b < old_r.len() {
                        assert(r@[a] == old_r[a] && r@[b] == old_r[b]);
                    } else {
                        assert(r@[a] == old_r[a]);
                        assert(ranks_before(old_r[a], left@[i as int]));
                    }
                }
            }
            i = i + 1;
        } else {
            let y = right[j];
            r.push(y);
            proof {
                assert(right@.subrange(0, j + 1) =~= right@.subrange(0, j as int).push(y));
                if i < left.len() {
                    assert((left@[i as int].1, left@[i as int].2) != (right@[j as int].1, right@[j as int].2));
                    assert(ranks_before(y, left@[i as int]));
                }
                assert forall|c: int, a: int| 0 <= c < r@.len() && i <= a < left@.len() implies #[trigger] ranks_before(r@[c], left@[a]) by {
                    if c < old_r.len() {
                        assert(r@[c] == old_r[c]);
                    } else {
                        assert(ranks_before(y, left@[i as int]));
                        if a > i {
                            assert(ranks_before(left@[i as int], left@[a]));
                            lemma_ranks_before_trans(y, left@[i as int], left@[a]);
                        }
                    }
                }
                assert forall|c: int, b: int| 0 <= c < r@.len() && j + 1 <= b < right@.len() implies #[trigger] ranks_before(r@[c], right@[b]) by {
                    if c < old_r.len() {
                        assert(r@[c] == old_r[c]);
                    } else {
                        assert(ranks_before(right@[j as int], right@[b]));
                    }
                }
                assert forall|a: int, b: int| 0 <= a < b < r@.len() implies #[trigger] ranks_before(r@[a], r@[b]) by {
                    if b < old_r.len() {
                        assert(r@[a] == old_r[a] && r@[b] == old_r[b]);
                    } else {
                        assert(r@[a] == old_r[a]);
                        assert(ranks_before(old_r[a], right@[j as int]));
                    }
                }
            }
            j = j + 1;
        }
    }
    proof {
        assert(left@.subrange(0, left@.len() as int) =~= left@);
        assert(right@.subrange(0, right@.len() as int) =~= right@);
    }
    r
}

/// The cells `v[lo..hi]` ranked.
fn rank_range(v: &Vec<PlacedItem>, lo: usize, hi: usize) -> (r: Vec<PlacedItem>)
    requires
        lo <= hi <= v@.len(),
        forall|a: int, b: int| 0 <= a < b < v@.len() ==> #[trigger] pos_before(v@[a], v@[b]),
    ensures
        ranked(r@),
        r@.to_multiset() == v@.subrange(lo as int, hi as int).to_multiset(),
    decreases hi - lo,
{
    if hi - lo <= 1 {
        let mut r: Vec<PlacedItem> = Vec::new();
        if hi > lo {
            r.push(v[lo]);
        }
        proof {
            assert(r@ =~= v@.subrange(lo as int, hi as int));
        }
        r
    } else {
        let mid = lo + (hi - lo) / 2;
        let l = rank_range(v, lo, mid);
        let r = rank_range(v, mid, hi);
        proof {
            assert forall|a: int, b: int| 0 <= a < l@.len() && 0 <= b < r@.len() implies (#[trigger] l@[a].1, l@[a].2) != (#[trigger] r@[b].1, r@[b].2) by {
                assert(l@.contains(l@[a]));
                assert(l@.to_multiset().count(l@[a]) > 0);
                assert(v@.subrange(lo as int, mid as int).contains(l@[a]));
                assert(r@.contains(r@[b]));
                assert(r@.to_multiset().count(r@[b]) > 0);
                assert(v@.subrange(mid as int, hi as int).contains(r@[b]));
                let p = choose|p: int| 0 <= p < mid - lo && v@.subrange(lo as int, mid as int)[p] == l@[a];
                let q = choose|q: int| 0 <= q < hi - mid && v@.subrange(mid as int, hi as int)[q] == r@[b];
                assert(pos_before(v@[lo + p], v@[mid + q]));
            }
        }
        let m = merge(&l, &r);
        proof {
            assert(v@.subrange(lo as int, hi as int) =~= v@.subrange(lo as int, mid as int) + v@.subrange(mid as int, hi as int));
            vstd::seq_lib::lemma_multiset_commutative(v@.subrange(lo as int, mid as int), v@.subrange(mid as int, hi as int));
        }
        m
    }
}

/// The cells of a row-major list, ranked.
pub fn rank_cells(v: &Vec<PlacedItem>) -> (r: Vec<PlacedItem>)
    requires
        row_major(v@),
    ensures
        ranked(r@),
        r@.to_multiset() == v@.to_multiset(),
{
    let r = rank_range(v, 0, v.len());
    proof {
        assert(v@.subrange(0, v@.len() as int) =~= v@);
    }
    r
}

impl Sampler {
    /// The non-empty cells of the sketch with their row and position, in
    /// row-major order.
    pub fn active_items(&self) -> (r: Vec<PlacedItem>)
        requires
            self.grid_ok(),
        ensures
            row_major(r@),
            forall|a: int| 0 <= a < r@.len() ==> {
                &&& (#[trigger] r@[a]).1 < self.h
                &&& r@[a].2 < self.w
                &&& r@[a].0 == self.cell(r@[a].1 as int, r@[a].2 as int)
                &&& r@[a].0.n != 0
            },
            forall|i: int, j: int| 0 <= i < self.h && 0 <= j < self.w && (#[trigger] self.cell(i, j)).n != 0
                ==> exists|a: int| 0 <= a < r@.len() && r@[a].1 == i && r@[a].2 == j,
    {
        let mut r: Vec<PlacedItem> = Vec::new();
        let mut i: usize = 0;
        while i < self.hash_counter.len()
            invariant
                self.grid_ok(),
                i <= self.h,
                row_major(r@),
                forall|a: int| 0 <= a < r@.len() ==> {
                    &&& (#[trigger] r@[a]).1 < i
                    &&& r@[a].2 < self.w
                    &&& r@[a].0 == self.cell(r@[a].1 as int, r@[a].2 as int)
                    &&& r@[a].0.n != 0
                },
                forall|ii: int, jj: int| 0 <= ii < i && 0 <= jj < self.w && (#[trigger] self.cell(ii, jj)).n != 0
                    ==> exists|a: int| 0 <= a < r@.len() && r@[a].1 == ii && r@[a].2 == jj,
            decreases self.h - i,
        {
            let row = &self.hash_counter[i];
            let mut j: usize = 0;
            while j < row.len()
                invariant
                    self.grid_ok(),
                    i < self.h,
                    row@ == self.hash_counter@[i as int]@,
                    j <= self.w,
                    row_major(r@),
                    forall|a: int| 0 <= a < r@.len() ==> {
                        &&& (#[trigger] r@[a]).1 <= i
                        &&& (r@[a].1 == i ==> r@[a].2 < j)
                        &&& r@[a].2 < self.w
                        &&& r@[a].0 == self.cell(r@[a].1 as int, r@[a].2 as int)
                        &&& r@[a].0.n != 0
                    },
                    forall|ii: int, jj: int| 0 <= ii <= i && 0 <= jj < self.w && (ii < i || jj < j) && (#[trigger] self.cell(ii, jj)).n != 0
                        ==> exists|a: int| 0 <= a < r@.len() && r@[a].1 == ii && r@[a].2 == jj,
                decreases self.w - j,
            {
                let c = row[j];
                if c.n != 0 {
                    let ghost before = r@;
                    r.push((c, i, j));
                    proof {
                        assert forall|a: int, b: int| 0 <= a < b < r@.len() implies #[trigger] pos_before(r@[a], r@[b]) by {
                            if b < before.len() {
                                assert(r@[a] == before[a] && r@[b] == before[b]);
                            } else {
                                assert(r@[a] == before[a]);
                            }
                        }
                        assert forall|ii: int, jj: int| 0 <= ii <= i && 0 <= jj < self.w && (ii < i || jj < j + 1) && (#[trigger] self.cell(ii, jj)).n != 0
                            implies exists|a: int| 0 <= a < r@.len() && r@[a].1 == ii && r@[a].2 == jj by {
                            if ii == i && jj == j {
                                assert(r@[before.len() as int].1 == ii && r@[before.len() as int].2 == jj);
                            } else {
                                let a = choose|a: int| 0 <= a < before.len() && before[a].1 == ii && before[a].2 == jj;
                                assert(r@[a] == before[a]);
                            }
                        }
                    }
                }
                j = j + 1;
            }
            i = i + 1;
        }
        r
    }

    /// The non-empty cells of the sketch with their row and position, ranked:
    /// larger counts first, row-major order among equal counts.
    pub fn ranked_items(&self) -> (r: Vec<PlacedItem>)
        requires
            self.grid_ok(),
        ensures
            ranked(r@),
            forall|a: int| 0 <= a < r@.len() ==> {
                &&& (#[trigger] r@[a]).1 < self.h
                &&& r@[a].2 < self.w
                &&& r@[a].0 == self.cell(r@[a].1 as int, r@[a].2 as int)
                &&& r@[a].0.n != 0
            },
            forall|i: int, j: int| 0 <= i < self.h && 0 <= j < self.w && (#[trigger] self.cell(i, j)).n != 0
                ==> exists|a: int| 0 <= a < r@.len() && r@[a].1 == i && r@[a].2 == j,
    {
        let v = self.active_items();
        let r = rank_cells(&v);
        proof {
            assert forall|a: int| 0 <= a < r@.len() implies {
                &&& (#[trigger] r@[a]).1 < self.h
                &&& r@[a].2 < self.w
                &&& r@[a].0 == self.cell(r@[a].1 as int, r@[a].2 as int)
                &&& r@[a].0.n != 0
            } by {
                assert(r@.contains(r@[a]));
                assert(r@.to_multiset().count(r@[a]) > 0);
                assert(v@.contains(r@[a]));
                let b = choose|b: int| 0 <= b < v@.len() && v@[b] == r@[a];
                assert(v@[b] == r@[a]);
            }
            assert forall|i: int, j: int| 0 <= i < self.h && 0 <= j < self.w && (#[trigger] self.cell(i, j)).n != 0
                implies exists|a: int| 0 <= a < r@.len() && r@[a].1 == i && r@[a].2 == j by {
                let b = choose|b: int| 0 <= b < v@.len() && v@[b].1 == i && v@[b].2 == j;
                assert(v@.contains(v@[b]));
                assert(v@.to_multiset().count(v@[b]) > 0);
                assert(r@.contains(v@[b]));
                let a = choose|a: int| 0 <= a < r@.len() && r@[a] == v@[b];
                assert(r@[a].1 == i && r@[a].2 == j);
            }
        }
        r
    }
}

} // verus!
