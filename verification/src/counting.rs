//! Sums over the reservations that an assignment names. A partition names
//! every reservation once, so such a sum is the sum over all reservations.

use vstd::prelude::*;
use crate::model::{Assignment, Problem};

verus! {

/// Sum of `w` over the entries of `ids`.
pub open spec fn sum_over(w: spec_fn(int) -> int, ids: Seq<i32>) -> int
    decreases ids.len(),
{
    if ids.len() == 0 {
        0
    } else {
        sum_over(w, ids.drop_last()) + w(ids.last() as int)
    }
}

/// Sum of `w` over the numbers below `n`.
pub open spec fn sum_below(w: spec_fn(int) -> int, n: int) -> int
    decreases n,
{
    if n <= 0 {
        0
    } else {
        sum_below(w, n - 1) + w(n - 1)
    }
}

/// The first `k` lists, one behind the other.
pub open spec fn gathered(rows: Seq<Seq<i32>>, k: int) -> Seq<i32>
    decreases k,
{
    if k <= 0 {
        Seq::empty()
    } else {
        gathered(rows, k - 1) + rows[k - 1]
    }
}

/// Whether `ids` names every number below `n` once and nothing else.
pub open spec fn names_each_once(ids: Seq<i32>, n: int) -> bool {
    &&& forall|i: int| 0 <= i < ids.len() ==> 0 <= #[trigger] ids[i] < n
    &&& forall|i: int, j: int| 0 <= i < j < ids.len() ==> #[trigger] ids[i] != #[trigger] ids[j]
    &&& forall|r: i32| 0 <= r < n ==> #[trigger] ids.contains(r)
}

impl Assignment {
    /// Every reservation that the assignment names: those of the vehicles in
    /// turn, then the unassigned.
    pub open spec fn all_ids(self) -> Seq<i32> {
        gathered(self.served, self.served.len() as int) + self.unassigned
    }

    /// How many reservations the first `k` vehicles serve.
    pub open spec fn served_count(self, k: int) -> int
        decreases k,
    {
        if k <= 0 {
            0
        } else {
            self.served_count(k - 1) + self.served[k - 1].len()
        }
    }

    /// How many reservations the assignment names.
    pub open spec fn slot_count(self) -> int {
        self.served_count(self.served.len() as int) + self.unassigned.len()
    }
}

/// Whether one of the first `k` vehicles serves `r`.
pub open spec fn served_among(a: Assignment, k: int, r: i32) -> bool {
    exists|v: int, i: int|
        0 <= v < k && 0 <= i < a.served[v].len() && #[trigger] a.served[v][i] == r
}

/// A sum over two sequences, one behind the other, is the sum of both
/// sums.
pub proof fn lemma_sum_over_add(w: spec_fn(int) -> int, s: Seq<i32>, t: Seq<i32>)
    ensures
        sum_over(w, s + t) == sum_over(w, s) + sum_over(w, t),
    decreases t.len(),
{
    if t.len() == 0 {
        assert(s + t =~= s);
    } else {
        assert((s + t).drop_last() =~= s + t.drop_last());
        lemma_sum_over_add(w, s, t.drop_last());
    }
}

/// Taking an entry out takes its share out of the sum.
pub proof fn lemma_sum_over_remove(w: spec_fn(int) -> int, s: Seq<i32>, k: int)
    requires
        0 <= k < s.len(),
    ensures
        sum_over(w, s.remove(k)) == sum_over(w, s) - w(s[k] as int),
    decreases s.len(),
{
    if k == s.len() - 1 {
        assert(s.remove(k) =~= s.drop_last());
    } else {
        assert(s.remove(k).drop_last() =~= s.drop_last().remove(k));
        assert(s.remove(k).last() == s.last());
        lemma_sum_over_remove(w, s.drop_last(), k);
    }
}

/// A sequence that names every number below `n` once has `n` entries, and a
/// sum over it is the sum over the numbers below `n`.
pub proof fn lemma_sum_each_once(w: spec_fn(int) -> int, s: Seq<i32>, n: int)
    requires
        0 <= n <= i32::MAX,
        names_each_once(s, n),
    ensures
        s.len() == n,
        sum_over(w, s) == sum_below(w, n),
    decreases n,
{
    if n == 0 {
        if s.len() > 0 {
            let first = s[0];
            assert(0 <= first < n);
        }
    } else {
        let top = (n - 1) as i32;
        assert(s.contains(top));
        let k = choose|k: int| 0 <= k < s.len() && s[k] == top;
        let t = s.remove(k);
        assert forall|i: int| 0 <= i < t.len() implies #[trigger] t[i] == (if i < k {
            s[i]
        } else {
            s[i + 1]
        }) by {}
        assert forall|i: int| 0 <= i < t.len() implies 0 <= #[trigger] t[i] < n - 1 by {
            let i0 = if i < k { i } else { i + 1 };
            if i0 < k {
                assert(s[i0] != s[k]);
            } else {
                assert(s[k] != s[i0]);
            }
        }
        assert forall|i: int, j: int| 0 <= i < j < t.len() implies #[trigger] t[i]
            != #[trigger] t[j] by {
            let i0 = if i < k { i } else { i + 1 };
            let j0 = if j < k { j } else { j + 1 };
            assert(s[i0] != s[j0]);
        }
        assert forall|r: i32| 0 <= r < n - 1 implies #[trigger] t.contains(r) by {
            assert(s.contains(r));
            let j = choose|j: int| 0 <= j < s.len() && s[j] == r;
            let j1 = if j < k { j } else { j - 1 };
            assert(t[j1] == r);
        }
        lemma_sum_each_once(w, t, n - 1);
        lemma_sum_over_remove(w, s, k);
    }
}

/// What `gathered` holds is what the lists hold, and it is as long as they
/// are together.
pub proof fn lemma_gathered(a: Assignment, k: int)
    requires
        0 <= k <= a.served.len(),
    ensures
        gathered(a.served, k).len() == a.served_count(k),
        forall|x: int|
            0 <= x < gathered(a.served, k).len() ==> served_among(
                a,
                k,
                #[trigger] gathered(a.served, k)[x],
            ),
        forall|v: int, i: int|
            0 <= v < k && 0 <= i < a.served[v].len() ==> gathered(a.served, k).contains(
                #[trigger] a.served[v][i],
            ),
    decreases k,
{
    if k > 0 {
        lemma_gathered(a, k - 1);
        let g0 = gathered(a.served, k - 1);
        let g = gathered(a.served, k);
        let row = a.served[k - 1];
        assert forall|x: int| 0 <= x < g.len() implies served_among(a, k, #[trigger] g[x]) by {
            if x < g0.len() {
                assert(served_among(a, k - 1, g0[x]));
                let (v, i) = choose|v: int, i: int|
                    0 <= v < k - 1 && 0 <= i < a.served[v].len() && #[trigger] a.served[v][i]
                        == g0[x];
                assert(a.served[v][i] == g[x]);
            } else {
                assert(a.served[k - 1][x - g0.len()] == g[x]);
            }
        }
        assert forall|v: int, i: int| 0 <= v < k && 0 <= i < a.served[v].len() implies g.contains(
            #[trigger] a.served[v][i],
        ) by {
            if v < k - 1 {
                assert(g0.contains(a.served[v][i]));
                let x = choose|x: int| 0 <= x < g0.len() && g0[x] == a.served[v][i];
                assert(g[x] == a.served[v][i]);
            } else {
                assert(g[g0.len() + i] == a.served[v][i]);
            }
        }
    }
}

/// In a partition nothing occurs twice among what the first `k` vehicles
/// serve.
pub proof fn lemma_gathered_distinct(p: Problem, a: Assignment, k: int)
    requires
        a.partitioned(p),
        0 <= k <= a.served.len(),
    ensures
        forall|x: int, y: int|
            0 <= x < y < gathered(a.served, k).len() ==> #[trigger] gathered(a.served, k)[x]
                != #[trigger] gathered(a.served, k)[y],
    decreases k,
{
    if k > 0 {
        lemma_gathered_distinct(p, a, k - 1);
        lemma_gathered(a, k - 1);
        let g0 = gathered(a.served, k - 1);
        let g = gathered(a.served, k);
        assert forall|x: int, y: int| 0 <= x < y < g.len() implies #[trigger] g[x]
            != #[trigger] g[y] by {
            if y < g0.len() {
                assert(g0[x] != g0[y]);
            } else if x < g0.len() {
                assert(served_among(a, k - 1, g0[x]));
                let (v, i) = choose|v: int, i: int|
                    0 <= v < k - 1 && 0 <= i < a.served[v].len() && #[trigger] a.served[v][i]
                        == g0[x];
                assert(a.served[v][i] != a.served[k - 1][y - g0.len()]);
            } else {
                assert(a.served[k - 1][x - g0.len()] != a.served[k - 1][y - g0.len()]);
            }
        }
    }
}

/// A partition names every reservation once.
pub proof fn lemma_partition_names_each_once(p: Problem, a: Assignment)
    requires
        a.shaped(p),
        a.partitioned(p),
    ensures
        names_each_once(a.all_ids(), p.reservations.len() as int),
        a.all_ids().len() == a.slot_count(),
{
    let nv = a.served.len() as int;
    let g = gathered(a.served, nv);
    let s = a.all_ids();
    lemma_gathered(a, nv);
    lemma_gathered_distinct(p, a, nv);
    assert forall|i: int| 0 <= i < s.len() implies 0 <= #[trigger] s[i]
        < p.reservations.len() by {
        if i < g.len() {
            assert(served_among(a, nv, g[i]));
            let (v, j) = choose|v: int, j: int|
                0 <= v < nv && 0 <= j < a.served[v].len() && #[trigger] a.served[v][j] == g[i];
            assert(0 <= a.served[v][j] < p.reservations.len());
        } else {
            assert(s[i] == a.unassigned[i - g.len()]);
        }
    }
    assert forall|i: int, j: int| 0 <= i < j < s.len() implies #[trigger] s[i]
        != #[trigger] s[j] by {
        if j < g.len() {
            assert(g[i] != g[j]);
        } else if i < g.len() {
            assert(served_among(a, nv, g[i]));
            let (v, k) = choose|v: int, k: int|
                0 <= v < nv && 0 <= k < a.served[v].len() && #[trigger] a.served[v][k] == g[i];
            assert(a.served[v][k] != a.unassigned[j - g.len()]);
        } else {
            assert(a.unassigned[i - g.len()] != a.unassigned[j - g.len()]);
        }
    }
    assert forall|r: i32| 0 <= r < p.reservations.len() implies #[trigger] s.contains(r) by {
        assert(a.unassigned.contains(r) || a.is_served(r));
        if a.unassigned.contains(r) {
            let u = choose|u: int| 0 <= u < a.unassigned.len() && a.unassigned[u] == r;
            assert(s[g.len() + u] == r);
        } else {
            let v = choose|v: int| 0 <= v < a.served.len() && (#[trigger] a.served[v]).contains(r);
            let i = choose|i: int| 0 <= i < a.served[v].len() && a.served[v][i] == r;
            assert(g.contains(a.served[v][i]));
            let x = choose|x: int| 0 <= x < g.len() && g[x] == r;
            assert(s[x] == r);
        }
    }
}

/// A partition names as many reservations as there are.
pub proof fn lemma_partition_count(p: Problem, a: Assignment)
    requires
        p.reservations.len() <= i32::MAX,
        a.shaped(p),
        a.partitioned(p),
    ensures
        a.slot_count() == p.reservations.len(),
{
    lemma_partition_names_each_once(p, a);
    lemma_sum_each_once(|r: int| 1int, a.all_ids(), p.reservations.len() as int);
}

} // verus!
