//! Flat clustering by cutting a merge tree at a dissimilarity bound.
//!
//! A dendrogram over `n` leaves has `n - 1` merge steps; step `k` creates
//! the internal node `n + k` from two earlier nodes. Dissimilarities are
//! carried as integer keys whose order is the order of the dissimilarities
//! they stand for, so that a cut only ever compares them.
use vstd::prelude::*;

verus! {

/// One merge of a dendrogram: the two nodes joined and how far apart they were.
#[derive(Clone, Copy, Debug)]
pub struct Step {
    pub cluster1: usize,
    pub cluster2: usize,
    pub dissimilarity: i64,
}

/// A binary merge tree over `observations` leaves.
#[derive(Debug)]
pub struct Dendrogram {
    pub observations: usize,
    pub steps: Vec<Step>,
}

impl Dendrogram {
    /// The shape every dendrogram has: `n - 1` steps, each joining nodes that
    /// exist when it is taken.
    pub open spec fn wf(&self) -> bool {
        &&& self.observations >= 1
        &&& self.steps@.len() + 1 == self.observations
        &&& self.observations + self.steps@.len() <= usize::MAX
        &&& steps_in_bounds(self.steps@, self.observations as nat)
    }

    /// Every node is joined at most once, and never with itself.
    pub open spec fn is_tree(&self) -> bool {
        &&& forall|k: int|
            0 <= k < self.steps@.len() ==> #[trigger] self.steps@[k].cluster1
                != self.steps@[k].cluster2
        &&& forall|j: int, k: int|
            0 <= j < k < self.steps@.len() ==> {
                &&& #[trigger] self.steps@[j].cluster1 != #[trigger] self.steps@[k].cluster1
                &&& self.steps@[j].cluster1 != self.steps@[k].cluster2
                &&& self.steps@[j].cluster2 != self.steps@[k].cluster1
                &&& self.steps@[j].cluster2 != self.steps@[k].cluster2
            }
    }

    /// No merge is closer than the merges below it.
    pub open spec fn is_monotone(&self) -> bool {
        forall|k: int|
            0 <= k < self.steps@.len() ==> {
                &&& #[trigger] self.steps@[k].cluster1 >= self.observations ==> self.steps@[self.steps@[k].cluster1 - self.observations].dissimilarity
                    <= self.steps@[k].dissimilarity
                &&& self.steps@[k].cluster2 >= self.observations ==> self.steps@[self.steps@[k].cluster2 - self.observations].dissimilarity
                    <= self.steps@[k].dissimilarity
            }
    }
}

/// Group ids of all nodes, and the next free id, once the steps from `k` to
/// the last have been visited, last step first.
pub open spec fn cut_state(steps: Seq<Step>, n: nat, cutoff: i64, k: nat) -> (Seq<Option<nat>>, nat)
    decreases steps.len() - k,
{
    if k >= steps.len() {
        (Seq::new(n + steps.len(), |i: int| None), 0)
    } else {
        let (m, c) = cut_state(steps, n, cutoff, k + 1);
        let s = steps[k as int];
        let v = (n + k) as int;
        if s.dissimilarity <= cutoff {
            let m1 = if m[v] is None {
                m.update(v, Some(c))
            } else {
                m
            };
            let c1: nat = if m[v] is None {
                c + 1
            } else {
                c
            };
            (m1.update(s.cluster1 as int, m1[v]).update(s.cluster2 as int, m1[v]), c1)
        } else {
            (m, c)
        }
    }
}

/// Groups of the first `i` leaves: a leaf without a group from the tree gets
/// the next free id of its own.
pub open spec fn leaf_groups(m: Seq<Option<nat>>, c: nat, i: nat) -> (Seq<nat>, nat)
    decreases i,
{
    if i == 0 {
        (Seq::empty(), c)
    } else {
        let (g, c2) = leaf_groups(m, c, (i - 1) as nat);
        match m[i - 1] {
            Some(x) => (g.push(x), c2),
            None => (g.push(c2), c2 + 1),
        }
    }
}

/// The flat group of each leaf when `d` is cut at `cutoff`.
pub open spec fn cut_groups(d: Dendrogram, cutoff: i64) -> Seq<nat> {
    let (m, c) = cut_state(d.steps@, d.observations as nat, cutoff, 0);
    leaf_groups(m, c, d.observations as nat).0
}

/// How many groups the cut of `d` at `cutoff` makes.
pub open spec fn cut_group_count(d: Dendrogram, cutoff: i64) -> nat {
    let (m, c) = cut_state(d.steps@, d.observations as nat, cutoff, 0);
    leaf_groups(m, c, d.observations as nat).1
}

pub open spec fn opt_nat(o: Option<usize>) -> Option<nat> {
    match o {
        Some(x) => Some(x as nat),
        None => None,
    }
}

pub open spec fn steps_in_bounds(steps: Seq<Step>, n: nat) -> bool {
    forall|k: int|
        0 <= k < steps.len() ==> #[trigger] steps[k].cluster1 < n + k && steps[k].cluster2 < n + k
}

proof fn lemma_cut_state_facts(steps: Seq<Step>, n: nat, cutoff: i64, k: nat)
    requires
        k <= steps.len(),
        steps_in_bounds(steps, n),
    ensures
        cut_state(steps, n, cutoff, k).0.len() == n + steps.len(),
        cut_state(steps, n, cutoff, k).1 <= steps.len() - k,
    decreases steps.len() - k,
{
    if k < steps.len() {
        lemma_cut_state_facts(steps, n, cutoff, k + 1);
    }
}

proof fn lemma_leaf_groups_facts(m: Seq<Option<nat>>, c: nat, i: nat)
    ensures
        leaf_groups(m, c, i).0.len() == i,
        c <= leaf_groups(m, c, i).1 <= c + i,
    decreases i,
{
    if i > 0 {
        lemma_leaf_groups_facts(m, c, (i - 1) as nat);
    }
}

/// Cuts `dendrogram` at `cutoff`: merges no more dissimilar than `cutoff`
/// hold their leaves together, and the groups are numbered from 0.
pub fn cut_dendrogram(dendrogram: &Dendrogram, cutoff: i64) -> (r: Vec<usize>)
    requires
        dendrogram.wf(),
    ensures
        r@.len() == dendrogram.observations,
        forall|i: int| 0 <= i < r@.len() ==> r@[i] as nat == #[trigger] cut_groups(*dendrogram, cutoff)[i],
{
    let n = dendrogram.observations;
    let steps = &dendrogram.steps;
    let num_nodes = n + steps.len();
    let ghost sv = steps@;
    let mut membership: Vec<Option<usize>> = Vec::new();
    let mut j: usize = 0;
    while j < num_nodes
        invariant
            j <= num_nodes,
            membership@.len() == j,
            forall|i: int| 0 <= i < j ==> membership@[i] is None,
        decreases num_nodes - j,
    {
        membership.push(None);
        j = j + 1;
    }
    let mut num_groups: usize = 0;
    let mut k: usize = steps.len();
    proof {
        lemma_cut_state_facts(sv, n as nat, cutoff, k as nat);
    }
    while k > 0
        invariant
            dendrogram.wf(),
            steps == &dendrogram.steps,
            sv == steps@,
            n == dendrogram.observations,
            num_nodes == n + sv.len(),
            k <= sv.len(),
            membership@.len() == num_nodes,
            num_groups as nat == cut_state(sv, n as nat, cutoff, k as nat).1,
            num_groups <= sv.len() - k,
            forall|i: int|
                0 <= i < num_nodes ==> opt_nat(#[trigger] membership@[i]) == cut_state(
                    sv,
                    n as nat,
                    cutoff,
                    k as nat,
                ).0[i],
        decreases k,
    {
        k = k - 1;
        proof {
            lemma_cut_state_facts(sv, n as nat, cutoff, k as nat);
            lemma_cut_state_facts(sv, n as nat, cutoff, (k + 1) as nat);
        }
        let step = steps[k];
        let cluster = k + n;
        assert(step.cluster1 < num_nodes && step.cluster2 < num_nodes) by {
            assert(sv[k as int].cluster1 < n + k);
        }
        if step.dissimilarity <= cutoff {
            if membership[cluster].is_none() {
                membership.set(cluster, Some(num_groups));
                num_groups = num_groups + 1;
            }
            let g = membership[cluster];
            membership.set(step.cluster1, g);
            membership.set(step.cluster2, g);
        }
        assert forall|i: int| 0 <= i < num_nodes implies opt_nat(#[trigger] membership@[i])
            == cut_state(sv, n as nat, cutoff, k as nat).0[i] by {}
    }
    proof {
        lemma_cut_state_facts(sv, n as nat, cutoff, 0);
    }
    let ghost m = cut_state(sv, n as nat, cutoff, 0).0;
    let ghost c0 = cut_state(sv, n as nat, cutoff, 0).1;
    let mut groups: Vec<usize> = Vec::new();
    let mut i: usize = 0;
    while i < n
        invariant
            i <= n,
            n == dendrogram.observations,
            membership@.len() == num_nodes,
            num_nodes == n + sv.len(),
            sv.len() + 1 == n,
            n + sv.len() <= usize::MAX,
            c0 <= sv.len(),
            m == cut_state(sv, n as nat, cutoff, 0).0,
            c0 == cut_state(sv, n as nat, cutoff, 0).1,
            forall|x: int| 0 <= x < num_nodes ==> opt_nat(#[trigger] membership@[x]) == m[x],
            groups@.len() == i,
            num_groups as nat == leaf_groups(m, c0, i as nat).1,
            forall|x: int| 0 <= x < i ==> groups@[x] as nat == #[trigger] leaf_groups(m, c0, i as nat).0[x],
        decreases n - i,
    {
        proof {
            lemma_leaf_groups_facts(m, c0, i as nat);
            lemma_leaf_groups_facts(m, c0, (i + 1) as nat);
        }
        match membership[i] {
            Some(g) => {
                groups.push(g);
            },
            None => {
                groups.push(num_groups);
                num_groups = num_groups + 1;
            },
        }
        i = i + 1;
    }
    groups
}

/// Step `k` holds its two nodes together under `cutoff`.
pub open spec fn merged(steps: Seq<Step>, cutoff: i64, k: int) -> bool {
    steps[k].dissimilarity <= cutoff
}

proof fn lemma_ids_below_count(steps: Seq<Step>, n: nat, cutoff: i64, k: nat)
    requires
        k <= steps.len(),
        steps_in_bounds(steps, n),
    ensures
        forall|v: int|
            0 <= v < n + steps.len() && #[trigger] cut_state(steps, n, cutoff, k).0[v] is Some
                ==> cut_state(steps, n, cutoff, k).0[v]->0 < cut_state(steps, n, cutoff, k).1,
    decreases steps.len() - k,
{
    if k < steps.len() {
        lemma_ids_below_count(steps, n, cutoff, k + 1);
        lemma_cut_state_facts(steps, n, cutoff, k + 1);
    }
}

proof fn lemma_ids_allocated(steps: Seq<Step>, n: nat, cutoff: i64, k: nat, x: nat)
    requires
        k <= steps.len(),
        steps_in_bounds(steps, n),
        x < cut_state(steps, n, cutoff, k).1,
    ensures
        exists|j: int|
            k <= j < steps.len() && merged(steps, cutoff, j) && #[trigger] cut_state(
                steps,
                n,
                cutoff,
                (j + 1) as nat,
            ).0[n + j] is None && cut_state(steps, n, cutoff, (j + 1) as nat).1 == x,
    decreases steps.len() - k,
{
    if k < steps.len() {
        lemma_cut_state_facts(steps, n, cutoff, k + 1);
        if x < cut_state(steps, n, cutoff, k + 1).1 {
            lemma_ids_allocated(steps, n, cutoff, k + 1, x);
            let j = choose|j: int|
                k + 1 <= j < steps.len() && merged(steps, cutoff, j) && #[trigger] cut_state(
                    steps,
                    n,
                    cutoff,
                    (j + 1) as nat,
                ).0[n + j] is None && cut_state(steps, n, cutoff, (j + 1) as nat).1 == x;
        } else {
            assert(cut_state(steps, n, cutoff, (k + 1) as nat).0[(n + k) as int] is None);
        }
    }
}

/// An id given to a node stays there while the steps below are visited,
/// unless one of them joins that node.
proof fn lemma_id_stays(d: Dendrogram, cutoff: i64, v: int, k: nat)
    requires
        d.wf(),
        k <= d.steps@.len(),
        0 <= v < d.observations + d.steps@.len(),
        cut_state(d.steps@, d.observations as nat, cutoff, k).0[v] is Some,
        forall|j: int|
            0 <= j < k ==> #[trigger] d.steps@[j].cluster1 != v && d.steps@[j].cluster2 != v,
    ensures
        cut_state(d.steps@, d.observations as nat, cutoff, 0).0[v] == cut_state(
            d.steps@,
            d.observations as nat,
            cutoff,
            k,
        ).0[v],
    decreases k,
{
    let steps = d.steps@;
    let n = d.observations as nat;
    if k > 0 {
        let j = (k - 1) as nat;
        lemma_cut_state_facts(steps, n, cutoff, k);
        assert(steps[j as int].cluster1 != v && steps[j as int].cluster2 != v);
        assert(steps[j as int].cluster1 < n + j);
        assert(cut_state(steps, n, cutoff, j).0[v] == cut_state(steps, n, cutoff, k).0[v]);
        lemma_id_stays(d, cutoff, v, j);
    }
}

/// The id of a node that a kept merge made reaches one of its leaves.
proof fn lemma_id_reaches_leaf(d: Dendrogram, cutoff: i64, k: int)
    requires
        d.wf(),
        d.is_tree(),
        d.is_monotone(),
        0 <= k < d.steps@.len(),
        merged(d.steps@, cutoff, k),
    ensures
        cut_state(d.steps@, d.observations as nat, cutoff, 0).0[d.observations + k] is Some,
        exists|i: int|
            0 <= i < d.observations && #[trigger] cut_state(d.steps@, d.observations as nat, cutoff, 0).0[i]
                == cut_state(d.steps@, d.observations as nat, cutoff, 0).0[d.observations + k],
    decreases k,
{
    let steps = d.steps@;
    let n = d.observations as nat;
    let m0 = cut_state(steps, n, cutoff, 0).0;
    let mk = cut_state(steps, n, cutoff, k as nat).0;
    lemma_cut_state_facts(steps, n, cutoff, k as nat);
    lemma_cut_state_facts(steps, n, cutoff, (k + 1) as nat);
    let c1 = steps[k].cluster1 as int;
    assert(c1 < n + k);
    assert(steps[k].cluster2 < n + k);
    assert(mk[n + k] is Some);
    assert(mk[c1] == mk[n + k]);
    assert forall|j: int| 0 <= j < k implies #[trigger] steps[j].cluster1 != n + k && steps[j].cluster2
        != n + k by {
        assert(steps[j].cluster1 < n + j);
        assert(steps[j].cluster2 < n + j);
    }
    lemma_id_stays(d, cutoff, n + k, k as nat);
    assert forall|j: int| 0 <= j < k implies #[trigger] steps[j].cluster1 != c1 && steps[j].cluster2
        != c1 by {
        assert(steps[j].cluster1 != steps[k].cluster1);
        assert(steps[j].cluster2 != steps[k].cluster1);
    }
    lemma_id_stays(d, cutoff, c1, k as nat);
    if c1 >= n {
        let k2 = c1 - n;
        assert(steps[k2].dissimilarity <= steps[k].dissimilarity);
        lemma_id_reaches_leaf(d, cutoff, k2);
    } else {
        assert(m0[c1] == m0[n + k]);
    }
}

/// Some leaf is in group `y`.
pub open spec fn has_member(g: Seq<nat>, y: nat) -> bool {
    exists|i: int| 0 <= i < g.len() && g[i] == y
}

proof fn lemma_leaf_groups_cover(m: Seq<Option<nat>>, c: nat, i: nat)
    requires
        i <= m.len(),
        forall|v: int| 0 <= v < i && #[trigger] m[v] is Some ==> m[v]->0 < c,
    ensures
        leaf_groups(m, c, i).0.len() == i,
        c <= leaf_groups(m, c, i).1,
        forall|t: int|
            0 <= t < i ==> #[trigger] leaf_groups(m, c, i).0[t] < leaf_groups(m, c, i).1,
        forall|t: int|
            0 <= t < i && #[trigger] m[t] is Some ==> leaf_groups(m, c, i).0[t] == m[t]->0,
        forall|y: nat|
            c <= y < leaf_groups(m, c, i).1 ==> #[trigger] has_member(leaf_groups(m, c, i).0, y),
    decreases i,
{
    if i > 0 {
        let i1 = (i - 1) as nat;
        lemma_leaf_groups_cover(m, c, i1);
        let (g, c2) = leaf_groups(m, c, i1);
        let (g1, c3) = leaf_groups(m, c, i);
        assert forall|y: nat| c <= y < c3 implies #[trigger] has_member(g1, y) by {
            if y < c2 {
                assert(has_member(g, y));
                let t = choose|t: int| 0 <= t < g.len() && g[t] == y;
                assert(g1[t] == y);
            } else {
                assert(g1[i1 as int] == y);
            }
        }
    }
}

/// Cutting a monotone merge tree numbers its groups `0..G` without gaps,
/// every group holds a leaf, and there are no more groups than leaves.
pub proof fn lemma_cut_is_partition(d: Dendrogram, cutoff: i64)
    requires
        d.wf(),
        d.is_tree(),
        d.is_monotone(),
    ensures
        cut_groups(d, cutoff).len() == d.observations,
        cut_group_count(d, cutoff) <= d.observations,
        forall|i: int|
            0 <= i < d.observations ==> #[trigger] cut_groups(d, cutoff)[i] < cut_group_count(
                d,
                cutoff,
            ),
        forall|y: nat| y < cut_group_count(d, cutoff) ==> #[trigger] has_member(cut_groups(d, cutoff), y),
{
    let steps = d.steps@;
    let n = d.observations as nat;
    let (m0, c0) = cut_state(steps, n, cutoff, 0);
    let g = cut_groups(d, cutoff);
    let big_g = cut_group_count(d, cutoff);
    lemma_cut_state_facts(steps, n, cutoff, 0);
    lemma_ids_below_count(steps, n, cutoff, 0);
    lemma_leaf_groups_cover(m0, c0, n);
    assert forall|y: nat| y < big_g implies #[trigger] has_member(g, y) by {
        if y < c0 {
            lemma_ids_allocated(steps, n, cutoff, 0, y);
            let j = choose|j: int|
                0 <= j < steps.len() && merged(steps, cutoff, j) && #[trigger] cut_state(
                    steps,
                    n,
                    cutoff,
                    (j + 1) as nat,
                ).0[n + j] is None && cut_state(steps, n, cutoff, (j + 1) as nat).1 == y;
            lemma_cut_state_facts(steps, n, cutoff, j as nat);
            lemma_cut_state_facts(steps, n, cutoff, (j + 1) as nat);
            assert(steps[j].cluster1 < n + j && steps[j].cluster2 < n + j);
            assert(cut_state(steps, n, cutoff, j as nat).0[n + j] == Some(y));
            assert forall|jj: int| 0 <= jj < j implies #[trigger] steps[jj].cluster1 != n + j
                && steps[jj].cluster2 != n + j by {
                assert(steps[jj].cluster1 < n + jj);
                assert(steps[jj].cluster2 < n + jj);
            }
            lemma_id_stays(d, cutoff, n + j, j as nat);
            lemma_id_reaches_leaf(d, cutoff, j);
            let i = choose|i: int| 0 <= i < n && #[trigger] m0[i] == m0[n + j];
            assert(g[i] == y);
        }
    }
    let gi = g.map_values(|x: nat| x as int);
    let range = vstd::set_lib::set_int_range(0, big_g as int);
    vstd::set_lib::lemma_int_range(0, big_g as int);
    assert forall|y: int| range.contains(y) implies gi.to_set().contains(y) by {
        assert(has_member(g, y as nat));
        let i = choose|i: int| 0 <= i < g.len() && g[i] == y as nat;
        assert(gi[i] == y);
    }
    gi.lemma_cardinality_of_set();
    vstd::seq_lib::seq_to_set_is_finite(gi);
    vstd::set_lib::lemma_len_subset(range, gi.to_set());
}

/// Cutting one dendrogram twice at one bound gives the same groups.
pub proof fn lemma_cut_deterministic(d1: Dendrogram, d2: Dendrogram, cutoff: i64)
    requires
        d1.observations == d2.observations,
        d1.steps@ == d2.steps@,
    ensures
        cut_groups(d1, cutoff) == cut_groups(d2, cutoff),
        cut_group_count(d1, cutoff) == cut_group_count(d2, cutoff),
{
}

/// How many `x` in `lo..hi` satisfy `p`.
pub open spec fn count_in(p: spec_fn(int) -> bool, lo: int, hi: int) -> nat
    decreases hi - lo,
{
    if lo >= hi {
        0
    } else {
        count_in(p, lo, hi - 1) + if p(hi - 1) {
            1nat
        } else {
            0nat
        }
    }
}

proof fn lemma_count_split(p: spec_fn(int) -> bool, lo: int, mid: int, hi: int)
    requires
        lo <= mid <= hi,
    ensures
        count_in(p, lo, hi) == count_in(p, lo, mid) + count_in(p, mid, hi),
    decreases hi - mid,
{
    if mid < hi {
        lemma_count_split(p, lo, mid, hi - 1);
    }
}

proof fn lemma_count_shift(p: spec_fn(int) -> bool, q: spec_fn(int) -> bool, lo: int, hi: int, d: int)
    requires
        forall|x: int| lo <= x < hi ==> #[trigger] q(x) == p(x + d),
    ensures
        count_in(q, lo, hi) == count_in(p, lo + d, hi + d),
    decreases hi - lo,
{
    if lo < hi {
        lemma_count_shift(p, q, lo, hi - 1, d);
    }
}

proof fn lemma_count_sum(p: spec_fn(int) -> bool, q: spec_fn(int) -> bool, r: spec_fn(int) -> bool, lo: int, hi: int)
    requires
        forall|x: int| lo <= x < hi ==> #[trigger] r(x) == (p(x) || q(x)) && !(p(x) && q(x)),
    ensures
        count_in(r, lo, hi) == count_in(p, lo, hi) + count_in(q, lo, hi),
    decreases hi - lo,
{
    if lo < hi {
        lemma_count_sum(p, q, r, lo, hi - 1);
    }
}

proof fn lemma_count_mono(p: spec_fn(int) -> bool, q: spec_fn(int) -> bool, lo: int, hi: int)
    requires
        forall|x: int| lo <= x < hi && #[trigger] p(x) ==> q(x),
    ensures
        count_in(p, lo, hi) <= count_in(q, lo, hi),
    decreases hi - lo,
{
    if lo < hi {
        lemma_count_mono(p, q, lo, hi - 1);
    }
}

proof fn lemma_count_two_more(p: spec_fn(int) -> bool, q: spec_fn(int) -> bool, a: int, b: int, lo: int, hi: int)
    requires
        lo <= a < hi,
        lo <= b < hi,
        a != b,
        !p(a),
        !p(b),
        forall|x: int| lo <= x < hi ==> #[trigger] q(x) == (p(x) || x == a || x == b),
    ensures
        count_in(q, lo, hi) == count_in(p, lo, hi) + 2,
{
    let e = |x: int| x == a || x == b;
    lemma_count_sum(p, e, q, lo, hi);
    let ea = |x: int| x == a;
    let eb = |x: int| x == b;
    lemma_count_sum(ea, eb, e, lo, hi);
    lemma_count_single(a, lo, hi);
    lemma_count_single(b, lo, hi);
    assert(count_in(ea, lo, hi) == count_in(|x: int| x == a, lo, hi));
}

proof fn lemma_count_single(a: int, lo: int, hi: int)
    requires
        lo <= a < hi,
    ensures
        count_in(|x: int| x == a, lo, hi) == 1,
{
    let e = |x: int| x == a;
    lemma_count_split(e, lo, a, hi);
    lemma_count_split(e, a, a + 1, hi);
    lemma_count_none(e, lo, a);
    lemma_count_none(e, a + 1, hi);
    assert(count_in(e, a, a + 1) == count_in(e, a, a) + 1);
}

proof fn lemma_count_none(p: spec_fn(int) -> bool, lo: int, hi: int)
    requires
        forall|x: int| lo <= x < hi ==> !#[trigger] p(x),
    ensures
        count_in(p, lo, hi) == 0,
    decreases hi - lo,
{
    if lo < hi {
        lemma_count_none(p, lo, hi - 1);
    }
}

/// Step `p` joins node `v`.
pub open spec fn joins(steps: Seq<Step>, p: int, v: int) -> bool {
    steps[p].cluster1 == v || steps[p].cluster2 == v
}

/// A kept merge among the first `q` steps joins node `v`.
pub open spec fn covered_by(steps: Seq<Step>, cutoff: i64, q: int, v: int) -> bool {
    exists|p: int| 0 <= p < q && merged(steps, cutoff, p) && #[trigger] joins(steps, p, v)
}

/// A node holds a group once the steps from `k` on are visited exactly
/// when it was made by a kept merge among them, or one of them joins it.
proof fn lemma_state_some(steps: Seq<Step>, n: nat, cutoff: i64, k: nat, v: int)
    requires
        k <= steps.len(),
        steps_in_bounds(steps, n),
        0 <= v < n + steps.len(),
    ensures
        cut_state(steps, n, cutoff, k).0[v] is Some <==> ((v >= n + k && merged(
            steps,
            cutoff,
            v - n,
        )) || exists|p: int| k <= p < steps.len() && merged(steps, cutoff, p) && #[trigger] joins(steps, p, v)),
    decreases steps.len() - k,
{
    if k < steps.len() {
        lemma_state_some(steps, n, cutoff, k + 1, v);
        lemma_cut_state_facts(steps, n, cutoff, k + 1);
        let ki = k as int;
        let a = steps[ki].cluster1 as int;
        let b = steps[ki].cluster2 as int;
        assert(a < n + k);
        assert(b < n + k);
        let m1 = cut_state(steps, n, cutoff, k + 1).0;
        let m0 = cut_state(steps, n, cutoff, k).0;
        let rhs1 = exists|p: int| k + 1 <= p < steps.len() && merged(steps, cutoff, p) && #[trigger] joins(steps, p, v);
        let rhs0 = exists|p: int| k <= p < steps.len() && merged(steps, cutoff, p) && #[trigger] joins(steps, p, v);
        if rhs1 {
            let p = choose|p: int| k + 1 <= p < steps.len() && merged(steps, cutoff, p) && #[trigger] joins(steps, p, v);
            assert(k <= p);
            assert(rhs0);
        }
        if rhs0 && !rhs1 {
            let p = choose|p: int| k <= p < steps.len() && merged(steps, cutoff, p) && #[trigger] joins(steps, p, v);
            assert(p == ki);
            assert(v == a || v == b);
        }
        if merged(steps, cutoff, ki) {
            if v == a || v == b {
                assert(joins(steps, ki, v));
                assert(rhs0);
                assert(m0[v] is Some);
            } else if v == n + k {
                assert(m0[v] is Some);
            } else {
                assert(m0[v] == m1[v]);
            }
        } else {
            assert(m0 == m1);
            if rhs0 {
                let p = choose|p: int| k <= p < steps.len() && merged(steps, cutoff, p) && #[trigger] joins(steps, p, v);
                assert(p != ki);
                assert(rhs1);
            }
        }
    }
}

proof fn lemma_alloc_count(steps: Seq<Step>, n: nat, cutoff: i64, k: nat)
    requires
        k <= steps.len(),
        steps_in_bounds(steps, n),
    ensures
        cut_state(steps, n, cutoff, k).1 == count_in(
            |j: int| merged(steps, cutoff, j) && !covered_by(steps, cutoff, steps.len() as int, n + j),
            k as int,
            steps.len() as int,
        ),
    decreases steps.len() - k,
{
    let h = |j: int| merged(steps, cutoff, j) && !covered_by(steps, cutoff, steps.len() as int, n + j);
    let ki = k as int;
    let v = (n + k) as int;
    if k < steps.len() {
        lemma_alloc_count(steps, n, cutoff, k + 1);
        lemma_count_split(h, ki, ki + 1, steps.len() as int);
        assert(count_in(h, ki, ki + 1) == count_in(h, ki, ki) + if h(ki) { 1nat } else { 0nat });
        lemma_state_some(steps, n, cutoff, k + 1, v);
        lemma_cut_state_facts(steps, n, cutoff, k + 1);
        if covered_by(steps, cutoff, steps.len() as int, v) {
            let p = choose|p: int| 0 <= p < steps.len() && merged(steps, cutoff, p) && #[trigger] joins(steps, p, v);
            assert(steps[p].cluster1 < n + p && steps[p].cluster2 < n + p);
            assert(ki + 1 <= p);
        }
        if exists|p: int| ki + 1 <= p < steps.len() && merged(steps, cutoff, p) && #[trigger] joins(steps, p, v) {
            let p = choose|p: int| ki + 1 <= p < steps.len() && merged(steps, cutoff, p) && #[trigger] joins(steps, p, v);
            assert(covered_by(steps, cutoff, steps.len() as int, v));
        }
    } else {
        assert(count_in(h, ki, steps.len() as int) == 0);
    }
}

proof fn lemma_leaf_count(m: Seq<Option<nat>>, c: nat, i: nat)
    ensures
        leaf_groups(m, c, i).1 == c + count_in(|t: int| m[t] is None, 0, i as int),
    decreases i,
{
    if i > 0 {
        lemma_leaf_count(m, c, (i - 1) as nat);
    }
}

proof fn lemma_covered_count(steps: Seq<Step>, n: nat, cutoff: i64, q: int, big_n: int)
    requires
        0 <= q <= steps.len(),
        steps_in_bounds(steps, n),
        big_n == n + steps.len(),
        forall|k: int|
            0 <= k < steps.len() ==> #[trigger] steps[k].cluster1 != steps[k].cluster2,
        forall|j: int, k: int|
            0 <= j < k < steps.len() ==> {
                &&& #[trigger] steps[j].cluster1 != #[trigger] steps[k].cluster1
                &&& steps[j].cluster1 != steps[k].cluster2
                &&& steps[j].cluster2 != steps[k].cluster1
                &&& steps[j].cluster2 != steps[k].cluster2
            },
    ensures
        count_in(|v: int| covered_by(steps, cutoff, q, v), 0, big_n) == 2 * count_in(
            |k: int| merged(steps, cutoff, k),
            0,
            q,
        ),
    decreases q,
{
    let cq = |v: int| covered_by(steps, cutoff, q, v);
    if q == 0 {
        lemma_count_none(cq, 0, big_n);
    } else {
        let q1 = q - 1;
        lemma_covered_count(steps, n, cutoff, q1, big_n);
        let cp = |v: int| covered_by(steps, cutoff, q1, v);
        if merged(steps, cutoff, q1) {
            let a = steps[q1].cluster1 as int;
            let b = steps[q1].cluster2 as int;
            assert(a < n + q1 && b < n + q1);
            assert(!cp(a)) by {
                if cp(a) {
                    let p = choose|p: int| 0 <= p < q1 && merged(steps, cutoff, p) && #[trigger] joins(steps, p, a);
                    assert(steps[p].cluster1 != steps[q1].cluster1);
                    assert(steps[p].cluster2 != steps[q1].cluster1);
                }
            }
            assert(!cp(b)) by {
                if cp(b) {
                    let p = choose|p: int| 0 <= p < q1 && merged(steps, cutoff, p) && #[trigger] joins(steps, p, b);
                    assert(steps[p].cluster1 != steps[q1].cluster2);
                    assert(steps[p].cluster2 != steps[q1].cluster2);
                }
            }
            assert forall|x: int| 0 <= x < big_n implies #[trigger] cq(x) == (cp(x) || x == a || x == b) by {
                if cq(x) && !cp(x) {
                    let p = choose|p: int| 0 <= p < q && merged(steps, cutoff, p) && #[trigger] joins(steps, p, x);
                    assert(p == q1);
                }
                if x == a {
                    assert(joins(steps, q1, x));
                }
                if x == b {
                    assert(joins(steps, q1, x));
                }
                if cp(x) {
                    let p = choose|p: int| 0 <= p < q1 && merged(steps, cutoff, p) && #[trigger] joins(steps, p, x);
                    assert(joins(steps, p, x));
                }
            }
            lemma_count_two_more(cp, cq, a, b, 0, big_n);
        } else {
            assert forall|x: int| 0 <= x < big_n implies #[trigger] cq(x) == cp(x) by {
                if cq(x) {
                    let p = choose|p: int| 0 <= p < q && merged(steps, cutoff, p) && #[trigger] joins(steps, p, x);
                    assert(p != q1);
                }
                if cp(x) {
                    let p = choose|p: int| 0 <= p < q1 && merged(steps, cutoff, p) && #[trigger] joins(steps, p, x);
                    assert(joins(steps, p, x));
                }
            }
            lemma_count_ext(cp, cq, 0, big_n);
        }
    }
}

proof fn lemma_count_ext(p: spec_fn(int) -> bool, q: spec_fn(int) -> bool, lo: int, hi: int)
    requires
        forall|x: int| lo <= x < hi ==> #[trigger] q(x) == p(x),
    ensures
        count_in(q, lo, hi) == count_in(p, lo, hi),
    decreases hi - lo,
{
    if lo < hi {
        lemma_count_ext(p, q, lo, hi - 1);
    }
}

proof fn lemma_count_all(p: spec_fn(int) -> bool, lo: int, hi: int)
    requires
        lo <= hi,
        forall|x: int| lo <= x < hi ==> #[trigger] p(x),
    ensures
        count_in(p, lo, hi) == hi - lo,
    decreases hi - lo,
{
    if lo < hi {
        lemma_count_all(p, lo, hi - 1);
    }
}

/// A monotone merge tree cut at `cutoff` has as many groups as leaves,
/// less one for each merge it keeps.
pub proof fn lemma_cut_group_count(d: Dendrogram, cutoff: i64)
    requires
        d.wf(),
        d.is_tree(),
        d.is_monotone(),
    ensures
        cut_group_count(d, cutoff) + count_in(
            |k: int| merged(d.steps@, cutoff, k),
            0,
            d.steps@.len() as int,
        ) == d.observations,
{
    let steps = d.steps@;
    let n = d.observations as nat;
    let l = steps.len() as int;
    let big_n = n + l;
    let (m0, c0) = cut_state(steps, n, cutoff, 0);
    let mg = |k: int| merged(steps, cutoff, k);
    let cov = |v: int| covered_by(steps, cutoff, l, v);
    let ih = |j: int| merged(steps, cutoff, j) && !covered_by(steps, cutoff, l, n + j);
    let lnc = |t: int| !covered_by(steps, cutoff, l, t);
    let none = |t: int| m0[t] is None;
    let active = |v: int| v < n || merged(steps, cutoff, v - n);
    let head = |v: int| active(v) && !cov(v);
    lemma_cut_state_facts(steps, n, cutoff, 0);
    lemma_leaf_count(m0, c0, n);
    lemma_alloc_count(steps, n, cutoff, 0);
    assert(c0 == count_in(ih, 0, l));
    assert forall|t: int| 0 <= t < n implies #[trigger] lnc(t) == none(t) by {
        lemma_state_some(steps, n, cutoff, 0, t);
        if covered_by(steps, cutoff, l, t) {
            let p = choose|p: int| 0 <= p < l && merged(steps, cutoff, p) && #[trigger] joins(steps, p, t);
            assert(joins(steps, p, t));
        }
    }
    lemma_count_ext(none, lnc, 0, n as int);
    // nodes that head a group: kept or leaf, and joined by no kept merge
    lemma_count_split(head, 0, n as int, big_n);
    assert forall|t: int| 0 <= t < n implies #[trigger] head(t) == lnc(t) by {}
    lemma_count_ext(lnc, head, 0, n as int);
    assert forall|j: int| 0 <= j < l implies #[trigger] ih(j) == head(j + n) by {}
    lemma_count_shift(head, ih, 0, l, n as int);
    // every joined node is a leaf or a kept merge
    assert forall|v: int| 0 <= v < big_n implies #[trigger] active(v) == (head(v) || cov(v)) && !(
    head(v) && cov(v)) by {
        if cov(v) && v >= n {
            let p = choose|p: int| 0 <= p < l && merged(steps, cutoff, p) && #[trigger] joins(steps, p, v);
            assert(steps[p].cluster1 >= n ==> steps[steps[p].cluster1 - n].dissimilarity
                <= steps[p].dissimilarity);
        }
    }
    lemma_count_sum(head, cov, active, 0, big_n);
    lemma_count_split(active, 0, n as int, big_n);
    lemma_count_all(active, 0, n as int);
    assert forall|j: int| 0 <= j < l implies #[trigger] mg(j) == active(j + n) by {}
    lemma_count_shift(active, mg, 0, l, n as int);
    lemma_covered_count(steps, n, cutoff, l, big_n);
}

/// Lowering the cutoff (raising the similarity threshold) never lowers the
/// number of groups of a monotone merge tree.
pub proof fn lemma_cut_count_monotone(d: Dendrogram, lower: i64, higher: i64)
    requires
        d.wf(),
        d.is_tree(),
        d.is_monotone(),
        lower <= higher,
    ensures
        cut_group_count(d, lower) >= cut_group_count(d, higher),
{
    lemma_cut_group_count(d, lower);
    lemma_cut_group_count(d, higher);
    lemma_count_mono(
        |k: int| merged(d.steps@, lower, k),
        |k: int| merged(d.steps@, higher, k),
        0,
        d.steps@.len() as int,
    );
}

/// Node `u` is node `v` or lies below it in the tree.
pub open spec fn descends(steps: Seq<Step>, n: nat, v: nat, u: nat) -> bool
    decreases v,
{
    if v == u {
        true
    } else if v >= n && v - n < steps.len() && steps[v - n].cluster1 < v && steps[v - n].cluster2
        < v {
        descends(steps, n, steps[v - n].cluster1 as nat, u) || descends(
            steps,
            n,
            steps[v - n].cluster2 as nat,
            u,
        )
    } else {
        false
    }
}

/// Every node below a kept merge carries the merge's group id.
proof fn lemma_below_kept_merge(d: Dendrogram, cutoff: i64, k: int, u: nat)
    requires
        d.wf(),
        d.is_tree(),
        d.is_monotone(),
        0 <= k < d.steps@.len(),
        merged(d.steps@, cutoff, k),
        descends(d.steps@, d.observations as nat, (d.observations + k) as nat, u),
    ensures
        cut_state(d.steps@, d.observations as nat, cutoff, 0).0[u as int] == cut_state(
            d.steps@,
            d.observations as nat,
            cutoff,
            0,
        ).0[d.observations + k],
    decreases k,
{
    let steps = d.steps@;
    let n = d.observations as nat;
    let v = (n + k) as nat;
    if u != v {
        lemma_cut_state_facts(steps, n, cutoff, k as nat);
        lemma_cut_state_facts(steps, n, cutoff, (k + 1) as nat);
        let mk = cut_state(steps, n, cutoff, k as nat).0;
        let a = steps[k].cluster1 as int;
        let b = steps[k].cluster2 as int;
        assert(a < n + k && b < n + k);
        assert(mk[n + k] is Some);
        assert(mk[a] == mk[n + k] && mk[b] == mk[n + k]);
        assert forall|j: int| 0 <= j < k implies #[trigger] steps[j].cluster1 != n + k && steps[j].cluster2
            != n + k by {
            assert(steps[j].cluster1 < n + j);
            assert(steps[j].cluster2 < n + j);
        }
        lemma_id_stays(d, cutoff, n + k, k as nat);
        let c = if descends(steps, n, a as nat, u) {
            a
        } else {
            b
        };
        assert(descends(steps, n, c as nat, u));
        assert forall|j: int| 0 <= j < k implies #[trigger] steps[j].cluster1 != c && steps[j].cluster2
            != c by {
            assert(steps[j].cluster1 != steps[k].cluster1);
            assert(steps[j].cluster2 != steps[k].cluster1);
            assert(steps[j].cluster1 != steps[k].cluster2);
            assert(steps[j].cluster2 != steps[k].cluster2);
        }
        lemma_id_stays(d, cutoff, c, k as nat);
        if c as nat != u {
            assert(c >= n);
            let k2 = c - n;
            assert(steps[k2].dissimilarity <= steps[k].dissimilarity);
            lemma_below_kept_merge(d, cutoff, k2, u);
        }
    }
}

/// Two leaves below one kept merge of a monotone tree fall into one group.
pub proof fn lemma_kept_merge_one_group(d: Dendrogram, cutoff: i64, k: int, i: nat, j: nat)
    requires
        d.wf(),
        d.is_tree(),
        d.is_monotone(),
        0 <= k < d.steps@.len(),
        merged(d.steps@, cutoff, k),
        i < d.observations,
        j < d.observations,
        descends(d.steps@, d.observations as nat, (d.observations + k) as nat, i),
        descends(d.steps@, d.observations as nat, (d.observations + k) as nat, j),
    ensures
        cut_groups(d, cutoff)[i as int] == cut_groups(d, cutoff)[j as int],
{
    let steps = d.steps@;
    let n = d.observations as nat;
    let (m0, c0) = cut_state(steps, n, cutoff, 0);
    lemma_cut_state_facts(steps, n, cutoff, 0);
    lemma_ids_below_count(steps, n, cutoff, 0);
    lemma_id_reaches_leaf(d, cutoff, k);
    lemma_below_kept_merge(d, cutoff, k, i);
    lemma_below_kept_merge(d, cutoff, k, j);
    lemma_leaf_groups_cover(m0, c0, n);
    assert(m0[i as int] is Some);
}

proof fn lemma_descends_child(steps: Seq<Step>, n: nat, w: nat, v: nat, c: nat)
    requires
        descends(steps, n, w, v),
        v >= n,
        v - n < steps.len(),
        steps[v - n].cluster1 < v,
        steps[v - n].cluster2 < v,
        c == steps[v - n].cluster1 || c == steps[v - n].cluster2,
    ensures
        descends(steps, n, w, c),
    decreases w,
{
    assert(descends(steps, n, c, c));
    if w != v && w != c {
        let a = steps[w - n].cluster1 as nat;
        let b = steps[w - n].cluster2 as nat;
        if descends(steps, n, a, v) {
            lemma_descends_child(steps, n, a, v, c);
        } else {
            lemma_descends_child(steps, n, b, v, c);
        }
    } else if w == v {
        assert(c != v);
    }
}

/// The group id a node holds was allocated by a kept merge above it.
proof fn lemma_id_origin(steps: Seq<Step>, n: nat, cutoff: i64, k: nat, v: int)
    requires
        k <= steps.len(),
        steps_in_bounds(steps, n),
        0 <= v < n + steps.len(),
        cut_state(steps, n, cutoff, k).0[v] is Some,
    ensures
        exists|a: int|
            k <= a < steps.len() && merged(steps, cutoff, a) && cut_state(steps, n, cutoff, (a + 1) as nat).0[n + a]
                is None && #[trigger] cut_state(steps, n, cutoff, (a + 1) as nat).1 == cut_state(
                steps,
                n,
                cutoff,
                k,
            ).0[v]->0 && descends(steps, n, (n + a) as nat, v as nat),
    decreases steps.len() - k,
{
    let ki = k as int;
    lemma_cut_state_facts(steps, n, cutoff, k);
    if k < steps.len() {
        lemma_cut_state_facts(steps, n, cutoff, k + 1);
        let m1 = cut_state(steps, n, cutoff, k + 1).0;
        let m0 = cut_state(steps, n, cutoff, k).0;
        let a = steps[ki].cluster1 as int;
        let b = steps[ki].cluster2 as int;
        let top = n + ki;
        assert(a < top && b < top);
        if merged(steps, cutoff, ki) && (v == top || v == a || v == b) {
            assert(m0[v] == m0[top]);
            if m1[top] is None {
                assert(descends(steps, n, top as nat, top as nat));
                if v != top {
                    lemma_descends_child(steps, n, top as nat, top as nat, v as nat);
                }
            } else {
                lemma_id_origin(steps, n, cutoff, k + 1, top);
                let w = choose|w: int|
                    k + 1 <= w < steps.len() && merged(steps, cutoff, w) && cut_state(steps, n, cutoff, (w + 1) as nat).0[n + w]
                        is None && #[trigger] cut_state(steps, n, cutoff, (w + 1) as nat).1
                        == m1[top]->0 && descends(steps, n, (n + w) as nat, top as nat);
                if v != top {
                    lemma_descends_child(steps, n, (n + w) as nat, top as nat, v as nat);
                }
            }
        } else {
            assert(m0[v] == m1[v]);
            lemma_id_origin(steps, n, cutoff, k + 1, v);
            let w = choose|w: int|
                k + 1 <= w < steps.len() && merged(steps, cutoff, w) && cut_state(steps, n, cutoff, (w + 1) as nat).0[n + w]
                    is None && #[trigger] cut_state(steps, n, cutoff, (w + 1) as nat).1 == m1[v]->0
                    && descends(steps, n, (n + w) as nat, v as nat);
        }
    }
}

proof fn lemma_count_grows(steps: Seq<Step>, n: nat, cutoff: i64, k: nat, k2: nat)
    requires
        k <= k2 <= steps.len(),
        steps_in_bounds(steps, n),
    ensures
        cut_state(steps, n, cutoff, k).1 >= cut_state(steps, n, cutoff, k2).1,
    decreases k2 - k,
{
    if k < k2 {
        lemma_count_grows(steps, n, cutoff, k + 1, k2);
    }
}

proof fn lemma_leaf_groups_fresh(m: Seq<Option<nat>>, c: nat, i: nat)
    requires
        i <= m.len(),
        forall|v: int| 0 <= v < i && #[trigger] m[v] is Some ==> m[v]->0 < c,
    ensures
        forall|t: int, t2: int|
            0 <= t < i && 0 <= t2 < i && t != t2 && #[trigger] m[t] is None ==> leaf_groups(m, c, i).0[t]
                != #[trigger] leaf_groups(m, c, i).0[t2],
        forall|t: int| 0 <= t < i && #[trigger] m[t] is None ==> c <= leaf_groups(m, c, i).0[t],
    decreases i,
{
    if i > 0 {
        let i1 = (i - 1) as nat;
        lemma_leaf_groups_fresh(m, c, i1);
        lemma_leaf_groups_cover(m, c, i1);
    }
}

/// Two leaves in one group of a cut lie below one kept merge.
pub proof fn lemma_one_group_below_kept_merge(d: Dendrogram, cutoff: i64, i: nat, j: nat)
    requires
        d.wf(),
        i < d.observations,
        j < d.observations,
        i != j,
        cut_groups(d, cutoff)[i as int] == cut_groups(d, cutoff)[j as int],
    ensures
        exists|k: int|
            0 <= k < d.steps@.len() && merged(d.steps@, cutoff, k) && #[trigger] descends(
                d.steps@,
                d.observations as nat,
                (d.observations + k) as nat,
                i,
            ) && descends(d.steps@, d.observations as nat, (d.observations + k) as nat, j),
{
    let steps = d.steps@;
    let n = d.observations as nat;
    let (m0, c0) = cut_state(steps, n, cutoff, 0);
    let g = cut_groups(d, cutoff);
    lemma_cut_state_facts(steps, n, cutoff, 0);
    lemma_ids_below_count(steps, n, cutoff, 0);
    lemma_leaf_groups_cover(m0, c0, n);
    lemma_leaf_groups_fresh(m0, c0, n);
    assert(m0[i as int] is Some);
    assert(m0[j as int] is Some);
    lemma_id_origin(steps, n, cutoff, 0, i as int);
    lemma_id_origin(steps, n, cutoff, 0, j as int);
    let a = choose|a: int|
        0 <= a < steps.len() && merged(steps, cutoff, a) && cut_state(steps, n, cutoff, (a + 1) as nat).0[n + a]
            is None && #[trigger] cut_state(steps, n, cutoff, (a + 1) as nat).1 == m0[i as int]->0
            && descends(steps, n, (n + a) as nat, i);
    let b = choose|b: int|
        0 <= b < steps.len() && merged(steps, cutoff, b) && cut_state(steps, n, cutoff, (b + 1) as nat).0[n + b]
            is None && #[trigger] cut_state(steps, n, cutoff, (b + 1) as nat).1 == m0[j as int]->0
            && descends(steps, n, (n + b) as nat, j);
    if a < b {
        lemma_count_grows(steps, n, cutoff, (a + 1) as nat, b as nat);
        lemma_cut_state_facts(steps, n, cutoff, b as nat);
    } else if b < a {
        lemma_count_grows(steps, n, cutoff, (b + 1) as nat, a as nat);
        lemma_cut_state_facts(steps, n, cutoff, a as nat);
    }
    assert(a == b);
}

} // verus!
