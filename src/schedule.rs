//! Batching: how the clusters of a round are ordered and cut into batches,
//! and how the batch size grows from round to round.
use vstd::prelude::*;

use crate::assignment::{lemma_map_multiset, names, partition_index, rank_bounds};
use crate::foreign::{group_pair_le, group_pair_view, sorted_group_pairs};

verus! {

/// How the batch size grows after each round.
#[derive(Clone, Copy, Debug, PartialEq, Eq)]
pub enum GrowthStrategy {
    /// Add the batch step.
    Linear,
    /// Double the size.
    Double,
}

/// `double` names doubling; any other name falls back to linear growth.
pub fn strategy_from_name(name: &String) -> (r: GrowthStrategy)
    ensures
        r == (if name@ == "double"@ {
            GrowthStrategy::Double
        } else {
            GrowthStrategy::Linear
        }),
{
    let double = String::from_str("double");
    if *name == double {
        GrowthStrategy::Double
    } else {
        GrowthStrategy::Linear
    }
}

/// The batch size after one round of growth, without bound.
pub open spec fn grown(size: nat, step: nat, strategy: GrowthStrategy) -> nat {
    match strategy {
        GrowthStrategy::Linear => size + step,
        GrowthStrategy::Double => size * 2,
    }
}

/// The batch size after one round of growth, held at `usize::MAX`.
pub fn grow_batch_size(size: usize, step: usize, strategy: GrowthStrategy) -> (r: usize)
    ensures
        r as nat == (if grown(size as nat, step as nat, strategy) <= usize::MAX {
            grown(size as nat, step as nat, strategy)
        } else {
            usize::MAX as nat
        }),
{
    match strategy {
        GrowthStrategy::Linear => size.saturating_add(step),
        GrowthStrategy::Double => if size <= usize::MAX / 2 {
            size * 2
        } else {
            usize::MAX
        },
    }
}

/// Raises `size` until the last batch over `n` clusters holds more than one
/// of them.
pub open spec fn avoid_lone_batch(n: nat, size: nat) -> nat
    decreases n - size,
{
    if n >= 2 && 1 <= size < n && n % size == 1 {
        avoid_lone_batch(n, size + 1)
    } else {
        size
    }
}

/// The size of the next round's batches over `n_remaining` clusters, after a
/// round with batches of `size`.
pub open spec fn next_size(size: nat, step: nat, strategy: GrowthStrategy, n_remaining: nat) -> nat {
    let g = grown(size, step, strategy);
    avoid_lone_batch(n_remaining, if g <= usize::MAX { g } else { usize::MAX as nat })
}

pub proof fn lemma_avoid_lone_batch_bounds(n: nat, size: nat)
    ensures
        size <= avoid_lone_batch(n, size),
        size <= n ==> avoid_lone_batch(n, size) <= n,
    decreases n - size,
{
    if n >= 2 && 1 <= size < n && n % size == 1 {
        lemma_avoid_lone_batch_bounds(n, size + 1);
    }
}

/// Grows the batch size after a round, then raises it while the last batch
/// over `n_remaining` clusters would hold a single one.
pub fn next_batch_size(
    size: usize,
    step: usize,
    strategy: GrowthStrategy,
    n_remaining: usize,
) -> (r: usize)
    ensures
        r as nat == next_size(size as nat, step as nat, strategy, n_remaining as nat),
{
    let mut b = grow_batch_size(size, step, strategy);
    let ghost g = b as nat;
    while n_remaining >= 2 && 1 <= b && b < n_remaining && n_remaining % b == 1
        invariant
            avoid_lone_batch(n_remaining as nat, b as nat) == avoid_lone_batch(n_remaining as nat, g),
        decreases n_remaining - b,
    {
        b = b + 1;
    }
    b
}

/// The batch sizes of successive rounds, from `step`, without the raise for
/// a lone last batch and without bound.
pub open spec fn batch_sizes(step: nat, strategy: GrowthStrategy, k: nat) -> nat
    decreases k,
{
    if k == 0 {
        step
    } else {
        grown(batch_sizes(step, strategy, (k - 1) as nat), step, strategy)
    }
}

pub open spec fn pow2(k: nat) -> nat
    decreases k,
{
    if k == 0 {
        1
    } else {
        2 * pow2((k - 1) as nat)
    }
}

/// Round `k` batches `step * (k + 1)` clusters when growth is linear, and
/// `step * 2^k` when it doubles.
pub proof fn lemma_batch_growth(step: nat, k: nat)
    ensures
        batch_sizes(step, GrowthStrategy::Linear, k) == step * (k + 1),
        batch_sizes(step, GrowthStrategy::Double, k) == step * pow2(k),
    decreases k,
{
    if k > 0 {
        lemma_batch_growth(step, (k - 1) as nat);
        let km = (k - 1) as nat;
        assert(batch_sizes(step, GrowthStrategy::Linear, k) == batch_sizes(step, GrowthStrategy::Linear, km) + step);
        assert(batch_sizes(step, GrowthStrategy::Double, k) == batch_sizes(step, GrowthStrategy::Double, km) * 2);
        assert(pow2(k) == 2 * pow2(km));
        assert(step * (km + 1) + step == step * (k + 1)) by (nonlinear_arith)
            requires k == km + 1;
        assert(step * pow2(km) * 2 == step * (2 * pow2(km))) by (nonlinear_arith);
    } else {
        assert(step * (k + 1) == step) by (nonlinear_arith)
            requires k == 0;
        assert(pow2(0) == 1);
        assert(step * 1 == step);
    }
}

/// The coarse group of `x` in the partition `coarse` of the sorted `labels`.
pub open spec fn coarse_group(labels: Seq<Seq<char>>, coarse: Seq<usize>, x: Seq<char>) -> usize {
    coarse[partition_index(labels, x, coarse.len())->0 as int]
}

/// Orders `seq_files` (the current cluster labels) by their group in the
/// coarse partition `coarse`, then by label, so that clusters that the
/// coarse pass finds alike fall into one batch. `None` when a label has no
/// group.
pub fn guide_batching(seq_files: &Vec<String>, coarse: &Vec<usize>) -> (r: Option<Vec<String>>)
    ensures
        (forall|i: int|
            0 <= i < seq_files@.len() ==> #[trigger] partition_index(
                names(seq_files@),
                seq_files@[i]@,
                coarse@.len(),
            ) is Some) <==> r is Some,
        r is Some ==> names(r->0@).to_multiset() == names(seq_files@).to_multiset(),
        r is Some ==> forall|i: int, j: int|
            0 <= i < j < r->0@.len() ==> group_pair_le(
                (coarse_group(names(seq_files@), coarse@, r->0@[i]@), r->0@[i]@),
                (coarse_group(names(seq_files@), coarse@, r->0@[j]@), r->0@[j]@),
            ),
{
    let ghost fs = names(seq_files@);
    let h = coarse.len();
    let mut pairs: Vec<(usize, String)> = Vec::new();
    let mut i: usize = 0;
    while i < seq_files.len()
        invariant
            i <= seq_files@.len(),
            fs == names(seq_files@),
            h == coarse@.len(),
            pairs@.len() == i,
            forall|k: int| 0 <= k < i ==> #[trigger] partition_index(fs, seq_files@[k]@, h as nat) is Some,
            forall|k: int|
                0 <= k < i ==> #[trigger] group_pair_view(pairs@[k]) == (
                    coarse_group(fs, coarse@, seq_files@[k]@),
                    seq_files@[k]@,
                ),
        decreases seq_files@.len() - i,
    {
        let (lo, hi) = rank_bounds(seq_files, &seq_files[i]);
        if !(lo < hi && lo < h) {
            assert(partition_index(fs, seq_files@[i as int]@, h as nat) is None);
            return None;
        }
        let idx: usize = if hi <= h {
            hi - 1
        } else {
            h - 1
        };
        pairs.push((coarse[idx], seq_files[i].clone()));
        i = i + 1;
    }
    let ghost pv = pairs@.map_values(|p: (usize, String)| group_pair_view(p));
    let sorted = sorted_group_pairs(pairs);
    let ghost sv = sorted@.map_values(|p: (usize, String)| group_pair_view(p));
    let mut r: Vec<String> = Vec::new();
    let mut k: usize = 0;
    while k < sorted.len()
        invariant
            k <= sorted@.len(),
            r@.len() == k,
            forall|x: int| 0 <= x < k ==> #[trigger] r@[x]@ == sorted@[x].1@,
        decreases sorted@.len() - k,
    {
        r.push(sorted[k].1.clone());
        k = k + 1;
    }
    proof {
        let snd = |p: (usize, Seq<char>)| p.1;
        lemma_map_multiset(sv, pv, snd);
        assert(names(r@) =~= sv.map_values(snd));
        assert(pv.map_values(snd) =~= fs);
        assert forall|x: int| 0 <= x < sv.len() implies #[trigger] sv[x].0 == coarse_group(
            fs,
            coarse@,
            sv[x].1,
        ) by {
            broadcast use vstd::seq_lib::group_to_multiset_ensures;

            assert(sv.contains(sv[x]));
            assert(sv.to_multiset().count(sv[x]) > 0);
            assert(pv.to_multiset().count(sv[x]) > 0);
            assert(pv.contains(sv[x]));
            let y = choose|y: int| 0 <= y < pv.len() && pv[y] == sv[x];
            assert(pv[y] == group_pair_view(pairs@[y]));
        }
        assert forall|a: int, b: int| 0 <= a < b < r@.len() implies group_pair_le(
            (coarse_group(fs, coarse@, r@[a]@), r@[a]@),
            (coarse_group(fs, coarse@, r@[b]@), r@[b]@),
        ) by {
            assert(sv[a] == group_pair_view(sorted@[a]));
            assert(sv[b] == group_pair_view(sorted@[b]));
            assert(group_pair_le(group_pair_view(sorted@[a]), group_pair_view(sorted@[b])));
        }
    }
    Some(r)
}

} // verus!
