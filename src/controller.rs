//! The rounds of dereplication, as a state machine.
//!
//! Each round the clusters are ordered and cut into batches; the caller
//! compares the labels of each batch, builds and cuts their merge tree, and
//! hands back one flat partition per batch. Rounds go on while the clusters
//! do not fit in one batch and the round limit is not reached; one last round
//! then takes all clusters as a single batch.
use vstd::multiset::Multiset;
use vstd::prelude::*;

use crate::assignment::{
    assign_seqs, cluster_view, content, copy_cluster, dereplicate_iter, find_label, flat_labels,
    flat_members, flatten, graphs_to_build, groups_by_label, is_assignment, labels_of,
    lemma_content_flat, lemma_content_views, lemma_map_multiset, lemma_member_views_by_label,
    lemma_members_under, lemma_views_content_perm, members_of, members_under, names,
    partition_index, representatives, round_labels, shared_clusters, views_content, Cluster,
};
use crate::foreign::{
    decimal, decimal_string, name_pair_le, name_pair_view, random_salt, sorted_name_pairs,
};
use crate::schedule::{
    guide_batching, lemma_avoid_lone_batch_bounds, next_batch_size, next_size, strategy_from_name,
    GrowthStrategy,
};

verus! {

/// Settings of the rounds.
pub struct PanaaniParams {
    /// Size of the first batches, and the step of linear growth.
    pub batch_step: usize,
    /// `linear` or `double`; any other name grows linearly.
    pub batch_step_strategy: String,
    /// Most batched rounds before the last round.
    pub max_iters: usize,
    /// Directory under which batch outputs are named.
    pub temp_dir: String,
    /// Order batches by a coarse comparison of the clusters.
    pub guided: bool,
    /// A label for each input sequence to start from.
    pub external_clustering: Option<Vec<String>>,
    /// The order of the clusters in the first round.
    pub initial_batches: Option<Vec<String>>,
}

impl Default for PanaaniParams {
    fn default() -> (r: PanaaniParams)
        ensures
            r.batch_step == 50,
            r.batch_step_strategy@ == "linear"@,
            r.max_iters == 10,
            r.temp_dir@ == "./"@,
            !r.guided,
            r.external_clustering is None,
            r.initial_batches is None,
    {
        PanaaniParams {
            batch_step: 50,
            batch_step_strategy: String::from_str("linear"),
            max_iters: 10,
            temp_dir: String::from_str("./"),
            guided: false,
            external_clustering: None,
            initial_batches: None,
        }
    }
}

/// Why a step of the rounds could not be taken.
#[derive(Clone, Copy, Debug, PartialEq, Eq)]
pub enum DereplicationError {
    /// The batch step is 0.
    ZeroBatchStep,
    /// The starting clustering does not give one label per sequence.
    ClusteringLength,
    /// The first round's order is not the labels of the clusters, each once.
    InitialBatches,
    /// A guided round was asked for without a coarse partition.
    MissingGuide,
    /// A partition gives no group to some label: its file could not be compared.
    MissingGroup,
    /// The partitions handed back do not match the batches.
    PartitionCount,
    /// The step does not belong to the current stage.
    WrongStage,
}

/// Where the rounds stand.
#[derive(Clone, Copy, Debug, PartialEq, Eq)]
pub enum Stage {
    /// Batched rounds go on.
    Batching,
    /// The last round, over all clusters at once, is due.
    FinalRound,
    /// The clustering is final.
    Done,
}

/// The state of a dereplication run.
pub struct Dereplicator {
    pub batch_step: usize,
    pub strategy: GrowthStrategy,
    pub max_iters: usize,
    pub temp_dir: String,
    pub guided: bool,
    pub initial_batches: Option<Vec<String>>,
    /// Batched rounds done so far.
    pub iter: usize,
    /// Size of the next round's batches.
    pub batch_size: usize,
    pub stage: Stage,
    /// The current clusters.
    pub clusters: Vec<Cluster>,
    /// The batches of the round under way, if one was planned.
    pub batches: Vec<Vec<Cluster>>,
    /// The output prefix of each planned batch.
    pub prefixes: Vec<String>,
    /// The input sequences, counted with repetition.
    pub input: Ghost<Multiset<Seq<char>>>,
}

/// The sequences of all batches, counted with repetition.
pub open spec fn batches_content(b: Seq<Vec<Cluster>>) -> Multiset<Seq<char>>
    decreases b.len(),
{
    if b.len() == 0 {
        Multiset::empty()
    } else {
        batches_content(b.drop_last()).add(content(b.last()@))
    }
}

/// The stage after a batched round that leaves `n` clusters.
pub open spec fn stage_after(batch_size: nat, n: nat, iter: nat, max_iters: nat) -> Stage {
    if batch_size < n && iter < max_iters {
        Stage::Batching
    } else {
        Stage::FinalRound
    }
}

/// The output prefix of batch `batch` of round `iter`.
pub open spec fn batch_prefix(temp_dir: Seq<char>, iter: nat, salt: nat, batch: nat) -> Seq<char> {
    round_prefix(temp_dir, iter, salt) + decimal(batch) + "-"@
}

/// What the output prefixes of the batches of round `iter` begin with.
pub open spec fn round_prefix(temp_dir: Seq<char>, iter: nat, salt: nat) -> Seq<char> {
    temp_dir + "/"@ + decimal(iter) + "_"@ + decimal(salt) + "-"@
}

/// `p` is the output prefix of batch `batch` of round `iter`, for some salt.
pub open spec fn is_batch_prefix(p: Seq<char>, temp_dir: Seq<char>, iter: nat, batch: nat) -> bool {
    exists|salt: nat| p == batch_prefix(temp_dir, iter, salt, batch)
}

/// Batches of one round get different prefixes.
proof fn lemma_batch_prefix_distinct(base: Seq<char>, x: nat, y: nat)
    requires
        x != y,
    ensures
        base + decimal(x) + "-"@ != base + decimal(y) + "-"@,
{
    let p = base + decimal(x) + "-"@;
    let q = base + decimal(y) + "-"@;
    if p == q {
        assert(p.len() == q.len());
        assert(decimal(x).len() == decimal(y).len());
        let lo = base.len() as int;
        let hi = lo + decimal(x).len();
        assert(p.subrange(lo, hi) =~= decimal(x));
        assert(q.subrange(lo, hi) =~= decimal(y));
        crate::foreign::lemma_decimal_injective(x, y);
    }
}

impl Dereplicator {
    /// The state is sound: the clusters are an assignment that holds exactly
    /// the input sequences, and so do the planned batches taken together.
    pub open spec fn wf(&self) -> bool {
        &&& self.batch_step >= 1
        &&& self.batch_size >= 1
        &&& is_assignment(self.clusters@)
        &&& content(self.clusters@) == self.input@
        &&& self.batches@.len() == self.prefixes@.len()
        &&& self.batches@.len() > 0 ==> batches_content(self.batches@) == self.input@
        &&& self.stage == Stage::Batching ==> self.batch_size < self.clusters@.len()
        &&& self.stage == Stage::Batching ==> self.iter < self.max_iters
        &&& (self.stage == Stage::FinalRound && self.batches@.len() > 0) ==> self.batches@.len() == 1
    }

    /// Starts from one cluster per label of `params.external_clustering`, or
    /// one per sequence name when there is none.
    pub fn new(seq_files: &Vec<String>, params: &PanaaniParams) -> (r: Result<
        Dereplicator,
        DereplicationError,
    >)
        ensures
            (r is Err && r->Err_0 == DereplicationError::ZeroBatchStep) <==> params.batch_step
                == 0,
            (r is Err && r->Err_0 == DereplicationError::ClusteringLength) <==> (params.batch_step
                > 0 && params.external_clustering is Some
                && params.external_clustering->0@.len() != seq_files@.len()),
            r is Err ==> (r->Err_0 == DereplicationError::ZeroBatchStep || r->Err_0
                == DereplicationError::ClusteringLength),
            r is Ok ==> ({
                let d = r->Ok_0;
                let labels = match params.external_clustering {
                    Some(v) => v@,
                    None => seq_files@,
                };
                &&& d.wf()
                &&& d.input@ == names(seq_files@).to_multiset()
                &&& groups_by_label(d.clusters@, names(seq_files@), names(labels), seq_files@.len())
                &&& d.iter == 0
                &&& d.batch_size == params.batch_step
                &&& d.batch_step == params.batch_step
                &&& d.max_iters == params.max_iters
                &&& d.guided == params.guided
                &&& d.temp_dir@ == params.temp_dir@
                &&& d.strategy == (if params.batch_step_strategy@ == "double"@ {
                    GrowthStrategy::Double
                } else {
                    GrowthStrategy::Linear
                })
                &&& d.stage == stage_after(
                    d.batch_size as nat,
                    d.clusters@.len(),
                    0,
                    params.max_iters as nat,
                )
                &&& d.batches@.len() == 0
            }),
    {
        if params.batch_step == 0 {
            return Err(DereplicationError::ZeroBatchStep);
        }
        let clusters = match &params.external_clustering {
            Some(labels) => {
                if labels.len() != seq_files.len() {
                    return Err(DereplicationError::ClusteringLength);
                }
                assign_seqs(seq_files, labels)
            },
            None => assign_seqs(seq_files, seq_files),
        };
        proof {
            assert(names(seq_files@).take(seq_files@.len() as int) =~= names(seq_files@));
        }
        let initial_batches = match &params.initial_batches {
            Some(v) => Some(copy_names(v)),
            None => None,
        };
        let stage = if params.batch_step < clusters.len() && 0 < params.max_iters {
            Stage::Batching
        } else {
            Stage::FinalRound
        };
        Ok(
            Dereplicator {
                batch_step: params.batch_step,
                strategy: strategy_from_name(&params.batch_step_strategy),
                max_iters: params.max_iters,
                temp_dir: params.temp_dir.clone(),
                guided: params.guided,
                initial_batches,
                iter: 0,
                batch_size: params.batch_step,
                stage,
                clusters,
                batches: Vec::new(),
                prefixes: Vec::new(),
                input: Ghost(names(seq_files@).to_multiset()),
            },
        )
    }

    /// How many clusters there are now.
    pub fn n_remaining(&self) -> (r: usize)
        ensures
            r == self.clusters@.len(),
    {
        self.clusters.len()
    }

    /// The labels of the current clusters: the files that a coarse pass of a
    /// guided round compares.
    pub fn cluster_labels(&self) -> (r: Vec<String>)
        ensures
            names(r@) == labels_of(self.clusters@),
    {
        representatives(&self.clusters)
    }

    /// Whether the next round orders its batches by a coarse partition of
    /// the cluster labels.
    pub open spec fn spec_needs_guide(&self) -> bool {
        self.stage == Stage::Batching && self.guided && !(self.iter == 0
            && self.initial_batches is Some)
    }

    /// Whether the next round needs a coarse partition of the cluster labels.
    pub fn needs_guide(&self) -> (r: bool)
        ensures
            r == self.spec_needs_guide(),
    {
        let first_given = self.iter == 0 && self.initial_batches.is_some();
        matches!(self.stage, Stage::Batching) && self.guided && !first_given
    }
}

/// A copy of a list of names.
pub fn copy_names(v: &Vec<String>) -> (r: Vec<String>)
    ensures
        r@ == v@,
{
    let mut r: Vec<String> = Vec::new();
    let mut i: usize = 0;
    while i < v.len()
        invariant
            i <= v@.len(),
            r@ == v@.take(i as int),
        decreases v@.len() - i,
    {
        r.push(v[i].clone());
        assert(v@.take(i + 1) =~= v@.take(i as int).push(v@[i as int]));
        i = i + 1;
    }
    assert(v@.take(i as int) =~= v@);
    r
}

/// The labels of the batches `b`, batch after batch.
pub open spec fn concat_labels(b: Seq<Vec<Cluster>>) -> Seq<Seq<char>>
    decreases b.len(),
{
    if b.len() == 0 {
        Seq::empty()
    } else {
        concat_labels(b.drop_last()) + labels_of(b.last()@)
    }
}

proof fn lemma_labels_distinct(a: Seq<Cluster>)
    requires
        is_assignment(a),
    ensures
        labels_of(a).no_duplicates(),
{
}

/// Whether `order` names the clusters of `a`, each once.
pub fn is_rearrangement(order: &Vec<String>, a: &Vec<Cluster>) -> (r: bool)
    requires
        is_assignment(a@),
    ensures
        r == (names(order@).to_multiset() == labels_of(a@).to_multiset()),
{
    broadcast use vstd::seq_lib::group_to_multiset_ensures;

    let ghost ov = names(order@);
    let ghost lv = labels_of(a@);
    proof {
        lemma_labels_distinct(a@);
        lv.lemma_multiset_has_no_duplicates();
    }
    let mut used: Vec<bool> = Vec::new();
    let mut j: usize = 0;
    while j < a.len()
        invariant
            j <= a@.len(),
            used@.len() == j,
            forall|x: int| 0 <= x < j ==> !used@[x],
        decreases a@.len() - j,
    {
        used.push(false);
        j = j + 1;
    }
    let mut k: usize = 0;
    while k < order.len()
        invariant
            k <= order@.len(),
            ov == names(order@),
            lv == labels_of(a@),
            is_assignment(a@),
            lv.no_duplicates(),
            forall|x: Seq<char>| lv.to_multiset().contains(x) ==> lv.to_multiset().count(x) == 1,
            used@.len() == a@.len(),
            forall|x: int|
                0 <= x < a@.len() ==> (#[trigger] used@[x] <==> exists|y: int|
                    0 <= y < k && ov[y] == lv[x]),
            forall|y: int| 0 <= y < k ==> #[trigger] lv.contains(ov[y]),
            ov.take(k as int).no_duplicates(),
        decreases order@.len() - k,
    {
        let j = find_label(a, &order[k]);
        if j == a.len() {
            proof {
                assert forall|z: int| 0 <= z < lv.len() implies lv[z] != ov[k as int] by {
                    assert(a@[z].label@ != order@[k as int]@);
                }
                assert(!lv.contains(ov[k as int]));
                assert(ov.contains(ov[k as int]));
                vstd::seq_lib::to_multiset_contains(ov, ov[k as int]);
                vstd::seq_lib::to_multiset_contains(lv, ov[k as int]);
            }
            return false;
        }
        if used[j] {
            proof {
                let y = choose|y: int| 0 <= y < k && ov[y] == lv[j as int];
                if ov.to_multiset() == lv.to_multiset() {
                    ov.lemma_multiset_has_no_duplicates_conv();
                    assert(ov[y] == ov[k as int]);
                }
            }
            return false;
        }
        proof {
            assert(lv[j as int] == ov[k as int]);
            assert(ov.take(k + 1) =~= ov.take(k as int).push(ov[k as int]));
            let t = ov.take(k + 1);
            assert forall|p: int, q: int|
                0 <= p < k + 1 && 0 <= q < k + 1 && p != q implies #[trigger] t[p] != #[trigger] t[q] by {
                if p < k && q < k {
                    assert(ov.take(k as int)[p] != ov.take(k as int)[q]);
                } else if p == k {
                    assert(!used@[j as int]);
                } else {
                    assert(!used@[j as int]);
                }
            }
        }
        used.set(j, true);
        proof {
            assert forall|x: int| 0 <= x < a@.len() implies (#[trigger] used@[x] <==> exists|y: int|
                0 <= y < k + 1 && ov[y] == lv[x]) by {
                if x != j {
                    if exists|y: int| 0 <= y < k + 1 && ov[y] == lv[x] {
                        let y = choose|y: int| 0 <= y < k + 1 && ov[y] == lv[x];
                        if y == k {
                            assert(lv[x] == lv[j as int]);
                        }
                    }
                }
            }
            assert(lv.contains(ov[k as int]));
        }
        k = k + 1;
    }
    let mut x: usize = 0;
    while x < a.len()
        invariant
            x <= a@.len(),
            k == order@.len(),
            ov == names(order@),
            lv == labels_of(a@),
            used@.len() == a@.len(),
            forall|z: int|
                0 <= z < a@.len() ==> (#[trigger] used@[z] <==> exists|y: int|
                    0 <= y < k && ov[y] == lv[z]),
            forall|z: int| 0 <= z < x ==> #[trigger] used@[z],
        decreases a@.len() - x,
    {
        if !used[x] {
            proof {
                assert(!ov.contains(lv[x as int]));
                assert(lv.contains(lv[x as int]));
                vstd::seq_lib::to_multiset_contains(ov, lv[x as int]);
                vstd::seq_lib::to_multiset_contains(lv, lv[x as int]);
            }
            return false;
        }
        x = x + 1;
    }
    proof {
        assert(ov.take(k as int) =~= ov);
        ov.lemma_multiset_has_no_duplicates();
        assert forall|v: Seq<char>| ov.to_multiset().count(v) == lv.to_multiset().count(v) by {
            if ov.contains(v) {
                let y = choose|y: int| 0 <= y < ov.len() && ov[y] == v;
                assert(lv.contains(ov[y]));
            } else if lv.contains(v) {
                let z = choose|z: int| 0 <= z < lv.len() && lv[z] == v;
                assert(used@[z]);
            }
        }
        assert(ov.to_multiset() =~= lv.to_multiset());
    }
    true
}

/// Each cluster of `v` holds what the cluster of `a` with its label holds.
pub open spec fn faithful(v: Seq<Cluster>, a: Seq<Cluster>) -> bool {
    forall|i: int|
        0 <= i < v.len() ==> #[trigger] members_of(v[i]) == members_under(a, v[i].label@)
}

proof fn lemma_order_content(a: Seq<Cluster>, ov: Seq<Seq<char>>)
    requires
        is_assignment(a),
        ov.to_multiset() == labels_of(a).to_multiset(),
    ensures
        views_content(ov.map_values(|l: Seq<char>| members_under(a, l))) == content(a),
{
    let mu = |l: Seq<char>| members_under(a, l);
    lemma_map_multiset(ov, labels_of(a), mu);
    lemma_views_content_perm(ov.map_values(mu), labels_of(a).map_values(mu));
    lemma_member_views_by_label(a);
    lemma_content_views(a);
}

/// Cuts the clusters of `a`, taken in the order of `order`, into batches of
/// `batch_size`; the last batch may be shorter.
pub fn build_batches(a: &Vec<Cluster>, order: &Vec<String>, batch_size: usize) -> (r: Vec<
    Vec<Cluster>,
>)
    requires
        is_assignment(a@),
        names(order@).to_multiset() == labels_of(a@).to_multiset(),
        batch_size >= 1,
    ensures
        batches_content(r@) == content(a@),
        concat_labels(r@) == names(order@),
        forall|c: int| 0 <= c < r@.len() ==> 1 <= (#[trigger] r@[c])@.len() <= batch_size,
        forall|c: int| 0 <= c < r@.len() - 1 ==> (#[trigger] r@[c])@.len() == batch_size,
        forall|c: int| 0 <= c < r@.len() ==> faithful((#[trigger] r@[c])@, a@),
{
    broadcast use vstd::seq_lib::group_to_multiset_ensures;

    let ghost ov = names(order@);
    let ghost mv = ov.map_values(|l: Seq<char>| members_under(a@, l));
    let mut batches: Vec<Vec<Cluster>> = Vec::new();
    let mut current: Vec<Cluster> = Vec::new();
    let mut k: usize = 0;
    assert(ov.take(0) =~= Seq::<Seq<char>>::empty());
    assert(mv.take(0) =~= Seq::<Seq<Seq<char>>>::empty());
    while k < order.len()
        invariant
            k <= order@.len(),
            is_assignment(a@),
            batch_size >= 1,
            ov == names(order@),
            ov.to_multiset() == labels_of(a@).to_multiset(),
            mv == ov.map_values(|l: Seq<char>| members_under(a@, l)),
            batches_content(batches@).add(content(current@)) == views_content(mv.take(k as int)),
            concat_labels(batches@) + labels_of(current@) == ov.take(k as int),
            current@.len() < batch_size,
            forall|c: int| 0 <= c < batches@.len() ==> (#[trigger] batches@[c])@.len() == batch_size,
            forall|c: int| 0 <= c < batches@.len() ==> faithful((#[trigger] batches@[c])@, a@),
            faithful(current@, a@),
        decreases order@.len() - k,
    {
        let j = find_label(a, &order[k]);
        proof {
            assert(ov.contains(ov[k as int]));
            vstd::seq_lib::to_multiset_contains(ov, ov[k as int]);
            vstd::seq_lib::to_multiset_contains(labels_of(a@), ov[k as int]);
            let z = choose|z: int| 0 <= z < a@.len() && labels_of(a@)[z] == ov[k as int];
            assert(a@[z].label@ == order@[k as int]@);
        }
        let c = copy_cluster(&a[j]);
        let ghost old_cur = current@;
        let ghost old_b = batches@;
        current.push(c);
        proof {
            lemma_members_under(a@, j as int);
            assert(members_of(c) == mv[k as int]);
            assert(faithful(current@, a@)) by {
                assert forall|i: int| 0 <= i < current@.len() implies #[trigger] members_of(current@[i])
                    == members_under(a@, current@[i].label@) by {
                    if i < old_cur.len() {
                        assert(current@[i] == old_cur[i]);
                    }
                }
            }
            assert(current@ =~= old_cur.push(c));
            crate::assignment::lemma_content_push(old_cur, c);
            assert(mv.take(k + 1).drop_last() =~= mv.take(k as int));
            assert(views_content(mv.take(k + 1)) == views_content(mv.take(k as int)).add(
                mv[k as int].to_multiset(),
            ));
            assert(batches_content(batches@).add(content(current@)) =~= views_content(
                mv.take(k + 1),
            ));
            assert(labels_of(current@) =~= labels_of(old_cur).push(c.label@));
            assert(ov.take(k + 1) =~= ov.take(k as int).push(ov[k as int]));
            assert(concat_labels(batches@) + labels_of(current@) =~= ov.take(k + 1));
        }
        if current.len() == batch_size {
            let full = current;
            current = Vec::new();
            batches.push(full);
            proof {
                assert(batches@.drop_last() =~= old_b);
                assert(batches_content(batches@) == batches_content(old_b).add(content(full@)));
                assert(content(current@) == Multiset::<Seq<char>>::empty());
                assert(batches_content(batches@).add(content(current@)) =~= batches_content(
                    batches@,
                ));
                assert(labels_of(current@) =~= Seq::<Seq<char>>::empty());
                assert(concat_labels(batches@) == concat_labels(old_b) + labels_of(full@));
                assert(concat_labels(batches@) + labels_of(current@) =~= concat_labels(batches@));
            }
        }
        k = k + 1;
    }
    if current.len() > 0 {
        let ghost old_b = batches@;
        let last = current;
        batches.push(last);
        proof {
            assert(batches@.drop_last() =~= old_b);
        }
    } else {
        proof {
            assert(content(current@) == Multiset::<Seq<char>>::empty());
            assert(batches_content(batches@).add(content(current@)) =~= batches_content(batches@));
            assert(labels_of(current@) =~= Seq::<Seq<char>>::empty());
            assert(concat_labels(batches@) + labels_of(current@) =~= concat_labels(batches@));
        }
    }
    proof {
        assert(mv.take(k as int) =~= mv);
        assert(ov.take(k as int) =~= ov);
        lemma_order_content(a@, ov);
    }
    batches
}

/// The output prefix of batch `batch` of round `iter`, with the round's salt.
fn new_batch_prefix(temp_dir: &String, iter: usize, salt: usize, batch: usize) -> (r: String)
    ensures
        r@ == batch_prefix(temp_dir@, iter as nat, salt as nat, batch as nat),
{
    let mut p = temp_dir.clone();
    p.append("/");
    p.append(decimal_string(iter).as_str());
    p.append("_");
    p.append(decimal_string(salt).as_str());
    p.append("-");
    p.append(decimal_string(batch).as_str());
    p.append("-");
    p
}

impl Dereplicator {
    /// Everything but the planned batches is as in `other`.
    pub open spec fn same_run(&self, other: &Dereplicator) -> bool {
        &&& self.batch_step == other.batch_step
        &&& self.strategy == other.strategy
        &&& self.max_iters == other.max_iters
        &&& self.temp_dir == other.temp_dir
        &&& self.guided == other.guided
        &&& self.initial_batches == other.initial_batches
        &&& self.iter == other.iter
        &&& self.batch_size == other.batch_size
        &&& self.stage == other.stage
        &&& self.clusters == other.clusters
        &&& self.input == other.input
    }

    /// The label order of a batched round that is neither guided nor given:
    /// the order of the clusters.
    pub open spec fn spec_plain_order(&self) -> bool {
        self.stage == Stage::Batching && !self.guided && !(self.iter == 0
            && self.initial_batches is Some)
    }

    /// Plans the next round: orders the clusters, cuts them into batches and
    /// returns the labels of each batch, whose files the caller compares.
    /// The first round takes `initial_batches` as its order when given; a
    /// guided round orders by the coarse partition `coarse` of the sorted
    /// cluster labels, then by label; the last round takes all clusters as
    /// one batch.
    pub fn plan_round(&mut self, coarse: &Option<Vec<usize>>) -> (r: Result<
        Vec<Vec<String>>,
        DereplicationError,
    >)
        requires
            old(self).wf(),
        ensures
            final(self).wf(),
            r is Err ==> *final(self) == *old(self),
            (r is Err && r->Err_0 == DereplicationError::WrongStage) <==> old(self).stage
                == Stage::Done,
            (r is Err && r->Err_0 == DereplicationError::InitialBatches) <==> (old(self).stage
                == Stage::Batching && old(self).iter == 0 && old(self).initial_batches is Some
                && names(old(self).initial_batches->0@).to_multiset() != labels_of(
                old(self).clusters@,
            ).to_multiset()),
            (r is Err && r->Err_0 == DereplicationError::MissingGuide) <==> (
            old(self).spec_needs_guide() && coarse is None),
            (r is Err && r->Err_0 == DereplicationError::MissingGroup) <==> (
            old(self).spec_needs_guide() && coarse is Some && !(forall|i: int|
                0 <= i < old(self).clusters@.len() ==> #[trigger] partition_index(
                    labels_of(old(self).clusters@),
                    old(self).clusters@[i].label@,
                    coarse->0@.len(),
                ) is Some)),
            r is Err ==> (r->Err_0 == DereplicationError::WrongStage || r->Err_0
                == DereplicationError::InitialBatches || r->Err_0
                == DereplicationError::MissingGuide || r->Err_0
                == DereplicationError::MissingGroup),
            r is Ok ==> ({
                let d = *final(self);
                let o = *old(self);
                &&& d.same_run(&o)
                &&& d.batches@.len() >= 1
                &&& r->Ok_0@.len() == d.batches@.len()
                &&& forall|c: int|
                    0 <= c < d.batches@.len() ==> names(#[trigger] r->Ok_0@[c]@) == labels_of(
                        d.batches@[c]@,
                    )
                &&& forall|c: int|
                    0 <= c < d.batches@.len() ==> faithful((#[trigger] d.batches@[c])@, o.clusters@)
                &&& o.stage == Stage::FinalRound ==> d.batches@.len() == 1 && concat_labels(
                    d.batches@,
                ) == labels_of(o.clusters@) && d.prefixes@[0]@ == "panANI-"@
                &&& o.stage == Stage::Batching ==> {
                    &&& forall|c: int|
                        0 <= c < d.batches@.len() ==> 1 <= (#[trigger] d.batches@[c])@.len()
                            <= o.batch_size
                    &&& forall|c: int|
                        0 <= c < d.batches@.len() - 1 ==> (#[trigger] d.batches@[c])@.len()
                            == o.batch_size
                    &&& forall|c: int|
                        0 <= c < d.prefixes@.len() ==> is_batch_prefix(
                            #[trigger] d.prefixes@[c]@,
                            o.temp_dir@,
                            o.iter as nat,
                            c as nat,
                        )
                    &&& forall|c1: int, c2: int|
                        0 <= c1 < d.prefixes@.len() && 0 <= c2 < d.prefixes@.len() && c1 != c2
                            ==> #[trigger] d.prefixes@[c1]@ != #[trigger] d.prefixes@[c2]@
                    &&& concat_labels(d.batches@).to_multiset() == labels_of(
                        o.clusters@,
                    ).to_multiset()
                }
                &&& (o.stage == Stage::Batching && o.iter == 0 && o.initial_batches is Some)
                    ==> concat_labels(d.batches@) == names(o.initial_batches->0@)
                &&& o.spec_plain_order() ==> concat_labels(d.batches@) == labels_of(o.clusters@)
                &&& o.spec_needs_guide() ==> forall|i: int, j: int|
                    0 <= i < j < concat_labels(d.batches@).len() ==> crate::foreign::group_pair_le(
                        (
                            crate::schedule::coarse_group(
                                labels_of(o.clusters@),
                                coarse->0@,
                                concat_labels(d.batches@)[i],
                            ),
                            concat_labels(d.batches@)[i],
                        ),
                        (
                            crate::schedule::coarse_group(
                                labels_of(o.clusters@),
                                coarse->0@,
                                concat_labels(d.batches@)[j],
                            ),
                            concat_labels(d.batches@)[j],
                        ),
                    )
            }),
    {
        if matches!(self.stage, Stage::Done) {
            return Err(DereplicationError::WrongStage);
        }
        let labels = representatives(&self.clusters);
        let final_round = matches!(self.stage, Stage::FinalRound);
        let order: Vec<String> = if final_round {
            labels
        } else if self.iter == 0 && self.initial_batches.is_some() {
            let given = match &self.initial_batches {
                Some(v) => copy_names(v),
                None => Vec::new(),
            };
            if !is_rearrangement(&given, &self.clusters) {
                return Err(DereplicationError::InitialBatches);
            }
            given
        } else if self.guided {
            match coarse {
                None => {
                    return Err(DereplicationError::MissingGuide);
                },
                Some(groups) => {
                    match guide_batching(&labels, groups) {
                        Some(o) => o,
                        None => {
                            proof {
                                let i = choose|i: int|
                                    0 <= i < labels@.len() && !(#[trigger] partition_index(
                                        names(labels@),
                                        labels@[i]@,
                                        groups@.len(),
                                    ) is Some);
                                assert(names(labels@)[i] == labels_of(self.clusters@)[i]);
                                assert(labels@[i]@ == self.clusters@[i].label@);
                            }
                            return Err(DereplicationError::MissingGroup);
                        },
                    }
                },
            }
        } else {
            labels
        };
        proof {
            if self.spec_needs_guide() {
                assert forall|i: int| 0 <= i < self.clusters@.len() implies #[trigger] partition_index(
                    labels_of(self.clusters@),
                    self.clusters@[i].label@,
                    coarse->0@.len(),
                ) is Some by {
                    assert(names(labels@)[i] == self.clusters@[i].label@);
                }
            }
        }
        let size = if final_round {
            if self.clusters.len() == 0 {
                1
            } else {
                self.clusters.len()
            }
        } else {
            self.batch_size
        };
        let mut batches = build_batches(&self.clusters, &order, size);
        if batches.len() == 0 {
            proof {
                broadcast use vstd::seq_lib::group_to_multiset_ensures;

                assert(names(order@).len() == 0);
                assert(names(order@).to_multiset().len() == 0);
                assert(labels_of(self.clusters@).to_multiset().len() == 0);
                assert(self.clusters@.len() == 0);
            }
            let ghost b0 = batches@;
            batches.push(Vec::new());
            proof {
                assert(batches@.drop_last() =~= b0);
                assert(batches_content(b0) == Multiset::<Seq<char>>::empty());
                assert(batches_content(batches@) =~= Multiset::<Seq<char>>::empty());
                assert(concat_labels(batches@) =~= concat_labels(b0));
            }
        }
        let salt = random_salt();
        let mut prefixes: Vec<String> = Vec::new();
        let mut out: Vec<Vec<String>> = Vec::new();
        let mut c: usize = 0;
        while c < batches.len()
            invariant
                c <= batches@.len(),
                prefixes@.len() == c,
                out@.len() == c,
                forall|x: int| 0 <= x < c ==> names(#[trigger] out@[x]@) == labels_of(batches@[x]@),
                !final_round ==> forall|x: int|
                    0 <= x < c ==> #[trigger] prefixes@[x]@ == batch_prefix(
                        self.temp_dir@,
                        self.iter as nat,
                        salt as nat,
                        x as nat,
                    ),
                final_round ==> forall|x: int| 0 <= x < c ==> #[trigger] prefixes@[x]@ == "panANI-"@,
            decreases batches@.len() - c,
        {
            if final_round {
                prefixes.push(String::from_str("panANI-"));
            } else {
                prefixes.push(new_batch_prefix(&self.temp_dir, self.iter, salt, c));
            }
            out.push(representatives(&batches[c]));
            c = c + 1;
        }
        proof {
            if final_round {
                if self.clusters@.len() > 0 {
                    assert(batches@.len() == 1) by {
                        if batches@.len() > 1 {
                            assert(batches@[0]@.len() == size);
                            assert(concat_labels(batches@).len() > size) by {
                                lemma_concat_labels_len(batches@);
                            }
                        }
                    }
                }
            }
        }
        let ghost o = *self;
        proof {
            if !final_round {
                let base = round_prefix(self.temp_dir@, self.iter as nat, salt as nat);
                assert forall|c1: int, c2: int|
                    0 <= c1 < prefixes@.len() && 0 <= c2 < prefixes@.len() && c1 != c2 implies #[trigger] prefixes@[c1]@
                        != #[trigger] prefixes@[c2]@ by {
                    lemma_batch_prefix_distinct(base, c1 as nat, c2 as nat);
                }
                assert forall|x: int| 0 <= x < prefixes@.len() implies is_batch_prefix(
                    #[trigger] prefixes@[x]@,
                    self.temp_dir@,
                    self.iter as nat,
                    x as nat,
                ) by {
                    assert(prefixes@[x]@ == batch_prefix(self.temp_dir@, self.iter as nat, salt as nat, x as nat));
                }
            }
        }
        self.batches = batches;
        self.prefixes = prefixes;
        proof {
            let d = *self;
            if o.spec_needs_guide() {
                let cl = concat_labels(d.batches@);
                assert forall|i: int, j: int|
                    0 <= i < j < cl.len() implies crate::foreign::group_pair_le(
                        (crate::schedule::coarse_group(labels_of(o.clusters@), coarse->0@, cl[i]), cl[i]),
                        (crate::schedule::coarse_group(labels_of(o.clusters@), coarse->0@, cl[j]), cl[j]),
                    ) by {
                    assert(cl[i] == order@[i]@);
                    assert(cl[j] == order@[j]@);
                }
            }
        }
        Ok(out)
    }
}

proof fn lemma_concat_labels_len(b: Seq<Vec<Cluster>>)
    requires
        b.len() >= 2,
    ensures
        concat_labels(b).len() >= b[0]@.len() + b[b.len() - 1]@.len(),
    decreases b.len(),
{
    if b.len() > 2 {
        lemma_concat_labels_len(b.drop_last());
    } else {
        assert(concat_labels(b.drop_last()) == concat_labels(b.drop_last().drop_last()) + labels_of(
            b[0]@,
        ));
    }
}

/// The sequences of the clusters of `res`, list after list.
pub open spec fn concat_members(res: Seq<Seq<Cluster>>) -> Seq<Seq<char>>
    decreases res.len(),
{
    if res.len() == 0 {
        Seq::empty()
    } else {
        concat_members(res.drop_last()) + flat_members(res.last())
    }
}

/// The label of each sequence of `concat_members(res)`.
pub open spec fn concat_flat_labels(res: Seq<Seq<Cluster>>) -> Seq<Seq<char>>
    decreases res.len(),
{
    if res.len() == 0 {
        Seq::empty()
    } else {
        concat_flat_labels(res.drop_last()) + flat_labels(res.last())
    }
}

/// `res` holds the outcome of a round over each of `batches`, whose flat
/// partitions are `partitions`.
pub open spec fn batch_outcomes(
    batches: Seq<Vec<Cluster>>,
    prefixes: Seq<String>,
    partitions: Seq<Vec<usize>>,
    res: Seq<Seq<Cluster>>,
) -> bool {
    &&& res.len() == batches.len()
    &&& forall|c: int|
        0 <= c < res.len() ==> #[trigger] round_labels(batches[c]@, prefixes[c]@, partitions[c]@) is Some
            && groups_by_label(
            res[c],
            flat_members(batches[c]@),
            round_labels(batches[c]@, prefixes[c]@, partitions[c]@)->0,
            flat_members(batches[c]@).len(),
        )
}

impl Dereplicator {
    /// Ends the planned round: `partitions[c]` is the flat partition of the
    /// sorted labels of batch `c`. Each batch is relabelled, the batches'
    /// clusters are merged by label, and the batch size grows; after the last
    /// round the clustering is final. Returns the clusters whose pangenome is
    /// to be built.
    pub fn finish_round(&mut self, partitions: &Vec<Vec<usize>>) -> (r: Result<
        Vec<Cluster>,
        DereplicationError,
    >)
        requires
            old(self).wf(),
        ensures
            final(self).wf(),
            final(self).input == old(self).input,
            r is Err ==> *final(self) == *old(self),
            (r is Err && r->Err_0 == DereplicationError::WrongStage) <==> (old(self).stage
                == Stage::Done || old(self).batches@.len() == 0),
            (r is Err && r->Err_0 == DereplicationError::PartitionCount) <==> (old(self).stage
                != Stage::Done && old(self).batches@.len() > 0 && partitions@.len()
                != old(self).batches@.len()),
            (r is Err && r->Err_0 == DereplicationError::MissingGroup) <==> (old(self).stage
                != Stage::Done && old(self).batches@.len() > 0 && partitions@.len()
                == old(self).batches@.len() && exists|c: int|
                0 <= c < partitions@.len() && #[trigger] round_labels(
                    old(self).batches@[c]@,
                    old(self).prefixes@[c]@,
                    partitions@[c]@,
                ) is None),
            r is Err ==> (r->Err_0 == DereplicationError::WrongStage || r->Err_0
                == DereplicationError::PartitionCount || r->Err_0
                == DereplicationError::MissingGroup),
            r is Ok ==> ({
                let d = *final(self);
                let o = *old(self);
                &&& d.batches@.len() == 0
                &&& d.batch_step == o.batch_step && d.strategy == o.strategy && d.max_iters
                    == o.max_iters && d.temp_dir == o.temp_dir && d.guided == o.guided
                    && d.initial_batches == o.initial_batches
                &&& r->Ok_0@.map_values(|c: Cluster| cluster_view(c)) == shared_clusters(
                    d.clusters@,
                )
                &&& o.stage == Stage::Batching ==> {
                    &&& d.iter == o.iter + 1
                    &&& d.batch_size as nat == next_size(
                        o.batch_size as nat,
                        o.batch_step as nat,
                        o.strategy,
                        d.clusters@.len(),
                    )
                    &&& d.stage == stage_after(
                        d.batch_size as nat,
                        d.clusters@.len(),
                        d.iter as nat,
                        d.max_iters as nat,
                    )
                    &&& exists|res: Seq<Seq<Cluster>>|
                        batch_outcomes(o.batches@, o.prefixes@, partitions@, res)
                            && groups_by_label(
                            d.clusters@,
                            concat_members(res),
                            concat_flat_labels(res),
                            concat_members(res).len(),
                        )
                }
                &&& o.stage == Stage::FinalRound ==> {
                    &&& d.iter == o.iter
                    &&& d.batch_size == o.batch_size
                    &&& d.stage == Stage::Done
                    &&& groups_by_label(
                        d.clusters@,
                        flat_members(o.batches@[0]@),
                        round_labels(o.batches@[0]@, o.prefixes@[0]@, partitions@[0]@)->0,
                        flat_members(o.batches@[0]@).len(),
                    )
                    &&& forall|j: int|
                        0 <= j < d.clusters@.len() && #[trigger] d.clusters@[j].members@.len() == 1
                            ==> d.clusters@[j].label@ == d.clusters@[j].members@[0]@
                }
            }),
    {
        if matches!(self.stage, Stage::Done) || self.batches.len() == 0 {
            return Err(DereplicationError::WrongStage);
        }
        if partitions.len() != self.batches.len() {
            return Err(DereplicationError::PartitionCount);
        }
        if matches!(self.stage, Stage::FinalRound) {
            let res = match dereplicate_iter(&self.batches[0], &self.prefixes[0], &partitions[0]) {
                Some(v) => v,
                None => {
                    return Err(DereplicationError::MissingGroup);
                },
            };
            proof {
                let b = self.batches@;
                assert(b.drop_last() =~= Seq::<Vec<Cluster>>::empty());
                assert(b.last() == b[0]);
                assert(batches_content(b) == batches_content(b.drop_last()).add(content(b[0]@)));
                assert(batches_content(Seq::<Vec<Cluster>>::empty()) == Multiset::<Seq<char>>::empty());
                assert(batches_content(b) =~= content(b[0]@));
            }
            let to_build = graphs_to_build(&res);
            self.clusters = res;
            self.stage = Stage::Done;
            self.batches = Vec::new();
            self.prefixes = Vec::new();
            return Ok(to_build);
        }
        let ghost bs = self.batches@;
        let mut all_seqs: Vec<String> = Vec::new();
        let mut all_labels: Vec<String> = Vec::new();
        let ghost mut res: Seq<Seq<Cluster>> = Seq::empty();
        let mut c: usize = 0;
        proof {
            assert(bs.take(0) =~= Seq::<Vec<Cluster>>::empty());
            crate::assignment::lemma_empty_to_multiset();
        }
        while c < self.batches.len()
            invariant
                *self == *old(self),
                old(self).wf(),
                self.stage == Stage::Batching,
                bs.len() > 0,
                c <= bs.len(),
                bs == self.batches@,
                self.batches@.len() == self.prefixes@.len(),
                partitions@.len() == bs.len(),
                res.len() == c,
                forall|x: int|
                    0 <= x < c ==> #[trigger] round_labels(bs[x]@, self.prefixes@[x]@, partitions@[x]@) is Some
                        && groups_by_label(
                        res[x],
                        flat_members(bs[x]@),
                        round_labels(bs[x]@, self.prefixes@[x]@, partitions@[x]@)->0,
                        flat_members(bs[x]@).len(),
                    ),
                names(all_seqs@) == concat_members(res),
                names(all_labels@) == concat_flat_labels(res),
                all_seqs@.len() == all_labels@.len(),
                concat_members(res).to_multiset() == batches_content(bs.take(c as int)),
            decreases bs.len() - c,
        {
            let out = match dereplicate_iter(&self.batches[c], &self.prefixes[c], &partitions[c]) {
                Some(v) => v,
                None => {
                    assert(round_labels(bs[c as int]@, self.prefixes@[c as int]@, partitions@[c as int]@) is None);
                    return Err(DereplicationError::MissingGroup);
                },
            };
            let (mut seqs, mut labels) = flatten(&out);
            let ghost s0 = all_seqs@;
            let ghost l0 = all_labels@;
            all_seqs.append(&mut seqs);
            all_labels.append(&mut labels);
            proof {
                let r0 = res;
                res = res.push(out@);
                assert(res.drop_last() =~= r0);
                assert(names(all_seqs@) =~= names(s0) + flat_members(out@));
                assert(names(all_labels@) =~= names(l0) + flat_labels(out@));
                lemma_content_flat(out@);
                vstd::seq_lib::lemma_multiset_commutative(concat_members(r0), flat_members(out@));
                assert(bs.take(c + 1).drop_last() =~= bs.take(c as int));
                assert(bs.take(c + 1).last() == bs[c as int]);
            }
            c = c + 1;
        }
        let merged = assign_seqs(&all_seqs, &all_labels);
        proof {
            assert(bs.take(c as int) =~= bs);
            assert(names(all_seqs@).take(all_seqs@.len() as int) =~= names(all_seqs@));
            assert(batch_outcomes(bs, self.prefixes@, partitions@, res));
            assert(content(merged@) == self.input@);
            assert(forall|x: int| 0 <= x < partitions@.len() ==> !(#[trigger] round_labels(
                    bs[x]@,
                    self.prefixes@[x]@,
                    partitions@[x]@,
                ) is None));
        }
        let n = merged.len();
        let new_size = next_batch_size(self.batch_size, self.batch_step, self.strategy, n);
        proof {
            lemma_avoid_lone_batch_bounds(n as nat, if crate::schedule::grown(self.batch_size as nat, self.batch_step as nat, self.strategy) <= usize::MAX {
                crate::schedule::grown(self.batch_size as nat, self.batch_step as nat, self.strategy)
            } else {
                usize::MAX as nat
            });
        }
        let iter = self.iter + 1;
        let to_build = graphs_to_build(&merged);
        self.stage = if new_size < n && iter < self.max_iters {
            Stage::Batching
        } else {
            Stage::FinalRound
        };
        let ghost o = *self;
        let ghost pre = self.prefixes@;
        self.clusters = merged;
        self.iter = iter;
        self.batch_size = new_size;
        self.batches = Vec::new();
        self.prefixes = Vec::new();
        proof {
            assert(batch_outcomes(bs, pre, partitions@, res) && groups_by_label(
                self.clusters@,
                concat_members(res),
                concat_flat_labels(res),
                concat_members(res).len(),
            ));
        }
        Ok(to_build)
    }
}

/// Each sequence of `a` with the label of its cluster, as (label, sequence).
pub open spec fn label_pairs(a: Seq<Cluster>) -> Seq<(Seq<char>, Seq<char>)> {
    Seq::new(flat_members(a).len(), |i: int| (flat_labels(a)[i], flat_members(a)[i]))
}

/// A (sequence, label) pair by its values, label first.
pub open spec fn output_view(p: (String, String)) -> (Seq<char>, Seq<char>) {
    (p.1@, p.0@)
}

impl Dereplicator {
    /// Every sequence with the label of its cluster, sorted by label, then
    /// by sequence. After the last round this is the final clustering.
    pub fn labelled_sequences(&self) -> (r: Vec<(String, String)>)
        requires
            self.wf(),
        ensures
            r@.map_values(|p: (String, String)| output_view(p)).to_multiset() == label_pairs(
                self.clusters@,
            ).to_multiset(),
            r@.map_values(|p: (String, String)| p.0@).to_multiset() == self.input@,
            forall|i: int, j: int|
                0 <= i < j < r@.len() ==> name_pair_le(
                    output_view(#[trigger] r@[i]),
                    output_view(#[trigger] r@[j]),
                ),
    {
        let (seqs, labels) = flatten(&self.clusters);
        proof {
            crate::assignment::lemma_flat_lengths(self.clusters@);
            lemma_content_flat(self.clusters@);
        }
        let r = sort_by_label(&seqs, &labels);
        proof {
            assert(paired(names(seqs@), names(labels@)) =~= label_pairs(self.clusters@));
            assert(names(seqs@).take(seqs@.len() as int) =~= names(seqs@));
        }
        r
    }
}

/// The first `min(|seqs|, |labels|)` sequences, each with its label, label
/// first.
pub open spec fn paired(seqs: Seq<Seq<char>>, labels: Seq<Seq<char>>) -> Seq<(Seq<char>, Seq<char>)> {
    Seq::new(
        if seqs.len() <= labels.len() {
            seqs.len()
        } else {
            labels.len()
        },
        |i: int| (labels[i], seqs[i]),
    )
}

/// Pairs each of `seqs` with the label at the same place of `labels` and
/// sorts the (sequence, label) pairs by label, then by sequence; where the
/// two differ in length the extra entries are ignored.
pub fn sort_by_label(seqs: &Vec<String>, labels: &Vec<String>) -> (r: Vec<(String, String)>)
    ensures
        r@.map_values(|p: (String, String)| output_view(p)).to_multiset() == paired(
            names(seqs@),
            names(labels@),
        ).to_multiset(),
        r@.map_values(|p: (String, String)| p.0@).to_multiset() == names(seqs@).take(
            paired(names(seqs@), names(labels@)).len() as int,
        ).to_multiset(),
        forall|i: int, j: int|
            0 <= i < j < r@.len() ==> name_pair_le(
                output_view(#[trigger] r@[i]),
                output_view(#[trigger] r@[j]),
            ),
{
    let n: usize = if seqs.len() <= labels.len() {
        seqs.len()
    } else {
        labels.len()
    };
    let ghost want = paired(names(seqs@), names(labels@));
    let mut pairs: Vec<(String, String)> = Vec::new();
    let mut i: usize = 0;
    while i < n
        invariant
            i <= n,
            n <= seqs@.len(),
            n <= labels@.len(),
            want == paired(names(seqs@), names(labels@)),
            want.len() == n,
            pairs@.len() == i,
            forall|k: int| 0 <= k < i ==> #[trigger] name_pair_view(pairs@[k]) == want[k],
        decreases n - i,
    {
        pairs.push((labels[i].clone(), seqs[i].clone()));
        i = i + 1;
    }
    let ghost pv = pairs@.map_values(|p: (String, String)| name_pair_view(p));
    proof {
        assert(pv =~= want);
    }
    let sorted = sorted_name_pairs(pairs);
    let mut r: Vec<(String, String)> = Vec::new();
    let mut k: usize = 0;
    while k < sorted.len()
        invariant
            k <= sorted@.len(),
            r@.len() == k,
            forall|x: int|
                0 <= x < k ==> #[trigger] output_view(r@[x]) == name_pair_view(sorted@[x]),
        decreases sorted@.len() - k,
    {
        let p = &sorted[k];
        r.push((p.1.clone(), p.0.clone()));
        k = k + 1;
    }
    proof {
        let sv = sorted@.map_values(|p: (String, String)| name_pair_view(p));
        let rv = r@.map_values(|p: (String, String)| output_view(p));
        assert(rv =~= sv);
        let snd = |p: (Seq<char>, Seq<char>)| p.1;
        lemma_map_multiset(rv, want, snd);
        assert(rv.map_values(snd) =~= r@.map_values(|p: (String, String)| p.0@));
        assert(want.map_values(snd) =~= names(seqs@).take(n as int));
        assert forall|a: int, b: int| 0 <= a < b < r@.len() implies name_pair_le(
            output_view(#[trigger] r@[a]),
            output_view(#[trigger] r@[b]),
        ) by {
            assert(name_pair_le(name_pair_view(sorted@[a]), name_pair_view(sorted@[b])));
        }
    }
    r
}

} // verus!
