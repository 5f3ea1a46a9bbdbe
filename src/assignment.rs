//! Cluster assignments: which sequences each cluster label holds.
use vstd::multiset::Multiset;
use vstd::prelude::*;

use crate::foreign::{decimal, decimal_string};
use crate::order::{str_le, str_lt, string_le, string_lt};

verus! {

/// A cluster: its label and the sequences assigned to it.
#[derive(Debug)]
pub struct Cluster {
    pub label: String,
    pub members: Vec<String>,
}

/// The text of each string.
pub open spec fn names(v: Seq<String>) -> Seq<Seq<char>> {
    v.map_values(|s: String| s@)
}

/// The sequences of `c`.
pub open spec fn members_of(c: Cluster) -> Seq<Seq<char>> {
    names(c.members@)
}

/// Labels are unique and no cluster is empty.
pub open spec fn is_assignment(a: Seq<Cluster>) -> bool {
    &&& forall|i: int, j: int|
        0 <= i < a.len() && 0 <= j < a.len() && i != j ==> #[trigger] a[i].label@
            != #[trigger] a[j].label@
    &&& forall|i: int| 0 <= i < a.len() ==> #[trigger] a[i].members@.len() > 0
}

/// The sequences of all clusters taken together, counted with repetition.
pub open spec fn content(a: Seq<Cluster>) -> Multiset<Seq<char>>
    decreases a.len(),
{
    if a.len() == 0 {
        Multiset::empty()
    } else {
        content(a.drop_last()).add(members_of(a.last()).to_multiset())
    }
}

/// Among the first `i` sequences, in order, those whose label is `l`.
pub open spec fn members_labelled(
    seqs: Seq<Seq<char>>,
    labels: Seq<Seq<char>>,
    l: Seq<char>,
    i: nat,
) -> Seq<Seq<char>>
    decreases i,
{
    if i == 0 {
        Seq::empty()
    } else {
        let prev = members_labelled(seqs, labels, l, (i - 1) as nat);
        if labels[i - 1] == l {
            prev.push(seqs[i - 1])
        } else {
            prev
        }
    }
}

/// `a` groups the first `n` sequences by their labels: one cluster per label
/// that occurs, holding the sequences with that label in their order.
pub open spec fn groups_by_label(
    a: Seq<Cluster>,
    seqs: Seq<Seq<char>>,
    labels: Seq<Seq<char>>,
    n: nat,
) -> bool {
    &&& is_assignment(a)
    &&& forall|j: int|
        0 <= j < a.len() ==> exists|k: int| 0 <= k < n && labels[k] == #[trigger] a[j].label@
    &&& forall|k: int| 0 <= k < n ==> exists|j: int| 0 <= j < a.len() && a[j].label@ == #[trigger] labels[k]
    &&& forall|j: int|
        0 <= j < a.len() ==> #[trigger] members_of(a[j]) == members_labelled(
            seqs,
            labels,
            a[j].label@,
            n,
        )
    &&& content(a) == seqs.take(n as int).to_multiset()
}

pub proof fn lemma_content_push(a: Seq<Cluster>, c: Cluster)
    ensures
        content(a.push(c)) == content(a).add(members_of(c).to_multiset()),
{
    assert(a.push(c).drop_last() =~= a);
}

pub proof fn lemma_content_update(a: Seq<Cluster>, j: int, c: Cluster)
    requires
        0 <= j < a.len(),
    ensures
        content(a.update(j, c)).add(members_of(a[j]).to_multiset()) =~= content(a).add(
            members_of(c).to_multiset(),
        ),
    decreases a.len(),
{
    let b = a.update(j, c);
    let ma = members_of(a[j]).to_multiset();
    let mc = members_of(c).to_multiset();
    let ml = members_of(a.last()).to_multiset();
    assert(content(b) == content(b.drop_last()).add(members_of(b.last()).to_multiset()));
    assert(content(a) == content(a.drop_last()).add(ml));
    if j == a.len() - 1 {
        assert(b.drop_last() =~= a.drop_last());
        assert(b.last() == c);
        assert(content(a.drop_last()).add(mc).add(ma) =~= content(a.drop_last()).add(ma).add(mc));
    } else {
        assert(b.drop_last() =~= a.drop_last().update(j, c));
        assert(b.last() == a.last());
        lemma_content_update(a.drop_last(), j, c);
        let x = content(a.drop_last().update(j, c));
        assert(x.add(ma) == content(a.drop_last()).add(mc));
        assert(x.add(ml).add(ma) =~= x.add(ma).add(ml));
        assert(content(a.drop_last()).add(mc).add(ml) =~= content(a.drop_last()).add(ml).add(mc));
    }
}

pub proof fn lemma_empty_to_multiset()
    ensures
        Seq::<Seq<char>>::empty().to_multiset() =~= Multiset::empty(),
{
    vstd::seq_lib::to_multiset_len(Seq::<Seq<char>>::empty());
    vstd::multiset::lemma_multiset_empty_len(Seq::<Seq<char>>::empty().to_multiset());
}

proof fn lemma_members_labelled_absent(
    seqs: Seq<Seq<char>>,
    labels: Seq<Seq<char>>,
    l: Seq<char>,
    i: nat,
)
    requires
        forall|k: int| 0 <= k < i ==> labels[k] != l,
    ensures
        members_labelled(seqs, labels, l, i) == Seq::<Seq<char>>::empty(),
    decreases i,
{
    if i > 0 {
        lemma_members_labelled_absent(seqs, labels, l, (i - 1) as nat);
    }
}

proof fn lemma_multiset_cancel(a: Multiset<Seq<char>>, b: Multiset<Seq<char>>, m: Multiset<Seq<char>>, x: Seq<char>)
    requires
        a.add(m) == b.add(m.insert(x)),
    ensures
        a =~= b.insert(x),
{
    broadcast use vstd::multiset::group_multiset_axioms;

    assert forall|v: Seq<char>| a.count(v) == b.insert(x).count(v) by {
        assert(a.add(m).count(v) == b.add(m.insert(x)).count(v));
        assert(a.add(m).count(v) == a.count(v) + m.count(v));
        assert(b.add(m.insert(x)).count(v) == b.count(v) + m.insert(x).count(v));
        assert(m.insert(x).count(v) == m.count(v) + Multiset::singleton(x).count(v));
        assert(b.insert(x).count(v) == b.count(v) + Multiset::singleton(x).count(v));
    }
}

proof fn lemma_assign_existing_content(old_r: Seq<Cluster>, r: Seq<Cluster>, j: int, x: Seq<char>)
    requires
        0 <= j < old_r.len(),
        r.len() == old_r.len(),
        r[j].label == old_r[j].label,
        r[j].members@ == old_r[j].members@.push(r[j].members@.last()),
        r[j].members@.last()@ == x,
        forall|jj: int| 0 <= jj < r.len() && jj != j ==> r[jj] == old_r[jj],
    ensures
        content(r) =~= content(old_r).insert(x),
{
    let c = r[j];
    assert(members_of(c) =~= members_of(old_r[j]).push(x));
    lemma_content_update(old_r, j, c);
    assert(r =~= old_r.update(j, c));
    vstd::seq_lib::to_multiset_build(members_of(old_r[j]), x);
    let mo = members_of(old_r[j]).to_multiset();
    lemma_multiset_cancel(content(r), content(old_r), mo, x);
}

proof fn lemma_assign_existing_labels(
    old_r: Seq<Cluster>,
    r: Seq<Cluster>,
    lv: Seq<Seq<char>>,
    i: nat,
    j: int,
)
    requires
        i < lv.len(),
        is_assignment(old_r),
        forall|jj: int|
            0 <= jj < old_r.len() ==> exists|k: int| 0 <= k < i && lv[k] == #[trigger] old_r[jj].label@,
        forall|k: int| 0 <= k < i ==> exists|jj: int| 0 <= jj < old_r.len() && old_r[jj].label@ == #[trigger] lv[k],
        0 <= j < old_r.len(),
        old_r[j].label@ == lv[i as int],
        r.len() == old_r.len(),
        forall|jj: int| 0 <= jj < r.len() ==> #[trigger] r[jj].label == old_r[jj].label,
        forall|jj: int| 0 <= jj < r.len() ==> #[trigger] r[jj].members@.len() >= old_r[jj].members@.len(),
    ensures
        is_assignment(r),
        forall|jj: int|
            0 <= jj < r.len() ==> exists|k: int| 0 <= k < i + 1 && lv[k] == #[trigger] r[jj].label@,
        forall|k: int| 0 <= k < i + 1 ==> exists|jj: int| 0 <= jj < r.len() && r[jj].label@ == #[trigger] lv[k],
{
    assert forall|jj: int| 0 <= jj < r.len() implies exists|k: int|
        0 <= k < i + 1 && lv[k] == #[trigger] r[jj].label@ by {
        assert(r[jj].label@ == old_r[jj].label@);
    }
    assert forall|k: int| 0 <= k < i + 1 implies exists|jj: int|
        0 <= jj < r.len() && r[jj].label@ == #[trigger] lv[k] by {
        if k == i {
            assert(r[j].label@ == lv[k]);
        } else {
            let jj = choose|jj: int| 0 <= jj < old_r.len() && old_r[jj].label@ == lv[k];
            assert(r[jj].label@ == lv[k]);
        }
    }
    assert forall|a: int, b: int|
        0 <= a < r.len() && 0 <= b < r.len() && a != b implies #[trigger] r[a].label@
            != #[trigger] r[b].label@ by {
        assert(old_r[a].label@ != old_r[b].label@);
    }
    assert forall|a: int| 0 <= a < r.len() implies #[trigger] r[a].members@.len() > 0 by {
        assert(old_r[a].members@.len() > 0);
    }
}

proof fn lemma_assign_existing_take(
    old_r: Seq<Cluster>,
    r: Seq<Cluster>,
    sv: Seq<Seq<char>>,
    i: nat,
    j: int,
    x: Seq<char>,
)
    requires
        i < sv.len(),
        x == sv[i as int],
        content(old_r) == sv.take(i as int).to_multiset(),
        0 <= j < old_r.len(),
        r.len() == old_r.len(),
        r[j].label == old_r[j].label,
        r[j].members@ == old_r[j].members@.push(r[j].members@.last()),
        r[j].members@.last()@ == x,
        forall|jj: int| 0 <= jj < r.len() && jj != j ==> r[jj] == old_r[jj],
    ensures
        content(r) == sv.take((i + 1) as int).to_multiset(),
{
    lemma_assign_existing_content(old_r, r, j, x);
    assert(sv.take((i + 1) as int) =~= sv.take(i as int).push(x));
    vstd::seq_lib::to_multiset_build(sv.take(i as int), x);
}

proof fn lemma_assign_existing_members(
    old_r: Seq<Cluster>,
    r: Seq<Cluster>,
    sv: Seq<Seq<char>>,
    lv: Seq<Seq<char>>,
    i: nat,
    j: int,
    x: Seq<char>,
)
    requires
        i < sv.len(),
        i < lv.len(),
        x == sv[i as int],
        is_assignment(old_r),
        forall|jj: int|
            0 <= jj < old_r.len() ==> #[trigger] members_of(old_r[jj]) == members_labelled(
                sv,
                lv,
                old_r[jj].label@,
                i,
            ),
        0 <= j < old_r.len(),
        old_r[j].label@ == lv[i as int],
        r.len() == old_r.len(),
        r[j].label == old_r[j].label,
        r[j].members@ == old_r[j].members@.push(r[j].members@.last()),
        r[j].members@.last()@ == x,
        forall|jj: int| 0 <= jj < r.len() && jj != j ==> r[jj] == old_r[jj],
    ensures
        forall|jj: int|
            0 <= jj < r.len() ==> #[trigger] members_of(r[jj]) == members_labelled(
                sv,
                lv,
                r[jj].label@,
                i + 1,
            ),
{
    assert forall|jj: int| 0 <= jj < r.len() implies #[trigger] members_of(r[jj])
        == members_labelled(sv, lv, r[jj].label@, i + 1) by {
        if jj != j {
            assert(old_r[jj].label@ != old_r[j].label@);
        } else {
            assert(members_of(r[j]) =~= members_of(old_r[j]).push(x));
        }
    }
}

#[verifier::rlimit(50)]
proof fn lemma_assign_existing(
    old_r: Seq<Cluster>,
    r: Seq<Cluster>,
    sv: Seq<Seq<char>>,
    lv: Seq<Seq<char>>,
    i: nat,
    j: int,
    x: Seq<char>,
)
    requires
        i < sv.len(),
        i < lv.len(),
        x == sv[i as int],
        groups_by_label(old_r, sv, lv, i),
        0 <= j < old_r.len(),
        old_r[j].label@ == lv[i as int],
        r.len() == old_r.len(),
        r[j].label == old_r[j].label,
        r[j].members@ == old_r[j].members@.push(r[j].members@.last()),
        r[j].members@.last()@ == x,
        forall|jj: int| 0 <= jj < r.len() && jj != j ==> r[jj] == old_r[jj],
    ensures
        groups_by_label(r, sv, lv, i + 1),
{
    lemma_assign_existing_take(old_r, r, sv, i, j, x);
    lemma_assign_existing_members(old_r, r, sv, lv, i, j, x);
    assert forall|jj: int| 0 <= jj < r.len() implies #[trigger] r[jj].label == old_r[jj].label by {
        if jj != j {
            assert(r[jj] == old_r[jj]);
        }
    }
    assert forall|jj: int| 0 <= jj < r.len() implies #[trigger] r[jj].members@.len() >= old_r[jj].members@.len() by {
        if jj != j {
            assert(r[jj] == old_r[jj]);
        }
    }
    lemma_assign_existing_labels(old_r, r, lv, i, j);
    assert(is_assignment(r));
}

proof fn lemma_assign_new(
    old_r: Seq<Cluster>,
    r: Seq<Cluster>,
    sv: Seq<Seq<char>>,
    lv: Seq<Seq<char>>,
    i: nat,
    x: Seq<char>,
)
    requires
        i < sv.len(),
        i < lv.len(),
        x == sv[i as int],
        groups_by_label(old_r, sv, lv, i),
        forall|jj: int| 0 <= jj < old_r.len() ==> old_r[jj].label@ != lv[i as int],
        r == old_r.push(r.last()),
        r.last().label@ == lv[i as int],
        r.last().members@.len() == 1,
        r.last().members@[0]@ == x,
    ensures
        groups_by_label(r, sv, lv, i + 1),
{
    let c = r.last();
    let l = lv[i as int];
    lemma_content_push(old_r, c);
    assert(r =~= old_r.push(c));
    assert(members_of(c) =~= seq![x]);
    assert(seq![x] =~= Seq::<Seq<char>>::empty().push(x));
    lemma_empty_to_multiset();
    vstd::seq_lib::to_multiset_build(Seq::<Seq<char>>::empty(), x);
    assert(sv.take((i + 1) as int) =~= sv.take(i as int).push(sv[i as int]));
    vstd::seq_lib::to_multiset_build(sv.take(i as int), x);
    let mc = seq![x].to_multiset();
    assert(mc =~= Multiset::empty().insert(x));
    assert(content(r) == content(old_r).add(mc));
    assert(content(r) =~= content(old_r).insert(x));
    lemma_members_labelled_absent(sv, lv, l, i);
    assert(members_labelled(sv, lv, l, i + 1) =~= seq![x]);
    assert forall|jj: int| 0 <= jj < r.len() implies #[trigger] members_of(r[jj])
        == members_labelled(sv, lv, r[jj].label@, i + 1) by {
        if jj < old_r.len() {
            assert(old_r[jj].label@ != l);
            assert(r[jj] == old_r[jj]);
        }
    }
    assert forall|jj: int| 0 <= jj < r.len() implies exists|k: int|
        0 <= k < i + 1 && lv[k] == #[trigger] r[jj].label@ by {
        if jj == old_r.len() {
            assert(lv[i as int] == r[jj].label@);
        } else {
            assert(r[jj] == old_r[jj]);
        }
    }
    assert forall|k: int| 0 <= k < i + 1 implies exists|jj: int|
        0 <= jj < r.len() && r[jj].label@ == #[trigger] lv[k] by {
        if k == i {
            assert(r[old_r.len() as int].label@ == lv[k]);
        } else {
            let jj = choose|jj: int| 0 <= jj < old_r.len() && old_r[jj].label@ == lv[k];
            assert(r[jj] == old_r[jj]);
        }
    }
    assert forall|a: int, b: int|
        0 <= a < r.len() && 0 <= b < r.len() && a != b implies #[trigger] r[a].label@
            != #[trigger] r[b].label@ by {
        if a < old_r.len() && b < old_r.len() {
            assert(r[a] == old_r[a]);
            assert(r[b] == old_r[b]);
        } else if a < old_r.len() {
            assert(r[a] == old_r[a]);
        } else {
            assert(r[b] == old_r[b]);
        }
    }
    assert forall|a: int| 0 <= a < r.len() implies #[trigger] r[a].members@.len() > 0 by {
        if a < old_r.len() {
            assert(r[a] == old_r[a]);
        }
    }
}

/// Position of the cluster labelled `l`, or `a.len()` when there is none.
pub(crate) fn find_label(a: &Vec<Cluster>, l: &String) -> (r: usize)
    ensures
        r <= a@.len(),
        r < a@.len() ==> a@[r as int].label@ == l@,
        r == a@.len() ==> forall|j: int| 0 <= j < a@.len() ==> a@[j].label@ != l@,
{
    let mut j: usize = 0;
    while j < a.len()
        invariant
            j <= a@.len(),
            forall|x: int| 0 <= x < j ==> a@[x].label@ != l@,
        decreases a@.len() - j,
    {
        if a[j].label == *l {
            return j;
        }
        j = j + 1;
    }
    j
}

/// Groups `seqs` into clusters by the label at the same position of
/// `clusters`; where the two differ in length the extra entries are ignored.
pub fn assign_seqs(seqs: &Vec<String>, clusters: &Vec<String>) -> (r: Vec<Cluster>)
    ensures
        groups_by_label(
            r@,
            names(seqs@),
            names(clusters@),
            if seqs@.len() <= clusters@.len() {
                seqs@.len()
            } else {
                clusters@.len()
            },
        ),
{
    let n: usize = if seqs.len() <= clusters.len() {
        seqs.len()
    } else {
        clusters.len()
    };
    let ghost sv = names(seqs@);
    let ghost lv = names(clusters@);
    let mut r: Vec<Cluster> = Vec::new();
    let mut i: usize = 0;
    proof {
        assert(sv.take(0) =~= Seq::<Seq<char>>::empty());
        lemma_empty_to_multiset();
    }
    while i < n
        invariant
            n <= seqs@.len(),
            n <= clusters@.len(),
            i <= n,
            sv == names(seqs@),
            lv == names(clusters@),
            groups_by_label(r@, sv, lv, i as nat),
        decreases n - i,
    {
        let l = &clusters[i];
        let x = seqs[i].clone();
        let j = find_label(&r, l);
        let ghost old_r = r@;
        proof {
            assert(sv.take((i + 1) as int) =~= sv.take(i as int).push(sv[i as int]));
        }
        if j < r.len() {
            r[j].members.push(x);
            proof {
                lemma_assign_existing(old_r, r@, sv, lv, i as nat, j as int, x@);
            }
        } else {
            let mut m: Vec<String> = Vec::new();
            m.push(x);
            let c = Cluster { label: l.clone(), members: m };
            r.push(c);
            proof {
                lemma_assign_new(old_r, r@, sv, lv, i as nat, x@);
            }
        }
        i = i + 1;
    }
    r
}

/// How many of `fs` sort strictly before `x`.
pub open spec fn count_lt(fs: Seq<Seq<char>>, x: Seq<char>) -> nat
    decreases fs.len(),
{
    if fs.len() == 0 {
        0
    } else {
        count_lt(fs.drop_last(), x) + if str_lt(fs.last(), x) {
            1nat
        } else {
            0nat
        }
    }
}

/// How many of `fs` sort before `x` or equal it.
pub open spec fn count_le(fs: Seq<Seq<char>>, x: Seq<char>) -> nat
    decreases fs.len(),
{
    if fs.len() == 0 {
        0
    } else {
        count_le(fs.drop_last(), x) + if str_le(fs.last(), x) {
            1nat
        } else {
            0nat
        }
    }
}

/// Where the group of representative `x` stands in a partition of length `h`
/// over the representatives `fs` taken in sorted order. Where a name occurs
/// more than once its last place within the partition counts; a name that
/// is not among `fs`, or sorts past the partition's end, has none.
pub open spec fn partition_index(fs: Seq<Seq<char>>, x: Seq<char>, h: nat) -> Option<nat> {
    let lo = count_lt(fs, x);
    let hi = count_le(fs, x);
    if lo < hi && lo < h {
        Some(
            if hi <= h {
                (hi - 1) as nat
            } else {
                (h - 1) as nat
            },
        )
    } else {
        None
    }
}

/// The label of the new cluster for flat group `g`.
pub open spec fn group_label(prefix: Seq<char>, g: nat) -> Seq<char> {
    prefix + decimal(g) + ".dbg.fasta"@
}

/// The new label of each old cluster name in `old`, or `None` where one has
/// no group.
pub open spec fn matched_labels(
    fs: Seq<Seq<char>>,
    old: Seq<Seq<char>>,
    groups: Seq<usize>,
    prefix: Seq<char>,
) -> Option<Seq<Seq<char>>> {
    if forall|i: int| 0 <= i < old.len() ==> #[trigger] partition_index(fs, old[i], groups.len()) is Some {
        Some(Seq::new(old.len(), |i: int| group_label(prefix, groups[partition_index(fs, old[i], groups.len())->0 as int] as nat)))
    } else {
        None
    }
}

/// How many of `fs` sort strictly before `x`, and how many before or equal.
pub(crate) fn rank_bounds(fs: &Vec<String>, x: &String) -> (r: (usize, usize))
    ensures
        r.0 as nat == count_lt(names(fs@), x@),
        r.1 as nat == count_le(names(fs@), x@),
{
    let mut lo: usize = 0;
    let mut hi: usize = 0;
    let mut k: usize = 0;
    while k < fs.len()
        invariant
            k <= fs@.len(),
            lo <= k,
            hi <= k,
            lo as nat == count_lt(names(fs@).take(k as int), x@),
            hi as nat == count_le(names(fs@).take(k as int), x@),
        decreases fs@.len() - k,
    {
        assert(names(fs@).take(k + 1).drop_last() =~= names(fs@).take(k as int));
        if string_lt(&fs[k], x) {
            lo = lo + 1;
        }
        if string_le(&fs[k], x) {
            hi = hi + 1;
        }
        k = k + 1;
    }
    assert(names(fs@).take(k as int) =~= names(fs@));
    (lo, hi)
}

/// New labels for the old cluster names in `old_clusters`. The partition
/// `hclust_res` gives a flat group for each of `fastx_files` in sorted order;
/// each old name takes the label `out_prefix`, group, `.dbg.fasta`. `None`
/// when some old name has no group.
pub fn match_clustering_results(
    fastx_files: &Vec<String>,
    old_clusters: &Vec<String>,
    hclust_res: &Vec<usize>,
    out_prefix: &String,
) -> (r: Option<Vec<String>>)
    ensures
        matched_labels(names(fastx_files@), names(old_clusters@), hclust_res@, out_prefix@) is Some
            <==> r is Some,
        r is Some ==> names(r->0@) == matched_labels(
            names(fastx_files@),
            names(old_clusters@),
            hclust_res@,
            out_prefix@,
        )->0,
{
    let ghost fs = names(fastx_files@);
    let ghost old = names(old_clusters@);
    let h = hclust_res.len();
    let mut r: Vec<String> = Vec::new();
    let mut i: usize = 0;
    while i < old_clusters.len()
        invariant
            i <= old_clusters@.len(),
            h == hclust_res@.len(),
            fs == names(fastx_files@),
            old == names(old_clusters@),
            r@.len() == i,
            forall|k: int| 0 <= k < i ==> #[trigger] partition_index(fs, old[k], h as nat) is Some,
            forall|k: int|
                0 <= k < i ==> #[trigger] r@[k]@ == group_label(
                    out_prefix@,
                    hclust_res@[partition_index(fs, old[k], h as nat)->0 as int] as nat,
                ),
        decreases old_clusters@.len() - i,
    {
        let (lo, hi) = rank_bounds(fastx_files, &old_clusters[i]);
        if !(lo < hi && lo < h) {
            assert(partition_index(fs, old[i as int], h as nat) is None);
            return None;
        }
        let idx: usize = if hi <= h {
            hi - 1
        } else {
            h - 1
        };
        let mut label = out_prefix.clone();
        let num = decimal_string(hclust_res[idx]);
        label.append(num.as_str());
        label.append(".dbg.fasta");
        r.push(label);
        i = i + 1;
    }
    proof {
        let m = matched_labels(fs, old, hclust_res@, out_prefix@);
        assert(m is Some);
        assert(names(r@) =~= m->0);
    }
    Some(r)
}

/// The labels of `a`, in order.
pub open spec fn labels_of(a: Seq<Cluster>) -> Seq<Seq<char>> {
    a.map_values(|c: Cluster| c.label@)
}

/// The sequences of `a`, cluster after cluster.
pub open spec fn flat_members(a: Seq<Cluster>) -> Seq<Seq<char>>
    decreases a.len(),
{
    if a.len() == 0 {
        Seq::empty()
    } else {
        flat_members(a.drop_last()) + members_of(a.last())
    }
}

/// The label of each sequence of `flat_members(a)`.
pub open spec fn flat_labels(a: Seq<Cluster>) -> Seq<Seq<char>>
    decreases a.len(),
{
    if a.len() == 0 {
        Seq::empty()
    } else {
        flat_labels(a.drop_last()) + Seq::new(a.last().members@.len(), |k: int| a.last().label@)
    }
}

/// A sequence that would be alone under its label takes its own name as
/// label instead.
pub open spec fn keep_singletons(seqs: Seq<Seq<char>>, labels: Seq<Seq<char>>) -> Seq<Seq<char>> {
    Seq::new(
        labels.len(),
        |i: int|
            if members_labelled(seqs, labels, labels[i], labels.len()).len() == 1 {
                seqs[i]
            } else {
                labels[i]
            },
    )
}

/// The label of each sequence of `flat_members(prev)` after a round whose
/// flat partition of the labels of `prev` is `groups`.
pub open spec fn round_labels(prev: Seq<Cluster>, prefix: Seq<char>, groups: Seq<usize>) -> Option<
    Seq<Seq<char>>,
> {
    match matched_labels(labels_of(prev), flat_labels(prev), groups, prefix) {
        Some(ls) => Some(keep_singletons(flat_members(prev), ls)),
        None => None,
    }
}

pub proof fn lemma_flat_lengths(a: Seq<Cluster>)
    ensures
        flat_members(a).len() == flat_labels(a).len(),
    decreases a.len(),
{
    if a.len() > 0 {
        lemma_flat_lengths(a.drop_last());
    }
}

pub proof fn lemma_content_flat(a: Seq<Cluster>)
    ensures
        content(a) == flat_members(a).to_multiset(),
    decreases a.len(),
{
    if a.len() == 0 {
        lemma_empty_to_multiset();
    } else {
        lemma_content_flat(a.drop_last());
        vstd::seq_lib::lemma_multiset_commutative(flat_members(a.drop_last()), members_of(a.last()));
    }
}

proof fn lemma_flat_take(a: Seq<Cluster>, i: int)
    requires
        0 <= i < a.len(),
    ensures
        flat_members(a.take(i + 1)) == flat_members(a.take(i)) + members_of(a[i]),
        flat_labels(a.take(i + 1)) == flat_labels(a.take(i)) + Seq::new(
            a[i].members@.len(),
            |k: int| a[i].label@,
        ),
{
    assert(a.take(i + 1).drop_last() =~= a.take(i));
}

/// The labels of `a`, in order.
pub fn representatives(a: &Vec<Cluster>) -> (r: Vec<String>)
    ensures
        names(r@) == labels_of(a@),
{
    let mut r: Vec<String> = Vec::new();
    let mut i: usize = 0;
    while i < a.len()
        invariant
            i <= a@.len(),
            names(r@) == labels_of(a@).take(i as int),
        decreases a@.len() - i,
    {
        r.push(a[i].label.clone());
        assert(labels_of(a@).take(i + 1) =~= labels_of(a@).take(i as int).push(a@[i as int].label@));
        assert(names(r@) =~= labels_of(a@).take(i + 1));
        i = i + 1;
    }
    assert(labels_of(a@).take(i as int) =~= labels_of(a@));
    r
}

/// The sequences of `a` and, beside each, the label of its cluster.
pub(crate) fn flatten(a: &Vec<Cluster>) -> (r: (Vec<String>, Vec<String>))
    ensures
        names(r.0@) == flat_members(a@),
        names(r.1@) == flat_labels(a@),
        r.0@.len() == r.1@.len(),
{
    let mut seqs: Vec<String> = Vec::new();
    let mut labels: Vec<String> = Vec::new();
    let mut i: usize = 0;
    assert(a@.take(0) =~= Seq::<Cluster>::empty());
    while i < a.len()
        invariant
            i <= a@.len(),
            names(seqs@) == flat_members(a@.take(i as int)),
            names(labels@) == flat_labels(a@.take(i as int)),
            seqs@.len() == labels@.len(),
        decreases a@.len() - i,
    {
        let c = &a[i];
        let ghost s0 = names(seqs@);
        let ghost l0 = names(labels@);
        let mut k: usize = 0;
        while k < c.members.len()
            invariant
                k <= c.members@.len(),
                names(seqs@) == s0 + members_of(*c).take(k as int),
                names(labels@) == l0 + Seq::new(k as nat, |x: int| c.label@),
                seqs@.len() == labels@.len(),
            decreases c.members@.len() - k,
        {
            let ghost sp = seqs@;
            let ghost lp = labels@;
            seqs.push(c.members[k].clone());
            labels.push(c.label.clone());
            assert(seqs@ == sp.push(c.members@[k as int]));
            assert(labels@ == lp.push(c.label));
            assert(names(seqs@) =~= names(sp).push(c.members@[k as int]@));
            assert(names(labels@) =~= names(lp).push(c.label@));
            assert(members_of(*c).take(k + 1) =~= members_of(*c).take(k as int).push(c.members@[k as int]@));
            assert(names(seqs@) =~= s0 + members_of(*c).take(k + 1));
            assert(names(labels@) =~= l0 + Seq::new((k + 1) as nat, |x: int| c.label@));
            k = k + 1;
        }
        proof {
            lemma_flat_take(a@, i as int);
            assert(members_of(*c).take(k as int) =~= members_of(*c));
            assert(Seq::new(k as nat, |x: int| c.label@) =~= Seq::new(
                a@[i as int].members@.len(),
                |x: int| a@[i as int].label@,
            ));
        }
        i = i + 1;
    }
    assert(a@.take(i as int) =~= a@);
    (seqs, labels)
}

proof fn lemma_members_labelled_single(
    seqs: Seq<Seq<char>>,
    labels: Seq<Seq<char>>,
    l: Seq<char>,
    n: nat,
)
    requires
        n <= seqs.len(),
        n <= labels.len(),
        members_labelled(seqs, labels, l, n).len() == 1,
    ensures
        exists|k: int|
            0 <= k < n && labels[k] == l && members_labelled(seqs, labels, l, n) == seq![seqs[k]]
                && forall|k2: int| 0 <= k2 < n && #[trigger] labels[k2] == l ==> k2 == k,
    decreases n,
{
    let prev = members_labelled(seqs, labels, l, (n - 1) as nat);
    if labels[n - 1] == l {
        lemma_members_labelled_none(seqs, labels, l, (n - 1) as nat);
        assert(members_labelled(seqs, labels, l, n) =~= seq![seqs[n - 1]]);
    } else {
        lemma_members_labelled_single(seqs, labels, l, (n - 1) as nat);
    }
}

proof fn lemma_members_labelled_none(
    seqs: Seq<Seq<char>>,
    labels: Seq<Seq<char>>,
    l: Seq<char>,
    n: nat,
)
    requires
        members_labelled(seqs, labels, l, n).len() == 0,
    ensures
        forall|k: int| 0 <= k < n ==> labels[k] != l,
    decreases n,
{
    if n > 0 {
        lemma_members_labelled_none(seqs, labels, l, (n - 1) as nat);
    }
}

proof fn lemma_members_labelled_only(
    seqs: Seq<Seq<char>>,
    labels: Seq<Seq<char>>,
    l: Seq<char>,
    n: nat,
    k: int,
)
    requires
        0 <= k < n,
        labels[k] == l,
        forall|k2: int| 0 <= k2 < n && k2 != k ==> labels[k2] != l,
    ensures
        members_labelled(seqs, labels, l, n).len() == 1,
    decreases n,
{
    if k == n - 1 {
        lemma_members_labelled_absent(seqs, labels, l, (n - 1) as nat);
    } else {
        lemma_members_labelled_only(seqs, labels, l, (n - 1) as nat, k);
    }
}

/// After `keep_singletons`, a label held by one sequence alone is that
/// sequence's own name.
proof fn lemma_keep_singletons_named(seqs: Seq<Seq<char>>, labels: Seq<Seq<char>>, x: Seq<char>)
    requires
        seqs.len() == labels.len(),
        members_labelled(seqs, keep_singletons(seqs, labels), x, labels.len()).len() == 1,
    ensures
        members_labelled(seqs, keep_singletons(seqs, labels), x, labels.len()) == seq![x],
{
    let n = labels.len();
    let f = keep_singletons(seqs, labels);
    lemma_members_labelled_single(seqs, f, x, n);
    let k = choose|k: int|
        0 <= k < n && f[k] == x && members_labelled(seqs, f, x, n) == seq![seqs[k]]
            && forall|k2: int| 0 <= k2 < n && #[trigger] f[k2] == x ==> k2 == k;
    if members_labelled(seqs, labels, labels[k], n).len() != 1 {
        assert(f[k] == labels[k]);
        if forall|k2: int| 0 <= k2 < n && k2 != k ==> labels[k2] != labels[k] {
            lemma_members_labelled_only(seqs, labels, labels[k], n, k);
        }
        let k2 = choose|k2: int| 0 <= k2 < n && k2 != k && labels[k2] == labels[k];
        assert(f[k2] == x);
    }
}

/// Sequences that share a label in `old` share one in `new` too.
pub open spec fn never_splits(old: Seq<Seq<char>>, new: Seq<Seq<char>>) -> bool {
    forall|i: int, j: int|
        0 <= i < old.len() && 0 <= j < old.len() && #[trigger] old[i] == #[trigger] old[j]
            ==> new[i] == new[j]
}

/// Two sequences under one label are never renamed apart.
proof fn lemma_keep_singletons_pair(seqs: Seq<Seq<char>>, labels: Seq<Seq<char>>, i: int, j: int)
    requires
        seqs.len() == labels.len(),
        0 <= i < labels.len(),
        0 <= j < labels.len(),
        i != j,
        labels[i] == labels[j],
    ensures
        keep_singletons(seqs, labels)[i] == labels[i],
        keep_singletons(seqs, labels)[j] == labels[j],
{
    let n = labels.len();
    if members_labelled(seqs, labels, labels[i], n).len() == 1 {
        lemma_members_labelled_single(seqs, labels, labels[i], n);
        let k = choose|k: int|
            0 <= k < n && labels[k] == labels[i] && members_labelled(seqs, labels, labels[i], n)
                == seq![seqs[k]] && forall|k2: int| 0 <= k2 < n && #[trigger] labels[k2] == labels[i] ==> k2 == k;
        assert(labels[i] == labels[i]);
        assert(labels[j] == labels[i]);
    }
}

/// A round only merges clusters: the sequences of one cluster of `prev`
/// end under one label.
pub proof fn lemma_round_never_splits(prev: Seq<Cluster>, prefix: Seq<char>, groups: Seq<usize>)
    requires
        round_labels(prev, prefix, groups) is Some,
    ensures
        never_splits(flat_labels(prev), round_labels(prev, prefix, groups)->0),
{
    lemma_flat_lengths(prev);
    let fl = flat_labels(prev);
    let m = matched_labels(labels_of(prev), fl, groups, prefix)->0;
    let f = round_labels(prev, prefix, groups)->0;
    assert forall|i: int, j: int|
        0 <= i < fl.len() && 0 <= j < fl.len() && #[trigger] fl[i] == #[trigger] fl[j] implies f[i] == f[j] by {
        if i != j {
            assert(m[i] == m[j]);
            lemma_keep_singletons_pair(flat_members(prev), m, i, j);
        }
    }
}

/// One round over the clusters of `prev_assignments`: `hclust_res` is the flat
/// partition of their labels (taken in sorted order); each sequence moves to
/// the cluster of its old cluster's group, labelled `out_prefix`, group,
/// `.dbg.fasta`, unless it would be alone there: then its own name labels
/// it. `None` when some label has no group.
pub fn dereplicate_iter(
    prev_assignments: &Vec<Cluster>,
    out_prefix: &String,
    hclust_res: &Vec<usize>,
) -> (r: Option<Vec<Cluster>>)
    ensures
        round_labels(prev_assignments@, out_prefix@, hclust_res@) is Some <==> r is Some,
        r is Some ==> groups_by_label(
            r->0@,
            flat_members(prev_assignments@),
            round_labels(prev_assignments@, out_prefix@, hclust_res@)->0,
            flat_members(prev_assignments@).len(),
        ),
        r is Some ==> content(r->0@) == content(prev_assignments@),
        r is Some ==> forall|j: int|
            0 <= j < r->0@.len() && #[trigger] r->0@[j].members@.len() == 1 ==> r->0@[j].label@
                == r->0@[j].members@[0]@,
        r is Some ==> never_splits(
            flat_labels(prev_assignments@),
            round_labels(prev_assignments@, out_prefix@, hclust_res@)->0,
        ),
{
    let (seq_files, old_clusters) = flatten(prev_assignments);
    let fastx_files = representatives(prev_assignments);
    let new_clusters = match match_clustering_results(
        &fastx_files,
        &old_clusters,
        hclust_res,
        out_prefix,
    ) {
        Some(v) => v,
        None => {
            return None;
        },
    };
    let ghost sv = names(seq_files@);
    let ghost lv = names(new_clusters@);
    let n = seq_files.len();
    let first = assign_seqs(&seq_files, &new_clusters);
    let mut renamed: Vec<String> = Vec::new();
    let mut i: usize = 0;
    while i < n
        invariant
            n == seq_files@.len(),
            n == new_clusters@.len(),
            sv == names(seq_files@),
            lv == names(new_clusters@),
            groups_by_label(first@, sv, lv, n as nat),
            i <= n,
            renamed@.len() == i,
            forall|k: int| 0 <= k < i ==> #[trigger] names(renamed@)[k] == keep_singletons(sv, lv)[k],
        decreases n - i,
    {
        let j = find_label(&first, &new_clusters[i]);
        assert(exists|jj: int| 0 <= jj < first@.len() && first@[jj].label@ == #[trigger] lv[i as int]);
        assert(first@[j as int].members@.len() == members_of(first@[j as int]).len());
        assert(members_of(first@[j as int]) == members_labelled(sv, lv, lv[i as int], n as nat));
        let ghost rp = renamed@;
        if first[j].members.len() == 1 {
            renamed.push(seq_files[i].clone());
        } else {
            renamed.push(new_clusters[i].clone());
        }
        assert(names(renamed@) =~= names(rp).push(keep_singletons(sv, lv)[i as int]));
        i = i + 1;
    }
    let result = assign_seqs(&seq_files, &renamed);
    proof {
        assert(names(renamed@) =~= keep_singletons(sv, lv));
        lemma_flat_lengths(prev_assignments@);
        lemma_content_flat(prev_assignments@);
        assert(sv.take(n as int) =~= sv);
        let f = keep_singletons(sv, lv);
        assert forall|j: int|
            0 <= j < result@.len() && #[trigger] result@[j].members@.len() == 1 implies result@[j].label@
                == result@[j].members@[0]@ by {
            let x = result@[j].label@;
            assert(members_of(result@[j]) == members_labelled(sv, f, x, n as nat));
            lemma_keep_singletons_named(sv, lv, x);
            assert(members_of(result@[j])[0] == result@[j].members@[0]@);
        }
        lemma_round_never_splits(prev_assignments@, out_prefix@, hclust_res@);
    }
    Some(result)
}

/// Applying one function to two sequences with the same elements gives two
/// sequences with the same elements.
pub proof fn lemma_map_multiset<A, B>(s: Seq<A>, t: Seq<A>, f: spec_fn(A) -> B)
    requires
        s.to_multiset() == t.to_multiset(),
    ensures
        s.map_values(f).to_multiset() == t.map_values(f).to_multiset(),
    decreases s.len(),
{
    broadcast use vstd::seq_lib::group_to_multiset_ensures;

    if s.len() == 0 {
        assert(s.to_multiset().len() == 0);
        assert(t.to_multiset().len() == 0);
        assert(t.len() == 0);
        assert(s.map_values(f) =~= t.map_values(f));
    } else {
        let x = s.last();
        assert(s.contains(x)) by {
            assert(s[s.len() - 1] == x);
        }
        assert(s.to_multiset().count(x) > 0);
        assert(t.to_multiset().count(x) > 0);
        assert(t.contains(x));
        let i = choose|i: int| 0 <= i < t.len() && t[i] == x;
        let t2 = t.remove(i);
        assert(s.remove(s.len() - 1) =~= s.drop_last());
        assert(s.drop_last().to_multiset() == s.to_multiset().remove(x));
        assert(t2.to_multiset() == t.to_multiset().remove(x));
        lemma_map_multiset(s.drop_last(), t2, f);
        assert(s.map_values(f) =~= s.drop_last().map_values(f).push(f(x)));
        assert(t.map_values(f).remove(i) =~= t2.map_values(f));
        assert(t.map_values(f)[i] == f(x));
        assert(t.map_values(f).to_multiset().remove(f(x)) == t2.map_values(f).to_multiset());
        assert(t.map_values(f).contains(f(x)));
        assert(t.map_values(f).to_multiset() =~= t2.map_values(f).to_multiset().insert(f(x)));
    }
}

/// The sequences of each cluster of `a`.
pub open spec fn member_views(a: Seq<Cluster>) -> Seq<Seq<Seq<char>>> {
    a.map_values(|c: Cluster| members_of(c))
}

/// All sequences of the member lists `v`, counted with repetition.
pub open spec fn views_content(v: Seq<Seq<Seq<char>>>) -> Multiset<Seq<char>>
    decreases v.len(),
{
    if v.len() == 0 {
        Multiset::empty()
    } else {
        views_content(v.drop_last()).add(v.last().to_multiset())
    }
}

/// The sequences of the cluster labelled `l` in `a`.
pub open spec fn members_under(a: Seq<Cluster>, l: Seq<char>) -> Seq<Seq<char>> {
    members_of(a[choose|j: int| 0 <= j < a.len() && a[j].label@ == l])
}

pub proof fn lemma_content_views(a: Seq<Cluster>)
    ensures
        content(a) == views_content(member_views(a)),
    decreases a.len(),
{
    if a.len() > 0 {
        lemma_content_views(a.drop_last());
        assert(member_views(a).drop_last() =~= member_views(a.drop_last()));
    }
}

pub proof fn lemma_views_content_concat(v: Seq<Seq<Seq<char>>>, w: Seq<Seq<Seq<char>>>)
    ensures
        views_content(v + w) =~= views_content(v).add(views_content(w)),
    decreases w.len(),
{
    if w.len() == 0 {
        assert(v + w =~= v);
    } else {
        assert((v + w).drop_last() =~= v + w.drop_last());
        lemma_views_content_concat(v, w.drop_last());
    }
}

proof fn lemma_views_content_remove(v: Seq<Seq<Seq<char>>>, i: int)
    requires
        0 <= i < v.len(),
    ensures
        views_content(v) =~= views_content(v.remove(i)).add(v[i].to_multiset()),
{
    assert(v =~= v.take(i) + (seq![v[i]] + v.skip(i + 1)));
    assert(v.remove(i) =~= v.take(i) + v.skip(i + 1));
    lemma_views_content_concat(v.take(i), seq![v[i]] + v.skip(i + 1));
    lemma_views_content_concat(seq![v[i]], v.skip(i + 1));
    lemma_views_content_concat(v.take(i), v.skip(i + 1));
    assert(seq![v[i]].drop_last() =~= Seq::<Seq<Seq<char>>>::empty());
    assert(seq![v[i]].last() == v[i]);
    assert(views_content(seq![v[i]]) == views_content(seq![v[i]].drop_last()).add(v[i].to_multiset()));
    assert(views_content(Seq::<Seq<Seq<char>>>::empty()) == Multiset::<Seq<char>>::empty());
    assert(views_content(seq![v[i]]) =~= v[i].to_multiset());
    let a = views_content(v.take(i));
    let b = views_content(v.skip(i + 1));
    let m = v[i].to_multiset();
    assert(a.add(m.add(b)) =~= a.add(b).add(m));
}

/// Member lists with the same elements hold the same sequences.
pub proof fn lemma_views_content_perm(v: Seq<Seq<Seq<char>>>, w: Seq<Seq<Seq<char>>>)
    requires
        v.to_multiset() == w.to_multiset(),
    ensures
        views_content(v) == views_content(w),
    decreases v.len(),
{
    broadcast use vstd::seq_lib::group_to_multiset_ensures;

    if v.len() == 0 {
        assert(v.to_multiset().len() == 0);
        assert(w.to_multiset().len() == 0);
        assert(w.len() == 0);
    } else {
        let x = v.last();
        assert(v[v.len() - 1] == x);
        assert(v.to_multiset().count(x) > 0);
        assert(w.to_multiset().count(x) > 0);
        assert(w.contains(x));
        let i = choose|i: int| 0 <= i < w.len() && w[i] == x;
        assert(v.remove(v.len() - 1) =~= v.drop_last());
        assert(v.drop_last().to_multiset() == v.to_multiset().remove(x));
        assert(w.remove(i).to_multiset() == w.to_multiset().remove(x));
        lemma_views_content_perm(v.drop_last(), w.remove(i));
        lemma_views_content_remove(w, i);
    }
}

/// In an assignment, the cluster with a label is the one at its place.
pub proof fn lemma_members_under(a: Seq<Cluster>, j: int)
    requires
        is_assignment(a),
        0 <= j < a.len(),
    ensures
        members_under(a, a[j].label@) == members_of(a[j]),
{
    let k = choose|k: int| 0 <= k < a.len() && a[k].label@ == a[j].label@;
    assert(k == j);
}

/// In an assignment, a cluster's members are those found under its label.
pub proof fn lemma_member_views_by_label(a: Seq<Cluster>)
    requires
        is_assignment(a),
    ensures
        member_views(a) == labels_of(a).map_values(|l: Seq<char>| members_under(a, l)),
{
    assert forall|j: int| 0 <= j < a.len() implies #[trigger] member_views(a)[j] == labels_of(a).map_values(
        |l: Seq<char>| members_under(a, l),
    )[j] by {
        lemma_members_under(a, j);
    }
    assert(member_views(a) =~= labels_of(a).map_values(|l: Seq<char>| members_under(a, l)));
}

/// A copy of `c`.
pub fn copy_cluster(c: &Cluster) -> (r: Cluster)
    ensures
        r.label@ == c.label@,
        r.members@ == c.members@,
{
    let mut members: Vec<String> = Vec::new();
    let mut i: usize = 0;
    while i < c.members.len()
        invariant
            i <= c.members@.len(),
            members@ == c.members@.take(i as int),
        decreases c.members@.len() - i,
    {
        members.push(c.members[i].clone());
        assert(c.members@.take(i + 1) =~= c.members@.take(i as int).push(c.members@[i as int]));
        i = i + 1;
    }
    assert(c.members@.take(i as int) =~= c.members@);
    Cluster { label: c.label.clone(), members }
}

/// A cluster by its values.
pub open spec fn cluster_view(c: Cluster) -> (Seq<char>, Seq<Seq<char>>) {
    (c.label@, members_of(c))
}

/// The clusters of `a` with more than one member, in order.
pub open spec fn shared_clusters(a: Seq<Cluster>) -> Seq<(Seq<char>, Seq<Seq<char>>)>
    decreases a.len(),
{
    if a.len() == 0 {
        Seq::empty()
    } else {
        let p = shared_clusters(a.drop_last());
        if a.last().members@.len() >= 2 {
            p.push(cluster_view(a.last()))
        } else {
            p
        }
    }
}

/// The clusters whose pangenome is to be built: those with more than one
/// member. A single genome needs no graph.
pub fn graphs_to_build(a: &Vec<Cluster>) -> (r: Vec<Cluster>)
    ensures
        r@.map_values(|c: Cluster| cluster_view(c)) == shared_clusters(a@),
{
    let mut r: Vec<Cluster> = Vec::new();
    let mut i: usize = 0;
    while i < a.len()
        invariant
            i <= a@.len(),
            r@.map_values(|c: Cluster| cluster_view(c)) == shared_clusters(a@.take(i as int)),
        decreases a@.len() - i,
    {
        assert(a@.take(i + 1).drop_last() =~= a@.take(i as int));
        assert(a@.take(i + 1).last() == a@[i as int]);
        if a[i].members.len() >= 2 {
            let ghost r0 = r@;
            let c = copy_cluster(&a[i]);
            r.push(c);
            assert(members_of(c) =~= members_of(a@[i as int]));
            assert(r@.map_values(|c: Cluster| cluster_view(c)) =~= r0.map_values(
                |c: Cluster| cluster_view(c),
            ).push(cluster_view(a@[i as int])));
        }
        i = i + 1;
    }
    assert(a@.take(i as int) =~= a@);
    r
}

} // verus!
