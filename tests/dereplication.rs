use panaani::assignment::{graphs_to_build, representatives};
use panaani::foreign::decimal_string;
use panaani::order::{string_le, string_lt};
use panaani::schedule::{grow_batch_size, next_batch_size, strategy_from_name};
use panaani::{
    assign_seqs, cut_dendrogram, sort_by_label, dereplicate_iter, guide_batching, match_clustering_results,
    Cluster, Dendrogram, DereplicationError, Dereplicator, GrowthStrategy, PanaaniParams, Stage,
    Step,
};

fn names(v: &[&str]) -> Vec<String> {
    v.iter().map(|s| s.to_string()).collect()
}

fn step(cluster1: usize, cluster2: usize, dissimilarity: i64) -> Step {
    Step { cluster1, cluster2, dissimilarity }
}

/// Two tight triplets, {0, 1, 2} and {3, 4, 5}, far apart; dissimilarities
/// in thousandths.
fn two_triplets() -> Dendrogram {
    Dendrogram {
        observations: 6,
        steps: vec![
            step(0, 1, 10),
            step(3, 4, 10),
            step(6, 2, 20),
            step(7, 5, 25),
            step(8, 9, 400),
        ],
    }
}

fn group_count(groups: &[usize]) -> usize {
    let mut seen: Vec<usize> = groups.to_vec();
    seen.sort();
    seen.dedup();
    seen.len()
}

fn singleton_params(batch_step: usize, strategy: &str) -> PanaaniParams {
    PanaaniParams {
        batch_step,
        batch_step_strategy: strategy.to_string(),
        max_iters: 10,
        temp_dir: "/tmp".to_string(),
        guided: false,
        external_clustering: None,
        initial_batches: None,
    }
}

fn find<'a>(clusters: &'a [Cluster], label: &str) -> &'a Cluster {
    clusters.iter().find(|c| c.label == label).expect("label present")
}

#[test]
fn cut_two_triplets_at_cutoff() {
    let groups = cut_dendrogram(&two_triplets(), 30);
    assert_eq!(groups, vec![1, 1, 1, 0, 0, 0]);
    assert_eq!(group_count(&groups), 2);
}

#[test]
fn cut_below_every_merge_gives_singletons() {
    let groups = cut_dendrogram(&two_triplets(), 5);
    assert_eq!(groups, vec![0, 1, 2, 3, 4, 5]);
}

#[test]
fn cut_above_every_merge_gives_one_group() {
    let groups = cut_dendrogram(&two_triplets(), 1000);
    assert_eq!(groups, vec![0, 0, 0, 0, 0, 0]);
}

#[test]
fn cut_single_leaf() {
    let d = Dendrogram { observations: 1, steps: vec![] };
    assert_eq!(cut_dendrogram(&d, 0), vec![0]);
}

#[test]
fn cut_groups_are_contiguous() {
    for cutoff in [0, 10, 15, 20, 22, 25, 30, 399, 400, 1000] {
        let groups = cut_dendrogram(&two_triplets(), cutoff);
        assert_eq!(groups.len(), 6);
        let g = group_count(&groups);
        assert!(g <= 6);
        for x in 0..g {
            assert!(groups.contains(&x));
        }
        assert!(groups.iter().all(|&x| x < g));
    }
}

#[test]
fn cut_is_deterministic() {
    let d = two_triplets();
    assert_eq!(cut_dendrogram(&d, 22), cut_dendrogram(&d, 22));
}

#[test]
fn cut_counts_grow_as_cutoff_falls() {
    let d = two_triplets();
    let counts: Vec<usize> =
        [1000, 30, 22, 15, 5].iter().map(|&c| group_count(&cut_dendrogram(&d, c))).collect();
    assert_eq!(counts, vec![1, 2, 3, 4, 6]);
}

#[test]
fn assign_seqs_groups_by_label() {
    let r = assign_seqs(&names(&["a", "b", "c", "d"]), &names(&["x", "y", "x", "z"]));
    assert_eq!(r.len(), 3);
    assert_eq!(find(&r, "x").members, names(&["a", "c"]));
    assert_eq!(find(&r, "y").members, names(&["b"]));
    assert_eq!(find(&r, "z").members, names(&["d"]));
}

#[test]
fn assign_seqs_ignores_extra_entries() {
    let r = assign_seqs(&names(&["a", "b", "c"]), &names(&["x", "x"]));
    assert_eq!(r.len(), 1);
    assert_eq!(find(&r, "x").members, names(&["a", "b"]));
}

#[test]
fn match_results_follow_sorted_names() {
    let r = match_clustering_results(
        &names(&["b", "a", "c"]),
        &names(&["a", "c", "b", "a"]),
        &vec![5, 12, 9],
        &"p-".to_string(),
    );
    assert_eq!(
        r,
        Some(names(&["p-5.dbg.fasta", "p-9.dbg.fasta", "p-12.dbg.fasta", "p-5.dbg.fasta"]))
    );
}

#[test]
fn match_results_missing_group() {
    let r = match_clustering_results(
        &names(&["b", "a", "c"]),
        &names(&["a", "b"]),
        &vec![5],
        &"p-".to_string(),
    );
    assert_eq!(r, None);
    let unknown = match_clustering_results(
        &names(&["a"]),
        &names(&["z"]),
        &vec![0],
        &"p-".to_string(),
    );
    assert_eq!(unknown, None);
}

#[test]
fn dereplicate_iter_merges_and_keeps_singletons() {
    let prev = assign_seqs(&names(&["s2", "s1", "s3"]), &names(&["s2", "s1", "s3"]));
    // sorted representatives: s1, s2, s3
    let r = dereplicate_iter(&prev, &"p-".to_string(), &vec![0, 0, 1]).unwrap();
    assert_eq!(r.len(), 2);
    let merged = find(&r, "p-0.dbg.fasta");
    let mut m = merged.members.clone();
    m.sort();
    assert_eq!(m, names(&["s1", "s2"]));
    assert_eq!(find(&r, "s3").members, names(&["s3"]));
    for c in &r {
        if c.members.len() == 1 {
            assert_eq!(c.label, c.members[0]);
        }
    }
}

#[test]
fn dereplicate_iter_missing_group() {
    let prev = assign_seqs(&names(&["s1", "s2"]), &names(&["s1", "s2"]));
    assert!(dereplicate_iter(&prev, &"p-".to_string(), &vec![0]).is_none());
}

#[test]
fn graphs_only_for_shared_clusters() {
    let a = assign_seqs(&names(&["a", "b", "c"]), &names(&["x", "x", "y"]));
    let g = graphs_to_build(&a);
    assert_eq!(g.len(), 1);
    assert_eq!(g[0].label, "x");
    assert_eq!(g[0].members, names(&["a", "b"]));
}

#[test]
fn representatives_are_labels() {
    let a = assign_seqs(&names(&["a", "b", "c"]), &names(&["x", "y", "x"]));
    assert_eq!(representatives(&a), names(&["x", "y"]));
}

#[test]
fn batch_sizes_double() {
    let mut sizes = vec![50usize];
    for _ in 0..3 {
        let last = *sizes.last().unwrap();
        sizes.push(grow_batch_size(last, 50, GrowthStrategy::Double));
    }
    assert_eq!(sizes, vec![50, 100, 200, 400]);
}

#[test]
fn batch_sizes_linear() {
    let mut sizes = vec![50usize];
    for _ in 0..2 {
        let last = *sizes.last().unwrap();
        sizes.push(grow_batch_size(last, 50, GrowthStrategy::Linear));
    }
    assert_eq!(sizes, vec![50, 100, 150]);
}

#[test]
fn batch_size_saturates() {
    assert_eq!(grow_batch_size(usize::MAX - 1, 50, GrowthStrategy::Linear), usize::MAX);
    assert_eq!(grow_batch_size(usize::MAX / 2 + 1, 50, GrowthStrategy::Double), usize::MAX);
}

#[test]
fn next_batch_avoids_lone_last_batch() {
    assert_eq!(next_batch_size(50, 50, GrowthStrategy::Linear, 101), 101);
    assert_eq!(next_batch_size(50, 50, GrowthStrategy::Linear, 201), 101);
    assert_eq!(next_batch_size(50, 50, GrowthStrategy::Linear, 250), 100);
    assert_eq!(next_batch_size(2, 2, GrowthStrategy::Linear, 5), 5);
    assert_eq!(next_batch_size(2, 2, GrowthStrategy::Double, 1), 4);
}

#[test]
fn strategy_names() {
    assert_eq!(strategy_from_name(&"double".to_string()), GrowthStrategy::Double);
    assert_eq!(strategy_from_name(&"linear".to_string()), GrowthStrategy::Linear);
    assert_eq!(strategy_from_name(&"triple".to_string()), GrowthStrategy::Linear);
}

#[test]
fn guide_orders_by_coarse_group_then_label() {
    // sorted labels a, b, c, d have coarse groups 1, 0, 1, 0
    let r = guide_batching(&names(&["c", "a", "b", "d"]), &vec![1, 0, 1, 0]);
    assert_eq!(r, Some(names(&["b", "d", "a", "c"])));
}

#[test]
fn guide_missing_group() {
    assert_eq!(guide_batching(&names(&["c", "a", "b"]), &vec![0, 0]), None);
}

#[test]
fn string_order_is_bytewise() {
    assert!(string_lt(&"a".to_string(), &"b".to_string()));
    assert!(string_lt(&"B".to_string(), &"a".to_string()));
    assert!(string_lt(&"ab".to_string(), &"abc".to_string()));
    assert!(!string_lt(&"abc".to_string(), &"abc".to_string()));
    assert!(string_le(&"abc".to_string(), &"abc".to_string()));
    assert!(!string_le(&"b".to_string(), &"a".to_string()));
}

#[test]
fn default_params() {
    let p = PanaaniParams::default();
    assert_eq!(p.batch_step, 50);
    assert_eq!(p.batch_step_strategy, "linear");
    assert_eq!(p.max_iters, 10);
    assert_eq!(p.temp_dir, "./");
    assert!(!p.guided);
    assert!(p.external_clustering.is_none());
    assert!(p.initial_batches.is_none());
}

/// Every label in its own group: the estimator found no usable pair.
fn all_apart(batches: &[Vec<String>]) -> Vec<Vec<usize>> {
    batches.iter().map(|b| (0..b.len()).collect()).collect()
}

#[test]
fn scenario_nothing_merges() {
    let seqs = names(&["s1", "s2", "s3", "s4", "s5"]);
    let mut d = Dereplicator::new(&seqs, &singleton_params(2, "linear")).unwrap();
    assert_eq!(d.stage, Stage::Batching);
    let mut rounds = 0;
    while d.stage == Stage::Batching {
        let batches = d.plan_round(&None).unwrap();
        assert!(batches.iter().all(|b| b.len() <= d.batch_size));
        for (c, p) in d.prefixes.iter().enumerate() {
            assert!(p.starts_with(&format!("/tmp/{}_", d.iter)));
            assert!(p.ends_with(&format!("-{}-", c)));
        }
        for i in 0..d.prefixes.len() {
            for j in 0..i {
                assert_ne!(d.prefixes[i], d.prefixes[j]);
            }
        }
        let built = d.finish_round(&all_apart(&batches)).unwrap();
        assert!(built.is_empty());
        rounds += 1;
        assert!(rounds <= 10);
    }
    assert_eq!(d.stage, Stage::FinalRound);
    assert_eq!(d.iter, 1);
    assert_eq!(d.batch_size, 5);
    let batches = d.plan_round(&None).unwrap();
    assert_eq!(batches.len(), 1);
    assert_eq!(d.prefixes[0], "panANI-");
    d.finish_round(&all_apart(&batches)).unwrap();
    assert_eq!(d.stage, Stage::Done);
    let out = d.labelled_sequences();
    let expected: Vec<(String, String)> =
        seqs.iter().map(|s| (s.clone(), s.clone())).collect();
    assert_eq!(out, expected);
}

#[test]
fn scenario_external_clustering_kept_together() {
    let seqs = names(&["a1", "a2", "b1", "b2", "c1"]);
    let mut params = singleton_params(10, "linear");
    params.external_clustering = Some(names(&["A", "A", "B", "B", "C"]));
    let mut d = Dereplicator::new(&seqs, &params).unwrap();
    assert_eq!(d.n_remaining(), 3);
    assert_eq!(d.stage, Stage::FinalRound);
    let batches = d.plan_round(&None).unwrap();
    assert_eq!(batches.len(), 1);
    let mut labels = batches[0].clone();
    labels.sort();
    assert_eq!(labels, names(&["A", "B", "C"]));
    // sorted labels A, B, C: A and B merge
    let built = d.finish_round(&vec![vec![0, 0, 1]]).unwrap();
    assert_eq!(built.len(), 1);
    let out = d.labelled_sequences();
    let big = "panANI-0.dbg.fasta".to_string();
    assert_eq!(
        out,
        vec![
            ("c1".to_string(), "c1".to_string()),
            ("a1".to_string(), big.clone()),
            ("a2".to_string(), big.clone()),
            ("b1".to_string(), big.clone()),
            ("b2".to_string(), big.clone()),
        ]
    );
}

#[test]
fn scenario_external_clustering_not_split() {
    let seqs = names(&["a1", "b1", "a2", "b2", "c1"]);
    let mut params = singleton_params(10, "linear");
    params.external_clustering = Some(names(&["A", "B", "A", "B", "C"]));
    let mut d = Dereplicator::new(&seqs, &params).unwrap();
    let batches = d.plan_round(&None).unwrap();
    d.finish_round(&all_apart(&batches)).unwrap();
    let out = d.labelled_sequences();
    let label_of = |s: &str| out.iter().find(|p| p.0 == s).unwrap().1.clone();
    assert_eq!(label_of("a1"), label_of("a2"));
    assert_eq!(label_of("b1"), label_of("b2"));
    assert_ne!(label_of("a1"), label_of("b1"));
    assert_eq!(label_of("c1"), "c1");
    assert_eq!(out.len(), 5);
}

#[test]
fn scenario_doubling_merges_pairs() {
    let seqs = names(&["x1", "x2", "y1", "y2", "z1", "z2"]);
    let mut d = Dereplicator::new(&seqs, &singleton_params(2, "double")).unwrap();
    assert_eq!(d.stage, Stage::Batching);
    let batches = d.plan_round(&None).unwrap();
    assert_eq!(batches.len(), 3);
    // each batch of two merges
    let parts: Vec<Vec<usize>> = batches.iter().map(|b| vec![0; b.len()]).collect();
    let built = d.finish_round(&parts).unwrap();
    assert_eq!(built.len(), 3);
    assert_eq!(d.n_remaining(), 3);
    assert_eq!(d.batch_size, 4);
    assert_eq!(d.stage, Stage::FinalRound);
    let batches = d.plan_round(&None).unwrap();
    d.finish_round(&all_apart(&batches)).unwrap();
    let out = d.labelled_sequences();
    assert_eq!(out.len(), 6);
    let mut seen: Vec<String> = out.iter().map(|p| p.0.clone()).collect();
    seen.sort();
    assert_eq!(seen, seqs);
    for w in out.windows(2) {
        assert!((&w[0].1, &w[0].0) <= (&w[1].1, &w[1].0));
    }
}

#[test]
fn guided_round_needs_coarse_partition() {
    let seqs = names(&["s1", "s2", "s3"]);
    let mut params = singleton_params(1, "linear");
    params.guided = true;
    let mut d = Dereplicator::new(&seqs, &params).unwrap();
    assert!(d.needs_guide());
    assert!(matches!(d.plan_round(&None), Err(DereplicationError::MissingGuide)));
    assert!(matches!(d.plan_round(&Some(vec![0])), Err(DereplicationError::MissingGroup)));
    let labels = d.cluster_labels();
    assert_eq!(labels, seqs);
    // sorted labels s1, s2, s3 in coarse groups 1, 0, 1
    let batches = d.plan_round(&Some(vec![1, 0, 1])).unwrap();
    assert_eq!(batches, vec![names(&["s2"]), names(&["s1"]), names(&["s3"])]);
}

#[test]
fn initial_batches_order_first_round() {
    let seqs = names(&["s1", "s2", "s3", "s4"]);
    let mut params = singleton_params(2, "linear");
    params.initial_batches = Some(names(&["s4", "s1", "s3", "s2"]));
    let mut d = Dereplicator::new(&seqs, &params).unwrap();
    let batches = d.plan_round(&None).unwrap();
    assert_eq!(batches, vec![names(&["s4", "s1"]), names(&["s3", "s2"])]);
}

#[test]
fn initial_batches_must_name_each_cluster_once() {
    let seqs = names(&["s1", "s2", "s3"]);
    let mut params = singleton_params(1, "linear");
    params.initial_batches = Some(names(&["s1", "s1", "s3"]));
    let mut d = Dereplicator::new(&seqs, &params).unwrap();
    assert!(matches!(d.plan_round(&None), Err(DereplicationError::InitialBatches)));
    params.initial_batches = Some(names(&["s1", "s3"]));
    let mut d = Dereplicator::new(&seqs, &params).unwrap();
    assert!(matches!(d.plan_round(&None), Err(DereplicationError::InitialBatches)));
}

#[test]
fn start_errors() {
    let seqs = names(&["s1", "s2"]);
    assert!(matches!(
        Dereplicator::new(&seqs, &singleton_params(0, "linear")),
        Err(DereplicationError::ZeroBatchStep)
    ));
    let mut params = singleton_params(1, "linear");
    params.external_clustering = Some(names(&["A"]));
    assert!(matches!(
        Dereplicator::new(&seqs, &params),
        Err(DereplicationError::ClusteringLength)
    ));
}

#[test]
fn round_errors() {
    let seqs = names(&["s1", "s2", "s3"]);
    let mut d = Dereplicator::new(&seqs, &singleton_params(1, "linear")).unwrap();
    assert!(matches!(d.finish_round(&vec![]), Err(DereplicationError::WrongStage)));
    let batches = d.plan_round(&None).unwrap();
    assert_eq!(batches.len(), 3);
    assert!(matches!(d.finish_round(&vec![vec![0]]), Err(DereplicationError::PartitionCount)));
    assert!(matches!(
        d.finish_round(&vec![vec![0], vec![], vec![0]]),
        Err(DereplicationError::MissingGroup)
    ));
    d.finish_round(&all_apart(&batches)).unwrap();
    while d.stage != Stage::Done {
        let b = d.plan_round(&None).unwrap();
        d.finish_round(&all_apart(&b)).unwrap();
    }
    assert!(matches!(d.plan_round(&None), Err(DereplicationError::WrongStage)));
}

#[test]
fn empty_input() {
    let mut d = Dereplicator::new(&vec![], &singleton_params(5, "linear")).unwrap();
    assert_eq!(d.stage, Stage::FinalRound);
    let batches = d.plan_round(&None).unwrap();
    assert_eq!(batches, vec![Vec::<String>::new()]);
    d.finish_round(&vec![vec![]]).unwrap();
    assert_eq!(d.stage, Stage::Done);
    assert!(d.labelled_sequences().is_empty());
}

#[test]
fn sort_by_label_orders_pairs() {
    let r = sort_by_label(&names(&["s3", "s1", "s2", "s4"]), &names(&["B", "B", "A", "C"]));
    assert_eq!(
        r,
        vec![
            ("s2".to_string(), "A".to_string()),
            ("s1".to_string(), "B".to_string()),
            ("s3".to_string(), "B".to_string()),
            ("s4".to_string(), "C".to_string()),
        ]
    );
    assert_eq!(sort_by_label(&names(&["s1", "s2"]), &names(&["A"])).len(), 1);
}

#[test]
fn decimal_notation() {
    assert_eq!(decimal_string(0), "0");
    assert_eq!(decimal_string(7), "7");
    assert_eq!(decimal_string(10), "10");
    assert_eq!(decimal_string(1234), "1234");
    assert_eq!(decimal_string(usize::MAX), usize::MAX.to_string());
}

#[test]
fn kept_merge_holds_its_leaves_together() {
    // below the merge at node 9 (step 3) lie leaves 3, 4 and 5
    let groups = cut_dendrogram(&two_triplets(), 25);
    assert_eq!(groups[3], groups[4]);
    assert_eq!(groups[4], groups[5]);
    assert_ne!(groups[0], groups[3]);
}
