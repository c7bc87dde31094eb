use partitioning::multiway_partition;
use partitioning::Partition;
use partitioning::category_metrics::int_metrics;
use partitioning::category_metrics::bool_metrics;
use partitioning::permutations::find_all_permutations;
use partitioning::permutations::exhaustive_permutations;
use partitioning::preserve_information::exhaustive_segments;
use partitioning::preserve_information::fisher_score;
use partitioning::category_metrics::CategoryMetrics;

#[test]
fn even_partitioning() {
    let input: Vec<i64> = vec![400, 300, 50, 300, 70, 30];
    assert_eq!(
        multiway_partition(input, 2),
        vec![vec![1, 3], vec![0, 4, 2, 5]]
    );
}

#[test]
fn preserved_info_partitioning_float() {
    let input_categories: Vec<usize> = vec![0, 0, 1, 1, 2, 2];
    let input: Vec<i64> = vec![400, 50, 250, 300, 100, 400];
    assert_eq!(
        input.partition_by_information(input_categories),
        vec![vec![1], vec![0, 2]]
    );
}

#[test]
fn preserved_info_partitioning_bool() {
    let input_categories: Vec<usize> =
        vec![0, 0, 0, 0, 1, 1, 1, 1, 2, 2, 2, 2];
    let input: Vec<bool> = vec![
        false, false, false, true, false, false, false, false, true, true, true, true,
    ];
    assert_eq!(
        input.partition_by_information(input_categories),
        vec![vec![1, 0], vec![2]]
    );
}

#[test]
fn partition_scenario_four_weights() {
    // {250, 300} against {400, 50}: sums 550 and 450, the closest
    // two-way split of these weights.
    let input: Vec<i64> = vec![400, 50, 250, 300];
    assert_eq!(multiway_partition(input, 2), vec![vec![2, 3], vec![0, 1]]);
}

#[test]
fn permutations_count_and_distinctness() {
    let perms = find_all_permutations(vec![0, 1, 2, 3]);
    assert_eq!(perms.len(), 24);
    for p in &perms {
        let mut sorted = p.clone();
        sorted.sort();
        assert_eq!(sorted, vec![0, 1, 2, 3]);
    }
    for a in 0..perms.len() {
        for b in (a + 1)..perms.len() {
            assert_ne!(perms[a], perms[b]);
        }
    }
}

#[test]
fn permutations_respect_fixed_prefix() {
    let perms = exhaustive_permutations(vec![7, 8, 9], vec![true, false, false]);
    assert_eq!(perms.len(), 2);
    for p in &perms {
        assert_eq!(p[0], 7);
    }
}

#[test]
fn single_partition_holds_everything() {
    let input: Vec<i64> = vec![9, 4, 7];
    let groups = multiway_partition(input, 1);
    assert_eq!(groups.len(), 1);
    let mut all = groups[0].clone();
    all.sort();
    assert_eq!(all, vec![0, 1, 2]);
}

#[test]
fn partition_count_equal_to_items_gives_singletons() {
    let input: Vec<i64> = vec![5, 5, 5, 5];
    let groups = multiway_partition(input, 4);
    assert_eq!(groups.len(), 4);
    let mut all: Vec<usize> = Vec::new();
    for g in &groups {
        assert_eq!(g.len(), 1);
        all.push(g[0]);
    }
    all.sort();
    assert_eq!(all, vec![0, 1, 2, 3]);
}

#[test]
fn partitioning_is_deterministic() {
    let a = multiway_partition(vec![400, 300, 50, 300, 70, 30], 2);
    let b = multiway_partition(vec![400, 300, 50, 300, 70, 30], 2);
    assert_eq!(a, b);
    let cats: Vec<usize> = vec![0, 0, 1, 1, 2, 2];
    let vals: Vec<i64> = vec![400, 50, 250, 300, 100, 400];
    let x = vals.clone().partition_by_information(cats.clone());
    let y = vals.partition_by_information(cats);
    assert_eq!(x, y);
}

#[test]
fn metrics_count_and_sum_per_category() {
    let m = int_metrics(&vec![5, 7, 9], &vec![0, 0, 1]);
    assert_eq!(m.elements_per_group, vec![2, 1]);
    assert_eq!(m.group_total, vec![12, 9]);
    let mut ids = m.group.clone();
    ids.sort();
    assert_eq!(ids, vec![0, 1]);
}

#[test]
fn bool_metrics_count_trues() {
    let m = bool_metrics(&vec![true, false, true, true], &vec![0, 0, 1, 1]);
    assert_eq!(m.elements_per_group, vec![2, 2]);
    assert_eq!(m.group_total, vec![1, 2]);
}

#[test]
fn exhaustive_segments_lists_every_division() {
    // heads grow left to right, so the order is pinned
    let cuts = exhaustive_segments(vec![0, 1, 2], 2);
    assert_eq!(cuts, vec![vec![vec![0], vec![1, 2]], vec![vec![0, 1], vec![2]]]);
    assert_eq!(exhaustive_segments(vec![4, 5], 1), vec![vec![vec![4, 5]]]);
    let all = exhaustive_segments(vec![0, 1, 2, 3], 3);
    assert_eq!(all.len(), 3);
    for cut in &all {
        assert_eq!(cut.len(), 3);
        let flat: Vec<usize> = cut.iter().flatten().copied().collect();
        assert_eq!(flat, vec![0, 1, 2, 3]);
    }
}

#[test]
fn fisher_score_exact_value() {
    // counts 2,2,2 and totals 450,550,500 over 6 elements: the scale is
    // 6! = 720. The run {0} contributes nothing; the run {1,2} has
    // within 552500*360 and between 1050^2*180, a gap of 450000.
    let data = CategoryMetrics {
        group: vec![0, 1, 2],
        elements_per_group: vec![2, 2, 2],
        group_total: vec![450, 550, 500],
    };
    let cut = vec![vec![0], vec![1, 2]];
    assert_eq!(fisher_score(&cut, &data), 450_000);
}
