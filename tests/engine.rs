use decision_tree::arff::{bucket_of, parse_record, resolve_value, Arff, ArffError, Class};
use decision_tree::cross::{average_shape, cross_validate, fold_bounds};
use decision_tree::decision::{DecisionTree, Node};
use decision_tree::entropy::{build_distribution, count_matching, log2_fixed_of, split_score_of};
use decision_tree::record::Record;

fn nominal(labels: &[&str]) -> Class {
    Class::Nominal(labels.iter().map(|l| l.to_string()).collect())
}

fn rec(features: &[usize], class: usize) -> Record {
    Record { class, features: features.to_vec() }
}

/// Two binary attributes (each with the reserved unknown label) and a binary class.
fn two_feature_catalog() -> Vec<Class> {
    vec![nominal(&["a", "b", "?"]), nominal(&["x", "y", "?"]), nominal(&["no", "yes"])]
}

fn separable_records() -> Vec<Record> {
    vec![rec(&[0, 0], 0), rec(&[0, 1], 0), rec(&[1, 0], 1), rec(&[1, 1], 1)]
}

#[test]
fn separable_data_gives_one_branch_two_leaves() {
    let catalog = two_feature_catalog();
    let data = separable_records();
    let mut tree = DecisionTree::new(0, 0);
    tree.train(&data, &catalog);
    let nodes = tree.nodes();
    assert_eq!(nodes.len(), 3);
    match &nodes[0] {
        Node::Branch { feature, .. } => assert_eq!(*feature, 0),
        Node::Leaf { .. } => panic!("root should split"),
    }
    let leaves = nodes.iter().filter(|n| matches!(n, Node::Leaf { .. })).count();
    assert_eq!(leaves, 2);
    assert_eq!(tree.count_correct(&data), data.len());
    assert_eq!(tree.count_live_nodes(), 3);
    assert_eq!(tree.max_depth(), 2);
    assert_eq!(tree.count_pruned_nodes(), 0);
}

#[test]
fn identical_features_fall_back_to_majority() {
    let catalog = vec![nominal(&["a", "b", "?"]), nominal(&["no", "yes"])];
    let data = vec![rec(&[0], 0), rec(&[0], 1), rec(&[0], 0)];
    let mut tree = DecisionTree::new(0, 0);
    tree.train(&data, &catalog);
    // The root splits on the only feature; its single group cannot be split further and
    // gets no node, so prediction stops at the root's majority class.
    assert_eq!(tree.node_count(), 1);
    match &tree.nodes()[0] {
        Node::Branch { children, majority_class, .. } => {
            assert!(children.iter().all(|c| c.is_none()));
            assert_eq!(*majority_class, 0);
        }
        Node::Leaf { .. } => panic!("root should be a branch"),
    }
    assert_eq!(tree.predict(&rec(&[0], 1)), 0);
    assert_eq!(tree.count_live_nodes(), 1);
    assert_eq!(tree.max_depth(), 1);
}

#[test]
fn single_class_gives_single_leaf() {
    let catalog = two_feature_catalog();
    let data = vec![rec(&[0, 1], 1), rec(&[1, 0], 1)];
    let mut tree = DecisionTree::new(0, 0);
    tree.train(&data, &catalog);
    assert_eq!(tree.node_count(), 1);
    assert!(matches!(tree.nodes()[0], Node::Leaf { class: 1 }));
    assert_eq!(tree.predict(&rec(&[2, 2], 0)), 1);
}

#[test]
fn no_features_and_mixed_classes_gives_empty_tree() {
    let catalog = vec![nominal(&["no", "yes"])];
    let data = vec![rec(&[], 0), rec(&[], 1)];
    let mut tree = DecisionTree::new(0, 0);
    tree.train(&data, &catalog);
    assert_eq!(tree.node_count(), 0);
    assert_eq!(tree.max_depth(), 0);
    assert_eq!(tree.count_live_nodes(), 0);
}

#[test]
fn predict_stays_in_class_domain() {
    let catalog = two_feature_catalog();
    let mut tree = DecisionTree::new(0, 0);
    tree.train(&separable_records(), &catalog);
    for f0 in 0..3 {
        for f1 in 0..3 {
            let p = tree.predict(&rec(&[f0, f1], 0));
            assert!(p < 2);
        }
    }
    // The unknown label has no child: the root's majority (class 0, lowest among equals).
    assert_eq!(tree.predict(&rec(&[2, 0], 1)), 0);
    assert_eq!(tree.predict(&rec(&[1, 2], 0)), 1);
}

#[test]
fn bucketed_values_floor_and_widen_domain() {
    let mut domain = Class::Continuous(0);
    let mut seen = Vec::new();
    for text in ["1.2", "3.9", "0.4"] {
        seen.push(resolve_value(&mut domain, &text.to_string()).unwrap());
    }
    assert_eq!(seen, vec![1, 3, 0]);
    match domain {
        Class::Continuous(size) => assert_eq!(size, 4),
        Class::Nominal(_) => panic!("domain changed kind"),
    }
}

#[test]
fn bucket_of_reads_decimal_floats() {
    let ok = |t: &str| bucket_of(&t.to_string()).unwrap();
    assert_eq!(ok("7"), 7);
    assert_eq!(ok("12."), 12);
    assert_eq!(ok(".5"), 0);
    assert_eq!(ok("40.75"), 40);
    assert_eq!(ok("+2"), 2);
    assert_eq!(ok("-0.5"), 0);
    assert_eq!(ok("-1"), 0);
    assert_eq!(ok("1e3"), 1000);
    assert_eq!(ok("1E+2"), 100);
    assert_eq!(ok("15e-1"), 1);
    assert_eq!(ok("2.5e-1"), 0);
    assert_eq!(ok(".75e1"), 7);
    assert_eq!(ok("0e99999999999999999999999"), 0);
    for bad in ["", ".", "abc", "1.2.3", "--1", "e3", "1e", "1e+", "1x", "1e400", "99999999999999999999999"] {
        assert!(matches!(bucket_of(&bad.to_string()), Err(ArffError::InvalidNumericValue)), "{}", bad);
    }
}

#[test]
fn nominal_values_resolve_to_label_positions() {
    let mut domain = nominal(&["red", "green", "?"]);
    assert_eq!(resolve_value(&mut domain, &"green".to_string()).unwrap(), 1);
    assert_eq!(resolve_value(&mut domain, &"?".to_string()).unwrap(), 2);
    assert!(matches!(
        resolve_value(&mut domain, &"blue".to_string()),
        Err(ArffError::UnmatchedCategoricalValue)
    ));
}

#[test]
fn parse_record_builds_rows_and_rejects_bad_ones() {
    let mut catalog = vec![Class::Continuous(0), nominal(&["a", "b", "?"]), nominal(&["no", "yes"])];
    let values: Vec<String> = ["2.5", "b", "yes"].iter().map(|s| s.to_string()).collect();
    let r = parse_record(&mut catalog, &values).unwrap();
    assert_eq!(r.features, vec![2, 1]);
    assert_eq!(r.class, 1);
    assert!(matches!(catalog[0], Class::Continuous(3)));
    let short: Vec<String> = ["1", "a"].iter().map(|s| s.to_string()).collect();
    assert!(matches!(parse_record(&mut catalog, &short), Err(ArffError::EmptyDataRow)));
    assert!(matches!(parse_record(&mut catalog, &Vec::new()), Err(ArffError::EmptyDataRow)));
    let unknown: Vec<String> = ["1", "c", "no"].iter().map(|s| s.to_string()).collect();
    assert!(matches!(
        parse_record(&mut catalog, &unknown),
        Err(ArffError::UnmatchedCategoricalValue)
    ));
}

#[test]
fn fixed_point_logarithm_values() {
    assert_eq!(log2_fixed_of(0), 0);
    assert_eq!(log2_fixed_of(1), 0);
    assert_eq!(log2_fixed_of(2), 65536);
    assert_eq!(log2_fixed_of(3), 103872);
    assert_eq!(log2_fixed_of(4), 2 * 65536);
    assert_eq!(log2_fixed_of(6), 169408);
    assert_eq!(log2_fixed_of(5), 152169);
}

#[test]
fn pure_subset_scores_zero() {
    let data = vec![rec(&[0, 1], 1), rec(&[1, 1], 1), rec(&[1, 0], 1)];
    let sub = vec![0, 1, 2];
    assert_eq!(split_score_of(&data, &sub, 0, 2), 0);
    assert_eq!(split_score_of(&data, &sub, 1, 2), 0);
}

#[test]
fn split_scores_rank_features() {
    let data = separable_records();
    let sub = vec![0, 1, 2, 3];
    // Feature 0 separates the classes; feature 1 leaves each group half and half:
    // four records, each contributing lg 2 - lg 1.
    assert_eq!(split_score_of(&data, &sub, 0, 2), 0);
    assert_eq!(split_score_of(&data, &sub, 1, 2), 4 * 65536);
}

#[test]
fn distribution_counts_classes() {
    let data = vec![rec(&[0], 2), rec(&[1], 0), rec(&[1], 2), rec(&[0], 2)];
    let sub = vec![0, 1, 2, 3];
    assert_eq!(build_distribution(&data, &sub, 3), vec![1, 0, 3]);
    assert_eq!(build_distribution(&data, &vec![1], 3), vec![1, 0, 0]);
    assert_eq!(count_matching(&data, &sub, 0, 1, None, 1), 2);
    assert_eq!(count_matching(&data, &sub, 0, 1, Some(2), 1), 1);
}

#[test]
fn pruning_collapses_branch_that_costs_nothing() {
    let catalog = two_feature_catalog();
    let data = vec![rec(&[0, 0], 0), rec(&[0, 1], 0), rec(&[1, 0], 1)];
    let mut tree = DecisionTree::new(0, 0);
    tree.train(&data, &catalog);
    assert_eq!(tree.count_live_nodes(), 3);
    let validation = vec![rec(&[0, 0], 0)];
    tree.prune(&validation);
    assert_eq!(tree.node_count(), 3);
    assert_eq!(tree.count_live_nodes(), 1);
    assert_eq!(tree.count_pruned_nodes(), 2);
    assert_eq!(tree.count_correct(&validation), 1);
}

#[test]
fn pruning_keeps_branch_that_helps() {
    let catalog = two_feature_catalog();
    let data = vec![rec(&[0, 0], 0), rec(&[0, 1], 0), rec(&[1, 0], 1)];
    let mut tree = DecisionTree::new(0, 0);
    tree.train(&data, &catalog);
    let validation = vec![rec(&[0, 0], 0), rec(&[1, 1], 1)];
    tree.prune(&validation);
    assert_eq!(tree.count_live_nodes(), 3);
    assert_eq!(tree.count_correct(&validation), 2);
}

#[test]
fn repeated_pruning_never_revives_nodes() {
    let catalog = two_feature_catalog();
    let data = vec![
        rec(&[0, 0], 0),
        rec(&[0, 1], 1),
        rec(&[1, 0], 1),
        rec(&[1, 1], 0),
        rec(&[0, 0], 0),
    ];
    let mut tree = DecisionTree::new(0, 0);
    tree.train(&data, &catalog);
    let mut live = tree.count_live_nodes();
    let mut pruned = tree.count_pruned_nodes();
    for validation in [vec![rec(&[0, 1], 1), rec(&[1, 1], 0)], vec![rec(&[0, 0], 0)], vec![rec(&[1, 0], 1)]] {
        tree.prune(&validation);
        assert!(tree.count_live_nodes() <= live);
        assert!(tree.count_pruned_nodes() >= pruned);
        live = tree.count_live_nodes();
        pruned = tree.count_pruned_nodes();
    }
    assert_eq!(live + pruned, tree.node_count());
}

#[test]
fn folds_cover_every_record_once() {
    assert_eq!(fold_bounds(10, 3), vec![(0, 4), (4, 8), (8, 10)]);
    assert_eq!(fold_bounds(9, 3), vec![(0, 3), (3, 6), (6, 9)]);
    assert_eq!(fold_bounds(0, 4), vec![]);
    assert_eq!(fold_bounds(3, 5), vec![(0, 1), (1, 2), (2, 3)]);
    for n in 0..30usize {
        for k in 1..8usize {
            let folds = fold_bounds(n, k);
            for i in 0..n {
                assert_eq!(folds.iter().filter(|(lo, hi)| *lo <= i && i < *hi).count(), 1);
            }
        }
    }
}

#[test]
fn cross_validation_reports_each_fold() {
    let catalog = two_feature_catalog();
    let data = vec![
        rec(&[0, 0], 0),
        rec(&[1, 0], 1),
        rec(&[0, 1], 0),
        rec(&[1, 1], 1),
        rec(&[0, 0], 0),
        rec(&[1, 1], 1),
    ];
    let results = cross_validate(&data, &catalog, 3, false).unwrap();
    assert_eq!(results.len(), 3);
    for r in &results {
        assert_eq!(r.tested, 2);
        assert_eq!(r.correct, 2);
        assert_eq!(r.live_nodes, 3);
        assert_eq!(r.depth, 2);
    }
    let pruned = cross_validate(&data, &catalog, 2, true).unwrap();
    assert_eq!(pruned.len(), 2);
    assert!(pruned.iter().all(|r| r.tested == 3 && r.correct <= 3));
}

#[test]
fn cross_validation_needs_training_records() {
    let catalog = two_feature_catalog();
    let data = separable_records();
    assert!(matches!(cross_validate(&data, &catalog, 1, false), Err(ArffError::EmptyTrainingSet)));
    // Three training records leave 70% of 3, rounded down, = 2 to grow on.
    assert!(cross_validate(&data, &catalog, 4, true).is_ok());
    let tiny = vec![rec(&[0, 0], 0), rec(&[1, 1], 1)];
    assert!(matches!(cross_validate(&tiny, &catalog, 2, true), Err(ArffError::EmptyTrainingSet)));
}

const WEATHER: &str = "% a comment line\n\
@relation weather\n\
@attribute outlook {sunny, overcast, rainy}\n\
@ATTRIBUTE temperature real\n\
@attribute play {yes, no}\n\
@data\n\
sunny,1.2,no\n\
overcast, 3.9 ,yes\n\
% another comment\n\
rainy,0.4,yes\r\n\
?,2,no\n";

#[test]
fn parse_reads_header_and_rows() {
    let arff = Arff::parse(WEATHER).unwrap();
    assert_eq!(arff.labels, vec!["outlook", "temperature", "play"]);
    assert_eq!(arff.classes.len(), 3);
    match &arff.classes[0] {
        Class::Nominal(labels) => assert_eq!(labels, &vec!["sunny", "overcast", "rainy", "?"]),
        Class::Continuous(_) => panic!("outlook is categorical"),
    }
    assert!(matches!(arff.classes[1], Class::Continuous(4)));
    match &arff.classes[2] {
        Class::Nominal(labels) => assert_eq!(labels, &vec!["yes", "no"]),
        Class::Continuous(_) => panic!("play is categorical"),
    }
    let rows: Vec<(Vec<usize>, usize)> = arff.records.iter().map(|r| (r.features.clone(), r.class)).collect();
    assert_eq!(
        rows,
        vec![(vec![0, 1], 1), (vec![1, 3], 0), (vec![2, 0], 0), (vec![3, 2], 1)]
    );
}

#[test]
fn parse_reports_bad_rows() {
    let header = "@attribute a {x, y}\n@attribute c {p, q}\n@data\n";
    assert!(matches!(
        Arff::parse(&format!("{}x,z\n", header)),
        Err(ArffError::UnmatchedCategoricalValue)
    ));
    assert!(matches!(Arff::parse(&format!("{}x,p\n\n", header)), Err(ArffError::EmptyDataRow)));
    assert!(matches!(
        Arff::parse("@attribute n real\n@attribute c {p}\n@data\nabc,p\n"),
        Err(ArffError::InvalidNumericValue)
    ));
    assert!(matches!(Arff::parse("@attribute\n"), Err(ArffError::MalformedAttributeLine)));
    assert!(matches!(
        Arff::parse("@attribute n real\n@data\n1\n"),
        Err(ArffError::MalformedAttributeLine)
    ));
    assert!(matches!(
        Arff::parse(&format!("{}x,?\n", header)),
        Err(ArffError::UnmatchedCategoricalValue)
    ));
    let empty = Arff::parse("").unwrap();
    assert!(empty.records.is_empty() && empty.classes.is_empty());
}

#[test]
fn parsed_data_trains_a_tree() {
    let arff = Arff::parse(WEATHER).unwrap();
    let mut tree = DecisionTree::new(0, 0);
    tree.train(&arff.records, &arff.classes);
    assert_eq!(tree.count_correct(&arff.records), arff.records.len());
}

#[test]
fn shuffle_keeps_every_record() {
    let mut arff = Arff::parse(WEATHER).unwrap();
    let mut before: Vec<(Vec<usize>, usize)> = arff.records.iter().map(|r| (r.features.clone(), r.class)).collect();
    arff.shuffle();
    let mut after: Vec<(Vec<usize>, usize)> = arff.records.iter().map(|r| (r.features.clone(), r.class)).collect();
    before.sort();
    after.sort();
    assert_eq!(before, after);
    assert_eq!(arff.classes.len(), 3);
}

#[test]
fn default_tree_is_empty() {
    let tree = DecisionTree::default();
    assert_eq!(tree.node_count(), 0);
    assert_eq!(tree.count_live_nodes(), 0);
    assert_eq!(tree.count_pruned_nodes(), 0);
}

#[test]
fn levels_list_the_tree_from_the_root() {
    let catalog = two_feature_catalog();
    let mut tree = DecisionTree::new(0, 0);
    tree.train(&separable_records(), &catalog);
    let levels = tree.levels(10);
    assert_eq!(levels.len(), 2);
    assert_eq!(levels[0].len(), 1);
    assert_eq!(levels[0][0].node, 0);
    let below: Vec<(usize, usize)> = levels[1].iter().map(|v| (v.feature, v.value)).collect();
    assert_eq!(below, vec![(0, 0), (0, 1)]);
    assert_eq!(tree.levels(1).len(), 1);
    assert_eq!(tree.levels(0).len(), 0);
}

#[test]
fn average_shape_takes_integer_means() {
    let catalog = two_feature_catalog();
    let data = vec![
        rec(&[0, 0], 0),
        rec(&[1, 0], 1),
        rec(&[0, 1], 0),
        rec(&[1, 1], 1),
        rec(&[0, 0], 0),
        rec(&[1, 1], 1),
    ];
    let results = cross_validate(&data, &catalog, 3, false).unwrap();
    assert_eq!(average_shape(&results, 3), (3, 2));
    assert_eq!(average_shape(&results, 4), (2, 1));
}

#[test]
fn parse_buckets_float_text() {
    let arff = Arff::parse("@attribute x real\n@attribute c {p, q}\n@data\n1e1,p\n-0.5,q\n+2.9,p\n").unwrap();
    let xs: Vec<usize> = arff.records.iter().map(|r| r.features[0]).collect();
    assert_eq!(xs, vec![10, 0, 2]);
    assert!(matches!(arff.classes[0], Class::Continuous(11)));
    assert!(matches!(
        Arff::parse("@attribute x real\n@attribute c {p, q}\n@data\nabc,p\n"),
        Err(ArffError::InvalidNumericValue)
    ));
}
