use std::sync::Arc;

use adaptive_filter_search::filters::{
    as_query_label_provider, setup_filter_strategies, BitmapFilter, QueryBitmapEvaluator,
};
use adaptive_filter_search::labels::{QueryLabelProvider, VectorId};
use adaptive_filter_search::predicates::extract_eq_ids_from_line;
use bit_set::BitSet;

#[test]
fn test_bitmap_filter_match() {
    let mut bitset = BitSet::new();
    bitset.insert(1);
    bitset.insert(3);
    let filter = BitmapFilter(bitset);

    assert!(filter.is_match(1u32));
    assert!(filter.is_match(3u32));
    assert!(!filter.is_match(2u32));
    assert!(!filter.is_match(0u32));
}

#[test]
fn test_bitmap_filter_empty() {
    let bitset = BitSet::new();
    let filter = BitmapFilter(bitset);

    assert!(!filter.is_match(0u32));
    assert!(!filter.is_match(10u32));
}

#[test]
fn test_bitmap_filter_large_id() {
    let mut bitset = BitSet::new();
    bitset.insert(1000);
    let filter = BitmapFilter(bitset);

    assert!(filter.is_match(1000u32));
    assert!(!filter.is_match(999u32));
}

#[test]
fn evaluator_counts_and_matches() {
    let mut bitset = BitSet::new();
    bitset.insert(5);
    bitset.insert(70);
    bitset.insert(5);
    let evaluation: Result<BitSet, String> = Ok(bitset);
    let evaluator = QueryBitmapEvaluator::new("color = red", evaluation);
    assert_eq!(evaluator.ast_expr, "color = red");
    assert_eq!(evaluator.count(), 2);
    assert!(evaluator.is_match(5u32));
    assert!(evaluator.is_match(70u32));
    assert!(!evaluator.is_match(6u32));
    assert!(evaluator.get_bitmap().contains(70));
}

#[test]
fn evaluator_of_an_empty_bitmap() {
    let evaluation: Result<BitSet, String> = Ok(BitSet::new());
    let evaluator = QueryBitmapEvaluator::new((), evaluation);
    assert_eq!(evaluator.count(), 0);
    assert!(!evaluator.is_match(0u32));
}

#[test]
fn shared_filter_as_trait_object() {
    let mut bitset = BitSet::new();
    bitset.insert(9);
    let provider: Arc<dyn QueryLabelProvider<u32>> = as_query_label_provider(bitset);
    assert!(provider.is_match(9));
    assert!(!provider.is_match(8));
}

#[test]
fn ids_are_indices() {
    assert_eq!(7u32.into_usize(), 7);
    assert_eq!(u32::MAX.into_usize(), 4294967295);
}

#[test]
fn one_strategy_for_each_filter() {
    let strategies = setup_filter_strategies(0.5f32, vec!["a", "b", "c"], String::from("full"));
    assert_eq!(strategies.len(), 3);
    let labels: Vec<&str> = strategies.iter().map(|s| s.labels).collect();
    assert_eq!(labels, vec!["a", "b", "c"]);
    for s in &strategies {
        assert_eq!(s.beta, 0.5);
        assert_eq!(s.strategy, "full");
    }
    assert!(setup_filter_strategies(0.5f32, Vec::<&str>::new(), 1).is_empty());
}

#[test]
fn filters_with_the_same_ids_agree() {
    let line = "{\"vector_id\": {\"$eq\": \"3\"}}, {\"vector_id\": {\"$eq\": \"40\"}}";
    let filter = BitmapFilter(extract_eq_ids_from_line(line));
    let evaluation: Result<BitSet, String> = Ok(extract_eq_ids_from_line(line));
    let evaluator = QueryBitmapEvaluator::new(line, evaluation);
    for id in 0..100u32 {
        assert_eq!(filter.is_match(id), id == 3 || id == 40);
        assert_eq!(evaluator.is_match(id), filter.is_match(id));
    }
}
