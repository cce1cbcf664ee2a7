use std::sync::Arc;

use adaptive_filter_search::benchmark::{
    label_count_message, AdaptiveL, AdaptiveLError, IdCount, Matrix, Metrics,
};
use adaptive_filter_search::disk_index::{stub_names, FailureScore, Stub};
use adaptive_filter_search::filters::{as_query_label_provider, BitmapFilter};
use adaptive_filter_search::labels::QueryLabelProvider;
use adaptive_filter_search::search::{Knn, SearchStats};
use bit_set::BitSet;

fn filter_of(id: usize) -> Arc<BitmapFilter> {
    let mut bitset = BitSet::new();
    bitset.insert(id);
    as_query_label_provider(bitset)
}

fn two_queries() -> Arc<Matrix<u8>> {
    Arc::new(Matrix::new(vec![1, 2, 3, 4, 5, 6], 2, 3).unwrap())
}

#[test]
fn matrix_rows() {
    let matrix = two_queries();
    assert_eq!(matrix.nrows(), 2);
    assert_eq!(matrix.row(0), &[1, 2, 3]);
    assert_eq!(matrix.row(1), &[4, 5, 6]);
    assert!(Matrix::new(vec![1, 2, 3], 2, 2).is_none());
    assert!(Matrix::new(vec![1u8], usize::MAX, 2).is_none());
    assert_eq!(Matrix::<u8>::new(vec![], 3, 0).unwrap().row(2).len(), 0);
}

#[test]
fn batch_with_one_filter_for_each_query() {
    let labels = vec![filter_of(1), filter_of(2)];
    let fit: Result<(), String> = Ok(());
    let batch = match AdaptiveL::new(Arc::new("index"), two_queries(), "strategy", fit, labels) {
        Ok(batch) => batch,
        Err(_) => panic!("the batch fits"),
    };
    let params = Knn::new(5, 10, 1).unwrap();
    assert_eq!(batch.num_queries(), 2);
    assert_eq!(batch.id_count(&params), IdCount::Fixed(5));
    assert_eq!(**batch.index(), "index");
    assert_eq!(*batch.strategy(), "strategy");
    let (search, query) = batch.query_search(&params, 1);
    assert_eq!(query, &[4, 5, 6]);
    assert_eq!(search.inner.k_value(), 5);
    assert!(search.label_evaluator.is_match(2u32));
    assert!(!search.label_evaluator.is_match(1u32));
}

#[test]
fn batch_of_trait_objects() {
    let object: Arc<dyn QueryLabelProvider<u32>> = filter_of(7);
    let other: Arc<dyn QueryLabelProvider<u32>> = filter_of(8);
    let fit: Result<(), String> = Ok(());
    let batch = AdaptiveL::new(Arc::new(()), two_queries(), (), fit, vec![object, other]);
    match batch {
        Ok(batch) => {
            let params = Knn::new(5, 10, 1).unwrap();
            assert!(batch.query_search(&params, 0).0.label_evaluator.is_match(7));
        }
        Err(_) => panic!("the batch fits"),
    }
}

#[test]
fn batch_with_too_few_filters() {
    let fit: Result<(), String> = Ok(());
    match AdaptiveL::new(Arc::new(()), two_queries(), (), fit, vec![filter_of(1)]) {
        Ok(_) => panic!("a filter is missing"),
        Err(AdaptiveLError::Strategy(_)) => panic!("the strategies fit"),
        Err(AdaptiveLError::LabelCount { labels, queries }) => {
            assert_eq!((labels, queries), (1, 2));
            assert_eq!(
                label_count_message(labels, queries),
                "Number of label providers (1) must be equal to the number of queries (2)"
            );
        }
    }
}

#[test]
fn strategies_are_asked_first() {
    let fit: Result<(), &str> = Err("three strategies for two queries");
    match AdaptiveL::new(Arc::new(()), two_queries(), (), fit, vec![filter_of(1)]) {
        Ok(_) => panic!("the strategies do not fit"),
        Err(AdaptiveLError::Strategy(e)) => assert_eq!(e, "three strategies for two queries"),
        Err(AdaptiveLError::LabelCount { .. }) => panic!("the strategies are asked first"),
    }
}

#[test]
fn metrics_of_a_search() {
    let stats = SearchStats {
        cmps: 12,
        hops: 3,
        result_count: 5,
        range_search_second_round: false,
    };
    assert_eq!(Metrics::of(&stats), Metrics { comparisons: 12, hops: 3 });
}

#[test]
fn stub_matches_nothing() {
    assert_eq!(stub_names(), ("disk-index", "disk-index-filter"));
    assert_eq!(Stub.try_match(), Err(FailureScore(0)));
    assert_eq!(Stub.description(), "Requires the \"disk-index\" feature\n");
}
