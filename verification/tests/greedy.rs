use adaptive_filter_search::filters::BitmapFilter;
use adaptive_filter_search::greedy::{GreedyFilterSearch, SearchAction, SearchEvent};
use adaptive_filter_search::labels::QueryLabelProvider;
use adaptive_filter_search::search::{
    to_low_bits, AdaptiveLGreedySearch, InternalSearchStats, Knn, Neighbor, SearchStats,
};
use bit_set::BitSet;

fn even_filter(limit: usize) -> BitmapFilter {
    BitmapFilter((0..limit).filter(|i| i % 2 == 0).collect::<BitSet>())
}

fn hundredth_filter(limit: usize) -> BitmapFilter {
    BitmapFilter((0..limit).filter(|i| i % 100 == 0).collect::<BitSet>())
}

#[test]
fn parameters_are_not_zero() {
    assert!(Knn::new(0, 1, 1).is_none());
    assert!(Knn::new(1, 0, 1).is_none());
    assert!(Knn::new(1, 1, 0).is_none());
    let params = Knn::new(10, 100, 4).unwrap();
    assert_eq!(params.k_value(), 10);
    assert_eq!(params.l_value(), 100);
    assert_eq!(params.beam_width(), 4);
}

/// Runs one round of a search up to the insertion of the neighbors.
fn round(
    search: &mut GreedyFilterSearch<u32>,
    labels: &dyn QueryLabelProvider<u32>,
    nodes: &[u32],
    full: bool,
    neighbors: Vec<u32>,
) {
    assert_eq!(search.step(SearchEvent::Unvisited(true), labels), SearchAction::CheckTermination);
    assert_eq!(search.step(SearchEvent::Terminate(false), labels), SearchAction::TakeClosest);
    for (i, &node) in nodes.iter().enumerate() {
        let record = search.step(SearchEvent::Closest(Some(node)), labels);
        assert!(matches!(record, SearchAction::Record { .. }));
        let next = search.step(SearchEvent::Recorded, labels);
        if full && i + 1 == nodes.len() {
            assert_eq!(next, SearchAction::ExpandBeam);
        } else {
            assert_eq!(next, SearchAction::TakeClosest);
        }
    }
    if !full {
        assert_eq!(search.step(SearchEvent::Closest(None), labels), SearchAction::ExpandBeam);
    }
    assert_eq!(search.beam().as_slice(), nodes);
    assert_eq!(
        search.step(SearchEvent::Expanded(neighbors), labels),
        SearchAction::InsertNeighbors
    );
}

fn finished(action: SearchAction) -> InternalSearchStats {
    match action {
        SearchAction::Finish(stats) => stats,
        _ => panic!("the search goes on"),
    }
}

#[test]
fn search_counts_comparisons_and_hops() {
    let labels = even_filter(100);
    let params = Knn::new(5, 10, 2).unwrap();
    let (mut search, action) = GreedyFilterSearch::<u32>::start(&params, 3, 4, true);
    assert_eq!(action, SearchAction::SeedStartPoints);
    assert_eq!(search.step(SearchEvent::Seeded, &labels), SearchAction::CheckUnvisited);
    round(&mut search, &labels, &[1, 2], true, vec![5, 6, 7]);
    assert_eq!(search.step(SearchEvent::Inserted(10), &labels), SearchAction::CheckUnvisited);
    round(&mut search, &labels, &[5], false, vec![8]);
    assert_eq!(search.step(SearchEvent::Inserted(10), &labels), SearchAction::CheckUnvisited);
    let stats = finished(search.step(SearchEvent::Unvisited(false), &labels));
    assert_eq!(
        stats,
        InternalSearchStats { cmps: 3 + 4, hops: 4 + 3, range_search_second_round: false }
    );
}

#[test]
fn nodes_are_recorded_with_the_counts_so_far() {
    let labels = even_filter(10);
    let params = Knn::new(1, 10, 1).unwrap();
    let (mut search, action) = GreedyFilterSearch::<u32>::start(&params, 0, 0, false);
    assert_eq!(action, SearchAction::CheckUnvisited);
    round(&mut search, &labels, &[1], true, vec![2, 3]);
    search.step(SearchEvent::Inserted(10), &labels);
    search.step(SearchEvent::Unvisited(true), &labels);
    search.step(SearchEvent::Terminate(false), &labels);
    let record = search.step(SearchEvent::Closest(Some(2)), &labels);
    assert_eq!(record, SearchAction::Record { hops: 1, comparisons: 2 });
}

#[test]
fn search_ends_early_where_it_is_told_to() {
    let labels = even_filter(10);
    let params = Knn::new(1, 10, 1).unwrap();
    let (mut search, _) = GreedyFilterSearch::<u32>::start(&params, 1, 2, false);
    search.step(SearchEvent::Unvisited(true), &labels);
    let stats = finished(search.step(SearchEvent::Terminate(true), &labels));
    assert_eq!(stats, InternalSearchStats { cmps: 1, hops: 2, range_search_second_round: false });
}

#[test]
fn list_grows_once_for_a_selective_filter() {
    let labels = hundredth_filter(5000);
    let params = Knn::new(10, 100, 1).unwrap();
    let (mut search, _) = GreedyFilterSearch::<u32>::start(&params, 0, 0, false);
    round(&mut search, &labels, &[1], true, (0..999).collect());
    // One neighbor short of a sample.
    assert_eq!(search.step(SearchEvent::Inserted(100), &labels), SearchAction::CheckUnvisited);
    round(&mut search, &labels, &[2], true, vec![999]);
    // Ten of a thousand match.
    assert_eq!(search.step(SearchEvent::Inserted(100), &labels), SearchAction::Resize(400));
    assert_eq!(search.step(SearchEvent::Resized, &labels), SearchAction::CheckUnvisited);
    round(&mut search, &labels, &[3], true, (1001..1099).collect());
    assert_eq!(search.step(SearchEvent::Inserted(400), &labels), SearchAction::CheckUnvisited);
    let stats = finished(search.step(SearchEvent::Unvisited(false), &labels));
    assert_eq!(stats.cmps, 1098);
    assert_eq!(stats.hops, 3);
}

#[test]
fn only_the_first_neighbors_are_sampled() {
    let labels = even_filter(4000);
    let params = Knn::new(10, 100, 1).unwrap();
    // The first thousand match by half, and none of the rest: the list keeps its length.
    let batch: Vec<u32> = (0..1000).chain((0..1500).map(|i| 2 * i + 1)).collect();
    let (mut search, _) = GreedyFilterSearch::<u32>::start(&params, 0, 0, false);
    round(&mut search, &labels, &[1], true, batch.clone());
    assert_eq!(search.step(SearchEvent::Inserted(100), &labels), SearchAction::CheckUnvisited);
    assert_eq!(search.stats().cmps, 2500);
    // The same where the sample is filled over two rounds.
    let (mut search, _) = GreedyFilterSearch::<u32>::start(&params, 0, 0, false);
    round(&mut search, &labels, &[1], true, batch[..700].to_vec());
    assert_eq!(search.step(SearchEvent::Inserted(100), &labels), SearchAction::CheckUnvisited);
    round(&mut search, &labels, &[2], true, batch[700..].to_vec());
    assert_eq!(search.step(SearchEvent::Inserted(100), &labels), SearchAction::CheckUnvisited);
    // None of the first thousand match, and all of the rest: the list grows as far as it may.
    let batch: Vec<u32> = (0..1000).map(|i| 2 * i + 1).chain((0..1500).map(|i| 2 * i)).collect();
    let (mut search, _) = GreedyFilterSearch::<u32>::start(&params, 0, 0, false);
    round(&mut search, &labels, &[1], true, batch);
    assert_eq!(search.step(SearchEvent::Inserted(100), &labels), SearchAction::Resize(1600));
}

#[test]
fn unmatched_nodes_guide_the_search() {
    let params = Knn::new(10, 100, 2).unwrap();
    let filters = [even_filter(4000), hundredth_filter(4000), BitmapFilter(BitSet::new())];
    let mut counts = Vec::new();
    for labels in &filters {
        let (mut search, _) = GreedyFilterSearch::<u32>::start(&params, 0, 0, false);
        round(&mut search, labels, &[1, 2], true, (0..500).collect());
        assert_eq!(search.step(SearchEvent::Inserted(100), labels), SearchAction::CheckUnvisited);
        round(&mut search, labels, &[3], false, (500..999).collect());
        assert_eq!(search.step(SearchEvent::Inserted(100), labels), SearchAction::CheckUnvisited);
        counts.push(finished(search.step(SearchEvent::Unvisited(false), labels)));
    }
    let expected = InternalSearchStats { cmps: 999, hops: 3, range_search_second_round: false };
    assert_eq!(counts, vec![expected; 3]);
}

#[test]
fn filter_has_no_part_once_the_length_is_adapted() {
    let params = Knn::new(10, 100, 1).unwrap();
    let first = even_filter(4000);
    for second in [even_filter(4000), hundredth_filter(4000), BitmapFilter(BitSet::new())] {
        let (mut search, _) = GreedyFilterSearch::<u32>::start(&params, 0, 0, false);
        round(&mut search, &first, &[1], true, (0..1000).collect());
        assert_eq!(search.step(SearchEvent::Inserted(100), &first), SearchAction::CheckUnvisited);
        round(&mut search, &second, &[2], true, (1000..3000).collect());
        assert_eq!(search.step(SearchEvent::Inserted(100), &second), SearchAction::CheckUnvisited);
        assert_eq!(
            finished(search.step(SearchEvent::Unvisited(false), &second)),
            InternalSearchStats { cmps: 3000, hops: 2, range_search_second_round: false }
        );
    }
}

#[test]
fn filter_sets_nothing_but_the_length() {
    let params = Knn::new(10, 100, 1).unwrap();
    let filters = [
        (hundredth_filter(4000), 400),
        (BitmapFilter((0..200).collect::<BitSet>()), 200),
        (BitmapFilter(BitSet::new()), 1600),
    ];
    for (labels, l) in &filters {
        let (mut search, _) = GreedyFilterSearch::<u32>::start(&params, 0, 0, false);
        round(&mut search, labels, &[1], true, (0..1000).collect());
        assert_eq!(search.step(SearchEvent::Inserted(100), labels), SearchAction::Resize(*l));
        assert_eq!(search.step(SearchEvent::Resized, labels), SearchAction::CheckUnvisited);
        round(&mut search, labels, &[2], true, vec![1001, 1002]);
        assert_eq!(search.step(SearchEvent::Inserted(*l), labels), SearchAction::CheckUnvisited);
        assert_eq!(search.stats().cmps, 1002);
        assert_eq!(search.stats().hops, 2);
    }
}

#[test]
fn all_neighbors_are_handed_out() {
    let params = Knn::new(10, 100, 1).unwrap();
    for labels in [even_filter(4000), BitmapFilter(BitSet::new())] {
        let (mut search, _) = GreedyFilterSearch::<u32>::start(&params, 0, 0, false);
        let mut handed_out: Vec<u32> = Vec::new();
        for (node, neighbors) in [(1, vec![9, 4, 7]), (2, vec![]), (3, vec![4, 2])] {
            assert!(search.neighbors().is_empty());
            round(&mut search, &labels, &[node], true, neighbors.clone());
            assert_eq!(search.neighbors(), &neighbors);
            handed_out.extend(search.neighbors());
            search.step(SearchEvent::Inserted(100), &labels);
        }
        assert!(search.neighbors().is_empty());
        assert_eq!(handed_out, vec![9, 4, 7, 4, 2]);
    }
}

#[test]
fn counts_so_far_can_be_read() {
    let labels = even_filter(10);
    let params = Knn::new(1, 10, 1).unwrap();
    let (mut search, _) = GreedyFilterSearch::<u32>::start(&params, 5, 6, false);
    let stats = search.stats();
    assert_eq!(stats, InternalSearchStats { cmps: 5, hops: 6, range_search_second_round: false });
    round(&mut search, &labels, &[1], true, vec![2, 3]);
    let stats = search.stats();
    assert_eq!(stats, InternalSearchStats { cmps: 7, hops: 7, range_search_second_round: false });
}

#[test]
fn list_does_not_shrink() {
    let labels = hundredth_filter(5000);
    let params = Knn::new(10, 100, 1).unwrap();
    for capacity in [400, 401, 5000] {
        let (mut search, _) = GreedyFilterSearch::<u32>::start(&params, 0, 0, false);
        round(&mut search, &labels, &[1], true, (0..1000).collect());
        assert_eq!(
            search.step(SearchEvent::Inserted(capacity), &labels),
            SearchAction::CheckUnvisited
        );
        // It is not adapted later either.
        round(&mut search, &labels, &[2], true, (1..99).collect());
        assert_eq!(search.step(SearchEvent::Inserted(1), &labels), SearchAction::CheckUnvisited);
    }
}

#[test]
fn unselective_filter_keeps_the_list() {
    let labels = even_filter(5000);
    let params = Knn::new(10, 100, 1).unwrap();
    let (mut search, _) = GreedyFilterSearch::<u32>::start(&params, 0, 0, false);
    round(&mut search, &labels, &[1], true, (0..1000).collect());
    assert_eq!(search.step(SearchEvent::Inserted(100), &labels), SearchAction::CheckUnvisited);
}

#[test]
fn only_matching_candidates_are_handed_on() {
    let labels = even_filter(100);
    let params = Knn::new(2, 10, 1).unwrap();
    let search = AdaptiveLGreedySearch::new(params, &labels);
    let best: Vec<Neighbor<u32, f32>> = [4u32, 3, 8, 6, 5, 2]
        .iter()
        .enumerate()
        .map(|(i, &id)| Neighbor { id, distance: i as f32 })
        .collect();
    let picked = |capacity: usize| -> Vec<(u32, f32)> {
        search
            .matching_candidates(&best, capacity)
            .iter()
            .map(|n| (n.id, n.distance))
            .collect()
    };
    assert_eq!(picked(4), vec![(4, 0.0), (8, 2.0), (6, 3.0)]);
    assert_eq!(picked(100), vec![(4, 0.0), (8, 2.0), (6, 3.0), (2, 5.0)]);
    assert_eq!(picked(0), vec![]);
}

#[test]
fn filter_may_be_a_trait_object() {
    let labels = even_filter(100);
    let object: &dyn QueryLabelProvider<u32> = &labels;
    let search = AdaptiveLGreedySearch::new(Knn::new(2, 10, 1).unwrap(), object);
    assert_eq!(search.inner.l_value(), 10);
    let best = vec![Neighbor { id: 1u32, distance: 0u8 }, Neighbor { id: 2, distance: 0 }];
    assert_eq!(search.matching_candidates(&best, 2).len(), 1);
}

#[test]
fn statistics_get_the_number_of_results() {
    let labels = even_filter(1);
    let search = AdaptiveLGreedySearch::new(Knn::new(2, 10, 1).unwrap(), &labels);
    let stats = InternalSearchStats { cmps: 7, hops: 3, range_search_second_round: false };
    assert_eq!(
        search.finish(stats, 5),
        SearchStats { cmps: 7, hops: 3, result_count: 5, range_search_second_round: false }
    );
    assert_eq!(to_low_bits(5), 5);
    assert_eq!(to_low_bits(4294967295), 4294967295);
}

#[test]
fn counts_must_fit() {
    let labels = even_filter(10);
    let params = Knn::new(1, 10, 1).unwrap();
    let (mut search, _) = GreedyFilterSearch::<u32>::start(&params, u32::MAX - 3, 0, false);
    search.step(SearchEvent::Unvisited(true), &labels);
    search.step(SearchEvent::Terminate(false), &labels);
    search.step(SearchEvent::Closest(None), &labels);
    assert!(search.has_room_for(3));
    assert!(!search.has_room_for(4));
    let (full, _) = GreedyFilterSearch::<u32>::start(&params, 0, 0, false);
    assert!(full.has_room_for(4294967295));
}
