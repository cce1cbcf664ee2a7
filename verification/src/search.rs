//! The parameters, the statistics and the candidates of a label-filtered search.

use vstd::prelude::*;

use crate::labels::QueryLabelProvider;

verus! {

/// The parameters of a search for the nearest neighbors in a graph. None of them is zero.
#[derive(Clone, Copy, Debug)]
pub struct Knn {
    k_value: usize,
    l_value: usize,
    beam_width: usize,
}

impl Knn {
    /// How many neighbors are asked for.
    pub closed spec fn k(&self) -> usize {
        self.k_value
    }

    /// How long the search list is.
    pub closed spec fn l(&self) -> usize {
        self.l_value
    }

    /// How many nodes are expanded at once.
    pub closed spec fn width(&self) -> usize {
        self.beam_width
    }

    #[verifier::type_invariant]
    spec fn nonzero(self) -> bool {
        self.k_value > 0 && self.l_value > 0 && self.beam_width > 0
    }

    /// Makes parameters, unless one of them is zero.
    pub fn new(k_value: usize, l_value: usize, beam_width: usize) -> (params: Option<Knn>)
        ensures
            params is Some <==> k_value > 0 && l_value > 0 && beam_width > 0,
            params matches Some(p) ==> p.k() == k_value && p.l() == l_value && p.width()
                == beam_width,
    {
        if k_value > 0 && l_value > 0 && beam_width > 0 {
            Some(Knn { k_value, l_value, beam_width })
        } else {
            None
        }
    }

    /// Returns how many neighbors are asked for.
    pub fn k_value(&self) -> (k: usize)
        ensures
            k == self.k(),
            k > 0,
    {
        proof {
            use_type_invariant(self);
        }
        self.k_value
    }

    /// Returns how long the search list is.
    pub fn l_value(&self) -> (l: usize)
        ensures
            l == self.l(),
            l > 0,
    {
        proof {
            use_type_invariant(self);
        }
        self.l_value
    }

    /// Returns how many nodes are expanded at once.
    pub fn beam_width(&self) -> (width: usize)
        ensures
            width == self.width(),
            width > 0,
    {
        proof {
            use_type_invariant(self);
        }
        self.beam_width
    }
}

/// A vector and its distance from the query.
#[derive(Debug)]
pub struct Neighbor<I, D> {
    /// The id of the vector.
    pub id: I,
    /// Its distance from the query.
    pub distance: D,
}

impl<I: Copy, D: Copy> Clone for Neighbor<I, D> {
    fn clone(&self) -> (copy: Self)
        ensures
            copy == *self,
    {
        *self
    }
}

impl<I: Copy, D: Copy> Copy for Neighbor<I, D> {

}

/// The low half of a count: the count itself where it fits.
pub open spec fn low_bits(count: usize) -> u32 {
    (count as int % 0x1_0000_0000) as u32
}

/// Converts a count to a `u32`, without its high bits.
pub fn to_low_bits(count: usize) -> (low: u32)
    ensures
        low == low_bits(count),
        low == count as int % 0x1_0000_0000,
{
    let wide: u64 = count as u64;
    assert(wide as u32 == wide % 0x1_0000_0000) by (bit_vector);
    #[verifier::truncate]
    (wide as u32)
}

/// A count that fits in a `u32` is kept, and every count but for whole multiples of two to the
/// power 32.
pub proof fn law_low_bits(count: usize)
    ensures
        count <= 0xffff_ffff ==> low_bits(count) == count,
        (count - low_bits(count)) % 0x1_0000_0000 == 0,
{
}

/// What a search has counted before its results were processed.
#[derive(Clone, Copy, Debug, PartialEq, Eq, Structural)]
pub struct InternalSearchStats {
    /// How many distances were computed.
    pub cmps: u32,
    /// How many nodes were expanded.
    pub hops: u32,
    /// Whether a range search took a second round.
    pub range_search_second_round: bool,
}

/// What a search has counted.
#[derive(Clone, Copy, Debug, PartialEq, Eq, Structural)]
pub struct SearchStats {
    /// How many distances were computed.
    pub cmps: u32,
    /// How many nodes were expanded.
    pub hops: u32,
    /// How many results were handed out.
    pub result_count: u32,
    /// Whether a range search took a second round.
    pub range_search_second_round: bool,
}

impl InternalSearchStats {
    /// Adds the number of results.
    pub fn finish(self, result_count: u32) -> (stats: SearchStats)
        ensures
            stats == (SearchStats {
                cmps: self.cmps,
                hops: self.hops,
                result_count,
                range_search_second_round: self.range_search_second_round,
            }),
    {
        SearchStats {
            cmps: self.cmps,
            hops: self.hops,
            result_count,
            range_search_second_round: self.range_search_second_round,
        }
    }
}

/// The parameters of a label-filtered search with an adaptive search list.
///
/// All nodes, matched and unmatched, guide the way through the graph. Once enough neighbors
/// were seen, the search list is made longer according to how many of them match.
#[derive(Debug)]
pub struct AdaptiveLGreedySearch<'q, L: ?Sized> {
    /// The parameters of the graph search.
    pub inner: Knn,
    /// The filter that decides which nodes are candidates for the result.
    pub label_evaluator: &'q L,
}

impl<'q, L: ?Sized> AdaptiveLGreedySearch<'q, L> {
    /// Creates the parameters of a label-filtered search.
    pub fn new(inner: Knn, label_evaluator: &'q L) -> (search: Self)
        ensures
            search.inner == inner,
            search.label_evaluator == label_evaluator,
    {
        AdaptiveLGreedySearch { inner, label_evaluator }
    }

    /// Picks the candidates that match out of the first `capacity` entries of the search list,
    /// in their order. The list holds unmatched nodes too, since they guide the search, and the
    /// results must not.
    pub fn matching_candidates<I: Copy, D: Copy>(
        &self,
        best: &Vec<Neighbor<I, D>>,
        capacity: usize,
    ) -> (candidates: Vec<Neighbor<I, D>>) where L: QueryLabelProvider<I>
        ensures
            candidates@ == listed(best@, capacity).filter(
                |n: Neighbor<I, D>| self.label_evaluator.matches(n.id),
            ),
            candidates@ == best@.take(
                if capacity < best.len() {
                    capacity as int
                } else {
                    best.len() as int
                },
            ).filter(|n: Neighbor<I, D>| self.label_evaluator.matches(n.id)),
    {
        let mut candidates: Vec<Neighbor<I, D>> = Vec::new();
        let ghost keep = |n: Neighbor<I, D>| self.label_evaluator.matches(n.id);
        let end: usize = if capacity < best.len() {
            capacity
        } else {
            best.len()
        };
        let mut i: usize = 0;
        proof {
            reveal(Seq::filter);
            assert(best@.subrange(0, 0).filter(keep) =~= Seq::empty());
        }
        while i < end
            invariant
                i <= end <= best.len(),
                keep == (|n: Neighbor<I, D>| self.label_evaluator.matches(n.id)),
                candidates@ == best@.subrange(0, i as int).filter(keep),
            decreases end - i,
        {
            let neighbor = best[i];
            if self.label_evaluator.is_match(neighbor.id) {
                candidates.push(neighbor);
            }
            proof {
                reveal(Seq::filter);
                assert(best@.subrange(0, i + 1).drop_last() =~= best@.subrange(0, i as int));
            }
            i = i + 1;
        }
        assert(best@.subrange(0, end as int) =~= listed(best@, capacity));
        assert(best@.subrange(0, end as int) =~= best@.take(end as int));
        candidates
    }

    /// Adds the number of results that the processing of the candidates gave to what the search
    /// has counted. A number that does not fit in a `u32` loses its high bits.
    pub fn finish(&self, stats: InternalSearchStats, result_count: usize) -> (finished: SearchStats)
        ensures
            finished == (SearchStats {
                cmps: stats.cmps,
                hops: stats.hops,
                result_count: low_bits(result_count),
                range_search_second_round: stats.range_search_second_round,
            }),
    {
        stats.finish(to_low_bits(result_count))
    }
}

/// The entries of a search list up to its capacity.
pub open spec fn listed<I, D>(best: Seq<Neighbor<I, D>>, capacity: usize) -> Seq<Neighbor<I, D>> {
    if capacity < best.len() {
        best.subrange(0, capacity as int)
    } else {
        best
    }
}

/// The candidates that are handed on all match, all stand within the capacity of the list, and
/// are all that do.
pub proof fn law_candidates_are_the_matches<I, D>(
    best: Seq<Neighbor<I, D>>,
    capacity: usize,
    matches: spec_fn(I) -> bool,
    neighbor: Neighbor<I, D>,
)
    ensures
        listed(best, capacity).filter(|n: Neighbor<I, D>| matches(n.id)).contains(neighbor) <==> {
            &&& matches(neighbor.id)
            &&& exists|i: int|
                0 <= i < best.len() && i < capacity && #[trigger] best[i] == neighbor
        },
{
    let keep = |n: Neighbor<I, D>| matches(n.id);
    let entries = listed(best, capacity);
    let kept = entries.filter(keep);
    broadcast use vstd::seq_lib::group_filter_ensures;

    if kept.contains(neighbor) {
        let k = choose|k: int| 0 <= k < kept.len() && kept[k] == neighbor;
        assert(keep(kept[k]));
        lemma_filter_within(entries, keep, neighbor);
        let i = choose|i: int| 0 <= i < entries.len() && entries[i] == neighbor;
        assert(best[i] == neighbor);
    }
    if matches(neighbor.id) && exists|i: int|
        0 <= i < best.len() && i < capacity && #[trigger] best[i] == neighbor {
        let i = choose|i: int|
            0 <= i < best.len() && i < capacity && #[trigger] best[i] == neighbor;
        assert(entries[i] == neighbor);
        assert(keep(entries[i]));
        assert(kept.contains(entries[i]));
    }
}

/// The candidates stand in the order of the list, each as often as it stands there: they come
/// from positions of the list that go up, within its length and its capacity, and every such
/// position with a match gives one.
pub proof fn law_candidates_keep_the_order<I, D>(
    best: Seq<Neighbor<I, D>>,
    capacity: usize,
    matches: spec_fn(I) -> bool,
)
    ensures
        ({
            let candidates = listed(best, capacity).filter(|n: Neighbor<I, D>| matches(n.id));
            exists|at: Seq<int>|
                {
                    &&& #[trigger] at.len() == candidates.len()
                    &&& forall|k: int|
                        0 <= k < at.len() ==> {
                            &&& 0 <= #[trigger] at[k] < best.len()
                            &&& at[k] < capacity
                            &&& candidates[k] == best[at[k]]
                            &&& matches(best[at[k]].id)
                        }
                    &&& forall|k: int, l: int| 0 <= k < l < at.len() ==> at[k] < at[l]
                    &&& forall|i: int|
                        0 <= i < best.len() && i < capacity && matches((#[trigger] best[i]).id)
                            ==> at.contains(i)
                }
        }),
{
    let entries = listed(best, capacity);
    let keep = |n: Neighbor<I, D>| matches(n.id);
    lemma_filter_positions(entries, keep);
    let at = choose|at: Seq<int>| are_kept_positions(entries, keep, at);
    let candidates = entries.filter(keep);
    assert(at.len() == candidates.len());
    assert forall|k: int| 0 <= k < at.len() implies {
        &&& 0 <= #[trigger] at[k] < best.len()
        &&& at[k] < capacity
        &&& candidates[k] == best[at[k]]
        &&& matches(best[at[k]].id)
    } by {
        assert(entries[at[k]] == best[at[k]]);
        assert(keep(entries[at[k]]));
    }
    assert forall|i: int|
        0 <= i < best.len() && i < capacity && matches((#[trigger] best[i]).id) implies at.contains(
        i,
    ) by {
        assert(entries[i] == best[i]);
        assert(keep(entries[i]));
    }
}

/// Whether `at` is the positions of what a filter keeps, in their order.
spec fn are_kept_positions<A>(s: Seq<A>, keep: spec_fn(A) -> bool, at: Seq<int>) -> bool {
    &&& at.len() == s.filter(keep).len()
    &&& forall|k: int|
        0 <= k < at.len() ==> 0 <= #[trigger] at[k] < s.len() && s.filter(keep)[k] == s[at[k]]
            && keep(s[at[k]])
    &&& forall|k: int, l: int| 0 <= k < l < at.len() ==> at[k] < at[l]
    &&& forall|i: int| 0 <= i < s.len() && keep(#[trigger] s[i]) ==> at.contains(i)
}

/// What a filter keeps stands at positions that go up.
proof fn lemma_filter_positions<A>(s: Seq<A>, keep: spec_fn(A) -> bool)
    ensures
        exists|at: Seq<int>| are_kept_positions(s, keep, at),
    decreases s.len(),
{
    reveal(Seq::filter);
    if s.len() == 0 {
        assert(are_kept_positions(s, keep, Seq::<int>::empty()));
    } else {
        let shorter = s.drop_last();
        let last = s.len() - 1;
        lemma_filter_positions(shorter, keep);
        let before = choose|at: Seq<int>| are_kept_positions(shorter, keep, at);
        let at = if keep(s.last()) {
            before.push(last)
        } else {
            before
        };
        assert forall|k: int| 0 <= k < at.len() implies 0 <= #[trigger] at[k] < s.len() && s.filter(
            keep,
        )[k] == s[at[k]] && keep(s[at[k]]) by {
            if k < before.len() {
                assert(at[k] == before[k]);
                assert(shorter[before[k]] == s[before[k]]);
            }
        }
        assert forall|i: int| 0 <= i < s.len() && keep(#[trigger] s[i]) implies at.contains(i) by {
            if i < last {
                assert(shorter[i] == s[i]);
                let k = choose|k: int| 0 <= k < before.len() && before[k] == i;
                assert(at[k] == i);
            } else {
                assert(at[before.len() as int] == i);
            }
        }
        assert(are_kept_positions(s, keep, at));
    }
}

/// What a filter keeps was there before.
proof fn lemma_filter_within<A>(s: Seq<A>, keep: spec_fn(A) -> bool, x: A)
    requires
        s.filter(keep).contains(x),
    ensures
        s.contains(x),
    decreases s.len(),
{
    reveal(Seq::filter);
    if s.len() > 0 {
        let shorter = s.drop_last();
        let kept = s.filter(keep);
        let k = choose|k: int| 0 <= k < kept.len() && kept[k] == x;
        if k < shorter.filter(keep).len() {
            assert(shorter.filter(keep)[k] == x);
            lemma_filter_within(shorter, keep, x);
            let i = choose|i: int| 0 <= i < shorter.len() && shorter[i] == x;
            assert(s[i] == x);
        } else {
            assert(s[s.len() - 1] == x);
        }
    }
}

} // verus!
