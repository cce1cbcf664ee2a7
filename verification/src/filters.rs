//! Filters that decide by a bitmap of vector ids, and the strategies made from them.

use std::sync::Arc;

use bit_set::BitSet;
use vstd::prelude::*;

use crate::bitmap::{bitmap_contains, bitmap_ids, bitmap_len};
use crate::labels::{QueryLabelProvider, VectorId};
use crate::predicates::eq_ids;

verus! {

/// A filter expression together with the bitmap of the vectors that satisfy it.
///
/// `A` is the syntax tree of the expression.
pub struct QueryBitmapEvaluator<A> {
    /// The expression that was evaluated.
    pub ast_expr: A,
    evaluated_bitmap: BitSet,
}

impl<A> QueryBitmapEvaluator<A> {
    /// The expression that was evaluated.
    pub closed spec fn expr(&self) -> A {
        self.ast_expr
    }

    /// The ids of the vectors that satisfy the expression.
    pub closed spec fn ids(&self) -> Set<usize> {
        bitmap_ids(self.evaluated_bitmap)
    }

    /// Creates a filter from an expression and what an index answered when it evaluated the
    /// expression. The evaluation must have succeeded.
    pub fn new<E>(ast_expr: A, evaluation: Result<BitSet, E>) -> (filter: Self)
        requires
            evaluation is Ok,
        ensures
            filter.expr() == ast_expr,
            filter.ids() == bitmap_ids(evaluation->Ok_0),
    {
        let evaluated_bitmap = match evaluation {
            Ok(bitmap) => bitmap,
            Err(_) => vstd::pervasive::unreached(),
        };
        QueryBitmapEvaluator { ast_expr, evaluated_bitmap }
    }

    /// Returns the evaluated bitmap.
    pub fn get_bitmap(&self) -> (bitmap: &BitSet)
        ensures
            bitmap_ids(*bitmap) == self.ids(),
    {
        &self.evaluated_bitmap
    }

    /// Returns the number of vectors that satisfy the expression.
    pub fn count(&self) -> (count: usize)
        ensures
            count == self.ids().len(),
    {
        bitmap_len(self.get_bitmap())
    }
}

impl<A, T: VectorId> QueryLabelProvider<T> for QueryBitmapEvaluator<A> {
    open spec fn matches(&self, vec_id: T) -> bool {
        self.ids().contains(vec_id.index())
    }

    fn is_match(&self, vec_id: T) -> (matched: bool)
        ensures
            matched == self.ids().contains(vec_id.index()),
    {
        bitmap_contains(self.get_bitmap(), vec_id.into_usize())
    }
}

/// A filter that lets through the vectors whose ids are in a bitmap.
#[derive(Debug)]
pub struct BitmapFilter(pub BitSet);

impl<T: VectorId> QueryLabelProvider<T> for BitmapFilter {
    open spec fn matches(&self, vec_id: T) -> bool {
        bitmap_ids(self.0).contains(vec_id.index())
    }

    fn is_match(&self, vec_id: T) -> (matched: bool)
        ensures
            matched == bitmap_ids(self.0).contains(vec_id.index()),
    {
        bitmap_contains(&self.0, vec_id.into_usize())
    }
}

/// Makes a shared filter from a bitmap.
pub fn as_query_label_provider(set: BitSet) -> (provider: Arc<BitmapFilter>)
    ensures
        provider.0 == set,
{
    Arc::new(BitmapFilter(set))
}

/// A search strategy whose distances are scaled by `beta` for the vectors that a filter lets
/// through.
pub struct BetaFilter<S, P, B> {
    /// The strategy that is wrapped.
    pub strategy: S,
    /// The filter.
    pub labels: P,
    /// The factor on the distances of matching vectors.
    pub beta: B,
}

/// Makes one strategy for each filter, in the order of the filters, all with the same
/// underlying strategy and the same factor.
pub fn setup_filter_strategies<S: Clone, P, B: Copy>(
    beta: B,
    bit_maps: Vec<P>,
    search_strategy: S,
) -> (strategies: Vec<BetaFilter<S, P, B>>)
    ensures
        strategies.len() == bit_maps.len(),
        forall|i: int|
            0 <= i < bit_maps.len() ==> {
                &&& (#[trigger] strategies[i]).labels == bit_maps[i]
                &&& strategies[i].beta == beta
                &&& cloned(search_strategy, strategies[i].strategy)
            },
{
    let mut strategies: Vec<BetaFilter<S, P, B>> = Vec::new();
    for bit_map in iter: bit_maps
        invariant
            iter.seq() == bit_maps@,
            strategies.len() == iter.index(),
            forall|i: int|
                0 <= i < strategies.len() ==> {
                    &&& (#[trigger] strategies[i]).labels == bit_maps[i]
                    &&& strategies[i].beta == beta
                    &&& cloned(search_strategy, strategies[i].strategy)
                },
    {
        strategies.push(
            BetaFilter { strategy: search_strategy.clone(), labels: bit_map, beta },
        );
    }
    strategies
}

/// A filter made from the bitmap of a predicate line lets a vector through exactly where the
/// line names its id.
pub proof fn law_line_filter<T: VectorId>(line: Seq<char>, filter: BitmapFilter, vec_id: T)
    requires
        bitmap_ids(filter.0) == eq_ids(line).to_set(),
    ensures
        filter.matches(vec_id) <==> eq_ids(line).contains(vec_id.index()),
{
}

/// One more id in its bitmap lets a bitmap filter through the vector with that id, and changes
/// nothing for any other.
pub proof fn law_one_more_id(before: BitmapFilter, after: BitmapFilter, id: u32, vec_id: u32)
    requires
        bitmap_ids(after.0) == bitmap_ids(before.0).insert(id as usize),
    ensures
        after.matches(vec_id) <==> vec_id == id || before.matches(vec_id),
{
}

/// A bitmap filter lets a vector through exactly where the bitmap holds its id.
pub proof fn law_bitmap_decides(filter: BitmapFilter, vec_id: u32)
    ensures
        filter.matches(vec_id) <==> bitmap_ids(filter.0).contains(vec_id as usize),
{
}

/// An evaluated expression and a bitmap filter with the same ids let the same vectors through.
pub proof fn law_filters_agree<A, T: VectorId>(
    evaluator: QueryBitmapEvaluator<A>,
    filter: BitmapFilter,
    vec_id: T,
)
    requires
        evaluator.ids() == bitmap_ids(filter.0),
    ensures
        evaluator.matches(vec_id) <==> filter.matches(vec_id),
{
}

} // verus!
