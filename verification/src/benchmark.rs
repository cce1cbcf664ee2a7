//! A batch of queries for the filtered search, with one filter for each query.

use std::sync::Arc;

use vstd::prelude::*;
use vstd::string::StringExecFns;

use crate::decimal::{decimal_text, push_decimal};
use crate::search::{AdaptiveLGreedySearch, Knn, SearchStats};

verus! {

/// Values in rows of equal length.
#[derive(Debug)]
pub struct Matrix<T> {
    data: Vec<T>,
    nrows: usize,
    ncols: usize,
}

impl<T> Matrix<T> {
    /// How many rows there are.
    pub closed spec fn rows(&self) -> nat {
        self.nrows as nat
    }

    /// How long a row is.
    pub closed spec fn columns(&self) -> nat {
        self.ncols as nat
    }

    /// All values, row after row.
    pub closed spec fn values(&self) -> Seq<T> {
        self.data@
    }

    /// The values of a row.
    pub open spec fn row_values(&self, i: int) -> Seq<T> {
        self.values().subrange(i * self.columns(), (i + 1) * self.columns())
    }

    #[verifier::type_invariant]
    spec fn is_filled(self) -> bool {
        self.data@.len() == self.nrows * self.ncols
    }

    /// Makes a matrix out of its values, row after row, unless their number is not that of its
    /// places.
    pub fn new(data: Vec<T>, nrows: usize, ncols: usize) -> (matrix: Option<Self>)
        ensures
            matrix is Some <==> data.len() == nrows * ncols,
            matrix matches Some(m) ==> m.rows() == nrows && m.columns() == ncols && m.values()
                == data@,
    {
        match nrows.checked_mul(ncols) {
            Some(places) => {
                if places == data.len() {
                    Some(Matrix { data, nrows, ncols })
                } else {
                    None
                }
            },
            None => None,
        }
    }

    /// Returns how many rows there are.
    pub fn nrows(&self) -> (n: usize)
        ensures
            n == self.rows(),
    {
        self.nrows
    }

    /// Returns the values of a row.
    pub fn row(&self, i: usize) -> (row: &[T])
        requires
            i < self.rows(),
        ensures
            row@ == self.row_values(i as int),
            row@.len() == self.columns(),
            forall|j: int|
                0 <= j < self.columns() ==> #[trigger] row@[j] == self.values()[i * self.columns()
                    + j],
    {
        proof {
            use_type_invariant(self);
            assert(self.data.len() == self.nrows * self.ncols);
            let n = self.nrows;
            let c = self.ncols;
            assert(0 <= i * c <= (i + 1) * c <= n * c) by (nonlinear_arith)
                requires
                    0 <= i < n,
                    0 <= c,
            ;
            assert((i + 1) * c == i * c + c) by (nonlinear_arith);
        }
        let from: usize = i * self.ncols;
        vstd::slice::slice_subrange(self.data.as_slice(), from, from + self.ncols)
    }
}

/// Each row of a filled matrix has one value for each column, and each value stands where the
/// rows before it and the columns before it put it.
pub proof fn law_rows_hold_the_values<T>(matrix: Matrix<T>, i: int, j: int)
    requires
        matrix.values().len() == matrix.rows() * matrix.columns(),
        0 <= i < matrix.rows(),
        0 <= j < matrix.columns(),
    ensures
        matrix.row_values(i).len() == matrix.columns(),
        0 <= i * matrix.columns() + j < matrix.values().len(),
        matrix.row_values(i)[j] == matrix.values()[i * matrix.columns() + j],
{
    let n = matrix.rows();
    let c = matrix.columns();
    assert(0 <= i * c <= (i + 1) * c <= n * c) by (nonlinear_arith)
        requires
            0 <= i < n,
            0 <= c,
    ;
    assert((i + 1) * c == i * c + c) by (nonlinear_arith);
}

/// The rows of a filled matrix, one after another, are all of its values: the value at each
/// position stands in one row, at one column.
pub proof fn law_values_are_the_rows<T>(matrix: Matrix<T>, position: int)
    requires
        matrix.values().len() == matrix.rows() * matrix.columns(),
        0 <= position < matrix.values().len(),
    ensures
        matrix.columns() > 0,
        0 <= position / (matrix.columns() as int) < matrix.rows(),
        matrix.row_values(position / matrix.columns() as int)[position % matrix.columns() as int]
            == matrix.values()[position],
{
    let n = matrix.rows() as int;
    let c = matrix.columns() as int;
    assert(c > 0) by (nonlinear_arith)
        requires
            0 < n * c,
            0 <= n,
            0 <= c,
    ;
    let i = position / c;
    let j = position % c;
    vstd::arithmetic::div_mod::lemma_fundamental_div_mod(position, c);
    assert(0 <= i < n && i * c + j == position) by (nonlinear_arith)
        requires
            position == c * i + j,
            0 <= position < n * c,
            0 <= j < c,
    ;
    law_rows_hold_the_values(matrix, i, j);
}

/// How many ids a search gives.
#[derive(Clone, Copy, Debug, PartialEq, Eq, Structural)]
pub enum IdCount {
    /// The same number for each query.
    Fixed(usize),
}

/// What is measured of one search.
#[derive(Clone, Copy, Debug, PartialEq, Eq, Structural)]
pub struct Metrics {
    /// How many distances were computed.
    pub comparisons: u32,
    /// How many nodes were expanded.
    pub hops: u32,
}

impl Metrics {
    /// Takes what is measured out of the statistics of a search.
    pub fn of(stats: &SearchStats) -> (metrics: Metrics)
        ensures
            metrics == (Metrics { comparisons: stats.cmps, hops: stats.hops }),
    {
        Metrics { comparisons: stats.cmps, hops: stats.hops }
    }
}

/// Why a batch was refused. `E` is what the strategies say of a batch that they do not fit.
#[derive(Debug)]
pub enum AdaptiveLError<E> {
    /// The strategies do not fit the number of queries.
    Strategy(E),
    /// The filters do not fit the number of queries.
    LabelCount {
        /// How many filters there are.
        labels: usize,
        /// How many queries there are.
        queries: usize,
    },
}

/// The text that says that the filters do not fit the queries.
pub open spec fn label_count_text(labels: nat, queries: nat) -> Seq<char> {
    "Number of label providers ("@ + decimal_text(labels)
        + ") must be equal to the number of queries ("@ + decimal_text(queries) + ")"@
}

/// Returns the text that says that the filters do not fit the queries.
pub fn label_count_message(labels: usize, queries: usize) -> (message: String)
    ensures
        message@ == label_count_text(labels as nat, queries as nat),
        message@ == "Number of label providers ("@ + decimal_text(labels as nat)
            + ") must be equal to the number of queries ("@ + decimal_text(queries as nat) + ")"@,
{
    let mut message = String::new();
    message.append("Number of label providers (");
    push_decimal(&mut message, labels);
    message.append(") must be equal to the number of queries (");
    push_decimal(&mut message, queries);
    message.append(")");
    assert(message@ =~= label_count_text(labels as nat, queries as nat));
    message
}

/// A batch of queries for a label-filtered search with an adaptive search list, on the index
/// `X`, by the strategies `S`, with filters `L`.
///
/// All nodes guide the way through the graph; once enough neighbors were sampled, the search
/// list is made longer according to how many of them match.
#[derive(Debug)]
pub struct AdaptiveL<X, T, S, L: ?Sized> {
    index: Arc<X>,
    queries: Arc<Matrix<T>>,
    strategy: S,
    labels: Vec<Arc<L>>,
}

impl<X, T, S, L: ?Sized> AdaptiveL<X, T, S, L> {
    /// The index that is searched.
    pub closed spec fn searched(&self) -> Arc<X> {
        self.index
    }

    /// The queries.
    pub closed spec fn query_rows(&self) -> Arc<Matrix<T>> {
        self.queries
    }

    /// The strategies.
    pub closed spec fn strategies(&self) -> S {
        self.strategy
    }

    /// The filters.
    pub closed spec fn filters(&self) -> Seq<Arc<L>> {
        self.labels@
    }

    #[verifier::type_invariant]
    spec fn one_filter_each(self) -> bool {
        self.labels@.len() == self.queries.rows()
    }

    /// Makes a batch. `strategy_fit` is what the strategies say of the number of queries; they
    /// are asked first. Then the number of filters must be that of the queries.
    pub fn new<E>(
        index: Arc<X>,
        queries: Arc<Matrix<T>>,
        strategy: S,
        strategy_fit: Result<(), E>,
        labels: Vec<Arc<L>>,
    ) -> (batch: Result<Arc<Self>, AdaptiveLError<E>>)
        ensures
            batch is Ok <==> strategy_fit is Ok && labels.len() == queries.rows(),
            batch matches Ok(made) ==> {
                &&& made.searched() == index
                &&& made.query_rows() == queries
                &&& made.strategies() == strategy
                &&& made.filters() == labels@
            },
            strategy_fit matches Err(e) ==> batch == Err::<Arc<Self>, AdaptiveLError<E>>(
                AdaptiveLError::Strategy(e),
            ),
            strategy_fit is Ok && labels.len() != queries.rows() ==> batch == Err::<
                Arc<Self>,
                AdaptiveLError<E>,
            >(
                AdaptiveLError::LabelCount {
                    labels: labels.len(),
                    queries: queries.rows() as usize,
                },
            ),
    {
        match strategy_fit {
            Err(e) => Err(AdaptiveLError::Strategy(e)),
            Ok(()) => {
                let n: usize = queries.nrows();
                if labels.len() != n {
                    Err(AdaptiveLError::LabelCount { labels: labels.len(), queries: n })
                } else {
                    Ok(Arc::new(AdaptiveL { index, queries, strategy, labels }))
                }
            },
        }
    }

    /// Returns the number of queries, which is that of the filters.
    pub fn num_queries(&self) -> (n: usize)
        ensures
            n == self.query_rows().rows(),
            n == self.filters().len(),
    {
        proof {
            use_type_invariant(self);
        }
        self.queries.nrows()
    }

    /// Returns how many ids a search gives: as many neighbors as are asked for.
    pub fn id_count(&self, parameters: &Knn) -> (count: IdCount)
        ensures
            count == IdCount::Fixed(parameters.k()),
    {
        IdCount::Fixed(parameters.k_value())
    }

    /// Returns the index that is searched.
    pub fn index(&self) -> (index: &Arc<X>)
        ensures
            *index == self.searched(),
    {
        &self.index
    }

    /// Returns the strategies.
    pub fn strategy(&self) -> (strategy: &S)
        ensures
            *strategy == self.strategies(),
    {
        &self.strategy
    }

    /// Returns the search for the query `index`, with the filter of that query, and the query.
    pub fn query_search(&self, parameters: &Knn, index: usize) -> (search: (
        AdaptiveLGreedySearch<'_, L>,
        &[T],
    ))
        requires
            index < self.query_rows().rows(),
        ensures
            search.0.inner == *parameters,
            search.0.label_evaluator == &*self.filters()[index as int],
            search.1@ == self.query_rows().row_values(index as int),
            search.1@.len() == self.query_rows().columns(),
            forall|j: int|
                0 <= j < self.query_rows().columns() ==> #[trigger] search.1@[j]
                    == self.query_rows().values()[index * self.query_rows().columns() + j],
    {
        proof {
            use_type_invariant(self);
        }
        let search = AdaptiveLGreedySearch::new(*parameters, &*self.labels[index]);
        (search, self.queries.row(index))
    }
}

} // verus!
