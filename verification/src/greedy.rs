//! The greedy search itself, as the decisions that it takes.
//!
//! Reading vectors, computing distances and keeping the search list are done by whoever drives
//! the search. The driver performs one action, reports what came of it as an event, and is told
//! the next action.

use vstd::prelude::*;

use crate::adaptive::{
    adaptive_l, compute_adaptive_l, saturated, ADAPTIVE_L_SAMPLE_COUNT,
};
use crate::labels::QueryLabelProvider;
use crate::search::{low_bits, to_low_bits, InternalSearchStats, Knn};

verus! {

/// What the driver of a search is to do next.
#[derive(Clone, Copy, Debug, PartialEq, Eq, Structural)]
pub enum SearchAction {
    /// Mark the starting points as visited and put them on the search list.
    SeedStartPoints,
    /// Find out whether the search list holds a node that was not expanded.
    CheckUnvisited,
    /// Find out whether the search is to end early.
    CheckTermination,
    /// Take the closest node that was not expanded off the search list.
    TakeClosest,
    /// Record the node that was taken, with what was counted so far.
    Record {
        /// How many nodes were expanded.
        hops: u32,
        /// How many distances were computed.
        comparisons: u32,
    },
    /// Expand the nodes of the beam to their neighbors that were not visited.
    ExpandBeam,
    /// Put the neighbors that the search holds on the search list, whether they match or not.
    InsertNeighbors,
    /// Make the search list this long.
    Resize(usize),
    /// Return these statistics.
    Finish(InternalSearchStats),
}

/// What came of an action.
#[derive(Debug)]
pub enum SearchEvent<I> {
    /// The starting points are on the search list.
    Seeded,
    /// Whether the search list holds a node that was not expanded.
    Unvisited(bool),
    /// Whether the search is to end early.
    Terminate(bool),
    /// The closest node that was not expanded, if there is one.
    Closest(Option<I>),
    /// The node was recorded.
    Recorded,
    /// The neighbors of the beam.
    Expanded(Vec<I>),
    /// The neighbors are on the search list, which can hold this many entries.
    Inserted(usize),
    /// The search list has its new length.
    Resized,
}

/// What the search waits for.
#[derive(Debug)]
pub enum Phase<I> {
    /// The starting points.
    Seeding,
    /// Whether there is a node to expand.
    CheckingUnvisited,
    /// Whether to end early.
    CheckingTermination,
    /// A node for the beam.
    Collecting,
    /// The record of a node.
    Recording(I),
    /// The neighbors of the beam.
    Expanding,
    /// The neighbors' places on the search list.
    Inserting,
    /// The new length of the search list.
    Resizing(usize),
    /// Nothing: the search is over.
    Finished,
}

/// The state of a search.
pub struct SearchModel<I> {
    /// How many nodes are expanded at once.
    pub beam_width: nat,
    /// The length of the search list before it is adapted.
    pub base_l: nat,
    /// How many distances were computed.
    pub comparisons: u32,
    /// How many nodes were expanded.
    pub hops: u32,
    /// How many neighbors were sampled.
    pub sampled: nat,
    /// How many of them match.
    pub matched: nat,
    /// Whether the length of the search list was adapted to the sample.
    pub adapted: bool,
    /// The nodes that are expanded next.
    pub beam: Seq<I>,
    /// The neighbors that are to be put on the search list.
    pub neighbors: Seq<I>,
    /// What the search waits for.
    pub phase: Phase<I>,
}

/// The statistics for two counts.
pub open spec fn stats_of(comparisons: u32, hops: u32) -> InternalSearchStats {
    InternalSearchStats { cmps: comparisons, hops, range_search_second_round: false }
}

/// Returns the statistics for two counts.
fn make_stats(comparisons: u32, hops: u32) -> (stats: InternalSearchStats)
    ensures
        stats == stats_of(comparisons, hops),
{
    InternalSearchStats { cmps: comparisons, hops, range_search_second_round: false }
}

impl<I> SearchModel<I> {
    /// What holds of every state.
    pub open spec fn valid(self) -> bool {
        &&& self.beam_width >= 1
        &&& self.beam.len() <= self.beam_width
        &&& self.phase is Collecting || self.phase is Recording ==> self.beam.len()
            < self.beam_width
        &&& self.matched <= self.sampled <= ADAPTIVE_L_SAMPLE_COUNT
        &&& self.adapted ==> self.sampled == ADAPTIVE_L_SAMPLE_COUNT
        &&& !self.adapted && !(self.phase is Inserting) ==> self.sampled < ADAPTIVE_L_SAMPLE_COUNT
        &&& self.phase is Resizing ==> self.adapted
        &&& !(self.phase is Inserting) ==> self.neighbors.len() == 0
    }

    /// The list length that the sample calls for.
    pub open spec fn adapted_l(self) -> usize {
        saturated(adaptive_l(self.base_l, self.sampled, self.matched))
    }

    /// The action that the state asks for.
    pub open spec fn requested(self) -> SearchAction {
        match self.phase {
            Phase::Seeding => SearchAction::SeedStartPoints,
            Phase::CheckingUnvisited => SearchAction::CheckUnvisited,
            Phase::CheckingTermination => SearchAction::CheckTermination,
            Phase::Collecting => SearchAction::TakeClosest,
            Phase::Recording(id) => SearchAction::Record {
                hops: self.hops,
                comparisons: self.comparisons,
            },
            Phase::Expanding => SearchAction::ExpandBeam,
            Phase::Inserting => SearchAction::InsertNeighbors,
            Phase::Resizing(l) => SearchAction::Resize(l),
            Phase::Finished => SearchAction::Finish(stats_of(self.comparisons, self.hops)),
        }
    }

    /// Whether `neighbors` more neighbors can be counted.
    pub open spec fn has_room_for(self, neighbors: usize) -> bool {
        &&& self.comparisons + low_bits(neighbors) <= u32::MAX
        &&& self.hops + low_bits(self.beam.len() as usize) <= u32::MAX
    }

    /// Whether an event answers the action that the state asks for. The counts that it leads to
    /// must fit.
    pub open spec fn accepts(self, event: SearchEvent<I>) -> bool {
        match event {
            SearchEvent::Seeded => self.phase is Seeding,
            SearchEvent::Unvisited(_) => self.phase is CheckingUnvisited,
            SearchEvent::Terminate(_) => self.phase is CheckingTermination,
            SearchEvent::Closest(_) => self.phase is Collecting,
            SearchEvent::Recorded => self.phase is Recording,
            SearchEvent::Expanded(ids) => self.phase is Expanding && self.has_room_for(ids.len()),
            SearchEvent::Inserted(_) => self.phase is Inserting,
            SearchEvent::Resized => self.phase is Resizing,
        }
    }

    /// The state that waits for `phase`.
    pub open spec fn waiting(self, phase: Phase<I>) -> Self {
        SearchModel { phase, ..self }
    }

    /// The state with `beam` as its beam, which is expanded once it is full.
    pub open spec fn with_beam(self, beam: Seq<I>) -> Self {
        SearchModel {
            beam,
            phase: if beam.len() < self.beam_width {
                Phase::Collecting
            } else {
                Phase::Expanding
            },
            ..self
        }
    }

    /// How many of `neighbors` more neighbors the sample takes: it is full once it has
    /// `ADAPTIVE_L_SAMPLE_COUNT` of them.
    pub open spec fn sample_share(self, neighbors: nat) -> nat {
        if self.adapted || self.sampled >= ADAPTIVE_L_SAMPLE_COUNT {
            0
        } else if neighbors <= ADAPTIVE_L_SAMPLE_COUNT - self.sampled {
            neighbors
        } else {
            (ADAPTIVE_L_SAMPLE_COUNT - self.sampled) as nat
        }
    }

    /// The state after the beam was expanded to `ids`. All of them count as compared and are to
    /// be put on the search list; the first of them, as many as the sample still takes, are
    /// sampled.
    pub open spec fn expanded(self, ids: Seq<I>, matches: spec_fn(I) -> bool) -> Self {
        let share = self.sample_share(ids.len());
        SearchModel {
            comparisons: (self.comparisons + low_bits(ids.len() as usize)) as u32,
            hops: (self.hops + low_bits(self.beam.len() as usize)) as u32,
            sampled: self.sampled + share,
            matched: self.matched + ids.take(share as int).filter(matches).len(),
            neighbors: ids,
            phase: Phase::Inserting,
            ..self
        }
    }

    /// The state after the neighbors were put on a search list with room for `capacity`
    /// entries. Once the sample is full the length of the list is adapted, one time,
    /// and only to make it longer.
    pub open spec fn inserted(self, capacity: usize) -> Self {
        if !self.adapted && self.sampled >= ADAPTIVE_L_SAMPLE_COUNT {
            SearchModel {
                adapted: true,
                neighbors: Seq::empty(),
                phase: if self.adapted_l() > capacity {
                    Phase::Resizing(self.adapted_l())
                } else {
                    Phase::CheckingUnvisited
                },
                ..self
            }
        } else {
            SearchModel { neighbors: Seq::empty(), phase: Phase::CheckingUnvisited, ..self }
        }
    }

    /// The state after an event.
    pub open spec fn next(self, event: SearchEvent<I>, matches: spec_fn(I) -> bool) -> Self {
        match event {
            SearchEvent::Seeded => self.waiting(Phase::CheckingUnvisited),
            SearchEvent::Unvisited(found) => self.waiting(
                if found {
                    Phase::CheckingTermination
                } else {
                    Phase::Finished
                },
            ),
            SearchEvent::Terminate(early) => if early {
                self.waiting(Phase::Finished)
            } else {
                self.with_beam(Seq::empty())
            },
            SearchEvent::Closest(closest) => self.waiting(
                match closest {
                    Some(id) => Phase::Recording(id),
                    None => Phase::Expanding,
                },
            ),
            SearchEvent::Recorded => self.with_beam(self.beam.push(self.phase->Recording_0)),
            SearchEvent::Expanded(ids) => self.expanded(ids@, matches),
            SearchEvent::Inserted(capacity) => self.inserted(capacity),
            SearchEvent::Resized => self.waiting(Phase::CheckingUnvisited),
        }
    }
}

/// The state with which a search starts: the starting points are put on the search list unless
/// something was visited already.
pub open spec fn first_state<I>(
    params: Knn,
    comparisons: u32,
    hops: u32,
    visited_is_empty: bool,
) -> SearchModel<I> {
    SearchModel {
        beam_width: params.width() as nat,
        base_l: params.l() as nat,
        comparisons,
        hops,
        sampled: 0,
        matched: 0,
        adapted: false,
        beam: Seq::empty(),
        neighbors: Seq::empty(),
        phase: if visited_is_empty {
            Phase::Seeding
        } else {
            Phase::CheckingUnvisited
        },
    }
}

/// A running search.
pub struct GreedyFilterSearch<I> {
    beam_width: usize,
    base_l: usize,
    comparisons: u32,
    hops: u32,
    sample_visited: u32,
    sample_matched: u32,
    adaptive_l_computed: bool,
    beam: Vec<I>,
    neighbors: Vec<I>,
    phase: Phase<I>,
}

impl<I> View for GreedyFilterSearch<I> {
    type V = SearchModel<I>;

    closed spec fn view(&self) -> SearchModel<I> {
        SearchModel {
            beam_width: self.beam_width as nat,
            base_l: self.base_l as nat,
            comparisons: self.comparisons,
            hops: self.hops,
            sampled: self.sample_visited as nat,
            matched: self.sample_matched as nat,
            adapted: self.adaptive_l_computed,
            beam: self.beam@,
            neighbors: self.neighbors@,
            phase: self.phase,
        }
    }
}

/// Returns how many of the first `share` ids match.
fn count_matches<I: Copy, L: QueryLabelProvider<I> + ?Sized>(
    ids: &Vec<I>,
    share: usize,
    labels: &L,
) -> (count: usize)
    requires
        share <= ids.len(),
    ensures
        count == ids@.take(share as int).filter(|id: I| labels.matches(id)).len(),
        count <= share,
{
    let ghost matches = |id: I| labels.matches(id);
    let mut count: usize = 0;
    let mut i: usize = 0;
    proof {
        reveal(Seq::filter);
        assert(ids@.take(0).filter(matches).len() == 0);
    }
    while i < share
        invariant
            count <= i <= share <= ids.len(),
            matches == (|id: I| labels.matches(id)),
            count == ids@.take(i as int).filter(matches).len(),
        decreases share - i,
    {
        proof {
            reveal(Seq::filter);
            assert(ids@.take(i + 1).drop_last() =~= ids@.take(i as int));
        }
        if labels.is_match(ids[i]) {
            count = count + 1;
        }
        i = i + 1;
    }
    count
}

impl<I: Copy> GreedyFilterSearch<I> {
    /// Starts a search with the counts of its scratch space, and with whether the scratch space
    /// holds no visited node.
    pub fn start(params: &Knn, comparisons: u32, hops: u32, visited_is_empty: bool) -> (started: (
        Self,
        SearchAction,
    ))
        ensures
            started.0@ == first_state::<I>(*params, comparisons, hops, visited_is_empty),
            started.0@.valid(),
            started.1 == started.0@.requested(),
            started.1 == if visited_is_empty {
                SearchAction::SeedStartPoints
            } else {
                SearchAction::CheckUnvisited
            },
            started.0@.beam_width == params.width(),
            started.0@.base_l == params.l(),
            started.0@.comparisons == comparisons,
            started.0@.hops == hops,
            started.0@.sampled == 0,
            started.0@.matched == 0,
            !started.0@.adapted,
            started.0@.beam.len() == 0,
            started.0@.neighbors.len() == 0,
    {
        let phase = if visited_is_empty {
            Phase::Seeding
        } else {
            Phase::CheckingUnvisited
        };
        let search = GreedyFilterSearch {
            beam_width: params.beam_width(),
            base_l: params.l_value(),
            comparisons,
            hops,
            sample_visited: 0,
            sample_matched: 0,
            adaptive_l_computed: false,
            beam: Vec::new(),
            neighbors: Vec::new(),
            phase,
        };
        let action = search.action();
        (search, action)
    }

    /// Returns the action that the search asks for.
    pub fn action(&self) -> (action: SearchAction)
        ensures
            action == self@.requested(),
    {
        match self.phase {
            Phase::Seeding => SearchAction::SeedStartPoints,
            Phase::CheckingUnvisited => SearchAction::CheckUnvisited,
            Phase::CheckingTermination => SearchAction::CheckTermination,
            Phase::Collecting => SearchAction::TakeClosest,
            Phase::Recording(_) => SearchAction::Record {
                hops: self.hops,
                comparisons: self.comparisons,
            },
            Phase::Expanding => SearchAction::ExpandBeam,
            Phase::Inserting => SearchAction::InsertNeighbors,
            Phase::Resizing(l) => SearchAction::Resize(l),
            Phase::Finished => SearchAction::Finish(make_stats(self.comparisons, self.hops)),
        }
    }

    /// Returns what was counted so far.
    pub fn stats(&self) -> (stats: InternalSearchStats)
        ensures
            stats == stats_of(self@.comparisons, self@.hops),
            stats.cmps == self@.comparisons,
            stats.hops == self@.hops,
            !stats.range_search_second_round,
    {
        make_stats(self.comparisons, self.hops)
    }

    /// Returns the nodes that are expanded next.
    pub fn beam(&self) -> (beam: &Vec<I>)
        ensures
            beam@ == self@.beam,
    {
        &self.beam
    }

    /// Returns the neighbors that are to be put on the search list, in the order in which they
    /// came.
    pub fn neighbors(&self) -> (neighbors: &Vec<I>)
        ensures
            neighbors@ == self@.neighbors,
    {
        &self.neighbors
    }

    /// Returns whether `neighbors` more neighbors can be counted.
    pub fn has_room_for(&self, neighbors: usize) -> (room: bool)
        ensures
            room == self@.has_room_for(neighbors),
            room <==> {
                &&& self@.comparisons + neighbors as int % 0x1_0000_0000 <= 0xffff_ffff
                &&& self@.hops + self@.beam.len() as int % 0x1_0000_0000 <= 0xffff_ffff
            },
    {
        let beam: u32 = to_low_bits(self.beam.len());
        let added: u32 = to_low_bits(neighbors);
        self.comparisons.checked_add(added).is_some() && self.hops.checked_add(beam).is_some()
    }

    /// Goes on with another beam node, or with the expansion once the beam is full.
    fn fill_beam(&mut self)
        ensures
            final(self)@ == old(self)@.with_beam(old(self)@.beam),
    {
        self.phase = if self.beam.len() < self.beam_width {
            Phase::Collecting
        } else {
            Phase::Expanding
        };
    }

    /// Counts and keeps the neighbors of the beam, and samples the first of them until the sample
    /// is full.
    fn observe<L: QueryLabelProvider<I> + ?Sized>(&mut self, ids: Vec<I>, labels: &L)
        requires
            old(self)@.valid(),
            old(self)@.accepts(SearchEvent::Expanded(ids)),
        ensures
            final(self)@ == old(self)@.expanded(ids@, |id: I| labels.matches(id)),
            final(self)@.valid(),
    {
        if !self.adaptive_l_computed {
            let room: usize = (ADAPTIVE_L_SAMPLE_COUNT - self.sample_visited) as usize;
            let share: usize = if ids.len() <= room {
                ids.len()
            } else {
                room
            };
            let matched: usize = count_matches(&ids, share, labels);
            self.sample_visited = self.sample_visited + share as u32;
            self.sample_matched = self.sample_matched + matched as u32;
        }
        proof {
            reveal(Seq::filter);
            assert(ids@.take(0).filter(|id: I| labels.matches(id)).len() == 0);
        }
        self.comparisons = self.comparisons + to_low_bits(ids.len());
        self.hops = self.hops + to_low_bits(self.beam.len());
        self.neighbors = ids;
        self.phase = Phase::Inserting;
    }

    /// Adapts the length of the search list once the sample is full.
    fn adapt(&mut self, capacity: usize)
        requires
            old(self)@.valid(),
            old(self)@.phase is Inserting,
        ensures
            final(self)@ == old(self)@.inserted(capacity),
            final(self)@.valid(),
    {
        self.neighbors.clear();
        self.phase = Phase::CheckingUnvisited;
        if !self.adaptive_l_computed && self.sample_visited >= ADAPTIVE_L_SAMPLE_COUNT {
            self.adaptive_l_computed = true;
            let new_l = compute_adaptive_l(self.base_l, self.sample_visited, self.sample_matched);
            if new_l > capacity {
                self.phase = Phase::Resizing(new_l);
            }
        }
    }

    /// Takes the outcome of the last action and returns the next one.
    pub fn step<L: QueryLabelProvider<I> + ?Sized>(&mut self, event: SearchEvent<I>, labels: &L) -> (
    action: SearchAction)
        requires
            old(self)@.valid(),
            old(self)@.accepts(event),
        ensures
            final(self)@ == old(self)@.next(event, |id: I| labels.matches(id)),
            final(self)@.valid(),
            action == final(self)@.requested(),
    {
        match event {
            SearchEvent::Seeded | SearchEvent::Resized => {
                self.phase = Phase::CheckingUnvisited;
            },
            SearchEvent::Unvisited(found) => {
                self.phase = if found {
                    Phase::CheckingTermination
                } else {
                    Phase::Finished
                };
            },
            SearchEvent::Terminate(early) => {
                if early {
                    self.phase = Phase::Finished;
                } else {
                    self.beam.clear();
                    self.fill_beam();
                }
            },
            SearchEvent::Closest(closest) => {
                self.phase = match closest {
                    Some(id) => Phase::Recording(id),
                    None => Phase::Expanding,
                };
            },
            SearchEvent::Recorded => {
                if let Phase::Recording(id) = self.phase {
                    self.beam.push(id);
                }
                self.fill_beam();
            },
            SearchEvent::Expanded(ids) => {
                self.observe(ids, labels);
            },
            SearchEvent::Inserted(capacity) => {
                self.adapt(capacity);
            },
        }
        self.action()
    }
}

} // verus!
