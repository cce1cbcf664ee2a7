//! What holds over a whole search, however the graph and the filter answer.

use vstd::prelude::*;

use crate::adaptive::{
    adaptive_l, law_adaptive_l_bounded, saturated, ADAPTIVE_L_MAX_MULTIPLIER,
    ADAPTIVE_L_SAMPLE_COUNT,
};
use crate::greedy::{first_state, Phase, SearchAction, SearchEvent, SearchModel};
use crate::search::{law_low_bits, Knn};

verus! {

/// The state after a sequence of events.
pub open spec fn run<I>(
    start: SearchModel<I>,
    events: Seq<SearchEvent<I>>,
    matches: spec_fn(I) -> bool,
) -> SearchModel<I>
    decreases events.len(),
{
    if events.len() == 0 {
        start
    } else {
        run(start, events.drop_last(), matches).next(events.last(), matches)
    }
}

/// Whether each event of a sequence answers the action that was asked for.
pub open spec fn accepted<I>(
    start: SearchModel<I>,
    events: Seq<SearchEvent<I>>,
    matches: spec_fn(I) -> bool,
) -> bool
    decreases events.len(),
{
    events.len() == 0 || {
        &&& accepted(start, events.drop_last(), matches)
        &&& run(start, events.drop_last(), matches).accepts(events.last())
    }
}

/// The neighbors that the beams of a search were expanded to, in the order handed over.
pub open spec fn seen_ids<I>(events: Seq<SearchEvent<I>>) -> Seq<I>
    decreases events.len(),
{
    if events.len() == 0 {
        Seq::empty()
    } else {
        seen_ids(events.drop_last()) + match events.last() {
            SearchEvent::Expanded(ids) => ids@,
            _ => Seq::empty(),
        }
    }
}

/// How many neighbors the beams of a search were expanded to.
pub open spec fn seen<I>(events: Seq<SearchEvent<I>>) -> nat {
    seen_ids(events).len()
}

/// How many nodes were recorded in a search.
pub open spec fn recorded<I>(events: Seq<SearchEvent<I>>) -> nat
    decreases events.len(),
{
    if events.len() == 0 {
        0
    } else {
        recorded(events.drop_last()) + if events.last() is Recorded {
            1nat
        } else {
            0nat
        }
    }
}

/// Whether every expansion of a search found no more neighbors than a `u32` can count.
pub open spec fn batches_countable<I>(events: Seq<SearchEvent<I>>) -> bool {
    forall|i: int|
        0 <= i < events.len() ==> ((#[trigger] events[i]) matches SearchEvent::Expanded(ids)
            ==> ids@.len() <= u32::MAX)
}

/// Whether every beam that a search handed to the expansion had no more nodes than a `u32` can
/// count.
pub open spec fn beams_countable<I>(
    start: SearchModel<I>,
    events: Seq<SearchEvent<I>>,
    matches: spec_fn(I) -> bool,
) -> bool
    decreases events.len(),
{
    events.len() == 0 || {
        &&& beams_countable(start, events.drop_last(), matches)
        &&& events.last() is Expanded ==> run(start, events.drop_last(), matches).beam.len()
            <= u32::MAX
    }
}

/// The neighbors that a search handed out to be put on the search list, in that order: at each
/// insertion those that it held.
pub open spec fn handed_out<I>(
    start: SearchModel<I>,
    events: Seq<SearchEvent<I>>,
    matches: spec_fn(I) -> bool,
) -> Seq<I>
    decreases events.len(),
{
    if events.len() == 0 {
        Seq::empty()
    } else {
        handed_out(start, events.drop_last(), matches) + if events.last() is Inserted {
            run(start, events.drop_last(), matches).neighbors
        } else {
            Seq::empty()
        }
    }
}

/// The nodes that were taken off the search list since the last decision to go on, in that order.
pub open spec fn taken<I>(events: Seq<SearchEvent<I>>) -> Seq<I>
    decreases events.len(),
{
    if events.len() == 0 {
        Seq::empty()
    } else {
        match events.last() {
            SearchEvent::Terminate(_) => Seq::empty(),
            SearchEvent::Closest(Some(id)) => taken(events.drop_last()).push(id),
            _ => taken(events.drop_last()),
        }
    }
}

/// A search that goes on by one event: the event must answer the action that was asked for, and
/// leads to the next state. Neighbors are seen where the event brings them.
pub proof fn law_one_more_event<I>(
    start: SearchModel<I>,
    events: Seq<SearchEvent<I>>,
    event: SearchEvent<I>,
    matches: spec_fn(I) -> bool,
)
    ensures
        run(start, Seq::empty(), matches) == start,
        accepted(start, Seq::empty(), matches),
        run(start, events.push(event), matches) == run(start, events, matches).next(event, matches),
        accepted(start, events.push(event), matches) <==> accepted(start, events, matches) && run(
            start,
            events,
            matches,
        ).accepts(event),
        seen_ids(events.push(event)) == match event {
            SearchEvent::Expanded(ids) => seen_ids(events) + ids@,
            _ => seen_ids(events),
        },
        recorded(events.push(event)) == if event is Recorded {
            recorded(events) + 1
        } else {
            recorded(events)
        },
{
    let longer = events.push(event);
    assert(longer.drop_last() =~= events);
    assert(longer.last() == event);
    assert(seen_ids(events) + Seq::<I>::empty() =~= seen_ids(events));
}

/// A valid state stays valid, whatever the events are.
pub proof fn law_state_stays_valid<I>(
    start: SearchModel<I>,
    events: Seq<SearchEvent<I>>,
    matches: spec_fn(I) -> bool,
)
    requires
        start.valid(),
        accepted(start, events, matches),
    ensures
        run(start, events, matches).valid(),
        run(start, events, matches).beam_width == start.beam_width,
        run(start, events, matches).base_l == start.base_l,
    decreases events.len(),
{
    if events.len() > 0 {
        law_state_stays_valid(start, events.drop_last(), matches);
        if let SearchEvent::Expanded(ids) = events.last() {
            let share = run(start, events.drop_last(), matches).sample_share(ids@.len());
            ids@.take(share as int).lemma_filter_len(matches);
        }
    }
}

/// Every neighbor counts as one comparison, and every recorded node that was expanded as one
/// hop. So a search that is over has counted all of both.
pub proof fn law_everything_is_counted<I>(
    start: SearchModel<I>,
    events: Seq<SearchEvent<I>>,
    matches: spec_fn(I) -> bool,
)
    requires
        start.valid(),
        start.phase is Seeding || start.phase is CheckingUnvisited,
        beams_countable(start, events, matches),
        batches_countable(events),
        accepted(start, events, matches),
    ensures
        run(start, events, matches).comparisons == start.comparisons + seen(events),
        run(start, events, matches).phase is Finished ==> run(start, events, matches).hops
            == start.hops + recorded(events),
        !(run(start, events, matches).requested() is TakeClosest)
            && !(run(start, events, matches).requested() is Record)
            && !(run(start, events, matches).requested() is ExpandBeam) ==> run(
            start,
            events,
            matches,
        ).hops == start.hops + recorded(events),
{
    lemma_counts(start, events, matches);
}

/// The nodes that were recorded and not yet counted as hops.
spec fn pending<I>(state: SearchModel<I>) -> nat {
    if state.phase is Collecting || state.phase is Recording || state.phase is Expanding {
        state.beam.len()
    } else {
        0
    }
}

#[verifier::rlimit(40)]
proof fn lemma_counts<I>(
    start: SearchModel<I>,
    events: Seq<SearchEvent<I>>,
    matches: spec_fn(I) -> bool,
)
    requires
        start.valid(),
        start.phase is Seeding || start.phase is CheckingUnvisited,
        beams_countable(start, events, matches),
        batches_countable(events),
        accepted(start, events, matches),
    ensures
        run(start, events, matches).comparisons == start.comparisons + seen(events),
        run(start, events, matches).hops + pending(run(start, events, matches)) == start.hops
            + recorded(events),
    decreases events.len(),
{
    if events.len() > 0 {
        let shorter = events.drop_last();
        assert forall|i: int| 0 <= i < shorter.len() implies ((
        #[trigger] shorter[i]) matches SearchEvent::Expanded(ids) ==> ids@.len() <= u32::MAX) by {
            assert(shorter[i] == events[i]);
        }
        lemma_counts(start, shorter, matches);
        law_state_stays_valid(start, shorter, matches);
        assert(events.last() == events[events.len() - 1]);
    }
}

/// The sample is that of the first `ADAPTIVE_L_SAMPLE_COUNT` neighbors seen, in the order handed
/// over, or of all where there are fewer. What comes later does not change it.
pub proof fn law_sample_is_the_first_seen<I>(
    params: Knn,
    comparisons: u32,
    hops: u32,
    visited_is_empty: bool,
    events: Seq<SearchEvent<I>>,
    matches: spec_fn(I) -> bool,
)
    requires
        params.width() >= 1,
        accepted(first_state::<I>(params, comparisons, hops, visited_is_empty), events, matches),
    ensures
        ({
            let state = run(
                first_state::<I>(params, comparisons, hops, visited_is_empty),
                events,
                matches,
            );
            &&& state.sampled == if seen(events) <= ADAPTIVE_L_SAMPLE_COUNT {
                seen(events)
            } else {
                ADAPTIVE_L_SAMPLE_COUNT as nat
            }
            &&& state.matched == seen_ids(events).take(state.sampled as int).filter(matches).len()
        }),
    decreases events.len(),
{
    let start = first_state::<I>(params, comparisons, hops, visited_is_empty);
    if events.len() == 0 {
        reveal(Seq::filter);
        assert(seen_ids(events).take(0).filter(matches).len() == 0);
    } else {
        let shorter = events.drop_last();
        law_sample_is_the_first_seen(
            params,
            comparisons,
            hops,
            visited_is_empty,
            shorter,
            matches,
        );
        law_state_stays_valid(start, shorter, matches);
        let before = run(start, shorter, matches);
        let after = run(start, events, matches);
        let old_ids = seen_ids(shorter);
        let all_ids = seen_ids(events);
        if let SearchEvent::Expanded(ids) = events.last() {
            let share = before.sample_share(ids@.len());
            let part = ids@.take(share as int);
            Seq::filter_distributes_over_add(old_ids.take(before.sampled as int), part, matches);
            assert(all_ids.take(after.sampled as int) =~= old_ids.take(before.sampled as int)
                + part);
        } else {
            assert(all_ids =~= old_ids);
        }
    }
}

/// All neighbors are put on the search list, in the order in which they were seen, whether they
/// match or not: what was handed out, and what is held to be handed out next, is all that was
/// seen.
pub proof fn law_all_seen_are_inserted<I>(
    start: SearchModel<I>,
    events: Seq<SearchEvent<I>>,
    matches: spec_fn(I) -> bool,
)
    requires
        start.valid(),
        !(start.phase is Inserting),
        accepted(start, events, matches),
    ensures
        handed_out(start, events, matches) + run(start, events, matches).neighbors == seen_ids(
            events,
        ),
        !(run(start, events, matches).requested() is InsertNeighbors) ==> handed_out(
            start,
            events,
            matches,
        ) == seen_ids(events),
    decreases events.len(),
{
    law_state_stays_valid(start, events, matches);
    if events.len() > 0 {
        let shorter = events.drop_last();
        law_all_seen_are_inserted(start, shorter, matches);
        law_state_stays_valid(start, shorter, matches);
    }
    assert(handed_out(start, events, matches) + run(start, events, matches).neighbors =~= seen_ids(
        events,
    ));
    if !(run(start, events, matches).requested() is InsertNeighbors) {
        assert(handed_out(start, events, matches) =~= seen_ids(events));
    }
}

/// Unmatched nodes guide the search just as matched ones do: until the list length is adapted,
/// the same events lead to the same actions, beams, neighbors and counts under every filter.
pub proof fn law_filter_does_not_steer<I>(
    start: SearchModel<I>,
    events: Seq<SearchEvent<I>>,
    matches1: spec_fn(I) -> bool,
    matches2: spec_fn(I) -> bool,
)
    requires
        accepted(start, events, matches1),
        !run(start, events, matches1).adapted,
    ensures
        accepted(start, events, matches2),
        run(start, events, matches2) == (SearchModel {
            matched: run(start, events, matches2).matched,
            ..run(start, events, matches1)
        }),
        run(start, events, matches2).requested() == run(start, events, matches1).requested(),
    decreases events.len(),
{
    if events.len() > 0 {
        law_filter_does_not_steer(start, events.drop_last(), matches1, matches2);
    }
}

/// Once the list length is adapted the filter has no part in the search any more: the same
/// events lead to the same state under every filter.
pub proof fn law_filter_does_not_steer_once_adapted<I>(
    start: SearchModel<I>,
    events: Seq<SearchEvent<I>>,
    matches1: spec_fn(I) -> bool,
    matches2: spec_fn(I) -> bool,
)
    requires
        start.adapted,
        accepted(start, events, matches1),
    ensures
        accepted(start, events, matches2),
        run(start, events, matches2) == run(start, events, matches1),
    decreases events.len(),
{
    if events.len() > 0 {
        let shorter = events.drop_last();
        law_filter_does_not_steer_once_adapted(start, shorter, matches1, matches2);
        lemma_stays_adapted(start, shorter, matches1);
        if let SearchEvent::Expanded(ids) = events.last() {
            reveal(Seq::filter);
            assert(ids@.take(0).filter(matches1).len() == 0);
            assert(ids@.take(0).filter(matches2).len() == 0);
        }
    }
}

proof fn lemma_stays_adapted<I>(
    start: SearchModel<I>,
    events: Seq<SearchEvent<I>>,
    matches: spec_fn(I) -> bool,
)
    requires
        start.adapted,
    ensures
        run(start, events, matches).adapted,
    decreases events.len(),
{
    if events.len() > 0 {
        lemma_stays_adapted(start, events.drop_last(), matches);
    }
}

/// All that a filter decides over a whole search is whether the list is made longer, and how
/// long. Where two filters can answer to the same events they lead to the same beams, neighbors
/// and counts, and to the same actions but for a new list length.
pub proof fn law_filter_only_sets_the_length<I>(
    start: SearchModel<I>,
    events: Seq<SearchEvent<I>>,
    matches1: spec_fn(I) -> bool,
    matches2: spec_fn(I) -> bool,
)
    requires
        accepted(start, events, matches1),
        accepted(start, events, matches2),
    ensures
        ({
            let one = run(start, events, matches1);
            let two = run(start, events, matches2);
            &&& two == (SearchModel { matched: two.matched, phase: two.phase, ..one })
            &&& one.phase == two.phase || one.phase is Resizing || two.phase is Resizing
            &&& one.requested() == two.requested() || one.requested() is Resize
                || two.requested() is Resize
        }),
    decreases events.len(),
{
    if events.len() > 0 {
        law_filter_only_sets_the_length(start, events.drop_last(), matches1, matches2);
    }
}

/// Once the list length is adapted it is settled: the sample does not change any more, and no
/// action asks for another length.
pub proof fn law_adapted_once<I>(
    start: SearchModel<I>,
    events: Seq<SearchEvent<I>>,
    matches: spec_fn(I) -> bool,
)
    requires
        start.adapted,
        !(start.phase is Resizing),
        accepted(start, events, matches),
    ensures
        run(start, events, matches).adapted,
        run(start, events, matches).sampled == start.sampled,
        run(start, events, matches).matched == start.matched,
        !(run(start, events, matches).requested() is Resize),
    decreases events.len(),
{
    if events.len() > 0 {
        law_adapted_once(start, events.drop_last(), matches);
    }
}

/// A new length of the search list is longer than the list is, and it is the length that the
/// sample calls for: at least the base length, and at most `ADAPTIVE_L_MAX_MULTIPLIER` times
/// that.
pub proof fn law_resize_enlarges<I>(state: SearchModel<I>, capacity: usize)
    requires
        state.valid(),
        state.base_l <= usize::MAX,
        state.phase is Inserting,
    ensures
        state.inserted(capacity).requested() matches SearchAction::Resize(l) ==> {
            &&& l > capacity
            &&& l == saturated(adaptive_l(state.base_l, state.sampled, state.matched))
            &&& state.base_l <= l <= state.base_l * ADAPTIVE_L_MAX_MULTIPLIER
        },
{
    law_adaptive_l_bounded(state.base_l, state.sampled, state.matched);
}

/// The list is made longer exactly where the sample is full for the first time and the length
/// that it calls for exceeds what the list can hold.
pub proof fn law_resize_when_due<I>(state: SearchModel<I>, capacity: usize)
    ensures
        state.inserted(capacity).requested() is Resize <==> {
            &&& !state.adapted
            &&& state.sampled >= ADAPTIVE_L_SAMPLE_COUNT
            &&& state.adapted_l() > capacity
        },
{
}

/// A search is over exactly where its last answer was that no node is left to expand, or that it
/// is to end early, whatever was counted and whatever its parameters are. While there is a node
/// to expand, the early end is asked about next; and while that is not wanted, a new beam is
/// begun.
pub proof fn law_search_ends_when_told<I>(
    params: Knn,
    comparisons: u32,
    hops: u32,
    visited_is_empty: bool,
    events: Seq<SearchEvent<I>>,
    matches: spec_fn(I) -> bool,
)
    requires
        params.width() >= 1,
        accepted(first_state::<I>(params, comparisons, hops, visited_is_empty), events, matches),
    ensures
        ({
            let state = run(
                first_state::<I>(params, comparisons, hops, visited_is_empty),
                events,
                matches,
            );
            &&& state.requested() is Finish <==> events.len() > 0 && (events.last()
                == SearchEvent::<I>::Unvisited(false) || events.last()
                == SearchEvent::<I>::Terminate(true))
            &&& events.len() > 0 && events.last() == SearchEvent::<I>::Unvisited(true)
                ==> state.requested() == SearchAction::CheckTermination
            &&& events.len() > 0 && events.last() == SearchEvent::<I>::Terminate(false)
                ==> state.requested() == SearchAction::TakeClosest && state.beam.len() == 0
        }),
{
    let start = first_state::<I>(params, comparisons, hops, visited_is_empty);
    law_state_stays_valid(start, events, matches);
    if events.len() > 0 {
        law_state_stays_valid(start, events.drop_last(), matches);
    }
}

/// What is asked for after each answer. Statistics and records carry what was counted so far.
pub proof fn law_action_after_each_event<I>(
    state: SearchModel<I>,
    event: SearchEvent<I>,
    matches: spec_fn(I) -> bool,
)
    requires
        state.valid(),
        state.accepts(event),
    ensures
        ({
            let action = state.next(event, matches).requested();
            match event {
                SearchEvent::Seeded | SearchEvent::Resized => action
                    == SearchAction::CheckUnvisited,
                SearchEvent::Unvisited(true) => action == SearchAction::CheckTermination,
                SearchEvent::Terminate(false) => action == SearchAction::TakeClosest,
                SearchEvent::Unvisited(false) | SearchEvent::Terminate(true) => {
                    &&& action is Finish
                    &&& action->Finish_0.cmps == state.comparisons
                    &&& action->Finish_0.hops == state.hops
                    &&& !action->Finish_0.range_search_second_round
                },
                SearchEvent::Closest(Some(_)) => action == (SearchAction::Record {
                    hops: state.hops,
                    comparisons: state.comparisons,
                }),
                SearchEvent::Closest(None) => action == SearchAction::ExpandBeam,
                SearchEvent::Recorded => action == if state.beam.len() + 1 < state.beam_width {
                    SearchAction::TakeClosest
                } else {
                    SearchAction::ExpandBeam
                },
                SearchEvent::Expanded(_) => action == SearchAction::InsertNeighbors,
                SearchEvent::Inserted(_) => action is Resize || action
                    == SearchAction::CheckUnvisited,
            }
        }),
{
}

/// What each answer changes in the state. What is not named here stays as it is.
pub proof fn law_change_by_each_event<I>(
    state: SearchModel<I>,
    event: SearchEvent<I>,
    matches: spec_fn(I) -> bool,
)
    requires
        state.valid(),
        state.beam_width <= usize::MAX,
        state.accepts(event),
    ensures
        ({
            let after = state.next(event, matches);
            &&& after.beam_width == state.beam_width
            &&& after.base_l == state.base_l
            &&& after.comparisons == state.comparisons + match event {
                SearchEvent::Expanded(ids) => ids@.len() as int % 0x1_0000_0000,
                _ => 0,
            }
            &&& after.hops == state.hops + if event is Expanded {
                state.beam.len() as int % 0x1_0000_0000
            } else {
                0
            }
            &&& after.beam == match event {
                SearchEvent::Terminate(false) => Seq::empty(),
                SearchEvent::Recorded => state.beam.push(state.phase->Recording_0),
                _ => state.beam,
            }
            &&& after.neighbors == match event {
                SearchEvent::Expanded(ids) => ids@,
                SearchEvent::Inserted(_) => Seq::empty(),
                _ => state.neighbors,
            }
            &&& after.adapted == (state.adapted || event is Inserted && state.sampled >= 1000)
            &&& event matches SearchEvent::Closest(Some(id)) ==> after.phase == Phase::Recording(id)
        }),
{
    law_low_bits(state.beam.len() as usize);
    if let SearchEvent::Expanded(ids) = event {
        law_low_bits(ids.len());
    }
}

/// Every answer to what was asked for is accepted, and no other. Neighbors are accepted where
/// they, and the nodes of the beam, can be counted.
pub proof fn law_every_answer_is_accepted<I>(state: SearchModel<I>, event: SearchEvent<I>)
    requires
        state.beam.len() <= usize::MAX,
    ensures
        state.accepts(event) <==> match event {
            SearchEvent::Seeded => state.requested() == SearchAction::SeedStartPoints,
            SearchEvent::Unvisited(_) => state.requested() == SearchAction::CheckUnvisited,
            SearchEvent::Terminate(_) => state.requested() == SearchAction::CheckTermination,
            SearchEvent::Closest(_) => state.requested() == SearchAction::TakeClosest,
            SearchEvent::Recorded => state.requested() is Record,
            SearchEvent::Expanded(ids) => {
                &&& state.requested() == SearchAction::ExpandBeam
                &&& state.comparisons + ids@.len() as int % 0x1_0000_0000 <= 0xffff_ffff
                &&& state.hops + state.beam.len() as int % 0x1_0000_0000 <= 0xffff_ffff
            },
            SearchEvent::Inserted(_) => state.requested() == SearchAction::InsertNeighbors,
            SearchEvent::Resized => state.requested() is Resize,
        },
{
    law_low_bits(state.beam.len() as usize);
    if let SearchEvent::Expanded(ids) = event {
        law_low_bits(ids.len());
    }
}

/// The beam is the nodes that were taken off the list since the last decision to go on, in that
/// order; one that is still to be recorded comes next. It is expanded exactly where it is as
/// wide as it may be, or where no node is left to take.
pub proof fn law_beam_is_what_was_taken<I>(
    params: Knn,
    comparisons: u32,
    hops: u32,
    visited_is_empty: bool,
    events: Seq<SearchEvent<I>>,
    matches: spec_fn(I) -> bool,
)
    requires
        params.width() >= 1,
        accepted(first_state::<I>(params, comparisons, hops, visited_is_empty), events, matches),
    ensures
        ({
            let state = run(
                first_state::<I>(params, comparisons, hops, visited_is_empty),
                events,
                matches,
            );
            &&& state.requested() is TakeClosest ==> state.beam == taken(events)
                && taken(events).len() < params.width()
            &&& state.requested() is Record ==> state.beam.push(taken(events).last()) == taken(
                events,
            ) && taken(events).len() <= params.width()
            &&& state.requested() is ExpandBeam ==> {
                &&& state.beam == taken(events)
                &&& events.last() == SearchEvent::<I>::Closest(None) || taken(events).len()
                    == params.width()
            }
        }),
    decreases events.len(),
{
    let start = first_state::<I>(params, comparisons, hops, visited_is_empty);
    law_state_stays_valid(start, events, matches);
    if events.len() > 0 {
        let shorter = events.drop_last();
        law_beam_is_what_was_taken(params, comparisons, hops, visited_is_empty, shorter, matches);
        law_state_stays_valid(start, shorter, matches);
        lemma_recorded_is_taken(start, shorter, matches);
        let before = run(start, shorter, matches);
        let after = run(start, events, matches);
        if events.last() is Recorded {
            assert(after.beam =~= taken(events));
        }
        if let SearchEvent::Closest(Some(id)) = events.last() {
            assert(after.beam.push(id) =~= taken(events));
        }
    }
}

/// The node that is to be recorded is the one that was taken last.
proof fn lemma_recorded_is_taken<I>(
    start: SearchModel<I>,
    events: Seq<SearchEvent<I>>,
    matches: spec_fn(I) -> bool,
)
    requires
        !(start.phase is Recording),
        accepted(start, events, matches),
    ensures
        run(start, events, matches).phase is Recording ==> taken(events).len() > 0 && taken(
            events,
        ).last() == run(start, events, matches).phase->Recording_0,
{
}

/// Whether neighbors were put on the list after at least 1000 were seen.
spec fn enough_inserted<I>(events: Seq<SearchEvent<I>>) -> bool {
    exists|i: int|
        0 <= i < events.len() && (#[trigger] events[i]) is Inserted && seen(events.take(i)) >= 1000
}

proof fn lemma_enough_inserted<I>(events: Seq<SearchEvent<I>>)
    requires
        events.len() > 0,
    ensures
        enough_inserted(events) <==> enough_inserted(events.drop_last()) || events.last() is Inserted
            && seen(events.drop_last()) >= 1000,
{
    let shorter = events.drop_last();
    let last = events.len() - 1;
    assert(events.take(last) =~= shorter);
    assert(events[last] == events.last());
    if enough_inserted(events) {
        let i = choose|i: int|
            0 <= i < events.len() && (#[trigger] events[i]) is Inserted && seen(events.take(i))
                >= 1000;
        if i < last {
            assert(events.take(i) =~= shorter.take(i));
            assert(shorter[i] is Inserted);
        }
    }
    if enough_inserted(shorter) {
        let i = choose|i: int|
            0 <= i < shorter.len() && (#[trigger] shorter[i]) is Inserted && seen(shorter.take(i))
                >= 1000;
        assert(events.take(i) =~= shorter.take(i));
        assert(events[i] is Inserted);
    }
}

proof fn lemma_adapted<I>(
    params: Knn,
    comparisons: u32,
    hops: u32,
    visited_is_empty: bool,
    events: Seq<SearchEvent<I>>,
    matches: spec_fn(I) -> bool,
)
    requires
        params.width() >= 1,
        accepted(first_state::<I>(params, comparisons, hops, visited_is_empty), events, matches),
    ensures
        run(
            first_state::<I>(params, comparisons, hops, visited_is_empty),
            events,
            matches,
        ).adapted == enough_inserted(events),
    decreases events.len(),
{
    if events.len() > 0 {
        let shorter = events.drop_last();
        lemma_adapted(params, comparisons, hops, visited_is_empty, shorter, matches);
        law_sample_is_the_first_seen(
            params,
            comparisons,
            hops,
            visited_is_empty,
            shorter,
            matches,
        );
        lemma_enough_inserted(events);
    }
}

/// The list length is adapted exactly where neighbors were put on the list after at least 1000
/// were seen.
pub proof fn law_adapted_when_enough_were_seen<I>(
    params: Knn,
    comparisons: u32,
    hops: u32,
    visited_is_empty: bool,
    events: Seq<SearchEvent<I>>,
    matches: spec_fn(I) -> bool,
)
    requires
        params.width() >= 1,
        accepted(first_state::<I>(params, comparisons, hops, visited_is_empty), events, matches),
    ensures
        run(
            first_state::<I>(params, comparisons, hops, visited_is_empty),
            events,
            matches,
        ).adapted <==> exists|i: int|
            0 <= i < events.len() && (#[trigger] events[i]) is Inserted && seen(events.take(i))
                >= 1000,
{
    lemma_adapted(params, comparisons, hops, visited_is_empty, events, matches);
}

/// A new list length is asked for exactly where neighbors were put on the list, at least 1000
/// were seen, that was not so at an earlier insertion, and the length for the matches among the
/// first 1000 seen is more than the list can hold; and it is that length.
pub proof fn law_resize_follows_the_first_seen<I>(
    params: Knn,
    comparisons: u32,
    hops: u32,
    visited_is_empty: bool,
    events: Seq<SearchEvent<I>>,
    matches: spec_fn(I) -> bool,
)
    requires
        params.width() >= 1,
        accepted(first_state::<I>(params, comparisons, hops, visited_is_empty), events, matches),
    ensures
        ({
            let state = run(
                first_state::<I>(params, comparisons, hops, visited_is_empty),
                events,
                matches,
            );
            let l = adaptive_l(
                params.l() as nat,
                1000,
                seen_ids(events).take(1000).filter(matches).len(),
            );
            let fitting = if l <= usize::MAX {
                l as int
            } else {
                usize::MAX as int
            };
            &&& state.requested() is Resize <==> {
                &&& events.len() > 0
                &&& events.last() is Inserted
                &&& seen(events) >= 1000
                &&& forall|i: int|
                    0 <= i < events.len() - 1 && (#[trigger] events[i]) is Inserted ==> seen(
                        events.take(i),
                    ) < 1000
                &&& fitting > events.last()->Inserted_0
            }
            &&& state.requested() matches SearchAction::Resize(length) ==> length == fitting
        }),
{
    let start = first_state::<I>(params, comparisons, hops, visited_is_empty);
    if events.len() > 0 {
        let shorter = events.drop_last();
        law_state_stays_valid(start, shorter, matches);
        law_state_stays_valid(start, events, matches);
        law_adapted_when_enough_were_seen(
            params,
            comparisons,
            hops,
            visited_is_empty,
            shorter,
            matches,
        );
        law_sample_is_the_first_seen(
            params,
            comparisons,
            hops,
            visited_is_empty,
            shorter,
            matches,
        );
        assert forall|i: int| 0 <= i < shorter.len() implies #[trigger] events[i] == shorter[i]
            && events.take(i) == shorter.take(i) by {
            assert(events.take(i) =~= shorter.take(i));
        }
        if events.last() is Inserted {
            assert(seen_ids(events) =~= seen_ids(shorter));
            let earlier = exists|i: int|
                0 <= i < shorter.len() && (#[trigger] shorter[i]) is Inserted && seen(
                    shorter.take(i),
                ) >= 1000;
            if earlier {
                let i = choose|i: int|
                    0 <= i < shorter.len() && (#[trigger] shorter[i]) is Inserted && seen(
                        shorter.take(i),
                    ) >= 1000;
                assert(events[i] is Inserted && seen(events.take(i)) >= 1000);
            } else {
                assert forall|i: int|
                    0 <= i < events.len() - 1 && (#[trigger] events[i]) is Inserted implies seen(
                    events.take(i),
                ) < 1000 by {
                    assert(shorter[i] is Inserted);
                }
            }
        }
    }
}

} // verus!
