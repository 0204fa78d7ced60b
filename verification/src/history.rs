//! Whole runs.
//!
//! A run is an ensemble and the reports of its rounds, one after the other.
//! What is proved here holds after any number of rounds, whatever the numeric
//! side has measured.
use crate::deviation::{all_positive, verdicts};
use crate::retirement::{
    kept, lemma_kept_are_the_rest, lemma_pass_partitions, lemma_retired_are_the_diverged,
    retired,
};
use crate::simulation::{
    datapoints, lemma_each_world_once, lemma_initial_is_valid, lemma_round_keeps_valid,
    retired_worlds, Datapoint, State, PER_ITER,
};
use vstd::multiset::*;
use vstd::prelude::*;
use vstd::seq_lib::*;

verus! {

/// The state that an ensemble with the given starting deviations is in
/// after the rounds whose measured ratios `history` lists.
pub open spec fn after_rounds(deviations: Seq<u64>, history: Seq<Seq<u64>>) -> State
    decreases history.len(),
{
    if history.len() == 0 {
        State::initial(deviations)
    } else {
        after_rounds(deviations, history.drop_last()).round(verdicts(history.last()))
    }
}

/// Whether each report of `history` fits the state that the reports before
/// it lead to.
pub open spec fn history_fits(deviations: Seq<u64>, history: Seq<Seq<u64>>) -> bool
    decreases history.len(),
{
    history.len() == 0 || {
        &&& history_fits(deviations, history.drop_last())
        &&& after_rounds(deviations, history.drop_last()).accepts(verdicts(history.last()))
    }
}

/// In a valid state no world is both live and retired, no world is live
/// twice, and none was retired twice.
pub proof fn lemma_retired_worlds_are_not_live(state: State)
    requires
        state.valid(),
    ensures
        state.active.no_duplicates(),
        retired_worlds(state.sample).no_duplicates(),
        forall|p: int, k: int|
            0 <= p < state.active.len() && 0 <= k < state.sample.len() ==> #[trigger] state.active[p]
                != (#[trigger] state.sample[k]).world,
{
    lemma_each_world_once(state);
    let live = state.active;
    let gone = retired_worlds(state.sample);
    let known = live + gone;
    assert forall|p: int, q: int| 0 <= p < live.len() && 0 <= q < live.len() && p != q implies live[p]
        != live[q] by {
        assert(known[p] == live[p] && known[q] == live[q]);
    }
    assert forall|k: int, l: int| 0 <= k < gone.len() && 0 <= l < gone.len() && k != l implies gone[k]
        != gone[l] by {
        assert(known[live.len() + k] == gone[k] && known[live.len() + l] == gone[l]);
    }
    assert forall|p: int, k: int|
        0 <= p < state.active.len() && 0 <= k < state.sample.len() implies #[trigger] state.active[p]
        != (#[trigger] state.sample[k]).world by {
        assert(known[p] == live[p] && known[live.len() + k] == gone[k]);
    }
}

/// When no world is left to simulate, the sample holds one entry for each
/// world that the ensemble was built with, and no second one for any.
pub proof fn lemma_finished_sample_is_complete(state: State)
    requires
        state.valid(),
        state.finished(),
    ensures
        state.sample.len() == state.deviations.len(),
        retired_worlds(state.sample).no_duplicates(),
        forall|w: usize|
            #[trigger] retired_worlds(state.sample).contains(w) <==> w < state.deviations.len(),
{
    lemma_each_world_once(state);
    assert(state.active + retired_worlds(state.sample) =~= retired_worlds(state.sample));
}

/// A round examines every live world. One whose ratio has reached the
/// threshold is live no longer and stands in the sample with the step count
/// of this round; every other stays live; and what was in the sample before
/// stays as it was.
pub proof fn lemma_round_retires_the_diverged(state: State, diverged: Seq<bool>)
    requires
        state.valid(),
        state.accepts(diverged),
    ensures
        state.round(diverged).sample.take(state.sample.len() as int) == state.sample,
        forall|p: int|
            0 <= p < state.active.len() && diverged[p] ==> {
                &&& !state.round(diverged).active.contains(#[trigger] state.active[p])
                &&& state.round(diverged).sample.contains(
                    Datapoint {
                        world: state.active[p],
                        deviation: state.deviations[state.active[p] as int],
                        steps: state.round(diverged).steps,
                    },
                )
            },
        forall|p: int|
            0 <= p < state.active.len() && !diverged[p] ==> state.round(diverged).active.contains(
                #[trigger] state.active[p],
            ),
        forall|w: usize|
            state.round(diverged).active.contains(w) ==> state.active.contains(w),
{
    let next = state.round(diverged);
    let gone = retired(state.active, diverged);
    let added = datapoints(gone, state.deviations, next.steps);
    lemma_retired_worlds_are_not_live(state);
    lemma_pass_partitions(state.active, diverged);
    lemma_retired_are_the_diverged(state.active, diverged, 0);
    lemma_kept_are_the_rest(state.active, diverged, 0);
    assert(next.sample.take(state.sample.len() as int) =~= state.sample);
    assert forall|w: usize| next.active.contains(w) <==> kept(state.active, diverged).contains(
        w,
    ) by {
        to_multiset_contains(next.active, w);
        to_multiset_contains(kept(state.active, diverged), w);
    }
    assert forall|p: int| 0 <= p < state.active.len() && diverged[p] implies {
        &&& !next.active.contains(#[trigger] state.active[p])
        &&& next.sample.contains(
            Datapoint {
                world: state.active[p],
                deviation: state.deviations[state.active[p] as int],
                steps: next.steps,
            },
        )
    } by {
        let w = state.active[p];
        if next.active.contains(w) {
            let q = choose|q: int|
                0 <= q < state.active.len() && !diverged[q] && #[trigger] state.active[q] == w;
            assert(q != p);
        }
        assert(gone.contains(w));
        let g = choose|g: int| 0 <= g < gone.len() && gone[g] == w;
        assert(next.sample[state.sample.len() + g] == added[g]);
    }
    assert forall|w: usize| next.active.contains(w) implies state.active.contains(w) by {
        let q = choose|q: int|
            0 <= q < state.active.len() && !diverged[q] && #[trigger] state.active[q] == w;
        assert(state.active[q] == w);
    }
}

/// Whatever is measured, every round leaves a valid state, and the step
/// counter stands at as many batches as there were rounds.
pub proof fn lemma_every_round_leaves_a_valid_state(deviations: Seq<u64>, history: Seq<Seq<u64>>)
    requires
        deviations.len() <= usize::MAX,
        all_positive(deviations),
        history_fits(deviations, history),
    ensures
        after_rounds(deviations, history).valid(),
        after_rounds(deviations, history).deviations == deviations,
        after_rounds(deviations, history).steps == PER_ITER * history.len(),
    decreases history.len(),
{
    if history.len() == 0 {
        lemma_initial_is_valid(deviations);
    } else {
        lemma_every_round_leaves_a_valid_state(deviations, history.drop_last());
        lemma_round_keeps_valid(
            after_rounds(deviations, history.drop_last()),
            verdicts(history.last()),
        );
    }
}

/// A run is determined by its starting deviations and by what each report
/// says of each live world, threshold reached or not: two runs that agree in
/// these are in the same state after every round. Equal reports, in
/// particular, give equal samples.
pub proof fn lemma_equal_verdicts_give_equal_runs(
    deviations: Seq<u64>,
    first: Seq<Seq<u64>>,
    second: Seq<Seq<u64>>,
)
    requires
        first.len() == second.len(),
        forall|r: int|
            0 <= r < first.len() ==> verdicts(#[trigger] first[r]) == verdicts(second[r]),
    ensures
        after_rounds(deviations, first) == after_rounds(deviations, second),
    decreases first.len(),
{
    if first.len() > 0 {
        lemma_equal_verdicts_give_equal_runs(deviations, first.drop_last(), second.drop_last());
        assert(verdicts(first[first.len() - 1]) == verdicts(second[second.len() - 1]));
    }
}

/// A world that was retired in some round is in the sample after every
/// later round, in the same place, and is never live again.
pub proof fn lemma_retired_worlds_stay_retired(
    deviations: Seq<u64>,
    history: Seq<Seq<u64>>,
    rounds: int,
)
    requires
        deviations.len() <= usize::MAX,
        all_positive(deviations),
        history_fits(deviations, history),
        0 <= rounds <= history.len(),
    ensures
        history_fits(deviations, history.take(rounds)),
        after_rounds(deviations, history.take(rounds)).sample.len() <= after_rounds(
            deviations,
            history,
        ).sample.len(),
        forall|k: int|
            0 <= k < after_rounds(deviations, history.take(rounds)).sample.len() ==> {
                &&& after_rounds(deviations, history).sample[k] == after_rounds(
                    deviations,
                    history.take(rounds),
                ).sample[k]
                &&& !after_rounds(deviations, history).active.contains(
                    after_rounds(deviations, history.take(rounds)).sample[k].world,
                )
            },
    decreases history.len(),
{
    let end = after_rounds(deviations, history);
    lemma_every_round_leaves_a_valid_state(deviations, history);
    lemma_retired_worlds_are_not_live(end);
    if rounds == history.len() {
        assert(history.take(rounds) =~= history);
    } else {
        let shorter = history.drop_last();
        assert(shorter.take(rounds) =~= history.take(rounds));
        lemma_retired_worlds_stay_retired(deviations, shorter, rounds);
        let then = after_rounds(deviations, history.take(rounds));
        let before = after_rounds(deviations, shorter);
        assert forall|k: int| 0 <= k < then.sample.len() implies {
            &&& end.sample[k] == then.sample[k]
            &&& !end.active.contains(then.sample[k].world)
        } by {
            assert(end.sample[k] == before.sample[k]);
            if end.active.contains(then.sample[k].world) {
                let p = choose|p: int|
                    0 <= p < end.active.len() && end.active[p] == then.sample[k].world;
                assert(end.active[p] != end.sample[k].world);
            }
        }
    }
}

} // verus!
