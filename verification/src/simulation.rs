//! The divergence loop as a state machine.
//!
//! The numeric side advances every live world, and the reference beside
//! them, by [`PER_ITER`] kernel steps, measures how far each live world has
//! moved away from the reference, and reports the measurements.
//! [`Simulation::finish_round`] takes that report and decides the rest: the
//! step counter moves on, the worlds that have diverged far enough leave the
//! collection, and each of them is entered into the output sample with the
//! step count at which it left.
//!
//! A world is known here by the position it had when the ensemble was built.
use crate::deviation::{
    all_positive, encodes_positive, first_unperturbed, ratio_reaches_threshold, verdicts,
};
use crate::retirement::{
    examined_from, lemma_examined_keeps_prefix, lemma_kept_and_retired_split,
    lemma_pass_partitions, lemma_retired_are_the_diverged, retired, retired_from, survivors,
};
use vstd::multiset::*;
use vstd::prelude::*;
use vstd::seq_lib::*;

verus! {

/// Number of kernel steps that every live world takes between two
/// divergence checks.
pub const PER_ITER: usize = 1024;

/// One entry of the output sample: a world that was retired, the deviation
/// it started with, and the number of kernel steps it had taken by then.
#[derive(Clone, Copy, Debug, PartialEq, Eq)]
pub struct Datapoint {
    /// Position of the world among the perturbed worlds, as they were built.
    pub world: usize,
    /// Bit pattern of the world's starting deviation.
    pub deviation: u64,
    /// Kernel steps taken when the world was retired.
    pub steps: usize,
}

/// Why an ensemble cannot be run.
#[derive(Clone, Copy, Debug, PartialEq, Eq)]
pub enum SetupError {
    /// The starting deviation of `world` is not above zero.
    Unperturbed { world: usize },
}

/// The worlds `0, 1, .., count - 1` in that order.
pub open spec fn all_worlds(count: nat) -> Seq<usize> {
    Seq::new(count, |w: int| w as usize)
}

/// The worlds that the entries of `sample` speak of, entry by entry.
pub open spec fn retired_worlds(sample: Seq<Datapoint>) -> Seq<usize> {
    Seq::new(sample.len(), |k: int| sample[k].world)
}

/// The entries that `worlds` get when they are retired at `steps`.
pub open spec fn datapoints(worlds: Seq<usize>, deviations: Seq<u64>, steps: usize) -> Seq<
    Datapoint,
> {
    Seq::new(
        worlds.len(),
        |k: int|
            Datapoint { world: worlds[k], deviation: deviations[worlds[k] as int], steps: steps },
    )
}

/// What a [`Simulation`] stands for.
pub struct State {
    /// Starting deviation of every perturbed world, by world.
    pub deviations: Seq<u64>,
    /// The worlds still simulated, as the collection holds them.
    pub active: Seq<usize>,
    /// Kernel steps that every live world has taken.
    pub steps: usize,
    /// The retired worlds, in the order in which they were retired.
    pub sample: Seq<Datapoint>,
}

impl State {
    /// The state before the first round: every world live, nothing retired.
    pub open spec fn initial(deviations: Seq<u64>) -> State {
        State {
            deviations: deviations,
            active: all_worlds(deviations.len()),
            steps: 0,
            sample: Seq::empty(),
        }
    }

    /// The state after one more round in which the live world at each
    /// position `p` has diverged or not as `diverged[p]` says.
    pub open spec fn round(self, diverged: Seq<bool>) -> State {
        let steps = (self.steps + PER_ITER) as usize;
        State {
            deviations: self.deviations,
            active: survivors(self.active, diverged),
            steps: steps,
            sample: self.sample + datapoints(
                retired(self.active, diverged),
                self.deviations,
                steps,
            ),
        }
    }

    /// Whether no world is left to simulate.
    pub open spec fn finished(self) -> bool {
        self.active.len() == 0
    }

    /// Whether a report of one round fits this state: it speaks of every
    /// live world, and the step counter can take another batch.
    pub open spec fn accepts(self, diverged: Seq<bool>) -> bool {
        &&& diverged.len() == self.active.len()
        &&& self.steps + PER_ITER <= usize::MAX
    }

    /// What holds of every state that the loop can reach.
    pub open spec fn valid(self) -> bool {
        &&& self.deviations.len() <= usize::MAX
        &&& all_positive(self.deviations)
        &&& self.steps % PER_ITER == 0
        &&& (self.active + retired_worlds(self.sample)).to_multiset() =~= all_worlds(
            self.deviations.len(),
        ).to_multiset()
        &&& forall|k: int|
            0 <= k < self.sample.len() ==> {
                &&& (#[trigger] self.sample[k]).world < self.deviations.len()
                &&& self.sample[k].deviation == self.deviations[self.sample[k].world as int]
                &&& 0 < self.sample[k].steps <= self.steps
                &&& self.sample[k].steps % PER_ITER == 0
            }
        &&& forall|k: int, l: int|
            0 <= k <= l < self.sample.len() ==> (#[trigger] self.sample[k]).steps <= (
            #[trigger] self.sample[l]).steps
    }
}

/// The worlds of a valid state, live and retired together, are the worlds
/// that the ensemble was built with, each of them once.
pub proof fn lemma_each_world_once(state: State)
    requires
        state.valid(),
    ensures
        (state.active + retired_worlds(state.sample)).no_duplicates(),
        state.active.len() + state.sample.len() == state.deviations.len(),
        forall|w: usize|
            (state.active + retired_worlds(state.sample)).contains(w) <==> w
                < state.deviations.len(),
{
    broadcast use group_multiset_axioms;

    let count = state.deviations.len();
    let worlds = state.active + retired_worlds(state.sample);
    let all = all_worlds(count);
    assert(all.no_duplicates());
    all.lemma_multiset_has_no_duplicates();
    worlds.lemma_multiset_has_no_duplicates_conv();
    to_multiset_len(worlds);
    to_multiset_len(all);
    assert forall|w: usize| worlds.contains(w) <==> w < count by {
        to_multiset_contains(worlds, w);
        to_multiset_contains(all, w);
        if w < count {
            assert(all[w as int] == w);
        }
    }
}

/// The state before the first round is valid.
pub proof fn lemma_initial_is_valid(deviations: Seq<u64>)
    requires
        deviations.len() <= usize::MAX,
        all_positive(deviations),
    ensures
        State::initial(deviations).valid(),
{
    let state = State::initial(deviations);
    assert(state.active + retired_worlds(state.sample) =~= all_worlds(deviations.len()));
}

/// A round takes a valid state to a valid state.
pub proof fn lemma_round_keeps_valid(state: State, diverged: Seq<bool>)
    requires
        state.valid(),
        state.accepts(diverged),
    ensures
        state.round(diverged).valid(),
{
    broadcast use group_multiset_axioms;

    let next = state.round(diverged);
    let gone = retired(state.active, diverged);
    let earlier = retired_worlds(state.sample);
    let added = datapoints(gone, state.deviations, next.steps);
    lemma_each_world_once(state);
    lemma_pass_partitions(state.active, diverged);
    lemma_retired_are_the_diverged(state.active, diverged, 0);
    assert(retired_worlds(next.sample) =~= earlier + gone);
    lemma_multiset_commutative(next.active, earlier + gone);
    lemma_multiset_commutative(earlier, gone);
    lemma_multiset_commutative(state.active, earlier);
    assert forall|k: int| 0 <= k < next.sample.len() implies {
        &&& (#[trigger] next.sample[k]).world < next.deviations.len()
        &&& next.sample[k].deviation == next.deviations[next.sample[k].world as int]
        &&& 0 < next.sample[k].steps <= next.steps
        &&& next.sample[k].steps % PER_ITER == 0
    } by {
        if k < state.sample.len() {
            assert(next.sample[k] == state.sample[k]);
        } else {
            let g = k - state.sample.len();
            assert(next.sample[k] == added[g]);
            assert(gone.contains(gone[g]));
            let p = choose|p: int|
                0 <= p < state.active.len() && diverged[p] && #[trigger] state.active[p] == gone[g];
            assert((state.active + earlier)[p] == gone[g]);
            assert((state.active + earlier).contains(gone[g]));
        }
    }
    assert forall|k: int, l: int| 0 <= k <= l < next.sample.len() implies (
    #[trigger] next.sample[k]).steps <= (#[trigger] next.sample[l]).steps by {
        if l < state.sample.len() {
            assert(next.sample[k] == state.sample[k]);
            assert(next.sample[l] == state.sample[l]);
        } else {
            assert(next.sample[l] == added[l - state.sample.len()]);
            if k < state.sample.len() {
                assert(next.sample[k] == state.sample[k]);
            } else {
                assert(next.sample[k] == added[k - state.sample.len()]);
            }
        }
    }
}

/// The ensemble and its progress: the perturbed worlds that are still
/// simulated, the kernel steps taken so far, and the sample of those retired.
pub struct Simulation {
    deviations: Vec<u64>,
    active: Vec<usize>,
    steps: usize,
    sample: Vec<Datapoint>,
}

impl View for Simulation {
    type V = State;

    closed spec fn view(&self) -> State {
        State {
            deviations: self.deviations@,
            active: self.active@,
            steps: self.steps,
            sample: self.sample@,
        }
    }
}

impl Simulation {
    /// Sets up the loop for worlds with the given starting deviations, or
    /// names the first world that does not start away from the reference.
    pub fn new(deviations: Vec<u64>) -> (made: Result<Simulation, SetupError>)
        ensures
            made is Ok <==> all_positive(deviations@),
            made matches Ok(simulation) ==> {
                &&& simulation@ == State::initial(deviations@)
                &&& simulation@.valid()
            },
            made matches Err(SetupError::Unperturbed { world }) ==> {
                &&& world < deviations.len()
                &&& !encodes_positive(deviations[world as int])
                &&& all_positive(deviations@.take(world as int))
            },
    {
        match first_unperturbed(&deviations) {
            Some(world) => Err(SetupError::Unperturbed { world }),
            None => {
                let count = deviations.len();
                let mut active: Vec<usize> = Vec::new();
                let mut world: usize = 0;
                while world < count
                    invariant
                        world <= count,
                        active@ == all_worlds(world as nat),
                    decreases count - world,
                {
                    active.push(world);
                    assert(active@ =~= all_worlds((world + 1) as nat));
                    world = world + 1;
                }
                proof {
                    lemma_initial_is_valid(deviations@);
                }
                Ok(Simulation { deviations, active, steps: 0, sample: Vec::new() })
            },
        }
    }

    /// Number of perturbed worlds that the ensemble was built with.
    pub fn world_count(&self) -> (count: usize)
        ensures
            count == self@.deviations.len(),
    {
        self.deviations.len()
    }

    /// Kernel steps that every live world has taken.
    pub fn steps(&self) -> (steps: usize)
        ensures
            steps == self@.steps,
    {
        self.steps
    }

    /// The worlds still simulated, as the collection holds them.
    pub fn active(&self) -> (active: &Vec<usize>)
        ensures
            active@ == self@.active,
    {
        &self.active
    }

    /// The worlds retired so far, in the order in which they were retired.
    pub fn sample(&self) -> (sample: &Vec<Datapoint>)
        ensures
            sample@ == self@.sample,
    {
        &self.sample
    }

    /// Gives up the loop for its sample.
    pub fn into_sample(self) -> (sample: Vec<Datapoint>)
        ensures
            sample@ == self@.sample,
    {
        self.sample
    }

    /// Whether no world is left to simulate.
    pub fn is_finished(&self) -> (finished: bool)
        ensures
            finished == self@.finished(),
    {
        self.active.len() == 0
    }

    /// For each world that the ensemble was built with, whether it is still
    /// simulated: the worlds that the next batch of kernel steps is for.
    pub fn live_worlds(&self) -> (live: Vec<bool>)
        requires
            self@.valid(),
        ensures
            live.len() == self@.deviations.len(),
            forall|w: int| 0 <= w < live.len() ==> live[w] == self@.active.contains(w as usize),
    {
        let count = self.deviations.len();
        let mut live: Vec<bool> = Vec::new();
        let mut world: usize = 0;
        while world < count
            invariant
                world <= count,
                live.len() == world,
                forall|w: int| 0 <= w < world ==> !live[w],
            decreases count - world,
        {
            live.push(false);
            world = world + 1;
        }
        let mut position: usize = 0;
        while position < self.active.len()
            invariant
                self@.valid(),
                count == self@.deviations.len(),
                position <= self.active.len(),
                live.len() == count,
                forall|w: int|
                    0 <= w < count ==> live[w] == self.active@.take(position as int).contains(
                        w as usize,
                    ),
            decreases self.active.len() - position,
        {
            let world = self.active[position];
            proof {
                lemma_each_world_once(self@);
                let known = self@.active + retired_worlds(self@.sample);
                assert(known[position as int] == world);
                assert(known.contains(world));
            }
            let ghost seen = self.active@.take(position as int);
            let ghost more = self.active@.take(position + 1);
            live.set(world, true);
            assert(more =~= seen.push(world));
            assert forall|w: int| 0 <= w < count implies live[w] == more.contains(w as usize) by {
                if seen.contains(w as usize) {
                    let q = choose|q: int| 0 <= q < seen.len() && seen[q] == w as usize;
                    assert(more[q] == w as usize);
                }
                if w == world {
                    assert(more[position as int] == world);
                }
                if more.contains(w as usize) && w != world {
                    let q = choose|q: int| 0 <= q < more.len() && more[q] == w as usize;
                    assert(seen[q] == w as usize);
                }
            }
            position = position + 1;
        }
        assert(self.active@.take(position as int) =~= self.active@);
        live
    }

    /// Whether the step counter can take another batch.
    pub fn can_advance(&self) -> (possible: bool)
        ensures
            possible == (self@.steps + PER_ITER <= usize::MAX),
    {
        self.steps <= usize::MAX - PER_ITER
    }

    /// Closes a round: every live world has taken [`PER_ITER`] more kernel
    /// steps, and `ratios[p]` is the ratio, measured after them, of the
    /// divergence from the reference to the starting deviation, for the world
    /// at position `p` of [`Simulation::active`]. The worlds whose ratio is at
    /// least two are retired. Returns how many they were.
    pub fn finish_round(&mut self, ratios: &Vec<u64>) -> (count: usize)
        requires
            old(self)@.valid(),
            old(self)@.accepts(verdicts(ratios@)),
        ensures
            final(self)@ == old(self)@.round(verdicts(ratios@)),
            final(self)@.valid(),
            count == retired(old(self)@.active, verdicts(ratios@)).len(),
    {
        let ghost diverged = verdicts(ratios@);
        let ghost before = self@;
        self.steps = self.steps + PER_ITER;
        let mut position: usize = self.active.len();
        let mut count: usize = 0;
        while position > 0
            invariant
                before.valid(),
                ratios.len() == before.active.len(),
                diverged == verdicts(ratios@),
                position <= before.active.len(),
                self.deviations@ == before.deviations,
                self.steps == before.steps + PER_ITER,
                self.active@ == examined_from(before.active, diverged, position as int),
                self.sample@ == before.sample + datapoints(
                    retired_from(before.active, diverged, position as int),
                    before.deviations,
                    self.steps,
                ),
                count == retired_from(before.active, diverged, position as int).len(),
            decreases position,
        {
            position = position - 1;
            proof {
                lemma_examined_keeps_prefix(before.active, diverged, position + 1);
                lemma_kept_and_retired_split(before.active, diverged, position as int);
                lemma_each_world_once(before);
                let known = before.active + retired_worlds(before.sample);
                assert(known[position as int] == before.active[position as int]);
                assert(known.contains(before.active[position as int]));
            }
            if ratio_reaches_threshold(ratios[position]) {
                let ghost gone = retired_from(before.active, diverged, position + 1);
                let world = self.active.swap_remove(position);
                let deviation = self.deviations[world];
                self.sample.push(Datapoint { world, deviation, steps: self.steps });
                count = count + 1;
                assert(self.sample@ =~= before.sample + datapoints(
                    gone.push(world),
                    before.deviations,
                    self.steps,
                ));
            }
        }
        proof {
            lemma_round_keeps_valid(before, diverged);
        }
        count
    }
}

} // verus!
