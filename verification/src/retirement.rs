//! The mathematics of one divergence check.
//!
//! After a batch of kernel steps the live worlds are examined from the last
//! position down to the first. A world found to have diverged is taken out by
//! moving the world at the end of the collection into its place. This module
//! says, as functions on sequences, what such a pass leaves behind and which
//! worlds it takes out, and proves that nothing is lost or invented on the way.
use vstd::multiset::*;
use vstd::prelude::*;
use vstd::seq_lib::*;

verus! {

/// The sequence left when position `i` is filled with the last element and
/// the last position is dropped.
pub open spec fn swap_remove(worlds: Seq<usize>, i: int) -> Seq<usize>
    recommends
        0 <= i < worlds.len(),
{
    worlds.update(i, worlds.last()).drop_last()
}

/// The collection once the positions from `i` upwards have been examined,
/// the last position first and position `i` last.
pub open spec fn examined_from(worlds: Seq<usize>, diverged: Seq<bool>, i: int) -> Seq<usize>
    decreases worlds.len() - i,
{
    if i < 0 || i >= worlds.len() {
        worlds
    } else {
        let later = examined_from(worlds, diverged, i + 1);
        if diverged[i] {
            swap_remove(later, i)
        } else {
            later
        }
    }
}

/// The worlds at positions from `i` upwards that have diverged, highest
/// position first: the order in which the pass takes them out.
pub open spec fn retired_from(worlds: Seq<usize>, diverged: Seq<bool>, i: int) -> Seq<usize>
    decreases worlds.len() - i,
{
    if i < 0 || i >= worlds.len() {
        Seq::empty()
    } else if diverged[i] {
        retired_from(worlds, diverged, i + 1).push(worlds[i])
    } else {
        retired_from(worlds, diverged, i + 1)
    }
}

/// The worlds at positions from `i` upwards that have not diverged, in the
/// order in which they stood.
pub open spec fn kept_from(worlds: Seq<usize>, diverged: Seq<bool>, i: int) -> Seq<usize>
    decreases worlds.len() - i,
{
    if i < 0 || i >= worlds.len() {
        Seq::empty()
    } else if diverged[i] {
        kept_from(worlds, diverged, i + 1)
    } else {
        seq![worlds[i]] + kept_from(worlds, diverged, i + 1)
    }
}

/// The live worlds after a whole pass, as the pass arranges them.
pub open spec fn survivors(worlds: Seq<usize>, diverged: Seq<bool>) -> Seq<usize> {
    examined_from(worlds, diverged, 0)
}

/// The worlds that a whole pass takes out, in the order in which it does.
pub open spec fn retired(worlds: Seq<usize>, diverged: Seq<bool>) -> Seq<usize> {
    retired_from(worlds, diverged, 0)
}

/// The worlds that a whole pass leaves in, in the order in which they stood.
pub open spec fn kept(worlds: Seq<usize>, diverged: Seq<bool>) -> Seq<usize> {
    kept_from(worlds, diverged, 0)
}

/// Taking a position out by `swap_remove` takes exactly one occurrence of
/// the element that stood there out of the collection.
pub proof fn lemma_swap_remove_takes_one(worlds: Seq<usize>, i: int)
    requires
        0 <= i < worlds.len(),
    ensures
        swap_remove(worlds, i).len() == worlds.len() - 1,
        swap_remove(worlds, i).to_multiset() =~= worlds.to_multiset().remove(worlds[i]),
        forall|j: int| 0 <= j < i ==> swap_remove(worlds, i)[j] == worlds[j],
{
    broadcast use group_multiset_axioms;

    let last = worlds.len() - 1;
    let filled = worlds.update(i, worlds.last());
    to_multiset_update(worlds, i, worlds.last());
    to_multiset_remove(filled, last);
    assert(filled.remove(last) =~= filled.drop_last());
    worlds.to_multiset_ensures();
    assert(worlds.to_multiset().count(worlds[i]) > 0);
    assert(worlds.to_multiset().count(worlds.last()) > 0);
    if i == last {
        assert(filled =~= worlds);
    } else {
        assert(filled[last] == worlds.last());
        if worlds[i] == worlds.last() {
            assert(filled =~= worlds);
        }
    }
}

/// A pass that has come down to position `i` has not touched the positions
/// below `i`, and holds beside them the worlds from `i` upwards that have not
/// diverged.
pub proof fn lemma_examined_keeps_prefix(worlds: Seq<usize>, diverged: Seq<bool>, i: int)
    requires
        0 <= i <= worlds.len(),
        diverged.len() == worlds.len(),
    ensures
        examined_from(worlds, diverged, i).len() == i + kept_from(worlds, diverged, i).len(),
        forall|j: int| 0 <= j < i ==> examined_from(worlds, diverged, i)[j] == worlds[j],
    decreases worlds.len() - i,
{
    if i < worlds.len() {
        lemma_examined_keeps_prefix(worlds, diverged, i + 1);
        if diverged[i] {
            lemma_swap_remove_takes_one(examined_from(worlds, diverged, i + 1), i);
        }
    }
}

/// What a pass holds above position `i` is a rearrangement of the worlds
/// from `i` upwards that have not diverged.
pub proof fn lemma_examined_rearranges_kept(worlds: Seq<usize>, diverged: Seq<bool>, i: int)
    requires
        0 <= i <= worlds.len(),
        diverged.len() == worlds.len(),
    ensures
        examined_from(worlds, diverged, i).to_multiset() =~= worlds.take(i).to_multiset().add(
            kept_from(worlds, diverged, i).to_multiset(),
        ),
    decreases worlds.len() - i,
{
    broadcast use group_multiset_axioms;

    if i == worlds.len() {
        assert(worlds.take(i) =~= worlds);
        assert(kept_from(worlds, diverged, i) =~= Seq::<usize>::empty());
        Seq::<usize>::empty().to_multiset_ensures();
    } else {
        let later = examined_from(worlds, diverged, i + 1);
        lemma_examined_rearranges_kept(worlds, diverged, i + 1);
        lemma_examined_keeps_prefix(worlds, diverged, i + 1);
        assert(worlds.take(i + 1) =~= worlds.take(i).push(worlds[i]));
        to_multiset_build(worlds.take(i), worlds[i]);
        if diverged[i] {
            lemma_swap_remove_takes_one(later, i);
        } else {
            lemma_multiset_commutative(seq![worlds[i]], kept_from(worlds, diverged, i + 1));
            assert(seq![worlds[i]] =~= Seq::<usize>::empty().push(worlds[i]));
            to_multiset_build(Seq::<usize>::empty(), worlds[i]);
            Seq::<usize>::empty().to_multiset_ensures();
        }
    }
}

/// From position `i` upwards, every world is either kept or retired, once.
pub proof fn lemma_kept_and_retired_split(worlds: Seq<usize>, diverged: Seq<bool>, i: int)
    requires
        0 <= i <= worlds.len(),
        diverged.len() == worlds.len(),
    ensures
        kept_from(worlds, diverged, i).to_multiset().add(
            retired_from(worlds, diverged, i).to_multiset(),
        ) =~= worlds.skip(i).to_multiset(),
        kept_from(worlds, diverged, i).len() + retired_from(worlds, diverged, i).len()
            == worlds.len() - i,
    decreases worlds.len() - i,
{
    broadcast use group_multiset_axioms;

    let nothing = Seq::<usize>::empty();
    nothing.to_multiset_ensures();
    if i == worlds.len() {
        assert(worlds.skip(i) =~= nothing);
        assert(kept_from(worlds, diverged, i) =~= nothing);
        assert(retired_from(worlds, diverged, i) =~= nothing);
    } else {
        let kept_rest = kept_from(worlds, diverged, i + 1);
        let retired_rest = retired_from(worlds, diverged, i + 1);
        let one = seq![worlds[i]];
        lemma_kept_and_retired_split(worlds, diverged, i + 1);
        assert(worlds.skip(i) =~= one + worlds.skip(i + 1));
        lemma_multiset_commutative(one, worlds.skip(i + 1));
        assert(one =~= nothing.push(worlds[i]));
        to_multiset_build(nothing, worlds[i]);
        assert(one.to_multiset() =~= Multiset::<usize>::empty().insert(worlds[i]));
        if diverged[i] {
            to_multiset_build(retired_rest, worlds[i]);
            assert(retired_from(worlds, diverged, i).to_multiset() =~= retired_rest.to_multiset().insert(
                worlds[i],
            ));
        } else {
            lemma_multiset_commutative(one, kept_rest);
            assert(kept_from(worlds, diverged, i).to_multiset() =~= one.to_multiset().add(
                kept_rest.to_multiset(),
            ));
        }
    }
}

/// A whole pass loses no world and invents none: the survivors are a
/// rearrangement of the worlds that have not diverged, and survivors and
/// retired worlds together are a rearrangement of the worlds before the pass.
pub proof fn lemma_pass_partitions(worlds: Seq<usize>, diverged: Seq<bool>)
    requires
        diverged.len() == worlds.len(),
    ensures
        survivors(worlds, diverged).to_multiset() =~= kept(worlds, diverged).to_multiset(),
        survivors(worlds, diverged).to_multiset().add(retired(worlds, diverged).to_multiset())
            =~= worlds.to_multiset(),
        survivors(worlds, diverged).len() + retired(worlds, diverged).len() == worlds.len(),
{
    broadcast use group_multiset_axioms;

    lemma_examined_rearranges_kept(worlds, diverged, 0);
    lemma_examined_keeps_prefix(worlds, diverged, 0);
    lemma_kept_and_retired_split(worlds, diverged, 0);
    assert(worlds.take(0) =~= Seq::<usize>::empty());
    assert(worlds.skip(0) =~= worlds);
    Seq::<usize>::empty().to_multiset_ensures();
}

/// The retired worlds from position `i` upwards are exactly those that stood
/// at a diverged position there.
pub proof fn lemma_retired_are_the_diverged(worlds: Seq<usize>, diverged: Seq<bool>, i: int)
    requires
        0 <= i <= worlds.len(),
        diverged.len() == worlds.len(),
    ensures
        forall|w: usize|
            retired_from(worlds, diverged, i).contains(w) <==> exists|p: int|
                i <= p < worlds.len() && diverged[p] && #[trigger] worlds[p] == w,
    decreases worlds.len() - i,
{
    if i < worlds.len() {
        lemma_retired_are_the_diverged(worlds, diverged, i + 1);
        let rest = retired_from(worlds, diverged, i + 1);
        let all = retired_from(worlds, diverged, i);
        assert forall|w: usize|
            all.contains(w) <==> exists|p: int|
                i <= p < worlds.len() && diverged[p] && #[trigger] worlds[p] == w by {
            if all.contains(w) {
                let k = choose|k: int| 0 <= k < all.len() && all[k] == w;
                if diverged[i] && k == rest.len() {
                    assert(worlds[i] == w);
                } else {
                    assert(rest[k] == w);
                    assert(rest.contains(w));
                }
            }
            if exists|p: int| i <= p < worlds.len() && diverged[p] && #[trigger] worlds[p] == w {
                let p = choose|p: int|
                    i <= p < worlds.len() && diverged[p] && #[trigger] worlds[p] == w;
                if p == i {
                    assert(all[rest.len() as int] == w);
                } else {
                    assert(rest.contains(w));
                    let k = choose|k: int| 0 <= k < rest.len() && rest[k] == w;
                    assert(all[k] == w);
                }
            }
        }
    }
}

/// The kept worlds from position `i` upwards are exactly those that stood at
/// a position there that has not diverged.
pub proof fn lemma_kept_are_the_rest(worlds: Seq<usize>, diverged: Seq<bool>, i: int)
    requires
        0 <= i <= worlds.len(),
        diverged.len() == worlds.len(),
    ensures
        forall|w: usize|
            kept_from(worlds, diverged, i).contains(w) <==> exists|p: int|
                i <= p < worlds.len() && !diverged[p] && #[trigger] worlds[p] == w,
    decreases worlds.len() - i,
{
    if i < worlds.len() {
        lemma_kept_are_the_rest(worlds, diverged, i + 1);
        let rest = kept_from(worlds, diverged, i + 1);
        let all = kept_from(worlds, diverged, i);
        assert forall|w: usize|
            all.contains(w) <==> exists|p: int|
                i <= p < worlds.len() && !diverged[p] && #[trigger] worlds[p] == w by {
            if all.contains(w) {
                let k = choose|k: int| 0 <= k < all.len() && all[k] == w;
                if !diverged[i] && k == 0 {
                    assert(worlds[i] == w);
                } else if !diverged[i] {
                    assert(rest[k - 1] == w);
                    assert(rest.contains(w));
                } else {
                    assert(rest.contains(w));
                }
            }
            if exists|p: int| i <= p < worlds.len() && !diverged[p] && #[trigger] worlds[p] == w {
                let p = choose|p: int|
                    i <= p < worlds.len() && !diverged[p] && #[trigger] worlds[p] == w;
                if p == i {
                    assert(all[0] == w);
                } else {
                    assert(rest.contains(w));
                    let k = choose|k: int| 0 <= k < rest.len() && rest[k] == w;
                    if diverged[i] {
                        assert(all[k] == w);
                    } else {
                        assert(all[k + 1] == w);
                    }
                }
            }
        }
    }
}

} // verus!
