//! The engine's general laws, stated over the table model and proved for
//! all inputs at once.

use vstd::prelude::*;

use crate::menace::{
    adjust_all, adjust_one, ensure_spec, episode_entry_valid, episode_valid, has_key, idx_of,
    init_beads, keys_distinct, lemma_adjust_one_shape, lemma_idx_of, lemma_same_shape_distinct,
    lemma_same_shape_valid, TableV, INITIAL_COUNT, MIN_COUNT,
};

verus! {

/// Every count of the table is at least the floor.
pub open spec fn counts_floored(t: TableV) -> bool {
    forall|i: int, j: int|
        0 <= i < t.len() && 0 <= j < t[i].1.len() ==> (#[trigger] t[i].1[j]).count >= MIN_COUNT
            as nat
}

/// Lazy initialization keeps the floor: a fresh entry starts every bead
/// at the initial count, which is no smaller than the floor.
pub proof fn lemma_ensure_preserves_floor(t: TableV, k: Seq<char>, actions: Seq<Seq<char>>)
    requires
        counts_floored(t),
    ensures
        counts_floored(ensure_spec(t, k, actions)),
{
    if !has_key(t, k) {
        let t2 = ensure_spec(t, k, actions);
        assert forall|i: int, j: int|
            0 <= i < t2.len() && 0 <= j < t2[i].1.len() implies (#[trigger] t2[i].1[j]).count
            >= MIN_COUNT as nat by {
            if i < t.len() {
                assert(t[i].1[j].count >= MIN_COUNT as nat);
            } else {
                assert(t2[i].1[j] == init_beads(actions)[j]);
            }
        }
    }
}

/// Adjusting one visited bead keeps the floor: the new count is floored
/// at `MIN_COUNT` explicitly, and no other count changes.
pub proof fn lemma_adjust_one_floor(t: TableV, k: Seq<char>, j: int, delta: int)
    requires
        keys_distinct(t),
        episode_entry_valid(t, (k, j)),
        counts_floored(t),
    ensures
        counts_floored(adjust_one(t, k, j, delta)),
{
    let ix = idx_of(t, k);
    let t2 = adjust_one(t, k, j, delta);
    assert forall|a: int, b: int|
        0 <= a < t2.len() && 0 <= b < t2[a].1.len() implies (#[trigger] t2[a].1[b]).count
        >= MIN_COUNT as nat by {
        if a == ix && b == j {
        } else if a == ix {
            assert(t2[a].1[b] == t[a].1[b]);
        } else {
            assert(t2[a] == t[a]);
        }
    }
}

/// The weight floor invariant: whatever signed delta each adjustment
/// applies, and however many episode entries it visits, every count of
/// the table stays at or above `MIN_COUNT`.
pub proof fn lemma_adjust_all_floor(t: TableV, ep: Seq<(Seq<char>, int)>, delta: int)
    requires
        keys_distinct(t),
        episode_valid(t, ep),
        counts_floored(t),
    ensures
        counts_floored(adjust_all(t, ep, delta)),
    decreases ep.len(),
{
    if ep.len() > 0 {
        let e = ep[0];
        assert(episode_entry_valid(t, e));
        lemma_adjust_one_floor(t, e.0, e.1, delta);
        lemma_adjust_one_shape(t, e.0, e.1, delta);
        let t1 = adjust_one(t, e.0, e.1, delta);
        lemma_same_shape_distinct(t, t1);
        assert forall|w: int|
            0 <= w < ep.skip(1).len() implies episode_entry_valid(
            t1,
            #[trigger] ep.skip(1)[w],
        ) by {
            assert(ep.skip(1)[w] == ep[w + 1]);
            lemma_same_shape_valid(t, t1, ep[w + 1]);
        }
        lemma_adjust_all_floor(t1, ep.skip(1), delta);
    }
}

/// Initialization immutability: once a state's entry exists, asking for
/// it again leaves the table exactly as it was, whatever action list the
/// second call carries.
pub proof fn lemma_ensure_state_twice(
    t: TableV,
    k: Seq<char>,
    a1: Seq<Seq<char>>,
    a2: Seq<Seq<char>>,
)
    ensures
        ensure_spec(ensure_spec(t, k, a1), k, a2) == ensure_spec(t, k, a1),
{
    let t1 = ensure_spec(t, k, a1);
    if has_key(t, k) {
        assert(has_key(t1, k));
    } else {
        assert(t1[t1.len() - 1].0 == k);
        assert(has_key(t1, k));
    }
}

/// Episode clearing: adjusting with an empty episode record changes
/// nothing. Since every adjustment ends with an empty episode, a second
/// adjustment with no intervening choice is a no-op on the table.
pub proof fn lemma_adjust_empty_episode(t: TableV, delta: int)
    ensures
        adjust_all(t, Seq::<(Seq<char>, int)>::empty(), delta) == t,
{
}

/// The initial count respects the floor, so tables built by the engine
/// alone always satisfy the floor invariant.
pub proof fn lemma_initial_at_least_floor()
    ensures
        INITIAL_COUNT >= MIN_COUNT,
{
}

} // verus!
