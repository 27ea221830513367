//! The learning engine: the per-state bead table, weighted move selection,
//! the episode record, and the credit assignment applied at game end.

use vstd::prelude::*;

use crate::ext::rand_below;
use crate::symbol::Symbol;
use crate::tictactoe::{flat_view, next_states_of, terminal, TicTacToe};

verus! {

/// Reward applied to each visited bead count after a win.
pub const WIN_REWARD: i32 = 3;

/// Reward applied to each visited bead count after a loss.
pub const LOSE_REWARD: i32 = -1;

/// Reward applied to each visited bead count after a draw.
pub const DRAW_REWARD: i32 = 1;

/// The count every bead of a freshly initialized state starts with.
pub const INITIAL_COUNT: usize = 3;

/// The floor below which no adjustment pushes a visited bead count.
pub const MIN_COUNT: usize = 1;

/// The failures the engine can report.
#[derive(Clone, Copy, Debug, PartialEq, Eq, Structural)]
pub enum MenaceError {
    /// Selection was asked on a state whose entry holds no action at all.
    NoLegalActions,
    /// A persisted document does not have the expected shape.
    MalformedDocument,
    /// A state string holds a character the document format cannot carry.
    UnencodableState,
}

/// The mathematical content of one bead: a successor state and its count.
pub ghost struct BeadV {
    pub next_state: Seq<char>,
    pub count: nat,
}

/// The mathematical content of the whole table: for each known state,
/// its key and its beads, in insertion order.
pub type TableV = Seq<(Seq<char>, Seq<BeadV>)>;

/// One weighted choice: the flattened state it leads to, and how many
/// beads back it.
pub struct Bead {
    pub next_state: String,
    pub count: usize,
}

impl View for Bead {
    type V = BeadV;

    open spec fn view(&self) -> BeadV {
        BeadV { next_state: self.next_state@, count: self.count as nat }
    }
}

impl Bead {
    /// A bead leading to `next_state`, backed by `count` beads.
    pub fn new(next_state: String, count: usize) -> (b: Bead)
        ensures
            b@ == (BeadV { next_state: next_state@, count: count as nat }),
    {
        Bead { next_state, count }
    }
}

/// Whether some entry of `t` is keyed by `k`.
pub open spec fn has_key(t: TableV, k: Seq<char>) -> bool {
    exists|i: int| 0 <= i < t.len() && t[i].0 == k
}

/// The index of the entry keyed by `k`; meaningful only when `has_key`.
pub open spec fn idx_of(t: TableV, k: Seq<char>) -> int {
    choose|i: int| 0 <= i < t.len() && t[i].0 == k
}

/// The beads of the entry keyed by `k`; meaningful only when `has_key`.
pub open spec fn entry_of(t: TableV, k: Seq<char>) -> Seq<BeadV> {
    t[idx_of(t, k)].1
}

/// No two entries share a key.
pub open spec fn keys_distinct(t: TableV) -> bool {
    forall|i: int, j: int| 0 <= i < j < t.len() ==> t[i].0 != t[j].0
}

/// With distinct keys, the entry index of a present key is unique.
pub proof fn lemma_idx_of(t: TableV, k: Seq<char>, i: int)
    requires
        keys_distinct(t),
        0 <= i < t.len(),
        t[i].0 == k,
    ensures
        idx_of(t, k) == i,
        has_key(t, k),
{
    assert(has_key(t, k));
    let j = idx_of(t, k);
    assert(0 <= j < t.len() && t[j].0 == k);
    if i < j {
        assert(t[i].0 != t[j].0);
    } else if j < i {
        assert(t[j].0 != t[i].0);
    }
}

/// The fresh beads of a newly created entry: one per listed successor,
/// each with the initial count.
pub open spec fn init_beads(actions: Seq<Seq<char>>) -> Seq<BeadV> {
    actions.map_values(|a: Seq<char>| BeadV { next_state: a, count: INITIAL_COUNT as nat })
}

/// What lazy initialization does to the table: nothing when the key is
/// already present, otherwise one appended entry of fresh beads.
pub open spec fn ensure_spec(t: TableV, k: Seq<char>, actions: Seq<Seq<char>>) -> TableV {
    if has_key(t, k) {
        t
    } else {
        t.push((k, init_beads(actions)))
    }
}

/// A count after adjustment: floored at `MIN_COUNT`, and capped at the
/// machine's largest count.
pub open spec fn clamp_count(c: int) -> nat {
    if c < MIN_COUNT as int {
        MIN_COUNT as nat
    } else if c > usize::MAX as int {
        usize::MAX as nat
    } else {
        c as nat
    }
}

/// One bead after adjustment by `delta`.
pub open spec fn adjust_bead(b: BeadV, delta: int) -> BeadV {
    BeadV { next_state: b.next_state, count: clamp_count(b.count + delta) }
}

/// The table after one episode entry `(k, j)` is adjusted by `delta`.
pub open spec fn adjust_one(t: TableV, k: Seq<char>, j: int, delta: int) -> TableV {
    let i = idx_of(t, k);
    let e = t[i].1;
    t.update(i, (k, e.update(j, adjust_bead(e[j], delta))))
}

/// The table after a whole episode is adjusted by `delta`, entry by entry
/// in episode order.
pub open spec fn adjust_all(t: TableV, ep: Seq<(Seq<char>, int)>, delta: int) -> TableV
    decreases ep.len(),
{
    if ep.len() == 0 {
        t
    } else {
        adjust_all(adjust_one(t, ep[0].0, ep[0].1, delta), ep.skip(1), delta)
    }
}

/// Whether an episode entry points at an existing bead of the table.
pub open spec fn episode_entry_valid(t: TableV, e: (Seq<char>, int)) -> bool {
    has_key(t, e.0) && 0 <= e.1 < entry_of(t, e.0).len()
}

/// Whether every entry of an episode points at an existing bead.
pub open spec fn episode_valid(t: TableV, ep: Seq<(Seq<char>, int)>) -> bool {
    forall|i: int| 0 <= i < ep.len() ==> episode_entry_valid(t, #[trigger] ep[i])
}

/// The total number of beads of an entry.
pub open spec fn count_sum(e: Seq<BeadV>) -> nat
    decreases e.len(),
{
    if e.len() == 0 {
        0
    } else {
        count_sum(e.drop_last()) + e.last().count
    }
}

/// Extending a prefix sum by one element adds that element's count.
proof fn lemma_count_sum_take_step(e: Seq<BeadV>, i: int)
    requires
        0 <= i < e.len(),
    ensures
        count_sum(e.take(i + 1)) == count_sum(e.take(i)) + e[i].count,
{
    assert(e.take(i + 1).drop_last() =~= e.take(i));
    assert(e.take(i + 1).last() == e[i]);
}

/// A partial sum of at most `i` machine-sized counts, plus one more,
/// stays well inside the range of the wide accumulator.
proof fn lemma_partial_sum_fits(i: int, total: int, c: int)
    requires
        0 <= i <= usize::MAX as int,
        0 <= total <= i * (usize::MAX as int),
        0 <= c <= usize::MAX as int,
    ensures
        total + c <= (i + 1) * (usize::MAX as int),
        total + c <= u128::MAX as int,
{
    assert(total + c <= (i + 1) * (usize::MAX as int) && (i + 1) * (usize::MAX as int) < u128::MAX
        as int) by (nonlinear_arith)
        requires
            0 <= i <= usize::MAX as int,
            total <= i * (usize::MAX as int),
            0 <= c <= usize::MAX as int,
    ;
}

/// Two tables of the same shape: same keys in the same order, the same
/// number of beads per entry, the same successor behind each bead; only
/// the counts may differ.
pub open spec fn same_shape(t1: TableV, t2: TableV) -> bool {
    &&& t1.len() == t2.len()
    &&& forall|i: int|
        0 <= i < t1.len() ==> (#[trigger] t2[i]).0 == t1[i].0 && t2[i].1.len() == t1[i].1.len()
    &&& forall|i: int, j: int|
        0 <= i < t1.len() && 0 <= j < t1[i].1.len() ==> (#[trigger] t2[i].1[j]).next_state
            == t1[i].1[j].next_state
}

/// Shape equality carries key distinctness over.
pub proof fn lemma_same_shape_distinct(t1: TableV, t2: TableV)
    requires
        keys_distinct(t1),
        same_shape(t1, t2),
    ensures
        keys_distinct(t2),
{
}

/// Shape equality keeps an episode entry valid, at the same table index.
pub proof fn lemma_same_shape_valid(t1: TableV, t2: TableV, e: (Seq<char>, int))
    requires
        keys_distinct(t1),
        same_shape(t1, t2),
        episode_entry_valid(t1, e),
    ensures
        episode_entry_valid(t2, e),
        idx_of(t2, e.0) == idx_of(t1, e.0),
{
    let i = idx_of(t1, e.0);
    assert(0 <= i < t1.len() && t1[i].0 == e.0);
    lemma_same_shape_distinct(t1, t2);
    assert(t2[i].0 == e.0);
    lemma_idx_of(t2, e.0, i);
}

/// Adjusting one visited bead keeps the table's shape.
pub proof fn lemma_adjust_one_shape(t: TableV, k: Seq<char>, j: int, delta: int)
    requires
        keys_distinct(t),
        episode_entry_valid(t, (k, j)),
    ensures
        same_shape(t, adjust_one(t, k, j, delta)),
{
    let i = idx_of(t, k);
    assert(0 <= i < t.len() && t[i].0 == k);
}

/// Adjusting a whole episode keeps the table's shape.
pub proof fn lemma_adjust_all_shape(t: TableV, ep: Seq<(Seq<char>, int)>, delta: int)
    requires
        keys_distinct(t),
        episode_valid(t, ep),
    ensures
        same_shape(t, adjust_all(t, ep, delta)),
        keys_distinct(adjust_all(t, ep, delta)),
    decreases ep.len(),
{
    if ep.len() == 0 {
    } else {
        let e = ep[0];
        assert(episode_entry_valid(t, e));
        lemma_adjust_one_shape(t, e.0, e.1, delta);
        let t1 = adjust_one(t, e.0, e.1, delta);
        lemma_same_shape_distinct(t, t1);
        assert forall|w: int|
            0 <= w < ep.skip(1).len() implies episode_entry_valid(
            t1,
            #[trigger] ep.skip(1)[w],
        ) by {
            assert(ep.skip(1)[w] == ep[w + 1]);
            lemma_same_shape_valid(t, t1, ep[w + 1]);
        }
        lemma_adjust_all_shape(t1, ep.skip(1), delta);
    }
}

/// The mathematical content of a vector of beads.
pub open spec fn beads_view(bs: Seq<Bead>) -> Seq<BeadV> {
    Seq::new(bs.len(), |j: int| bs[j]@)
}

/// The mathematical content of a vector of keyed entries.
pub open spec fn table_view(bs: Seq<(String, Vec<Bead>)>) -> TableV {
    Seq::new(bs.len(), |i: int| (bs[i].0@, beads_view(bs[i].1@)))
}

/// Every count of the table fits the machine's count type.
pub open spec fn table_bounded(t: TableV) -> bool {
    forall|i: int, j: int|
        0 <= i < t.len() && 0 <= j < t[i].1.len() ==> (#[trigger] t[i].1[j]).count <= usize::MAX
            as nat
}

/// The learning engine: the bead table and the in-progress episode.
pub struct Menace {
    beads: Vec<(String, Vec<Bead>)>,
    episode: Vec<(String, usize)>,
}

impl Menace {
    /// The table the engine has learned, in insertion order.
    pub closed spec fn table(&self) -> TableV {
        table_view(self.beads@)
    }

    /// The moves chosen since the last adjustment: state key and bead index.
    pub closed spec fn episode_view(&self) -> Seq<(Seq<char>, int)> {
        Seq::new(self.episode@.len(), |i: int| (self.episode@[i].0@, self.episode@[i].1 as int))
    }

    /// Well-formed: keys are unique and the episode points at existing beads.
    pub open spec fn wf(&self) -> bool {
        keys_distinct(self.table()) && episode_valid(self.table(), self.episode_view())
    }

    /// A fresh engine: empty table, empty episode.
    pub fn new() -> (m: Menace)
        ensures
            m.wf(),
            m.table() == Seq::<(Seq<char>, Seq<BeadV>)>::empty(),
            m.episode_view() == Seq::<(Seq<char>, int)>::empty(),
    {
        let m = Menace { beads: Vec::new(), episode: Vec::new() };
        proof {
            assert(m.table() =~= Seq::<(Seq<char>, Seq<BeadV>)>::empty());
            assert(m.episode_view() =~= Seq::<(Seq<char>, int)>::empty());
        }
        m
    }

    /// Looks the state up; when it is absent, creates its entry with one
    /// fresh bead per listed successor state. An existing entry is never
    /// touched, whatever `next_states` says.
    pub fn ensure_state(&mut self, state: &String, next_states: &Vec<String>)
        requires
            old(self).wf(),
        ensures
            final(self).wf(),
            final(self).table() == ensure_spec(
                old(self).table(),
                state@,
                next_states.deep_view(),
            ),
            final(self).episode_view() == old(self).episode_view(),
    {
        let n = self.beads.len();
        let mut i: usize = 0;
        while i < n
            invariant
                old(self).wf(),
                *self == *old(self),
                n == self.beads@.len(),
                i <= n,
                forall|j: int| 0 <= j < i ==> self.table()[j].0 != state@,
            decreases n - i,
        {
            if self.beads[i].0 == *state {
                proof {
                    assert(self.table()[i as int].0 == state@);
                    assert(has_key(self.table(), state@));
                }
                return ;
            }
            i += 1;
        }
        proof {
            assert(!has_key(self.table(), state@));
        }
        let mut fresh: Vec<Bead> = Vec::new();
        let mut k: usize = 0;
        while k < next_states.len()
            invariant
                old(self).wf(),
                *self == *old(self),
                !has_key(self.table(), state@),
                k <= next_states@.len(),
                fresh@.len() == k,
                forall|j: int|
                    0 <= j < k ==> #[trigger] fresh@[j]@ == init_beads(next_states.deep_view())[j],
            decreases next_states@.len() - k,
        {
            fresh.push(Bead::new(next_states[k].clone(), INITIAL_COUNT));
            k += 1;
        }
        let ghost t_old = self.table();
        let ghost ep_old = self.episode_view();
        self.beads.push((state.clone(), fresh));
        proof {
            let t_new = self.table();
            let expected = t_old.push((state@, init_beads(next_states.deep_view())));
            assert forall|j: int| 0 <= j < t_new.len() implies t_new[j] == expected[j] by {
                if j < t_old.len() {
                    assert(t_new[j].1 =~= t_old[j].1);
                } else {
                    assert(t_new[j].1 =~= init_beads(next_states.deep_view()));
                }
            }
            assert(t_new =~= expected);
            assert(self.episode_view() =~= ep_old);
            assert(keys_distinct(t_new)) by {
                assert forall|a: int, b: int|
                    0 <= a < b < t_new.len() implies t_new[a].0 != t_new[b].0 by {
                    if b < t_old.len() {
                        assert(t_old[a].0 != t_old[b].0);
                    } else {
                        assert(t_new[b].0 == state@);
                        assert(t_old[a].0 != state@);
                    }
                }
            }
            assert forall|i: int|
                0 <= i < ep_old.len() implies episode_entry_valid(t_new, #[trigger] ep_old[i]) by {
                let e = ep_old[i];
                assert(episode_entry_valid(t_old, e));
                let ix = idx_of(t_old, e.0);
                assert(0 <= ix < t_old.len() && t_old[ix].0 == e.0);
                assert(t_new[ix] == t_old[ix]);
                lemma_idx_of(t_new, e.0, ix);
            }
        }
    }

    /// Picks one successor of `state` by weighted random sampling over the
    /// bead counts, creating the state's entry first when it is new. When
    /// every count is zero each bead is equally likely. The pick is appended
    /// to the episode record. Fails only when the entry holds no bead at all.
    pub fn select_action(&mut self, state: &String, next_states: &Vec<String>) -> (r: Result<
        String,
        MenaceError,
    >)
        requires
            old(self).wf(),
        ensures
            final(self).wf(),
            final(self).table() == ensure_spec(
                old(self).table(),
                state@,
                next_states.deep_view(),
            ),
            (r is Err <==> entry_of(final(self).table(), state@).len() == 0),
            r matches Err(e) ==> e == MenaceError::NoLegalActions && final(self).episode_view()
                == old(self).episode_view(),
            r matches Ok(a) ==> exists|j: int|
                #![trigger entry_of(final(self).table(), state@)[j]]
                {
                    &&& 0 <= j < entry_of(final(self).table(), state@).len()
                    &&& a@ == entry_of(final(self).table(), state@)[j].next_state
                    &&& final(self).episode_view() == old(self).episode_view().push((state@, j))
                },
    {
        self.ensure_state(state, next_states);
        let ghost t2 = self.table();
        let ghost snap = *self;
        proof {
            if !has_key(old(self).table(), state@) {
                assert(t2[t2.len() - 1].0 == state@);
            }
            assert(has_key(t2, state@));
        }
        let n = self.beads.len();
        let mut ix: usize = 0;
        while ix < n && !(self.beads[ix].0 == *state)
            invariant
                *self == snap,
                t2 == self.table(),
                has_key(t2, state@),
                n == self.beads@.len(),
                ix <= n,
                forall|j: int| 0 <= j < ix ==> t2[j].0 != state@,
            decreases n - ix,
        {
            ix += 1;
        }
        proof {
            if ix == n {
                let w = choose|i: int| 0 <= i < t2.len() && t2[i].0 == state@;
                assert(t2[w].0 != state@);
            }
            assert(ix < n && t2[ix as int].0 == state@);
            lemma_idx_of(t2, state@, ix as int);
        }
        let ghost entry = t2[ix as int].1;
        let elen = self.beads[ix].1.len();
        if elen == 0 {
            return Err(MenaceError::NoLegalActions);
        }
        let mut total: u128 = 0;
        let mut i: usize = 0;
        while i < elen
            invariant
                *self == snap,
                t2 == self.table(),
                ix < self.beads@.len(),
                entry == t2[ix as int].1,
                elen == self.beads@[ix as int].1@.len(),
                elen == entry.len(),
                i <= elen,
                total as int == count_sum(entry.take(i as int)),
                total as int <= (i as int) * (usize::MAX as int),
            decreases elen - i,
        {
            let c = self.beads[ix].1[i].count;
            proof {
                assert(entry[i as int].count == c as nat);
                lemma_count_sum_take_step(entry, i as int);
                lemma_partial_sum_fits(i as int, total as int, c as int);
            }
            total = total + (c as u128);
            i += 1;
        }
        proof {
            assert(entry.take(elen as int) =~= entry);
            assert((elen as int) * (usize::MAX as int) + (usize::MAX as int) <= u128::MAX
                as int) by (nonlinear_arith)
                requires
                    0 <= elen as int <= usize::MAX as int,
            ;
        }
        let j: usize;
        if total > 0 {
            let t = rand_below(total);
            let mut jj: usize = 0;
            let mut acc: u128 = 0;
            while acc + (self.beads[ix].1[jj].count as u128) <= t
                invariant
                    *self == snap,
                    total as int <= (elen as int) * (usize::MAX as int),
                    (elen as int) * (usize::MAX as int) + (usize::MAX as int) <= u128::MAX as int,
                    t2 == self.table(),
                    ix < self.beads@.len(),
                    entry == t2[ix as int].1,
                    elen == self.beads@[ix as int].1@.len(),
                    elen == entry.len(),
                    0 < elen,
                    jj < elen,
                    acc as int == count_sum(entry.take(jj as int)),
                    acc <= t,
                    t < total,
                    total as int == count_sum(entry),
                decreases elen - jj,
            {
                proof {
                    lemma_count_sum_take_step(entry, jj as int);
                    if jj + 1 == elen {
                        assert(entry.take(jj + 1) =~= entry);
                    }
                }
                acc = acc + (self.beads[ix].1[jj].count as u128);
                jj += 1;
            }
            j = jj;
        } else {
            j = rand_below(elen as u128) as usize;
        }
        assert(j < elen);
        let ghost ep_old = self.episode_view();
        self.episode.push((state.clone(), j));
        let picked = self.beads[ix].1[j].next_state.clone();
        proof {
            assert(self.table() =~~= t2);
            assert(self.episode_view() =~= ep_old.push((state@, j as int)));
            assert(entry_of(t2, state@) == entry);
            assert(picked@ == entry[j as int].next_state);
            assert forall|i2: int|
                0 <= i2 < self.episode_view().len() implies episode_entry_valid(
                t2,
                #[trigger] self.episode_view()[i2],
            ) by {
                if i2 < ep_old.len() {
                    assert(episode_entry_valid(t2, ep_old[i2]));
                }
            }
        }
        Ok(picked)
    }

    /// One move of the engine in a running game: nothing exactly when the
    /// game is already over, otherwise the flattened state it chose to move
    /// to, with the choice recorded in the episode. Asking it to move where
    /// the state's entry was created action-less is a caller error, ruled
    /// out up front; `select_action` reports that case distinctly.
    pub fn step(&mut self, game: &TicTacToe, piece: Symbol) -> (r: Option<String>)
        requires
            old(self).wf(),
            game.wf(),
            !terminal(game.board_view()) && has_key(
                old(self).table(),
                flat_view(game.board_view()),
            ) ==> entry_of(old(self).table(), flat_view(game.board_view())).len() > 0,
        ensures
            final(self).wf(),
            r is None <==> terminal(game.board_view()),
            terminal(game.board_view()) ==> final(self).table() == old(self).table()
                && final(self).episode_view() == old(self).episode_view(),
            !terminal(game.board_view()) ==> {
                let k = flat_view(game.board_view());
                let t2 = ensure_spec(
                    old(self).table(),
                    k,
                    next_states_of(game.board_view(), piece),
                );
                &&& final(self).table() == t2
                &&& (r matches Some(a) ==> exists|j: int|
                    #![trigger entry_of(t2, k)[j]]
                    {
                        &&& 0 <= j < entry_of(t2, k).len()
                        &&& a@ == entry_of(t2, k)[j].next_state
                        &&& final(self).episode_view() == old(self).episode_view().push((k, j))
                    })
            },
    {
        if game.is_winner(Symbol::X) || game.is_winner(Symbol::O) || game.is_draw() {
            return None;
        }
        let state = game.flat();
        let successors = game.next_states(piece);
        proof {
            let k = flat_view(game.board_view());
            let t = self.table();
            let t2 = ensure_spec(t, k, successors.deep_view());
            crate::tictactoe::lemma_not_full_has_move(game.board_view());
            assert(successors.deep_view().len() > 0);
            if has_key(t, k) {
                assert(entry_of(t2, k).len() > 0);
            } else {
                assert(keys_distinct(t2)) by {
                    assert forall|a: int, b: int|
                        0 <= a < b < t2.len() implies t2[a].0 != t2[b].0 by {
                        if b < t.len() {
                            assert(t[a].0 != t[b].0);
                        } else {
                            assert(t2[b].0 == k);
                            assert(t[a].0 != k);
                        }
                    }
                }
                assert(t2[t2.len() - 1].0 == k);
                lemma_idx_of(t2, k, t2.len() - 1);
                assert(entry_of(t2, k) == init_beads(successors.deep_view()));
                assert(entry_of(t2, k).len() > 0);
            }
        }
        match self.select_action(&state, &successors) {
            Ok(a) => Some(a),
            Err(_) => {
                proof {
                    assert(false);
                }
                None
            },
        }
    }

    /// Applies `delta` beads to every choice recorded in the episode, one
    /// application per occurrence and floored at `MIN_COUNT`, then clears
    /// the episode record.
    pub fn train(&mut self, delta: i32)
        requires
            old(self).wf(),
        ensures
            final(self).wf(),
            final(self).table() == adjust_all(
                old(self).table(),
                old(self).episode_view(),
                delta as int,
            ),
            final(self).episode_view().len() == 0,
    {
        let ghost t0 = self.table();
        let ghost ep0 = self.episode_view();
        let m = self.episode.len();
        proof {
            assert(ep0.skip(0) =~= ep0);
        }
        let mut i: usize = 0;
        while i < m
            invariant
                m == self.episode@.len(),
                i <= m,
                self.episode_view() == ep0,
                keys_distinct(self.table()),
                episode_valid(self.table(), ep0),
                adjust_all(t0, ep0, delta as int) == adjust_all(
                    self.table(),
                    ep0.skip(i as int),
                    delta as int,
                ),
            decreases m - i,
        {
            let k = self.episode[i].0.clone();
            let j = self.episode[i].1;
            let ghost tc = self.table();
            let ghost snap = *self;
            proof {
                assert(ep0[i as int] == (k@, j as int));
                assert(episode_entry_valid(tc, ep0[i as int]));
            }
            let n = self.beads.len();
            let mut ix: usize = 0;
            while ix < n && !(self.beads[ix].0 == k)
                invariant
                    *self == snap,
                    tc == self.table(),
                    has_key(tc, k@),
                    n == self.beads@.len(),
                    ix <= n,
                    forall|w: int| 0 <= w < ix ==> tc[w].0 != k@,
                decreases n - ix,
            {
                ix += 1;
            }
            proof {
                if ix == n {
                    let w = choose|w: int| 0 <= w < tc.len() && tc[w].0 == k@;
                    assert(tc[w].0 != k@);
                }
                assert(ix < n && tc[ix as int].0 == k@);
                lemma_idx_of(tc, k@, ix as int);
                assert(0 <= j < tc[ix as int].1.len());
            }
            let c = self.beads[ix].1[j].count;
            let wide: i128 = c as i128 + delta as i128;
            let floored: i128 = if wide < MIN_COUNT as i128 {
                MIN_COUNT as i128
            } else {
                wide
            };
            let capped: usize = if floored > usize::MAX as i128 {
                usize::MAX
            } else {
                floored as usize
            };
            proof {
                assert(capped as nat == clamp_count(c as int + delta as int));
            }
            self.beads[ix].1[j].count = capped;
            proof {
                let t_new = self.table();
                let e_old = tc[ix as int].1;
                let expected = tc.update(
                    ix as int,
                    (k@, e_old.update(j as int, adjust_bead(e_old[j as int], delta as int))),
                );
                assert forall|w: int| 0 <= w < t_new.len() implies t_new[w] == expected[w] by {
                    if w != ix {
                        assert(t_new[w].1 =~= tc[w].1);
                    } else {
                        assert(t_new[w].1 =~= e_old.update(
                            j as int,
                            adjust_bead(e_old[j as int], delta as int),
                        ));
                    }
                }
                assert(t_new =~= expected);
                assert(t_new == adjust_one(tc, k@, j as int, delta as int));
                lemma_adjust_one_shape(tc, k@, j as int, delta as int);
                lemma_same_shape_distinct(tc, t_new);
                assert forall|w: int|
                    0 <= w < ep0.len() implies episode_entry_valid(t_new, #[trigger] ep0[w]) by {
                    lemma_same_shape_valid(tc, t_new, ep0[w]);
                }
                let s = ep0.skip(i as int);
                assert(s[0] == ep0[i as int]);
                assert(s.skip(1) =~= ep0.skip(i as int + 1));
                assert(adjust_all(tc, s, delta as int) == adjust_all(
                    t_new,
                    ep0.skip(i as int + 1),
                    delta as int,
                ));
                assert(self.episode_view() =~= ep0);
            }
            i += 1;
        }
        proof {
            assert(ep0.skip(m as int) =~= Seq::<(Seq<char>, int)>::empty());
        }
        self.episode = Vec::new();
        proof {
            assert(self.episode_view() =~= Seq::<(Seq<char>, int)>::empty());
        }
    }

    /// How many states the table knows.
    pub fn state_count(&self) -> (n: usize)
        ensures
            n == self.table().len(),
    {
        self.beads.len()
    }

    /// How many choices the in-progress episode has recorded.
    pub fn episode_len(&self) -> (n: usize)
        ensures
            n == self.episode_view().len(),
    {
        self.episode.len()
    }

    /// The beads the table holds for `state`, when it knows that state.
    pub fn beads_of(&self, state: &String) -> (r: Option<&Vec<Bead>>)
        requires
            self.wf(),
        ensures
            r is Some <==> has_key(self.table(), state@),
            r matches Some(v) ==> beads_view(v@) == entry_of(self.table(), state@),
    {
        let n = self.beads.len();
        let mut i: usize = 0;
        while i < n
            invariant
                n == self.beads@.len(),
                i <= n,
                self.wf(),
                forall|j: int| 0 <= j < i ==> self.table()[j].0 != state@,
            decreases n - i,
        {
            if self.beads[i].0 == *state {
                proof {
                    assert(self.table()[i as int].0 == state@);
                    lemma_idx_of(self.table(), state@, i as int);
                }
                return Some(&self.beads[i].1);
            }
            i += 1;
        }
        proof {
            if has_key(self.table(), state@) {
                let w = choose|w: int|
                    0 <= w < self.table().len() && self.table()[w].0 == state@;
                assert(self.table()[w].0 != state@);
            }
        }
        None
    }

    /// Every count an engine actually holds fits the machine's count type.
    pub proof fn lemma_table_bounded(&self)
        ensures
            table_bounded(self.table()),
    {
        assert forall|i: int, j: int|
            0 <= i < self.table().len() && 0 <= j < self.table()[i].1.len() implies (
        #[trigger] self.table()[i].1[j]).count <= usize::MAX as nat by {
            assert(self.table()[i].1[j] == self.beads@[i].1@[j]@);
        }
    }

    /// The entries behind the engine, for the document writer.
    pub(crate) fn parts(&self) -> (r: &Vec<(String, Vec<Bead>)>)
        ensures
            table_view(r@) == self.table(),
    {
        &self.beads
    }

    /// An engine rebuilt from loaded entries, with a fresh episode.
    pub(crate) fn from_parts(beads: Vec<(String, Vec<Bead>)>) -> (m: Menace)
        requires
            keys_distinct(table_view(beads@)),
        ensures
            m.wf(),
            m.table() == table_view(beads@),
            m.episode_view().len() == 0,
    {
        let m = Menace { beads, episode: Vec::new() };
        proof {
            assert(m.episode_view() =~= Seq::<(Seq<char>, int)>::empty());
        }
        m
    }
}

} // verus!
