//! The tic-tac-toe board: state flattening, legal moves, win and draw tests.

use vstd::prelude::*;

use crate::symbol::{char_of_symbol, symbol_of_char, Symbol};

verus! {

/// A 3x3 board, stored row by row as nine cells.
pub struct TicTacToe {
    board: Vec<Symbol>,
}

/// The board every game starts from: nine empty cells.
pub open spec fn empty_board() -> Seq<Symbol> {
    Seq::new(9, |i: int| Symbol::Empty)
}

/// The flattened form of a board: one character per cell, row by row.
pub open spec fn flat_view(b: Seq<Symbol>) -> Seq<char> {
    Seq::new(b.len(), |i: int| char_of_symbol(b[i]))
}

/// The refusal message for a move onto an occupied cell.
pub open spec fn place_error_msg(d: nat) -> Seq<char> {
    seq!['\''] + seq![crate::codec::digit_char(d)] + "' is not an empty space!"@
}

/// Whether `p` holds all three cells of one line.
pub open spec fn line_won(b: Seq<Symbol>, p: Symbol, i: int, j: int, k: int) -> bool {
    b[i] == p && b[j] == p && b[k] == p
}

/// Whether `p` holds a full row, column or diagonal.
pub open spec fn winning(b: Seq<Symbol>, p: Symbol) -> bool {
    ||| line_won(b, p, 0, 1, 2)
    ||| line_won(b, p, 3, 4, 5)
    ||| line_won(b, p, 6, 7, 8)
    ||| line_won(b, p, 0, 3, 6)
    ||| line_won(b, p, 1, 4, 7)
    ||| line_won(b, p, 2, 5, 8)
    ||| line_won(b, p, 0, 4, 8)
    ||| line_won(b, p, 2, 4, 6)
}

/// Whether every cell is occupied.
pub open spec fn full(b: Seq<Symbol>) -> bool {
    forall|i: int| 0 <= i < b.len() ==> b[i] != Symbol::Empty
}

/// Whether the game at board `b` is over: someone won, or the board is full.
pub open spec fn terminal(b: Seq<Symbol>) -> bool {
    winning(b, Symbol::X) || winning(b, Symbol::O) || full(b)
}

/// The indices of the empty cells among the first `n`, in ascending order.
pub open spec fn legal_moves_upto(b: Seq<Symbol>, n: int) -> Seq<u8>
    decreases n,
{
    if n <= 0 {
        Seq::empty()
    } else {
        legal_moves_upto(b, n - 1) + if b[n - 1] == Symbol::Empty {
            seq![(n - 1) as u8]
        } else {
            Seq::empty()
        }
    }
}

/// The indices of the empty cells of a board, in ascending order.
pub open spec fn legal_moves_of(b: Seq<Symbol>) -> Seq<u8> {
    legal_moves_upto(b, 9)
}

/// The flattened successor states: one per legal move, that move played by `p`.
pub open spec fn next_states_of(b: Seq<Symbol>, p: Symbol) -> Seq<Seq<char>> {
    legal_moves_of(b).map_values(|m: u8| flat_view(b.update(m as int, p)))
}

/// Every empty cell below `n` is listed by `legal_moves_upto`.
pub proof fn lemma_legal_moves_complete(b: Seq<Symbol>, n: int, i: int)
    requires
        0 <= i < n,
        b[i] == Symbol::Empty,
    ensures
        legal_moves_upto(b, n).contains(i as u8),
    decreases n,
{
    if i == n - 1 {
        assert(legal_moves_upto(b, n)[legal_moves_upto(b, n).len() - 1] == i as u8);
    } else {
        lemma_legal_moves_complete(b, n - 1, i);
        let s = legal_moves_upto(b, n - 1);
        let k = choose|k: int| 0 <= k < s.len() && s[k] == i as u8;
        assert(legal_moves_upto(b, n)[k] == i as u8);
    }
}

/// A board that is not full has at least one legal move.
pub proof fn lemma_not_full_has_move(b: Seq<Symbol>)
    requires
        b.len() == 9,
        !full(b),
    ensures
        legal_moves_of(b).len() > 0,
{
    let i = choose|i: int| 0 <= i < 9 && b[i] == Symbol::Empty;
    lemma_legal_moves_complete(b, 9, i);
}

impl TicTacToe {
    /// The cells of the board, row by row.
    pub closed spec fn board_view(&self) -> Seq<Symbol> {
        self.board@
    }

    /// A board is well formed when it has exactly nine cells.
    pub open spec fn wf(&self) -> bool {
        self.board_view().len() == 9
    }

    /// A fresh game: all nine cells empty.
    pub fn new() -> (t: Self)
        ensures
            t.wf(),
            t.board_view() =~= empty_board(),
    {
        let mut board: Vec<Symbol> = Vec::new();
        let mut i: usize = 0;
        while i < 9
            invariant
                i <= 9,
                board@ =~= Seq::new(i as nat, |j: int| Symbol::Empty),
            decreases 9 - i,
        {
            board.push(Symbol::Empty);
            i += 1;
        }
        TicTacToe { board }
    }

    /// Resets the game to its initial state.
    pub fn reset(&mut self)
        ensures
            final(self).wf(),
            final(self).board_view() =~= empty_board(),
    {
        *self = Self::new();
    }

    /// Forces the game to the state written in `flat_state`; cells beyond
    /// its end keep what they held.
    pub fn from_state(&mut self, flat_state: &String)
        requires
            old(self).wf(),
            flat_state@.len() <= 9,
        ensures
            final(self).wf(),
            forall|i: int|
                0 <= i < flat_state@.len() ==> final(self).board_view()[i] == symbol_of_char(
                    flat_state@[i]),
            forall|i: int|
                flat_state@.len() <= i < 9 ==> final(self).board_view()[i] == old(self).board_view()[i],
    {
        let s = flat_state.as_str();
        let n = s.unicode_len();
        let mut i: usize = 0;
        while i < n
            invariant
                old(self).wf(),
                self.wf(),
                n == s@.len() <= 9,
                i <= n,
                forall|j: int| 0 <= j < i ==> self.board_view()[j] == symbol_of_char(s@[j]),
                forall|j: int| i <= j < 9 ==> self.board_view()[j] == old(self).board_view()[j],
            decreases n - i,
        {
            let c = s.get_char(i);
            self.board[i] = Symbol::from_char(c);
            i += 1;
        }
    }

    /// Places `piece` on cell `action`; refused when the cell is occupied.
    pub fn place_piece(&mut self, piece: Symbol, action: u8) -> (r: Result<(), String>)
        requires
            old(self).wf(),
            action < 9,
        ensures
            final(self).wf(),
            old(self).board_view()[action as int] != Symbol::Empty ==> (r matches Err(m)
                && m@ == place_error_msg(action as nat) && final(self).board_view() == old(
                self,
            ).board_view()),
            old(self).board_view()[action as int] == Symbol::Empty ==> r is Ok && final(self).board_view() == old(self).board_view().update(action as int, piece),
    {
        if self.board[action as usize] != Symbol::Empty {
            let mut msg = String::new();
            msg.push('\'');
            msg.push(crate::codec::digit_char_of(action as usize));
            msg.append("' is not an empty space!");
            proof {
                assert(msg@ =~= place_error_msg(action as nat));
            }
            return Err(msg);
        }
        self.board[action as usize] = piece;
        Ok(())
    }

    /// The flattened states reachable by one legal move of `piece`.
    pub fn next_states(&self, piece: Symbol) -> (r: Vec<String>)
        requires
            self.wf(),
        ensures
            r.deep_view() =~= next_states_of(self.board_view(), piece),
    {
        let moves = self.legal_moves();
        let mut r: Vec<String> = Vec::new();
        let mut i: usize = 0;
        while i < moves.len()
            invariant
                self.wf(),
                moves@ == legal_moves_of(self.board_view()),
                forall|j: int| 0 <= j < moves@.len() ==> moves@[j] < 9,
                i <= moves@.len(),
                r@.len() == i,
                forall|j: int|
                    0 <= j < i ==> r@[j]@ == next_states_of(self.board_view(), piece)[j],
            decreases moves@.len() - i,
        {
            let m = moves[i];
            let mut board: Vec<Symbol> = Vec::new();
            let mut k: usize = 0;
            while k < 9
                invariant
                    self.wf(),
                    m < 9,
                    k <= 9,
                    board@ =~= self.board_view().update(m as int, piece).take(k as int),
                decreases 9 - k,
            {
                if k == m as usize {
                    board.push(piece);
                } else {
                    board.push(self.board[k]);
                }
                k += 1;
            }
            assert(board@ =~= self.board_view().update(m as int, piece));
            r.push(flat_of(&board));
            proof {
                let ns = next_states_of(self.board_view(), piece);
                assert(ns[i as int] == flat_view(self.board_view().update(m as int, piece)));
                assert(r@[i as int]@ == ns[i as int]);
            }
            i += 1;
        }
        proof {
            let ns = next_states_of(self.board_view(), piece);
            assert forall|j: int| 0 <= j < ns.len() implies r.deep_view()[j] == ns[j] by {
                assert(r.deep_view()[j] == r@[j]@);
            }
            assert(r.deep_view() =~= ns);
        }
        r
    }

    /// Whether `piece` has three in a row, column or diagonal.
    pub fn is_winner(&self, piece: Symbol) -> (r: bool)
        requires
            self.wf(),
        ensures
            r == winning(self.board_view(), piece),
    {
        let b = &self.board;
        (b[0] == piece && b[1] == piece && b[2] == piece) || (b[3] == piece && b[4] == piece && b[5]
            == piece) || (b[6] == piece && b[7] == piece && b[8] == piece) || (b[0] == piece && b[3]
            == piece && b[6] == piece) || (b[1] == piece && b[4] == piece && b[7] == piece) || (b[2]
            == piece && b[5] == piece && b[8] == piece) || (b[0] == piece && b[4] == piece && b[8]
            == piece) || (b[2] == piece && b[4] == piece && b[6] == piece)
    }

    /// Whether the game has ended with every cell occupied.
    pub fn is_draw(&self) -> (r: bool)
        requires
            self.wf(),
        ensures
            r == full(self.board_view()),
    {
        let mut i: usize = 0;
        while i < 9
            invariant
                self.wf(),
                i <= 9,
                forall|j: int| 0 <= j < i ==> self.board_view()[j] != Symbol::Empty,
            decreases 9 - i,
        {
            if self.board[i] == Symbol::Empty {
                return false;
            }
            i += 1;
        }
        true
    }

    /// The flattened string form of the board.
    pub fn flat(&self) -> (r: String)
        requires
            self.wf(),
        ensures
            r@ =~= flat_view(self.board_view()),
    {
        flat_of(&self.board)
    }

    /// The indices of the empty cells, in ascending order.
    pub fn legal_moves(&self) -> (r: Vec<u8>)
        requires
            self.wf(),
        ensures
            r@ == legal_moves_of(self.board_view()),
            forall|j: int| 0 <= j < r@.len() ==> r@[j] < 9,
    {
        let mut r: Vec<u8> = Vec::new();
        let mut i: usize = 0;
        while i < 9
            invariant
                self.wf(),
                i <= 9,
                r@ == legal_moves_upto(self.board_view(), i as int),
                forall|j: int| 0 <= j < r@.len() ==> r@[j] < 9,
            decreases 9 - i,
        {
            if self.board[i] == Symbol::Empty {
                r.push(i as u8);
            }
            assert(r@ =~= legal_moves_upto(self.board_view(), i + 1));
            i += 1;
        }
        r
    }
}

/// The flattened string form of a nine-cell board vector.
fn flat_of(board: &Vec<Symbol>) -> (r: String)
    ensures
        r@ =~= flat_view(board@),
{
    let mut r = String::new();
    let mut i: usize = 0;
    while i < board.len()
        invariant
            i <= board@.len(),
            r@ =~= flat_view(board@).take(i as int),
        decreases board@.len() - i,
    {
        r.push(board[i].as_char());
        assert(r@ =~= flat_view(board@).take(i + 1));
        i += 1;
    }
    r
}

} // verus!
