use menace::symbol::Symbol;
use menace::tictactoe::TicTacToe;

fn s(x: &str) -> String {
    x.to_string()
}

#[test]
fn fresh_board_is_empty() {
    let g = TicTacToe::new();
    assert_eq!(g.flat(), "---------");
    assert!(!g.is_draw());
    assert!(!g.is_winner(Symbol::X));
    assert!(!g.is_winner(Symbol::O));
    assert_eq!(g.legal_moves(), vec![0, 1, 2, 3, 4, 5, 6, 7, 8]);
}

#[test]
fn from_state_round_trips() {
    let mut g = TicTacToe::new();
    g.from_state(&s("XO-XO---X"));
    assert_eq!(g.flat(), "XO-XO---X");
}

#[test]
fn reset_clears_the_board() {
    let mut g = TicTacToe::new();
    g.from_state(&s("XXXOOOXXX"));
    g.reset();
    assert_eq!(g.flat(), "---------");
}

#[test]
fn place_piece_on_empty_cell_succeeds() {
    let mut g = TicTacToe::new();
    assert!(g.place_piece(Symbol::X, 4).is_ok());
    assert_eq!(g.flat(), "----X----");
}

#[test]
fn place_piece_on_occupied_cell_fails() {
    let mut g = TicTacToe::new();
    g.place_piece(Symbol::X, 4).unwrap();
    assert_eq!(
        g.place_piece(Symbol::O, 4),
        Err(s("'4' is not an empty space!"))
    );
    assert_eq!(g.flat(), "----X----");
}

#[test]
fn rows_win() {
    let mut g = TicTacToe::new();
    g.from_state(&s("XXX------"));
    assert!(g.is_winner(Symbol::X));
    g.from_state(&s("---OOO---"));
    assert!(g.is_winner(Symbol::O));
    g.from_state(&s("------XXX"));
    assert!(g.is_winner(Symbol::X));
}

#[test]
fn columns_win() {
    let mut g = TicTacToe::new();
    g.from_state(&s("X--X--X--"));
    assert!(g.is_winner(Symbol::X));
    g.from_state(&s("-O--O--O-"));
    assert!(g.is_winner(Symbol::O));
    g.from_state(&s("--X--X--X"));
    assert!(g.is_winner(Symbol::X));
}

#[test]
fn diagonals_win() {
    let mut g = TicTacToe::new();
    g.from_state(&s("X---X---X"));
    assert!(g.is_winner(Symbol::X));
    g.from_state(&s("--O-O-O--"));
    assert!(g.is_winner(Symbol::O));
}

#[test]
fn mixed_line_does_not_win() {
    let mut g = TicTacToe::new();
    g.from_state(&s("XXO------"));
    assert!(!g.is_winner(Symbol::X));
    assert!(!g.is_winner(Symbol::O));
}

#[test]
fn full_board_is_draw() {
    let mut g = TicTacToe::new();
    g.from_state(&s("XOXXOXOXO"));
    assert!(g.is_draw());
}

#[test]
fn partial_board_is_not_draw() {
    let mut g = TicTacToe::new();
    g.from_state(&s("XOXXOXOX-"));
    assert!(!g.is_draw());
}

#[test]
fn legal_moves_skip_occupied_cells() {
    let mut g = TicTacToe::new();
    g.from_state(&s("X---O---X"));
    assert_eq!(g.legal_moves(), vec![1, 2, 3, 5, 6, 7]);
}

#[test]
fn next_states_place_the_piece_on_each_free_cell() {
    let mut g = TicTacToe::new();
    g.from_state(&s("X---O----"));
    let states = g.next_states(Symbol::O);
    assert_eq!(states.len(), 7);
    assert_eq!(states[0], "XO--O----");
    assert_eq!(states[6], "X---O---O");
    for st in states.iter() {
        assert_eq!(st.chars().filter(|c| *c == 'O').count(), 2);
        assert_eq!(st.chars().filter(|c| *c == 'X').count(), 1);
    }
}

#[test]
fn symbol_characters_round_trip() {
    assert_eq!(Symbol::X.as_char(), 'X');
    assert_eq!(Symbol::O.as_char(), 'O');
    assert_eq!(Symbol::Empty.as_char(), '-');
    assert_eq!(Symbol::from_char('X'), Symbol::X);
    assert_eq!(Symbol::from_char('O'), Symbol::O);
    assert_eq!(Symbol::from_char('-'), Symbol::Empty);
    assert_eq!(Symbol::from_char('?'), Symbol::Empty);
}
