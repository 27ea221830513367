use menace::adjust::Adjust;
use menace::menace::{
    Menace, MenaceError, DRAW_REWARD, INITIAL_COUNT, LOSE_REWARD, MIN_COUNT, WIN_REWARD,
};
use menace::symbol::Symbol;
use menace::tictactoe::TicTacToe;

fn s(x: &str) -> String {
    x.to_string()
}

#[test]
fn first_choice_initializes_and_win_adjusts() {
    let mut m = Menace::new();
    let state = s("S0");
    let actions = vec![s("A"), s("B"), s("C")];
    let chosen = m.select_action(&state, &actions).unwrap();
    assert!(actions.contains(&chosen));
    {
        let beads = m.beads_of(&state).unwrap();
        assert_eq!(beads.len(), 3);
        assert_eq!(beads[0].next_state, "A");
        assert_eq!(beads[1].next_state, "B");
        assert_eq!(beads[2].next_state, "C");
        for b in beads.iter() {
            assert_eq!(b.count, INITIAL_COUNT);
        }
    }
    assert_eq!(m.episode_len(), 1);
    m.train(WIN_REWARD);
    assert_eq!(m.episode_len(), 0);
    let beads = m.beads_of(&state).unwrap();
    for b in beads.iter() {
        if b.next_state == chosen {
            assert_eq!(b.count, INITIAL_COUNT + 3);
        } else {
            assert_eq!(b.count, INITIAL_COUNT);
        }
    }
}

#[test]
fn starved_state_still_selects() {
    let doc = "{\"S1\":[{\"next_state\":\"A\",\"count\":0},{\"next_state\":\"B\",\"count\":0}]}";
    let mut m = Menace::load(doc).unwrap();
    let mut saw_a = false;
    let mut saw_b = false;
    for _ in 0..200 {
        let r = m.select_action(&s("S1"), &vec![s("A"), s("B")]).unwrap();
        assert!(r == "A" || r == "B");
        if r == "A" {
            saw_a = true;
        } else {
            saw_b = true;
        }
    }
    assert!(saw_a && saw_b);
}

#[test]
fn zero_weight_action_is_never_picked_while_others_have_weight() {
    let doc = "{\"S0\":[{\"next_state\":\"A\",\"count\":5},{\"next_state\":\"B\",\"count\":0}]}";
    let mut m = Menace::load(doc).unwrap();
    for _ in 0..100 {
        let r = m.select_action(&s("S0"), &vec![s("A"), s("B")]).unwrap();
        assert_eq!(r, "A");
    }
}

#[test]
fn ensure_state_ignores_second_action_list() {
    let mut m = Menace::new();
    let state = s("S0");
    m.ensure_state(&state, &vec![s("A"), s("B")]);
    m.ensure_state(&state, &vec![s("C")]);
    let beads = m.beads_of(&state).unwrap();
    assert_eq!(beads.len(), 2);
    assert_eq!(beads[0].next_state, "A");
    assert_eq!(beads[1].next_state, "B");
    assert_eq!(beads[0].count, INITIAL_COUNT);
    assert_eq!(beads[1].count, INITIAL_COUNT);
}

#[test]
fn train_clears_episode_and_second_train_is_noop() {
    let mut m = Menace::new();
    m.select_action(&s("S0"), &vec![s("A"), s("B")]).unwrap();
    m.train(WIN_REWARD);
    assert_eq!(m.episode_len(), 0);
    let before = m.save().unwrap();
    m.train(WIN_REWARD);
    let after = m.save().unwrap();
    assert_eq!(before, after);
    assert_eq!(m.episode_len(), 0);
}

#[test]
fn episodes_adjust_independently() {
    let doc = "{\"S0\":[{\"next_state\":\"A\",\"count\":5},{\"next_state\":\"B\",\"count\":0}],\"S2\":[{\"next_state\":\"C\",\"count\":7}]}";
    let mut m = Menace::load(doc).unwrap();
    let first = m.select_action(&s("S0"), &vec![s("A"), s("B")]).unwrap();
    assert_eq!(first, "A");
    m.train(LOSE_REWARD);
    assert_eq!(m.beads_of(&s("S0")).unwrap()[0].count, 4);
    let second = m.select_action(&s("S2"), &vec![s("C")]).unwrap();
    assert_eq!(second, "C");
    m.train(WIN_REWARD);
    let s0 = m.beads_of(&s("S0")).unwrap();
    assert_eq!(s0[0].count, 4);
    assert_eq!(s0[1].count, 0);
    assert_eq!(m.beads_of(&s("S2")).unwrap()[0].count, 10);
}

#[test]
fn adjustment_never_goes_below_floor() {
    let mut m = Menace::new();
    let chosen = m.select_action(&s("S0"), &vec![s("A")]).unwrap();
    assert_eq!(chosen, "A");
    m.train(-100);
    assert_eq!(m.beads_of(&s("S0")).unwrap()[0].count, MIN_COUNT);
}

#[test]
fn repeated_losses_stay_at_floor() {
    let mut m = Menace::new();
    for _ in 0..10 {
        m.select_action(&s("S0"), &vec![s("A")]).unwrap();
        m.train(LOSE_REWARD);
    }
    assert_eq!(m.beads_of(&s("S0")).unwrap()[0].count, MIN_COUNT);
}

#[test]
fn duplicate_episode_entries_adjust_per_occurrence() {
    let mut m = Menace::new();
    m.select_action(&s("S0"), &vec![s("A")]).unwrap();
    m.select_action(&s("S0"), &vec![s("A")]).unwrap();
    assert_eq!(m.episode_len(), 2);
    m.train(WIN_REWARD);
    assert_eq!(m.beads_of(&s("S0")).unwrap()[0].count, INITIAL_COUNT + 6);
}

#[test]
fn selection_on_actionless_state_fails() {
    let mut m = Menace::new();
    m.ensure_state(&s("T"), &vec![]);
    assert_eq!(
        m.select_action(&s("T"), &vec![]),
        Err(MenaceError::NoLegalActions)
    );
    assert_eq!(m.episode_len(), 0);
}

#[test]
fn step_on_fresh_game_moves_once() {
    let g = TicTacToe::new();
    let mut m = Menace::new();
    let r = m.step(&g, Symbol::O).unwrap();
    assert_eq!(r.chars().count(), 9);
    assert_eq!(r.chars().filter(|c| *c == 'O').count(), 1);
    assert_eq!(r.chars().filter(|c| *c == '-').count(), 8);
    assert_eq!(m.episode_len(), 1);
    assert_eq!(m.state_count(), 1);
}

#[test]
fn step_on_finished_game_returns_none() {
    let mut g = TicTacToe::new();
    g.from_state(&s("XXX------"));
    assert!(g.is_winner(Symbol::X));
    let mut m = Menace::new();
    assert!(m.step(&g, Symbol::O).is_none());
    assert_eq!(m.state_count(), 0);
    assert_eq!(m.episode_len(), 0);
}

#[test]
fn step_on_drawn_game_returns_none() {
    let mut g = TicTacToe::new();
    g.from_state(&s("XOXXOXOXO"));
    let mut m = Menace::new();
    assert!(m.step(&g, Symbol::X).is_none());
}

#[test]
fn adjust_factors_match_the_rewards() {
    assert_eq!(Adjust::WIN.delta(), WIN_REWARD);
    assert_eq!(Adjust::LOSE.delta(), LOSE_REWARD);
    assert_eq!(Adjust::DRAW.delta(), DRAW_REWARD);
    assert_eq!(WIN_REWARD, 3);
    assert_eq!(LOSE_REWARD, -1);
    assert_eq!(DRAW_REWARD, 1);
}
