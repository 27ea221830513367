use menace::menace::{Menace, MenaceError, INITIAL_COUNT, WIN_REWARD};

fn s(x: &str) -> String {
    x.to_string()
}

#[test]
fn fresh_engine_saves_as_empty_document() {
    let m = Menace::new();
    assert_eq!(m.save().unwrap(), "{}");
}

#[test]
fn single_entry_document_is_exact() {
    let mut m = Menace::new();
    m.ensure_state(&s("S"), &vec![s("A")]);
    assert_eq!(INITIAL_COUNT, 3);
    assert_eq!(
        m.save().unwrap(),
        "{\"S\":[{\"next_state\":\"A\",\"count\":3}]}"
    );
}

#[test]
fn save_then_load_reproduces_the_table() {
    let mut m = Menace::new();
    m.select_action(&s("S0"), &vec![s("A"), s("B"), s("C")]).unwrap();
    m.train(WIN_REWARD);
    m.select_action(&s("S1"), &vec![s("D")]).unwrap();
    m.train(-1);
    let written = m.save().unwrap();
    let m2 = Menace::load(&written).unwrap();
    assert_eq!(m2.save().unwrap(), written);
    assert_eq!(m2.state_count(), m.state_count());
    assert_eq!(m2.episode_len(), 0);
    let b1 = m.beads_of(&s("S0")).unwrap();
    let b2 = m2.beads_of(&s("S0")).unwrap();
    assert_eq!(b1.len(), b2.len());
    for (x, y) in b1.iter().zip(b2.iter()) {
        assert_eq!(x.next_state, y.next_state);
        assert_eq!(x.count, y.count);
    }
}

#[test]
fn empty_document_loads_as_empty_table() {
    let m = Menace::load("{}").unwrap();
    assert_eq!(m.state_count(), 0);
    assert_eq!(m.episode_len(), 0);
}

#[test]
fn entry_with_no_beads_round_trips() {
    let m = Menace::load("{\"S\":[]}").unwrap();
    assert_eq!(m.state_count(), 1);
    assert_eq!(m.beads_of(&s("S")).unwrap().len(), 0);
    assert_eq!(m.save().unwrap(), "{\"S\":[]}");
}

#[test]
fn empty_text_is_rejected() {
    assert!(matches!(
        Menace::load(""),
        Err(MenaceError::MalformedDocument)
    ));
}

#[test]
fn truncated_document_is_rejected() {
    assert!(matches!(
        Menace::load("{"),
        Err(MenaceError::MalformedDocument)
    ));
    assert!(matches!(
        Menace::load("{\"S\":[{\"next_state\":\"A\",\"count\":3}]"),
        Err(MenaceError::MalformedDocument)
    ));
}

#[test]
fn wrong_top_level_shape_is_rejected() {
    assert!(matches!(
        Menace::load("[]"),
        Err(MenaceError::MalformedDocument)
    ));
    assert!(matches!(
        Menace::load("null"),
        Err(MenaceError::MalformedDocument)
    ));
}

#[test]
fn negative_count_is_rejected() {
    assert!(matches!(
        Menace::load("{\"S\":[{\"next_state\":\"A\",\"count\":-1}]}"),
        Err(MenaceError::MalformedDocument)
    ));
}

#[test]
fn wrong_field_name_is_rejected() {
    assert!(matches!(
        Menace::load("{\"S\":[{\"nextstate\":\"A\",\"count\":1}]}"),
        Err(MenaceError::MalformedDocument)
    ));
}

#[test]
fn missing_count_field_is_rejected() {
    assert!(matches!(
        Menace::load("{\"S\":[{\"next_state\":\"A\"}]}"),
        Err(MenaceError::MalformedDocument)
    ));
}

#[test]
fn non_numeric_count_is_rejected() {
    assert!(matches!(
        Menace::load("{\"S\":[{\"next_state\":\"A\",\"count\":\"3\"}]}"),
        Err(MenaceError::MalformedDocument)
    ));
}

#[test]
fn oversized_count_is_rejected() {
    assert!(matches!(
        Menace::load("{\"S\":[{\"next_state\":\"A\",\"count\":99999999999999999999999}]}"),
        Err(MenaceError::MalformedDocument)
    ));
}

#[test]
fn duplicate_states_are_rejected() {
    assert!(matches!(
        Menace::load("{\"S\":[],\"S\":[]}"),
        Err(MenaceError::MalformedDocument)
    ));
}

#[test]
fn trailing_text_is_rejected() {
    assert!(matches!(
        Menace::load("{} "),
        Err(MenaceError::MalformedDocument)
    ));
    assert!(matches!(
        Menace::load("{}{}"),
        Err(MenaceError::MalformedDocument)
    ));
}

#[test]
fn escape_sequences_are_rejected() {
    assert!(matches!(
        Menace::load("{\"a\\\\b\":[]}"),
        Err(MenaceError::MalformedDocument)
    ));
}

#[test]
fn unencodable_state_fails_save_distinctly() {
    let mut m = Menace::new();
    m.ensure_state(&s("a\"b"), &vec![s("A")]);
    assert_eq!(m.save(), Err(MenaceError::UnencodableState));
}

#[test]
fn large_count_round_trips() {
    let doc = "{\"S\":[{\"next_state\":\"A\",\"count\":18446744073709551615}]}";
    let m = Menace::load(doc).unwrap();
    assert_eq!(m.beads_of(&s("S")).unwrap()[0].count, usize::MAX);
    assert_eq!(m.save().unwrap(), doc);
}
