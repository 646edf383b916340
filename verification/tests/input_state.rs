use wordle_solver::input::{InputState, InputStates};
use wordle_solver::{Hint, Spot};

#[test]
fn main_new() {
    let actual = InputState::new(5);
    assert_eq!(actual.width, 5);
}

#[test]
fn main_valid() {
    let mut state = InputState::new(5);
    let actual = state.add_word("apple");
    assert!(actual.is_ok());
}

#[test]
fn main_invalid() {
    let mut state = InputState::new(5);
    let actual = state.add_word("banana");
    assert!(!actual.is_ok());
}

#[test]
fn add_hint_valid() {
    let mut state = InputState::new(5);
    state.add_word("bound").unwrap();
    let actual = state.add_hint("00120");
    assert!(actual.is_ok());
    assert_eq!(
        state.hint,
        vec![
            Hint::new('b', Spot::Nowhere()),
            Hint::new('o', Spot::Nowhere()),
            Hint::new('u', Spot::InWithout(2)),
            Hint::new('n', Spot::At(3)),
            Hint::new('d', Spot::Nowhere()),
        ]
    );
}

#[test]
fn main_invalid_nums() {
    let inputs = vec!["30120", "a0120", "001201"];
    for input in inputs {
        let mut state = InputState::new(5);
        state.add_word("apple").unwrap();
        let actual = state.add_hint(input);
        assert!(!actual.is_ok());
    }
}

#[test]
fn main_invalid_no_word() {
    let mut state = InputState::new(5);
    let actual = state.add_hint("00120");
    assert!(!actual.is_ok());
}

#[test]
fn add_word_error_message() {
    let mut state = InputState::new(5);
    assert_eq!(state.add_word("banana"), Err("invalid word length"));
}

#[test]
fn add_hint_error_messages() {
    let mut state = InputState::new(5);
    assert_eq!(state.add_hint("00120"), Err("add word before"));
    state.add_word("bound").unwrap();
    assert_eq!(state.add_hint("0012"), Err("invalid length"));
    assert_eq!(state.add_hint("00x20"), Err("input must be 0,1,2"));
    // Parsing stops at the bad digit: the two hints before it stay.
    assert_eq!(
        state.hint,
        vec![Hint::new('b', Spot::Nowhere()), Hint::new('o', Spot::Nowhere())]
    );
}

#[test]
fn get_before_word_fails() {
    let state = InputState::new(5);
    assert_eq!(state.get(), Err("word are empty"));
}

#[test]
fn get_before_hints_fails() {
    let mut state = InputState::new(5);
    state.add_word("bound").unwrap();
    assert_eq!(state.get(), Err("hints are empty"));
}

#[test]
fn get_returns_word_and_hints() {
    let mut state = InputState::new(5);
    state.add_word("bound").unwrap();
    state.add_hint("00120").unwrap();
    let (word, hints) = state.get().unwrap();
    assert_eq!(word, "bound");
    assert_eq!(hints, state.hint);
}

#[test]
fn draft_state_tracking() {
    let mut state = InputState::new(5);
    assert!(!state.is_draft());
    state.add_word("bound").unwrap();
    assert!(state.is_draft());
    assert_eq!(state.word(), Some(&"bound".to_string()));
    state.add_hint("00120").unwrap();
    assert!(!state.is_draft());
}

#[test]
fn correct_round_is_no_draft() {
    let mut state = InputState::new(5);
    state.add_word("bound").unwrap();
    state.correct();
    assert!(!state.is_draft());
}

#[test]
fn pretty_preview() {
    let target = InputStates::new(5, 6);
    let actual = target.pretty_preview(&[
        "ABCDE".to_string(),
        "FGHIJ".to_string(),
        "KLMNO".to_string(),
    ]);
    assert_eq!(
        actual,
        r#"+-----+
|ABCDE|
|FGHIJ|
|KLMNO|
|     |
|     |
|     |
+-----+"#
    )
}

#[test]
fn round_progression() {
    let mut states = InputStates::new(5, 6);
    assert_eq!(states.round_count, 0);
    assert!(!states.is_final_round());
    for _ in 0..5 {
        states.increment_round();
    }
    assert_eq!(states.round_count, 5);
    assert!(states.is_final_round());
}

#[test]
fn states_keep_added_rounds() {
    let mut states = InputStates::new(5, 6);
    let mut state = InputState::new(5);
    state.add_word("bound").unwrap();
    states.add(state);
    assert_eq!(states.states.len(), 1);
    assert_eq!(states.states[0].word(), Some(&"bound".to_string()));
}
