use morsebot::MorseError;
use morsebot::player::{Action, Executor, State};

fn with_message(msg: &str) -> Executor {
    Executor::new().with_message(msg.to_string())
}

fn total_pause_units(acts: &[Action]) -> u64 {
    let mut total: u64 = 0;
    for a in acts {
        if let Action::Pause(u) = a {
            total += u;
        }
    }
    total
}

fn signal_states(acts: &[Action]) -> Vec<State> {
    let mut states = Vec::new();
    for a in acts {
        if let Action::Signal(s) = a {
            states.push(*s);
        }
    }
    states
}

#[test]
fn construction_rejects_zero_wpm() {
    assert!(matches!(
        Executor::new().with_wpm(0),
        Err(MorseError::InvalidWpm)
    ));
}

#[test]
fn unit_duration_follows_the_word_convention() {
    assert_eq!(Executor::wpm_to_unit(1), 1_200_000_000);
    assert_eq!(Executor::wpm_to_unit(15), 80_000_000);
    assert_eq!(Executor::wpm_to_unit(20), 60_000_000);
    assert_eq!(Executor::new().unit_nanos(), 60_000_000);
    let keyer = Executor::new().with_wpm(15).unwrap();
    assert_eq!(keyer.unit_nanos(), 80_000_000);
}

#[test]
fn builders_keep_the_rest_of_the_configuration() {
    let keyer = Executor::new()
        .with_message(".".to_string())
        .with_wpm(15)
        .unwrap()
        .with_message("-".to_string());
    assert_eq!(keyer.unit_nanos(), 80_000_000);
    assert_eq!(
        keyer.plan(),
        vec![
            Action::Signal(State::Down),
            Action::Pause(3),
            Action::Signal(State::Up),
        ]
    );
}

#[test]
fn a_dit_plays_for_one_unit() {
    let plan = with_message(".").plan();
    assert_eq!(
        plan,
        vec![
            Action::Signal(State::Down),
            Action::Pause(1),
            Action::Signal(State::Up),
        ]
    );
    assert_eq!(total_pause_units(&plan), 1);
}

#[test]
fn a_dah_plays_for_three_units() {
    for dah in ["-", "_"] {
        let plan = with_message(dah).plan();
        assert_eq!(
            plan,
            vec![
                Action::Signal(State::Down),
                Action::Pause(3),
                Action::Signal(State::Up),
            ]
        );
        assert_eq!(total_pause_units(&plan), 3);
    }
}

#[test]
fn symbols_within_a_character_pause_one_unit() {
    let plan = with_message("..").plan();
    assert_eq!(
        plan,
        vec![
            Action::Signal(State::Down),
            Action::Pause(1),
            Action::Signal(State::Up),
            Action::Pause(1),
            Action::Signal(State::Down),
            Action::Pause(1),
            Action::Signal(State::Up),
        ]
    );
}

#[test]
fn characters_pause_three_units_in_total() {
    let plan = with_message(". .").plan();
    assert_eq!(
        plan,
        vec![
            Action::Signal(State::Down),
            Action::Pause(1),
            Action::Signal(State::Up),
            Action::Pause(2),
            Action::Pause(1),
            Action::Signal(State::Down),
            Action::Pause(1),
            Action::Signal(State::Up),
        ]
    );
    // One unit on, three between, one on: five in total, never six.
    assert_eq!(total_pause_units(&plan), 5);
}

#[test]
fn words_pause_seven_units_in_total() {
    let plan = with_message(". / .").plan();
    assert_eq!(
        plan,
        vec![
            Action::Signal(State::Down),
            Action::Pause(1),
            Action::Signal(State::Up),
            Action::Pause(7),
            Action::Signal(State::Down),
            Action::Pause(1),
            Action::Signal(State::Up),
        ]
    );
    assert_eq!(total_pause_units(&plan), 9);
}

#[test]
fn the_sink_sees_two_calls_per_symbol_in_alternation() {
    // "... --- ..." holds nine symbols: eighteen transitions.
    let plan = with_message("... --- ...").plan();
    let states = signal_states(&plan);
    assert_eq!(states.len(), 18);
    for (i, s) in states.iter().enumerate() {
        if i % 2 == 0 {
            assert_eq!(*s, State::Down);
        } else {
            assert_eq!(*s, State::Up);
        }
    }
}

#[test]
fn separators_alone_emit_no_transitions() {
    let plan = with_message("/").plan();
    assert_eq!(plan, vec![Action::Pause(7)]);
    assert_eq!(signal_states(&plan).len(), 0);
}

#[test]
fn an_empty_message_plays_nothing() {
    assert_eq!(with_message("").plan(), Vec::<Action>::new());
}

#[test]
fn unknown_characters_in_a_token_are_skipped() {
    let plan = with_message(".x.").plan();
    assert_eq!(
        plan,
        vec![
            Action::Signal(State::Down),
            Action::Pause(1),
            Action::Signal(State::Up),
            Action::Pause(1),
            Action::Signal(State::Down),
            Action::Pause(1),
            Action::Signal(State::Up),
        ]
    );
}
