use smudgy_panes::input_history::{load_input_history, save_input_history, HistoryError, HistoryRead};

#[test]
fn missing_history_is_empty() {
    assert!(load_input_history(HistoryRead::Missing).expect("missing is valid").is_empty());
}

#[test]
fn history_round_trips_newest_first() {
    let commands = vec!["say \u{17c}urek".to_string(), "north".to_string()];
    let stored = save_input_history(true, &commands).expect("save history");
    assert_eq!(load_input_history(HistoryRead::Parsed(stored)).expect("load history"), commands);
}

#[test]
fn malformed_history_is_reported() {
    assert_eq!(load_input_history(HistoryRead::Malformed).unwrap_err(), HistoryError::Malformed);
    assert_eq!(load_input_history(HistoryRead::Unreadable).unwrap_err(), HistoryError::Unreadable);
}

#[test]
fn save_does_not_create_a_missing_profile() {
    assert_eq!(
        save_input_history(false, &["look".to_string()]).unwrap_err(),
        HistoryError::MissingProfile
    );
}
