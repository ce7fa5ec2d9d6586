use goto::cli::{is_confirmation_accepted, join_words, Cli};

#[test]
fn purge_confirmation_accepts_yes_and_y() {
    assert!(is_confirmation_accepted("yes"));
    assert!(is_confirmation_accepted("Y"));
    assert!(is_confirmation_accepted("  Yes  "));
    assert!(!is_confirmation_accepted("no"));
}

#[test]
fn confirmation_rejects_other_answers() {
    assert!(is_confirmation_accepted("yes\n"));
    assert!(!is_confirmation_accepted(""));
    assert!(!is_confirmation_accepted("yess"));
    assert!(!is_confirmation_accepted("y es"));
}

#[test]
fn query_words_are_joined_with_spaces() {
    let cli = Cli { query: vec!["my".to_string(), "project".to_string()], auto: false, command: None };
    assert_eq!(cli.query_text(), "my project");
    assert_eq!(join_words(&vec![]), "");
    assert_eq!(join_words(&vec!["a".to_string()]), "a");
}
