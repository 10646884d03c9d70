use type_sorter::prompt::{answer, is_yes, settle, wants_subdirectories};

#[test]
fn empty_line_gives_the_default() {
    assert_eq!(answer("", "y"), "y");
    assert_eq!(answer("\n", "y"), "y");
    assert_eq!(answer("   \t\r\n", "fallback"), "fallback");
}

#[test]
fn typed_line_is_trimmed() {
    assert_eq!(answer("  no \n", "y"), "no");
    assert_eq!(answer("Yes\n", "y"), "Yes");
    assert_eq!(answer("a b\n", "y"), "a b");
}

#[test]
fn settle_takes_the_line_as_it_is() {
    assert_eq!(settle("", "d"), "d");
    assert_eq!(settle(" ", "d"), " ");
    assert_eq!(settle("n", "d"), "n");
}

#[test]
fn yes_is_y_or_yes() {
    assert!(is_yes("y"));
    assert!(is_yes("yes"));
    assert!(!is_yes(""));
    assert!(!is_yes("n"));
    assert!(!is_yes("no"));
    assert!(!is_yes("yep"));
    assert!(!is_yes("yess"));
    assert!(!is_yes("Y"));
    assert!(!is_yes("ye"));
}

#[test]
fn answers_are_read_without_case_and_space() {
    assert!(wants_subdirectories("y"));
    assert!(wants_subdirectories(" YES \n"));
    assert!(wants_subdirectories("Yes"));
    assert!(!wants_subdirectories("n"));
    assert!(!wants_subdirectories(""));
    assert!(!wants_subdirectories("y e s"));
}
