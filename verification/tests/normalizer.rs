use stick_path::notation::replace_chars;
use stick_path::notation::tokenize;

#[test]
fn test_replacement() {
    let simple_replacement = "|--|";
    assert_eq!(replace_chars(simple_replacement), "> <");
    let left_replacement = "| ||>|<|";
    let right_replacement = "| |>|<";
    assert_eq!(replace_chars(left_replacement), right_replacement);
}

#[test]
fn test_no_replacement() {
    let no_replacement = "|-|-|< | >";
    assert_eq!(replace_chars(no_replacement), no_replacement);
}

#[test]
fn test_single_dashes_and_spaced_angles_untouched() {
    assert_eq!(replace_chars(""), "");
    assert_eq!(replace_chars("| | |"), "| | |");
    assert_eq!(replace_chars("- - -"), "- - -");
}

#[test]
fn test_full_row_normalization() {
    assert_eq!(replace_chars("|--| |"), "> < |");
    assert_eq!(replace_chars("| |--|"), "| > <");
    assert_eq!(replace_chars("|--|--|"), "> <> <");
}

#[test]
fn test_tokenize_splits_on_whitespace() {
    let tokens = tokenize("> < |");
    assert_eq!(tokens, vec![">".to_string(), "<".to_string(), "|".to_string()]);
    let tokens = tokenize("  ab \t cd\n");
    assert_eq!(tokens, vec!["ab".to_string(), "cd".to_string()]);
    let empty: Vec<String> = Vec::new();
    assert_eq!(tokenize("   "), empty);
    assert_eq!(tokenize(""), empty);
}
