use dedup::is_hidden;
use dedup::normalize;

#[test]
fn strips_enumeration_with_extension() {
    assert_eq!(normalize("report (2).pdf"), "report.pdf");
}

#[test]
fn plain_name_unchanged() {
    assert_eq!(normalize("report.pdf"), "report.pdf");
}

#[test]
fn strips_enumeration_without_extension() {
    assert_eq!(normalize("report (12)"), "report");
}

#[test]
fn empty_base_never_matches() {
    assert_eq!(normalize("(3).txt"), "(3).txt");
}

#[test]
fn no_space_before_parenthesis() {
    assert_eq!(normalize("a(1)"), "a");
}

#[test]
fn several_spaces_before_parenthesis() {
    assert_eq!(normalize("photo  \t(7).jpg"), "photo.jpg");
}

#[test]
fn only_final_parenthesized_group_is_stripped() {
    assert_eq!(normalize("a (2) (3)"), "a (2)");
}

#[test]
fn extension_must_follow_parenthesis_directly() {
    assert_eq!(normalize("a (2) .txt"), "a (2) .txt");
}

#[test]
fn dotted_double_extension_is_no_match() {
    assert_eq!(normalize("a (2).tar.gz"), "a (2).tar.gz");
}

#[test]
fn empty_parentheses_are_no_match() {
    assert_eq!(normalize("a ()"), "a ()");
}

#[test]
fn zero_is_not_an_enumeration() {
    assert_eq!(normalize("report (0).pdf"), "report (0).pdf");
}

#[test]
fn all_zeros_are_no_match() {
    assert_eq!(normalize("a (00)"), "a (00)");
}

#[test]
fn leading_zeros_of_a_positive_number_match() {
    assert_eq!(normalize("report (01).pdf"), "report.pdf");
}

#[test]
fn trailing_zeros_of_a_positive_number_match() {
    assert_eq!(normalize("a (10)"), "a");
}

#[test]
fn letters_in_parentheses_are_no_match() {
    assert_eq!(normalize("a (x2).txt"), "a (x2).txt");
}

#[test]
fn hidden_name_still_normalizes() {
    assert_eq!(normalize(".hidden (2).txt"), ".hidden.txt");
}

#[test]
fn empty_name_unchanged() {
    assert_eq!(normalize(""), "");
}

#[test]
fn idempotent_on_plain_results() {
    let once = normalize("report (2).pdf");
    assert_eq!(normalize(&once), once);
    let once = normalize("photo (1).jpg");
    assert_eq!(normalize(&once), once);
    let once = normalize("b.txt");
    assert_eq!(normalize(&once), once);
}

#[test]
fn repeated_suffixes_take_two_passes() {
    let once = normalize("a (1) (2)");
    assert_eq!(once, "a (1)");
    assert_eq!(normalize(&once), "a");
}

#[test]
fn hidden_entries_start_with_a_dot() {
    assert!(is_hidden(".hidden (2).txt"));
    assert!(is_hidden("."));
    assert!(!is_hidden("visible.txt"));
    assert!(!is_hidden(""));
}
