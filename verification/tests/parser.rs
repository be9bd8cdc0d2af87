use simcom_finder::parser::get_single_property;

fn text(s: &str) -> Option<String> {
    Some(String::from(s))
}

#[test]
fn value_of_a_middle_key() {
    let block = "A=1\nB=22\nC=333\n";
    assert_eq!(get_single_property(block, "B"), text("22"));
}

#[test]
fn absent_key_has_no_value() {
    let block = "A=1\nB=22\nC=333\n";
    assert_eq!(get_single_property(block, "Z"), None);
}

#[test]
fn value_of_first_and_last_key() {
    let block = "A=1\nB=22\nC=333\n";
    assert_eq!(get_single_property(block, "A"), text("1"));
    assert_eq!(get_single_property(block, "C"), text("333"));
}

#[test]
fn value_without_closing_newline_is_absent() {
    assert_eq!(get_single_property("A=1\nB=22", "B"), None);
}

#[test]
fn key_at_the_very_end_is_absent() {
    assert_eq!(get_single_property("A=1\nB", "B"), None);
    assert_eq!(get_single_property("A=1\nB=", "B"), None);
}

#[test]
fn empty_value_is_present() {
    assert_eq!(get_single_property("A=\nB=2\n", "A"), text(""));
}

#[test]
fn value_is_not_trimmed_or_folded() {
    assert_eq!(get_single_property("KEY= Mixed Case \n", "KEY"), text(" Mixed Case "));
    assert_eq!(get_single_property("KEY=1\n", "key"), None);
}

#[test]
fn first_occurrence_of_the_key_counts() {
    assert_eq!(get_single_property("K=1\nK=2\n", "K"), text("1"));
}

#[test]
fn value_begins_after_the_next_equals_sign() {
    // The key is found as a prefix of a longer name; the value is what
    // follows the next `=`.
    assert_eq!(get_single_property("ID_VENDOR_ID=1e0e\n", "ID_VENDOR"), text("1e0e"));
}

#[test]
fn value_may_hold_an_equals_sign() {
    assert_eq!(get_single_property("A=b=c\n", "A"), text("b=c"));
}

#[test]
fn empty_block_has_no_value() {
    assert_eq!(get_single_property("", "A"), None);
}

#[test]
fn non_ascii_text_is_handled_by_characters() {
    assert_eq!(get_single_property("NÄME=wörld\nB=2\n", "NÄME"), text("wörld"));
    assert_eq!(get_single_property("NÄME=wörld\nB=2\n", "B"), text("2"));
}
