use simcom_finder::aggregate::{summarize, Radix, Summary};
use simcom_finder::matcher::{block_satisfies, match_values};

fn block(vid: &str, mid: &str, tty: &str) -> String {
    format!("VID={}\nMID={}\nTTY={}\n", vid, mid, tty)
}

fn three_blocks() -> Vec<String> {
    vec![block("1e0e", "9001", "2"), block("1e0e", "9001", "3"), block("0000", "9001", "9")]
}

#[test]
fn criteria_select_the_blocks() {
    let criteria = vec![("VID", "1e0e"), ("MID", "9001")];
    let values = match_values(&three_blocks(), "TTY", Some(&criteria));
    assert_eq!(values, vec![String::from("2"), String::from("3")]);
    assert_eq!(summarize(&values, Radix::Decimal), Some(Summary { minimum: 2, count: 2 }));
}

#[test]
fn without_criteria_every_block_passes() {
    let all = vec![String::from("2"), String::from("3"), String::from("9")];
    assert_eq!(match_values(&three_blocks(), "TTY", None), all);
    let none: Vec<(&str, &str)> = Vec::new();
    assert_eq!(match_values(&three_blocks(), "TTY", Some(&none)), all);
}

#[test]
fn block_without_target_key_is_left_out() {
    let blocks = vec![
        block("1e0e", "9001", "2"),
        String::from("VID=1e0e\nMID=9001\n"),
        block("1e0e", "9001", "4"),
    ];
    let criteria = vec![("VID", "1e0e"), ("MID", "9001")];
    let values = match_values(&blocks, "TTY", Some(&criteria));
    assert_eq!(values, vec![String::from("2"), String::from("4")]);
}

#[test]
fn criterion_on_absent_key_fails() {
    let criteria = vec![("SERIAL", "1")];
    assert_eq!(match_values(&three_blocks(), "TTY", Some(&criteria)), Vec::<String>::new());
    assert!(!block_satisfies("VID=1e0e\n", &criteria));
}

#[test]
fn criterion_compares_exactly() {
    assert!(block_satisfies("VID=1e0e\n", &vec![("VID", "1e0e")]));
    assert!(!block_satisfies("VID=1E0E\n", &vec![("VID", "1e0e")]));
    assert!(!block_satisfies("VID=1e0e \n", &vec![("VID", "1e0e")]));
    assert!(!block_satisfies("VID=1e0\n", &vec![("VID", "1e0e")]));
}

#[test]
fn no_blocks_give_no_values() {
    let blocks: Vec<String> = Vec::new();
    assert_eq!(match_values(&blocks, "TTY", None), Vec::<String>::new());
    assert_eq!(summarize(&match_values(&blocks, "TTY", None), Radix::Decimal), None);
}
