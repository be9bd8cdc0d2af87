use simcom_finder::text::{chars_of, contains, find_in, occurs_here, same_text};

fn cs(s: &str) -> Vec<char> {
    s.chars().collect()
}

#[test]
fn chars_of_yields_the_characters() {
    assert_eq!(chars_of("a/ü"), vec!['a', '/', 'ü']);
    assert_eq!(chars_of(""), Vec::<char>::new());
}

#[test]
fn find_in_gives_the_first_index() {
    assert_eq!(find_in(&cs("abcabc"), &cs("bc"), 0), Some(1));
    assert_eq!(find_in(&cs("abcabc"), &cs("bc"), 2), Some(4));
    assert_eq!(find_in(&cs("abcabc"), &cs("bc"), 5), None);
    assert_eq!(find_in(&cs("abcabc"), &cs("x"), 0), None);
}

#[test]
fn find_in_with_empty_pattern() {
    assert_eq!(find_in(&cs("abc"), &cs(""), 0), Some(0));
    assert_eq!(find_in(&cs("abc"), &cs(""), 3), Some(3));
    assert_eq!(find_in(&cs("abc"), &cs(""), 4), None);
}

#[test]
fn find_in_with_pattern_longer_than_text() {
    assert_eq!(find_in(&cs("ab"), &cs("abc"), 0), None);
}

#[test]
fn contains_tells_substrings() {
    assert!(contains(&cs("/sys/devices/usb1"), &cs("usb")));
    assert!(contains(&cs("/sys/devices/usb1"), &cs("")));
    assert!(contains(&cs("abc"), &cs("abc")));
    assert!(!contains(&cs("/sys/devices/usb1"), &cs("pci")));
    assert!(!contains(&cs(""), &cs("a")));
}

#[test]
fn occurs_here_checks_one_place() {
    assert!(occurs_here(&cs("abcd"), &cs("cd"), 2));
    assert!(!occurs_here(&cs("abcd"), &cs("cd"), 1));
    assert!(!occurs_here(&cs("abcd"), &cs("cd"), 3));
    assert!(!occurs_here(&cs("abcd"), &cs("cd"), 9));
}

#[test]
fn same_text_compares_whole_slices() {
    assert!(same_text(&cs("port"), &cs("port")));
    assert!(!same_text(&cs("port"), &cs("ports")));
    assert!(!same_text(&cs("port"), &cs("pork")));
    assert!(same_text(&cs(""), &cs("")));
}
