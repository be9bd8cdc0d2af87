use simcom_finder::pathfinder::DirEntry;
use simcom_finder::sysfssearch::{Action, SysfsSearch};
use simcom_finder::utils::CommandResult;

type Node = (&'static str, Vec<(&'static str, bool)>);

fn tree() -> Vec<Node> {
    vec![
        ("/sys", vec![("usb1", true), ("subsystem", true)]),
        ("/sys/usb1", vec![("ttyUSB2", true), ("ttyUSB3", true), ("other", true)]),
        ("/sys/usb1/ttyUSB2", vec![("dev", false)]),
        ("/sys/usb1/ttyUSB3", vec![("dev", false)]),
        ("/sys/usb1/other", vec![("dev", false)]),
        ("/sys/subsystem", vec![("dev", false)]),
    ]
}

fn read_dir(dir: &str) -> Option<Vec<DirEntry>> {
    for (path, entries) in tree() {
        if path == dir {
            return Some(
                entries.iter().map(|(n, d)| DirEntry { name: String::from(*n), is_dir: *d }).collect(),
            );
        }
    }
    None
}

fn ok(block: &str) -> CommandResult {
    CommandResult { status: Some(0), stdout: Some(String::from(block)), stderr: None }
}

fn query(path: &str) -> CommandResult {
    match path {
        "/sys/usb1/ttyUSB2" => ok("VID=1e0e\nMID=9001\nTTY=2\n"),
        "/sys/usb1/ttyUSB3" => ok("VID=1e0e\nMID=9001\nTTY=3\n"),
        "/sys/usb1/other" => CommandResult { status: Some(1), stdout: Some(String::from("VID=1e0e\n")), stderr: None },
        "/sys" => ok("ROOT=1\n"),
        _ => CommandResult::none(),
    }
}

/// Drives the engine to the end; returns the count and the log of
/// what was read and asked.
fn run(engine: &mut SysfsSearch) -> (usize, Vec<String>) {
    let mut log = Vec::new();
    let mut action = engine.search();
    for _ in 0..1000 {
        action = match action {
            Action::ReadDir(dir) => {
                log.push(format!("read {}", dir));
                engine.listed(read_dir(&dir))
            }
            Action::Query(path) => {
                log.push(format!("ask {}", path));
                engine.answered(query(&path))
            }
            Action::Done(count) => return (count, log),
        };
    }
    panic!("the search did not end");
}

#[test]
fn search_collects_the_usable_blocks_in_order() {
    let mut engine = SysfsSearch::new("/sys", Some(vec!["dev"]), Some(7));
    let (count, log) = run(&mut engine);
    assert_eq!(count, 2);
    assert_eq!(
        log,
        vec![
            "read /sys",
            "read /sys/usb1",
            "read /sys/usb1/ttyUSB2",
            "read /sys/usb1/ttyUSB3",
            "read /sys/usb1/other",
            "ask /sys/usb1/ttyUSB2",
            "ask /sys/usb1/ttyUSB3",
            "ask /sys/usb1/other",
        ]
    );
    assert_eq!(
        engine.get_property("TTY", None),
        Some(vec![String::from("2"), String::from("3")])
    );
}

#[test]
fn second_search_is_a_no_op() {
    let mut engine = SysfsSearch::new("/sys", Some(vec!["dev"]), Some(7));
    let (count, log) = run(&mut engine);
    assert!(!log.is_empty());
    let (again, second_log) = run(&mut engine);
    assert_eq!(again, count);
    assert_eq!(second_log, Vec::<String>::new());
    assert_eq!(engine.search(), Action::Done(count));
}

#[test]
fn search_that_finds_nothing_is_not_repeated() {
    let mut engine = SysfsSearch::new("/sys", Some(vec!["nothing"]), Some(7));
    let (count, log) = run(&mut engine);
    assert_eq!(count, 0);
    assert!(!log.is_empty());
    let (again, second_log) = run(&mut engine);
    assert_eq!(again, 0);
    assert_eq!(second_log, Vec::<String>::new());
    assert_eq!(engine.get_property("TTY", None), None);
}

#[test]
fn without_filter_the_root_is_asked_about() {
    let mut engine = SysfsSearch::new("/sys", None, Some(7));
    let (count, log) = run(&mut engine);
    assert_eq!(count, 1);
    assert_eq!(log, vec!["ask /sys"]);
    assert_eq!(engine.get_property("ROOT", None), Some(vec![String::from("1")]));
}

#[test]
fn empty_filter_chain_is_like_no_filter() {
    let mut engine = SysfsSearch::new("/sys", Some(Vec::new()), None);
    let (count, log) = run(&mut engine);
    assert_eq!(count, 1);
    assert_eq!(log, vec!["ask /sys"]);
}

#[test]
fn filters_narrow_the_candidates_before_they_are_asked_about() {
    let mut engine = SysfsSearch::new("/sys", Some(vec!["dev", "tty", "USB3"]), None);
    let (count, log) = run(&mut engine);
    assert_eq!(count, 1);
    assert_eq!(log.last().unwrap(), "ask /sys/usb1/ttyUSB3");
    assert_eq!(log.iter().filter(|l| l.starts_with("ask")).count(), 1);
}

#[test]
fn depth_limit_bounds_the_walk() {
    let mut engine = SysfsSearch::new("/sys", Some(vec!["dev"]), Some(1));
    let (count, log) = run(&mut engine);
    assert_eq!(count, 0);
    assert_eq!(log, vec!["read /sys", "read /sys/usb1"]);
}

#[test]
fn nothing_is_stored_before_the_search() {
    let engine = SysfsSearch::new("/sys", Some(vec!["dev"]), Some(7));
    assert_eq!(engine.get_property("TTY", None), None);
}

#[test]
fn criteria_narrow_the_stored_blocks() {
    let mut engine = SysfsSearch::new("/sys", Some(vec!["dev"]), Some(7));
    run(&mut engine);
    let criteria = vec![("TTY", "3")];
    assert_eq!(engine.get_property("VID", Some(&criteria)), Some(vec![String::from("1e0e")]));
    let unmet = vec![("VID", "0000")];
    assert_eq!(engine.get_property("TTY", Some(&unmet)), None);
    assert_eq!(engine.get_property("SERIAL", None), None);
}

#[test]
fn stray_events_are_ignored() {
    let mut engine = SysfsSearch::new("/sys", Some(vec!["dev"]), Some(7));
    // A report while a listing is awaited changes nothing.
    assert_eq!(engine.search(), Action::ReadDir(String::from("/sys")));
    assert_eq!(engine.answered(ok("X=1\n")), Action::ReadDir(String::from("/sys")));
    assert_eq!(engine.search(), Action::ReadDir(String::from("/sys")));
    let (count, _) = run(&mut engine);
    assert_eq!(count, 2);
    // A listing or a report after the end changes nothing.
    assert_eq!(engine.listed(read_dir("/sys")), Action::Done(2));
    assert_eq!(engine.answered(ok("TTY=7\n")), Action::Done(2));
    assert_eq!(
        engine.get_property("TTY", None),
        Some(vec![String::from("2"), String::from("3")])
    );
}

#[test]
fn a_listing_while_a_report_is_awaited_is_ignored() {
    let mut engine = SysfsSearch::new("/sys", None, None);
    assert_eq!(engine.search(), Action::Query(String::from("/sys")));
    assert_eq!(engine.listed(read_dir("/sys")), Action::Query(String::from("/sys")));
    assert_eq!(engine.answered(ok("ROOT=1\n")), Action::Done(1));
}

#[test]
fn an_event_on_a_fresh_engine_begins_the_search() {
    let mut engine = SysfsSearch::new("/sys", Some(vec!["dev"]), Some(7));
    assert_eq!(engine.listed(None), Action::ReadDir(String::from("/sys")));
    let (count, _) = run(&mut engine);
    assert_eq!(count, 2);
}

#[test]
fn unreadable_root_ends_the_search_with_nothing() {
    let mut engine = SysfsSearch::new("/missing", Some(vec!["dev"]), None);
    assert_eq!(engine.search(), Action::ReadDir(String::from("/missing")));
    assert_eq!(engine.listed(None), Action::Done(0));
}
