use happycache::walk::{spider, Action, Event, FileEntry, Phase, Visit, Walk};

fn dir(path: &str) -> FileEntry {
    FileEntry { path: path.as_bytes().to_vec(), is_dir: true, is_file: false, len: 4096 }
}

fn file(path: &str, len: u64) -> FileEntry {
    FileEntry { path: path.as_bytes().to_vec(), is_dir: false, is_file: true, len }
}

fn other(path: &str) -> FileEntry {
    FileEntry { path: path.as_bytes().to_vec(), is_dir: false, is_file: false, len: 7 }
}

fn list(path: &str) -> Action {
    Action::List { path: path.as_bytes().to_vec() }
}

fn scan(path: &str, len: u64) -> Action {
    Action::Scan { path: path.as_bytes().to_vec(), len }
}

#[test]
fn directory_is_descended_into() {
    assert_eq!(dir("d").visit(), Visit::Descend);
}

#[test]
fn directory_wins_over_file() {
    let both = FileEntry { path: b"x".to_vec(), is_dir: true, is_file: true, len: 0 };
    assert_eq!(both.visit(), Visit::Descend);
}

#[test]
fn regular_file_with_bytes_is_scanned() {
    assert_eq!(file("f", 1).visit(), Visit::Scan);
    assert_eq!(file("f", u64::MAX).visit(), Visit::Scan);
}

#[test]
fn empty_file_is_skipped() {
    assert_eq!(file("f", 0).visit(), Visit::Skip);
}

#[test]
fn other_entries_are_skipped() {
    assert_eq!(other("socket").visit(), Visit::Skip);
}

#[test]
fn new_walk_waits_for_a_listing() {
    assert_eq!(Walk::new().phase(), Phase::Listing);
}

#[test]
fn empty_directory_completes_the_walk() {
    let mut walk = Walk::new();
    assert_eq!(spider(&mut walk, Event::Listed(vec![])), Action::Finish);
    assert_eq!(walk.phase(), Phase::Done);
}

#[test]
fn files_are_scanned_in_listing_order() {
    let mut walk = Walk::new();
    let listing = vec![file("./b", 2), file("./a", 1), file("./c", 3)];
    assert_eq!(spider(&mut walk, Event::Listed(listing)), scan("./b", 2));
    assert_eq!(walk.phase(), Phase::Scanning);
    assert_eq!(spider(&mut walk, Event::Scanned), scan("./a", 1));
    assert_eq!(spider(&mut walk, Event::Scanned), scan("./c", 3));
    assert_eq!(spider(&mut walk, Event::Scanned), Action::Finish);
    assert_eq!(walk.phase(), Phase::Done);
}

#[test]
fn directory_is_visited_in_full_before_its_siblings() {
    let mut walk = Walk::new();
    let root = vec![file("./a", 1), dir("./d"), file("./z", 9)];
    assert_eq!(spider(&mut walk, Event::Listed(root)), scan("./a", 1));
    assert_eq!(spider(&mut walk, Event::Scanned), list("./d"));
    assert_eq!(walk.phase(), Phase::Listing);
    let inner = vec![dir("./d/e"), file("./d/m", 5)];
    assert_eq!(spider(&mut walk, Event::Listed(inner)), list("./d/e"));
    assert_eq!(spider(&mut walk, Event::Listed(vec![file("./d/e/x", 4)])), scan("./d/e/x", 4));
    assert_eq!(spider(&mut walk, Event::Scanned), scan("./d/m", 5));
    assert_eq!(spider(&mut walk, Event::Scanned), scan("./z", 9));
    assert_eq!(spider(&mut walk, Event::Scanned), Action::Finish);
}

#[test]
fn skipped_entries_give_the_driver_nothing_to_do() {
    let mut walk = Walk::new();
    let listing = vec![
        file("./empty", 0),
        other("./fifo"),
        file("./f", 1),
        other("./dev"),
        file("./empty2", 0),
    ];
    assert_eq!(spider(&mut walk, Event::Listed(listing)), scan("./f", 1));
    assert_eq!(spider(&mut walk, Event::Scanned), Action::Finish);
}

#[test]
fn tree_of_empty_files_completes_without_a_scan() {
    let mut walk = Walk::new();
    let listing = vec![file("./a", 0), dir("./d"), file("./b", 0)];
    assert_eq!(spider(&mut walk, Event::Listed(listing)), list("./d"));
    assert_eq!(spider(&mut walk, Event::Listed(vec![file("./d/c", 0)])), Action::Finish);
}

#[test]
fn failed_listing_aborts_the_walk() {
    let mut walk = Walk::new();
    assert_eq!(spider(&mut walk, Event::Failed), Action::Abort);
    assert_eq!(walk.phase(), Phase::Failed);
}

#[test]
fn failed_scan_aborts_the_walk_though_files_wait() {
    let mut walk = Walk::new();
    let listing = vec![file("./a", 1), file("./b", 1), dir("./d")];
    assert_eq!(spider(&mut walk, Event::Listed(listing)), scan("./a", 1));
    assert_eq!(spider(&mut walk, Event::Scanned), scan("./b", 1));
    assert_eq!(spider(&mut walk, Event::Failed), Action::Abort);
    assert_eq!(walk.phase(), Phase::Failed);
}

#[test]
fn failed_walk_stays_failed() {
    let mut walk = Walk::new();
    assert_eq!(spider(&mut walk, Event::Listed(vec![file("./a", 1), file("./b", 1)])), scan("./a", 1));
    assert_eq!(spider(&mut walk, Event::Failed), Action::Abort);
    assert_eq!(spider(&mut walk, Event::Scanned), Action::Abort);
    assert_eq!(spider(&mut walk, Event::Listed(vec![file("./c", 1)])), Action::Abort);
    assert_eq!(spider(&mut walk, Event::Listed(vec![])), Action::Abort);
    assert_eq!(spider(&mut walk, Event::Failed), Action::Abort);
    assert_eq!(walk.phase(), Phase::Failed);
}

#[test]
fn finish_is_given_once() {
    let mut walk = Walk::new();
    assert_eq!(spider(&mut walk, Event::Listed(vec![])), Action::Finish);
    assert_eq!(spider(&mut walk, Event::Scanned), Action::Abort);
    assert_eq!(spider(&mut walk, Event::Listed(vec![])), Action::Abort);
    assert_eq!(walk.phase(), Phase::Failed);
}

#[test]
fn outcome_that_was_not_waited_for_aborts() {
    let mut walk = Walk::new();
    assert_eq!(spider(&mut walk, Event::Scanned), Action::Abort);

    let mut walk = Walk::new();
    assert_eq!(spider(&mut walk, Event::Listed(vec![file("./a", 1)])), scan("./a", 1));
    assert_eq!(spider(&mut walk, Event::Listed(vec![file("./b", 1)])), Action::Abort);
}
