use flate2::read::GzDecoder;
use flate2::write::GzEncoder;
use flate2::Compression;
use happycache::scan::{dump_file, FileScan};
use happycache::walk::{spider, Action, Event, FileEntry, Walk};
use std::io::{Read, Write};

const PAGE: usize = 4096;

struct Tree {
    listings: Vec<(Vec<u8>, Vec<FileEntry>)>,
    residency: Vec<(Vec<u8>, Vec<u8>)>,
    unreadable: Vec<Vec<u8>>,
}

impl Tree {
    fn list(&self, path: &[u8]) -> Event {
        match self.listings.iter().find(|(dir, _)| dir.as_slice() == path) {
            Some((_, entries)) => Event::Listed(entries.clone()),
            None => Event::Failed,
        }
    }

    fn scan(&self, path: &[u8], len: u64, out: &mut Vec<u8>) -> Event {
        if self.unreadable.iter().any(|p| p.as_slice() == path) {
            return Event::Failed;
        }
        let bitmap = match self.residency.iter().find(|(file, _)| file.as_slice() == path) {
            Some((_, bitmap)) => bitmap,
            None => return Event::Failed,
        };
        let label = path.strip_prefix(b"./").unwrap_or(path).to_vec();
        let mut scan = FileScan::new(label, len as usize, PAGE).unwrap();
        let mut at = 0;
        while let Some(chunk) = scan.pending() {
            let pages = chunk.page_count(PAGE);
            if dump_file(&mut scan, &bitmap[at..at + pages], out).is_err() {
                return Event::Failed;
            }
            at += pages;
        }
        Event::Scanned
    }

    /// The text of the snapshot, or `None` if the walk was aborted.
    fn snapshot(&self, text: &mut Vec<u8>) -> bool {
        let mut walk = Walk::new();
        let mut event = self.list(b".");
        loop {
            match spider(&mut walk, event) {
                Action::List { path } => event = self.list(&path),
                Action::Scan { path, len } => event = self.scan(&path, len, text),
                Action::Finish => return true,
                Action::Abort => return false,
            }
        }
    }
}

fn dir(path: &str) -> FileEntry {
    FileEntry { path: path.as_bytes().to_vec(), is_dir: true, is_file: false, len: 4096 }
}

fn file(path: &str, pages: usize) -> FileEntry {
    FileEntry { path: path.as_bytes().to_vec(), is_dir: false, is_file: true, len: (pages * PAGE) as u64 }
}

fn two_files() -> Tree {
    Tree {
        listings: vec![
            (b".".to_vec(), vec![file("./a.txt", 3), dir("./sub")]),
            (b"./sub".to_vec(), vec![file("./sub/b.txt", 6)]),
        ],
        residency: vec![
            (b"./a.txt".to_vec(), vec![1, 1, 1]),
            (b"./sub/b.txt".to_vec(), vec![0, 0, 0, 0, 0, 1]),
        ],
        unreadable: vec![],
    }
}

#[test]
fn tree_of_two_files_gives_two_blocks() {
    let mut text = Vec::new();
    assert!(two_files().snapshot(&mut text));
    assert_eq!(String::from_utf8(text).unwrap(), "a.txt\n0\n1\n1\nsub/b.txt\n5\n");
}

#[test]
fn subdirectory_listed_first_comes_first() {
    let mut tree = two_files();
    tree.listings[0].1.reverse();
    let mut text = Vec::new();
    assert!(tree.snapshot(&mut text));
    assert_eq!(String::from_utf8(text).unwrap(), "sub/b.txt\n5\na.txt\n0\n1\n1\n");
}

#[test]
fn snapshot_survives_compression() {
    let mut text = Vec::new();
    assert!(two_files().snapshot(&mut text));

    let mut encoder = GzEncoder::new(Vec::new(), Compression::default());
    encoder.write_all(&text).unwrap();
    let compressed = encoder.finish().unwrap();
    assert_ne!(compressed, text);

    let mut decoded = String::new();
    GzDecoder::new(compressed.as_slice()).read_to_string(&mut decoded).unwrap();
    assert_eq!(decoded, "a.txt\n0\n1\n1\nsub/b.txt\n5\n");
}

#[test]
fn empty_and_cold_files_leave_no_trace() {
    let tree = Tree {
        listings: vec![(
            b".".to_vec(),
            vec![file("./empty", 0), file("./cold", 4), file("./warm", 2)],
        )],
        residency: vec![
            (b"./cold".to_vec(), vec![0, 0, 0, 0]),
            (b"./warm".to_vec(), vec![0, 1]),
        ],
        unreadable: vec![],
    };
    let mut text = Vec::new();
    assert!(tree.snapshot(&mut text));
    assert_eq!(String::from_utf8(text).unwrap(), "warm\n1\n");
}

#[test]
fn unreadable_file_aborts_after_earlier_files_were_written() {
    let mut tree = two_files();
    tree.listings[0].1.push(file("./z.txt", 1));
    tree.residency.push((b"./z.txt".to_vec(), vec![1]));
    tree.unreadable.push(b"./sub/b.txt".to_vec());
    let mut text = Vec::new();
    assert!(!tree.snapshot(&mut text));
    assert_eq!(String::from_utf8(text).unwrap(), "a.txt\n0\n1\n1\n");
}

#[test]
fn unlistable_directory_aborts() {
    let mut tree = two_files();
    tree.listings.pop();
    let mut text = Vec::new();
    assert!(!tree.snapshot(&mut text));
}

#[test]
fn unlistable_root_aborts_with_nothing_written() {
    let tree = Tree { listings: vec![], residency: vec![], unreadable: vec![] };
    let mut text = Vec::new();
    assert!(!tree.snapshot(&mut text));
    assert_eq!(text, Vec::<u8>::new());
}

#[test]
fn two_runs_over_one_tree_give_one_snapshot() {
    let tree = two_files();
    let mut first = Vec::new();
    let mut second = Vec::new();
    assert!(tree.snapshot(&mut first));
    assert!(tree.snapshot(&mut second));
    assert_eq!(first, second);
}

#[test]
fn changed_residency_changes_gaps_but_not_the_order_of_blocks() {
    let mut tree = two_files();
    let mut before = Vec::new();
    assert!(tree.snapshot(&mut before));
    tree.residency[0].1 = vec![0, 1, 0];
    tree.residency[1].1 = vec![1, 0, 0, 1, 0, 0];
    let mut after = Vec::new();
    assert!(tree.snapshot(&mut after));
    assert_eq!(String::from_utf8(after).unwrap(), "a.txt\n1\nsub/b.txt\n0\n3\n");
    assert_eq!(String::from_utf8(before).unwrap(), "a.txt\n0\n1\n1\nsub/b.txt\n5\n");
}
