use frfs::builder::FRFSBuilder;
use frfs::format::{MAGIC_NUMBER_END, MAGIC_NUMBER_START};
use frfs::scan::{scan_total_of, ScanEntry};
use frfs::tree::{find_entry, Dir, FileHeader};

fn h(size: u64, start: u64) -> FileHeader {
    FileHeader { file_size: size, start_at: start }
}

fn names(v: &[&str]) -> Vec<String> {
    v.iter().map(|s| s.to_string()).collect()
}

#[test]
fn insert_replaces_by_name() {
    let mut d = Dir::new();
    d.insert_file("a".to_string(), h(1, 0));
    d.insert_file("b".to_string(), h(2, 0));
    d.insert_file("a".to_string(), h(3, 0));
    assert_eq!(d.files.len(), 2);
    assert_eq!(find_entry(&d.files, &"a".to_string()), Some(0));
    assert_eq!(d.files[0].1, h(3, 0));
    assert_eq!(find_entry(&d.files, &"c".to_string()), None);
    d.insert_dir("sub".to_string(), Dir::new());
    let mut s = Dir::new();
    s.insert_file("x".to_string(), h(4, 0));
    d.insert_dir("sub".to_string(), s);
    assert_eq!(d.dirs.len(), 1);
    assert_eq!(d.dirs[0].1.files.len(), 1);
}

#[test]
fn walks_paths() {
    let mut sub = Dir::new();
    sub.insert_file("x".to_string(), h(4, 10));
    let mut root = Dir::new();
    root.insert_file("a".to_string(), h(1, 0));
    root.insert_dir("sub".to_string(), sub);
    assert_eq!(root.open_file(&names(&["sub", "x"]), 0), Some(h(4, 10)));
    // A file cannot be walked into.
    assert_eq!(root.open_file(&names(&["a", "whatever"]), 0), None);
    assert_eq!(root.open_file(&names(&["a"]), 0), Some(h(1, 0)));
    assert_eq!(root.open_file(&names(&["sub"]), 0), None);
    assert_eq!(root.open_file(&names(&[]), 0), None);
    assert!(root.open_dir(&names(&["sub"]), 0).is_some());
    assert!(root.open_dir(&names(&[]), 0).is_some());
    assert!(root.open_dir(&names(&["a"]), 0).is_none());
}

fn walk() -> Vec<ScanEntry> {
    vec![
        ScanEntry::File { name: Some("a.txt".to_string()), size: 3 },
        ScanEntry::Dir {
            name: Some("sub".to_string()),
            entries: vec![ScanEntry::File { name: Some("b.txt".to_string()), size: 5 }],
        },
        ScanEntry::Other { name: Some("link".to_string()) },
        ScanEntry::File { name: None, size: 100 },
        ScanEntry::File { name: Some("late.txt".to_string()), size: 7 },
    ]
}

#[test]
fn scan_stops_at_an_unnamed_entry() {
    let (d, total) = Dir::from_scan(&walk());
    assert_eq!(total, 8);
    assert_eq!(scan_total_of(&walk()), Some(8));
    assert_eq!(d.files.len(), 1);
    assert_eq!(d.files[0], ("a.txt".to_string(), h(3, 0)));
    assert_eq!(d.dirs.len(), 1);
    assert_eq!(d.dirs[0].1.files[0], ("b.txt".to_string(), h(5, 0)));
}

#[test]
fn scan_total_overflow_is_detected() {
    let big = vec![
        ScanEntry::File { name: Some("a".to_string()), size: u64::MAX },
        ScanEntry::File { name: Some("b".to_string()), size: 1 },
    ];
    assert_eq!(scan_total_of(&big), None);
}

#[test]
fn packing_lays_files_out_in_order() {
    let mut b = FRFSBuilder::from_dir("root", &walk());
    assert_eq!(b.header.data_size, 8);
    assert_eq!(b.header.start_at, 0);
    assert_eq!(b.magic_number_start, MAGIC_NUMBER_START);
    assert_eq!(b.magic_number_end, MAGIC_NUMBER_END);
    assert_eq!(b.files_to_pack(), names(&["root/a.txt", "root/sub/b.txt"]));
    // The files changed on disk since the walk: their read sizes count.
    let data = b.fill_with_files(&vec![b"AAAA".to_vec(), b"BBBBBB".to_vec()]);
    assert_eq!(data, b"AAAABBBBBB".to_vec());
    assert_eq!(b.header.data_size, 10);
    assert_eq!(b.header.root.files[0].1, h(4, 0));
    assert_eq!(b.header.root.dirs[0].1.files[0].1, h(6, 4));
}

#[test]
fn builder_frames_the_archive() {
    let b = FRFSBuilder::from_dir_with_header("x", &Vec::new(), *b"AAAAAAA", *b"ZZZZZZZ");
    let out = b.build(&[1, 2], &[9]);
    let mut want = b"AAAAAAA".to_vec();
    want.extend(2u64.to_be_bytes());
    want.extend([1, 2, 9]);
    want.extend(33u64.to_be_bytes());
    want.extend(b"ZZZZZZZ");
    assert_eq!(out, want);
}

#[test]
fn sums_of_sizes() {
    assert_eq!(frfs::pack::checked_sum(&vec![1, 2, 3]), Some(6));
    assert_eq!(frfs::pack::checked_sum(&vec![]), Some(0));
    assert_eq!(frfs::pack::checked_sum(&vec![u64::MAX, 1]), None);
}

#[test]
fn a_later_entry_replaces_an_earlier_one() {
    let walk = vec![
        ScanEntry::File { name: Some("x".to_string()), size: 1 },
        ScanEntry::File { name: Some("x".to_string()), size: 2 },
        ScanEntry::Dir { name: Some("x".to_string()), entries: vec![] },
    ];
    let (d, total) = Dir::from_scan(&walk);
    // Both files count towards the total; the second replaces the first.
    assert_eq!(total, 3);
    assert_eq!(d.files, vec![("x".to_string(), h(2, 0))]);
    assert_eq!(d.dirs.len(), 1);
}
