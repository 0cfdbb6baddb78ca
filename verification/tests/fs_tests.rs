use frfs::error::Error;
use frfs::file::File;
use frfs::fs::{FRFSHeader, FRFS};
use frfs::meta::{FileType, Metadata};
use frfs::tree::{Dir, FileHeader};

fn h(size: u64, start: u64) -> FileHeader {
    FileHeader { file_size: size, start_at: start }
}

fn sample() -> FRFS {
    let mut sub = Dir::new();
    sub.insert_file("b.txt".to_string(), h(5, 3));
    let mut root = Dir::new();
    root.insert_file("a.txt".to_string(), h(3, 0));
    root.insert_dir("sub".to_string(), sub);
    let base = File::from_parts(1000, 0);
    FRFS::from_header(FRFSHeader { root, data_size: 8, start_at: 0 }, 100, &base)
}

#[test]
fn data_start_adds_the_base_start() {
    let fs = sample();
    assert_eq!(fs.start_at(), 100);
}

#[test]
fn open_gives_an_absolute_window() {
    let fs = sample();
    let f = fs.open("/sub/b.txt").unwrap();
    assert_eq!(f.header(), h(5, 103));
    assert_eq!(f.offset(), 0);
    let g = File::open(&fs, "sub/../a.txt").unwrap();
    assert_eq!(g.header(), h(3, 100));
    assert!(matches!(fs.open("/sub"), Err(Error::NotFound)));
    assert!(matches!(fs.open("/nope"), Err(Error::NotFound)));
}

#[test]
fn metadata_of_files_and_dirs() {
    let fs = sample();
    assert_eq!(fs.metadata("/a.txt").unwrap(), Metadata(3, FileType(true)));
    assert_eq!(fs.metadata("/sub").unwrap(), Metadata(0, FileType(false)));
    assert_eq!(fs.metadata("/").unwrap(), Metadata(0, FileType(false)));
    assert!(matches!(fs.metadata("/sub/none"), Err(Error::NotFound)));
}

#[test]
fn existence() {
    let fs = sample();
    assert!(fs.path_exists("/a.txt").unwrap());
    assert!(fs.path_exists("sub").unwrap());
    assert!(!fs.path_exists("/zzz").unwrap());
}

#[test]
fn listing_a_directory() {
    let fs = sample();
    let rd = fs.read_dir("/").unwrap().into_entries();
    assert_eq!(rd.len(), 2);
    let first = rd[0].as_ref().unwrap();
    assert_eq!(first.path(), "sub");
    assert!(first.metadata().unwrap().is_dir());
    let second = rd[1].as_ref().unwrap();
    assert_eq!(second.path(), "a.txt");
    assert_eq!(second.metadata().unwrap(), Metadata(3, FileType(true)));
    let inner = fs.read_dir("/sub/").unwrap().into_entries();
    assert_eq!(inner[0].as_ref().unwrap().path(), "sub/b.txt");
    assert!(matches!(fs.read_dir("/a.txt"), Err(Error::NotFound)));
    assert_eq!(fs.entry_names("/").unwrap(), vec!["sub".to_string(), "a.txt".to_string()]);
}

#[test]
fn start_overflow_is_detected() {
    let mut root = Dir::new();
    root.insert_file("f".to_string(), h(1, u64::MAX));
    let base = File::from_parts(10, 0);
    let fs = FRFS::from_header(FRFSHeader { root, data_size: 1, start_at: 0 }, 5, &base);
    assert!(!fs.open_fits("/f"));
    assert!(fs.open_fits("/g"));
}

#[test]
fn trees_with_repeated_names_are_not_well_formed() {
    let mut d = Dir::new();
    d.insert_file("a".to_string(), h(1, 0));
    assert!(d.check_wf());
    d.files.push(("a".to_string(), h(2, 0)));
    assert!(!d.check_wf());
    let mut root = Dir::new();
    root.dirs.push(("sub".to_string(), d));
    assert!(!root.check_wf());
}

#[test]
fn a_file_cannot_be_walked_into() {
    let fs = sample();
    assert!(matches!(fs.open("a.txt/x"), Err(Error::NotFound)));
    assert!(matches!(fs.open("/sub/b.txt/more/parts"), Err(Error::NotFound)));
    assert!(matches!(fs.metadata("a.txt/x"), Err(Error::NotFound)));
    assert!(!fs.path_exists("/a.txt/x").unwrap());
    // `..` after a file name is resolved lexically first.
    assert_eq!(fs.open("a.txt/../sub/b.txt").unwrap().header(), h(5, 103));
}
