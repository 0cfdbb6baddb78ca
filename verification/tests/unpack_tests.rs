use frfs::error::Error;
use frfs::file::File;
use frfs::fs::{FRFSHeader, FRFS};
use frfs::tree::{Dir, FileHeader};
use frfs::unpack::{unpack_actions, UnpackAction};

fn h(size: u64, start: u64) -> FileHeader {
    FileHeader { file_size: size, start_at: start }
}

fn sample() -> FRFS {
    let mut inner = Dir::new();
    inner.insert_file("c.txt".to_string(), h(1, 8));
    let mut sub = Dir::new();
    sub.insert_file("b.txt".to_string(), h(5, 3));
    sub.insert_dir("deep".to_string(), inner);
    let mut root = Dir::new();
    root.insert_file("a.txt".to_string(), h(3, 0));
    root.insert_dir("sub".to_string(), sub);
    FRFS::from_header(FRFSHeader { root, data_size: 9, start_at: 0 }, 0, &File::from_parts(100, 0))
}

fn show(a: &UnpackAction) -> String {
    match a {
        UnpackAction::CreateDir { dst } => format!("mkdir {}", dst),
        UnpackAction::CopyFile { src, dst } => format!("copy {} -> {}", src, dst),
    }
}

#[test]
fn unpacking_creates_dirs_then_copies_in_listing_order() {
    let fs = sample();
    let steps: Vec<String> = unpack_actions(&fs, "/", "out").unwrap().iter().map(show).collect();
    assert_eq!(
        steps,
        vec![
            "mkdir out",
            "mkdir out/sub",
            "mkdir out/sub/deep",
            "copy sub/deep/c.txt -> out/sub/deep/c.txt",
            "copy sub/b.txt -> out/sub/b.txt",
            "copy a.txt -> out/a.txt",
        ]
    );
}

#[test]
fn unpacking_a_subdirectory() {
    let fs = sample();
    let steps: Vec<String> = unpack_actions(&fs, "/sub/deep/", "x/").unwrap().iter().map(show).collect();
    assert_eq!(steps, vec!["mkdir x/", "copy sub/deep/c.txt -> x/c.txt"]);
    assert!(matches!(unpack_actions(&fs, "/nope", "x"), Err(Error::NotFound)));
}
