use frfs::builder::FRFSBuilder;
use frfs::file::{File, SeekFrom};
use frfs::format::{LoadAction, Loader, MAGIC_NUMBER_END, MAGIC_NUMBER_START};
use frfs::fs::{FRFSHeader, FRFS};
use frfs::path::normalize_path;
use frfs::scan::ScanEntry;
use frfs::tree::Dir;

#[test]
fn normalizing_twice_is_normalizing_once() {
    for p in ["/a/../b/./c/", "x/y/../../..", "", "/", "//", "./a", "a//b///c", "/..//x"] {
        let once = normalize_path(p);
        assert_eq!(normalize_path(&once), once);
    }
}

#[test]
fn seeks_stay_within_the_file() {
    let mut f = File::from_parts(16, 0);
    for pos in [
        SeekFrom::Start(3),
        SeekFrom::Start(99),
        SeekFrom::Current(-20),
        SeekFrom::Current(5),
        SeekFrom::End(0),
        SeekFrom::End(-16),
        SeekFrom::End(7),
        SeekFrom::End(-17),
    ] {
        let before = f.offset();
        match f.seek(pos) {
            Ok(at) => {
                assert!(at <= 16);
                let (_, len) = f.read_request(100);
                assert!(at + len as u64 <= 16);
            }
            Err(_) => {
                assert_eq!(pos, SeekFrom::End(-17));
                assert_eq!(f.offset(), before);
            }
        }
    }
}

/// A tree packed, framed, located again and opened gives each file's
/// bytes at the position its window starts at.
#[test]
fn packed_files_are_found_again() {
    let walk = vec![
        ScanEntry::File { name: Some("one".to_string()), size: 3 },
        ScanEntry::Dir {
            name: Some("d".to_string()),
            entries: vec![ScanEntry::File { name: Some("two".to_string()), size: 4 }],
        },
    ];
    let contents: Vec<&[u8]> = vec![b"abc", b"WXYZ"];
    let mut builder = FRFSBuilder::from_dir("src", &walk);
    let paths = builder.files_to_pack();
    assert_eq!(paths, vec!["src/one".to_string(), "src/d/two".to_string()]);
    let owned: Vec<Vec<u8>> = contents.iter().map(|c| c.to_vec()).collect();
    let data = builder.fill_with_files(&owned);
    assert_eq!(data, contents.concat());
    let header_bytes = b"serialized header".to_vec();
    let magic_start = builder.magic_number_start;
    let magic_end = builder.magic_number_end;
    let tree = std::mem::replace(&mut builder.header.root, Dir::new());
    let data_size = builder.header.data_size;
    let archive = builder.build(&header_bytes, &data);

    // The archive embedded after some other bytes.
    let mut image = vec![0xAAu8; 5];
    image.extend(&archive);

    let (mut loader, mut action) = Loader::new(magic_start, magic_end, image.len() as u64);
    let mut base = File::from_parts(image.len() as u64, 0);
    let data_start = loop {
        action = match action {
            LoadAction::SeekAndRead { pos, len } => {
                let at = base.seek(pos).unwrap() as usize;
                base.seek(SeekFrom::Start((at + len) as u64)).unwrap();
                loader.on_bytes(image[at..at + len].to_vec())
            }
            LoadAction::Read { len } => {
                let at = base.offset() as usize;
                base.seek(SeekFrom::Start((at + len) as u64)).unwrap();
                loader.on_bytes(image[at..at + len].to_vec())
            }
            LoadAction::ReadHeader { limit } => {
                let at = base.offset() as usize;
                let end = std::cmp::min(image.len(), at + limit as usize);
                loader.on_header(at as u64, image[at..end].to_vec())
            }
            LoadAction::Parse { header, data_start } => {
                assert_eq!(header, header_bytes);
                break data_start;
            }
            LoadAction::Fail(e) => panic!("{:?}", e),
        };
    };
    let fs = FRFS::from_header(FRFSHeader { root: tree, data_size, start_at: 0 }, data_start, &base);
    for (path, want) in [("/one", &b"abc"[..]), ("d/two", &b"WXYZ"[..])] {
        let f = fs.open(path).unwrap();
        let (position, len) = f.read_request(64);
        assert_eq!(&image[position as usize..position as usize + len], want);
    }
    // Every listed entry is found again at its path.
    for entry in fs.read_dir("/").unwrap().into_entries() {
        let entry = entry.unwrap();
        assert_eq!(fs.metadata(&entry.path()).unwrap(), entry.metadata().unwrap());
    }
    for entry in fs.read_dir("/d").unwrap().into_entries() {
        let entry = entry.unwrap();
        assert_eq!(entry.path(), "d/two");
        assert_eq!(fs.metadata(&entry.path()).unwrap(), entry.metadata().unwrap());
    }
    assert_eq!(MAGIC_NUMBER_START, magic_start);
    assert_eq!(MAGIC_NUMBER_END, magic_end);
}

/// Runs a loader over `image` and gives what it ends with: the header and
/// where the data starts, or `None` where it fails.
fn run_loader(image: &[u8], ms: [u8; 7], me: [u8; 7]) -> Option<(Vec<u8>, u64)> {
    let (mut loader, mut action) = Loader::new(ms, me, image.len() as u64);
    let mut base = File::from_parts(image.len() as u64, 0);
    loop {
        action = match action {
            LoadAction::SeekAndRead { pos, len } => {
                let at = base.seek(pos).unwrap() as usize;
                base.seek(SeekFrom::Start((at + len) as u64)).unwrap();
                loader.on_bytes(image[at..at + len].to_vec())
            }
            LoadAction::Read { len } => {
                let at = base.offset() as usize;
                base.seek(SeekFrom::Start((at + len) as u64)).unwrap();
                loader.on_bytes(image[at..at + len].to_vec())
            }
            LoadAction::ReadHeader { limit } => {
                let at = base.offset() as usize;
                let end = std::cmp::min(image.len(), at + limit as usize);
                loader.on_header(at as u64, image[at..end].to_vec())
            }
            LoadAction::Parse { header, data_start } => return Some((header, data_start)),
            LoadAction::Fail(_) => return None,
        };
    }
}

#[test]
fn loading_with_other_magic_numbers_fails() {
    let b = FRFSBuilder::from_dir_with_header("x", &Vec::new(), *b"START01", *b"END__01");
    let archive = b.build(b"hdr", b"data");
    let mut image = vec![1u8, 2, 3];
    image.extend(&archive);
    assert_eq!(run_loader(&image, *b"START01", *b"END__01"), Some((b"hdr".to_vec(), 3 + 15 + 3)));
    assert_eq!(run_loader(&image, *b"START02", *b"END__01"), None);
    assert_eq!(run_loader(&image, *b"START01", *b"END__02"), None);
    assert_eq!(run_loader(&image, MAGIC_NUMBER_START, MAGIC_NUMBER_END), None);
}

#[test]
fn every_packed_path_finds_its_laid_out_header() {
    let walk = vec![
        ScanEntry::File { name: Some("top".to_string()), size: 1 },
        ScanEntry::Dir {
            name: Some("a".to_string()),
            entries: vec![
                ScanEntry::File { name: Some("x".to_string()), size: 1 },
                ScanEntry::Dir {
                    name: Some("b".to_string()),
                    entries: vec![ScanEntry::File { name: Some("y".to_string()), size: 1 }],
                },
            ],
        },
        ScanEntry::Dir {
            name: Some("c".to_string()),
            entries: vec![ScanEntry::File { name: Some("z".to_string()), size: 1 }],
        },
    ];
    let mut builder = FRFSBuilder::from_dir("", &walk);
    let paths = builder.files_to_pack();
    assert_eq!(paths, vec!["top", "a/x", "a/b/y", "c/z"]);
    let contents: Vec<Vec<u8>> = vec![b"1".to_vec(), b"22".to_vec(), b"333".to_vec(), b"4444".to_vec()];
    let data = builder.fill_with_files(&contents);
    assert_eq!(data, b"1223334444".to_vec());
    let tree = std::mem::replace(&mut builder.header.root, Dir::new());
    let base = File::from_parts(100, 0);
    let fs = FRFS::from_header(FRFSHeader { root: tree, data_size: 10, start_at: 0 }, 20, &base);
    let starts = [0u64, 1, 3, 6];
    for (i, path) in paths.iter().enumerate() {
        let f = fs.open(path).unwrap();
        let (position, len) = f.read_request(64);
        assert_eq!(position, 20 + starts[i]);
        assert_eq!(len, contents[i].len());
        assert_eq!(&data[(position - 20) as usize..(position - 20) as usize + len], &contents[i][..]);
    }
}

#[test]
fn a_leading_slash_changes_nothing() {
    let mut sub = Dir::new();
    sub.insert_file("b".to_string(), frfs::tree::FileHeader { file_size: 2, start_at: 1 });
    let mut root = Dir::new();
    root.insert_file("a".to_string(), frfs::tree::FileHeader { file_size: 1, start_at: 0 });
    root.insert_dir("d".to_string(), sub);
    let base = File::from_parts(100, 0);
    let fs = FRFS::from_header(FRFSHeader { root, data_size: 3, start_at: 0 }, 10, &base);
    for p in ["a", "d/b", "d", "d/../a", "x", "a/x", ""] {
        let with = format!("/{}", p);
        assert_eq!(fs.open(p).map(|f| f.header()).ok(), fs.open(&with).map(|f| f.header()).ok());
        assert_eq!(fs.metadata(p).ok(), fs.metadata(&with).ok());
        assert_eq!(fs.path_exists(p).unwrap(), fs.path_exists(&with).unwrap());
    }
}

#[test]
fn default_archives_carry_the_default_magic_numbers() {
    let b = FRFSBuilder::from_dir("x", &Vec::new());
    let out = b.build(b"h", b"dd");
    assert_eq!(&out[..7], b"FRFSv02");
    assert_eq!(&out[out.len() - 7..], b"FRFSEnd");
}
