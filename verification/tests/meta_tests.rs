use frfs::meta::{DirEntry, FileType, Metadata, Permissions, ReadDir};

#[test]
fn file_metadata() {
    let m = Metadata(12, FileType(true));
    assert!(m.is_file());
    assert!(!m.is_dir());
    assert!(!m.is_symlink());
    assert_eq!(m.len(), 12);
    assert!(!m.is_empty());
    assert_eq!(m.file_type(), FileType(true));
    assert!(m.permissions().readonly());
    assert_eq!(m.permissions(), Permissions);
}

#[test]
fn dir_metadata() {
    let m = Metadata(0, FileType(false));
    assert!(m.is_dir());
    assert!(!m.is_file());
    assert!(m.is_empty());
    assert!(m.file_type().is_dir());
    assert!(!m.file_type().is_symlink());
}

#[test]
fn times_are_the_epoch() {
    let m = Metadata(1, FileType(true));
    assert_eq!(m.modified().unwrap(), std::time::SystemTime::UNIX_EPOCH);
    assert_eq!(m.accessed().unwrap(), std::time::SystemTime::UNIX_EPOCH);
    assert_eq!(m.created().unwrap(), std::time::SystemTime::UNIX_EPOCH);
}

#[test]
fn dir_entries() {
    let e = DirEntry { path: "src/lib.rs".to_string(), is_file: true, file_size: 9 };
    assert_eq!(e.path(), "src/lib.rs");
    assert_eq!(e.file_name(), "lib.rs");
    assert_eq!(e.metadata().unwrap(), Metadata(9, FileType(true)));
    assert_eq!(e.file_type().unwrap(), FileType(true));
    let d = DirEntry { path: "a/..".to_string(), is_file: false, file_size: 0 };
    assert_eq!(d.file_name(), "..");
    assert!(d.metadata().unwrap().is_dir());
    let rd = ReadDir { data: vec![Ok(e), Ok(d)] };
    assert_eq!(rd.into_entries().len(), 2);
}
