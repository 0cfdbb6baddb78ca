use frfs::error::Error;
use frfs::file::{wrapping_add_signed, File, SeekFrom};
use frfs::meta::{FileType, Metadata};
use frfs::tree::FileHeader;

fn file(size: u64, start: u64) -> File {
    File::with_header(FileHeader { file_size: size, start_at: start })
}

#[test]
fn seek_from_start_stops_at_the_end() {
    let mut f = file(10, 100);
    assert_eq!(f.seek(SeekFrom::Start(4)).unwrap(), 4);
    assert_eq!(f.seek(SeekFrom::Start(40)).unwrap(), 10);
    assert_eq!(f.offset(), 10);
}

#[test]
fn seek_from_current_moves_and_stops_at_the_end() {
    let mut f = file(10, 0);
    f.seek(SeekFrom::Start(4)).unwrap();
    assert_eq!(f.seek(SeekFrom::Current(3)).unwrap(), 7);
    assert_eq!(f.seek(SeekFrom::Current(-5)).unwrap(), 2);
    assert_eq!(f.seek(SeekFrom::Current(100)).unwrap(), 10);
    // Going back past the start wraps around, then stops at the end.
    f.seek(SeekFrom::Start(1)).unwrap();
    assert_eq!(f.seek(SeekFrom::Current(-2)).unwrap(), 10);
}

#[test]
fn seek_from_end() {
    let mut f = file(10, 0);
    assert_eq!(f.seek(SeekFrom::End(0)).unwrap(), 10);
    assert_eq!(f.seek(SeekFrom::End(5)).unwrap(), 10);
    assert_eq!(f.seek(SeekFrom::End(-3)).unwrap(), 7);
    // Back past the start is refused, and the cursor stays.
    for back in [-11i64, i64::MIN] {
        match f.seek(SeekFrom::End(back)) {
            Err(Error::IO(e)) => assert_eq!(e.kind(), std::io::ErrorKind::InvalidInput),
            other => panic!("unexpected {:?}", other),
        }
        assert_eq!(f.offset(), 7);
    }
}

#[test]
fn wrapping_signed_addition() {
    assert_eq!(wrapping_add_signed(5, 3), 8);
    assert_eq!(wrapping_add_signed(5, -3), 2);
    assert_eq!(wrapping_add_signed(0, -1), u64::MAX);
    assert_eq!(wrapping_add_signed(u64::MAX, 1), 0);
    assert_eq!(wrapping_add_signed(0, i64::MIN), 1u64 << 63);
    assert_eq!(wrapping_add_signed(u64::MAX, i64::MAX), (i64::MAX as u64) - 1);
}

#[test]
fn reads_stay_within_the_file() {
    let mut f = file(10, 100);
    assert_eq!(f.read_request(4), (100, 4));
    assert_eq!(f.advance(4), 4);
    assert_eq!(f.offset(), 4);
    assert_eq!(f.read_request(64), (104, 6));
    f.advance(6);
    assert_eq!(f.read_request(64), (110, 0));
    assert_eq!(f.offset(), 10);
}

#[test]
fn whole_file_from_parts() {
    let f = File::from_parts(42, 7);
    assert_eq!(f.header(), FileHeader { file_size: 42, start_at: 0 });
    assert_eq!(f.offset(), 7);
    assert_eq!(f.metadata().unwrap(), Metadata(42, FileType(true)));
}

#[test]
fn reading_needs_the_cursor_within_the_file() {
    let mut f = file(10, 0);
    assert!(f.can_read());
    assert!(f.seek(SeekFrom::End(-11)).is_err());
    assert!(f.can_read());
    // A whole file whose handle's cursor lay past its end.
    assert!(!File::from_parts(10, 11).can_read());
    let g = file(10, u64::MAX);
    assert!(g.can_read());
    let h = File::from_parts(10, 3);
    assert!(h.can_read());
}

#[test]
fn reading_to_the_end_takes_the_whole_file() {
    for buf in [1usize, 3, 4, 10, 64] {
        let mut f = file(10, 100);
        let mut positions = Vec::new();
        let mut total = 0usize;
        loop {
            let (position, len) = f.read_request(buf);
            if len == 0 {
                break;
            }
            positions.push(position);
            total += f.advance(len);
        }
        assert_eq!(total, 10);
        assert_eq!(f.offset(), 10);
        assert_eq!(positions[0], 100);
        for w in positions.windows(2) {
            assert_eq!(w[1] - w[0], buf as u64);
        }
    }
}
