use frfs::error::Error;
use frfs::file::File;
use frfs::format::{
    choose_magic_numbers, MagicChoice,
    frame_archive, is_magic, parse_magic_number, u64_from_be_bytes, u64_to_be_bytes, LoadAction,
    LoadStage, Loader, MAGIC_NUMBER_END, MAGIC_NUMBER_START,
};

#[test]
fn big_endian() {
    assert_eq!(u64_to_be_bytes(0x0102030405060708), vec![1, 2, 3, 4, 5, 6, 7, 8]);
    assert_eq!(u64_from_be_bytes(&[1, 2, 3, 4, 5, 6, 7, 8]), 0x0102030405060708);
    assert_eq!(u64_from_be_bytes(&u64_to_be_bytes(u64::MAX)), u64::MAX);
}

#[test]
fn default_magic_numbers() {
    assert_eq!(&MAGIC_NUMBER_START, b"FRFSv02");
    assert_eq!(&MAGIC_NUMBER_END, b"FRFSEnd");
    assert!(is_magic(b"FRFSEnd", &MAGIC_NUMBER_END));
    assert!(!is_magic(b"FRFSEnD", &MAGIC_NUMBER_END));
    assert!(!is_magic(b"FRFS", &MAGIC_NUMBER_END));
}

#[test]
fn magic_number_from_text() {
    assert_eq!(parse_magic_number("ABCDEFG"), Ok(*b"ABCDEFG"));
    assert_eq!(
        parse_magic_number("short"),
        Err("magic number should be a [u8; 7]".to_string())
    );
    // Seven characters but more than seven bytes.
    assert!(parse_magic_number("ABCDEFé").is_err());
}

#[test]
fn framing() {
    let a = frame_archive(&MAGIC_NUMBER_START, b"hdr", b"data", &MAGIC_NUMBER_END);
    assert_eq!(a.len(), 37);
    assert_eq!(&a[..7], b"FRFSv02");
    assert_eq!(&a[7..15], &3u64.to_be_bytes());
    assert_eq!(&a[15..18], b"hdr");
    assert_eq!(&a[18..22], b"data");
    assert_eq!(&a[22..30], &37u64.to_be_bytes());
    assert_eq!(&a[30..], b"FRFSEnd");
}

/// Answers the loader from `image`, as a file whose cursor is `cursor`.
fn drive(image: &[u8], loader: &mut Loader, first: LoadAction) -> LoadAction {
    let mut cursor = File::from_parts(image.len() as u64, 0);
    let mut action = first;
    loop {
        action = match action {
            LoadAction::SeekAndRead { pos, len } => {
                let at = cursor.seek(pos).unwrap() as usize;
                cursor.seek(frfs::file::SeekFrom::Start((at + len) as u64)).unwrap();
                loader.on_bytes(image[at..at + len].to_vec())
            }
            LoadAction::Read { len } => {
                let at = cursor.offset() as usize;
                cursor.seek(frfs::file::SeekFrom::Start((at + len) as u64)).unwrap();
                loader.on_bytes(image[at..at + len].to_vec())
            }
            LoadAction::ReadHeader { limit } => {
                let at = cursor.offset() as usize;
                let end = std::cmp::min(image.len(), at + limit as usize);
                loader.on_header(at as u64, image[at..end].to_vec())
            }
            done => return done,
        };
    }
}

#[test]
fn loading_finds_the_framed_header() {
    let mut image = b"some prefix".to_vec();
    image.extend(frame_archive(&MAGIC_NUMBER_START, b"HEADER", b"0123456789", &MAGIC_NUMBER_END));
    let (mut loader, first) = Loader::new(MAGIC_NUMBER_START, MAGIC_NUMBER_END, image.len() as u64);
    assert_eq!(loader.stage, LoadStage::EndMagic);
    match drive(&image, &mut loader, first) {
        LoadAction::Parse { header, data_start } => {
            assert_eq!(header, b"HEADER".to_vec());
            assert_eq!(data_start, 11 + 15 + 6);
            assert_eq!(&image[data_start as usize..data_start as usize + 10], b"0123456789");
        }
        other => panic!("unexpected {:?}", other),
    }
    assert_eq!(loader.stage, LoadStage::Done);
}

#[test]
fn wrong_end_magic_is_illegal_data() {
    let image = frame_archive(&MAGIC_NUMBER_START, b"H", b"", b"NOTFRFS");
    let (mut loader, first) = Loader::new(MAGIC_NUMBER_START, MAGIC_NUMBER_END, image.len() as u64);
    assert!(matches!(drive(&image, &mut loader, first), LoadAction::Fail(Error::IllegalData)));
}

#[test]
fn wrong_start_magic_is_illegal_data() {
    let image = frame_archive(b"BADSTRT", b"H", b"", &MAGIC_NUMBER_END);
    let (mut loader, first) = Loader::new(MAGIC_NUMBER_START, MAGIC_NUMBER_END, image.len() as u64);
    assert!(matches!(drive(&image, &mut loader, first), LoadAction::Fail(Error::IllegalData)));
}

#[test]
fn custom_magic_numbers_load() {
    let image = frame_archive(b"1234567", b"H", b"D", b"7654321");
    let (mut loader, first) = Loader::new(*b"1234567", *b"7654321", image.len() as u64);
    assert!(matches!(drive(&image, &mut loader, first), LoadAction::Parse { .. }));
}

#[test]
fn loader_takes_only_what_it_asked_for() {
    let (mut loader, _) = Loader::new(MAGIC_NUMBER_START, MAGIC_NUMBER_END, u64::MAX);
    assert!(loader.takes(b"FRFSEnd"));
    assert!(!loader.takes(b"FRFS"));
    loader.on_bytes(b"FRFSEnd".to_vec());
    assert_eq!(loader.stage, LoadStage::DataLength);
    assert!(loader.takes(&10u64.to_be_bytes()));
    // A total length of 2^63 within the file cannot be sought back from the end.
    assert!(!loader.takes(&(1u64 << 63).to_be_bytes()));
    // In a smaller file it is simply too long.
    let (mut small, _) = Loader::new(MAGIC_NUMBER_START, MAGIC_NUMBER_END, 100);
    small.on_bytes(b"FRFSEnd".to_vec());
    assert!(small.takes(&(1u64 << 63).to_be_bytes()));
    assert!(matches!(small.on_bytes((1u64 << 63).to_be_bytes().to_vec()), LoadAction::Fail(Error::IllegalData)));
}

#[test]
fn too_short_a_file_is_illegal_data() {
    for n in [0u64, 6, 7, 14] {
        let (loader, first) = Loader::new(MAGIC_NUMBER_START, MAGIC_NUMBER_END, n);
        assert!(matches!(first, LoadAction::Fail(Error::IllegalData)));
        assert_eq!(loader.stage, LoadStage::Done);
    }
    let (_, first) = Loader::new(MAGIC_NUMBER_START, MAGIC_NUMBER_END, 15);
    assert!(matches!(first, LoadAction::SeekAndRead { .. }));
}

#[test]
fn a_total_length_past_the_file_is_illegal_data() {
    // 20 bytes: 5 of anything, a stored total length of 100, the end magic number.
    let mut image = b"FRFSv".to_vec();
    image.extend(100u64.to_be_bytes());
    image.extend(b"FRFSEnd");
    assert_eq!(image.len(), 20);
    let (mut loader, first) = Loader::new(MAGIC_NUMBER_START, MAGIC_NUMBER_END, 20);
    assert!(matches!(drive(&image, &mut loader, first), LoadAction::Fail(Error::IllegalData)));
    // A stored length of exactly the file's size is followed.
    let mut exact = frame_archive(&MAGIC_NUMBER_START, b"", b"", &MAGIC_NUMBER_END);
    assert_eq!(exact.len(), 30);
    let (mut loader, first) = Loader::new(MAGIC_NUMBER_START, MAGIC_NUMBER_END, 30);
    assert!(matches!(drive(&exact, &mut loader, first), LoadAction::Parse { .. }));
    exact[22..30].copy_from_slice(&31u64.to_be_bytes());
    let (mut loader, first) = Loader::new(MAGIC_NUMBER_START, MAGIC_NUMBER_END, 30);
    assert!(matches!(drive(&exact, &mut loader, first), LoadAction::Fail(Error::IllegalData)));
}

#[test]
fn archive_length_limit() {
    assert_eq!(frfs::format::framed_len(3, 4), Some(37));
    assert_eq!(frfs::format::framed_len(usize::MAX - 10, 5), None);
}

#[test]
fn magic_numbers_come_in_pairs() {
    assert!(matches!(choose_magic_numbers(None, None), MagicChoice::Default { warn: false }));
    assert!(matches!(choose_magic_numbers(Some(*b"AAAAAAA"), None), MagicChoice::Default { warn: true }));
    assert!(matches!(choose_magic_numbers(None, Some(*b"AAAAAAA")), MagicChoice::Default { warn: true }));
    match choose_magic_numbers(Some(*b"AAAAAAA"), Some(*b"BBBBBBB")) {
        MagicChoice::Custom { start, end } => {
            assert_eq!(&start, b"AAAAAAA");
            assert_eq!(&end, b"BBBBBBB");
        }
        other => panic!("unexpected {:?}", other),
    }
}
