use bsatoollib::BSAFile;
use bsatoollib::BsaError;
use bsatoollib::SourceFile;

fn two_file_sources() -> Vec<SourceFile> {
    vec![
        SourceFile { name: String::from("readme.txt"), data: b"hello".to_vec() },
        SourceFile { name: String::from("sub/data.bin"), data: vec![0x01, 0x02, 0x03] },
    ]
}

fn two_file_archive() -> Vec<u8> {
    let mut bsa = BSAFile::default();
    bsa.create(&two_file_sources()).unwrap();
    bsa.archive_bytes().clone()
}

#[test]
fn create_produces_exact_bytes() {
    let expected: Vec<u8> = vec![
        0, 1, 0, 0, 48, 0, 0, 0, 2, 0, 0, 0, 5, 0, 0, 0, 0, 0, 0, 0, 3, 0, 0, 0, 5, 0, 0, 0, 0, 0,
        0, 0, 11, 0, 0, 0, 114, 101, 97, 100, 109, 101, 46, 116, 120, 116, 0, 115, 117, 98, 92,
        100, 97, 116, 97, 46, 98, 105, 110, 0, 31, 101, 97, 100, 95, 139, 103, 111, 23, 20, 98, 92,
        202, 240, 145, 235, 104, 101, 108, 108, 111, 1, 2, 3,
    ];
    assert_eq!(two_file_archive(), expected);
}

#[test]
fn round_trip_two_files() {
    let image = two_file_archive();
    let bsa = BSAFile::new(image).unwrap();
    let list = bsa.get_list().unwrap();
    assert_eq!(list.len(), 2);
    assert_eq!(list[0].name, "readme.txt");
    assert_eq!(list[0].file_size, 5);
    assert_eq!(list[1].name, "sub\\data.bin");
    assert_eq!(list[1].file_size, 3);
    assert_eq!(bsa.get_file("readme.txt").unwrap(), b"hello".to_vec());
    assert_eq!(bsa.get_file("sub\\data.bin").unwrap(), vec![0x01, 0x02, 0x03]);
    match bsa.get_file("missing") {
        Err(BsaError::FileNotFound(n)) => assert_eq!(n, "missing"),
        other => panic!("expected FileNotFound, got {:?}", other),
    }
}

#[test]
fn created_instance_is_queryable() {
    let mut bsa = BSAFile::default();
    bsa.create(&two_file_sources()).unwrap();
    assert!(bsa.has_file("readme.txt").unwrap());
    assert!(bsa.has_file("sub\\data.bin").unwrap());
    assert!(!bsa.has_file("sub/data.bin").unwrap());
    assert_eq!(bsa.get_file("readme.txt").unwrap(), b"hello".to_vec());
    let list = bsa.get_list().unwrap();
    assert_eq!(list.len(), 2);
    assert_eq!(list[1].name, "sub\\data.bin");
}

#[test]
fn too_small_archive_is_rejected() {
    let r = BSAFile::new(vec![0u8; 11]);
    assert!(matches!(r, Err(BsaError::TooSmall(11))));
    let r = BSAFile::new(Vec::new());
    assert!(matches!(r, Err(BsaError::TooSmall(0))));
}

#[test]
fn bad_magic_is_rejected() {
    let mut image = two_file_archive();
    image[0] = 0xFF;
    assert!(matches!(BSAFile::new(image), Err(BsaError::BadHeader)));
    let junk = vec![0xABu8; 64];
    assert!(matches!(BSAFile::new(junk), Err(BsaError::BadHeader)));
}

#[test]
fn oversized_directory_is_rejected() {
    // One declared entry needs at least 21 bytes after the header; a
    // 12-byte image cannot hold it.
    let mut image = vec![0u8, 1, 0, 0];
    image.extend_from_slice(&[0, 0, 0, 0]); // dirsize 0
    image.extend_from_slice(&[1, 0, 0, 0]); // filenum 1
    assert!(matches!(BSAFile::new(image), Err(BsaError::DirSize)));
}

#[test]
fn short_directory_gives_position_mismatch() {
    // The guards pass, but a directory of 0 bytes cannot hold one entry's
    // 12 bytes of table words: the read position cannot land at 12 + 0.
    let mut image = vec![0u8, 1, 0, 0];
    image.extend_from_slice(&[0, 0, 0, 0]); // dirsize 0
    image.extend_from_slice(&[1, 0, 0, 0]); // filenum 1
    image.extend_from_slice(&[0u8; 21]);
    match BSAFile::new(image) {
        Err(BsaError::Position { expected, actual }) => {
            assert_eq!(expected, 12);
            assert_eq!(actual, 24);
        }
        other => panic!("expected Position, got {:?}", other),
    }
}

#[test]
fn entry_range_outside_archive_is_rejected() {
    // Corrupt the first entry's size word so offset + size reaches past
    // the end of the image.
    let mut image = two_file_archive();
    image[12] = 0xFF;
    image[13] = 0xFF;
    assert!(matches!(BSAFile::new(image), Err(BsaError::OffsetOutside)));
    // Corrupt the relative-offset word instead.
    let mut image = two_file_archive();
    image[16] = 0xFF;
    image[17] = 0xFF;
    image[18] = 0xFF;
    image[19] = 0xFF;
    assert!(matches!(BSAFile::new(image), Err(BsaError::OffsetOutside)));
}

#[test]
fn queries_before_open_fail_with_not_open() {
    let bsa = BSAFile::default();
    assert!(matches!(bsa.has_file("anything"), Err(BsaError::NotOpen)));
    assert!(matches!(bsa.get_list(), Err(BsaError::NotOpen)));
    assert!(matches!(bsa.get_file("anything"), Err(BsaError::NotOpen)));
}

#[test]
fn second_load_fails_with_already_open() {
    let image = two_file_archive();
    let mut bsa = BSAFile::new(image.clone()).unwrap();
    assert!(matches!(bsa.open(image.clone()), Err(BsaError::AlreadyOpen)));
    assert!(matches!(bsa.create(&two_file_sources()), Err(BsaError::AlreadyOpen)));
    let mut written = BSAFile::default();
    written.create(&two_file_sources()).unwrap();
    assert!(matches!(written.open(image), Err(BsaError::AlreadyOpen)));
}

#[test]
fn failed_open_leaves_instance_usable() {
    let mut bsa = BSAFile::default();
    assert!(matches!(bsa.open(vec![0u8; 5]), Err(BsaError::TooSmall(5))));
    assert!(matches!(bsa.has_file("x"), Err(BsaError::NotOpen)));
    assert!(bsa.open(two_file_archive()).is_ok());
    assert!(bsa.has_file("readme.txt").unwrap());
}

#[test]
fn lookup_is_case_sensitive() {
    let bsa = BSAFile::new(two_file_archive()).unwrap();
    assert!(bsa.has_file("readme.txt").unwrap());
    assert!(!bsa.has_file("README.TXT").unwrap());
    assert!(!bsa.has_file("Readme.txt").unwrap());
}

#[test]
fn names_are_normalized_on_create() {
    let mut bsa = BSAFile::default();
    let sources = vec![SourceFile {
        name: String::from("Sub/Data.BIN"),
        data: vec![7u8],
    }];
    bsa.create(&sources).unwrap();
    let list = bsa.get_list().unwrap();
    assert_eq!(list[0].name, "sub\\data.bin");
    assert!(bsa.has_file("sub\\data.bin").unwrap());
    assert!(!bsa.has_file("Sub/Data.BIN").unwrap());
}

#[test]
fn duplicate_names_last_wins() {
    let mut bsa = BSAFile::default();
    let sources = vec![
        SourceFile { name: String::from("twin.txt"), data: vec![1u8, 1, 1] },
        SourceFile { name: String::from("twin.txt"), data: vec![2u8, 2] },
    ];
    bsa.create(&sources).unwrap();
    let list = bsa.get_list().unwrap();
    assert_eq!(list.len(), 2);
    assert_eq!(bsa.get_file("twin.txt").unwrap(), vec![2u8, 2]);
}

#[test]
fn empty_archive_round_trips() {
    let mut bsa = BSAFile::default();
    bsa.create(&Vec::new()).unwrap();
    let image = bsa.archive_bytes().clone();
    assert_eq!(image.len(), 12);
    let reread = BSAFile::new(image).unwrap();
    assert_eq!(reread.get_list().unwrap().len(), 0);
    assert!(!reread.has_file("anything").unwrap());
}

#[test]
fn empty_payload_entries_round_trip() {
    let mut bsa = BSAFile::default();
    let sources = vec![
        SourceFile { name: String::from("empty.dat"), data: Vec::new() },
        SourceFile { name: String::from("full.dat"), data: vec![9u8; 40] },
    ];
    bsa.create(&sources).unwrap();
    let reread = BSAFile::new(bsa.archive_bytes().clone()).unwrap();
    assert_eq!(reread.get_file("empty.dat").unwrap(), Vec::<u8>::new());
    assert_eq!(reread.get_file("full.dat").unwrap(), vec![9u8; 40]);
}

#[test]
fn error_descriptions_name_each_condition() {
    assert_eq!(BsaError::NotOpen.describe(), "BSA file must be open before reading");
    assert_eq!(BsaError::AlreadyOpen.describe(), "BSA file is already open for reading");
    assert_eq!(BsaError::TooSmall(3).describe(), "File too small to be a valid BSA");
    assert_eq!(BsaError::BadHeader.describe(), "Unrecognized BSA header");
    assert_eq!(
        BsaError::DirSize.describe(),
        "Directory information larger than entire archive, file may be corrupt"
    );
    assert_eq!(BsaError::OffsetOutside.describe(), "Archive contains offsets outside itself");
    assert_eq!(
        BsaError::FileNotFound(String::from("x")).describe(),
        "File not found in archive"
    );
    assert_eq!(
        BsaError::Position { expected: 1, actual: 2 }.describe(),
        "Read file position does not match the directory size"
    );
    assert_eq!(
        BsaError::BytesWritten { expected: 1, actual: 2 }.describe(),
        "Unexpected number of bytes written"
    );
}
