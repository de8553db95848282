use luminol_fs::archiver::{FileSystem, SeekFrom};
use luminol_fs::codec::{read_file_xor, read_header};
use luminol_fs::magic::{advance_magic, regress_magic};
use luminol_fs::writer::build_archive_v12;
use luminol_fs::{Error, IoErrorKind, OpenFlags, CREATE, READ, TRUNCATE, WRITE};

fn sample_files() -> Vec<(String, Vec<u8>)> {
    vec![
        ("Data/Actors.rxdata".to_string(), b"actors".to_vec()),
        ("Graphics/Titles/title.png".to_string(), vec![1, 2, 3, 4, 5, 6, 7, 8, 9]),
        ("Data/Scripts.rxdata".to_string(), Vec::new()),
    ]
}

#[test]
fn magic_steps_back_and_forth() {
    let mut m: u32 = 0xDEADCAFE;
    let before = advance_magic(&mut m);
    assert_eq!(before, 0xDEADCAFE);
    assert_eq!(m, 0xDEADCAFEu32.wrapping_mul(7).wrapping_add(3));
    let prev = regress_magic(&mut m);
    assert_eq!(prev, 0xDEADCAFEu32.wrapping_mul(7).wrapping_add(3));
    assert_eq!(m, 0xDEADCAFE);
    let mut z: u32 = 0;
    regress_magic(&mut z);
    advance_magic(&mut z);
    assert_eq!(z, 0);
}

#[test]
fn xor_stream_is_its_own_inverse() {
    let data: Vec<u8> = (0u8..40).collect();
    let once = read_file_xor(&data, 0x1234_5678);
    assert_ne!(once, data);
    assert_eq!(read_file_xor(&once, 0x1234_5678), data);
    // The first four bytes are keyed with the little-endian bytes of the start value.
    assert_eq!(once[0], 0 ^ 0x78);
    assert_eq!(once[1], 1 ^ 0x56);
    assert_eq!(once[2], 2 ^ 0x34);
    assert_eq!(once[3], 3 ^ 0x12);
}

#[test]
fn header_errors() {
    assert_eq!(read_header(b"RGSSAD"), Err(Error::IoError(IoErrorKind::UnexpectedEof)));
    assert_eq!(read_header(b"RGSSAX\0\x01"), Err(Error::InvalidHeader));
    assert_eq!(read_header(b"RGSSAD\0\x03"), Ok(3));
    assert!(matches!(FileSystem::new(b"RGSSAD\0\x04".to_vec()), Err(Error::InvalidArchiveVersion(4))));
    assert!(matches!(FileSystem::new(b"not an archive".to_vec()), Err(Error::InvalidHeader)));
    assert!(matches!(FileSystem::new(b"RGS".to_vec()), Err(Error::IoError(IoErrorKind::UnexpectedEof))));
}

#[test]
fn built_archive_reads_back() {
    let files = sample_files();
    let (bytes, entries) = build_archive_v12(1, &files);
    assert_eq!(&bytes[0..8], b"RGSSAD\0\x01");
    assert_eq!(entries.len(), 3);
    assert_eq!(entries[0].1.header_offset, 8);
    assert_eq!(entries[0].1.body_offset, 8 + 8 + 18);
    let fs = FileSystem::new(bytes).unwrap();
    assert_eq!(fs.version(), 1);
    for (path, contents) in &files {
        assert_eq!(&fs.read(path).unwrap(), contents);
    }
    assert!(matches!(fs.read("Data/Missing.rxdata"), Err(Error::NotExist)));
    let m = fs.metadata("Graphics/Titles/title.png").unwrap();
    assert!(m.is_file);
    assert_eq!(m.size, 9);
    let d = fs.metadata("Data").unwrap();
    assert!(!d.is_file);
    assert_eq!(d.size, 2);
    assert_eq!(fs.metadata("").unwrap().size, 2);
    assert!(fs.path_exists("Graphics/Titles").unwrap());
    assert!(!fs.path_exists("Audio").unwrap());
}

#[test]
fn write_then_read_gives_the_data_back() {
    for version in [1u8, 2, 3] {
        let mut fs = FileSystem::from_files(version, &sample_files()).unwrap();
        fs.write("Data/Actors.rxdata", b"a much longer list of actors").unwrap();
        assert_eq!(fs.read("Data/Actors.rxdata").unwrap(), b"a much longer list of actors".to_vec());
        assert_eq!(fs.read("Graphics/Titles/title.png").unwrap(), vec![1, 2, 3, 4, 5, 6, 7, 8, 9]);
        fs.write("Data/Scripts.rxdata", b"same").unwrap();
        fs.write("Data/Scripts.rxdata", b"SAME").unwrap();
        assert_eq!(fs.read("Data/Scripts.rxdata").unwrap(), b"SAME".to_vec());
        fs.write("Audio/BGM/theme.ogg", b"music").unwrap();
        assert_eq!(fs.read("Audio/BGM/theme.ogg").unwrap(), b"music".to_vec());
        // Reopening the bytes finds the same files.
        let again = FileSystem::new(fs.archive().clone()).unwrap();
        assert_eq!(again.read("Data/Actors.rxdata").unwrap(), b"a much longer list of actors".to_vec());
        assert_eq!(again.read("Audio/BGM/theme.ogg").unwrap(), b"music".to_vec());
        assert_eq!(again.read("Graphics/Titles/title.png").unwrap(), vec![1, 2, 3, 4, 5, 6, 7, 8, 9]);
    }
}

#[test]
fn resizing_moves_a_version_1_file_to_the_end() {
    let mut fs = FileSystem::from_files(1, &sample_files()).unwrap();
    fs.write("Data/Actors.rxdata", b"longer actors").unwrap();
    let (expected, _) = build_archive_v12(
        1,
        &vec![
            ("Graphics/Titles/title.png".to_string(), vec![1, 2, 3, 4, 5, 6, 7, 8, 9]),
            ("Data/Scripts.rxdata".to_string(), Vec::new()),
            ("Data/Actors.rxdata".to_string(), b"longer actors".to_vec()),
        ],
    );
    assert_eq!(fs.archive(), &expected);
    // A write of the same size stays in place.
    fs.write("Graphics/Titles/title.png", &[9, 8, 7, 6, 5, 4, 3, 2, 1]).unwrap();
    let (expected, _) = build_archive_v12(
        1,
        &vec![
            ("Graphics/Titles/title.png".to_string(), vec![9, 8, 7, 6, 5, 4, 3, 2, 1]),
            ("Data/Scripts.rxdata".to_string(), Vec::new()),
            ("Data/Actors.rxdata".to_string(), b"longer actors".to_vec()),
        ],
    );
    assert_eq!(fs.archive(), &expected);
}

#[test]
fn remove_and_rename() {
    for version in [1u8, 3] {
        let mut fs = FileSystem::from_files(version, &sample_files()).unwrap();
        fs.remove_file("Data/Actors.rxdata").unwrap();
        assert!(matches!(fs.read("Data/Actors.rxdata"), Err(Error::NotExist)));
        assert!(matches!(fs.remove_file("Data/Actors.rxdata"), Err(Error::NotExist)));
        assert_eq!(fs.read("Graphics/Titles/title.png").unwrap(), vec![1, 2, 3, 4, 5, 6, 7, 8, 9]);
        fs.rename("Graphics/Titles/title.png", "Graphics/Titles/intro.png").unwrap();
        assert_eq!(fs.read("Graphics/Titles/intro.png").unwrap(), vec![1, 2, 3, 4, 5, 6, 7, 8, 9]);
        assert!(!fs.path_exists("Graphics/Titles/title.png").unwrap());
        fs.rename("Graphics/Titles/intro.png", "Graphics/Pictures/a.png").unwrap();
        assert_eq!(fs.read("Graphics/Pictures/a.png").unwrap(), vec![1, 2, 3, 4, 5, 6, 7, 8, 9]);
        assert!(matches!(fs.rename("Graphics", "Other"), Err(Error::NotSupported)));
        assert!(matches!(
            fs.rename("Graphics/Pictures/a.png", "Data/Scripts.rxdata"),
            Err(Error::IoError(IoErrorKind::AlreadyExists))
        ));
        assert!(matches!(fs.rename("Nowhere/x.png", "Data/y.png"), Err(Error::NotExist)));
        let again = FileSystem::new(fs.archive().clone()).unwrap();
        assert_eq!(again.read("Graphics/Pictures/a.png").unwrap(), vec![1, 2, 3, 4, 5, 6, 7, 8, 9]);
        assert!(matches!(again.read("Data/Actors.rxdata"), Err(Error::NotExist)));
    }
}

#[test]
fn directories() {
    let mut fs = FileSystem::from_files(2, &sample_files()).unwrap();
    fs.create_dir("Audio/SE").unwrap();
    assert!(fs.path_exists("Audio").unwrap());
    assert!(fs.path_exists("Audio/SE").unwrap());
    assert!(matches!(fs.create_dir("Data/Actors.rxdata"), Err(Error::IoError(IoErrorKind::AlreadyExists))));
    let mut root: Vec<String> = fs.read_dir("").unwrap().into_iter().map(|e| e.path).collect();
    root.sort();
    assert_eq!(root, vec!["Audio".to_string(), "Data".to_string(), "Graphics".to_string()]);
    let data = fs.read_dir("Data").unwrap();
    assert_eq!(data.len(), 2);
    assert!(data.iter().all(|e| e.metadata.is_file));
    assert!(data.iter().any(|e| e.path == "Data/Actors.rxdata" && e.metadata.size == 6));
    assert!(matches!(fs.read_dir("Nowhere"), Err(Error::NotExist)));
    fs.remove_dir("Data").unwrap();
    assert!(!fs.path_exists("Data").unwrap());
    assert!(matches!(fs.read("Data/Actors.rxdata"), Err(Error::NotExist)));
    assert_eq!(fs.read("Graphics/Titles/title.png").unwrap(), vec![1, 2, 3, 4, 5, 6, 7, 8, 9]);
    assert!(matches!(fs.remove_dir("Data"), Err(Error::NotExist)));
    fs.remove("Graphics/Titles/title.png").unwrap();
    assert!(!fs.path_exists("Graphics/Titles/title.png").unwrap());
}

#[test]
fn files_opened_with_flags() {
    let mut fs = FileSystem::from_files(1, &sample_files()).unwrap();
    let mut f = fs.open_file("Data/Actors.rxdata", OpenFlags::from_bits_truncate(READ)).unwrap();
    assert_eq!(f.read(3).unwrap(), b"act".to_vec());
    assert_eq!(f.read(10).unwrap(), b"ors".to_vec());
    assert_eq!(f.write(b"x"), Err(Error::IoError(IoErrorKind::PermissionDenied)));
    assert_eq!(f.seek(SeekFrom::End(-2)).unwrap(), 4);
    assert_eq!(f.read(5).unwrap(), b"rs".to_vec());
    assert_eq!(f.seek(SeekFrom::Current(-10)), Err(Error::IoError(IoErrorKind::InvalidInput)));

    let mut w = fs.open_file("Data/Actors.rxdata", OpenFlags::from_bits_truncate(WRITE)).unwrap();
    assert_eq!(w.read(1), Err(Error::IoError(IoErrorKind::PermissionDenied)));
    w.seek(SeekFrom::Start(8)).unwrap();
    w.write(b"!!").unwrap();
    w.flush(&mut fs).unwrap();
    assert_eq!(fs.read("Data/Actors.rxdata").unwrap(), b"actors\0\0!!".to_vec());

    assert!(matches!(
        fs.open_file("Data/New.rxdata", OpenFlags::from_bits_truncate(READ)),
        Err(Error::NotExist)
    ));
    let mut c = fs
        .open_file("Data/New.rxdata", OpenFlags::from_bits_truncate(WRITE | CREATE | TRUNCATE))
        .unwrap();
    assert_eq!(fs.read("Data/New.rxdata").unwrap(), Vec::<u8>::new());
    c.write(b"fresh").unwrap();
    c.set_len(3).unwrap();
    c.flush(&mut fs).unwrap();
    assert_eq!(fs.read("Data/New.rxdata").unwrap(), b"fre".to_vec());
    assert_eq!(fs.read_to_string("Data/New.rxdata").unwrap(), "fre".to_string());
    assert!(matches!(fs.open_file("Data\\Bad.rxdata", OpenFlags::from_bits_truncate(CREATE | WRITE)), Err(Error::NotSupported)));
}

#[test]
fn from_files_errors() {
    assert!(matches!(FileSystem::from_files(4, &sample_files()), Err(Error::NotSupported)));
    let dup = vec![("a".to_string(), vec![1]), ("a".to_string(), vec![2])];
    assert!(matches!(FileSystem::from_files(1, &dup), Err(Error::IoError(IoErrorKind::AlreadyExists))));
    let slash = vec![("a\\b".to_string(), vec![1])];
    assert!(matches!(FileSystem::from_files(1, &slash), Err(Error::NotSupported)));
    let v3 = FileSystem::from_files(3, &sample_files()).unwrap();
    assert_eq!(v3.version(), 3);
    assert_eq!(v3.archive().len(), 8 + 4 + (18 + 16) + (25 + 16) + (19 + 16) + 4 + 6 + 9);
}

#[test]
fn archives_laid_out_otherwise_are_edited_too() {
    let files = sample_files();
    let (mut bytes, _) = build_archive_v12(1, &files);
    // Two stray bytes after the last file: the headers still parse to the same files.
    bytes.push(0xAB);
    bytes.push(0xCD);
    let mut fs = FileSystem::new(bytes).unwrap();
    assert_eq!(fs.read("Data/Actors.rxdata"), Ok(b"actors".to_vec()));
    assert_eq!(fs.replace_contents("Data/Actors.rxdata", &b"heroes!".to_vec()), Ok(()));
    assert_eq!(fs.rename("Data/Scripts.rxdata", "Data/Code.rxdata"), Ok(()));
    assert_eq!(fs.remove_file("Graphics/Titles/title.png"), Ok(()));
    let reloaded = FileSystem::new(fs.archive().clone()).unwrap();
    assert_eq!(reloaded.read("Data/Actors.rxdata"), Ok(b"heroes!".to_vec()));
    assert_eq!(reloaded.read("Data/Code.rxdata"), Ok(Vec::new()));
    assert_eq!(reloaded.path_exists("Data/Scripts.rxdata"), Ok(false));
    assert_eq!(reloaded.path_exists("Graphics/Titles"), Ok(false));
    assert_eq!(reloaded.metadata("Data/Actors.rxdata").unwrap().size, 7);
}

#[test]
fn the_root_directory_cannot_be_created_as_a_file() {
    let mut fs = FileSystem::from_files(1, &sample_files()).unwrap();
    let before = fs.archive().clone();
    assert!(matches!(fs.open_file("", OpenFlags::from_bits_truncate(CREATE | WRITE)), Err(Error::IoError(IoErrorKind::AlreadyExists))));
    assert_eq!(fs.archive(), &before);
}

#[test]
fn listings_hold_every_child_once() {
    let fs = FileSystem::from_files(2, &sample_files()).unwrap();
    let root = fs.read_dir("").unwrap();
    assert_eq!(root.len(), 2);
    let data = fs.read_dir("Data").unwrap();
    let mut names: Vec<String> = data.into_iter().map(|e| e.path).collect();
    names.sort();
    assert_eq!(names, vec!["Data/Actors.rxdata".to_string(), "Data/Scripts.rxdata".to_string()]);
    let mut fs = fs;
    assert_eq!(fs.remove_dir("Graphics"), Ok(()));
    assert_eq!(fs.read_dir("").unwrap().len(), 1);
}

#[test]
fn reloaded_archives_give_each_file_its_size() {
    for version in 1u8..=3 {
        let made = FileSystem::from_files(version, &sample_files()).unwrap();
        let loaded = FileSystem::new(made.archive().clone()).unwrap();
        for (path, contents) in sample_files() {
            assert_eq!(loaded.read(&path), Ok(contents.clone()));
            let md = loaded.metadata(&path).unwrap();
            assert!(md.is_file);
            assert_eq!(md.size, contents.len() as u64);
        }
        assert_eq!(loaded.read_dir("").unwrap().len(), 2);
    }
}

#[test]
fn an_empty_path_is_refused_when_building_an_archive() {
    let files = vec![("".to_string(), b"x".to_vec())];
    assert!(matches!(FileSystem::from_files(1, &files), Err(Error::IoError(IoErrorKind::InvalidInput))));
}

#[test]
fn a_created_file_reports_size_zero() {
    let mut fs = FileSystem::from_files(3, &sample_files()).unwrap();
    fs.open_file("Data/New.rxdata", OpenFlags::from_bits_truncate(CREATE | WRITE)).unwrap();
    let md = fs.metadata("Data/New.rxdata").unwrap();
    assert!(md.is_file);
    assert_eq!(md.size, 0);
    let reloaded = FileSystem::new(fs.archive().clone()).unwrap();
    assert_eq!(reloaded.metadata("Data/New.rxdata").unwrap().size, 0);
}
