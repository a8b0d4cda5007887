use std::path::PathBuf;
use stix_unpacker::archive::{
    child_named, find_first, first_volume_extension, read_catalog, safe_path, Archive, Catalog,
    Encoding, Entry, InputKind, Listed,
};
use stix_unpacker::discovery::FileName;
use stix_unpacker::error::Error;
use stix_unpacker::explode::DclError;

const STREAM: &[u8] = &[0, 4, 0x82, 0x24, 0x25, 0x8f, 0x80, 0x7f];
const PLAIN: &[u8] = b"AIAIAIAIAIAIA";

fn put16(bytes: &mut [u8], offset: usize, value: u16) {
    bytes[offset..offset + 2].copy_from_slice(&value.to_le_bytes());
}

fn put32(bytes: &mut [u8], offset: usize, value: u32) {
    bytes[offset..offset + 4].copy_from_slice(&value.to_le_bytes());
}

fn catalog(directory: &str) -> Vec<u8> {
    let mut catalog = Vec::new();
    for (count, name) in [(2, ""), (1, directory)] {
        let mut record = vec![0; 7 + name.len()];
        let length = record.len() as u16;
        put16(&mut record, 0, count);
        put16(&mut record, 2, length);
        put16(&mut record, 4, name.len() as u16);
        record[6..6 + name.len()].copy_from_slice(name.as_bytes());
        catalog.extend(record);
    }
    for (index, name) in [(0, "first.txt"), (1, "second.txt"), (0, "third.txt")] {
        let mut record = vec![0; 30 + name.len()];
        let length = record.len() as u16;
        record[0] = 8;
        put16(&mut record, 1, index);
        put32(&mut record, 3, PLAIN.len() as u32);
        put32(&mut record, 7, STREAM.len() as u32);
        put16(&mut record, 23, length);
        record[29] = name.len() as u8;
        record[30..].copy_from_slice(name.as_bytes());
        catalog.extend(record);
    }
    catalog
}

/// The volumes of an archive of three files, split over `count` volumes.
fn volumes(count: usize, directory: &str) -> Vec<Vec<u8>> {
    let catalog = catalog(directory);
    let data = STREAM.repeat(3);
    let chunk = data.len() / count;
    let mut out = Vec::new();
    for number in 1..=count {
        let mut bytes = vec![0; 255];
        bytes[..4].copy_from_slice(&[0x13, 0x5d, 0x65, 0x8c]);
        put16(&mut bytes, 12, 3);
        put32(&mut bytes, 18, (255 + data.len() + catalog.len()) as u32);
        bytes[30] = if number == 1 { count as u8 } else { 0 };
        bytes[31] = number as u8;
        put32(&mut bytes, 41, (255 + chunk) as u32);
        put16(&mut bytes, 49, 2);
        bytes.extend_from_slice(&data[(number - 1) * chunk..number * chunk]);
        bytes.extend_from_slice(&catalog);
        out.push(bytes);
    }
    out
}

fn volume_paths(count: usize) -> Vec<PathBuf> {
    (1..=count).map(|n| PathBuf::from(format!("StD.{n}"))).collect()
}

fn map(files: &[Vec<u8>]) -> Result<Archive, Error> {
    let catalogs: Vec<Result<Catalog, Error>> = files
        .iter()
        .map(|bytes| read_catalog(bytes, Encoding::Utf8))
        .collect();
    Archive::from_volumes(volume_paths(files.len()), catalogs)
}

/// The compressed bytes of `entry`, read from the data areas of `files`.
fn packed(archive: &Archive, entry: &Entry, files: &[Vec<u8>]) -> Vec<u8> {
    let (runs, complete) = archive.packed_segments(entry).unwrap();
    assert!(complete);
    let mut bytes = Vec::new();
    for run in runs {
        let start = 255 + run.within as usize;
        bytes.extend_from_slice(&files[run.volume][start..start + run.length as usize]);
    }
    bytes
}

fn name(path: &str) -> FileName {
    let p = PathBuf::from(path);
    FileName {
        name: p.file_name().and_then(|s| s.to_str()).map(|s| s.to_owned()),
        stem: p.file_stem().and_then(|s| s.to_str()).map(|s| s.to_owned()),
        extension: p.extension().and_then(|s| s.to_str()).map(|s| s.to_owned()),
        path: p,
    }
}

#[test]
fn rejects_unsafe_paths() {
    for name in [
        "",
        "../evil",
        "a/../evil",
        "/absolute",
        "C:\\evil",
        "\\\\host\\file",
        "a//b",
        "a\0b",
        "a\nb",
        "NUL.txt",
        "a.",
    ] {
        assert!(safe_path(name, false).is_err(), "{name:?}");
    }
    assert_eq!(
        safe_path("ExtForms\\Calendar\\file.txt", false).unwrap(),
        "ExtForms/Calendar/file.txt"
    );
}

#[test]
fn filename_encodings() {
    assert_eq!(
        Encoding::Windows1251
            .decode(&[0xd2, 0xe5, 0xf1, 0xf2])
            .unwrap(),
        "\u{422}\u{435}\u{441}\u{442}"
    );
    assert_eq!(Encoding::Cp437.decode(&[0x82]).unwrap(), "\u{e9}");
    assert!(Encoding::Utf8.decode(&[0xff]).is_err());
}

#[test]
fn safe_path_accepts_empty_only_where_allowed() {
    assert_eq!(safe_path("", true).unwrap(), "");
    assert!(matches!(safe_path("", false), Err(Error::UnsafePath(p)) if p.is_empty()));
    assert!(matches!(safe_path("a\\..\\b", false), Err(Error::UnsafePath(p)) if p == "a/../b"));
    assert!(safe_path("COM1", false).is_err());
    assert!(safe_path("com1.txt", false).is_err());
    assert!(safe_path("a ", false).is_err());
    assert!(safe_path("a:b", false).is_err());
    assert_eq!(safe_path("COM10.txt", false).unwrap(), "COM10.txt");
    assert_eq!(safe_path("Dir/Sub/file.txt", false).unwrap(), "Dir/Sub/file.txt");
}

#[test]
fn safe_path_is_idempotent_on_its_results() {
    for name in ["ExtForms\\Calendar\\file.txt", "a/b", "x", "Readme.TXT"] {
        let once = safe_path(name, false).unwrap();
        assert!(!once.contains('\\'));
        assert_eq!(safe_path(&once, false).unwrap(), once);
    }
}

#[test]
fn encoding_names() {
    assert_eq!(Encoding::parse("cp1251").unwrap(), Encoding::Windows1251);
    assert_eq!(Encoding::parse("windows-1251").unwrap(), Encoding::Windows1251);
    assert_eq!(Encoding::parse("cp437").unwrap(), Encoding::Cp437);
    assert_eq!(Encoding::parse("utf-8").unwrap(), Encoding::Utf8);
    assert_eq!(Encoding::parse("utf8").unwrap(), Encoding::Utf8);
    assert!(matches!(Encoding::parse("latin1"), Err(Error::UnsupportedEncoding(n)) if n == "latin1"));
    assert!(Encoding::parse("CP1251").is_err());
}

#[test]
fn decodes_ascii_and_both_code_pages() {
    assert_eq!(Encoding::Windows1251.decode(b"Readme.txt").unwrap(), "Readme.txt");
    assert_eq!(Encoding::Cp437.decode(&[0x80, 0xe1]).unwrap(), "\u{c7}\u{df}");
    assert_eq!(Encoding::Windows1251.decode(&[0xa8, 0xb8]).unwrap(), "\u{401}\u{451}");
    assert!(matches!(
        Encoding::Windows1251.decode(&[0x98]),
        Err(Error::UndefinedFilenameByte)
    ));
    assert_eq!(Encoding::Utf8.decode("é".as_bytes()).unwrap(), "é");
    assert!(matches!(Encoding::Utf8.decode(&[0xc3]), Err(Error::InvalidUtf8Filename)));
}

#[test]
fn dos_timestamps() {
    let entry = Entry {
        path: String::from("a"),
        size: 0,
        packed_size: 0,
        date: (17 << 9) | (3 << 5) | 14,
        time: (13 << 11) | (45 << 5) | 29,
        offset: 0,
    };
    assert_eq!(entry.timestamp(), "1997-03-14 13:45:58");
    let zero = Entry { date: 0, time: 0, ..entry.clone() };
    assert_eq!(zero.timestamp(), "1980-00-00 00:00:00");
    let top = Entry { date: 0xffff, time: 0xffff, ..entry };
    assert_eq!(top.timestamp(), "2107-15-31 31:63:62");
    assert_eq!(top.timestamp().len(), 19);
}

#[test]
fn reads_a_catalog() {
    let files = volumes(1, "Nested\\Folder");
    let catalog = read_catalog(&files[0], Encoding::Utf8).unwrap();
    assert_eq!(catalog.directories, vec!["", "Nested/Folder"]);
    let paths: Vec<&str> = catalog.entries.iter().map(|e| e.path.as_str()).collect();
    assert_eq!(paths, vec!["first.txt", "Nested/Folder/second.txt", "third.txt"]);
    let offsets: Vec<u64> = catalog.entries.iter().map(|e| e.offset).collect();
    assert_eq!(offsets, vec![0, 8, 16]);
    for entry in &catalog.entries {
        assert_eq!(entry.size, 13);
        assert_eq!(entry.packed_size, 8);
    }
    assert_eq!(catalog.data_size, 24);
    assert_eq!(catalog.number, 1);
    assert_eq!(catalog.total_volumes, 1);
}

#[test]
fn catalog_refusals() {
    let files = volumes(1, "Nested\\Folder");
    let mut unsigned = files[0].clone();
    unsigned[0] = 0;
    assert!(matches!(read_catalog(&unsigned, Encoding::Utf8), Err(Error::NotAnArchive)));
    assert!(matches!(read_catalog(&files[0][..100], Encoding::Utf8), Err(Error::Truncated)));
    let mut trailing = files[0].clone();
    trailing.push(0);
    assert!(read_catalog(&trailing, Encoding::Utf8).is_err());
    let unsafe_dir = volumes(1, "..\\evil");
    assert!(matches!(read_catalog(&unsafe_dir[0], Encoding::Utf8), Err(Error::UnsafePath(_))));
}

#[test]
fn maps_twelve_volumes_and_unpacks_across_them() {
    let files = volumes(12, "Nested\\Folder");
    let archive = map(&files).unwrap();
    assert_eq!(archive.volumes.len(), 12);
    assert_eq!(archive.entries[1].path, "Nested/Folder/second.txt");
    assert_eq!(archive.entries[2].path, "third.txt");
    for (index, volume) in archive.volumes.iter().enumerate() {
        assert_eq!(volume.data_size, 2);
        assert_eq!(volume.logical_start, 2 * index as u64);
        assert_eq!(volume.path, PathBuf::from(format!("StD.{}", index + 1)));
    }
    for entry in &archive.entries {
        let (runs, _) = archive.packed_segments(entry).unwrap();
        assert_eq!(runs.len(), 4);
        assert_eq!(runs.iter().map(|r| r.length).sum::<u64>(), 8);
        let bytes = packed(&archive, entry, &files);
        let mut output = Vec::new();
        archive.unpack(entry, &bytes, &mut output).unwrap();
        assert_eq!(output, PLAIN);
    }
}

#[test]
fn segments_of_a_split_entry() {
    let files = volumes(2, "Nested\\Folder");
    let archive = map(&files).unwrap();
    let (runs, complete) = archive.packed_segments(&archive.entries[1]).unwrap();
    assert!(complete);
    assert_eq!(runs.len(), 2);
    assert_eq!((runs[0].volume, runs[0].within, runs[0].length), (0, 8, 4));
    assert_eq!((runs[1].volume, runs[1].within, runs[1].length), (1, 0, 4));
    let mut outside = archive.entries[0].clone();
    outside.offset = 24;
    assert!(matches!(archive.packed_segments(&outside), Err(Error::OffsetOutsideVolumes)));
    let mut beyond = archive.entries[2].clone();
    beyond.packed_size = 12;
    let (runs, complete) = archive.packed_segments(&beyond).unwrap();
    assert!(!complete);
    assert_eq!(runs.iter().map(|r| r.length).sum::<u64>(), 8);
}

#[test]
fn unpack_reports_damage_and_trailing_bytes() {
    let files = volumes(1, "Nested\\Folder");
    let archive = map(&files).unwrap();
    let entry = &archive.entries[0];
    let mut bytes = packed(&archive, entry, &files);
    let mut output = Vec::new();
    archive.unpack(entry, &bytes, &mut output).unwrap();
    assert_eq!(output, PLAIN);
    bytes[1] = 9;
    assert!(matches!(
        archive.unpack(entry, &bytes, &mut Vec::new()),
        Err(Error::Dcl(DclError::InvalidDictionarySize))
    ));
    let mut larger = entry.clone();
    larger.size = 14;
    let good = packed(&archive, entry, &files);
    assert!(matches!(
        archive.unpack(&larger, &good, &mut Vec::new()),
        Err(Error::Dcl(DclError::SizeMismatch { expected: 14, got: 13 }))
    ));
}

#[test]
fn from_volumes_refusals() {
    assert!(matches!(
        Archive::from_volumes(Vec::new(), Vec::new()),
        Err(Error::EmptyVolumeMap)
    ));
    let mut files = volumes(3, "Nested\\Folder");
    let mut second = files[1].clone();
    second[31] = 3;
    assert!(matches!(
        map(&[files[0].clone(), second, files[2].clone()]),
        Err(Error::ForeignVolume(2))
    ));
    let mut later = files.clone();
    later.remove(0);
    assert!(matches!(map(&later), Err(Error::ContinuationVolume)));
    files.truncate(2);
    assert!(map(&files).is_err());
}

#[test]
fn finds_the_first_volume() {
    let file = name("dir/StD.1");
    assert_eq!(find_first(&file, InputKind::File).unwrap(), PathBuf::from("dir/StD.1"));
    assert!(matches!(find_first(&name("dir/StD.2"), InputKind::File), Err(Error::NotFirstVolume)));
    assert!(find_first(&name("dir/StD.+1"), InputKind::File).is_ok());
    assert!(find_first(&name("dir/data.z"), InputKind::File).is_ok());
    assert!(find_first(&name("dir/data.99999999999"), InputKind::File).is_ok());
    assert!(matches!(
        find_first(&name("gone"), InputKind::Missing),
        Err(Error::InputNotFound(p)) if p == PathBuf::from("gone")
    ));
    let dir = name("dir");
    let directory = |entries: Vec<Listed>, disk1: Option<Vec<Listed>>| InputKind::Directory {
        entries,
        disk1,
    };
    assert_eq!(
        find_first(&dir, directory(vec![listed("dir", "a.1", true, false)], None)).unwrap(),
        PathBuf::from("dir/a.1")
    );
    assert!(matches!(
        find_first(&dir, directory(Vec::new(), None)),
        Err(Error::NoFirstVolume(p)) if p == PathBuf::from("dir")
    ));
    assert!(matches!(
        find_first(
            &dir,
            directory(vec![listed("dir", "StD.1", true, false), listed("dir", "other.1", true, false)], None)
        ),
        Err(Error::MultipleFirstVolumes)
    ));
    // Only regular files whose extension is exactly 1 count.
    let top = vec![
        listed("dir", "a.01", true, false),
        listed("dir", "b.1", false, true),
        listed("dir", "c.2", true, false),
        listed("dir", "disk1", false, true),
    ];
    let inner = vec![listed("dir/disk1", "StD.1", true, false)];
    assert_eq!(
        find_first(&dir, directory(top, Some(inner))).unwrap(),
        PathBuf::from("dir/disk1/StD.1")
    );
    // A DISK1 entry that is no directory adds nothing.
    let top = vec![listed("dir", "x.1", true, false), listed("dir", "DISK1", true, false)];
    assert_eq!(find_first(&dir, directory(top, None)).unwrap(), PathBuf::from("dir/x.1"));
    // The first volumes of the directory and of its DISK1 directory together.
    let top = vec![listed("dir", "x.1", true, false), listed("dir", "Disk1", false, true)];
    let inner = vec![listed("dir/Disk1", "y.1", true, false)];
    assert!(matches!(
        find_first(&dir, directory(top, Some(inner))),
        Err(Error::MultipleFirstVolumes)
    ));
    // Two entries called DISK1 in any ASCII case are refused.
    let top = vec![
        listed("dir", "x.1", true, false),
        listed("dir", "DISK1", false, true),
        listed("dir", "disk1", false, true),
    ];
    assert!(matches!(
        find_first(&dir, directory(top, None)),
        Err(Error::AmbiguousName(n, p)) if n == "DISK1" && p == PathBuf::from("dir")
    ));
}

#[test]
fn first_volume_extensions_and_disk_children() {
    assert!(first_volume_extension(&Some(String::from("1"))));
    assert!(!first_volume_extension(&Some(String::from("01"))));
    assert!(!first_volume_extension(&None));
    let entries = vec![listed("d", "readme", true, false), listed("d", "disk1", false, true)];
    assert_eq!(
        child_named(&entries, "DISK1", &PathBuf::from("d")).unwrap(),
        Some(PathBuf::from("d/disk1"))
    );
    assert_eq!(child_named(&entries, "DISK2", &PathBuf::from("d")).unwrap(), None);
    assert_eq!(child_named(&entries, "README", &PathBuf::from("d")).unwrap(), None);
    let mut twice = entries;
    twice.push(listed("d", "Disk1", false, true));
    assert!(matches!(
        child_named(&twice, "DISK1", &PathBuf::from("d")),
        Err(Error::AmbiguousName(n, p)) if n == "DISK1" && p == PathBuf::from("d")
    ));
}

/// A single volume whose directories are (file count, name) and whose files
/// are (directory index, name), each file holding the sample stream.
fn volume_with(dirs: &[(u16, &str)], files: &[(u16, &str)]) -> Vec<u8> {
    let mut catalog = Vec::new();
    for (count, name) in dirs {
        let mut record = vec![0; 7 + name.len()];
        let length = record.len() as u16;
        put16(&mut record, 0, *count);
        put16(&mut record, 2, length);
        put16(&mut record, 4, name.len() as u16);
        record[6..6 + name.len()].copy_from_slice(name.as_bytes());
        catalog.extend(record);
    }
    for (index, name) in files {
        let mut record = vec![0; 30 + name.len()];
        let length = record.len() as u16;
        put16(&mut record, 1, *index);
        put32(&mut record, 3, PLAIN.len() as u32);
        put32(&mut record, 7, STREAM.len() as u32);
        put16(&mut record, 23, length);
        record[29] = name.len() as u8;
        record[30..].copy_from_slice(name.as_bytes());
        catalog.extend(record);
    }
    let data = STREAM.repeat(files.len());
    let mut bytes = vec![0; 255];
    bytes[..4].copy_from_slice(&[0x13, 0x5d, 0x65, 0x8c]);
    put16(&mut bytes, 12, files.len() as u16);
    put32(&mut bytes, 18, (255 + data.len() + catalog.len()) as u32);
    bytes[30] = 1;
    bytes[31] = 1;
    put32(&mut bytes, 41, (255 + data.len()) as u32);
    put16(&mut bytes, 49, dirs.len() as u16);
    bytes.extend_from_slice(&data);
    bytes.extend_from_slice(&catalog);
    bytes
}

fn refusal(bytes: &[u8]) -> Error {
    match read_catalog(bytes, Encoding::Utf8) {
        Err(e) => e,
        Ok(_) => panic!("catalog accepted"),
    }
}

#[test]
fn catalog_record_refusals() {
    let good = volume_with(&[(2, ""), (1, "Dir")], &[(0, "a.txt"), (1, "b.txt"), (0, "c.txt")]);
    assert_eq!(read_catalog(&good, Encoding::Utf8).unwrap().entries.len(), 3);
    let data_end = 255 + 3 * STREAM.len();

    let mut offset = good.clone();
    put32(&mut offset, 41, 10);
    assert!(matches!(refusal(&offset), Error::InvalidDirectoryTableOffset));

    let mut short = good.clone();
    put16(&mut short, data_end + 2, 3);
    assert!(matches!(refusal(&short), Error::RecordShorterThanHeader));

    let mut dir_name = good.clone();
    put16(&mut dir_name, data_end + 4, 1);
    assert!(matches!(refusal(&dir_name), Error::InvalidDirectoryName));

    let bad_index = volume_with(&[(2, ""), (1, "Dir")], &[(0, "a.txt"), (5, "b.txt"), (0, "c.txt")]);
    assert!(matches!(refusal(&bad_index), Error::InvalidDirectoryIndex));

    let too_many = volume_with(&[(1, ""), (1, "Dir")], &[(0, "a.txt"), (1, "b.txt"), (0, "c.txt")]);
    assert!(matches!(refusal(&too_many), Error::DirectoryCountMismatch));
    let too_few = volume_with(&[(3, ""), (1, "Dir")], &[(0, "a.txt"), (1, "b.txt"), (0, "c.txt")]);
    assert!(matches!(refusal(&too_few), Error::DirectoryCountMismatch));

    let mut name_length = good.clone();
    let first_file = data_end + 7 + 10;
    name_length[first_file + 29] = 0;
    assert!(matches!(refusal(&name_length), Error::InvalidFileNameLength));

    let separator = volume_with(&[(1, "")], &[(0, "a\\b.txt")]);
    assert!(matches!(refusal(&separator), Error::FileNameHasSeparator));

    let twice = volume_with(&[(2, "")], &[(0, "a.txt"), (0, "A.TXT")]);
    assert!(matches!(refusal(&twice), Error::DuplicatePath(p) if p == "A.TXT"));

    let mut size = good.clone();
    put32(&mut size, 18, 1);
    assert!(matches!(refusal(&size), Error::ArchiveSizeMismatch));

    let conflict = volume_with(&[(1, ""), (1, "Dir/Sub")], &[(0, "dir"), (1, "x.txt")]);
    assert!(matches!(refusal(&conflict), Error::PathConflict));

    let mut trailing = good.clone();
    trailing.push(0);
    assert!(matches!(refusal(&trailing), Error::TrailingCatalogData));
}

/// `files` with the data area of volume `index` cut to `keep` bytes.
fn cut_data(files: &[Vec<u8>], index: usize, keep: usize) -> Vec<Vec<u8>> {
    let mut out = files.to_vec();
    let bytes = &files[index];
    let names = u32::from_le_bytes([bytes[41], bytes[42], bytes[43], bytes[44]]) as usize;
    let mut cut = bytes[..255 + keep].to_vec();
    cut.extend_from_slice(&bytes[names..]);
    put32(&mut cut, 41, (255 + keep) as u32);
    out[index] = cut;
    out
}

#[test]
fn volume_map_refusals() {
    let files = volumes(2, "Nested\\Folder");
    assert!(matches!(map(&cut_data(&files, 1, 0)), Err(Error::EmptyDataArea(2))));
    assert!(matches!(map(&cut_data(&files, 1, 6)), Err(Error::PayloadSizeMismatch)));
    let mut broken = files.clone();
    broken[1][0] = 0;
    assert!(matches!(
        map(&broken),
        Err(Error::Catalog(p, e)) if p == PathBuf::from("StD.2") && matches!(*e, Error::NotAnArchive)
    ));
}

#[test]
fn unpack_past_the_last_volume_and_trailing_bytes() {
    let short = Archive {
        entries: vec![Entry {
            path: String::from("f"),
            size: 13,
            packed_size: 8,
            date: 0,
            time: 0,
            offset: 0,
        }],
        directories: vec![String::new()],
        volumes: vec![stix_unpacker::archive::Volume {
            path: PathBuf::from("v.1"),
            data_size: 4,
            logical_start: 0,
        }],
    };
    let entry = &short.entries[0];
    let (runs, complete) = short.packed_segments(entry).unwrap();
    assert!(!complete);
    assert_eq!(runs.len(), 1);
    assert!(matches!(
        short.unpack(entry, &STREAM[..4], &mut Vec::new()),
        Err(Error::BeyondFinalVolume)
    ));
    let files = volumes(1, "Nested\\Folder");
    let archive = map(&files).unwrap();
    let mut longer = archive.entries[0].clone();
    longer.packed_size = 12;
    let bytes = packed(&archive, &longer, &files);
    let mut output = Vec::new();
    assert!(matches!(archive.unpack(&longer, &bytes, &mut output), Err(Error::TrailingBytes)));
    assert_eq!(output, PLAIN);
}

fn listed(directory: &str, name: &str, is_file: bool, is_dir: bool) -> Listed {
    let path = PathBuf::from(directory).join(name);
    Listed {
        name: String::from(name),
        extension: path.extension().and_then(|e| e.to_str()).map(String::from),
        path,
        is_file,
        is_dir,
    }
}
