use std::path::PathBuf;
use stix_unpacker::discovery::{
    disk_directory, explicit_name_check, explicit_selection, numbered_name, probe_header,
    selection_root, std_name, discover, discover_std, ArchiveGroup, Discovery, FileName,
};
use stix_unpacker::error::Error;

fn file(path: &str) -> FileName {
    let p = PathBuf::from(path);
    FileName {
        name: p.file_name().and_then(|s| s.to_str()).map(|s| s.to_owned()),
        stem: p.file_stem().and_then(|s| s.to_str()).map(|s| s.to_owned()),
        extension: p.extension().and_then(|s| s.to_str()).map(|s| s.to_owned()),
        path: p,
    }
}

fn names(groups: &[ArchiveGroup]) -> Vec<&str> {
    groups.iter().map(|g| g.name.as_str()).collect()
}

/// Runs a scan over `found`: each file with the volume number and count of
/// its header.
fn scan(mut scan: Discovery, found: &[(&str, u8, u8)]) -> Result<Vec<ArchiveGroup>, Error> {
    for &(path, number, count) in found {
        let f = file(path);
        if scan.wants(&f) {
            scan.add(f, number, count)?;
        }
    }
    scan.finish()
}

#[test]
fn volume_names() {
    assert_eq!(numbered_name(&file("d/StD.12")).unwrap(), Some((String::from("StD"), 12)));
    assert_eq!(numbered_name(&file("d/data.z")).unwrap(), None);
    assert_eq!(numbered_name(&file("d/noext")).unwrap(), None);
    assert_eq!(numbered_name(&file("d/x.1a")).unwrap(), None);
    assert!(matches!(numbered_name(&file("d/StD.0")), Err(Error::VolumeNumberZero(p)) if p == PathBuf::from("d/StD.0")));
    assert!(matches!(
        numbered_name(&file("d/StD.99999999999999999999999")),
        Err(Error::VolumeNumberTooLarge)
    ));
    let mut nameless = file("d/StD.3");
    nameless.stem = None;
    assert!(matches!(numbered_name(&nameless), Err(Error::InvalidBasename)));
}

#[test]
fn disk_and_std_names() {
    for name in ["DISK1", "disk12", "dIsK7"] {
        assert!(disk_directory(&Some(String::from(name))), "{name}");
    }
    for name in ["DISK", "DISKA", "DISK1a", "xDISK1"] {
        assert!(!disk_directory(&Some(String::from(name))), "{name}");
    }
    assert!(!disk_directory(&None));
    assert!(std_name(&Some(String::from("StD.1"))));
    assert!(std_name(&Some(String::from("stdcv.z"))));
    assert!(!std_name(&Some(String::from("st"))));
    assert!(!std_name(&Some(String::from("demo.z"))));
    assert!(!std_name(&None));
}

#[test]
fn header_probes() {
    let mut head = vec![0u8; 255];
    head[..4].copy_from_slice(&[0x13, 0x5d, 0x65, 0x8c]);
    head[30] = 3;
    head[31] = 2;
    assert_eq!(probe_header(PathBuf::from("a"), &head).unwrap(), Some((2, 3)));
    assert_eq!(probe_header(PathBuf::from("a"), b"plain text").unwrap(), None);
    assert_eq!(probe_header(PathBuf::from("a"), b"").unwrap(), None);
    assert!(matches!(
        probe_header(PathBuf::from("a"), &head[..100]),
        Err(Error::IncompleteHeader(p)) if p == PathBuf::from("a")
    ));
}

#[test]
fn explicit_inputs() {
    assert!(explicit_name_check(&file("d/StD.1"), true).is_ok());
    assert!(matches!(explicit_name_check(&file("d/demo.z"), true), Err(Error::NotStdArchive)));
    assert!(explicit_name_check(&file("d/demo.z"), false).is_ok());
    assert!(matches!(explicit_selection(&file("d/demo.z"), false), Err(Error::NotAnArchiveFile)));
    assert_eq!(explicit_selection(&file("d/demo.z"), true).unwrap(), None);
    assert_eq!(explicit_selection(&file("d/StD.1"), true).unwrap(), Some(String::from("StD")));
    assert!(matches!(explicit_selection(&file("d/StD.2"), true), Err(Error::NotFirstVolume)));
}

#[test]
fn groups_mapped_independent_of_disk_names() {
    let groups = scan(
        discover(None),
        &[
            ("r/DISK4/PaYlOaD.3", 3, 0),
            ("r/DISK99/PaYlOaD.1", 1, 3),
            ("r/another-set/second.1", 1, 2),
            ("r/another-set/second.2", 2, 0),
            ("r/misc/deep/PaYlOaD.2", 2, 0),
            ("r/single/data.Z", 1, 1),
            ("r/unknown-extension.bin", 1, 1),
        ],
    )
    .unwrap();
    assert_eq!(names(&groups), ["data.Z", "PaYlOaD", "second", "unknown-extension.bin"]);
    assert_eq!(
        groups[1].volumes,
        vec![
            PathBuf::from("r/DISK99/PaYlOaD.1"),
            PathBuf::from("r/misc/deep/PaYlOaD.2"),
            PathBuf::from("r/DISK4/PaYlOaD.3"),
        ]
    );
    assert_eq!(groups[2].volumes.len(), 2);
    assert_eq!(groups[0].volumes, vec![PathBuf::from("r/single/data.Z")]);
}

#[test]
fn gaps_duplicates_and_mismatches_in_a_scan() {
    let missing_first = scan(discover(None), &[("d/StD.2", 2, 0), ("d/StD.3", 3, 0)]);
    assert!(matches!(missing_first, Err(Error::MissingVolume(1, n)) if n == "std"));
    let gap = scan(discover(None), &[("d/StD.1", 1, 3), ("d/StD.3", 3, 0)]);
    assert!(matches!(gap, Err(Error::MissingVolume(2, n)) if n == "std"));
    let mismatch = scan(discover(None), &[("d/StD.1", 1, 3), ("d/StD.4", 2, 0)]);
    assert!(matches!(
        mismatch,
        Err(Error::VolumeNumberMismatch(p, 4, 2)) if p == PathBuf::from("d/StD.4")
    ));
    let twice = scan(discover(None), &[("d/StD.1", 1, 2), ("d/StD.2", 2, 0), ("e/STD.2", 2, 0)]);
    assert!(matches!(
        twice,
        Err(Error::MultipleCandidates(2, n, a, b))
            if n == "STD" && a == PathBuf::from("d/StD.2") && b == PathBuf::from("e/STD.2")
    ));
    let count = scan(discover(None), &[("d/StD.1", 1, 3), ("d/StD.2", 2, 0)]);
    assert!(matches!(count, Err(Error::VolumeCountMismatch(n, 3, 2)) if n == "std"));
    let unnumbered = scan(discover(None), &[("d/install.z", 2, 0)]);
    assert!(matches!(
        unnumbered,
        Err(Error::MultipartWithoutNumber(p)) if p == PathBuf::from("d/install.z")
    ));
    let counted = scan(discover(None), &[("d/install.z", 0, 3)]);
    assert!(matches!(counted, Err(Error::MultipartWithoutNumber(_))));
    let unnumbered_header = scan(discover(None), &[("d/StD.1", 0, 0), ("d/StD.2", 0, 0)]).unwrap();
    assert_eq!(unnumbered_header[0].volumes.len(), 2);
}

#[test]
fn empty_scans_say_what_was_looked_for() {
    assert!(matches!(scan(discover(None), &[]), Err(Error::NoArchives(false))));
    assert!(matches!(
        scan(discover_std(None), &[("d/demo.z", 1, 1)]),
        Err(Error::NoArchives(true))
    ));
}

#[test]
fn std_scans_and_selected_archives() {
    let found = [
        ("d/StD.1", 1, 2),
        ("d/StD.2", 2, 0),
        ("d/demo.z", 1, 1),
        ("d/stdcv.z", 1, 1),
        ("d/other.1", 1, 1),
    ];
    let groups = scan(discover_std(None), &found).unwrap();
    assert_eq!(names(&groups), ["StD", "stdcv.z"]);
    let selected = scan(discover(Some(String::from("std"))), &found).unwrap();
    assert_eq!(names(&selected), ["StD"]);
    let mut probe = discover(Some(String::from("std")));
    assert!(probe.wants(&file("d/STD.7")));
    assert!(!probe.wants(&file("d/STD.z")));
    assert!(!probe.wants(&file("d/other.1")));
    assert!(probe.add(file("d/StD.1"), 1, 1).is_ok());
}

#[test]
fn groups_are_sorted_by_lower_case_name_and_names_checked() {
    let groups = scan(
        discover(None),
        &[("d/b.z", 1, 1), ("d/A.z", 1, 1), ("d/a.z", 0, 0), ("d/C.1", 1, 1)],
    );
    assert!(matches!(groups, Err(Error::AmbiguousGroupName(n)) if n == "a.z"));
    let sorted = scan(discover(None), &[("d/b.z", 1, 1), ("d/A.z", 1, 1), ("d/C.1", 1, 1)]).unwrap();
    assert_eq!(names(&sorted), ["A.z", "b.z", "C"]);
    let separator = scan(discover(None), &[("d/a\\b.z", 1, 1)]);
    assert!(matches!(separator, Err(Error::GroupNameHasSeparator(n)) if n == "a\\b.z"));
    let unsafe_name = scan(discover(None), &[("d/NUL", 1, 1)]);
    assert!(matches!(unsafe_name, Err(Error::UnsafePath(p)) if p == "NUL"));
    let mut nameless = discover(None);
    let mut f = file("d/x.z");
    f.name = None;
    nameless.add(f, 1, 1).unwrap();
    assert!(matches!(nameless.finish(), Err(Error::InvalidArchiveFilename)));
}

#[test]
fn order_and_place_of_found_files_do_not_matter() {
    let found = [
        ("r/DISK1/PaYlOaD.1", 1, 3),
        ("r/DISK2/PaYlOaD.2", 2, 0),
        ("r/DISK3/PaYlOaD.3", 3, 0),
        ("r/single/data.Z", 1, 1),
        ("r/zeta/alpha.z", 1, 1),
        ("r/x/second.1", 1, 2),
        ("r/x/second.2", 2, 0),
    ];
    let moved = [
        ("q/misc/second.2", 2, 0),
        ("q/alpha.z", 1, 1),
        ("q/DISK14/PaYlOaD.3", 3, 0),
        ("q/data.Z", 1, 1),
        ("q/DISK12/PaYlOaD.1", 1, 3),
        ("q/second.1", 1, 2),
        ("q/deep/er/PaYlOaD.2", 2, 0),
    ];
    let a = scan(discover(None), &found).unwrap();
    let b = scan(discover(None), &moved).unwrap();
    assert_eq!(names(&a), names(&b));
    for (x, y) in a.iter().zip(&b) {
        assert_eq!(x.volumes.len(), y.volumes.len());
        for (p, q) in x.volumes.iter().zip(&y.volumes) {
            assert_eq!(p.file_name(), q.file_name());
        }
    }
}

#[test]
fn std_scan_is_the_std_part_of_a_full_scan() {
    let found = [
        ("d/StD.1", 1, 2),
        ("d/StD.2", 2, 0),
        ("d/demo.z", 1, 1),
        ("d/stdcv.z", 1, 1),
        ("d/other.1", 1, 2),
        ("d/other.2", 2, 0),
    ];
    let all = scan(discover(None), &found).unwrap();
    let std = scan(discover_std(None), &found).unwrap();
    let kept: Vec<&ArchiveGroup> = all
        .iter()
        .filter(|g| g.name.to_ascii_lowercase().starts_with("std"))
        .collect();
    assert_eq!(kept.len(), std.len());
    for (x, y) in kept.iter().zip(&std) {
        assert_eq!(x.name, y.name);
        assert_eq!(x.volumes, y.volumes);
    }
    let none = scan(discover_std(None), &[("d/demo.z", 1, 1)]);
    assert!(matches!(none, Err(Error::NoArchives(true))));
}

#[test]
fn std_scan_never_looks_at_other_files() {
    let scan_std = discover_std(None);
    for name in ["d/demo.z", "d/other.2", "d/README", "d/xstd.1"] {
        assert!(!scan_std.wants(&file(name)), "{name}");
    }
    let with_junk = scan(
        discover_std(None),
        &[("d/StD.1", 1, 1), ("d/other.2", 9, 9), ("d/demo.z", 4, 0)],
    )
    .unwrap();
    let clean = scan(discover_std(None), &[("d/StD.1", 1, 1)]).unwrap();
    assert_eq!(names(&with_junk), names(&clean));
    assert_eq!(with_junk[0].volumes, clean[0].volumes);
}

#[test]
fn an_explicit_volume_is_looked_for_above_its_disk_folder() {
    assert_eq!(selection_root(&file("inst/Disk2")), PathBuf::from("inst"));
    assert_eq!(selection_root(&file("inst/DISK12")), PathBuf::from("inst"));
    assert_eq!(selection_root(&file("inst/data")), PathBuf::from("inst/data"));
    assert_eq!(selection_root(&file("inst/DISK")), PathBuf::from("inst/DISK"));
}
