use std::path::PathBuf;
use stix_unpacker::archive::{Archive, Entry};
use stix_unpacker::error::Error;
use stix_unpacker::output::{
    directory_check, merge_directories, target, target_check, Existing, OutputMap,
};

fn entry(path: &str) -> Entry {
    Entry { path: String::from(path), size: 13, packed_size: 8, date: 0, time: 0, offset: 0 }
}

fn archive(directories: &[&str], files: &[&str]) -> Archive {
    Archive {
        entries: files.iter().map(|f| entry(f)).collect(),
        directories: directories.iter().map(|d| String::from(*d)).collect(),
        volumes: Vec::new(),
    }
}

fn paths(a: &Archive) -> Vec<&str> {
    a.entries.iter().map(|e| e.path.as_str()).collect()
}

/// Plans the output of `jobs` as a run does, without looking at the disk.
fn plan(jobs: &[(&Archive, PathBuf)]) -> Result<(), Error> {
    let mut map = OutputMap::new();
    for (archive, root) in jobs {
        map.add_root(root, archive);
        for e in &archive.entries {
            map.add_file(target(root, e))?;
        }
    }
    map.check_directories()
}

#[test]
fn merges_directory_case_and_extforms() {
    let mut archives = vec![
        archive(&["", "EXTFORMS/CALENDAR"], &["first.txt", "EXTFORMS/CALENDAR/second.txt"]),
        archive(&["", "ExtForms/Calendar", "extforms/calendar/Sub"], &["ExtForms/Calendar/xecond.txt", "third.txt"]),
    ];
    merge_directories(&mut archives);
    assert_eq!(archives[0].directories, vec!["", "ExtForms/CALENDAR"]);
    assert_eq!(paths(&archives[0]), ["first.txt", "ExtForms/CALENDAR/second.txt"]);
    assert_eq!(archives[1].directories, vec!["", "ExtForms/CALENDAR", "ExtForms/CALENDAR/Sub"]);
    assert_eq!(paths(&archives[1]), ["ExtForms/CALENDAR/xecond.txt", "third.txt"]);
    assert_eq!(archives[1].entries[0].size, 13);
}

#[test]
fn merging_keeps_the_first_spelling_and_file_names() {
    let mut archives = vec![
        archive(&["Data"], &["Data/ReadMe.TXT"]),
        archive(&["DATA/Sub", "data"], &["DATA/Sub/File.Bin", "DATA/readme.txt"]),
    ];
    merge_directories(&mut archives);
    assert_eq!(archives[1].directories, vec!["Data/Sub", "Data"]);
    assert_eq!(paths(&archives[1]), ["Data/Sub/File.Bin", "Data/readme.txt"]);
}

#[test]
fn rejects_file_directory_conflicts_in_a_plan() {
    let first = archive(&["", "Nested/Folder"], &["first.txt", "Nested/Folder/second.txt"]);
    let second = archive(&["", "Nested/Folder"], &["first.txt/first.txt"]);
    let out = PathBuf::from("out");
    let result = plan(&[(&first, out.clone()), (&second, out.clone())]);
    assert!(matches!(result, Err(Error::FileDirectoryConflict(p)) if p == PathBuf::from("out/first.txt")));
}

#[test]
fn rejects_conflicting_output_paths_ignoring_case() {
    let first = archive(&[""], &["first.txt"]);
    let second = archive(&[""], &["FIRST.TXT"]);
    let out = PathBuf::from("out");
    let result = plan(&[(&first, out.clone()), (&second, out.clone())]);
    assert!(matches!(
        result,
        Err(Error::ConflictingOutputPaths(a, b))
            if a == PathBuf::from("out/first.txt") && b == PathBuf::from("out/FIRST.TXT")
    ));
    assert!(plan(&[(&first, PathBuf::from("a")), (&second, PathBuf::from("b"))]).is_ok());
}

#[test]
fn output_path_checks() {
    let p = PathBuf::from("x");
    assert_eq!(directory_check(p.clone(), Existing::Missing).unwrap(), true);
    assert_eq!(directory_check(p.clone(), Existing::Directory).unwrap(), false);
    assert!(matches!(directory_check(p.clone(), Existing::Other), Err(Error::NotADirectory(_))));
    assert!(matches!(directory_check(p.clone(), Existing::RegularFile), Err(Error::NotADirectory(_))));
    assert!(target_check(p.clone(), Existing::Missing, false).is_ok());
    assert!(target_check(p.clone(), Existing::RegularFile, true).is_ok());
    assert!(matches!(target_check(p.clone(), Existing::RegularFile, false), Err(Error::OutputExists(_))));
    assert!(matches!(target_check(p.clone(), Existing::Other, true), Err(Error::OutputExists(_))));
    assert!(matches!(target_check(p, Existing::Directory, true), Err(Error::OutputExists(_))));
}

#[test]
fn extforms_is_spelled_so_in_every_merged_directory() {
    let mut archives = vec![
        archive(&["eXtFoRmS/a/EXTFORMS"], &["eXtFoRmS/a/EXTFORMS/f.txt", "extforms/g.txt"]),
        archive(&["EXTFORMS/A"], &["top.txt"]),
    ];
    merge_directories(&mut archives);
    assert_eq!(archives[0].directories, vec!["ExtForms/a/ExtForms"]);
    assert_eq!(paths(&archives[0]), ["ExtForms/a/ExtForms/f.txt", "ExtForms/g.txt"]);
    assert_eq!(archives[1].directories, vec!["ExtForms/a"]);
}

#[test]
fn directories_equal_but_for_case_share_one_spelling() {
    let mut archives = vec![
        archive(&["Data/Sub"], &["DATA/sub/deep/x.txt", "data/SUB2/y.txt"]),
        archive(&["data/SUB2/more", "DATA"], &["dAtA/Sub/z.txt"]),
    ];
    merge_directories(&mut archives);
    assert_eq!(archives[0].directories, vec!["Data/Sub"]);
    assert_eq!(paths(&archives[0]), ["Data/Sub/deep/x.txt", "Data/SUB2/y.txt"]);
    assert_eq!(archives[1].directories, vec!["Data/SUB2/more", "Data"]);
    assert_eq!(paths(&archives[1]), ["Data/Sub/z.txt"]);
}

#[test]
fn a_second_merge_changes_nothing() {
    let mut archives = vec![
        archive(&["eXtFoRmS//a", "B/c"], &["b/C/f.txt", "/root.txt", "plain.txt"]),
        archive(&["b/c/D"], &["EXTFORMS/A/g.txt"]),
    ];
    merge_directories(&mut archives);
    let dirs: Vec<Vec<String>> = archives.iter().map(|a| a.directories.clone()).collect();
    let files: Vec<Vec<Entry>> = archives.iter().map(|a| a.entries.clone()).collect();
    merge_directories(&mut archives);
    for (i, a) in archives.iter().enumerate() {
        assert_eq!(a.directories, dirs[i]);
        assert_eq!(a.entries, files[i]);
    }
    assert_eq!(archives[0].directories, vec!["ExtForms/a", "B/c"]);
    assert_eq!(paths(&archives[0]), ["B/c/f.txt", "/root.txt", "plain.txt"]);
    assert_eq!(paths(&archives[1]), ["ExtForms/a/g.txt"]);
}

#[test]
fn later_archives_do_not_change_earlier_spellings() {
    let first = || archive(&["Setup/Data", "setup/EXTFORMS"], &["SETUP/data/a.txt"]);
    let mut alone = vec![first()];
    merge_directories(&mut alone);
    let mut both = vec![first(), archive(&["SETUP/DATA/more", "Other"], &["setup/Data/b.txt"])];
    merge_directories(&mut both);
    assert_eq!(both[0].directories, alone[0].directories);
    assert_eq!(paths(&both[0]), paths(&alone[0]));
    assert_eq!(alone[0].directories, vec!["Setup/Data", "Setup/ExtForms"]);
    assert_eq!(both[1].directories, vec!["Setup/Data/more", "Other"]);
    assert_eq!(paths(&both[1]), ["Setup/Data/b.txt"]);
}
