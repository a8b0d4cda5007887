use stix_unpacker::archive::{Archive, Encoding, Entry, Volume};
use stix_unpacker::cli::{
    archive_totals, entry_totals, output_root, parse_args, ArgError, Invocation, Mode, OutputRoot,
};
use stix_unpacker::error::Error;
use std::path::PathBuf;

fn args(list: &[&str]) -> Vec<String> {
    list.iter().map(|a| String::from(*a)).collect()
}

fn run(list: &[&str]) -> (Mode, Encoding, bool, bool, Vec<usize>) {
    match parse_args(&args(list)) {
        Ok(Invocation::Run(o)) => (o.mode, o.encoding, o.overwrite, o.std_only, o.positional),
        _ => panic!("not a run: {list:?}"),
    }
}

#[test]
fn help_and_version() {
    assert!(matches!(parse_args(&args(&[])), Ok(Invocation::Help)));
    assert!(matches!(parse_args(&args(&["-h"])), Ok(Invocation::Help)));
    assert!(matches!(parse_args(&args(&["in", "--help", "--bogus"])), Ok(Invocation::Help)));
    assert!(matches!(parse_args(&args(&["-V"])), Ok(Invocation::Version)));
    assert!(matches!(parse_args(&args(&["--version"])), Ok(Invocation::Version)));
    assert!(matches!(parse_args(&args(&["--bogus", "--help"])), Err(ArgError::UnknownOption(o)) if o == "--bogus"));
}

#[test]
fn modes_and_options() {
    assert_eq!(run(&["in", "out"]), (Mode::Extract, Encoding::Windows1251, false, false, vec![0, 1]));
    assert_eq!(run(&["--test", "in"]), (Mode::Test, Encoding::Windows1251, false, false, vec![1]));
    assert_eq!(run(&["in", "-l"]), (Mode::List, Encoding::Windows1251, false, false, vec![0]));
    assert_eq!(
        run(&["-x", "--overwrite", "--std", "--encoding", "cp437", "in", "out"]),
        (Mode::Extract, Encoding::Cp437, true, true, vec![5, 6])
    );
    assert_eq!(run(&["--setup", "-t", "in"]).3, true);
    assert_eq!(run(&["--", "-in", "--out"]).4, vec![1, 2]);
    assert_eq!(run(&["-t", "--", "--help"]).4, vec![2]);
}

#[test]
fn refusals() {
    assert!(matches!(parse_args(&args(&["--flat", "in", "out"])), Err(ArgError::UnknownOption(o)) if o == "--flat"));
    assert!(matches!(parse_args(&args(&["--encoding"])), Err(ArgError::EncodingValueMissing)));
    assert!(matches!(
        parse_args(&args(&["--encoding", "unknown", "in", "out"])),
        Err(ArgError::Encoding(Error::UnsupportedEncoding(e))) if e == "unknown"
    ));
    assert!(matches!(parse_args(&args(&["-t", "-l", "in"])), Err(ArgError::MultipleOperations)));
    assert!(matches!(parse_args(&args(&["-x", "-x", "in", "out"])), Err(ArgError::MultipleOperations)));
    assert!(matches!(parse_args(&args(&["in"])), Err(ArgError::PositionalCount)));
    assert!(matches!(parse_args(&args(&["-t", "in", "out"])), Err(ArgError::PositionalCount)));
    assert!(matches!(parse_args(&args(&["-l", "--overwrite", "in"])), Err(ArgError::OverwriteNeedsExtract)));
}

#[test]
fn output_roots() {
    assert_eq!(output_root(Mode::Extract, true, false), OutputRoot::PerArchive);
    assert_eq!(output_root(Mode::Extract, true, true), OutputRoot::Shared);
    assert_eq!(output_root(Mode::Extract, false, false), OutputRoot::Shared);
    assert_eq!(output_root(Mode::Test, true, false), OutputRoot::Nothing);
    assert_eq!(output_root(Mode::List, false, true), OutputRoot::Nothing);
}

fn entry(size: u64, packed: u64) -> Entry {
    Entry { path: String::from("f"), size, packed_size: packed, date: 0, time: 0, offset: 0 }
}

#[test]
fn totals() {
    let entries = vec![entry(13, 8), entry(u64::MAX, u64::MAX), entry(1, 2)];
    assert_eq!(entry_totals(&entries), (u64::MAX as u128 + 14, u64::MAX as u128 + 10));
    let volume = Volume { path: PathBuf::from("v.1"), data_size: 24, logical_start: 0 };
    let archives = vec![
        Archive { entries, directories: Vec::new(), volumes: vec![volume] },
        Archive { entries: vec![entry(5, 5)], directories: Vec::new(), volumes: Vec::new() },
    ];
    let t = archive_totals(&archives).unwrap();
    assert_eq!((t.volumes, t.files, t.bytes), (1, 4, u64::MAX as u128 + 19));
    assert_eq!(archive_totals(&Vec::new()).map(|t| t.files), Some(0));
}
