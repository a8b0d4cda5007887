//! The command line: which operation is asked for, with which options and
//! arguments, and what the summary lines count.

use crate::archive::{encoding_named, string_views, Archive, Encoding, Entry};
use crate::error::Error;
use crate::text::{chars_equal, chars_of, string_of};
use vstd::prelude::*;

verus! {

/// The operation a run performs.
#[derive(Clone, Copy, Debug, PartialEq, Eq, Structural)]
pub enum Mode {
    /// Write the files out (the default).
    Extract,
    /// Decompress and check every file, writing nothing.
    Test,
    /// List the files.
    List,
}

/// The options and arguments of a run.
pub struct Options {
    pub mode: Mode,
    pub encoding: Encoding,
    /// Whether existing regular files may be replaced.
    pub overwrite: bool,
    /// Whether only std* archives are selected, into one shared output.
    pub std_only: bool,
    /// Where the positional arguments stand in the argument list.
    pub positional: Vec<usize>,
}

/// What the command line asks for.
pub enum Invocation {
    Help,
    Version,
    Run(Options),
}

/// Why a command line was refused.
#[derive(Debug)]
pub enum ArgError {
    /// `--encoding` came last, without its value.
    EncodingValueMissing,
    /// The value of `--encoding` names no encoding.
    Encoding(Error),
    /// An option that does not exist.
    UnknownOption(String),
    /// More than one of `--extract`, `--test` and `--list`.
    MultipleOperations,
    /// Too many or too few positional arguments for the operation.
    PositionalCount,
    /// `--overwrite` outside extraction.
    OverwriteNeedsExtract,
}

/// Why a command line is refused, as the specifications state it.
pub enum ArgFault {
    EncodingValueMissing,
    /// The value of `--encoding`.
    Encoding(Seq<char>),
    /// The option's text.
    UnknownOption(Seq<char>),
    MultipleOperations,
    PositionalCount,
    OverwriteNeedsExtract,
}

/// Whether the error `e` is the fault `f`.
pub open spec fn fault_is(e: ArgError, f: ArgFault) -> bool {
    match f {
        ArgFault::EncodingValueMissing => e is EncodingValueMissing,
        ArgFault::Encoding(v) => e matches ArgError::Encoding(Error::UnsupportedEncoding(s)) && s@ == v,
        ArgFault::UnknownOption(t) => e matches ArgError::UnknownOption(s) && s@ == t,
        ArgFault::MultipleOperations => e is MultipleOperations,
        ArgFault::PositionalCount => e is PositionalCount,
        ArgFault::OverwriteNeedsExtract => e is OverwriteNeedsExtract,
    }
}

/// The state of reading a command line.
pub struct ArgState {
    pub mode: Option<Mode>,
    pub encoding: Encoding,
    pub overwrite: bool,
    pub std_only: bool,
    pub positional: Seq<int>,
    /// Whether `--` has not been seen yet, so options are still read.
    pub options: bool,
}

/// How reading a command line ends.
pub enum Scan {
    Help,
    Version,
    Done(ArgState),
    Fault(ArgFault),
}

/// The state before any argument is read.
pub open spec fn initial_state() -> ArgState {
    ArgState {
        mode: None,
        encoding: Encoding::Windows1251,
        overwrite: false,
        std_only: false,
        positional: Seq::empty(),
        options: true,
    }
}

/// The operation an option selects, if it is one of those.
pub open spec fn mode_option(text: Seq<char>) -> Option<Mode> {
    if text == "-x"@ || text == "--extract"@ {
        Some(Mode::Extract)
    } else if text == "-t"@ || text == "--test"@ {
        Some(Mode::Test)
    } else if text == "-l"@ || text == "--list"@ {
        Some(Mode::List)
    } else {
        None
    }
}

/// Reads `args` from `i` on in state `st`: up to `--`, an argument that
/// starts with `-` is an option, any other argument positional. Help and
/// version end the reading at once; `--encoding` takes the next argument
/// as its value.
pub open spec fn scan_args(args: Seq<Seq<char>>, i: int, st: ArgState) -> Scan
    decreases args.len() - i,
{
    if i < 0 || i >= args.len() {
        Scan::Done(st)
    } else {
        let text = args[i];
        if st.options && text == "--"@ {
            scan_args(args, i + 1, ArgState { options: false, ..st })
        } else if st.options && text.len() > 0 && text[0] == '-' {
            if text == "-h"@ || text == "--help"@ {
                Scan::Help
            } else if text == "-V"@ || text == "--version"@ {
                Scan::Version
            } else if mode_option(text) is Some {
                if st.mode is Some {
                    Scan::Fault(ArgFault::MultipleOperations)
                } else {
                    scan_args(args, i + 1, ArgState { mode: mode_option(text), ..st })
                }
            } else if text == "--overwrite"@ {
                scan_args(args, i + 1, ArgState { overwrite: true, ..st })
            } else if text == "--std"@ || text == "--setup"@ {
                scan_args(args, i + 1, ArgState { std_only: true, ..st })
            } else if text == "--encoding"@ {
                if i + 1 >= args.len() {
                    Scan::Fault(ArgFault::EncodingValueMissing)
                } else {
                    match encoding_named(args[i + 1]) {
                        None => Scan::Fault(ArgFault::Encoding(args[i + 1])),
                        Some(e) => scan_args(args, i + 2, ArgState { encoding: e, ..st }),
                    }
                }
            } else {
                Scan::Fault(ArgFault::UnknownOption(text))
            }
        } else {
            scan_args(args, i + 1, ArgState { positional: st.positional.push(i), ..st })
        }
    }
}

/// What a command line asks for, as the specifications state it.
pub enum Parsed {
    Help,
    Version,
    /// Run the operation; the state's mode is the one chosen or defaulted.
    Run(ArgState),
    Fault(ArgFault),
}

/// What the command line `args` asks for: help where it is empty; after
/// reading, the operation defaults to extraction, which takes an input and
/// an output, the others an input alone; `--overwrite` only extracts.
pub open spec fn parsed(args: Seq<Seq<char>>) -> Parsed {
    if args.len() == 0 {
        Parsed::Help
    } else {
        match scan_args(args, 0, initial_state()) {
            Scan::Help => Parsed::Help,
            Scan::Version => Parsed::Version,
            Scan::Fault(f) => Parsed::Fault(f),
            Scan::Done(st) => {
                let mode = match st.mode {
                    Some(m) => m,
                    None => Mode::Extract,
                };
                let expected = if mode == Mode::Extract {
                    2int
                } else {
                    1int
                };
                if st.positional.len() != expected {
                    Parsed::Fault(ArgFault::PositionalCount)
                } else if st.overwrite && mode != Mode::Extract {
                    Parsed::Fault(ArgFault::OverwriteNeedsExtract)
                } else {
                    Parsed::Run(ArgState { mode: Some(mode), ..st })
                }
            },
        }
    }
}

/// The option that selects the operation `m`, in its long or its short
/// spelling.
pub open spec fn option_text(m: Mode, long: bool) -> Seq<char> {
    match m {
        Mode::Extract => if long {
            "--extract"@
        } else {
            "-x"@
        },
        Mode::Test => if long {
            "--test"@
        } else {
            "-t"@
        },
        Mode::List => if long {
            "--list"@
        } else {
            "-l"@
        },
    }
}

/// Whether none of `args` from `from` on starts with `-`.
pub open spec fn all_plain(args: Seq<Seq<char>>, from: int) -> bool {
    forall|k: int| from <= k < args.len() ==> (#[trigger] args[k]).len() == 0 || args[k][0] != '-'
}

proof fn lemma_scan_plain(args: Seq<Seq<char>>, i: int, st: ArgState)
    requires
        st.options,
        0 <= i <= args.len(),
        all_plain(args, i),
    ensures
        scan_args(args, i, st) == Scan::Done(
            ArgState {
                positional: st.positional + Seq::new((args.len() - i) as nat, |k: int| i + k),
                ..st
            },
        ),
    decreases args.len() - i,
{
    reveal_strlit("--");
    if i == args.len() {
        assert(st.positional + Seq::new(0nat, |k: int| i + k) =~= st.positional);
    } else {
        let text = args[i];
        assert(text.len() == 0 || text[0] != '-');
        assert(text != "--"@) by {
            if text == "--"@ {
                assert(text[0] == '-');
            }
        }
        let next = ArgState { positional: st.positional.push(i), ..st };
        lemma_scan_plain(args, i + 1, next);
        assert(next.positional + Seq::new((args.len() - (i + 1)) as nat, |k: int| (i + 1) + k)
            =~= st.positional + Seq::new((args.len() - i) as nat, |k: int| i + k));
    }
}

proof fn lemma_differs(a: Seq<char>, b: Seq<char>, k: int)
    ensures
        a.len() != b.len() || (0 <= k < a.len() && a[k] != b[k]) ==> a != b,
{
}

proof fn lemma_option_facts(m: Mode, long: bool)
    ensures
        ({
            let opt = option_text(m, long);
            &&& opt.len() > 0 && opt[0] == '-'
            &&& opt != "--"@ && opt != "-h"@ && opt != "--help"@ && opt != "-V"@ && opt != "--version"@
            &&& mode_option(opt) == Some(m)
            &&& encoding_named(opt) is None
        }),
{
    reveal_strlit("--");
    reveal_strlit("-h");
    reveal_strlit("--help");
    reveal_strlit("-V");
    reveal_strlit("--version");
    reveal_strlit("-x");
    reveal_strlit("--extract");
    reveal_strlit("-t");
    reveal_strlit("--test");
    reveal_strlit("-l");
    reveal_strlit("--list");
    reveal_strlit("cp1251");
    reveal_strlit("windows-1251");
    reveal_strlit("cp437");
    reveal_strlit("utf-8");
    reveal_strlit("utf8");
    let opt = option_text(m, long);
    assert(opt.len() > 0 && opt[0] == '-');
    assert(opt.len() >= 2 && (opt.len() == 2 ==> opt[1] != 'h' && opt[1] != 'V' && opt[1] != '-'));
    lemma_differs(opt, "--"@, 1);
    lemma_differs(opt, "-h"@, 1);
    lemma_differs(opt, "-V"@, 1);
    lemma_differs(opt, "--help"@, 2);
    lemma_differs(opt, "--version"@, 2);
    lemma_differs(opt, "-x"@, 1);
    lemma_differs(opt, "-t"@, 1);
    lemma_differs(opt, "-l"@, 1);
    lemma_differs(opt, "--extract"@, 2);
    lemma_differs(opt, "--test"@, 2);
    lemma_differs(opt, "--list"@, 2);
    lemma_differs(opt, "cp1251"@, 0);
    lemma_differs(opt, "windows-1251"@, 0);
    lemma_differs(opt, "cp437"@, 0);
    lemma_differs(opt, "utf-8"@, 0);
    lemma_differs(opt, "utf8"@, 0);
}

/// Each operation option selects its operation, in its long spelling as in
/// its short one: the option followed by arguments that are not options
/// runs that operation on them, where their number fits it (two for
/// extraction, one otherwise), and is refused for their count otherwise.
pub proof fn lemma_operation_option(m: Mode, long: bool, rest: Seq<Seq<char>>)
    requires
        all_plain(rest, 0),
    ensures
        parsed(seq![option_text(m, long)] + rest) == if rest.len() == (if m == Mode::Extract {
            2int
        } else {
            1int
        }) {
            Parsed::Run(
                ArgState {
                    mode: Some(m),
                    encoding: Encoding::Windows1251,
                    overwrite: false,
                    std_only: false,
                    positional: Seq::new(rest.len(), |k: int| k + 1),
                    options: true,
                },
            )
        } else {
            Parsed::Fault(ArgFault::PositionalCount)
        },
{
    lemma_option_facts(m, long);
    let opt = option_text(m, long);
    let args = seq![opt] + rest;
    assert(args[0] == opt);
    assert(all_plain(args, 1)) by {
        assert forall|k: int| 1 <= k < args.len() implies (#[trigger] args[k]).len() == 0 || args[k][0]
            != '-' by {
            assert(args[k] == rest[k - 1]);
        }
    }
    let st = ArgState { mode: Some(m), ..initial_state() };
    lemma_scan_plain(args, 1, st);
    assert(scan_args(args, 0, initial_state()) == scan_args(args, 1, st));
    assert(Seq::<int>::empty() + Seq::new((args.len() - 1) as nat, |k: int| 1 + k) =~= Seq::new(
        rest.len(),
        |k: int| k + 1,
    ));
}

/// Whether two ends of reading are the same, or both refuse as encoding
/// names the long and the short spelling of the option for `m`.
pub open spec fn same_scan(x: Scan, y: Scan, m: Mode) -> bool {
    ||| x == y
    ||| x == Scan::Fault(ArgFault::Encoding(option_text(m, true))) && y == Scan::Fault(
        ArgFault::Encoding(option_text(m, false)),
    )
}

proof fn lemma_scan_spellings(args: Seq<Seq<char>>, i: int, m: Mode, j: int, st: ArgState)
    requires
        0 <= i < args.len(),
        0 <= j,
    ensures
        same_scan(
            scan_args(args.update(i, option_text(m, true)), j, st),
            scan_args(args.update(i, option_text(m, false)), j, st),
            m,
        ),
    decreases args.len() - j,
{
    let a = args.update(i, option_text(m, true));
    let b = args.update(i, option_text(m, false));
    lemma_option_facts(m, true);
    lemma_option_facts(m, false);
    if j < args.len() {
        assert(j != i ==> a[j] == b[j]);
        assert(j + 1 < args.len() && j + 1 != i ==> a[j + 1] == b[j + 1]);
        lemma_scan_spellings(args, i, m, j + 1, ArgState { options: false, ..st });
        lemma_scan_spellings(args, i, m, j + 1, ArgState { mode: mode_option(a[j]), ..st });
        lemma_scan_spellings(args, i, m, j + 1, ArgState { overwrite: true, ..st });
        lemma_scan_spellings(args, i, m, j + 1, ArgState { std_only: true, ..st });
        lemma_scan_spellings(args, i, m, j + 1, ArgState { positional: st.positional.push(j), ..st });
        if j + 1 < args.len() {
            if let Some(e) = encoding_named(a[j + 1]) {
                lemma_scan_spellings(args, i, m, j + 2, ArgState { encoding: e, ..st });
            }
        }
    }
}

/// The long and the short spelling of an operation option mean the same,
/// wherever the option stands: the command lines that differ only in one
/// argument, one of them holding `--list` there and the other `-l` (or
/// `--extract` and `-x`, or `--test` and `-t`), ask for the same; only
/// where that argument is the value of `--encoding` is each refused for
/// naming no encoding.
pub proof fn lemma_option_spellings(args: Seq<Seq<char>>, i: int, m: Mode)
    requires
        0 <= i < args.len(),
    ensures
        parsed(args.update(i, option_text(m, true))) == parsed(args.update(i, option_text(m, false)))
            || parsed(args.update(i, option_text(m, true))) == Parsed::Fault(
            ArgFault::Encoding(option_text(m, true)),
        ) && parsed(args.update(i, option_text(m, false))) == Parsed::Fault(
            ArgFault::Encoding(option_text(m, false)),
        ),
{
    lemma_scan_spellings(args, i, m, 0, initial_state());
}

/// The indices in `v`, as integers.
pub open spec fn indices(v: Seq<usize>) -> Seq<int> {
    v.map_values(|x: usize| x as int)
}

/// Reads the command line `args`, the program's name left out.
pub fn parse_args(args: &Vec<String>) -> (r: Result<Invocation, ArgError>)
    ensures
        match parsed(string_views(args@)) {
            Parsed::Help => r matches Ok(Invocation::Help),
            Parsed::Version => r matches Ok(Invocation::Version),
            Parsed::Fault(f) => r matches Err(e) && fault_is(e, f),
            Parsed::Run(st) => r matches Ok(Invocation::Run(o)) && Some(o.mode) == st.mode
                && o.encoding == st.encoding && o.overwrite == st.overwrite && o.std_only
                == st.std_only && indices(o.positional@) == st.positional,
        },
{
    let ghost views = string_views(args@);
    if args.len() == 0 {
        return Ok(Invocation::Help);
    }
    let mut mode: Option<Mode> = None;
    let mut encoding = Encoding::Windows1251;
    let mut overwrite = false;
    let mut std_only = false;
    let mut positional: Vec<usize> = Vec::new();
    let mut options = true;
    let mut i: usize = 0;
    assert(indices(positional@) =~= Seq::<int>::empty());
    while i < args.len()
        invariant
            views == string_views(args@),
            i <= args@.len(),
            scan_args(views, 0, initial_state()) == scan_args(
                views,
                i as int,
                ArgState {
                    mode,
                    encoding,
                    overwrite,
                    std_only,
                    positional: indices(positional@),
                    options,
                },
            ),
        decreases args@.len() - i,
    {
        let ghost st = ArgState {
            mode,
            encoding,
            overwrite,
            std_only,
            positional: indices(positional@),
            options,
        };
        let text = chars_of(args[i].as_str());
        assert(text@ == views[i as int]);
        if options && chars_equal(text.as_slice(), "--") {
            options = false;
            i = i + 1;
        } else if options && text.len() > 0 && text[0] == '-' {
            let t = text.as_slice();
            if chars_equal(t, "-h") || chars_equal(t, "--help") {
                return Ok(Invocation::Help);
            } else if chars_equal(t, "-V") || chars_equal(t, "--version") {
                return Ok(Invocation::Version);
            }
            let selected = if chars_equal(t, "-x") || chars_equal(t, "--extract") {
                Some(Mode::Extract)
            } else if chars_equal(t, "-t") || chars_equal(t, "--test") {
                Some(Mode::Test)
            } else if chars_equal(t, "-l") || chars_equal(t, "--list") {
                Some(Mode::List)
            } else {
                None
            };
            assert(selected == mode_option(text@));
            if selected.is_some() {
                if mode.is_some() {
                    return Err(ArgError::MultipleOperations);
                }
                mode = selected;
                i = i + 1;
            } else if chars_equal(t, "--overwrite") {
                overwrite = true;
                i = i + 1;
            } else if chars_equal(t, "--std") || chars_equal(t, "--setup") {
                std_only = true;
                i = i + 1;
            } else if chars_equal(t, "--encoding") {
                if i + 1 >= args.len() {
                    return Err(ArgError::EncodingValueMissing);
                }
                match Encoding::parse(args[i + 1].as_str()) {
                    Ok(e) => {
                        encoding = e;
                    },
                    Err(e) => {
                        return Err(ArgError::Encoding(e));
                    },
                }
                i = i + 2;
            } else {
                return Err(ArgError::UnknownOption(string_of(t)));
            }
        } else {
            positional.push(i);
            assert(indices(positional@) =~= st.positional.push(i as int));
            i = i + 1;
        }
    }
    let mode = match mode {
        Some(m) => m,
        None => Mode::Extract,
    };
    let expected: usize = if mode == Mode::Extract {
        2
    } else {
        1
    };
    if positional.len() != expected {
        return Err(ArgError::PositionalCount);
    }
    if overwrite && mode != Mode::Extract {
        return Err(ArgError::OverwriteNeedsExtract);
    }
    Ok(Invocation::Run(Options { mode, encoding, overwrite, std_only, positional }))
}

/// Where an archive's files go.
#[derive(Clone, Copy, Debug, PartialEq, Eq, Structural)]
pub enum OutputRoot {
    /// Into a directory of the archive's name under the output directory.
    PerArchive,
    /// Into the output directory itself.
    Shared,
    /// Nowhere: the run writes no files.
    Nothing,
}

/// Where each archive's files go: a directory input that is not limited
/// to std* archives gives each archive a directory of its own.
pub fn output_root(mode: Mode, input_is_dir: bool, std_only: bool) -> (r: OutputRoot)
    ensures
        r == (if mode != Mode::Extract {
            OutputRoot::Nothing
        } else if input_is_dir && !std_only {
            OutputRoot::PerArchive
        } else {
            OutputRoot::Shared
        }),
{
    if mode != Mode::Extract {
        OutputRoot::Nothing
    } else if input_is_dir && !std_only {
        OutputRoot::PerArchive
    } else {
        OutputRoot::Shared
    }
}

/// The decompressed sizes of `entries`, added up.
pub open spec fn size_sum(entries: Seq<Entry>) -> int
    decreases entries.len(),
{
    if entries.len() == 0 {
        0
    } else {
        size_sum(entries.drop_last()) + entries.last().size
    }
}

/// The compressed sizes of `entries`, added up.
pub open spec fn packed_sum(entries: Seq<Entry>) -> int
    decreases entries.len(),
{
    if entries.len() == 0 {
        0
    } else {
        packed_sum(entries.drop_last()) + entries.last().packed_size
    }
}

/// The decompressed and the compressed sizes of `entries`, each added up.
pub fn entry_totals(entries: &Vec<Entry>) -> (r: (u128, u128))
    ensures
        r.0 == size_sum(entries@),
        r.1 == packed_sum(entries@),
{
    let mut size: u128 = 0;
    let mut packed: u128 = 0;
    let mut i: usize = 0;
    while i < entries.len()
        invariant
            i <= entries@.len(),
            size == size_sum(entries@.take(i as int)),
            packed == packed_sum(entries@.take(i as int)),
            size <= i * 0xffff_ffff_ffff_ffffu128,
            packed <= i * 0xffff_ffff_ffff_ffffu128,
        decreases entries@.len() - i,
    {
        assert(entries@.take(i + 1).drop_last() =~= entries@.take(i as int));
        assert(i < 0x1_0000_0000_0000_0000u128);
        size = size + entries[i].size as u128;
        packed = packed + entries[i].packed_size as u128;
        i = i + 1;
    }
    assert(entries@.take(i as int) =~= entries@);
    (size, packed)
}

/// What a run counts over all its archives.
pub struct Totals {
    pub volumes: u128,
    pub files: u128,
    /// The decompressed sizes of all files, added up.
    pub bytes: u128,
}

/// Volumes, files and decompressed bytes of `archives`, each added up.
pub open spec fn totals_of(archives: Seq<Archive>) -> (int, int, int)
    decreases archives.len(),
{
    if archives.len() == 0 {
        (0, 0, 0)
    } else {
        let (v, f, b) = totals_of(archives.drop_last());
        let a = archives.last();
        (v + a.volumes@.len(), f + a.entries@.len(), b + size_sum(a.entries@))
    }
}

/// Counts the volumes, files and decompressed bytes of `archives`; none
/// where a count does not fit 128 bits.
pub fn archive_totals(archives: &Vec<Archive>) -> (r: Option<Totals>)
    ensures
        match r {
            Some(t) => t.volumes == totals_of(archives@).0 && t.files == totals_of(archives@).1
                && t.bytes == totals_of(archives@).2,
            None => totals_of(archives@).0 > u128::MAX || totals_of(archives@).1 > u128::MAX
                || totals_of(archives@).2 > u128::MAX,
        },
{
    let mut volumes: u128 = 0;
    let mut files: u128 = 0;
    let mut bytes: u128 = 0;
    let mut i: usize = 0;
    while i < archives.len()
        invariant
            i <= archives@.len(),
            (volumes as int, files as int, bytes as int) == totals_of(archives@.take(i as int)),
        decreases archives@.len() - i,
    {
        assert(archives@.take(i + 1).drop_last() =~= archives@.take(i as int));
        let a = &archives[i];
        let (size, _) = entry_totals(&a.entries);
        let v = volumes.checked_add(a.volumes.len() as u128);
        let f = files.checked_add(a.entries.len() as u128);
        let b = bytes.checked_add(size);
        match (v, f, b) {
            (Some(v), Some(f), Some(b)) => {
                volumes = v;
                files = f;
                bytes = b;
            },
            _ => {
                proof {
                    lemma_totals_grow(archives@, i + 1);
                }
                return None;
            },
        }
        i = i + 1;
    }
    assert(archives@.take(i as int) =~= archives@);
    Some(Totals { volumes, files, bytes })
}

proof fn lemma_size_sum_nonnegative(entries: Seq<Entry>)
    ensures
        size_sum(entries) >= 0,
    decreases entries.len(),
{
    if entries.len() > 0 {
        lemma_size_sum_nonnegative(entries.drop_last());
    }
}

/// Counting more archives never lowers the counts.
proof fn lemma_totals_grow(archives: Seq<Archive>, k: int)
    requires
        0 <= k <= archives.len(),
    ensures
        totals_of(archives.take(k)).0 <= totals_of(archives).0,
        totals_of(archives.take(k)).1 <= totals_of(archives).1,
        totals_of(archives.take(k)).2 <= totals_of(archives).2,
    decreases archives.len(),
{
    if k == archives.len() {
        assert(archives.take(k) =~= archives);
    } else {
        assert(archives.drop_last().take(k) =~= archives.take(k));
        lemma_totals_grow(archives.drop_last(), k);
        lemma_size_sum_nonnegative(archives.last().entries@);
    }
}

} // verus!
