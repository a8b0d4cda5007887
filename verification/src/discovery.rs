//! Finding archives: which file names are volumes of which archive, and how
//! the volumes that a directory scan found make up archive groups.

use crate::archive::{header_size, safe_path, safe_path_of, signature, with_slashes};
use crate::error::{refuses, Error, Refusal};
use crate::paths::{parent, parent_of};
use crate::order::{
    chars_lt, insert_position, lemma_chars_lt_total, lemma_chars_lt_transitive,
    keep, kept_at, lemma_insert_position, lemma_keep_append, lemma_keep_contains, lemma_keep_order,
    lemma_keep_sort, lemma_sort_by_key, lemma_sort_map, lemma_sort_swap, lt, same_chars, sort_by_key,
    sorted_by_key, swap_next,
};
use crate::text::{
    ascii_lower, ascii_lowercase, ascii_upper, chars_ascii_lowercase, chars_of, eq_ignore_ascii_case,
    lowercase, string_of, to_ascii_upper, unicode_lowercase,
};
use std::path::PathBuf;
use vstd::prelude::*;

verus! {

/// The names of a file, as the file system gives them; each is absent
/// where the path has none or it is not valid Unicode.
pub struct FileName {
    pub path: PathBuf,
    /// The final component.
    pub name: Option<String>,
    /// The final component without its extension.
    pub stem: Option<String>,
    /// The extension.
    pub extension: Option<String>,
}

/// The view of an optional string.
pub open spec fn opt_view(s: Option<String>) -> Option<Seq<char>> {
    match s {
        Some(s) => Some(s@),
        None => None,
    }
}

/// Copies a path (std's `PathBuf::clone`); the copy equals `p`.
#[verifier::external_body]
pub fn copy_path(p: &PathBuf) -> (r: PathBuf)
    ensures
        r == *p,
{
    p.clone()
}

/// Whether `c` is an ASCII digit.
pub open spec fn is_digit(c: char) -> bool {
    '0' <= c <= '9'
}

/// Whether `s` is one or more ASCII digits.
pub open spec fn all_digits(s: Seq<char>) -> bool {
    s.len() > 0 && forall|i: int| 0 <= i < s.len() ==> is_digit(#[trigger] s[i])
}

/// The number that the decimal digits `s` spell.
pub open spec fn decimal(s: Seq<char>) -> int
    decreases s.len(),
{
    if s.len() == 0 {
        0
    } else {
        10 * decimal(s.drop_last()) + (s.last() as int - '0' as int)
    }
}

/// Reads the decimal digits `s`, if their value is at most `limit`.
pub fn parse_decimal(s: &[char], limit: u64) -> (r: Option<u64>)
    requires
        all_digits(s@),
    ensures
        decimal(s@) >= 0,
        decimal(s@) <= limit ==> (r matches Some(n) && n == decimal(s@)),
        decimal(s@) > limit ==> r is None,
{
    let mut value: u64 = 0;
    let mut i: usize = 0;
    proof {
        lemma_decimal_nonnegative(s@);
    }
    while i < s.len()
        invariant
            i <= s@.len(),
            all_digits(s@),
            value == decimal(s@.take(i as int)),
            value <= limit,
        decreases s@.len() - i,
    {
        assert(s@.take(i + 1).drop_last() =~= s@.take(i as int));
        assert(is_digit(s@[i as int]));
        let d = (s[i] as u32 - '0' as u32) as u64;
        let next = value as u128 * 10 + d as u128;
        if next > limit as u128 {
            proof {
                lemma_decimal_grows(s@, i + 1);
            }
            return None;
        }
        value = next as u64;
        i = i + 1;
    }
    assert(s@.take(i as int) =~= s@);
    Some(value)
}

proof fn lemma_decimal_nonnegative(s: Seq<char>)
    requires
        forall|i: int| 0 <= i < s.len() ==> is_digit(#[trigger] s[i]),
    ensures
        decimal(s) >= 0,
    decreases s.len(),
{
    if s.len() > 0 {
        lemma_decimal_nonnegative(s.drop_last());
    }
}

/// Taking more digits never makes the number smaller.
proof fn lemma_decimal_grows(s: Seq<char>, k: int)
    requires
        all_digits(s),
        0 <= k <= s.len(),
    ensures
        decimal(s.take(k)) <= decimal(s),
    decreases s.len() - k,
{
    if k < s.len() {
        lemma_decimal_grows(s, k + 1);
        assert(s.take(k + 1).drop_last() =~= s.take(k));
        lemma_decimal_nonnegative(s.take(k));
    } else {
        assert(s.take(k) =~= s);
    }
}

/// What a file name says of the volume it is: nothing where its extension
/// is missing or not all digits; else the base name and the volume number,
/// which must fit a `usize` and not be 0.
pub open spec fn volume_name(file: FileName) -> Result<Option<(Seq<char>, int)>, Error> {
    match opt_view(file.extension) {
        None => Ok(None),
        Some(e) => if !all_digits(e) {
            Ok(None)
        } else if decimal(e) > usize::MAX {
            Err(Error::VolumeNumberTooLarge)
        } else if decimal(e) == 0 {
            Err(Error::VolumeNumberZero(file.path))
        } else {
            match opt_view(file.stem) {
                None => Err(Error::InvalidBasename),
                Some(stem) => Ok(Some((stem, decimal(e)))),
            }
        },
    }
}

/// Whether all of `s` are ASCII digits, and there is at least one.
pub fn digits_only(s: &[char]) -> (b: bool)
    ensures
        b == all_digits(s@),
{
    if s.len() == 0 {
        return false;
    }
    let mut i: usize = 0;
    while i < s.len()
        invariant
            i <= s@.len(),
            forall|k: int| 0 <= k < i ==> is_digit(#[trigger] s@[k]),
        decreases s@.len() - i,
    {
        if !('0' <= s[i] && s[i] <= '9') {
            assert(!is_digit(s@[i as int]));
            return false;
        }
        i = i + 1;
    }
    true
}

/// The base name and volume number that a file name carries, if any.
pub fn numbered_name(file: &FileName) -> (r: Result<Option<(String, usize)>, Error>)
    ensures
        match volume_name(*file) {
            Ok(None) => r matches Ok(None),
            Ok(Some((stem, number))) => r matches Ok(Some((s, n))) && s@ == stem && n == number,
            Err(e) => r == Err::<Option<(String, usize)>, Error>(e),
        },
{
    let extension = match &file.extension {
        Some(e) => chars_of(e.as_str()),
        None => {
            return Ok(None);
        },
    };
    if !digits_only(extension.as_slice()) {
        return Ok(None);
    }
    assert(usize::MAX as u64 == usize::MAX);
    let number = match parse_decimal(extension.as_slice(), usize::MAX as u64) {
        Some(n) => n as usize,
        None => {
            return Err(Error::VolumeNumberTooLarge);
        },
    };
    if number == 0 {
        return Err(Error::VolumeNumberZero(copy_path(&file.path)));
    }
    match &file.stem {
        Some(stem) => Ok(Some((string_of(chars_of(stem.as_str()).as_slice()), number))),
        None => Err(Error::InvalidBasename),
    }
}

/// Whether a directory name is DISK and a number, in any ASCII case.
pub open spec fn is_disk_directory(name: Option<Seq<char>>) -> bool {
    match name {
        None => false,
        Some(n) => {
            let upper = n.map_values(|c: char| ascii_upper(c));
            upper.len() > 4 && upper.take(4) == seq!['D', 'I', 'S', 'K'] && all_digits(
                upper.skip(4),
            )
        },
    }
}

/// Whether a directory name is DISK and a number, in any ASCII case.
pub fn disk_directory(name: &Option<String>) -> (b: bool)
    ensures
        b == is_disk_directory(opt_view(*name)),
{
    let chars = match name {
        Some(n) => chars_of(n.as_str()),
        None => {
            return false;
        },
    };
    let mut upper: Vec<char> = Vec::new();
    let mut i: usize = 0;
    while i < chars.len()
        invariant
            i <= chars@.len(),
            upper@ == chars@.take(i as int).map_values(|c: char| ascii_upper(c)),
        decreases chars@.len() - i,
    {
        upper.push(to_ascii_upper(chars[i]));
        i = i + 1;
        assert(upper@ =~= chars@.take(i as int).map_values(|c: char| ascii_upper(c)));
    }
    assert(chars@.take(i as int) =~= chars@);
    if upper.len() <= 4 {
        return false;
    }
    let disk = upper[0] == 'D' && upper[1] == 'I' && upper[2] == 'S' && upper[3] == 'K';
    assert(disk == (upper@.take(4) == seq!['D', 'I', 'S', 'K'])) by {
        if disk {
            assert(upper@.take(4) =~= seq!['D', 'I', 'S', 'K']);
        }
        if upper@.take(4) == seq!['D', 'I', 'S', 'K'] {
            assert(upper@.take(4)[0] == 'D' && upper@.take(4)[1] == 'I');
            assert(upper@.take(4)[2] == 'S' && upper@.take(4)[3] == 'K');
        }
    }
    if !disk {
        return false;
    }
    let mut rest: Vec<char> = Vec::new();
    let mut k: usize = 4;
    while k < upper.len()
        invariant
            4 <= k <= upper@.len(),
            rest@ == upper@.subrange(4, k as int),
        decreases upper@.len() - k,
    {
        rest.push(upper[k]);
        k = k + 1;
        assert(rest@ =~= upper@.subrange(4, k as int));
    }
    assert(rest@ =~= upper@.skip(4));
    digits_only(rest.as_slice())
}

/// Whether a file name starts with std, in any ASCII case.
pub open spec fn is_std_name(name: Option<Seq<char>>) -> bool {
    match name {
        None => false,
        Some(n) => n.len() >= 3 && ascii_lowercase(n).take(3) == seq!['s', 't', 'd'],
    }
}

/// Whether a file name starts with std, in any ASCII case.
pub fn std_name(name: &Option<String>) -> (b: bool)
    ensures
        b == is_std_name(opt_view(*name)),
{
    let chars = match name {
        Some(n) => chars_of(n.as_str()),
        None => {
            return false;
        },
    };
    if chars.len() < 3 {
        return false;
    }
    let lower = chars_ascii_lowercase(chars.as_slice());
    let b = lower[0] == 's' && lower[1] == 't' && lower[2] == 'd';
    assert(b == (ascii_lowercase(chars@).take(3) == seq!['s', 't', 'd'])) by {
        if b {
            assert(ascii_lowercase(chars@).take(3) =~= seq!['s', 't', 'd']);
        }
        if ascii_lowercase(chars@).take(3) == seq!['s', 't', 'd'] {
            assert(ascii_lowercase(chars@).take(3)[0] == 's');
            assert(ascii_lowercase(chars@).take(3)[1] == 't');
            assert(ascii_lowercase(chars@).take(3)[2] == 'd');
        }
    }
    b
}

/// What the start of a file says of it: nothing where it does not start
/// with the signature; else it must hold the whole header, whose bytes 31
/// and 30 give the volume number and the number of volumes.
pub open spec fn header_of(head: Seq<u8>) -> Option<Option<(u8, u8)>> {
    if head.len() < 4 || head.take(4) != signature() {
        Some(None)
    } else if head.len() < header_size() {
        None
    } else {
        Some(Some((head[31], head[30])))
    }
}

/// Reads the header of the file at `path` from `head`, its first bytes (up
/// to the header's size, fewer where the file is shorter): the volume
/// number and count where it is an archive.
pub fn probe_header(path: PathBuf, head: &[u8]) -> (r: Result<Option<(u8, u8)>, Error>)
    ensures
        match header_of(head@) {
            Some(h) => r == Ok::<Option<(u8, u8)>, Error>(h),
            None => r == Err::<Option<(u8, u8)>, Error>(Error::IncompleteHeader(path)),
        },
{
    if head.len() < 4 {
        return Ok(None);
    }
    let matches = head[0] == 0x13 && head[1] == 0x5d && head[2] == 0x65 && head[3] == 0x8c;
    assert(matches == (head@.take(4) == signature())) by {
        if matches {
            assert(head@.take(4) =~= signature());
        }
        if head@.take(4) == signature() {
            assert(head@.take(4)[0] == 0x13 && head@.take(4)[1] == 0x5d);
            assert(head@.take(4)[2] == 0x65 && head@.take(4)[3] == 0x8c);
        }
    }
    if !matches {
        return Ok(None);
    }
    if head.len() < 255 {
        return Err(Error::IncompleteHeader(path));
    }
    Ok(Some((head[31], head[30])))
}

/// Refuses an explicitly named archive file whose name does not start with
/// std, where only such archives are wanted.
pub fn explicit_name_check(file: &FileName, std_only: bool) -> (r: Result<(), Error>)
    ensures
        r == (if std_only && !is_std_name(opt_view(file.name)) {
            Err::<(), Error>(Error::NotStdArchive)
        } else {
            Ok(())
        }),
{
    if std_only && !std_name(&file.name) {
        Err(Error::NotStdArchive)
    } else {
        Ok(())
    }
}

/// The directory whose tree is scanned for the volumes of an explicitly
/// named first volume, given the directory `folder` that holds it: that
/// directory, or, where it is called DISK and a number, the one above it
/// if there is one.
pub fn selection_root(folder: &FileName) -> (r: PathBuf)
    ensures
        r == if is_disk_directory(opt_view(folder.name)) {
            match parent_of(folder.path) {
                Some(up) => up,
                None => folder.path,
            }
        } else {
            folder.path
        },
{
    if disk_directory(&folder.name) {
        match parent(&folder.path) {
            Some(up) => up,
            None => copy_path(&folder.path),
        }
    } else {
        copy_path(&folder.path)
    }
}

/// What an explicitly named archive file selects: its base name where it
/// is a numbered volume, which must be the first; nothing else where it is
/// not. `is_archive` says whether its header was found.
pub fn explicit_selection(file: &FileName, is_archive: bool) -> (r: Result<Option<String>, Error>)
    ensures
        !is_archive ==> r == Err::<Option<String>, Error>(Error::NotAnArchiveFile),
        is_archive ==> match volume_name(*file) {
            Err(e) => r == Err::<Option<String>, Error>(e),
            Ok(None) => r matches Ok(None),
            Ok(Some((stem, n))) => if n != 1 {
                r == Err::<Option<String>, Error>(Error::NotFirstVolume)
            } else {
                r matches Ok(Some(s)) && s@ == stem
            },
        },
{
    if !is_archive {
        return Err(Error::NotAnArchiveFile);
    }
    match numbered_name(file) {
        Err(e) => Err(e),
        Ok(None) => Ok(None),
        Ok(Some((stem, n))) => if n != 1 {
            Err(Error::NotFirstVolume)
        } else {
            Ok(Some(stem))
        },
    }
}

/// A volume of a numbered archive that a scan found.
pub struct Part {
    /// The number in its file name.
    pub number: usize,
    /// Its file name without the number.
    pub stem: String,
    pub path: PathBuf,
    /// The number of volumes that its header declares (0: not said).
    pub count: u8,
}

/// The volumes found of one numbered archive, by number.
pub struct VolumeSet {
    /// The base name of the volumes in ASCII lower case.
    pub key: Vec<char>,
    pub parts: Vec<Part>,
}

/// An archive in a single file without a volume number.
pub struct Single {
    pub path: PathBuf,
    /// Its file name.
    pub name: Option<String>,
}

/// What a scan of archive files has found so far, and what it looks for.
pub struct Discovery {
    /// Whether only archives whose names start with std are wanted.
    pub std_only: bool,
    /// The base name of the numbered archive that was named explicitly, if
    /// any: then only its volumes are wanted.
    pub selected: Option<String>,
    /// The numbered archives, in the order of their keys.
    pub sets: Vec<VolumeSet>,
    /// The single-file archives, in the order found.
    pub singles: Vec<Single>,
}

/// Whether the volume numbers of `parts` rise.
pub open spec fn parts_ordered(parts: Seq<Part>) -> bool {
    forall|a: int, b: int| 0 <= a < b < parts.len() ==> #[trigger] parts[a].number < #[trigger] parts[b].number
}

/// A set holds at least one volume, in rising numbers, each with a base
/// name that is the set's key in lower case.
pub open spec fn set_wf(s: VolumeSet) -> bool {
    &&& s.parts@.len() > 0
    &&& parts_ordered(s.parts@)
    &&& forall|j: int| 0 <= j < s.parts@.len() ==> ascii_lowercase(#[trigger] s.parts@[j].stem@) == s.key@
}

/// Whether the keys of `sets` rise strictly.
pub open spec fn sets_ordered(sets: Seq<VolumeSet>) -> bool {
    forall|a: int, b: int| 0 <= a < b < sets.len() ==> chars_lt(#[trigger] sets[a].key@, #[trigger] sets[b].key@)
}

/// Whether a file is one that a scan looks at: its name starts with std
/// where only such are wanted, and where an archive was selected, its base
/// name is the selected one in any ASCII case and its extension a number.
pub open spec fn wanted(std_only: bool, selected: Option<Seq<char>>, file: FileName) -> bool {
    &&& std_only ==> is_std_name(opt_view(file.name))
    &&& match selected {
        None => true,
        Some(sel) => match opt_view(file.stem) {
            Some(stem) => match opt_view(file.extension) {
                Some(ext) => ascii_lowercase(stem) == ascii_lowercase(sel) && all_digits(ext),
                None => false,
            },
            None => false,
        },
    }
}

/// Whether `sets` holds volume `n` under `key`.
pub open spec fn has_volume(sets: Seq<VolumeSet>, key: Seq<char>, n: int) -> bool {
    exists|i: int, j: int|
        0 <= i < sets.len() && sets[i].key@ == key && 0 <= j < sets[i].parts@.len()
            && #[trigger] sets[i].parts@[j].number == n
}

/// What a scan makes of an archive file it found.
pub enum Admission {
    Refused(Refusal),
    /// Taken as an archive in a single file.
    Single,
    /// Taken as the volume of this number of the archive of this base name.
    Numbered(Seq<char>, int),
}

/// What a scan that has found `sets` makes of the archive file `file`
/// whose header gives the volume `number` of `count`: a number in the file
/// name must match the header's unless that is 0, and must be new for its
/// archive; a file without one must not be part of a multi-volume archive.
pub open spec fn admission(sets: Seq<VolumeSet>, file: FileName, number: u8, count: u8) -> Admission {
    match volume_name(file) {
        Err(e) => Admission::Refused(Refusal::Plain(e)),
        Ok(None) => if number > 1 || count > 1 {
            Admission::Refused(Refusal::Plain(Error::MultipartWithoutNumber(file.path)))
        } else {
            Admission::Single
        },
        Ok(Some((stem, n))) => if number != 0 && number != n {
            Admission::Refused(
                Refusal::Plain(Error::VolumeNumberMismatch(file.path, n as usize, number)),
            )
        } else if has_volume(sets, ascii_lowercase(stem), n) {
            let (i, j) = choose|i: int, j: int|
                0 <= i < sets.len() && sets[i].key@ == ascii_lowercase(stem) && 0 <= j
                    < sets[i].parts@.len() && #[trigger] sets[i].parts@[j].number == n;
            Admission::Refused(
                Refusal::MultipleCandidates(n as usize, stem, sets[i].parts@[j].path, file.path),
            )
        } else {
            Admission::Numbered(stem, n)
        },
    }
}

/// How many of `sets` have keys that come strictly before `key`.
pub open spec fn key_rank(sets: Seq<VolumeSet>, key: Seq<char>) -> int
    decreases sets.len(),
{
    if sets.len() == 0 {
        0
    } else {
        key_rank(sets.drop_last(), key) + if chars_lt(sets.last().key@, key) {
            1int
        } else {
            0int
        }
    }
}

/// How many of `parts` have numbers below `n`.
pub open spec fn number_rank(parts: Seq<Part>, n: int) -> int
    decreases parts.len(),
{
    if parts.len() == 0 {
        0
    } else {
        number_rank(parts.drop_last(), n) + if parts.last().number < n {
            1int
        } else {
            0int
        }
    }
}

proof fn lemma_key_rank(sets: Seq<VolumeSet>, key: Seq<char>, i: int)
    requires
        0 <= i <= sets.len(),
        forall|k: int| 0 <= k < i ==> chars_lt(#[trigger] sets[k].key@, key),
        forall|k: int| i <= k < sets.len() ==> !chars_lt(#[trigger] sets[k].key@, key),
    ensures
        key_rank(sets, key) == i,
    decreases sets.len(),
{
    if sets.len() > 0 {
        let rest = sets.drop_last();
        if i == sets.len() {
            assert(chars_lt(sets[sets.len() - 1].key@, key));
            lemma_key_rank(rest, key, i - 1);
        } else {
            assert(!chars_lt(sets[sets.len() - 1].key@, key));
            lemma_key_rank(rest, key, i);
        }
    }
}

proof fn lemma_number_rank(parts: Seq<Part>, n: int, p: int)
    requires
        0 <= p <= parts.len(),
        forall|k: int| 0 <= k < p ==> #[trigger] parts[k].number < n,
        forall|k: int| p <= k < parts.len() ==> #[trigger] parts[k].number >= n,
    ensures
        number_rank(parts, n) == p,
    decreases parts.len(),
{
    if parts.len() > 0 {
        let rest = parts.drop_last();
        if p == parts.len() {
            assert(parts[parts.len() - 1].number < n);
            lemma_number_rank(rest, n, p - 1);
        } else {
            assert(parts[parts.len() - 1].number >= n);
            lemma_number_rank(rest, n, p);
        }
    }
}

/// Whether `after` is `before` with the volume `n` of the archive `stem`,
/// from `path`, put into the set of its key, or into a new set where there
/// was none; the set where its key belongs, the volume where its number
/// belongs.
pub open spec fn part_added(
    before: Seq<VolumeSet>,
    after: Seq<VolumeSet>,
    stem: Seq<char>,
    n: int,
    path: PathBuf,
    count: u8,
) -> bool {
    exists|i: int, p: int|
        {
            &&& 0 <= i < after.len()
            &&& after[i].key@ == ascii_lowercase(stem)
            &&& 0 <= p < after[i].parts@.len()
            &&& #[trigger] after[i].parts@[p].number == n
            &&& after[i].parts@[p].stem@ == stem
            &&& after[i].parts@[p].path == path
            &&& after[i].parts@[p].count == count
            &&& i == key_rank(before, ascii_lowercase(stem))
            &&& if i < before.len() && before[i].key@ == ascii_lowercase(stem) {
                &&& after == before.update(i, after[i])
                &&& after[i].parts@ == before[i].parts@.insert(p, after[i].parts@[p])
                &&& p == number_rank(before[i].parts@, n)
            } else {
                &&& after == before.insert(i, after[i])
                &&& after[i].parts@.len() == 1
            }
        }
}

/// Whether `after` is the scan `before` with the file `file` taken in, its
/// header giving the volume `number` of `count`.
pub open spec fn admitted(before: Discovery, after: Discovery, file: FileName, number: u8, count: u8) -> bool {
    &&& after.wf()
    &&& after.std_only == before.std_only
    &&& after.selected == before.selected
    &&& match admission(before.sets@, file, number, count) {
        Admission::Refused(_) => false,
        Admission::Single => after.sets == before.sets && after.singles@ == before.singles@.push(
            Single { path: file.path, name: file.name },
        ),
        Admission::Numbered(stem, n) => after.singles == before.singles && part_added(
            before.sets@,
            after.sets@,
            stem,
            n,
            file.path,
            count,
        ),
    }
}

impl Discovery {
    /// Whether the sets are in key order and each is well formed.
    pub open spec fn wf(self) -> bool {
        &&& sets_ordered(self.sets@)
        &&& forall|i: int| 0 <= i < self.sets@.len() ==> set_wf(#[trigger] self.sets@[i])
    }

    /// A scan that has found nothing yet.
    pub fn new(std_only: bool, selected: Option<String>) -> (d: Discovery)
        ensures
            d.wf(),
            d.std_only == std_only,
            d.selected == selected,
            d.sets@.len() == 0,
            d.singles@.len() == 0,
    {
        Discovery { std_only, selected, sets: Vec::new(), singles: Vec::new() }
    }

    /// Whether the scan looks at `file`.
    pub fn wants(&self, file: &FileName) -> (b: bool)
        ensures
            b == wanted(self.std_only, opt_view(self.selected), *file),
    {
        if self.std_only && !std_name(&file.name) {
            return false;
        }
        match &self.selected {
            None => true,
            Some(sel) => match &file.stem {
                Some(stem) => match &file.extension {
                    Some(ext) => {
                        let a = chars_of(stem.as_str());
                        let b = chars_of(sel.as_str());
                        let e = chars_of(ext.as_str());
                        eq_ignore_ascii_case(a.as_slice(), b.as_slice()) && digits_only(
                            e.as_slice(),
                        )
                    },
                    None => false,
                },
                None => false,
            },
        }
    }

    /// Takes in the archive file `file`, whose header gives the volume
    /// `number` of `count`.
    pub fn add(&mut self, file: FileName, number: u8, count: u8) -> (r: Result<(), Error>)
        requires
            old(self).wf(),
        ensures
            final(self).wf(),
            final(self).std_only == old(self).std_only,
            final(self).selected == old(self).selected,
            match admission(old(self).sets@, file, number, count) {
                Admission::Refused(f) => r matches Err(e) && refuses(e, f)
                    && *final(self) == *old(self),
                Admission::Single => r is Ok && final(self).sets == old(self).sets
                    && final(self).singles@ == old(self).singles@.push(
                    Single { path: file.path, name: file.name },
                ),
                Admission::Numbered(stem, n) => r is Ok && final(self).singles == old(self).singles
                    && part_added(old(self).sets@, final(self).sets@, stem, n, file.path, count),
            },
            r is Ok ==> admitted(*old(self), *final(self), file, number, count),
    {
        let named = numbered_name(&file);
        match named {
            Err(e) => Err(e),
            Ok(None) => {
                if number > 1 || count > 1 {
                    return Err(Error::MultipartWithoutNumber(file.path));
                }
                self.singles.push(Single { path: file.path, name: file.name });
                Ok(())
            },
            Ok(Some((stem, n))) => {
                if number != 0 && number as usize != n {
                    return Err(Error::VolumeNumberMismatch(file.path, n, number));
                }
                let stem_chars = chars_of(stem.as_str());
                let key = chars_ascii_lowercase(stem_chars.as_slice());
                let ghost sets = self.sets@;
                let mut i: usize = 0;
                while i < self.sets.len() && lt(self.sets[i].key.as_slice(), key.as_slice())
                    invariant
                        self.sets@ == sets,
                        i <= sets.len(),
                        forall|k: int| 0 <= k < i ==> chars_lt(#[trigger] sets[k].key@, key@),
                    decreases sets.len() - i,
                {
                    i = i + 1;
                }
                if i < self.sets.len() && same_chars(self.sets[i].key.as_slice(), key.as_slice()) {
                    let ghost parts = sets[i as int].parts@;
                    let mut p: usize = 0;
                    while p < self.sets[i].parts.len() && self.sets[i].parts[p].number < n
                        invariant
                            self.sets@ == sets,
                            i < sets.len(),
                            parts == sets[i as int].parts@,
                            p <= parts.len(),
                            forall|q: int| 0 <= q < p ==> #[trigger] parts[q].number < n,
                        decreases parts.len() - p,
                    {
                        p = p + 1;
                    }
                    proof {
                        self.lemma_key_unique(i as int);
                    }
                    if p < self.sets[i].parts.len() && self.sets[i].parts[p].number == n {
                        proof {
                            assert(has_volume(sets, key@, n as int));
                            let (i2, j2) = choose|i2: int, j2: int|
                                0 <= i2 < sets.len() && sets[i2].key@ == key@ && 0 <= j2
                                    < sets[i2].parts@.len() && #[trigger] sets[i2].parts@[j2].number
                                    == n;
                            assert(i2 == i);
                            assert(set_wf(sets[i as int]));
                            if j2 < p {
                                assert(parts[j2].number < parts[p as int].number);
                            } else if j2 > p {
                                assert(parts[p as int].number < parts[j2].number);
                            }
                        }
                        return Err(
                            Error::MultipleCandidates(
                                n,
                                stem,
                                copy_path(&self.sets[i].parts[p].path),
                                file.path,
                            ),
                        );
                    }
                    proof {
                        assert(set_wf(sets[i as int]));
                        assert forall|q: int| 0 <= q < parts.len() implies #[trigger] parts[q].number
                            != n by {
                            if q > p {
                                assert(parts[p as int].number < parts[q].number);
                            }
                        }
                        assert(!has_volume(sets, key@, n as int));
                    }
                    let part = Part { number: n, stem, path: file.path, count };
                    let mut set = self.sets.remove(i);
                    set.parts.insert(p, part);
                    self.sets.insert(i, set);
                    proof {
                        assert(self.sets@ =~= sets.update(i as int, self.sets@[i as int]));
                        self.lemma_set_updated(sets, i as int, p as int);
                        let ghost added = self.sets@[i as int].parts@[p as int];
                        assert(added.number == n && added.stem@ == stem_chars@);
                        assert(added.path == file.path && added.count == count);
                        assert(sets[i as int].key@ == ascii_lowercase(stem_chars@));
                        assert forall|k: int| i <= k < sets.len() implies !chars_lt(
                            #[trigger] sets[k].key@,
                            key@,
                        ) by {
                            if k > i && chars_lt(sets[k].key@, key@) {
                                assert(chars_lt(sets[i as int].key@, sets[k].key@));
                                lemma_chars_lt_transitive(sets[k].key@, sets[i as int].key@, sets[k].key@);
                            }
                        }
                        lemma_key_rank(sets, key@, i as int);
                        assert forall|k: int| p <= k < parts.len() implies #[trigger] parts[k].number >= n by {
                            if k > p {
                                assert(parts[p as int].number < parts[k].number);
                            }
                        }
                        lemma_number_rank(parts, n as int, p as int);
                        assert(part_added(sets, self.sets@, stem_chars@, n as int, file.path, count));
                    }
                    Ok(())
                } else {
                    proof {
                        lemma_new_key(sets, i as int, key@);
                        assert(!has_volume(sets, key@, n as int));
                    }
                    let mut parts: Vec<Part> = Vec::new();
                    parts.push(Part { number: n, stem, path: file.path, count });
                    self.sets.insert(i, VolumeSet { key, parts });
                    proof {
                        lemma_set_inserted(sets, self.sets@, i as int);
                        let ghost added = self.sets@[i as int].parts@[0];
                        assert(added.number == n && added.stem@ == stem_chars@);
                        assert(added.path == file.path && added.count == count);
                        assert(!(i < sets.len() && sets[i as int].key@ == ascii_lowercase(stem_chars@)));
                        assert forall|k: int| i <= k < sets.len() implies !chars_lt(
                            #[trigger] sets[k].key@,
                            key@,
                        ) by {
                            if chars_lt(sets[k].key@, key@) {
                                assert(chars_lt(key@, sets[k].key@));
                                lemma_chars_lt_transitive(sets[k].key@, key@, sets[k].key@);
                            }
                        }
                        lemma_key_rank(sets, key@, i as int);
                        assert(part_added(sets, self.sets@, stem_chars@, n as int, file.path, count));
                    }
                    Ok(())
                }
            },
        }
    }

    /// In well formed sets, no two hold the same key.
    proof fn lemma_key_unique(&self, i: int)
        requires
            self.wf(),
            0 <= i < self.sets@.len(),
        ensures
            forall|k: int|
                0 <= k < self.sets@.len() && k != i ==> #[trigger] self.sets@[k].key@ != self.sets@[i].key@,
    {
        assert forall|k: int| 0 <= k < self.sets@.len() && k != i implies #[trigger] self.sets@[k].key@
            != self.sets@[i].key@ by {
            if k < i {
                assert(chars_lt(self.sets@[k].key@, self.sets@[i].key@));
            } else {
                assert(chars_lt(self.sets@[i].key@, self.sets@[k].key@));
            }
        }
    }

    /// A set that got one more volume, in the place of its number, keeps
    /// the scan well formed.
    proof fn lemma_set_updated(&self, before: Seq<VolumeSet>, i: int, p: int)
        requires
            sets_ordered(before),
            forall|k: int| 0 <= k < before.len() ==> set_wf(#[trigger] before[k]),
            0 <= i < before.len(),
            self.sets@ == before.update(i, self.sets@[i]),
            self.sets@[i].key@ == before[i].key@,
            0 <= p <= before[i].parts@.len(),
            self.sets@[i].parts@ == before[i].parts@.insert(p, self.sets@[i].parts@[p]),
            ascii_lowercase(self.sets@[i].parts@[p].stem@) == before[i].key@,
            forall|q: int| 0 <= q < p ==> #[trigger] before[i].parts@[q].number < self.sets@[i].parts@[p].number,
            p < before[i].parts@.len() ==> self.sets@[i].parts@[p].number < before[i].parts@[p].number,
        ensures
            self.wf(),
    {
        let old_parts = before[i].parts@;
        let parts = self.sets@[i].parts@;
        let x = parts[p];
        assert(set_wf(before[i]));
        assert forall|a: int, b: int| 0 <= a < b < parts.len() implies #[trigger] parts[a].number
            < #[trigger] parts[b].number by {
            if a < p && b == p {
            } else if a == p && b > p {
                if b - 1 > p {
                    assert(old_parts[p].number < old_parts[b - 1].number);
                }
            } else if a < p && b > p {
                assert(old_parts[a].number < old_parts[b - 1].number);
            } else if a > p {
                assert(old_parts[a - 1].number < old_parts[b - 1].number);
            } else {
                assert(old_parts[a].number < old_parts[b].number);
            }
        }
        assert forall|j: int| 0 <= j < parts.len() implies ascii_lowercase(#[trigger] parts[j].stem@)
            == self.sets@[i].key@ by {
            if j < p {
                assert(parts[j] == old_parts[j]);
            } else if j > p {
                assert(parts[j] == old_parts[j - 1]);
            }
        }
        assert(set_wf(self.sets@[i]));
        assert forall|k: int| 0 <= k < self.sets@.len() implies set_wf(#[trigger] self.sets@[k]) by {
            if k != i {
                assert(self.sets@[k] == before[k]);
            }
        }
        assert forall|a: int, b: int| 0 <= a < b < self.sets@.len() implies chars_lt(
            #[trigger] self.sets@[a].key@,
            #[trigger] self.sets@[b].key@,
        ) by {
            assert(chars_lt(before[a].key@, before[b].key@));
        }
    }


    /// Turns what the scan found into archive groups.
    pub fn finish(self) -> (r: Result<Vec<ArchiveGroup>, Error>)
        requires
            self.wf(),
        ensures
            match discovered(self) {
                Ok(gs) => r matches Ok(v) && group_views(v@) == gs,
                Err(f) => r matches Err(e) && refuses(e, f),
            },
    {
        let mut groups: Vec<ArchiveGroup> = Vec::new();
        let mut i: usize = 0;
        assert(self.sets@.take(0) =~= Seq::<VolumeSet>::empty());
        assert(group_views(groups@) =~= Seq::<GroupView>::empty());
        while i < self.sets.len()
            invariant
                self.wf(),
                i <= self.sets@.len(),
                sets_groups(self.sets@.take(i as int)) == Ok::<Seq<GroupView>, Refusal>(
                    group_views(groups@),
                ),
            decreases self.sets@.len() - i,
        {
            assert(self.sets@.take(i + 1).drop_last() =~= self.sets@.take(i as int));
            assert(self.sets@.take(i + 1).last() == self.sets@[i as int]);
            assert(set_wf(self.sets@[i as int]));
            match set_to_group(&self.sets[i]) {
                Ok(g) => {
                    let ghost before = group_views(groups@);
                    groups.push(g);
                    assert(group_views(groups@) =~= before.push(g@));
                },
                Err(e) => {
                    proof {
                        lemma_sets_groups_prefix(self.sets@, i + 1);
                    }
                    return Err(e);
                },
            }
            i = i + 1;
        }
        assert(self.sets@.take(i as int) =~= self.sets@);
        let ghost numbered = group_views(groups@);
        let mut k: usize = 0;
        while k < self.singles.len()
            invariant
                k <= self.singles@.len(),
                sets_groups(self.sets@) == Ok::<Seq<GroupView>, Refusal>(numbered),
                singles_groups(self.singles@.take(k as int)) matches Ok(b) && group_views(groups@)
                    == numbered + b,
            decreases self.singles@.len() - k,
        {
            assert(self.singles@.take(k + 1).drop_last() =~= self.singles@.take(k as int));
            assert(self.singles@.take(k + 1).last() == self.singles@[k as int]);
            match single_to_group(&self.singles[k]) {
                Ok(g) => {
                    let ghost before = group_views(groups@);
                    groups.push(g);
                    assert(group_views(groups@) =~= before.push(g@));
                },
                Err(e) => {
                    proof {
                        lemma_singles_groups_prefix(self.singles@, k + 1);
                    }
                    return Err(e);
                },
            }
            k = k + 1;
        }
        assert(self.singles@.take(k as int) =~= self.singles@);
        if groups.len() == 0 {
            return Err(Error::NoArchives(self.std_only));
        }
        let sorted = sort_groups(groups);
        match check_names(&sorted) {
            Ok(()) => Ok(sorted),
            Err(e) => Err(e),
        }
    }
}

/// Starts a scan for every archive; `selected` is the base name of an
/// explicitly named numbered archive, whose volumes alone are then wanted.
pub fn discover(selected: Option<String>) -> (d: Discovery)
    ensures
        d.wf(),
        !d.std_only,
        d.selected == selected,
        d.sets@.len() == 0,
        d.singles@.len() == 0,
{
    Discovery::new(false, selected)
}

/// Starts a scan for the archives whose names start with std, in any ASCII
/// case; `selected` as for `discover`.
pub fn discover_std(selected: Option<String>) -> (d: Discovery)
    ensures
        d.wf(),
        d.std_only,
        d.selected == selected,
        d.sets@.len() == 0,
        d.singles@.len() == 0,
{
    Discovery::new(true, selected)
}

/// A key that is not among the sorted keys of `sets` goes before the first
/// key that comes after it, which all others after it follow.
proof fn lemma_new_key(sets: Seq<VolumeSet>, i: int, key: Seq<char>)
    requires
        sets_ordered(sets),
        0 <= i <= sets.len(),
        forall|k: int| 0 <= k < i ==> chars_lt(#[trigger] sets[k].key@, key),
        i < sets.len() ==> !chars_lt(sets[i].key@, key) && sets[i].key@ != key,
    ensures
        forall|k: int| i <= k < sets.len() ==> chars_lt(key, #[trigger] sets[k].key@),
        forall|k: int| 0 <= k < sets.len() ==> #[trigger] sets[k].key@ != key,
{
    if i < sets.len() {
        lemma_chars_lt_total(key, sets[i].key@);
        assert forall|k: int| i <= k < sets.len() implies chars_lt(key, #[trigger] sets[k].key@) by {
            if k > i {
                assert(chars_lt(sets[i].key@, sets[k].key@));
                lemma_chars_lt_transitive(key, sets[i].key@, sets[k].key@);
            }
        }
    }
    assert forall|k: int| 0 <= k < sets.len() implies #[trigger] sets[k].key@ != key by {
        if k < i {
            assert(chars_lt(sets[k].key@, key));
        } else {
            assert(chars_lt(key, sets[k].key@));
        }
    }
}

/// A new set put where its key belongs keeps the sets well formed.
proof fn lemma_set_inserted(before: Seq<VolumeSet>, after: Seq<VolumeSet>, i: int)
    requires
        sets_ordered(before),
        forall|k: int| 0 <= k < before.len() ==> set_wf(#[trigger] before[k]),
        0 <= i <= before.len(),
        after == before.insert(i, after[i]),
        set_wf(after[i]),
        forall|k: int| 0 <= k < i ==> chars_lt(#[trigger] before[k].key@, after[i].key@),
        forall|k: int| i <= k < before.len() ==> chars_lt(after[i].key@, #[trigger] before[k].key@),
    ensures
        sets_ordered(after),
        forall|k: int| 0 <= k < after.len() ==> set_wf(#[trigger] after[k]),
{
    assert forall|a: int, b: int| 0 <= a < b < after.len() implies chars_lt(
        #[trigger] after[a].key@,
        #[trigger] after[b].key@,
    ) by {
        if a < i && b == i {
        } else if a == i {
            assert(after[b] == before[b - 1]);
        } else if a < i && b > i {
            assert(chars_lt(before[a].key@, before[b - 1].key@));
        } else if a > i {
            assert(chars_lt(before[a - 1].key@, before[b - 1].key@));
        } else {
            assert(chars_lt(before[a].key@, before[b].key@));
        }
    }
    assert forall|k: int| 0 <= k < after.len() implies set_wf(#[trigger] after[k]) by {
        if k < i {
            assert(after[k] == before[k]);
        } else if k > i {
            assert(after[k] == before[k - 1]);
        }
    }
}

/// An archive that discovery found: its name and its volumes in order.
#[derive(Debug)]
pub struct ArchiveGroup {
    pub name: String,
    pub volumes: Vec<PathBuf>,
}

/// An archive group as plain values.
pub struct GroupView {
    pub name: Seq<char>,
    pub volumes: Seq<PathBuf>,
}

impl View for ArchiveGroup {
    type V = GroupView;

    open spec fn view(&self) -> GroupView {
        GroupView { name: self.name@, volumes: self.volumes@ }
    }
}

/// The views of `groups`.
pub open spec fn group_views(groups: Seq<ArchiveGroup>) -> Seq<GroupView> {
    groups.map_values(|g: ArchiveGroup| g@)
}

/// The first `j` from `from` on at which the volume numbers stop counting
/// 1, 2, 3, ...; the number of parts where they never do.
pub open spec fn first_gap(parts: Seq<Part>, from: int) -> int
    decreases parts.len() - from,
{
    if from >= parts.len() {
        parts.len() as int
    } else if parts[from].number != from + 1 {
        from
    } else {
        first_gap(parts, from + 1)
    }
}

/// The paths of `parts`.
pub open spec fn part_paths(parts: Seq<Part>) -> Seq<PathBuf> {
    parts.map_values(|p: Part| p.path)
}

/// The archive that a set of volumes makes: none may be missing, and the
/// first volume's header, where it gives a count, must count them all. It
/// is named by the first volume's base name.
pub open spec fn set_group(s: VolumeSet) -> Result<GroupView, Refusal> {
    let parts = s.parts@;
    let gap = first_gap(parts, 0);
    if gap < parts.len() {
        Err(Refusal::MissingVolume((gap + 1) as usize, s.key@))
    } else if parts[0].count != 0 && parts[0].count != parts.len() {
        Err(Refusal::VolumeCountMismatch(s.key@, parts[0].count, parts.len() as usize))
    } else {
        Ok(GroupView { name: parts[0].stem@, volumes: part_paths(parts) })
    }
}

proof fn lemma_first_gap(parts: Seq<Part>, from: int)
    requires
        0 <= from <= parts.len(),
        first_gap(parts, from) >= parts.len(),
    ensures
        forall|j: int| from <= j < parts.len() ==> #[trigger] parts[j].number == j + 1,
    decreases parts.len() - from,
{
    if from < parts.len() {
        lemma_first_gap(parts, from + 1);
    }
}

/// The volumes of an archive that a set of volumes makes are those
/// numbered 1, 2, 3, ... up to their count, in that order.
pub proof fn lemma_set_group_numbers(s: VolumeSet)
    ensures
        set_group(s) matches Ok(g) ==> {
            &&& g.volumes.len() == s.parts@.len()
            &&& forall|j: int|
                0 <= j < s.parts@.len() ==> #[trigger] s.parts@[j].number == j + 1 && g.volumes[j]
                    == s.parts@[j].path
        },
{
    if set_group(s) is Ok {
        lemma_first_gap(s.parts@, 0);
    }
}

/// The archives that `sets` make, in order; the first refusal if any.
pub open spec fn sets_groups(sets: Seq<VolumeSet>) -> Result<Seq<GroupView>, Refusal>
    decreases sets.len(),
{
    if sets.len() == 0 {
        Ok(Seq::empty())
    } else {
        match sets_groups(sets.drop_last()) {
            Err(f) => Err(f),
            Ok(gs) => match set_group(sets.last()) {
                Err(f) => Err(f),
                Ok(g) => Ok(gs.push(g)),
            },
        }
    }
}

/// The archive that a single file makes, named by its file name.
pub open spec fn single_group(s: Single) -> Result<GroupView, Refusal> {
    match opt_view(s.name) {
        None => Err(Refusal::Plain(Error::InvalidArchiveFilename)),
        Some(name) => Ok(GroupView { name, volumes: seq![s.path] }),
    }
}

/// The archives that `singles` make, in order; the first refusal if any.
pub open spec fn singles_groups(singles: Seq<Single>) -> Result<Seq<GroupView>, Refusal>
    decreases singles.len(),
{
    if singles.len() == 0 {
        Ok(Seq::empty())
    } else {
        match singles_groups(singles.drop_last()) {
            Err(f) => Err(f),
            Ok(gs) => match single_group(singles.last()) {
                Err(f) => Err(f),
                Ok(g) => Ok(gs.push(g)),
            },
        }
    }
}

/// A group is sorted by its name in ASCII lower case.
pub open spec fn group_key() -> spec_fn(GroupView) -> Seq<char> {
    |g: GroupView| ascii_lowercase(g.name)
}

/// What is wrong with the name of the group `i` of `gs`, if anything: it
/// must be a safe path of one component, and differ from the names before
/// it when both are lower-cased.
pub open spec fn name_fault(gs: Seq<GroupView>, i: int) -> Option<Refusal> {
    let name = gs[i].name;
    match safe_path_of(name, false) {
        None => Some(Refusal::Unsafe(with_slashes(name))),
        Some(path) => if path.contains('/') {
            Some(Refusal::NameHasSeparator(name))
        } else if exists|j: int|
            0 <= j < i && unicode_lowercase(#[trigger] gs[j].name) == unicode_lowercase(name) {
            Some(Refusal::Ambiguous(name))
        } else {
            None
        },
    }
}

/// The first fault of the names of `gs` from `from` on.
pub open spec fn first_name_fault(gs: Seq<GroupView>, from: int) -> Option<Refusal>
    decreases gs.len() - from,
{
    if from < 0 || from >= gs.len() {
        None
    } else {
        match name_fault(gs, from) {
            Some(f) => Some(f),
            None => first_name_fault(gs, from + 1),
        }
    }
}

/// What a scan that found `d` yields: the numbered archives in key order,
/// then the single files in the order found; at least one; then sorted by
/// name in ASCII lower case, the order kept among equal names; and the
/// names must pass `name_fault`.
pub open spec fn discovered(d: Discovery) -> Result<Seq<GroupView>, Refusal> {
    match sets_groups(d.sets@) {
        Err(f) => Err(f),
        Ok(a) => match singles_groups(d.singles@) {
            Err(f) => Err(f),
            Ok(b) => if a.len() + b.len() == 0 {
                Err(Refusal::Plain(Error::NoArchives(d.std_only)))
            } else {
                let sorted = sort_by_key(a + b, group_key());
                match first_name_fault(sorted, 0) {
                    Some(f) => Err(f),
                    None => Ok(sorted),
                }
            },
        },
    }
}

proof fn lemma_sets_groups_prefix(sets: Seq<VolumeSet>, k: int)
    requires
        0 <= k <= sets.len(),
        sets_groups(sets.take(k)) is Err,
    ensures
        sets_groups(sets) == sets_groups(sets.take(k)),
    decreases sets.len(),
{
    if k == sets.len() {
        assert(sets.take(k) =~= sets);
    } else {
        assert(sets.drop_last().take(k) =~= sets.take(k));
        lemma_sets_groups_prefix(sets.drop_last(), k);
    }
}

proof fn lemma_singles_groups_prefix(singles: Seq<Single>, k: int)
    requires
        0 <= k <= singles.len(),
        singles_groups(singles.take(k)) is Err,
    ensures
        singles_groups(singles) == singles_groups(singles.take(k)),
    decreases singles.len(),
{
    if k == singles.len() {
        assert(singles.take(k) =~= singles);
    } else {
        assert(singles.drop_last().take(k) =~= singles.take(k));
        lemma_singles_groups_prefix(singles.drop_last(), k);
    }
}

/// A copy of `s`.
fn copy_string(s: &String) -> (r: String)
    ensures
        r@ == s@,
{
    let chars = chars_of(s.as_str());
    string_of(chars.as_slice())
}

/// The archive group that a set of volumes makes.
fn set_to_group(set: &VolumeSet) -> (r: Result<ArchiveGroup, Error>)
    requires
        set_wf(*set),
    ensures
        match set_group(*set) {
            Ok(g) => r matches Ok(a) && a@ == g,
            Err(f) => r matches Err(e) && refuses(e, f),
        },
{
    let ghost parts = set.parts@;
    let mut j: usize = 0;
    while j < set.parts.len()
        invariant
            parts == set.parts@,
            j <= parts.len(),
            first_gap(parts, 0) == first_gap(parts, j as int),
        decreases parts.len() - j,
    {
        if set.parts[j].number != j + 1 {
            return Err(Error::MissingVolume(j + 1, string_of(set.key.as_slice())));
        }
        j = j + 1;
    }
    let first = &set.parts[0];
    if first.count != 0 && first.count as usize != set.parts.len() {
        return Err(
            Error::VolumeCountMismatch(string_of(set.key.as_slice()), first.count, set.parts.len()),
        );
    }
    let mut volumes: Vec<PathBuf> = Vec::new();
    let mut k: usize = 0;
    while k < set.parts.len()
        invariant
            parts == set.parts@,
            k <= parts.len(),
            volumes@ == part_paths(parts.take(k as int)),
        decreases parts.len() - k,
    {
        volumes.push(copy_path(&set.parts[k].path));
        k = k + 1;
        assert(volumes@ =~= part_paths(parts.take(k as int)));
    }
    assert(parts.take(k as int) =~= parts);
    Ok(ArchiveGroup { name: copy_string(&first.stem), volumes })
}

/// The archive group that a single file makes.
fn single_to_group(single: &Single) -> (r: Result<ArchiveGroup, Error>)
    ensures
        match single_group(*single) {
            Ok(g) => r matches Ok(a) && a@ == g,
            Err(f) => r matches Err(e) && refuses(e, f),
        },
{
    match &single.name {
        None => Err(Error::InvalidArchiveFilename),
        Some(name) => {
            let mut volumes: Vec<PathBuf> = Vec::new();
            volumes.push(copy_path(&single.path));
            assert(volumes@ =~= seq![single.path]);
            Ok(ArchiveGroup { name: copy_string(name), volumes })
        },
    }
}

/// The name of a group in ASCII lower case.
fn name_key(g: &ArchiveGroup) -> (k: Vec<char>)
    ensures
        k@ == group_key()(g@),
{
    let chars = chars_of(g.name.as_str());
    chars_ascii_lowercase(chars.as_slice())
}

/// Sorts groups by name in ASCII lower case, keeping the order among equal
/// names.
fn sort_groups(groups: Vec<ArchiveGroup>) -> (r: Vec<ArchiveGroup>)
    ensures
        group_views(r@) == sort_by_key(group_views(groups@), group_key()),
{
    let ghost all = group_views(groups@);
    let ghost key = group_key();
    let mut rest = groups;
    let mut sorted: Vec<ArchiveGroup> = Vec::new();
    let mut i: usize = 0;
    let count = rest.len();
    assert(all.take(0) =~= Seq::<GroupView>::empty());
    assert(group_views(sorted@) =~= Seq::<GroupView>::empty());
    while i < count
        invariant
            i <= count == all.len(),
            key == group_key(),
            rest@.len() == count - i,
            group_views(rest@) == all.skip(i as int),
            group_views(sorted@) == sort_by_key(all.take(i as int), key),
        decreases count - i,
    {
        assert(all.take(i + 1).drop_last() =~= all.take(i as int));
        let ghost rest_before = rest@;
        let x = rest.remove(0);
        assert(group_views(rest@) =~= all.skip(i + 1)) by {
            assert(rest@ =~= rest_before.drop_first());
            assert(group_views(rest_before.drop_first()) =~= group_views(rest_before).drop_first());
        }
        assert(x@ == all[i as int]) by {
            assert(group_views(rest_before)[0] == x@);
        }
        assert(all.take(i + 1).last() == x@);
        let ghost views = group_views(sorted@);
        proof {
            lemma_insert_position(views, x@, key);
        }
        let xkey = name_key(&x);
        let mut p: usize = 0;
        assert(views.skip(0) =~= views);
        while p < sorted.len() && crate::order::le(name_key(&sorted[p]).as_slice(), xkey.as_slice())
            invariant
                p <= sorted@.len(),
                key == group_key(),
                views == group_views(sorted@),
                xkey@ == key(x@),
                insert_position(views, key(x@), key) == p + insert_position(
                    views.skip(p as int),
                    key(x@),
                    key,
                ),
            decreases sorted@.len() - p,
        {
            assert(views.skip(p as int).drop_first() =~= views.skip(p + 1));
            assert(views.skip(p as int)[0] == sorted@[p as int]@);
            p = p + 1;
        }
        proof {
            if p < sorted@.len() {
                assert(views.skip(p as int)[0] == sorted@[p as int]@);
            }
        }
        assert(insert_position(views, key(x@), key) == p);
        sorted.insert(p, x);
        assert(group_views(sorted@) =~= views.insert(p as int, x@));
        i = i + 1;
    }
    assert(all.take(i as int) =~= all);
    sorted
}

/// Whether `s` holds a slash.
fn has_slash(s: &String) -> (b: bool)
    ensures
        b == s@.contains('/'),
{
    let chars = chars_of(s.as_str());
    let mut i: usize = 0;
    while i < chars.len()
        invariant
            i <= chars@.len(),
            chars@ == s@,
            forall|k: int| 0 <= k < i ==> chars@[k] != '/',
        decreases chars@.len() - i,
    {
        if chars[i] == '/' {
            assert(s@[i as int] == '/');
            return true;
        }
        i = i + 1;
    }
    false
}

/// Checks the names of the groups, in order.
#[verifier::loop_isolation(false)]
fn check_names(groups: &Vec<ArchiveGroup>) -> (r: Result<(), Error>)
    ensures
        match first_name_fault(group_views(groups@), 0) {
            None => r is Ok,
            Some(f) => r matches Err(e) && refuses(e, f),
        },
{
    let ghost gs = group_views(groups@);
    let mut lowered: Vec<Vec<char>> = Vec::new();
    let mut i: usize = 0;
    while i < groups.len()
        invariant
            gs == group_views(groups@),
            i <= gs.len(),
            lowered@.len() == i,
            forall|j: int| 0 <= j < i ==> (#[trigger] lowered@[j])@ == unicode_lowercase(gs[j].name),
            first_name_fault(gs, 0) == first_name_fault(gs, i as int),
        decreases gs.len() - i,
    {
        let name = &groups[i].name;
        assert(name@ == gs[i as int].name);
        let path = match safe_path(name.as_str(), false) {
            Ok(p) => p,
            Err(e) => {
                return Err(e);
            },
        };
        if has_slash(&path) {
            return Err(Error::GroupNameHasSeparator(copy_string(name)));
        }
        let lower = lowercase(name.as_str());
        let lower_chars = chars_of(lower.as_str());
        let mut j: usize = 0;
        while j < lowered.len()
            invariant
                j <= lowered@.len() == i,
                i < gs.len(),
                lower_chars@ == unicode_lowercase(gs[i as int].name),
                forall|m: int| 0 <= m < i ==> (#[trigger] lowered@[m])@ == unicode_lowercase(gs[m].name),
                forall|m: int| 0 <= m < j ==> unicode_lowercase(#[trigger] gs[m].name) != unicode_lowercase(gs[i as int].name),
            decreases i - j,
        {
            if same_chars(lowered[j].as_slice(), lower_chars.as_slice()) {
                assert(unicode_lowercase(gs[j as int].name) == unicode_lowercase(gs[i as int].name));
                assert(name_fault(gs, i as int) == Some(Refusal::Ambiguous(gs[i as int].name)));
                return Err(Error::AmbiguousGroupName(copy_string(name)));
            }
            j = j + 1;
        }
        assert(name_fault(gs, i as int) is None);
        lowered.push(lower_chars);
        i = i + 1;
    }
    Ok(())
}

proof fn lemma_no_name_fault(gs: Seq<GroupView>, from: int, i: int)
    requires
        0 <= from <= i < gs.len(),
        first_name_fault(gs, from) is None,
    ensures
        name_fault(gs, i) is None,
    decreases i - from,
{
    if from < i {
        lemma_no_name_fault(gs, from + 1, i);
    }
}

/// What a scan yields is at least one archive, sorted by name in ASCII
/// lower case; each name is one safe path component, as it stands; and no
/// two names are equal when lower-cased.
pub proof fn lemma_discovered_groups(d: Discovery)
    ensures
        discovered(d) matches Ok(gs) ==> {
            &&& gs.len() > 0
            &&& sorted_by_key(gs, group_key())
            &&& forall|i: int|
                0 <= i < gs.len() ==> safe_path_of(#[trigger] gs[i].name, false) == Some(gs[i].name)
            &&& forall|i: int, j: int|
                0 <= i < j < gs.len() ==> unicode_lowercase(#[trigger] gs[i].name)
                    != unicode_lowercase(#[trigger] gs[j].name)
        },
{
    if let Ok(gs) = discovered(d) {
        let a = sets_groups(d.sets@)->Ok_0;
        let b = singles_groups(d.singles@)->Ok_0;
        lemma_sort_by_key(a + b, group_key());
        assert(gs.len() > 0) by {
            vstd::seq_lib::to_multiset_len(a + b);
            vstd::seq_lib::to_multiset_len(gs);
        }
        assert forall|i: int| 0 <= i < gs.len() implies safe_path_of(#[trigger] gs[i].name, false)
            == Some(gs[i].name) by {
            lemma_no_name_fault(gs, 0, i);
            let name = gs[i].name;
            let path = with_slashes(name);
            assert(!path.contains('/'));
            assert forall|k: int| 0 <= k < name.len() implies path[k] == name[k] by {
                if name[k] == '\\' {
                    assert(path[k] == '/');
                }
            }
            assert(path =~= name);
        }
        assert forall|i: int, j: int| 0 <= i < j < gs.len() implies unicode_lowercase(
            #[trigger] gs[i].name,
        ) != unicode_lowercase(#[trigger] gs[j].name) by {
            lemma_no_name_fault(gs, 0, j);
        }
    }
}

// ---------------------------------------------------------------------------
// Where the files lie does not matter

/// Whether two lists of volumes are the same but for the volumes' paths.
pub open spec fn parts_similar(a: Seq<Part>, b: Seq<Part>) -> bool {
    &&& a.len() == b.len()
    &&& forall|j: int|
        0 <= j < a.len() ==> (#[trigger] a[j]).number == b[j].number && a[j].stem@ == b[j].stem@
            && a[j].count == b[j].count
}

/// Whether two lists of volume sets are the same but for the volumes'
/// paths.
pub open spec fn sets_similar(a: Seq<VolumeSet>, b: Seq<VolumeSet>) -> bool {
    &&& a.len() == b.len()
    &&& forall|i: int|
        0 <= i < a.len() ==> (#[trigger] a[i]).key@ == b[i].key@ && parts_similar(a[i].parts@, b[i].parts@)
}

/// Whether two lists of single-file archives are the same but for their
/// paths.
pub open spec fn singles_similar(a: Seq<Single>, b: Seq<Single>) -> bool {
    &&& a.len() == b.len()
    &&& forall|i: int| 0 <= i < a.len() ==> opt_view((#[trigger] a[i]).name) == opt_view(b[i].name)
}

/// Whether two scans are the same but for where the files they found lie.
pub open spec fn scans_similar(d1: Discovery, d2: Discovery) -> bool {
    &&& d1.std_only == d2.std_only
    &&& opt_view(d1.selected) == opt_view(d2.selected)
    &&& sets_similar(d1.sets@, d2.sets@)
    &&& singles_similar(d1.singles@, d2.singles@)
}

/// Whether two files have the same names, wherever they lie.
pub open spec fn same_names(f1: FileName, f2: FileName) -> bool {
    &&& opt_view(f1.name) == opt_view(f2.name)
    &&& opt_view(f1.stem) == opt_view(f2.stem)
    &&& opt_view(f1.extension) == opt_view(f2.extension)
}

proof fn lemma_key_rank_similar(a: Seq<VolumeSet>, b: Seq<VolumeSet>, key: Seq<char>)
    requires
        sets_similar(a, b),
    ensures
        key_rank(a, key) == key_rank(b, key),
    decreases a.len(),
{
    if a.len() > 0 {
        assert(sets_similar(a.drop_last(), b.drop_last())) by {
            assert forall|i: int| 0 <= i < a.drop_last().len() implies (#[trigger] a.drop_last()[i]).key@
                == b.drop_last()[i].key@ && parts_similar(
                a.drop_last()[i].parts@,
                b.drop_last()[i].parts@,
            ) by {
                assert(a.drop_last()[i] == a[i] && b.drop_last()[i] == b[i]);
            }
        }
        lemma_key_rank_similar(a.drop_last(), b.drop_last(), key);
        assert(a.last() == a[a.len() - 1] && b.last() == b[b.len() - 1]);
    }
}

proof fn lemma_key_rank_bounds(sets: Seq<VolumeSet>, key: Seq<char>)
    ensures
        0 <= key_rank(sets, key) <= sets.len(),
    decreases sets.len(),
{
    if sets.len() > 0 {
        lemma_key_rank_bounds(sets.drop_last(), key);
    }
}

proof fn lemma_number_rank_bounds(parts: Seq<Part>, n: int)
    ensures
        0 <= number_rank(parts, n) <= parts.len(),
    decreases parts.len(),
{
    if parts.len() > 0 {
        lemma_number_rank_bounds(parts.drop_last(), n);
    }
}

proof fn lemma_number_rank_similar(a: Seq<Part>, b: Seq<Part>, n: int)
    requires
        parts_similar(a, b),
    ensures
        number_rank(a, n) == number_rank(b, n),
    decreases a.len(),
{
    if a.len() > 0 {
        assert(parts_similar(a.drop_last(), b.drop_last())) by {
            assert forall|j: int| 0 <= j < a.drop_last().len() implies (#[trigger] a.drop_last()[j]).number
                == b.drop_last()[j].number && a.drop_last()[j].stem@ == b.drop_last()[j].stem@
                && a.drop_last()[j].count == b.drop_last()[j].count by {
                assert(a.drop_last()[j] == a[j] && b.drop_last()[j] == b[j]);
            }
        }
        lemma_number_rank_similar(a.drop_last(), b.drop_last(), n);
        assert(a.last() == a[a.len() - 1] && b.last() == b[b.len() - 1]);
    }
}

/// Two lists of volume sets that are the same but for the volumes' paths
/// refuse a file with the same names and header alike, and taking it in
/// keeps them the same but for the volumes' paths.
proof fn lemma_admission_similar(
    s1: Seq<VolumeSet>,
    s2: Seq<VolumeSet>,
    t1: Seq<VolumeSet>,
    t2: Seq<VolumeSet>,
    f1: FileName,
    f2: FileName,
    number: u8,
    count: u8,
)
    requires
        sets_similar(s1, s2),
        same_names(f1, f2),
    ensures
        admission(s1, f1, number, count) is Refused <==> admission(s2, f2, number, count) is Refused,
        admission(s1, f1, number, count) is Single <==> admission(s2, f2, number, count) is Single,
        admission(s1, f1, number, count) matches Admission::Numbered(stem, n) ==> {
            &&& admission(s2, f2, number, count) == Admission::Numbered(stem, n)
            &&& (part_added(s1, t1, stem, n, f1.path, count) && part_added(s2, t2, stem, n, f2.path, count))
                ==> sets_similar(t1, t2)
        },
{
    assert(volume_name(f1) is Ok <==> volume_name(f2) is Ok);
    if let Ok(Some((stem, n))) = volume_name(f1) {
        let key = ascii_lowercase(stem);
        assert(volume_name(f2) == Ok::<Option<(Seq<char>, int)>, Error>(Some((stem, n))));
        assert(has_volume(s1, key, n) <==> has_volume(s2, key, n)) by {
            if has_volume(s1, key, n) {
                let (i, j) = choose|i: int, j: int|
                    0 <= i < s1.len() && s1[i].key@ == key && 0 <= j < s1[i].parts@.len()
                        && #[trigger] s1[i].parts@[j].number == n;
                assert(s2[i].parts@[j].number == n);
            }
            if has_volume(s2, key, n) {
                let (i, j) = choose|i: int, j: int|
                    0 <= i < s2.len() && s2[i].key@ == key && 0 <= j < s2[i].parts@.len()
                        && #[trigger] s2[i].parts@[j].number == n;
                assert(s1[i].parts@[j].number == n);
            }
        }
    }
    if let Ok(None) = volume_name(f1) {
        assert(volume_name(f2) == Ok::<Option<(Seq<char>, int)>, Error>(None));
    }
    if let Admission::Numbered(stem, n) = admission(s1, f1, number, count) {
        assert(admission(s2, f2, number, count) == Admission::Numbered(stem, n));
        if part_added(s1, t1, stem, n, f1.path, count) && part_added(s2, t2, stem, n, f2.path, count) {
            let key = ascii_lowercase(stem);
            let (i1, p1) = choose|i: int, p: int|
                {
                    &&& 0 <= i < t1.len()
                    &&& t1[i].key@ == key
                    &&& 0 <= p < t1[i].parts@.len()
                    &&& #[trigger] t1[i].parts@[p].number == n
                    &&& t1[i].parts@[p].stem@ == stem
                    &&& t1[i].parts@[p].path == f1.path
                    &&& t1[i].parts@[p].count == count
                    &&& i == key_rank(s1, key)
                    &&& if i < s1.len() && s1[i].key@ == key {
                        &&& t1 == s1.update(i, t1[i])
                        &&& t1[i].parts@ == s1[i].parts@.insert(p, t1[i].parts@[p])
                        &&& p == number_rank(s1[i].parts@, n)
                    } else {
                        &&& t1 == s1.insert(i, t1[i])
                        &&& t1[i].parts@.len() == 1
                    }
                };
            let (i2, p2) = choose|i: int, p: int|
                {
                    &&& 0 <= i < t2.len()
                    &&& t2[i].key@ == key
                    &&& 0 <= p < t2[i].parts@.len()
                    &&& #[trigger] t2[i].parts@[p].number == n
                    &&& t2[i].parts@[p].stem@ == stem
                    &&& t2[i].parts@[p].path == f2.path
                    &&& t2[i].parts@[p].count == count
                    &&& i == key_rank(s2, key)
                    &&& if i < s2.len() && s2[i].key@ == key {
                        &&& t2 == s2.update(i, t2[i])
                        &&& t2[i].parts@ == s2[i].parts@.insert(p, t2[i].parts@[p])
                        &&& p == number_rank(s2[i].parts@, n)
                    } else {
                        &&& t2 == s2.insert(i, t2[i])
                        &&& t2[i].parts@.len() == 1
                    }
                };
            lemma_key_rank_similar(s1, s2, key);
            assert(i1 == i2);
            let i = i1;
            if i < s1.len() && s1[i].key@ == key {
                assert(s2[i].key@ == s1[i].key@ && parts_similar(s1[i].parts@, s2[i].parts@));
                lemma_number_rank_similar(s1[i].parts@, s2[i].parts@, n);
                lemma_number_rank_bounds(s1[i].parts@, n);
                assert(p1 == p2);
                s1[i].parts@.insert_ensures(p1, t1[i].parts@[p1]);
                s2[i].parts@.insert_ensures(p1, t2[i].parts@[p1]);
                let a = t1[i].parts@;
                let b = t2[i].parts@;
                assert(a == s1[i].parts@.insert(p1, a[p1]));
                assert(b == s2[i].parts@.insert(p1, b[p1]));
                assert forall|j: int| 0 <= j < a.len() implies (#[trigger] a[j]).number == b[j].number
                    && a[j].stem@ == b[j].stem@ && a[j].count == b[j].count by {
                    let x = s1[i].parts@.insert(p1, a[p1]);
                    let y = s2[i].parts@.insert(p1, b[p1]);
                    assert(a[j] == x[j] && b[j] == y[j]);
                    s1[i].parts@.insert_ensures(p1, a[p1]);
                    s2[i].parts@.insert_ensures(p1, b[p1]);
                    if j < p1 {
                        assert(x[j] == s1[i].parts@[j] && y[j] == s2[i].parts@[j]);
                    } else if j > p1 {
                        assert(x[(j - 1) + 1] == s1[i].parts@[j - 1]);
                        assert(y[(j - 1) + 1] == s2[i].parts@[j - 1]);
                    }
                }
                assert forall|k: int| 0 <= k < t1.len() implies (#[trigger] t1[k]).key@ == t2[k].key@
                    && parts_similar(t1[k].parts@, t2[k].parts@) by {
                    if k != i {
                        assert(t1[k] == s1[k] && t2[k] == s2[k]);
                    }
                }
            } else {
                assert(!(i < s2.len() && s2[i].key@ == key)) by {
                    if i < s2.len() {
                        assert(s2[i].key@ == s1[i].key@);
                    }
                }
                let a = t1[i].parts@;
                let b = t2[i].parts@;
                lemma_key_rank_bounds(s1, key);
                s1.insert_ensures(i, t1[i]);
                s2.insert_ensures(i, t2[i]);
                assert(p1 == 0 && p2 == 0);
                assert(parts_similar(a, b));
                assert forall|k: int| 0 <= k < t1.len() implies (#[trigger] t1[k]).key@ == t2[k].key@
                    && parts_similar(t1[k].parts@, t2[k].parts@) by {
                    if k < i {
                        assert(t1[k] == s1[k] && t2[k] == s2[k]);
                    } else if k > i {
                        assert(t1[(k - 1) + 1] == s1[k - 1] && t2[(k - 1) + 1] == s2[k - 1]);
                    }
                }
            }
        }
    }
}

/// Where a file lies does not change what a scan makes of it: two scans
/// that are the same but for where their files lie refuse a file with the
/// same names and header alike, and taking it in keeps them the same but
/// for where their files lie.
pub proof fn lemma_add_renamed(
    d1: Discovery,
    d2: Discovery,
    e1: Discovery,
    e2: Discovery,
    f1: FileName,
    f2: FileName,
    number: u8,
    count: u8,
)
    requires
        d1.wf(),
        d2.wf(),
        scans_similar(d1, d2),
        same_names(f1, f2),
    ensures
        admission(d1.sets@, f1, number, count) is Refused <==> admission(d2.sets@, f2, number, count) is Refused,
        admitted(d1, e1, f1, number, count) && admitted(d2, e2, f2, number, count) ==> scans_similar(
            e1,
            e2,
        ),
{
    let s1 = d1.sets@;
    let s2 = d2.sets@;
    lemma_admission_similar(s1, s2, e1.sets@, e2.sets@, f1, f2, number, count);
    if admitted(d1, e1, f1, number, count) && admitted(d2, e2, f2, number, count) {
        match admission(s1, f1, number, count) {
            Admission::Single => {
                assert(admission(s2, f2, number, count) is Single);
                assert forall|i: int| 0 <= i < e1.singles@.len() implies opt_view(
                    (#[trigger] e1.singles@[i]).name,
                ) == opt_view(e2.singles@[i].name) by {
                    if i < d1.singles@.len() {
                        assert(e1.singles@[i] == d1.singles@[i] && e2.singles@[i] == d2.singles@[i]);
                    }
                }
            },
            _ => {},
        }
    }
}

/// The name of a group and how many volumes it has.
pub open spec fn group_shape() -> spec_fn(GroupView) -> (Seq<char>, int) {
    |g: GroupView| (g.name, g.volumes.len() as int)
}

/// A shape is sorted by its name in ASCII lower case.
pub open spec fn shape_key() -> spec_fn((Seq<char>, int)) -> Seq<char> {
    |t: (Seq<char>, int)| ascii_lowercase(t.0)
}

/// The names and volume counts of `gs`.
pub open spec fn shapes(gs: Seq<GroupView>) -> Seq<(Seq<char>, int)> {
    gs.map_values(group_shape())
}

proof fn lemma_first_gap_similar(a: Seq<Part>, b: Seq<Part>, from: int)
    requires
        parts_similar(a, b),
        0 <= from,
    ensures
        first_gap(a, from) == first_gap(b, from),
    decreases a.len() - from,
{
    if from < a.len() {
        assert(a[from].number == b[from].number);
        lemma_first_gap_similar(a, b, from + 1);
    }
}

proof fn lemma_set_group_similar(s1: VolumeSet, s2: VolumeSet)
    requires
        s1.key@ == s2.key@,
        parts_similar(s1.parts@, s2.parts@),
        s1.parts@.len() > 0,
    ensures
        set_group(s1) is Err ==> set_group(s2) == set_group(s1),
        set_group(s1) matches Ok(g1) ==> set_group(s2) matches Ok(g2) && group_shape()(g1)
            == group_shape()(g2),
{
    lemma_first_gap_similar(s1.parts@, s2.parts@, 0);
    assert(s1.parts@[0].number == s2.parts@[0].number);
}

proof fn lemma_sets_groups_similar(a: Seq<VolumeSet>, b: Seq<VolumeSet>)
    requires
        sets_similar(a, b),
        forall|i: int| 0 <= i < a.len() ==> set_wf(#[trigger] a[i]),
    ensures
        sets_groups(a) is Err ==> sets_groups(b) == sets_groups(a),
        sets_groups(a) matches Ok(x) ==> sets_groups(b) matches Ok(y) && shapes(x) == shapes(y),
    decreases a.len(),
{
    if a.len() > 0 {
        let (ra, rb) = (a.drop_last(), b.drop_last());
        assert(sets_similar(ra, rb)) by {
            assert forall|i: int| 0 <= i < ra.len() implies (#[trigger] ra[i]).key@ == rb[i].key@
                && parts_similar(ra[i].parts@, rb[i].parts@) by {
                assert(ra[i] == a[i] && rb[i] == b[i]);
            }
        }
        assert forall|i: int| 0 <= i < ra.len() implies set_wf(#[trigger] ra[i]) by {
            assert(ra[i] == a[i]);
        }
        lemma_sets_groups_similar(ra, rb);
        assert(a.last() == a[a.len() - 1] && b.last() == b[b.len() - 1]);
        assert(set_wf(a[a.len() - 1]));
        lemma_set_group_similar(a.last(), b.last());
        if let Ok(x) = sets_groups(a) {
            let xs = sets_groups(ra)->Ok_0;
            let ys = sets_groups(rb)->Ok_0;
            let g1 = set_group(a.last())->Ok_0;
            let g2 = set_group(b.last())->Ok_0;
            assert(shapes(xs.push(g1)) =~= shapes(xs).push(group_shape()(g1)));
            assert(shapes(ys.push(g2)) =~= shapes(ys).push(group_shape()(g2)));
        }
    }
}

proof fn lemma_singles_groups_similar(a: Seq<Single>, b: Seq<Single>)
    requires
        singles_similar(a, b),
    ensures
        singles_groups(a) is Err ==> singles_groups(b) == singles_groups(a),
        singles_groups(a) matches Ok(x) ==> singles_groups(b) matches Ok(y) && shapes(x) == shapes(y),
    decreases a.len(),
{
    if a.len() > 0 {
        let (ra, rb) = (a.drop_last(), b.drop_last());
        assert(singles_similar(ra, rb)) by {
            assert forall|i: int| 0 <= i < ra.len() implies opt_view((#[trigger] ra[i]).name) == opt_view(
                rb[i].name,
            ) by {
                assert(ra[i] == a[i] && rb[i] == b[i]);
            }
        }
        lemma_singles_groups_similar(ra, rb);
        assert(a.last() == a[a.len() - 1] && b.last() == b[b.len() - 1]);
        assert(opt_view(a.last().name) == opt_view(b.last().name));
        if let Ok(x) = singles_groups(a) {
            let xs = singles_groups(ra)->Ok_0;
            let ys = singles_groups(rb)->Ok_0;
            let g1 = single_group(a.last())->Ok_0;
            let g2 = single_group(b.last())->Ok_0;
            assert(shapes(xs.push(g1)) =~= shapes(xs).push(group_shape()(g1)));
            assert(shapes(ys.push(g2)) =~= shapes(ys).push(group_shape()(g2)));
        }
    }
}

proof fn lemma_name_faults_same(g1: Seq<GroupView>, g2: Seq<GroupView>, from: int)
    requires
        g1.len() == g2.len(),
        forall|i: int| 0 <= i < g1.len() ==> (#[trigger] g1[i]).name == g2[i].name,
    ensures
        first_name_fault(g1, from) == first_name_fault(g2, from),
    decreases g1.len() - from,
{
    if 0 <= from < g1.len() {
        assert(g1[from].name == g2[from].name);
        let name = g1[from].name;
        assert((exists|j: int| 0 <= j < from && unicode_lowercase(#[trigger] g1[j].name) == unicode_lowercase(name))
            <==> (exists|j: int| 0 <= j < from && unicode_lowercase(#[trigger] g2[j].name) == unicode_lowercase(name))) by {
            if exists|j: int| 0 <= j < from && unicode_lowercase(#[trigger] g1[j].name) == unicode_lowercase(name) {
                let j = choose|j: int| 0 <= j < from && unicode_lowercase(#[trigger] g1[j].name) == unicode_lowercase(name);
                assert(g2[j].name == g1[j].name);
            }
            if exists|j: int| 0 <= j < from && unicode_lowercase(#[trigger] g2[j].name) == unicode_lowercase(name) {
                let j = choose|j: int| 0 <= j < from && unicode_lowercase(#[trigger] g2[j].name) == unicode_lowercase(name);
                assert(g1[j].name == g2[j].name);
            }
        }
        assert(name_fault(g1, from) == name_fault(g2, from));
        lemma_name_faults_same(g1, g2, from + 1);
    }
}

/// Where the files lie does not change what a scan yields: two scans that
/// are the same but for where their files lie are refused alike, or yield
/// groups of the same names with the same numbers of volumes, in the same
/// order (each volume numbered by its place, `lemma_set_group_numbers`).
pub proof fn lemma_finish_renamed(d1: Discovery, d2: Discovery)
    requires
        d1.wf(),
        d2.wf(),
        scans_similar(d1, d2),
    ensures
        discovered(d1) is Err ==> discovered(d2) == discovered(d1),
        discovered(d1) matches Ok(g1) ==> discovered(d2) matches Ok(g2) && shapes(g1) == shapes(g2),
{
    lemma_sets_groups_similar(d1.sets@, d2.sets@);
    lemma_singles_groups_similar(d1.singles@, d2.singles@);
    if let (Ok(a1), Ok(b1)) = (sets_groups(d1.sets@), singles_groups(d1.singles@)) {
        let a2 = sets_groups(d2.sets@)->Ok_0;
        let b2 = singles_groups(d2.singles@)->Ok_0;
        let x1 = a1 + b1;
        let x2 = a2 + b2;
        assert(shapes(x1) =~= shapes(a1) + shapes(b1));
        assert(shapes(x2) =~= shapes(a2) + shapes(b2));
        assert(x1.len() == shapes(x1).len() && x2.len() == shapes(x2).len());
        assert forall|g: GroupView| #[trigger] shape_key()(group_shape()(g)) == group_key()(g) by {}
        lemma_sort_map(x1, group_shape(), group_key(), shape_key());
        lemma_sort_map(x2, group_shape(), group_key(), shape_key());
        let y1 = sort_by_key(x1, group_key());
        let y2 = sort_by_key(x2, group_key());
        assert(shapes(y1) == shapes(y2));
        assert(y1.len() == y2.len()) by {
            assert(shapes(y1).len() == y1.len() && shapes(y2).len() == y2.len());
        }
        assert forall|i: int| 0 <= i < y1.len() implies (#[trigger] y1[i]).name == y2[i].name by {
            assert(shapes(y1)[i] == shapes(y2)[i]);
        }
        lemma_name_faults_same(y1, y2, 0);
    }
}

/// The file names of single-file archives.
pub open spec fn single_names(s: Seq<Single>) -> Seq<Option<Seq<char>>> {
    s.map_values(|x: Single| opt_view(x.name))
}

/// Whether two file names, where both are there, differ in ASCII lower
/// case.
pub open spec fn names_differ(a: Option<Seq<char>>, b: Option<Seq<char>>) -> bool {
    match (a, b) {
        (Some(x), Some(y)) => ascii_lowercase(x) != ascii_lowercase(y),
        _ => true,
    }
}

/// Whether each swap in `ks`, of the name at its index with the next one,
/// made in turn, swaps names that differ in ASCII lower case.
pub open spec fn swaps_ok(names: Seq<Option<Seq<char>>>, ks: Seq<int>) -> bool
    decreases ks.len(),
{
    if ks.len() == 0 {
        true
    } else {
        &&& 0 <= ks[0]
        &&& ks[0] + 1 < names.len()
        &&& names_differ(names[ks[0]], names[ks[0] + 1])
        &&& swaps_ok(swap_next(names, ks[0]), ks.drop_first())
    }
}

/// `names` after the swaps in `ks`, made in turn.
pub open spec fn swapped_by(names: Seq<Option<Seq<char>>>, ks: Seq<int>) -> Seq<Option<Seq<char>>>
    decreases ks.len(),
{
    if ks.len() == 0 {
        names
    } else {
        swapped_by(swap_next(names, ks[0]), ks.drop_first())
    }
}

/// Whether two scans are the same but for where their files lie and for
/// the order of their single-file archives, which the second has from the
/// first by swaps of neighbours whose names differ in ASCII lower case.
pub open spec fn scans_reordered(d1: Discovery, d2: Discovery) -> bool {
    &&& d1.std_only == d2.std_only
    &&& opt_view(d1.selected) == opt_view(d2.selected)
    &&& sets_similar(d1.sets@, d2.sets@)
    &&& exists|ks: Seq<int>|
        swaps_ok(single_names(d1.singles@), ks) && #[trigger] swapped_by(single_names(d1.singles@), ks)
            == single_names(d2.singles@)
}

proof fn lemma_swaps_push(names: Seq<Option<Seq<char>>>, ks: Seq<int>, x: Option<Seq<char>>)
    requires
        swaps_ok(names, ks),
    ensures
        swaps_ok(names.push(x), ks),
        swapped_by(names.push(x), ks) == swapped_by(names, ks).push(x),
    decreases ks.len(),
{
    if ks.len() > 0 {
        let i = ks[0];
        assert(swap_next(names.push(x), i) =~= swap_next(names, i).push(x));
        assert(names.push(x)[i] == names[i] && names.push(x)[i + 1] == names[i + 1]);
        lemma_swaps_push(swap_next(names, i), ks.drop_first(), x);
    }
}

proof fn lemma_swaps_concat(names: Seq<Option<Seq<char>>>, ks1: Seq<int>, ks2: Seq<int>)
    requires
        swaps_ok(names, ks1),
        swaps_ok(swapped_by(names, ks1), ks2),
    ensures
        swaps_ok(names, ks1 + ks2),
        swapped_by(names, ks1 + ks2) == swapped_by(swapped_by(names, ks1), ks2),
    decreases ks1.len(),
{
    if ks1.len() == 0 {
        assert(ks1 + ks2 =~= ks2);
    } else {
        lemma_swaps_concat(swap_next(names, ks1[0]), ks1.drop_first(), ks2);
        assert((ks1 + ks2).drop_first() =~= ks1.drop_first() + ks2);
        assert((ks1 + ks2)[0] == ks1[0]);
    }
}

/// Whether every name is there.
pub open spec fn all_some(names: Seq<Option<Seq<char>>>) -> bool {
    forall|j: int| 0 <= j < names.len() ==> (#[trigger] names[j]) is Some
}

proof fn lemma_swaps_all_some(names: Seq<Option<Seq<char>>>, ks: Seq<int>)
    requires
        swaps_ok(names, ks),
    ensures
        all_some(names) <==> all_some(swapped_by(names, ks)),
    decreases ks.len(),
{
    if ks.len() > 0 {
        let i = ks[0];
        let sw = swap_next(names, i);
        assert(all_some(names) <==> all_some(sw)) by {
            if all_some(names) {
                assert forall|j: int| 0 <= j < sw.len() implies (#[trigger] sw[j]) is Some by {
                    if j == i {
                        assert(sw[j] == names[i + 1]);
                    } else if j == i + 1 {
                        assert(sw[j] == names[i]);
                    } else {
                        assert(sw[j] == names[j]);
                    }
                }
            }
            if all_some(sw) {
                assert forall|j: int| 0 <= j < names.len() implies (#[trigger] names[j]) is Some by {
                    if j == i {
                        assert(sw[i + 1] == names[j]);
                    } else if j == i + 1 {
                        assert(sw[i] == names[j]);
                    } else {
                        assert(sw[j] == names[j]);
                    }
                }
            }
        }
        lemma_swaps_all_some(sw, ks.drop_first());
    }
}

/// The name and volume count of the archive a single file with the name
/// `n` makes.
pub open spec fn name_shape() -> spec_fn(Option<Seq<char>>) -> (Seq<char>, int) {
    |n: Option<Seq<char>>| (n->Some_0, 1int)
}

proof fn lemma_sort_swaps(pre: Seq<(Seq<char>, int)>, names: Seq<Option<Seq<char>>>, ks: Seq<int>)
    requires
        swaps_ok(names, ks),
        all_some(names),
    ensures
        sort_by_key(pre + names.map_values(name_shape()), shape_key()) == sort_by_key(
            pre + swapped_by(names, ks).map_values(name_shape()),
            shape_key(),
        ),
    decreases ks.len(),
{
    if ks.len() > 0 {
        let i = ks[0];
        let sw = swap_next(names, i);
        let x = pre + names.map_values(name_shape());
        let k = pre.len() + i;
        assert(pre + sw.map_values(name_shape()) =~= swap_next(x, k));
        assert(x[k] == name_shape()(names[i]) && x[k + 1] == name_shape()(names[i + 1]));
        assert(names[i] is Some && names[i + 1] is Some);
        lemma_sort_swap(x, k, shape_key());
        assert(seq![i].drop_first() =~= Seq::<int>::empty());
        assert(swaps_ok(sw, Seq::<int>::empty()));
        assert(swapped_by(sw, Seq::<int>::empty()) == sw);
        lemma_swaps_all_some(names, seq![i]);
        lemma_sort_swaps(pre, sw, ks.drop_first());
    }
}

proof fn lemma_all_named_some(s: Seq<Single>)
    ensures
        all_named(s) <==> all_some(single_names(s)),
        shapes(s.map_values(single_view())) == single_names(s).map_values(name_shape()),
{
    let n = single_names(s);
    if all_named(s) {
        assert forall|j: int| 0 <= j < n.len() implies (#[trigger] n[j]) is Some by {
            assert(opt_view(s[j].name) is Some);
        }
    }
    if all_some(n) {
        assert forall|j: int| 0 <= j < s.len() implies opt_view((#[trigger] s[j]).name) is Some by {
            assert(n[j] is Some);
        }
    }
    assert(shapes(s.map_values(single_view())) =~= n.map_values(name_shape()));
}

proof fn lemma_sets_similar_trans(a: Seq<VolumeSet>, b: Seq<VolumeSet>, c: Seq<VolumeSet>)
    requires
        sets_similar(a, b),
        sets_similar(b, c),
    ensures
        sets_similar(a, c),
{
    assert forall|i: int| 0 <= i < a.len() implies (#[trigger] a[i]).key@ == c[i].key@ && parts_similar(
        a[i].parts@,
        c[i].parts@,
    ) by {
        assert(parts_similar(a[i].parts@, b[i].parts@) && parts_similar(b[i].parts@, c[i].parts@));
        assert forall|j: int| 0 <= j < a[i].parts@.len() implies (#[trigger] a[i].parts@[j]).number
            == c[i].parts@[j].number && a[i].parts@[j].stem@ == c[i].parts@[j].stem@
            && a[i].parts@[j].count == c[i].parts@[j].count by {
            assert(b[i].parts@[j].number == c[i].parts@[j].number);
        }
    }
}

/// Scans that are the same but for where their files lie are reordered
/// versions of each other, with no swap.
pub proof fn lemma_similar_reordered(d1: Discovery, d2: Discovery)
    requires
        scans_similar(d1, d2),
    ensures
        scans_reordered(d1, d2),
{
    let ks = Seq::<int>::empty();
    assert(single_names(d1.singles@) =~= single_names(d2.singles@));
    assert(swaps_ok(single_names(d1.singles@), ks));
    assert(swapped_by(single_names(d1.singles@), ks) == single_names(d2.singles@));
}

/// Reordering one scan into a second, and the second into a third,
/// reorders the first into the third.
pub proof fn lemma_reordered_trans(d1: Discovery, d2: Discovery, d3: Discovery)
    requires
        scans_reordered(d1, d2),
        scans_reordered(d2, d3),
    ensures
        scans_reordered(d1, d3),
{
    let n1 = single_names(d1.singles@);
    let n2 = single_names(d2.singles@);
    let ks1 = choose|ks: Seq<int>| swaps_ok(n1, ks) && #[trigger] swapped_by(n1, ks) == n2;
    let ks2 = choose|ks: Seq<int>| swaps_ok(n2, ks) && #[trigger] swapped_by(n2, ks) == single_names(d3.singles@);
    lemma_swaps_concat(n1, ks1, ks2);
    assert(swapped_by(n1, ks1 + ks2) == single_names(d3.singles@));
    lemma_sets_similar_trans(d1.sets@, d2.sets@, d3.sets@);
}

/// Two reordered scans stay so while they take in the same files: they
/// refuse a file alike, and taking it in keeps them reordered.
pub proof fn lemma_add_reordered(
    d1: Discovery,
    d2: Discovery,
    e1: Discovery,
    e2: Discovery,
    f1: FileName,
    f2: FileName,
    number: u8,
    count: u8,
)
    requires
        scans_reordered(d1, d2),
        same_names(f1, f2),
    ensures
        admission(d1.sets@, f1, number, count) is Refused <==> admission(d2.sets@, f2, number, count) is Refused,
        admitted(d1, e1, f1, number, count) && admitted(d2, e2, f2, number, count) ==> scans_reordered(
            e1,
            e2,
        ),
{
    lemma_admission_similar(d1.sets@, d2.sets@, e1.sets@, e2.sets@, f1, f2, number, count);
    if admitted(d1, e1, f1, number, count) && admitted(d2, e2, f2, number, count) {
        let n1 = single_names(d1.singles@);
        let ks = choose|ks: Seq<int>| swaps_ok(n1, ks) && #[trigger] swapped_by(n1, ks) == single_names(d2.singles@);
        if admission(d1.sets@, f1, number, count) is Single {
            assert(single_names(e1.singles@) =~= n1.push(opt_view(f1.name)));
            assert(single_names(e2.singles@) =~= single_names(d2.singles@).push(opt_view(f2.name)));
            lemma_swaps_push(n1, ks, opt_view(f1.name));
            assert(swapped_by(single_names(e1.singles@), ks) == single_names(e2.singles@));
        } else {
            assert(e1.singles == d1.singles && e2.singles == d2.singles);
            assert(swapped_by(single_names(e1.singles@), ks) == single_names(e2.singles@));
        }
    }
}

proof fn lemma_volume_name_same(f1: FileName, f2: FileName)
    requires
        same_names(f1, f2),
        volume_name(f1) is Ok,
    ensures
        volume_name(f2) == volume_name(f1),
{
    match volume_name(f1) {
        Ok(Some((stem, n))) => {
            assert(volume_name(f2) == Ok::<Option<(Seq<char>, int)>, Error>(Some((stem, n))));
        },
        Ok(None) => {
            assert(volume_name(f2) == Ok::<Option<(Seq<char>, int)>, Error>(None));
        },
        Err(_) => {},
    }
}

/// What taking in an accepted file does to the volumes a scan holds, by
/// key, number, base name and count.
proof fn lemma_admitted_shape(d: Discovery, e: Discovery, f: FileName, number: u8, count: u8)
    requires
        admitted(d, e, f, number, count),
    ensures
        volume_name(f) is Ok,
        volume_name(f) matches Ok(None) ==> e.sets@ == d.sets@ && e.singles@ == d.singles@.push(
            Single { path: f.path, name: f.name },
        ),
        volume_name(f) matches Ok(Some((stem, n))) ==> {
            &&& e.singles@ == d.singles@
            &&& forall|k: Seq<char>| has_key(e.sets@, k) <==> (has_key(d.sets@, k) || k == ascii_lowercase(stem))
            &&& forall|k: Seq<char>, m: int, st: Seq<char>, c: u8|
                holds_shape(e.sets@, k, m, st, c) <==> (holds_shape(d.sets@, k, m, st, c) || (k
                    == ascii_lowercase(stem) && m == n && st == stem && c == count))
        },
{
    if let Ok(Some((stem, n))) = volume_name(f) {
        assert(admission(d.sets@, f, number, count) == Admission::Numbered(stem, n));
        lemma_part_added_shape(d.sets@, e.sets@, stem, n, f.path, count);
    }
}

/// Whether two files, found one after the other, may be found in the other
/// order: not both are single-file archives, or their names differ in
/// ASCII lower case.
pub open spec fn may_swap(f: FileName, g: FileName) -> bool {
    ||| volume_name(f) matches Ok(Some(_))
    ||| volume_name(g) matches Ok(Some(_))
    ||| names_differ(opt_view(f.name), opt_view(g.name))
}

/// Two reordered scans that take in two files, one in each order, are
/// reordered versions of each other afterwards, where the files may be
/// found in either order.
pub proof fn lemma_commute_reordered(
    d1: Discovery,
    d2: Discovery,
    e1: Discovery,
    e12: Discovery,
    e2: Discovery,
    e21: Discovery,
    f1: FileName,
    g1: FileName,
    f2: FileName,
    g2: FileName,
    f_number: u8,
    f_count: u8,
    g_number: u8,
    g_count: u8,
)
    requires
        scans_reordered(d1, d2),
        same_names(f1, f2),
        same_names(g1, g2),
        may_swap(f1, g1),
        admitted(d1, e1, f1, f_number, f_count),
        admitted(e1, e12, g1, g_number, g_count),
        admitted(d2, e2, g2, g_number, g_count),
        admitted(e2, e21, f2, f_number, f_count),
    ensures
        scans_reordered(e12, e21),
{
    let n1 = single_names(d1.singles@);
    let n2 = single_names(d2.singles@);
    let ks = choose|ks: Seq<int>| swaps_ok(n1, ks) && #[trigger] swapped_by(n1, ks) == n2;
    lemma_similar_shapes(d1.sets@, d2.sets@);
    lemma_admitted_shape(d1, e1, f1, f_number, f_count);
    lemma_admitted_shape(e1, e12, g1, g_number, g_count);
    lemma_admitted_shape(d2, e2, g2, g_number, g_count);
    lemma_admitted_shape(e2, e21, f2, f_number, f_count);
    lemma_volume_name_same(f1, f2);
    lemma_volume_name_same(g1, g2);
    lemma_sets_unique_shape(e12.sets@, e21.sets@);
    let nf = opt_view(f1.name);
    let ng = opt_view(g1.name);
    let m12 = single_names(e12.singles@);
    let m21 = single_names(e21.singles@);
    let f_single = volume_name(f1) is Ok && volume_name(f1)->Ok_0 is None;
    let g_single = volume_name(g1) is Ok && volume_name(g1)->Ok_0 is None;
    if f_single && g_single {
        assert(m12 =~= n1.push(nf).push(ng));
        assert(m21 =~= n2.push(ng).push(nf));
        lemma_swaps_push(n1, ks, nf);
        lemma_swaps_push(n1.push(nf), ks, ng);
        let l = n2.len() as int;
        let mid = n2.push(nf).push(ng);
        let one = seq![l];
        assert(one.drop_first() =~= Seq::<int>::empty());
        assert(mid[l] == nf && mid[l + 1] == ng);
        assert(swaps_ok(swap_next(mid, l), Seq::<int>::empty()));
        assert(swapped_by(swap_next(mid, l), Seq::<int>::empty()) == swap_next(mid, l));
        assert(swaps_ok(mid, one));
        assert(swap_next(mid, l) =~= m21);
        assert(swapped_by(mid, one) == m21);
        lemma_swaps_concat(m12, ks, one);
        assert(swapped_by(m12, ks + one) == m21);
    } else if f_single {
        assert(m12 =~= n1.push(nf));
        assert(m21 =~= n2.push(nf));
        lemma_swaps_push(n1, ks, nf);
        assert(swapped_by(m12, ks) == m21);
    } else if g_single {
        assert(m12 =~= n1.push(ng));
        assert(m21 =~= n2.push(ng));
        lemma_swaps_push(n1, ks, ng);
        assert(swapped_by(m12, ks) == m21);
    } else {
        assert(m12 == n1 && m21 == n2);
        assert(swapped_by(m12, ks) == m21);
    }
}

/// Reordered scans are refused alike or yield groups of the same names
/// with the same numbers of volumes, in the same order.
pub proof fn lemma_finish_reordered(d1: Discovery, d2: Discovery)
    requires
        d1.wf(),
        d2.wf(),
        scans_reordered(d1, d2),
    ensures
        discovered(d1) is Err ==> discovered(d2) == discovered(d1),
        discovered(d1) matches Ok(g1) ==> discovered(d2) matches Ok(g2) && shapes(g1) == shapes(g2),
{
    let a = d1.singles@;
    let b = d2.singles@;
    let na = single_names(a);
    let nb = single_names(b);
    let ks = choose|ks: Seq<int>| swaps_ok(na, ks) && #[trigger] swapped_by(na, ks) == nb;
    lemma_sets_groups_similar(d1.sets@, d2.sets@);
    lemma_singles_groups_all(a);
    lemma_singles_groups_all(b);
    lemma_swaps_all_some(na, ks);
    lemma_all_named_some(a);
    lemma_all_named_some(b);
    if all_named(a) {
        if let Ok(a1) = sets_groups(d1.sets@) {
            let a2 = sets_groups(d2.sets@)->Ok_0;
            let b1 = a.map_values(single_view());
            let b2 = b.map_values(single_view());
            let x1 = a1 + b1;
            let x2 = a2 + b2;
            assert(shapes(x1) =~= shapes(a1) + shapes(b1));
            assert(shapes(x2) =~= shapes(a2) + shapes(b2));
            lemma_sort_swaps(shapes(a1), na, ks);
            assert(x1.len() == shapes(x1).len() && x2.len() == shapes(x2).len());
            assert forall|g: GroupView| #[trigger] shape_key()(group_shape()(g)) == group_key()(g) by {}
            lemma_sort_map(x1, group_shape(), group_key(), shape_key());
            lemma_sort_map(x2, group_shape(), group_key(), shape_key());
            let y1 = sort_by_key(x1, group_key());
            let y2 = sort_by_key(x2, group_key());
            assert(shapes(y1) == shapes(y2));
            assert(y1.len() == y2.len()) by {
                assert(shapes(y1).len() == y1.len() && shapes(y2).len() == y2.len());
            }
            assert forall|j: int| 0 <= j < y1.len() implies (#[trigger] y1[j]).name == y2[j].name by {
                assert(shapes(y1)[j] == shapes(y2)[j]);
            }
            lemma_name_faults_same(y1, y2, 0);
        }
    }
}

/// Whether the scan went from `states[k]` to `states[k + 1]` by taking in
/// the file `files[k]`, with the volume number and count of its header.
pub open spec fn step_admitted(states: Seq<Discovery>, files: Seq<(FileName, u8, u8)>, k: int) -> bool {
    admitted(states[k], states[k + 1], files[k].0, files[k].1, files[k].2)
}

/// Whether `states` are the states of a scan that took in `files` in turn,
/// each of them accepted.
pub open spec fn scan_run(states: Seq<Discovery>, files: Seq<(FileName, u8, u8)>) -> bool {
    &&& states.len() == files.len() + 1
    &&& forall|k: int| 0 <= k < files.len() ==> #[trigger] step_admitted(states, files, k)
}

/// Whether the files `a[k]` and `b[k]` have the same names and headers,
/// wherever they lie.
pub open spec fn file_alike(a: Seq<(FileName, u8, u8)>, b: Seq<(FileName, u8, u8)>, k: int) -> bool {
    same_names(a[k].0, b[k].0) && a[k].1 == b[k].1 && a[k].2 == b[k].2
}

/// Whether two lists of files have the same names and headers, place by
/// place, wherever the files lie.
pub open spec fn files_alike(a: Seq<(FileName, u8, u8)>, b: Seq<(FileName, u8, u8)>) -> bool {
    &&& a.len() == b.len()
    &&& forall|k: int| 0 <= k < a.len() ==> #[trigger] file_alike(a, b, k)
}

proof fn lemma_run_from(
    s1: Seq<Discovery>,
    s2: Seq<Discovery>,
    fa: Seq<(FileName, u8, u8)>,
    fb: Seq<(FileName, u8, u8)>,
    from: int,
    k: int,
)
    requires
        scan_run(s1, fa),
        scan_run(s2, fb),
        fa.len() == fb.len(),
        0 <= from <= k <= fa.len(),
        scans_reordered(s1[from], s2[from]),
        forall|j: int| from <= j < k ==> #[trigger] file_alike(fa, fb, j),
    ensures
        scans_reordered(s1[k], s2[k]),
    decreases k,
{
    if k > from {
        lemma_run_from(s1, s2, fa, fb, from, k - 1);
        let j = k - 1;
        assert(step_admitted(s1, fa, j) && step_admitted(s2, fb, j) && file_alike(fa, fb, j));
        lemma_add_reordered(s1[j], s2[j], s1[k], s2[k], fa[j].0, fb[j].0, fa[j].1, fa[j].2);
    }
}

proof fn lemma_run_end(s: Seq<Discovery>, files: Seq<(FileName, u8, u8)>)
    requires
        scan_run(s, files),
        files.len() > 0,
    ensures
        s.last().wf(),
{
    assert(step_admitted(s, files, files.len() - 1));
}

/// Where the files of a scan lie does not change what it yields: two scans
/// that start alike and take in files with the same names and headers, in
/// the same order, each accepted, are refused alike or yield groups of the
/// same names with the same numbers of volumes, in the same order.
pub proof fn lemma_run_moved(
    s1: Seq<Discovery>,
    s2: Seq<Discovery>,
    fa: Seq<(FileName, u8, u8)>,
    fb: Seq<(FileName, u8, u8)>,
)
    requires
        scan_run(s1, fa),
        scan_run(s2, fb),
        s1[0].wf(),
        s2[0].wf(),
        scans_similar(s1[0], s2[0]),
        files_alike(fa, fb),
    ensures
        scans_reordered(s1.last(), s2.last()),
        discovered(s1.last()) is Err ==> discovered(s2.last()) == discovered(s1.last()),
        discovered(s1.last()) matches Ok(g1) ==> discovered(s2.last()) matches Ok(g2) && shapes(g1)
            == shapes(g2),
{
    lemma_similar_reordered(s1[0], s2[0]);
    lemma_run_from(s1, s2, fa, fb, 0, fa.len() as int);
    if fa.len() > 0 {
        lemma_run_end(s1, fa);
        lemma_run_end(s2, fb);
    }
    lemma_finish_reordered(s1.last(), s2.last());
}

/// Nor does the order in which a scan finds its files: two scans that start
/// alike and take in the same files, wherever they lie, each accepted, in
/// orders that differ by two neighbours that may be found in either order,
/// are refused alike or yield groups of the same names with the same
/// numbers of volumes, in the same order. (Any reordering is a series of
/// such swaps; `lemma_reordered_trans` chains them.)
pub proof fn lemma_run_swapped(
    s1: Seq<Discovery>,
    s2: Seq<Discovery>,
    fa: Seq<(FileName, u8, u8)>,
    fb: Seq<(FileName, u8, u8)>,
    i: int,
)
    requires
        scan_run(s1, fa),
        scan_run(s2, fb),
        s1[0].wf(),
        s2[0].wf(),
        scans_reordered(s1[0], s2[0]),
        0 <= i,
        i + 1 < fa.len(),
        files_alike(swap_next(fa, i), fb),
        may_swap(fa[i].0, fa[i + 1].0),
    ensures
        scans_reordered(s1.last(), s2.last()),
        discovered(s1.last()) is Err ==> discovered(s2.last()) == discovered(s1.last()),
        discovered(s1.last()) matches Ok(g1) ==> discovered(s2.last()) matches Ok(g2) && shapes(g1)
            == shapes(g2),
{
    let sw = swap_next(fa, i);
    assert forall|j: int| 0 <= j < i implies #[trigger] file_alike(fa, fb, j) by {
        assert(file_alike(sw, fb, j));
        assert(sw[j] == fa[j]);
    }
    lemma_run_from(s1, s2, fa, fb, 0, i);
    assert(file_alike(sw, fb, i) && sw[i] == fa[i + 1]);
    assert(file_alike(sw, fb, i + 1) && sw[i + 1] == fa[i]);
    assert(step_admitted(s1, fa, i) && step_admitted(s1, fa, i + 1));
    assert(step_admitted(s2, fb, i) && step_admitted(s2, fb, i + 1));
    lemma_commute_reordered(
        s1[i],
        s2[i],
        s1[i + 1],
        s1[i + 2],
        s2[i + 1],
        s2[i + 2],
        fa[i].0,
        fa[i + 1].0,
        fb[i + 1].0,
        fb[i].0,
        fa[i].1,
        fa[i].2,
        fa[i + 1].1,
        fa[i + 1].2,
    );
    assert forall|j: int| i + 2 <= j < fa.len() implies #[trigger] file_alike(fa, fb, j) by {
        assert(file_alike(sw, fb, j));
        assert(sw[j] == fa[j]);
    }
    lemma_run_from(s1, s2, fa, fb, i + 2, fa.len() as int);
    lemma_run_end(s1, fa);
    lemma_run_end(s2, fb);
    lemma_finish_reordered(s1.last(), s2.last());
}

// ---------------------------------------------------------------------------
// The order in which numbered volumes are found does not matter

/// Whether `sets` has a set for the key `k`.
pub open spec fn has_key(sets: Seq<VolumeSet>, k: Seq<char>) -> bool {
    exists|i: int| 0 <= i < sets.len() && #[trigger] sets[i].key@ == k
}

/// Whether `sets` holds, under the key `k`, a volume numbered `m` with the
/// base name `st`, the count `c` and the path `pa`.
pub open spec fn holds_part(
    sets: Seq<VolumeSet>,
    k: Seq<char>,
    m: int,
    st: Seq<char>,
    c: u8,
    pa: PathBuf,
) -> bool {
    exists|i: int, j: int|
        #![trigger sets[i].parts@[j]]
        0 <= i < sets.len() && sets[i].key@ == k && 0 <= j < sets[i].parts@.len()
            && sets[i].parts@[j].number == m && sets[i].parts@[j].stem@ == st
            && sets[i].parts@[j].count == c && sets[i].parts@[j].path == pa
}

/// Whether two lists of volume sets are the same, paths included.
pub open spec fn sets_same(a: Seq<VolumeSet>, b: Seq<VolumeSet>) -> bool {
    &&& sets_similar(a, b)
    &&& forall|i: int, j: int|
        0 <= i < a.len() && 0 <= j < a[i].parts@.len() ==> (#[trigger] a[i].parts@[j]).path
            == b[i].parts@[j].path
}

/// Whether `sets` are in key order and each is well formed.
pub open spec fn sets_wf(sets: Seq<VolumeSet>) -> bool {
    &&& sets_ordered(sets)
    &&& forall|i: int| 0 <= i < sets.len() ==> set_wf(#[trigger] sets[i])
}

proof fn lemma_keys_unique(a: Seq<VolumeSet>, b: Seq<VolumeSet>)
    requires
        sets_ordered(a),
        sets_ordered(b),
        forall|k: Seq<char>| has_key(a, k) <==> has_key(b, k),
    ensures
        a.len() == b.len(),
        forall|i: int| 0 <= i < a.len() ==> (#[trigger] a[i]).key@ == b[i].key@,
    decreases a.len(),
{
    if a.len() == 0 {
        if b.len() > 0 {
            assert(has_key(b, b[0].key@));
        }
    } else {
        assert(has_key(a, a[0].key@));
        let j = choose|j: int| 0 <= j < b.len() && #[trigger] b[j].key@ == a[0].key@;
        assert(has_key(b, b[0].key@));
        let i = choose|i: int| 0 <= i < a.len() && #[trigger] a[i].key@ == b[0].key@;
        if j > 0 {
            assert(chars_lt(b[0].key@, b[j].key@));
            if i > 0 {
                assert(chars_lt(a[0].key@, a[i].key@));
                lemma_chars_lt_transitive(a[0].key@, a[i].key@, a[0].key@);
            }
        }
        assert(a[0].key@ == b[0].key@);
        let (ra, rb) = (a.drop_first(), b.drop_first());
        assert(sets_ordered(ra)) by {
            assert forall|x: int, y: int| 0 <= x < y < ra.len() implies chars_lt(
                #[trigger] ra[x].key@,
                #[trigger] ra[y].key@,
            ) by {
                assert(ra[x] == a[x + 1] && ra[y] == a[y + 1]);
            }
        }
        assert(sets_ordered(rb)) by {
            assert forall|x: int, y: int| 0 <= x < y < rb.len() implies chars_lt(
                #[trigger] rb[x].key@,
                #[trigger] rb[y].key@,
            ) by {
                assert(rb[x] == b[x + 1] && rb[y] == b[y + 1]);
            }
        }
        assert forall|k: Seq<char>| has_key(ra, k) <==> has_key(rb, k) by {
            if has_key(ra, k) {
                let x = choose|x: int| 0 <= x < ra.len() && #[trigger] ra[x].key@ == k;
                assert(a[x + 1].key@ == k);
                assert(chars_lt(a[0].key@, a[x + 1].key@));
                assert(has_key(a, k));
                let y = choose|y: int| 0 <= y < b.len() && #[trigger] b[y].key@ == k;
                assert(y != 0);
                assert(rb[y - 1].key@ == k);
            }
            if has_key(rb, k) {
                let x = choose|x: int| 0 <= x < rb.len() && #[trigger] rb[x].key@ == k;
                assert(b[x + 1].key@ == k);
                assert(chars_lt(b[0].key@, b[x + 1].key@));
                assert(has_key(b, k));
                let y = choose|y: int| 0 <= y < a.len() && #[trigger] a[y].key@ == k;
                assert(y != 0);
                assert(ra[y - 1].key@ == k);
            }
        }
        lemma_keys_unique(ra, rb);
        assert forall|i: int| 0 <= i < a.len() implies (#[trigger] a[i]).key@ == b[i].key@ by {
            if i > 0 {
                assert(ra[i - 1] == a[i] && rb[i - 1] == b[i]);
            }
        }
    }
}

/// Whether `parts` has a volume numbered `m`.
pub open spec fn has_number(parts: Seq<Part>, m: int) -> bool {
    exists|j: int| 0 <= j < parts.len() && #[trigger] parts[j].number == m
}

proof fn lemma_numbers_unique(a: Seq<Part>, b: Seq<Part>)
    requires
        parts_ordered(a),
        parts_ordered(b),
        forall|m: int| has_number(a, m) <==> has_number(b, m),
    ensures
        a.len() == b.len(),
        forall|j: int| 0 <= j < a.len() ==> (#[trigger] a[j]).number == b[j].number,
    decreases a.len(),
{
    if a.len() == 0 {
        if b.len() > 0 {
            assert(has_number(b, b[0].number as int));
        }
    } else {
        assert(has_number(a, a[0].number as int));
        let j = choose|j: int| 0 <= j < b.len() && #[trigger] b[j].number == a[0].number;
        assert(has_number(b, b[0].number as int));
        let i = choose|i: int| 0 <= i < a.len() && #[trigger] a[i].number == b[0].number;
        if j > 0 {
            assert(b[0].number < b[j].number);
            if i > 0 {
                assert(a[0].number < a[i].number);
            }
        }
        assert(a[0].number == b[0].number);
        let (ra, rb) = (a.drop_first(), b.drop_first());
        assert(parts_ordered(ra)) by {
            assert forall|x: int, y: int| 0 <= x < y < ra.len() implies #[trigger] ra[x].number
                < #[trigger] ra[y].number by {
                assert(ra[x] == a[x + 1] && ra[y] == a[y + 1]);
            }
        }
        assert(parts_ordered(rb)) by {
            assert forall|x: int, y: int| 0 <= x < y < rb.len() implies #[trigger] rb[x].number
                < #[trigger] rb[y].number by {
                assert(rb[x] == b[x + 1] && rb[y] == b[y + 1]);
            }
        }
        assert forall|m: int| has_number(ra, m) <==> has_number(rb, m) by {
            if has_number(ra, m) {
                let x = choose|x: int| 0 <= x < ra.len() && #[trigger] ra[x].number == m;
                assert(a[x + 1].number == m);
                assert(a[0].number < a[x + 1].number);
                assert(has_number(a, m));
                let y = choose|y: int| 0 <= y < b.len() && #[trigger] b[y].number == m;
                assert(y != 0);
                assert(rb[y - 1].number == m);
            }
            if has_number(rb, m) {
                let x = choose|x: int| 0 <= x < rb.len() && #[trigger] rb[x].number == m;
                assert(b[x + 1].number == m);
                assert(b[0].number < b[x + 1].number);
                assert(has_number(b, m));
                let y = choose|y: int| 0 <= y < a.len() && #[trigger] a[y].number == m;
                assert(y != 0);
                assert(ra[y - 1].number == m);
            }
        }
        lemma_numbers_unique(ra, rb);
        assert forall|j: int| 0 <= j < a.len() implies (#[trigger] a[j]).number == b[j].number by {
            if j > 0 {
                assert(ra[j - 1] == a[j] && rb[j - 1] == b[j]);
            }
        }
    }
}

/// Two well-formed lists of volume sets that hold the same volumes, by key,
/// number, base name, count and path, are the same.
proof fn lemma_sets_unique(a: Seq<VolumeSet>, b: Seq<VolumeSet>)
    requires
        sets_wf(a),
        sets_wf(b),
        forall|k: Seq<char>| has_key(a, k) <==> has_key(b, k),
        forall|k: Seq<char>, m: int, st: Seq<char>, c: u8, pa: PathBuf|
            holds_part(a, k, m, st, c, pa) <==> holds_part(b, k, m, st, c, pa),
    ensures
        sets_same(a, b),
{
    lemma_keys_unique(a, b);
    assert forall|i: int| 0 <= i < a.len() implies (#[trigger] a[i]).key@ == b[i].key@ && parts_similar(
        a[i].parts@,
        b[i].parts@,
    ) && forall|j: int| 0 <= j < a[i].parts@.len() ==> (#[trigger] a[i].parts@[j]).path
        == b[i].parts@[j].path by {
        let key = a[i].key@;
        let pa = a[i].parts@;
        let pb = b[i].parts@;
        assert(set_wf(a[i]) && set_wf(b[i]));
        assert forall|i2: int| 0 <= i2 < a.len() && i2 != i implies #[trigger] a[i2].key@ != key by {
            if i2 < i {
                assert(chars_lt(a[i2].key@, a[i].key@));
            } else {
                assert(chars_lt(a[i].key@, a[i2].key@));
            }
        }
        assert forall|i2: int| 0 <= i2 < b.len() && i2 != i implies #[trigger] b[i2].key@ != key by {
            if i2 < i {
                assert(chars_lt(b[i2].key@, b[i].key@));
            } else {
                assert(chars_lt(b[i].key@, b[i2].key@));
            }
        }
        assert forall|m: int| has_number(pa, m) <==> has_number(pb, m) by {
            if has_number(pa, m) {
                let j = choose|j: int| 0 <= j < pa.len() && #[trigger] pa[j].number == m;
                assert(holds_part(a, key, m, pa[j].stem@, pa[j].count, pa[j].path));
                assert(holds_part(b, key, m, pa[j].stem@, pa[j].count, pa[j].path));
                let (i2, j2) = choose|i2: int, j2: int|
                    #![trigger b[i2].parts@[j2]]
                    0 <= i2 < b.len() && b[i2].key@ == key && 0 <= j2 < b[i2].parts@.len()
                        && b[i2].parts@[j2].number == m && b[i2].parts@[j2].stem@ == pa[j].stem@
                        && b[i2].parts@[j2].count == pa[j].count && b[i2].parts@[j2].path == pa[j].path;
                assert(i2 == i);
                assert(pb[j2].number == m);
            }
            if has_number(pb, m) {
                let j = choose|j: int| 0 <= j < pb.len() && #[trigger] pb[j].number == m;
                assert(holds_part(b, key, m, pb[j].stem@, pb[j].count, pb[j].path));
                assert(holds_part(a, key, m, pb[j].stem@, pb[j].count, pb[j].path));
                let (i2, j2) = choose|i2: int, j2: int|
                    #![trigger a[i2].parts@[j2]]
                    0 <= i2 < a.len() && a[i2].key@ == key && 0 <= j2 < a[i2].parts@.len()
                        && a[i2].parts@[j2].number == m && a[i2].parts@[j2].stem@ == pb[j].stem@
                        && a[i2].parts@[j2].count == pb[j].count && a[i2].parts@[j2].path == pb[j].path;
                assert(i2 == i);
                assert(pa[j2].number == m);
            }
        }
        lemma_numbers_unique(pa, pb);
        assert forall|j: int| 0 <= j < pa.len() implies (#[trigger] pa[j]).number == pb[j].number
            && pa[j].stem@ == pb[j].stem@ && pa[j].count == pb[j].count && pa[j].path == pb[j].path by {
            let m = pa[j].number as int;
            assert(holds_part(a, key, m, pa[j].stem@, pa[j].count, pa[j].path));
            assert(holds_part(b, key, m, pa[j].stem@, pa[j].count, pa[j].path));
            let (i2, j2) = choose|i2: int, j2: int|
                #![trigger b[i2].parts@[j2]]
                0 <= i2 < b.len() && b[i2].key@ == key && 0 <= j2 < b[i2].parts@.len()
                    && b[i2].parts@[j2].number == m && b[i2].parts@[j2].stem@ == pa[j].stem@
                    && b[i2].parts@[j2].count == pa[j].count && b[i2].parts@[j2].path == pa[j].path;
            assert(i2 == i);
            if j2 != j {
                if j2 < j {
                    assert(pb[j2].number < pb[j].number);
                } else {
                    assert(pb[j].number < pb[j2].number);
                }
            }
        }
    }
    assert forall|i: int, j: int| 0 <= i < a.len() && 0 <= j < a[i].parts@.len() implies (
    #[trigger] a[i].parts@[j]).path == b[i].parts@[j].path by {
        assert(a[i].key@ == b[i].key@);
    }
}

/// Whether `sets` holds, under the key `k`, a volume numbered `m` with the
/// base name `st` and the count `c`, wherever it lies.
pub open spec fn holds_shape(sets: Seq<VolumeSet>, k: Seq<char>, m: int, st: Seq<char>, c: u8) -> bool {
    exists|i: int, j: int|
        #![trigger sets[i].parts@[j]]
        0 <= i < sets.len() && sets[i].key@ == k && 0 <= j < sets[i].parts@.len()
            && sets[i].parts@[j].number == m && sets[i].parts@[j].stem@ == st
            && sets[i].parts@[j].count == c
}

proof fn lemma_similar_shapes(a: Seq<VolumeSet>, b: Seq<VolumeSet>)
    requires
        sets_similar(a, b),
    ensures
        forall|k: Seq<char>| has_key(a, k) <==> has_key(b, k),
        forall|k: Seq<char>, m: int, st: Seq<char>, c: u8|
            holds_shape(a, k, m, st, c) <==> holds_shape(b, k, m, st, c),
{
    assert forall|k: Seq<char>| has_key(a, k) <==> has_key(b, k) by {
        if has_key(a, k) {
            let i = choose|i: int| 0 <= i < a.len() && #[trigger] a[i].key@ == k;
            assert(b[i].key@ == k);
        }
        if has_key(b, k) {
            let i = choose|i: int| 0 <= i < b.len() && #[trigger] b[i].key@ == k;
            assert(a[i].key@ == k);
        }
    }
    assert forall|k: Seq<char>, m: int, st: Seq<char>, c: u8|
        holds_shape(a, k, m, st, c) <==> holds_shape(b, k, m, st, c) by {
        if holds_shape(a, k, m, st, c) {
            let (i, j) = choose|i: int, j: int|
                #![trigger a[i].parts@[j]]
                0 <= i < a.len() && a[i].key@ == k && 0 <= j < a[i].parts@.len() && a[i].parts@[j].number == m
                    && a[i].parts@[j].stem@ == st && a[i].parts@[j].count == c;
            assert(parts_similar(a[i].parts@, b[i].parts@));
            assert(b[i].parts@[j].number == m);
        }
        if holds_shape(b, k, m, st, c) {
            let (i, j) = choose|i: int, j: int|
                #![trigger b[i].parts@[j]]
                0 <= i < b.len() && b[i].key@ == k && 0 <= j < b[i].parts@.len() && b[i].parts@[j].number == m
                    && b[i].parts@[j].stem@ == st && b[i].parts@[j].count == c;
            assert(parts_similar(a[i].parts@, b[i].parts@));
            assert(a[i].parts@[j].number == m);
        }
    }
}

proof fn lemma_part_added_shape(
    before: Seq<VolumeSet>,
    after: Seq<VolumeSet>,
    stem: Seq<char>,
    n: int,
    path: PathBuf,
    count: u8,
)
    requires
        part_added(before, after, stem, n, path, count),
    ensures
        forall|k: Seq<char>| has_key(after, k) <==> (has_key(before, k) || k == ascii_lowercase(stem)),
        forall|k: Seq<char>, m: int, st: Seq<char>, c: u8|
            holds_shape(after, k, m, st, c) <==> (holds_shape(before, k, m, st, c) || (k
                == ascii_lowercase(stem) && m == n && st == stem && c == count)),
{
    lemma_part_added_content(before, after, stem, n, path, count);
    assert forall|k: Seq<char>, m: int, st: Seq<char>, c: u8|
        holds_shape(after, k, m, st, c) <==> (holds_shape(before, k, m, st, c) || (k
            == ascii_lowercase(stem) && m == n && st == stem && c == count)) by {
        if holds_shape(after, k, m, st, c) {
            let (i, j) = choose|i: int, j: int|
                #![trigger after[i].parts@[j]]
                0 <= i < after.len() && after[i].key@ == k && 0 <= j < after[i].parts@.len()
                    && after[i].parts@[j].number == m && after[i].parts@[j].stem@ == st
                    && after[i].parts@[j].count == c;
            let pa = after[i].parts@[j].path;
            assert(holds_part(after, k, m, st, c, pa));
            if holds_part(before, k, m, st, c, pa) {
                let (i2, j2) = choose|i2: int, j2: int|
                    #![trigger before[i2].parts@[j2]]
                    0 <= i2 < before.len() && before[i2].key@ == k && 0 <= j2 < before[i2].parts@.len()
                        && before[i2].parts@[j2].number == m && before[i2].parts@[j2].stem@ == st
                        && before[i2].parts@[j2].count == c && before[i2].parts@[j2].path == pa;
                assert(before[i2].parts@[j2].number == m);
            }
        }
        if holds_shape(before, k, m, st, c) {
            let (i, j) = choose|i: int, j: int|
                #![trigger before[i].parts@[j]]
                0 <= i < before.len() && before[i].key@ == k && 0 <= j < before[i].parts@.len()
                    && before[i].parts@[j].number == m && before[i].parts@[j].stem@ == st
                    && before[i].parts@[j].count == c;
            let pa = before[i].parts@[j].path;
            assert(holds_part(before, k, m, st, c, pa));
            assert(holds_part(after, k, m, st, c, pa));
            let (i2, j2) = choose|i2: int, j2: int|
                #![trigger after[i2].parts@[j2]]
                0 <= i2 < after.len() && after[i2].key@ == k && 0 <= j2 < after[i2].parts@.len()
                    && after[i2].parts@[j2].number == m && after[i2].parts@[j2].stem@ == st
                    && after[i2].parts@[j2].count == c && after[i2].parts@[j2].path == pa;
            assert(after[i2].parts@[j2].number == m);
        }
        if k == ascii_lowercase(stem) && m == n && st == stem && c == count {
            assert(holds_part(after, k, m, st, c, path));
            let (i2, j2) = choose|i2: int, j2: int|
                #![trigger after[i2].parts@[j2]]
                0 <= i2 < after.len() && after[i2].key@ == k && 0 <= j2 < after[i2].parts@.len()
                    && after[i2].parts@[j2].number == m && after[i2].parts@[j2].stem@ == st
                    && after[i2].parts@[j2].count == c && after[i2].parts@[j2].path == path;
            assert(after[i2].parts@[j2].number == m);
        }
    }
}

/// Two well-formed lists of volume sets that hold the same volumes, by key,
/// number, base name and count, are the same but for the volumes' paths.
proof fn lemma_sets_unique_shape(a: Seq<VolumeSet>, b: Seq<VolumeSet>)
    requires
        sets_wf(a),
        sets_wf(b),
        forall|k: Seq<char>| has_key(a, k) <==> has_key(b, k),
        forall|k: Seq<char>, m: int, st: Seq<char>, c: u8|
            holds_shape(a, k, m, st, c) <==> holds_shape(b, k, m, st, c),
    ensures
        sets_similar(a, b),
{
    lemma_keys_unique(a, b);
    assert forall|i: int| 0 <= i < a.len() implies (#[trigger] a[i]).key@ == b[i].key@ && parts_similar(
        a[i].parts@,
        b[i].parts@,
    ) by {
        let key = a[i].key@;
        let pa = a[i].parts@;
        let pb = b[i].parts@;
        assert(set_wf(a[i]) && set_wf(b[i]));
        assert forall|i2: int| 0 <= i2 < a.len() && i2 != i implies #[trigger] a[i2].key@ != key by {
            if i2 < i {
                assert(chars_lt(a[i2].key@, a[i].key@));
            } else {
                assert(chars_lt(a[i].key@, a[i2].key@));
            }
        }
        assert forall|i2: int| 0 <= i2 < b.len() && i2 != i implies #[trigger] b[i2].key@ != key by {
            if i2 < i {
                assert(chars_lt(b[i2].key@, b[i].key@));
            } else {
                assert(chars_lt(b[i].key@, b[i2].key@));
            }
        }
        assert forall|m: int| has_number(pa, m) <==> has_number(pb, m) by {
            if has_number(pa, m) {
                let j = choose|j: int| 0 <= j < pa.len() && #[trigger] pa[j].number == m;
                assert(holds_shape(a, key, m, pa[j].stem@, pa[j].count));
                assert(holds_shape(b, key, m, pa[j].stem@, pa[j].count));
                let (i2, j2) = choose|i2: int, j2: int|
                    #![trigger b[i2].parts@[j2]]
                    0 <= i2 < b.len() && b[i2].key@ == key && 0 <= j2 < b[i2].parts@.len()
                        && b[i2].parts@[j2].number == m && b[i2].parts@[j2].stem@ == pa[j].stem@
                        && b[i2].parts@[j2].count == pa[j].count;
                assert(i2 == i);
                assert(pb[j2].number == m);
            }
            if has_number(pb, m) {
                let j = choose|j: int| 0 <= j < pb.len() && #[trigger] pb[j].number == m;
                assert(holds_shape(b, key, m, pb[j].stem@, pb[j].count));
                assert(holds_shape(a, key, m, pb[j].stem@, pb[j].count));
                let (i2, j2) = choose|i2: int, j2: int|
                    #![trigger a[i2].parts@[j2]]
                    0 <= i2 < a.len() && a[i2].key@ == key && 0 <= j2 < a[i2].parts@.len()
                        && a[i2].parts@[j2].number == m && a[i2].parts@[j2].stem@ == pb[j].stem@
                        && a[i2].parts@[j2].count == pb[j].count;
                assert(i2 == i);
                assert(pa[j2].number == m);
            }
        }
        lemma_numbers_unique(pa, pb);
        assert forall|j: int| 0 <= j < pa.len() implies (#[trigger] pa[j]).number == pb[j].number
            && pa[j].stem@ == pb[j].stem@ && pa[j].count == pb[j].count by {
            let m = pa[j].number as int;
            assert(holds_shape(a, key, m, pa[j].stem@, pa[j].count));
            assert(holds_shape(b, key, m, pa[j].stem@, pa[j].count));
            let (i2, j2) = choose|i2: int, j2: int|
                #![trigger b[i2].parts@[j2]]
                0 <= i2 < b.len() && b[i2].key@ == key && 0 <= j2 < b[i2].parts@.len()
                    && b[i2].parts@[j2].number == m && b[i2].parts@[j2].stem@ == pa[j].stem@
                    && b[i2].parts@[j2].count == pa[j].count;
            assert(i2 == i);
            if j2 != j {
                if j2 < j {
                    assert(pb[j2].number < pb[j].number);
                } else {
                    assert(pb[j].number < pb[j2].number);
                }
            }
        }
    }
}

/// What a scan holds after taking in a numbered volume: what it held, and
/// the new volume under its key.
proof fn lemma_part_added_content(
    before: Seq<VolumeSet>,
    after: Seq<VolumeSet>,
    stem: Seq<char>,
    n: int,
    path: PathBuf,
    count: u8,
)
    requires
        part_added(before, after, stem, n, path, count),
    ensures
        forall|k: Seq<char>| has_key(after, k) <==> (has_key(before, k) || k == ascii_lowercase(stem)),
        forall|k: Seq<char>, m: int, st: Seq<char>, c: u8, pa: PathBuf|
            holds_part(after, k, m, st, c, pa) <==> (holds_part(before, k, m, st, c, pa) || (k
                == ascii_lowercase(stem) && m == n && st == stem && c == count && pa == path)),
{
    let key = ascii_lowercase(stem);
    let (i, p) = choose|i: int, p: int|
        {
            &&& 0 <= i < after.len()
            &&& after[i].key@ == key
            &&& 0 <= p < after[i].parts@.len()
            &&& #[trigger] after[i].parts@[p].number == n
            &&& after[i].parts@[p].stem@ == stem
            &&& after[i].parts@[p].path == path
            &&& after[i].parts@[p].count == count
            &&& i == key_rank(before, key)
            &&& if i < before.len() && before[i].key@ == key {
                &&& after == before.update(i, after[i])
                &&& after[i].parts@ == before[i].parts@.insert(p, after[i].parts@[p])
                &&& p == number_rank(before[i].parts@, n)
            } else {
                &&& after == before.insert(i, after[i])
                &&& after[i].parts@.len() == 1
            }
        };
    lemma_key_rank_bounds(before, key);
    let y = after[i].parts@[p];
    if i < before.len() && before[i].key@ == key {
        let old_parts = before[i].parts@;
        lemma_number_rank_bounds(old_parts, n);
        old_parts.insert_ensures(p, y);
        assert forall|k: Seq<char>| has_key(after, k) <==> (has_key(before, k) || k == key) by {
            if has_key(after, k) {
                let x = choose|x: int| 0 <= x < after.len() && #[trigger] after[x].key@ == k;
                if x != i {
                    assert(before[x] == after[x]);
                }
                assert(before[x].key@ == k);
            }
            if has_key(before, k) {
                let x = choose|x: int| 0 <= x < before.len() && #[trigger] before[x].key@ == k;
                if x != i {
                    assert(before[x] == after[x]);
                }
                assert(after[x].key@ == k);
            }
            if k == key {
                assert(after[i].key@ == k);
            }
        }
        assert forall|k: Seq<char>, m: int, st: Seq<char>, c: u8, pa: PathBuf|
            holds_part(after, k, m, st, c, pa) <==> (holds_part(before, k, m, st, c, pa) || (k == key
                && m == n && st == stem && c == count && pa == path)) by {
            if holds_part(after, k, m, st, c, pa) {
                let (x, j) = choose|x: int, j: int|
                    #![trigger after[x].parts@[j]]
                    0 <= x < after.len() && after[x].key@ == k && 0 <= j < after[x].parts@.len()
                        && after[x].parts@[j].number == m && after[x].parts@[j].stem@ == st
                        && after[x].parts@[j].count == c && after[x].parts@[j].path == pa;
                if x != i {
                    assert(before[x] == after[x]);
                    assert(before[x].parts@[j] == after[x].parts@[j]);
                } else if j < p {
                    assert(old_parts[j] == after[x].parts@[j]);
                    assert(before[x].parts@[j] == after[x].parts@[j]);
                } else if j > p {
                    assert(old_parts[j - 1] == after[x].parts@[(j - 1) + 1]);
                    assert(before[x].parts@[j - 1] == after[x].parts@[j]);
                }
            }
            if holds_part(before, k, m, st, c, pa) {
                let (x, j) = choose|x: int, j: int|
                    #![trigger before[x].parts@[j]]
                    0 <= x < before.len() && before[x].key@ == k && 0 <= j < before[x].parts@.len()
                        && before[x].parts@[j].number == m && before[x].parts@[j].stem@ == st
                        && before[x].parts@[j].count == c && before[x].parts@[j].path == pa;
                if x != i {
                    assert(before[x] == after[x]);
                    assert(after[x].parts@[j] == before[x].parts@[j]);
                } else if j < p {
                    assert(after[x].parts@[j] == old_parts[j]);
                } else {
                    assert(after[x].parts@[j + 1] == old_parts[j]);
                }
            }
            if k == key && m == n && st == stem && c == count && pa == path {
                assert(after[i].parts@[p] == y);
            }
        }
    } else {
        before.insert_ensures(i, after[i]);
        assert forall|k: Seq<char>| has_key(after, k) <==> (has_key(before, k) || k == key) by {
            if has_key(after, k) {
                let x = choose|x: int| 0 <= x < after.len() && #[trigger] after[x].key@ == k;
                if x < i {
                    assert(before[x] == after[x]);
                } else if x > i {
                    assert(before[x - 1] == after[(x - 1) + 1]);
                    assert(before[x - 1].key@ == k);
                }
            }
            if has_key(before, k) {
                let x = choose|x: int| 0 <= x < before.len() && #[trigger] before[x].key@ == k;
                if x < i {
                    assert(after[x] == before[x]);
                } else {
                    assert(after[x + 1] == before[x]);
                    assert(after[x + 1].key@ == k);
                }
            }
            if k == key {
                assert(after[i].key@ == k);
            }
        }
        assert forall|k: Seq<char>, m: int, st: Seq<char>, c: u8, pa: PathBuf|
            holds_part(after, k, m, st, c, pa) <==> (holds_part(before, k, m, st, c, pa) || (k == key
                && m == n && st == stem && c == count && pa == path)) by {
            if holds_part(after, k, m, st, c, pa) {
                let (x, j) = choose|x: int, j: int|
                    #![trigger after[x].parts@[j]]
                    0 <= x < after.len() && after[x].key@ == k && 0 <= j < after[x].parts@.len()
                        && after[x].parts@[j].number == m && after[x].parts@[j].stem@ == st
                        && after[x].parts@[j].count == c && after[x].parts@[j].path == pa;
                if x < i {
                    assert(before[x] == after[x]);
                    assert(before[x].parts@[j] == after[x].parts@[j]);
                } else if x > i {
                    assert(before[x - 1] == after[(x - 1) + 1]);
                    assert(before[x - 1].parts@[j] == after[x].parts@[j]);
                } else {
                    assert(j == 0 && p == 0);
                }
            }
            if holds_part(before, k, m, st, c, pa) {
                let (x, j) = choose|x: int, j: int|
                    #![trigger before[x].parts@[j]]
                    0 <= x < before.len() && before[x].key@ == k && 0 <= j < before[x].parts@.len()
                        && before[x].parts@[j].number == m && before[x].parts@[j].stem@ == st
                        && before[x].parts@[j].count == c && before[x].parts@[j].path == pa;
                if x < i {
                    assert(after[x] == before[x]);
                    assert(after[x].parts@[j] == before[x].parts@[j]);
                } else {
                    assert(after[x + 1] == before[x]);
                    assert(after[x + 1].parts@[j] == before[x].parts@[j]);
                }
            }
            if k == key && m == n && st == stem && c == count && pa == path {
                assert(after[i].parts@[p] == y);
            }
        }
    }
}

/// The order in which a scan finds two numbered volumes does not matter:
/// taking in `f` and then `g`, or `g` and then `f`, each accepted, ends in
/// scans that are the same but for where their files lie.
pub proof fn lemma_adds_commute(
    d: Discovery,
    e1: Discovery,
    e12: Discovery,
    e2: Discovery,
    e21: Discovery,
    f: FileName,
    g: FileName,
    f_number: u8,
    f_count: u8,
    g_number: u8,
    g_count: u8,
)
    requires
        d.wf(),
        volume_name(f) matches Ok(Some(_)),
        volume_name(g) matches Ok(Some(_)),
        admitted(d, e1, f, f_number, f_count),
        admitted(e1, e12, g, g_number, g_count),
        admitted(d, e2, g, g_number, g_count),
        admitted(e2, e21, f, f_number, f_count),
    ensures
        scans_similar(e12, e21),
{
    let (fs, fnum) = volume_name(f)->Ok_0->Some_0;
    let (gs, gnum) = volume_name(g)->Ok_0->Some_0;
    assert(admission(d.sets@, f, f_number, f_count) == Admission::Numbered(fs, fnum));
    assert(admission(e1.sets@, g, g_number, g_count) == Admission::Numbered(gs, gnum));
    assert(admission(d.sets@, g, g_number, g_count) == Admission::Numbered(gs, gnum));
    assert(admission(e2.sets@, f, f_number, f_count) == Admission::Numbered(fs, fnum));
    lemma_part_added_content(d.sets@, e1.sets@, fs, fnum, f.path, f_count);
    lemma_part_added_content(e1.sets@, e12.sets@, gs, gnum, g.path, g_count);
    lemma_part_added_content(d.sets@, e2.sets@, gs, gnum, g.path, g_count);
    lemma_part_added_content(e2.sets@, e21.sets@, fs, fnum, f.path, f_count);
    lemma_sets_unique(e12.sets@, e21.sets@);
    assert(e12.singles == d.singles && e21.singles == d.singles);
}

/// Nor does the order in which a scan finds a single-file archive `f` and
/// a numbered volume `g`.
pub proof fn lemma_single_numbered_commute(
    d: Discovery,
    e1: Discovery,
    e12: Discovery,
    e2: Discovery,
    e21: Discovery,
    f: FileName,
    g: FileName,
    f_number: u8,
    f_count: u8,
    g_number: u8,
    g_count: u8,
)
    requires
        d.wf(),
        volume_name(f) matches Ok(None),
        volume_name(g) matches Ok(Some(_)),
        admitted(d, e1, f, f_number, f_count),
        admitted(e1, e12, g, g_number, g_count),
        admitted(d, e2, g, g_number, g_count),
        admitted(e2, e21, f, f_number, f_count),
    ensures
        scans_similar(e12, e21),
{
    let (gs, gnum) = volume_name(g)->Ok_0->Some_0;
    assert(admission(d.sets@, f, f_number, f_count) is Single);
    assert(admission(e2.sets@, f, f_number, f_count) is Single);
    assert(admission(e1.sets@, g, g_number, g_count) == Admission::Numbered(gs, gnum));
    assert(admission(d.sets@, g, g_number, g_count) == Admission::Numbered(gs, gnum));
    lemma_part_added_content(e1.sets@, e12.sets@, gs, gnum, g.path, g_count);
    lemma_part_added_content(d.sets@, e2.sets@, gs, gnum, g.path, g_count);
    lemma_sets_unique(e12.sets@, e21.sets@);
    assert(e12.singles@ == e21.singles@);
    assert forall|i: int| 0 <= i < e12.singles@.len() implies opt_view((#[trigger] e12.singles@[i]).name)
        == opt_view(e21.singles@[i].name) by {}
}

/// The archive that a single file with a name makes.
pub open spec fn single_view() -> spec_fn(Single) -> GroupView {
    |s: Single| GroupView { name: opt_view(s.name)->Some_0, volumes: seq![s.path] }
}

/// Whether every single-file archive of `singles` has a file name.
pub open spec fn all_named(singles: Seq<Single>) -> bool {
    forall|j: int| 0 <= j < singles.len() ==> opt_view((#[trigger] singles[j]).name) is Some
}

proof fn lemma_singles_groups_all(singles: Seq<Single>)
    ensures
        singles_groups(singles) == if all_named(singles) {
            Ok(singles.map_values(single_view()))
        } else {
            Err::<Seq<GroupView>, Refusal>(Refusal::Plain(Error::InvalidArchiveFilename))
        },
    decreases singles.len(),
{
    if singles.len() == 0 {
        assert(singles.map_values(single_view()) =~= Seq::<GroupView>::empty());
    } else {
        let rest = singles.drop_last();
        lemma_singles_groups_all(rest);
        assert(singles.last() == singles[singles.len() - 1]);
        assert(all_named(singles) <==> all_named(rest) && opt_view(singles.last().name) is Some) by {
            if all_named(rest) && opt_view(singles.last().name) is Some {
                assert forall|j: int| 0 <= j < singles.len() implies opt_view(
                    (#[trigger] singles[j]).name,
                ) is Some by {
                    if j < rest.len() {
                        assert(singles[j] == rest[j]);
                    }
                }
            }
            if all_named(singles) {
                assert forall|j: int| 0 <= j < rest.len() implies opt_view((#[trigger] rest[j]).name) is Some by {
                    assert(singles[j] == rest[j]);
                }
            }
        }
        assert(singles.map_values(single_view()) =~= rest.map_values(single_view()).push(
            single_view()(singles.last()),
        ));
    }
}

/// The order of two neighbouring single-file archives does not change what
/// a scan yields, where their names differ in ASCII lower case.
pub proof fn lemma_finish_singles_swapped(d1: Discovery, d2: Discovery, i: int)
    requires
        d1.sets@ == d2.sets@,
        d1.std_only == d2.std_only,
        0 <= i,
        i + 1 < d1.singles@.len(),
        d2.singles@ == swap_next(d1.singles@, i),
        names_differ(opt_view(d1.singles@[i].name), opt_view(d1.singles@[i + 1].name)),
    ensures
        discovered(d1) == discovered(d2),
{
    let a = d1.singles@;
    let b = d2.singles@;
    lemma_singles_groups_all(a);
    lemma_singles_groups_all(b);
    assert(all_named(a) <==> all_named(b)) by {
        if all_named(a) {
            assert forall|j: int| 0 <= j < b.len() implies opt_view((#[trigger] b[j]).name) is Some by {
                if j == i {
                    assert(b[j] == a[i + 1]);
                } else if j == i + 1 {
                    assert(b[j] == a[i]);
                } else {
                    assert(b[j] == a[j]);
                }
            }
        }
        if all_named(b) {
            assert forall|j: int| 0 <= j < a.len() implies opt_view((#[trigger] a[j]).name) is Some by {
                if j == i {
                    assert(b[i + 1] == a[j]);
                } else if j == i + 1 {
                    assert(b[i] == a[j]);
                } else {
                    assert(b[j] == a[j]);
                }
            }
        }
    }
    if all_named(a) {
        if let Ok(x) = sets_groups(d1.sets@) {
            let ga = a.map_values(single_view());
            let gb = b.map_values(single_view());
            assert(gb =~= swap_next(ga, i));
            let all = x + ga;
            let k = x.len() + i;
            assert(x + gb =~= swap_next(all, k));
            assert(all[k] == ga[i] && all[k + 1] == ga[i + 1]);
            assert(opt_view(a[i].name) is Some && opt_view(a[i + 1].name) is Some);
            assert(group_key()(all[k]) != group_key()(all[k + 1]));
            lemma_sort_swap(all, k, group_key());
        }
    }
}

/// The order in which a scan finds two single-file archives `f` and `g`
/// does not matter: the scans differ only in the order of those two, and,
/// where their names differ in ASCII lower case, yield the same.
pub proof fn lemma_singles_commute(
    d: Discovery,
    e1: Discovery,
    e12: Discovery,
    e2: Discovery,
    e21: Discovery,
    f: FileName,
    g: FileName,
    f_number: u8,
    f_count: u8,
    g_number: u8,
    g_count: u8,
)
    requires
        d.wf(),
        volume_name(f) matches Ok(None),
        volume_name(g) matches Ok(None),
        admitted(d, e1, f, f_number, f_count),
        admitted(e1, e12, g, g_number, g_count),
        admitted(d, e2, g, g_number, g_count),
        admitted(e2, e21, f, f_number, f_count),
    ensures
        e12.sets@ == e21.sets@,
        e21.singles@ == swap_next(e12.singles@, d.singles@.len() as int),
        names_differ(opt_view(f.name), opt_view(g.name))
            ==> discovered(e12) == discovered(e21) && scans_reordered(e12, e21),
{
    assert(admission(d.sets@, f, f_number, f_count) is Single);
    assert(admission(e1.sets@, g, g_number, g_count) is Single);
    assert(admission(d.sets@, g, g_number, g_count) is Single);
    assert(admission(e2.sets@, f, f_number, f_count) is Single);
    let n = d.singles@.len() as int;
    assert(e21.singles@ =~= swap_next(e12.singles@, n));
    if names_differ(opt_view(f.name), opt_view(g.name)) {
        assert(e12.singles@[n] == Single { path: f.path, name: f.name });
        assert(e12.singles@[n + 1] == Single { path: g.path, name: g.name });
        lemma_finish_singles_swapped(e12, e21, n);
        let t = e12.sets@;
        assert(sets_similar(t, e21.sets@)) by {
            assert forall|k: int| 0 <= k < t.len() implies (#[trigger] t[k]).key@ == t[k].key@
                && parts_similar(t[k].parts@, t[k].parts@) by {}
        }
        let ks = seq![n];
        let names = single_names(e12.singles@);
        assert(ks.drop_first() =~= Seq::<int>::empty());
        assert(names[n] == opt_view(f.name) && names[n + 1] == opt_view(g.name));
        assert(ks[0] == n);
        assert(names_differ(names[n], names[n + 1]));
        assert(swaps_ok(swap_next(names, n), Seq::<int>::empty()));
        assert(swapped_by(swap_next(names, n), Seq::<int>::empty()) == swap_next(names, n));
        assert(swaps_ok(names, ks));
        assert(swap_next(names, n) =~= single_names(e21.singles@));
        assert(swapped_by(names, ks) == single_names(e21.singles@));
    }
}

// ---------------------------------------------------------------------------
// A scan for std* archives keeps what a scan for all archives finds of them

/// Whether a lower-cased name starts with std.
pub open spec fn std_key(k: Seq<char>) -> bool {
    k.len() >= 3 && k.take(3) == seq!['s', 't', 'd']
}

/// A set of volumes whose key starts with std.
pub open spec fn std_set() -> spec_fn(VolumeSet) -> bool {
    |s: VolumeSet| std_key(s.key@)
}

/// A single-file archive whose name starts with std, in any ASCII case.
pub open spec fn std_single() -> spec_fn(Single) -> bool {
    |s: Single| is_std_name(opt_view(s.name))
}

/// A group whose name starts with std, in any ASCII case.
pub open spec fn std_group() -> spec_fn(GroupView) -> bool {
    |g: GroupView| std_key(ascii_lowercase(g.name))
}

proof fn lemma_keep_sets_key(sets: Seq<VolumeSet>, k: Seq<char>)
    ensures
        has_key(keep(sets, std_set()), k) <==> (has_key(sets, k) && std_key(k)),
{
    let fs = keep(sets, std_set());
    lemma_keep_order(sets, std_set());
    if has_key(fs, k) {
        let i = choose|i: int| 0 <= i < fs.len() && #[trigger] fs[i].key@ == k;
        let a = kept_at(sets, std_set(), i);
        assert(0 <= a < sets.len() && fs[i] == sets[a]);
        assert(std_set()(sets[a]));
        assert(std_key(sets[a].key@));
        assert(sets[a].key@ == k);
    }
    if has_key(sets, k) && std_key(k) {
        let x = choose|x: int| 0 <= x < sets.len() && #[trigger] sets[x].key@ == k;
        lemma_keep_contains(sets, std_set(), x);
        let i = choose|i: int| 0 <= i < fs.len() && fs[i] == sets[x];
        assert(fs[i].key@ == k);
    }
}

proof fn lemma_keep_sets(sets: Seq<VolumeSet>)
    requires
        sets_wf(sets),
    ensures
        sets_wf(keep(sets, std_set())),
        forall|k: Seq<char>|
            #![trigger has_key(keep(sets, std_set()), k)]
            #![trigger has_key(sets, k)]
            has_key(keep(sets, std_set()), k) <==> (has_key(sets, k) && std_key(k)),
        forall|k: Seq<char>, m: int, st: Seq<char>, c: u8, pa: PathBuf|
            holds_part(keep(sets, std_set()), k, m, st, c, pa) <==> (holds_part(sets, k, m, st, c, pa)
                && std_key(k)),
{
    let fs = keep(sets, std_set());
    lemma_keep_order(sets, std_set());
    assert forall|x: int, y: int| 0 <= x < y < fs.len() implies chars_lt(
        #[trigger] fs[x].key@,
        #[trigger] fs[y].key@,
    ) by {
        assert(kept_at(sets, std_set(), x) < kept_at(sets, std_set(), y));
    }
    assert forall|i: int| 0 <= i < fs.len() implies set_wf(#[trigger] fs[i]) by {
        assert(fs[i] == sets[kept_at(sets, std_set(), i)]);
    }
    assert forall|k: Seq<char>|
        #![trigger has_key(keep(sets, std_set()), k)]
        #![trigger has_key(sets, k)]
        has_key(keep(sets, std_set()), k) <==> (has_key(sets, k) && std_key(k)) by {
        lemma_keep_sets_key(sets, k);
    }
    assert forall|k: Seq<char>, m: int, st: Seq<char>, c: u8, pa: PathBuf|
        holds_part(fs, k, m, st, c, pa) <==> (holds_part(sets, k, m, st, c, pa) && std_key(k)) by {
        if holds_part(fs, k, m, st, c, pa) {
            let (i, j) = choose|i: int, j: int|
                #![trigger fs[i].parts@[j]]
                0 <= i < fs.len() && fs[i].key@ == k && 0 <= j < fs[i].parts@.len()
                    && fs[i].parts@[j].number == m && fs[i].parts@[j].stem@ == st
                    && fs[i].parts@[j].count == c && fs[i].parts@[j].path == pa;
            let a = kept_at(sets, std_set(), i);
            assert(fs[i] == sets[a] && std_set()(sets[a]));
            assert(sets[a].parts@[j] == fs[i].parts@[j]);
        }
        if holds_part(sets, k, m, st, c, pa) && std_key(k) {
            let (x, j) = choose|x: int, j: int|
                #![trigger sets[x].parts@[j]]
                0 <= x < sets.len() && sets[x].key@ == k && 0 <= j < sets[x].parts@.len()
                    && sets[x].parts@[j].number == m && sets[x].parts@[j].stem@ == st
                    && sets[x].parts@[j].count == c && sets[x].parts@[j].path == pa;
            lemma_keep_contains(sets, std_set(), x);
            let i = choose|i: int| 0 <= i < fs.len() && fs[i] == sets[x];
            assert(fs[i].parts@[j] == sets[x].parts@[j]);
        }
    }
}

proof fn lemma_sets_groups_same(a: Seq<VolumeSet>, b: Seq<VolumeSet>)
    requires
        sets_same(a, b),
        forall|i: int| 0 <= i < a.len() ==> (#[trigger] a[i]).parts@.len() > 0,
    ensures
        sets_groups(a) == sets_groups(b),
    decreases a.len(),
{
    if a.len() > 0 {
        let (ra, rb) = (a.drop_last(), b.drop_last());
        assert(sets_same(ra, rb)) by {
            assert forall|i: int| 0 <= i < ra.len() implies (#[trigger] ra[i]).key@ == rb[i].key@
                && parts_similar(ra[i].parts@, rb[i].parts@) by {
                assert(ra[i] == a[i] && rb[i] == b[i]);
            }
            assert forall|i: int, j: int| 0 <= i < ra.len() && 0 <= j < ra[i].parts@.len() implies (
            #[trigger] ra[i].parts@[j]).path == rb[i].parts@[j].path by {
                assert(ra[i] == a[i] && rb[i] == b[i]);
                assert(a[i].parts@[j].path == b[i].parts@[j].path);
            }
        }
        assert forall|i: int| 0 <= i < ra.len() implies (#[trigger] ra[i]).parts@.len() > 0 by {
            assert(ra[i] == a[i]);
        }
        lemma_sets_groups_same(ra, rb);
        let (x, y) = (a.last(), b.last());
        assert(x == a[a.len() - 1] && y == b[b.len() - 1]);
        assert(x.key@ == y.key@ && parts_similar(x.parts@, y.parts@));
        lemma_first_gap_similar(x.parts@, y.parts@, 0);
        assert(part_paths(x.parts@) =~= part_paths(y.parts@)) by {
            assert forall|j: int| 0 <= j < x.parts@.len() implies part_paths(x.parts@)[j] == part_paths(
                y.parts@,
            )[j] by {
                assert(a[a.len() - 1].parts@[j].path == b[a.len() - 1].parts@[j].path);
            }
        }
        assert(x.parts@.len() > 0);
        assert(x.parts@[0].stem@ == y.parts@[0].stem@ && x.parts@[0].count == y.parts@[0].count);
        assert(set_group(x) == set_group(y));
    }
}

proof fn lemma_std_name_key(n: Seq<char>)
    ensures
        is_std_name(Some(n)) == std_key(ascii_lowercase(n)),
{
}

proof fn lemma_sets_groups_keep(x: Seq<VolumeSet>)
    requires
        forall|i: int| 0 <= i < x.len() ==> set_wf(#[trigger] x[i]),
    ensures
        sets_groups(x) matches Ok(g) ==> sets_groups(keep(x, std_set())) == Ok::<
            Seq<GroupView>,
            Refusal,
        >(keep(g, std_group())),
    decreases x.len(),
{
    if x.len() == 0 {
        assert(keep(x, std_set()) == Seq::<VolumeSet>::empty());
        assert(keep(Seq::<GroupView>::empty(), std_group()) == Seq::<GroupView>::empty());
    } else if let Ok(g) = sets_groups(x) {
        let init = x.drop_last();
        let l = x.last();
        assert forall|i: int| 0 <= i < init.len() implies set_wf(#[trigger] init[i]) by {
            assert(init[i] == x[i]);
        }
        lemma_sets_groups_keep(init);
        let gi = sets_groups(init)->Ok_0;
        let gl = set_group(l)->Ok_0;
        assert(x =~= init + seq![l]);
        lemma_keep_append(init, seq![l], std_set());
        assert(g =~= gi + seq![gl]);
        lemma_keep_append(gi, seq![gl], std_group());
        assert(l == x[x.len() - 1]);
        assert(set_wf(l));
        assert(ascii_lowercase(l.parts@[0].stem@) == l.key@);
        assert(std_group()(gl) == std_set()(l));
        assert(seq![l].drop_first() =~= Seq::<VolumeSet>::empty());
        assert(seq![gl].drop_first() =~= Seq::<GroupView>::empty());
        assert(keep(Seq::<VolumeSet>::empty(), std_set()) == Seq::<VolumeSet>::empty());
        assert(keep(Seq::<GroupView>::empty(), std_group()) == Seq::<GroupView>::empty());
        assert(seq![l][0] == l && seq![gl][0] == gl);
        let ki = keep(init, std_set());
        if std_set()(l) {
            assert(keep(seq![l], std_set()) =~= seq![l]);
            assert(keep(seq![gl], std_group()) =~= seq![gl]);
            let kx = ki + seq![l];
            assert(kx.drop_last() =~= ki && kx.last() == l);
            assert(keep(gi, std_group()) + seq![gl] =~= keep(gi, std_group()).push(gl));
        } else {
            assert(keep(seq![l], std_set()) =~= Seq::<VolumeSet>::empty());
            assert(keep(seq![gl], std_group()) =~= Seq::<GroupView>::empty());
            assert(ki + Seq::<VolumeSet>::empty() =~= ki);
            assert(keep(gi, std_group()) + Seq::<GroupView>::empty() =~= keep(gi, std_group()));
        }
    }
}

proof fn lemma_singles_groups_keep(x: Seq<Single>)
    ensures
        singles_groups(x) matches Ok(g) ==> singles_groups(keep(x, std_single())) == Ok::<
            Seq<GroupView>,
            Refusal,
        >(keep(g, std_group())),
    decreases x.len(),
{
    if x.len() == 0 {
        assert(keep(x, std_single()) == Seq::<Single>::empty());
        assert(keep(Seq::<GroupView>::empty(), std_group()) == Seq::<GroupView>::empty());
    } else if let Ok(g) = singles_groups(x) {
        let init = x.drop_last();
        let l = x.last();
        lemma_singles_groups_keep(init);
        let gi = singles_groups(init)->Ok_0;
        let gl = single_group(l)->Ok_0;
        assert(x =~= init + seq![l]);
        lemma_keep_append(init, seq![l], std_single());
        assert(g =~= gi + seq![gl]);
        lemma_keep_append(gi, seq![gl], std_group());
        lemma_std_name_key(gl.name);
        assert(std_group()(gl) == std_single()(l));
        assert(seq![l].drop_first() =~= Seq::<Single>::empty());
        assert(seq![gl].drop_first() =~= Seq::<GroupView>::empty());
        assert(keep(Seq::<Single>::empty(), std_single()) == Seq::<Single>::empty());
        assert(keep(Seq::<GroupView>::empty(), std_group()) == Seq::<GroupView>::empty());
        assert(seq![l][0] == l && seq![gl][0] == gl);
        let ki = keep(init, std_single());
        if std_single()(l) {
            assert(keep(seq![l], std_single()) =~= seq![l]);
            assert(keep(seq![gl], std_group()) =~= seq![gl]);
            let kx = ki + seq![l];
            assert(kx.drop_last() =~= ki && kx.last() == l);
            assert(keep(gi, std_group()) + seq![gl] =~= keep(gi, std_group()).push(gl));
        } else {
            assert(keep(seq![l], std_single()) =~= Seq::<Single>::empty());
            assert(keep(seq![gl], std_group()) =~= Seq::<GroupView>::empty());
            assert(ki + Seq::<Single>::empty() =~= ki);
            assert(keep(gi, std_group()) + Seq::<GroupView>::empty() =~= keep(gi, std_group()));
        }
    }
}

proof fn lemma_all_names_fine(gs: Seq<GroupView>, from: int)
    requires
        0 <= from,
        forall|i: int| from <= i < gs.len() ==> #[trigger] name_fault(gs, i) is None,
    ensures
        first_name_fault(gs, from) is None,
    decreases gs.len() - from,
{
    if from < gs.len() {
        assert(name_fault(gs, from) is None);
        lemma_all_names_fine(gs, from + 1);
    }
}

proof fn lemma_keep_names_fine(gs: Seq<GroupView>, pred: spec_fn(GroupView) -> bool)
    requires
        first_name_fault(gs, 0) is None,
    ensures
        first_name_fault(keep(gs, pred), 0) is None,
{
    let ks = keep(gs, pred);
    lemma_keep_order(gs, pred);
    assert forall|i: int| 0 <= i < ks.len() implies #[trigger] name_fault(ks, i) is None by {
        let a = kept_at(gs, pred, i);
        lemma_no_name_fault(gs, 0, a);
        assert(ks[i] == gs[a]);
        if exists|j: int| 0 <= j < i && unicode_lowercase(#[trigger] ks[j].name) == unicode_lowercase(ks[i].name) {
            let j = choose|j: int| 0 <= j < i && unicode_lowercase(#[trigger] ks[j].name) == unicode_lowercase(ks[i].name);
            let b = kept_at(gs, pred, j);
            assert(b < a);
            assert(ks[j] == gs[b]);
            assert(unicode_lowercase(gs[b].name) == unicode_lowercase(gs[a].name));
        }
    }
    lemma_all_names_fine(ks, 0);
}

/// Whether the scan for std* archives `ds` holds exactly what the scan
/// `da` holds of std* archives.
pub open spec fn std_part_of(da: Discovery, ds: Discovery) -> bool {
    &&& ds.std_only
    &&& opt_view(ds.selected) == opt_view(da.selected)
    &&& forall|k: Seq<char>|
        #![trigger has_key(ds.sets@, k)]
        #![trigger has_key(da.sets@, k)]
        has_key(ds.sets@, k) <==> (has_key(da.sets@, k) && std_key(k))
    &&& forall|k: Seq<char>, m: int, st: Seq<char>, c: u8, pa: PathBuf|
        #![trigger holds_part(ds.sets@, k, m, st, c, pa)]
        #![trigger holds_part(da.sets@, k, m, st, c, pa)]
        holds_part(ds.sets@, k, m, st, c, pa) <==> (holds_part(da.sets@, k, m, st, c, pa) && std_key(k))
    &&& ds.singles@ == keep(da.singles@, std_single())
}

/// Whether a file's name is its base name, a dot and its extension, where
/// it has both.
pub open spec fn names_agree(f: FileName) -> bool {
    match (opt_view(f.stem), opt_view(f.extension)) {
        (Some(st), Some(e)) => opt_view(f.name) == Some(st + seq!['.'] + e),
        _ => true,
    }
}

/// Two scans that have found nothing, one of them for std* archives, with
/// the same selection.
pub proof fn lemma_std_start(da: Discovery, ds: Discovery)
    requires
        da.sets@.len() == 0,
        da.singles@.len() == 0,
        ds.sets@.len() == 0,
        ds.singles@.len() == 0,
        ds.std_only,
        opt_view(ds.selected) == opt_view(da.selected),
    ensures
        std_part_of(da, ds),
{
    assert(keep(da.singles@, std_single()) == Seq::<Single>::empty());
    assert(ds.singles@ =~= Seq::<Single>::empty());
}

proof fn lemma_numbered_std_name(st: Seq<char>, e: Seq<char>)
    requires
        e.len() > 0,
    ensures
        is_std_name(Some(st + seq!['.'] + e)) == std_key(ascii_lowercase(st)),
{
    let n = st + seq!['.'] + e;
    let l = ascii_lowercase(n);
    let ls = ascii_lowercase(st);
    assert(l.len() == n.len());
    if st.len() >= 3 {
        assert(l.take(3) =~= ls.take(3)) by {
            assert forall|i: int| 0 <= i < 3 implies l.take(3)[i] == ls.take(3)[i] by {
                assert(n[i] == st[i]);
            }
        }
    } else {
        if l.len() >= 3 && l.take(3) == seq!['s', 't', 'd'] {
            let p = st.len() as int;
            assert(n[p] == '.');
            assert(l[p] == ascii_lower('.'));
            assert(l.take(3)[p] == l[p]);
            assert(seq!['s', 't', 'd'][p] != '.');
        }
    }
}

/// A scan for std* archives takes in a file as a scan for all archives
/// does, when the file's name starts with std, and leaves it alone
/// otherwise: it looks at a file exactly where the other does and the
/// file's name starts with std; it refuses no std* file that the other
/// takes in; and after the step it still holds exactly what the other holds
/// of std* archives.
pub proof fn lemma_std_step(
    da: Discovery,
    ds: Discovery,
    ea: Discovery,
    es: Discovery,
    f: FileName,
    number: u8,
    count: u8,
)
    requires
        da.wf(),
        ds.wf(),
        std_part_of(da, ds),
        names_agree(f),
        admitted(da, ea, f, number, count),
        is_std_name(opt_view(f.name)) ==> admitted(ds, es, f, number, count),
        !is_std_name(opt_view(f.name)) ==> es == ds,
    ensures
        wanted(true, opt_view(ds.selected), f) == (wanted(false, opt_view(da.selected), f)
            && is_std_name(opt_view(f.name))),
        is_std_name(opt_view(f.name)) ==> !(admission(ds.sets@, f, number, count) is Refused),
        std_part_of(ea, es),
{
    let std = is_std_name(opt_view(f.name));
    let sa = da.sets@;
    let ss = ds.sets@;
    match volume_name(f) {
        Ok(Some((stem, n))) => {
            let key = ascii_lowercase(stem);
            let e = opt_view(f.extension)->Some_0;
            lemma_numbered_std_name(stem, e);
            assert(std == std_key(key));
            assert(admission(sa, f, number, count) == Admission::Numbered(stem, n));
            if has_volume(ss, key, n) {
                let (i, j) = choose|i: int, j: int|
                    0 <= i < ss.len() && ss[i].key@ == key && 0 <= j < ss[i].parts@.len()
                        && #[trigger] ss[i].parts@[j].number == n;
                let pt = ss[i].parts@[j];
                assert(holds_part(ss, key, n, pt.stem@, pt.count, pt.path));
                assert(holds_part(sa, key, n, pt.stem@, pt.count, pt.path));
                let (i2, j2) = choose|i2: int, j2: int|
                    #![trigger sa[i2].parts@[j2]]
                    0 <= i2 < sa.len() && sa[i2].key@ == key && 0 <= j2 < sa[i2].parts@.len()
                        && sa[i2].parts@[j2].number == n && sa[i2].parts@[j2].stem@ == pt.stem@
                        && sa[i2].parts@[j2].count == pt.count && sa[i2].parts@[j2].path == pt.path;
                assert(has_volume(sa, key, n));
            }
            lemma_part_added_content(sa, ea.sets@, stem, n, f.path, count);
            if std {
                assert(admission(ss, f, number, count) == Admission::Numbered(stem, n));
                lemma_part_added_content(ss, es.sets@, stem, n, f.path, count);
            }
            assert(ea.singles == da.singles);
            assert(es.singles == ds.singles);
        },
        Ok(None) => {
            assert(admission(sa, f, number, count) is Single);
            assert(ea.sets == da.sets);
            let one = Single { path: f.path, name: f.name };
            lemma_keep_append(da.singles@, seq![one], std_single());
            assert(da.singles@.push(one) =~= da.singles@ + seq![one]);
            assert(seq![one].drop_first() =~= Seq::<Single>::empty());
            assert(keep(Seq::<Single>::empty(), std_single()) == Seq::<Single>::empty());
            assert(seq![one][0] == one);
            if std {
                assert(admission(ss, f, number, count) is Single);
                assert(keep(seq![one], std_single()) =~= seq![one]);
                assert(keep(da.singles@, std_single()) + seq![one] =~= ds.singles@.push(one));
            } else {
                assert(keep(seq![one], std_single()) =~= Seq::<Single>::empty());
                assert(keep(da.singles@, std_single()) + Seq::<Single>::empty() =~= keep(
                    da.singles@,
                    std_single(),
                ));
            }
        },
        Err(_) => {},
    }
}

/// A scan for std* archives yields what a scan for all archives over the
/// same files yields of std* archives: the groups whose names start with
/// std, in the same order; or, where there are none, the refusal that no
/// std* archive was found.
pub proof fn lemma_std_finish(da: Discovery, ds: Discovery)
    requires
        da.wf(),
        ds.wf(),
        std_part_of(da, ds),
    ensures
        discovered(da) matches Ok(ga) ==> discovered(ds) == (if keep(ga, std_group()).len() == 0 {
            Err::<Seq<GroupView>, Refusal>(Refusal::Plain(Error::NoArchives(true)))
        } else {
            Ok::<Seq<GroupView>, Refusal>(keep(ga, std_group()))
        }),
{
    if let Ok(ga) = discovered(da) {
        let a = sets_groups(da.sets@)->Ok_0;
        let b = singles_groups(da.singles@)->Ok_0;
        lemma_keep_sets(da.sets@);
        let fs = keep(da.sets@, std_set());
        lemma_sets_unique(ds.sets@, fs);
        assert forall|i: int| 0 <= i < ds.sets@.len() implies (#[trigger] ds.sets@[i]).parts@.len() > 0 by {
            assert(set_wf(ds.sets@[i]));
        }
        lemma_sets_groups_same(ds.sets@, fs);
        lemma_sets_groups_keep(da.sets@);
        lemma_singles_groups_keep(da.singles@);
        let ka = keep(a, std_group());
        let kb = keep(b, std_group());
        lemma_keep_append(a, b, std_group());
        lemma_keep_sort(a + b, group_key(), std_group());
        lemma_sort_by_key(keep(a + b, std_group()), group_key());
        vstd::seq_lib::to_multiset_len(keep(a + b, std_group()));
        vstd::seq_lib::to_multiset_len(sort_by_key(keep(a + b, std_group()), group_key()));
        lemma_keep_names_fine(ga, std_group());
        assert(ka.len() + kb.len() == keep(ga, std_group()).len());
    }
}

/// A scan for std* archives does not look at a file whose name does not
/// start with std, so such a file never changes what it finds.
pub proof fn lemma_std_scan_skips(d: Discovery, f: FileName)
    requires
        d.std_only,
        !is_std_name(opt_view(f.name)),
    ensures
        !wanted(d.std_only, opt_view(d.selected), f),
{
}

} // verus!
