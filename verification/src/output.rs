//! Merging the directory spellings of several archives that are extracted
//! into one directory.

use crate::archive::{components, entry_infos, lemma_components_nonempty, string_views, Archive, Entry, EntryInfo};
use crate::error::Error;
use crate::paths::{ancestors, ancestors_of, join, lossy_text, parent, parent_of, path_joined, text};
use std::path::PathBuf;
use crate::discovery::copy_path as copy_root;
use crate::order::same_chars;
use crate::text::{
    ascii_lowercase, chars_of, eq_ignore_ascii_case, lowercase, string_of, unicode_lowercase,
};
use vstd::prelude::*;

verus! {

/// The spelling that a directory component called ExtForms, in any ASCII
/// case, always takes.
pub open spec fn ext_forms() -> Seq<char> {
    seq!['E', 'x', 't', 'F', 'o', 'r', 'm', 's']
}

/// The spelling a component asks for: `ExtForms` for any ASCII case of it,
/// else its own.
pub open spec fn preferred(c: Seq<char>) -> Seq<char> {
    if ascii_lowercase(c) == ascii_lowercase(ext_forms()) {
        ext_forms()
    } else {
        c
    }
}

/// Normalizes the components `parts` onto `result`: each prefix path
/// takes the spelling first given to it, case ignored, in `known`, which
/// maps lower-cased paths to their spelling.
pub open spec fn normalize_parts(
    parts: Seq<Seq<char>>,
    known: Map<Seq<char>, Seq<char>>,
    result: Seq<char>,
) -> (Seq<char>, Map<Seq<char>, Seq<char>>)
    decreases parts.len(),
{
    if parts.len() == 0 {
        (result, known)
    } else if parts[0].len() == 0 {
        normalize_parts(parts.drop_first(), known, result)
    } else {
        let candidate = if result.len() == 0 {
            preferred(parts[0])
        } else {
            result + seq!['/'] + preferred(parts[0])
        };
        let key = unicode_lowercase(candidate);
        let chosen = if known.contains_key(key) {
            known[key]
        } else {
            candidate
        };
        normalize_parts(parts.drop_first(), known.insert(key, chosen), chosen)
    }
}

/// The spelling a directory path takes, empty components dropped, and the
/// spellings known after it.
pub open spec fn normalize(path: Seq<char>, known: Map<Seq<char>, Seq<char>>) -> (
    Seq<char>,
    Map<Seq<char>, Seq<char>>,
) {
    normalize_parts(components(path), known, Seq::empty())
}

/// Where the last slash of `path` is.
pub open spec fn last_slash(path: Seq<char>) -> Option<int>
    decreases path.len(),
{
    if path.len() == 0 {
        None
    } else if path.last() == '/' {
        Some(path.len() - 1)
    } else {
        last_slash(path.drop_last())
    }
}

/// The spelling a file path takes: its directory part normalized, its
/// name kept.
pub open spec fn merge_file_path(path: Seq<char>, known: Map<Seq<char>, Seq<char>>) -> (
    Seq<char>,
    Map<Seq<char>, Seq<char>>,
) {
    match last_slash(path) {
        None => (path, known),
        Some(i) => {
            let (parent, after) = normalize(path.take(i), known);
            (parent + seq!['/'] + path.skip(i + 1), after)
        },
    }
}

/// Normalizes directory paths in order.
pub open spec fn merge_dirs(dirs: Seq<Seq<char>>, known: Map<Seq<char>, Seq<char>>) -> (
    Seq<Seq<char>>,
    Map<Seq<char>, Seq<char>>,
)
    decreases dirs.len(),
{
    if dirs.len() == 0 {
        (Seq::empty(), known)
    } else {
        let (done, k) = merge_dirs(dirs.drop_last(), known);
        let (path, k2) = normalize(dirs.last(), k);
        (done.push(path), k2)
    }
}

/// Normalizes the directory parts of file paths in order.
pub open spec fn merge_files(paths: Seq<Seq<char>>, known: Map<Seq<char>, Seq<char>>) -> (
    Seq<Seq<char>>,
    Map<Seq<char>, Seq<char>>,
)
    decreases paths.len(),
{
    if paths.len() == 0 {
        (Seq::empty(), known)
    } else {
        let (done, k) = merge_files(paths.drop_last(), known);
        let (path, k2) = merge_file_path(paths.last(), k);
        (done.push(path), k2)
    }
}

/// The directory paths and the file paths of an archive.
pub open spec fn archive_paths(a: Archive) -> (Seq<Seq<char>>, Seq<Seq<char>>) {
    (string_views(a.directories@), entry_infos(a.entries@).map_values(|e: EntryInfo| e.path))
}

/// Merges archives in order, each one's directories before its files.
pub open spec fn merge_archives(
    archives: Seq<(Seq<Seq<char>>, Seq<Seq<char>>)>,
    known: Map<Seq<char>, Seq<char>>,
) -> (Seq<(Seq<Seq<char>>, Seq<Seq<char>>)>, Map<Seq<char>, Seq<char>>)
    decreases archives.len(),
{
    if archives.len() == 0 {
        (Seq::empty(), known)
    } else {
        let (done, k) = merge_archives(archives.drop_last(), known);
        let (dirs, k2) = merge_dirs(archives.last().0, k);
        let (files, k3) = merge_files(archives.last().1, k2);
        (done.push((dirs, files)), k3)
    }
}

/// The spellings a list of (lower-cased path, spelling) pairs records.
pub open spec fn spelling_map(pairs: Seq<(String, String)>) -> Map<Seq<char>, Seq<char>>
    decreases pairs.len(),
{
    if pairs.len() == 0 {
        Map::empty()
    } else {
        spelling_map(pairs.drop_last()).insert(pairs.last().0@, pairs.last().1@)
    }
}

/// Whether no lower-cased path is recorded twice.
pub open spec fn distinct_keys(pairs: Seq<(String, String)>) -> bool {
    forall|i: int, j: int|
        0 <= i < pairs.len() && 0 <= j < pairs.len() && i != j ==> #[trigger] pairs[i].0@
            != #[trigger] pairs[j].0@
}

proof fn lemma_spelling_map(pairs: Seq<(String, String)>)
    requires
        distinct_keys(pairs),
    ensures
        forall|i: int|
            0 <= i < pairs.len() ==> spelling_map(pairs).contains_key(#[trigger] pairs[i].0@)
                && spelling_map(pairs)[pairs[i].0@] == pairs[i].1@,
        forall|k: Seq<char>|
            #[trigger] spelling_map(pairs).contains_key(k) ==> exists|i: int|
                0 <= i < pairs.len() && #[trigger] pairs[i].0@ == k,
    decreases pairs.len(),
{
    if pairs.len() > 0 {
        let rest = pairs.drop_last();
        assert(distinct_keys(rest)) by {
            assert forall|i: int, j: int|
                0 <= i < rest.len() && 0 <= j < rest.len() && i != j implies #[trigger] rest[i].0@
                != #[trigger] rest[j].0@ by {
                assert(rest[i] == pairs[i] && rest[j] == pairs[j]);
            }
        }
        lemma_spelling_map(rest);
        assert forall|i: int| 0 <= i < pairs.len() implies spelling_map(pairs).contains_key(
            #[trigger] pairs[i].0@,
        ) && spelling_map(pairs)[pairs[i].0@] == pairs[i].1@ by {
            if i < pairs.len() - 1 {
                assert(rest[i] == pairs[i]);
                assert(pairs[i].0@ != pairs[pairs.len() - 1].0@);
            }
        }
        assert forall|k: Seq<char>| #[trigger] spelling_map(pairs).contains_key(k) implies exists|
            i: int,
        | 0 <= i < pairs.len() && #[trigger] pairs[i].0@ == k by {
            if k != pairs.last().0@ {
                assert(spelling_map(rest).contains_key(k));
                let i = choose|i: int| 0 <= i < rest.len() && #[trigger] rest[i].0@ == k;
                assert(pairs[i] == rest[i]);
            } else {
                assert(pairs[pairs.len() - 1].0@ == k);
            }
        }
    }
}

/// Where `key` is recorded, if it is.
fn lookup(pairs: &Vec<(String, String)>, key: &String) -> (r: Option<usize>)
    ensures
        r matches Some(i) ==> i < pairs@.len() && pairs@[i as int].0@ == key@,
        r is None ==> forall|i: int| 0 <= i < pairs@.len() ==> #[trigger] pairs@[i].0@ != key@,
{
    let mut i: usize = 0;
    while i < pairs.len()
        invariant
            i <= pairs@.len(),
            forall|k: int| 0 <= k < i ==> #[trigger] pairs@[k].0@ != key@,
        decreases pairs@.len() - i,
    {
        if pairs[i].0 == *key {
            return Some(i);
        }
        i = i + 1;
    }
    None
}

/// The views of lists of characters.
pub open spec fn char_views(v: Seq<Vec<char>>) -> Seq<Seq<char>> {
    v.map_values(|p: Vec<char>| p@)
}

/// The components of `chars` between its slashes.
fn split_components(chars: &[char]) -> (v: Vec<Vec<char>>)
    ensures
        char_views(v@) == components(chars@),
{
    let mut done: Vec<Vec<char>> = Vec::new();
    let mut current: Vec<char> = Vec::new();
    let mut k: usize = 0;
    assert(chars@.take(0) =~= Seq::<char>::empty());
    assert(char_views(done@).push(current@) =~= components(chars@.take(0)));
    while k < chars.len()
        invariant
            k <= chars@.len(),
            char_views(done@).push(current@) == components(chars@.take(k as int)),
        decreases chars@.len() - k,
    {
        assert(chars@.take(k + 1).drop_last() =~= chars@.take(k as int));
        let ghost before = char_views(done@).push(current@);
        if chars[k] == '/' {
            let finished = current;
            done.push(finished);
            current = Vec::new();
            assert(char_views(done@).push(current@) =~= before.push(Seq::<char>::empty()));
        } else {
            current.push(chars[k]);
            assert(char_views(done@).push(current@) =~= before.update(
                before.len() - 1,
                before.last().push(chars@[k as int]),
            ));
        }
        k = k + 1;
    }
    assert(chars@.take(k as int) =~= chars@);
    done.push(current);
    assert(char_views(done@) =~= components(chars@));
    done
}

/// `a`, a slash and `b`.
fn slash_join(a: &[char], b: &[char]) -> (v: Vec<char>)
    ensures
        v@ == a@ + seq!['/'] + b@,
{
    let mut v: Vec<char> = Vec::new();
    let mut i: usize = 0;
    while i < a.len()
        invariant
            i <= a@.len(),
            v@ == a@.take(i as int),
        decreases a@.len() - i,
    {
        v.push(a[i]);
        i = i + 1;
        assert(v@ =~= a@.take(i as int));
    }
    v.push('/');
    let ghost start = v@;
    let mut j: usize = 0;
    while j < b.len()
        invariant
            j <= b@.len(),
            v@ == start + b@.take(j as int),
        decreases b@.len() - j,
    {
        v.push(b[j]);
        j = j + 1;
        assert(v@ =~= start + b@.take(j as int));
    }
    assert(a@.take(i as int) =~= a@);
    assert(b@.take(j as int) =~= b@);
    assert(v@ =~= a@ + seq!['/'] + b@);
    v
}

/// Normalizes a directory path against the spellings known so far,
/// recording the new ones.
fn normalize_path(path: &[char], known: &mut Vec<(String, String)>) -> (r: Vec<char>)
    requires
        distinct_keys(old(known)@),
    ensures
        distinct_keys(final(known)@),
        (r@, spelling_map(final(known)@)) == normalize(path@, spelling_map(old(known)@)),
{
    let parts = split_components(path);
    let ghost views = char_views(parts@);
    let ext = vec!['E', 'x', 't', 'F', 'o', 'r', 'm', 's'];
    assert(ext@ =~= ext_forms());
    let mut result: Vec<char> = Vec::new();
    let mut j: usize = 0;
    assert(views.skip(0) =~= views);
    while j < parts.len()
        invariant
            j <= parts@.len() == views.len(),
            views == char_views(parts@),
            ext@ == ext_forms(),
            distinct_keys(known@),
            normalize(path@, spelling_map(old(known)@)) == normalize_parts(
                views.skip(j as int),
                spelling_map(known@),
                result@,
            ),
        decreases parts@.len() - j,
    {
        assert(views.skip(j as int).drop_first() =~= views.skip(j + 1));
        assert(views.skip(j as int)[0] == parts@[j as int]@);
        let part = &parts[j];
        if part.len() > 0 {
            let preferred_part: &[char] = if eq_ignore_ascii_case(part.as_slice(), ext.as_slice()) {
                ext.as_slice()
            } else {
                part.as_slice()
            };
            let candidate: Vec<char> = if result.len() == 0 {
                chars_of(string_of(preferred_part).as_str())
            } else {
                slash_join(result.as_slice(), preferred_part)
            };
            let candidate_string = string_of(candidate.as_slice());
            let key = lowercase(candidate_string.as_str());
            proof {
                lemma_spelling_map(known@);
            }
            match lookup(known, &key) {
                Some(i) => {
                    result = chars_of(known[i].1.as_str());
                    assert(spelling_map(known@).insert(key@, known@[i as int].1@) =~= spelling_map(
                        known@,
                    ));
                },
                None => {
                    let ghost before = known@;
                    known.push((key, candidate_string));
                    assert(known@.drop_last() =~= before);
                    assert(!spelling_map(before).contains_key(key@)) by {
                        if spelling_map(before).contains_key(key@) {
                            let i = choose|i: int| 0 <= i < before.len() && #[trigger] before[i].0@ == key@;
                        }
                    }
                    assert(distinct_keys(known@)) by {
                        assert forall|a: int, b: int|
                            0 <= a < known@.len() && 0 <= b < known@.len() && a != b implies #[trigger] known@[a].0@
                            != #[trigger] known@[b].0@ by {
                            if a < before.len() && b < before.len() {
                                assert(known@[a] == before[a] && known@[b] == before[b]);
                            } else if a < before.len() {
                                assert(known@[a] == before[a]);
                            } else {
                                assert(known@[b] == before[b]);
                            }
                        }
                    }
                    result = candidate;
                },
            }
        }
        j = j + 1;
    }
    result
}

/// Where the last slash of `chars` is.
fn find_last_slash(chars: &[char]) -> (r: Option<usize>)
    ensures
        match last_slash(chars@) {
            Some(i) => r == Some(i as usize) && 0 <= i < chars@.len(),
            None => r is None,
        },
{
    let mut i = chars.len();
    assert(chars@.take(i as int) =~= chars@);
    while i > 0
        invariant
            i <= chars@.len(),
            last_slash(chars@) == last_slash(chars@.take(i as int)),
        decreases i,
    {
        assert(chars@.take(i as int).drop_last() =~= chars@.take(i - 1));
        if chars[i - 1] == '/' {
            return Some(i - 1);
        }
        i = i - 1;
    }
    None
}

/// The characters of `chars` after index `from`.
fn chars_after(chars: &[char], from: usize) -> (v: Vec<char>)
    requires
        from <= chars@.len(),
    ensures
        v@ == chars@.skip(from as int),
{
    let mut v: Vec<char> = Vec::new();
    let mut i = from;
    while i < chars.len()
        invariant
            from <= i <= chars@.len(),
            v@ == chars@.subrange(from as int, i as int),
        decreases chars@.len() - i,
    {
        v.push(chars[i]);
        i = i + 1;
        assert(v@ =~= chars@.subrange(from as int, i as int));
    }
    assert(chars@.subrange(from as int, i as int) =~= chars@.skip(from as int));
    v
}

/// Normalizes the directory part of a file path.
fn merge_file(path: &String, known: &mut Vec<(String, String)>) -> (r: String)
    requires
        distinct_keys(old(known)@),
    ensures
        distinct_keys(final(known)@),
        (r@, spelling_map(final(known)@)) == merge_file_path(path@, spelling_map(old(known)@)),
{
    let chars = chars_of(path.as_str());
    match find_last_slash(chars.as_slice()) {
        None => string_of(chars.as_slice()),
        Some(i) => {
            let mut parent: Vec<char> = Vec::new();
            let mut k: usize = 0;
            while k < i
                invariant
                    k <= i < chars@.len(),
                    parent@ == chars@.take(k as int),
                decreases i - k,
            {
                parent.push(chars[k]);
                k = k + 1;
                assert(parent@ =~= chars@.take(k as int));
            }
            let merged = normalize_path(parent.as_slice(), known);
            // Its length fits a `usize`.
            let _length = chars.len();
            let name = chars_after(chars.as_slice(), i + 1);
            string_of(slash_join(merged.as_slice(), name.as_slice()).as_slice())
        },
    }
}

/// The directory and file paths of each archive.
pub open spec fn archives_paths(archives: Seq<Archive>) -> Seq<(Seq<Seq<char>>, Seq<Seq<char>>)> {
    archives.map_values(|a: Archive| archive_paths(a))
}

/// Whether `after` is `before` with only its paths changed.
pub open spec fn same_but_paths(before: Archive, after: Archive) -> bool {
    &&& after.volumes == before.volumes
    &&& after.entries@.len() == before.entries@.len()
    &&& forall|j: int|
        0 <= j < before.entries@.len() ==> {
            let (x, y) = (#[trigger] before.entries@[j], after.entries@[j]);
            x.size == y.size && x.packed_size == y.packed_size && x.date == y.date && x.time
                == y.time && x.offset == y.offset
        }
}

/// Merges the directory spellings of archives that are extracted into one
/// directory: a directory path keeps the spelling it had where it first
/// appeared, case ignored, and a component spelled ExtForms in any ASCII
/// case is spelled `ExtForms`. File names are not changed.
pub fn merge_directories(archives: &mut Vec<Archive>)
    ensures
        final(archives)@.len() == old(archives)@.len(),
        archives_paths(final(archives)@) == merge_archives(
            archives_paths(old(archives)@),
            Map::empty(),
        ).0,
        forall|i: int|
            0 <= i < old(archives)@.len() ==> same_but_paths(
                #[trigger] old(archives)@[i],
                final(archives)@[i],
            ),
{
    let mut pending: Vec<Archive> = Vec::new();
    std::mem::swap(archives, &mut pending);
    let ghost all = pending@;
    let mut known: Vec<(String, String)> = Vec::new();
    let count = pending.len();
    let mut i: usize = 0;
    assert(archives_paths(all).take(0) =~= Seq::<(Seq<Seq<char>>, Seq<Seq<char>>)>::empty());
    assert(archives_paths(archives@) =~= Seq::<(Seq<Seq<char>>, Seq<Seq<char>>)>::empty());
    while i < count
        invariant
            i <= count == all.len(),
            pending@ == all.skip(i as int),
            archives@.len() == i,
            distinct_keys(known@),
            merge_archives(archives_paths(all).take(i as int), Map::empty()) == (
                archives_paths(archives@),
                spelling_map(known@),
            ),
            forall|k: int| 0 <= k < i ==> same_but_paths(#[trigger] all[k], archives@[k]),
        decreases count - i,
    {
        assert(all.skip(i as int).drop_first() =~= all.skip(i + 1));
        let archive = pending.remove(0);
        assert(archive == all[i as int]);
        let ghost (dir_views, file_views) = archive_paths(archive);
        let ghost start = spelling_map(known@);
        // Directories first.
        let mut dirs: Vec<String> = Vec::new();
        let mut d: usize = 0;
        assert(dir_views.take(0) =~= Seq::<Seq<char>>::empty());
        assert(string_views(dirs@) =~= Seq::<Seq<char>>::empty());
        while d < archive.directories.len()
            invariant
                d <= archive.directories@.len() == dir_views.len(),
                dir_views == string_views(archive.directories@),
                distinct_keys(known@),
                merge_dirs(dir_views.take(d as int), start) == (
                    string_views(dirs@),
                    spelling_map(known@),
                ),
            decreases archive.directories@.len() - d,
        {
            assert(dir_views.take(d + 1).drop_last() =~= dir_views.take(d as int));
            let chars = chars_of(archive.directories[d].as_str());
            let merged = normalize_path(chars.as_slice(), &mut known);
            let ghost before = string_views(dirs@);
            dirs.push(string_of(merged.as_slice()));
            d = d + 1;
            assert(string_views(dirs@) =~= before.push(merged@));
        }
        assert(dir_views.take(d as int) =~= dir_views);
        let ghost middle = spelling_map(known@);
        // Then the files.
        let mut entries: Vec<Entry> = Vec::new();
        let mut f: usize = 0;
        let ghost paths_of = |v: Seq<Entry>| entry_infos(v).map_values(|e: EntryInfo| e.path);
        assert(file_views.take(0) =~= Seq::<Seq<char>>::empty());
        assert(paths_of(entries@) =~= Seq::<Seq<char>>::empty());
        while f < archive.entries.len()
            invariant
                f <= archive.entries@.len() == file_views.len(),
                file_views == paths_of(archive.entries@),
                paths_of == (|v: Seq<Entry>| entry_infos(v).map_values(|e: EntryInfo| e.path)),
                distinct_keys(known@),
                merge_files(file_views.take(f as int), middle) == (
                    paths_of(entries@),
                    spelling_map(known@),
                ),
                entries@.len() == f,
                forall|j: int|
                    0 <= j < f ==> {
                        let (x, y) = (#[trigger] archive.entries@[j], entries@[j]);
                        x.size == y.size && x.packed_size == y.packed_size && x.date == y.date
                            && x.time == y.time && x.offset == y.offset
                    },
            decreases archive.entries@.len() - f,
        {
            assert(file_views.take(f + 1).drop_last() =~= file_views.take(f as int));
            let e = &archive.entries[f];
            let merged = merge_file(&e.path, &mut known);
            let ghost before = paths_of(entries@);
            entries.push(
                Entry {
                    path: merged,
                    size: e.size,
                    packed_size: e.packed_size,
                    date: e.date,
                    time: e.time,
                    offset: e.offset,
                },
            );
            f = f + 1;
            assert(paths_of(entries@) =~= before.push(merged@));
        }
        assert(file_views.take(f as int) =~= file_views);
        let ghost done = archives_paths(archives@);
        archives.push(Archive { entries, directories: dirs, volumes: archive.volumes });
        i = i + 1;
        assert(archives_paths(all).take(i as int).drop_last() =~= archives_paths(all).take(i - 1));
        assert(archives_paths(archives@) =~= done.push(archive_paths(archives@.last())));
    }
    assert(archives_paths(all).take(i as int) =~= archives_paths(all));
}

/// Whether every component of `p` is spelled as `preferred` asks: one
/// called ExtForms in any ASCII case reads `ExtForms`.
pub open spec fn extforms_spelled(p: Seq<char>) -> bool {
    forall|i: int|
        0 <= i < components(p).len() ==> preferred(#[trigger] components(p)[i]) == components(p)[i]
}

/// Whether the spelling `v` is not empty, neither begins nor ends with a
/// slash, and its part before the last slash, if any, is recorded in
/// `known`.
pub open spec fn parent_ok(known: Map<Seq<char>, Seq<char>>, v: Seq<char>) -> bool {
    match last_slash(v) {
        None => v.len() > 0,
        Some(j) => 0 < j < v.len() - 1 && recorded(known, v.take(j)),
    }
}

/// Whether every spelling in `known` lower-cases to its key, spells
/// ExtForms so, and has its parent recorded.
pub open spec fn spellings_ok(known: Map<Seq<char>, Seq<char>>) -> bool {
    forall|k: Seq<char>|
        #[trigger] known.contains_key(k) ==> unicode_lowercase(known[k]) == k && extforms_spelled(
            known[k],
        ) && parent_ok(known, known[k])
}

proof fn lemma_last_slash(p: Seq<char>)
    ensures
        match last_slash(p) {
            None => forall|i: int| 0 <= i < p.len() ==> p[i] != '/',
            Some(l) => 0 <= l < p.len() && p[l] == '/' && forall|i: int| l < i < p.len() ==> p[i] != '/',
        },
    decreases p.len(),
{
    if p.len() > 0 {
        assert(p[p.len() - 1] == p.last());
        if p.last() != '/' {
            let q = p.drop_last();
            lemma_last_slash(q);
            match last_slash(q) {
                None => {
                    assert forall|i: int| 0 <= i < p.len() implies p[i] != '/' by {
                        if i < q.len() {
                            assert(p[i] == q[i]);
                        }
                    }
                },
                Some(l) => {
                    assert forall|i: int| l < i < p.len() implies p[i] != '/' by {
                        if i < q.len() {
                            assert(p[i] == q[i]);
                        }
                    }
                    assert(p[l] == q[l]);
                },
            }
        }
    }
}

proof fn lemma_no_slash(c: Seq<char>)
    requires
        !c.contains('/'),
    ensures
        last_slash(c) is None,
{
    lemma_last_slash(c);
    if let Some(l) = last_slash(c) {
        assert(c[l] == '/');
    }
}

proof fn lemma_last_slash_of(r: Seq<char>, c: Seq<char>)
    requires
        !c.contains('/'),
    ensures
        last_slash(r + seq!['/'] + c) == Some(r.len() as int),
        (r + seq!['/'] + c).take(r.len() as int) == r,
        (r + seq!['/'] + c).skip(r.len() as int + 1) == c,
{
    let s = r + seq!['/'] + c;
    lemma_last_slash(s);
    assert(s[r.len() as int] == '/');
    if let Some(l) = last_slash(s) {
        if l > r.len() {
            assert(s[l] == c[l - r.len() - 1]);
        }
    }
    assert(s.take(r.len() as int) =~= r);
    assert(s.skip(r.len() as int + 1) =~= c);
}

proof fn lemma_extends_parent(a: Map<Seq<char>, Seq<char>>, b: Map<Seq<char>, Seq<char>>, v: Seq<char>)
    requires
        extends(a, b),
        parent_ok(a, v),
    ensures
        parent_ok(b, v),
{
    if let Some(j) = last_slash(v) {
        lemma_extends_recorded(a, b, v.take(j));
    }
}

/// Whether no part holds a slash.
pub open spec fn no_slash_parts(parts: Seq<Seq<char>>) -> bool {
    forall|i: int| 0 <= i < parts.len() ==> !(#[trigger] parts[i]).contains('/')
}

proof fn lemma_components_no_slash(s: Seq<char>)
    ensures
        no_slash_parts(components(s)),
    decreases s.len(),
{
    if s.len() > 0 {
        lemma_components_no_slash(s.drop_last());
        lemma_components_nonempty(s.drop_last());
        let parts = components(s.drop_last());
        let n = parts.len() - 1;
        assert(!parts[n].contains('/'));
        if s.last() != '/' {
            let last = parts[n].push(s.last());
            assert(!last.contains('/')) by {
                if last.contains('/') {
                    let k = choose|k: int| 0 <= k < last.len() && last[k] == '/';
                    if k < last.len() - 1 {
                        assert(parts[n][k] == '/');
                    }
                }
            }
            let all = parts.update(n, last);
            assert forall|i: int| 0 <= i < all.len() implies !(#[trigger] all[i]).contains('/') by {
                if i != n {
                    assert(all[i] == parts[i]);
                }
            }
        } else {
            let all = parts.push(Seq::<char>::empty());
            assert forall|i: int| 0 <= i < all.len() implies !(#[trigger] all[i]).contains('/') by {
                if i < parts.len() {
                    assert(all[i] == parts[i]);
                } else {
                    assert(all[i] =~= Seq::<char>::empty());
                }
            }
        }
    }
}

/// A part without a slash is one component, itself.
pub proof fn lemma_components_of_part(c: Seq<char>)
    requires
        !c.contains('/'),
    ensures
        components(c) == seq![c],
    decreases c.len(),
{
    if c.len() > 0 {
        assert(!c.drop_last().contains('/')) by {
            if c.drop_last().contains('/') {
                let k = choose|k: int| 0 <= k < c.drop_last().len() && c.drop_last()[k] == '/';
                assert(c[k] == '/');
            }
        }
        lemma_components_of_part(c.drop_last());
        assert(c.last() != '/') by {
            assert(c[c.len() - 1] == c.last());
        }
        assert(c.drop_last().push(c.last()) =~= c);
        assert(seq![c.drop_last()].update(0, c.drop_last().push(c.last())) =~= seq![c]);
    } else {
        assert(c =~= Seq::<char>::empty());
    }
}

proof fn lemma_components_append(r: Seq<char>, c: Seq<char>)
    requires
        !c.contains('/'),
    ensures
        components(r + seq!['/'] + c) == components(r).push(c),
    decreases c.len(),
{
    let s = r + seq!['/'] + c;
    if c.len() == 0 {
        assert(s.drop_last() =~= r);
        assert(c =~= Seq::<char>::empty());
    } else {
        assert(!c.drop_last().contains('/')) by {
            if c.drop_last().contains('/') {
                let k = choose|k: int| 0 <= k < c.drop_last().len() && c.drop_last()[k] == '/';
                assert(c[k] == '/');
            }
        }
        lemma_components_append(r, c.drop_last());
        assert(s.drop_last() =~= r + seq!['/'] + c.drop_last());
        assert(s.last() == c.last());
        assert(c.last() != '/') by {
            assert(c[c.len() - 1] == c.last());
        }
        assert(c.drop_last().push(c.last()) =~= c);
        assert(components(r).push(c.drop_last()).update(
            components(r).len() as int,
            c.drop_last().push(c.last()),
        ) =~= components(r).push(c));
    }
}

proof fn lemma_preferred(c: Seq<char>)
    requires
        !c.contains('/'),
    ensures
        preferred(preferred(c)) == preferred(c),
        !preferred(c).contains('/'),
        c.len() > 0 ==> preferred(c).len() > 0,
{
    if ascii_lowercase(c) == ascii_lowercase(ext_forms()) {
        assert(!ext_forms().contains('/')) by {
            if ext_forms().contains('/') {
                let k = choose|k: int| 0 <= k < ext_forms().len() && ext_forms()[k] == '/';
                assert(ext_forms()[k] != '/');
            }
        }
    }
}

/// Whether `after` keeps every spelling of `before`.
pub open spec fn extends(before: Map<Seq<char>, Seq<char>>, after: Map<Seq<char>, Seq<char>>) -> bool {
    forall|k: Seq<char>| #[trigger] before.contains_key(k) ==> after.contains_key(k) && after[k] == before[k]
}

/// Whether the path `d` is empty or the spelling `known` records for its
/// lower-cased form.
pub open spec fn recorded(known: Map<Seq<char>, Seq<char>>, d: Seq<char>) -> bool {
    d.len() == 0 || (known.contains_key(unicode_lowercase(d)) && known[unicode_lowercase(d)] == d)
}

/// Two paths that `known` records, and that are equal when lower-cased,
/// are the same path.
pub proof fn lemma_recorded_unique(known: Map<Seq<char>, Seq<char>>, a: Seq<char>, b: Seq<char>)
    requires
        recorded(known, a),
        recorded(known, b),
        a.len() > 0,
        b.len() > 0,
        unicode_lowercase(a) == unicode_lowercase(b),
    ensures
        a == b,
{
}

proof fn lemma_normalize_parts(
    parts: Seq<Seq<char>>,
    known: Map<Seq<char>, Seq<char>>,
    result: Seq<char>,
)
    requires
        spellings_ok(known),
        recorded(known, result),
        no_slash_parts(parts),
    ensures
        spellings_ok(normalize_parts(parts, known, result).1),
        extends(known, normalize_parts(parts, known, result).1),
        recorded(normalize_parts(parts, known, result).1, normalize_parts(parts, known, result).0),
    decreases parts.len(),
{
    if parts.len() > 0 {
        assert(no_slash_parts(parts.drop_first())) by {
            assert forall|i: int| 0 <= i < parts.drop_first().len() implies !(
            #[trigger] parts.drop_first()[i]).contains('/') by {
                assert(parts.drop_first()[i] == parts[i + 1]);
            }
        }
        if parts[0].len() == 0 {
            lemma_normalize_parts(parts.drop_first(), known, result);
        } else {
            let candidate = if result.len() == 0 {
                preferred(parts[0])
            } else {
                result + seq!['/'] + preferred(parts[0])
            };
            let key = unicode_lowercase(candidate);
            let chosen = if known.contains_key(key) {
                known[key]
            } else {
                candidate
            };
            let next = known.insert(key, chosen);
            assert(unicode_lowercase(chosen) == key);
            assert(!parts[0].contains('/'));
            lemma_preferred(parts[0]);
            if !known.contains_key(key) {
                if result.len() == 0 {
                    lemma_components_of_part(preferred(parts[0]));
                } else {
                    lemma_components_append(result, preferred(parts[0]));
                    assert(extforms_spelled(result));
                    assert forall|i: int| 0 <= i < components(candidate).len() implies preferred(
                        #[trigger] components(candidate)[i],
                    ) == components(candidate)[i] by {
                        if i < components(result).len() {
                            assert(components(candidate)[i] == components(result)[i]);
                        }
                    }
                }
                assert(extforms_spelled(chosen));
            }
            assert(extends(known, next));
            if known.contains_key(key) {
                lemma_extends_parent(known, next, chosen);
            } else if result.len() == 0 {
                lemma_no_slash(candidate);
            } else {
                lemma_last_slash_of(result, preferred(parts[0]));
                lemma_extends_recorded(known, next, result);
            }
            assert forall|k: Seq<char>| #[trigger] next.contains_key(k) implies unicode_lowercase(next[k]) == k
                && extforms_spelled(next[k]) && parent_ok(next, next[k]) by {
                if k != key {
                    lemma_extends_parent(known, next, known[k]);
                }
            }
            assert(spellings_ok(next));
            lemma_normalize_parts(parts.drop_first(), next, chosen);
            let after = normalize_parts(parts, known, result).1;
            assert forall|k: Seq<char>| #[trigger] known.contains_key(k) implies after.contains_key(k)
                && after[k] == known[k] by {
                assert(next.contains_key(k) && next[k] == known[k]);
            }
        }
    }
}

/// A path that a well-formed map records spells ExtForms so.
pub proof fn lemma_recorded_spelled(known: Map<Seq<char>, Seq<char>>, d: Seq<char>)
    requires
        spellings_ok(known),
        recorded(known, d),
    ensures
        extforms_spelled(d),
{
    if d.len() == 0 {
        assert(d =~= Seq::<char>::empty());
        assert(components(d) =~= seq![d]);
        assert(ascii_lowercase(d).len() != ascii_lowercase(ext_forms()).len());
    }
}

proof fn lemma_extends_recorded(a: Map<Seq<char>, Seq<char>>, b: Map<Seq<char>, Seq<char>>, d: Seq<char>)
    requires
        extends(a, b),
        recorded(a, d),
    ensures
        recorded(b, d),
{
}

/// What merging made of the file path `orig`: a path without a slash is
/// kept; else its name is kept behind a directory part that `known`
/// records, which spells ExtForms so.
pub open spec fn merged_file(known: Map<Seq<char>, Seq<char>>, orig: Seq<char>, f: Seq<char>) -> bool {
    match last_slash(orig) {
        None => f == orig,
        Some(i) => exists|p: Seq<char>|
            recorded(known, p) && extforms_spelled(p) && f == p + seq!['/'] + orig.skip(i + 1),
    }
}

proof fn lemma_merge_dirs(dirs: Seq<Seq<char>>, known: Map<Seq<char>, Seq<char>>)
    requires
        spellings_ok(known),
    ensures
        spellings_ok(merge_dirs(dirs, known).1),
        extends(known, merge_dirs(dirs, known).1),
        merge_dirs(dirs, known).0.len() == dirs.len(),
        forall|i: int|
            0 <= i < dirs.len() ==> recorded(merge_dirs(dirs, known).1, #[trigger] merge_dirs(dirs, known).0[i]),
    decreases dirs.len(),
{
    if dirs.len() > 0 {
        lemma_merge_dirs(dirs.drop_last(), known);
        let (done, k) = merge_dirs(dirs.drop_last(), known);
        lemma_components_no_slash(dirs.last());
        lemma_normalize_parts(components(dirs.last()), k, Seq::empty());
        let (path, k2) = normalize(dirs.last(), k);
        assert forall|i: int| 0 <= i < dirs.len() implies recorded(k2, #[trigger] done.push(path)[i]) by {
            if i < dirs.len() - 1 {
                lemma_extends_recorded(k, k2, done[i]);
            }
        }
    }
}

proof fn lemma_merge_files(paths: Seq<Seq<char>>, known: Map<Seq<char>, Seq<char>>)
    requires
        spellings_ok(known),
    ensures
        spellings_ok(merge_files(paths, known).1),
        extends(known, merge_files(paths, known).1),
        merge_files(paths, known).0.len() == paths.len(),
        forall|i: int|
            0 <= i < paths.len() ==> merged_file(
                merge_files(paths, known).1,
                paths[i],
                #[trigger] merge_files(paths, known).0[i],
            ),
    decreases paths.len(),
{
    if paths.len() > 0 {
        lemma_merge_files(paths.drop_last(), known);
        let (done, k) = merge_files(paths.drop_last(), known);
        let last = paths.last();
        let (path, k2) = merge_file_path(last, k);
        match last_slash(last) {
            None => {},
            Some(j) => {
                lemma_components_no_slash(last.take(j));
                lemma_normalize_parts(components(last.take(j)), k, Seq::empty());
                let parent = normalize(last.take(j), k).0;
                lemma_recorded_spelled(k2, parent);
                assert(recorded(k2, parent) && path == parent + seq!['/'] + last.skip(j + 1));
            },
        }
        assert forall|i: int| 0 <= i < paths.len() implies merged_file(k2, paths[i], #[trigger] done.push(path)[i]) by {
            if i < paths.len() - 1 {
                assert(paths[i] == paths.drop_last()[i]);
                assert(merged_file(k, paths.drop_last()[i], done[i]));
                if let Some(j) = last_slash(paths[i]) {
                    let p = choose|p: Seq<char>|
                        recorded(k, p) && extforms_spelled(p) && done[i] == p + seq!['/'] + paths[i].skip(j + 1);
                    lemma_extends_recorded(k, k2, p);
                }
            }
        }
    }
}

/// Merging spells directories without regard to case: every directory path
/// that merging yields, and the directory part of every file path it
/// yields, is the one spelling that the final map records for its
/// lower-cased form, so two of them that are equal when lower-cased are the
/// same path (`lemma_recorded_unique`); in each, every component called
/// ExtForms in any ASCII case reads `ExtForms`; file names are kept.
pub proof fn lemma_merged_spellings(archives: Seq<(Seq<Seq<char>>, Seq<Seq<char>>)>)
    ensures
        ({
            let (out, known) = merge_archives(archives, Map::empty());
            &&& spellings_ok(known)
            &&& out.len() == archives.len()
            &&& forall|a: int|
                0 <= a < archives.len() ==> (#[trigger] out[a]).0.len() == archives[a].0.len()
                    && out[a].1.len() == archives[a].1.len()
            &&& forall|a: int, i: int|
                0 <= a < out.len() && 0 <= i < out[a].0.len() ==> recorded(known, #[trigger] out[a].0[i])
                    && extforms_spelled(out[a].0[i])
            &&& forall|a: int, i: int|
                0 <= a < out.len() && 0 <= i < out[a].1.len() ==> merged_file(
                    known,
                    archives[a].1[i],
                    #[trigger] out[a].1[i],
                )
        }),
{
    lemma_merge_archives(archives, Map::empty());
    let (out, known) = merge_archives(archives, Map::empty());
    assert forall|a: int, i: int| 0 <= a < out.len() && 0 <= i < out[a].0.len() implies recorded(
        known,
        #[trigger] out[a].0[i],
    ) && extforms_spelled(out[a].0[i]) by {
        lemma_recorded_spelled(known, out[a].0[i]);
    }
}

/// Every part of a recorded path that ends before one of its slashes is
/// recorded too.
pub proof fn lemma_recorded_prefix(known: Map<Seq<char>, Seq<char>>, d: Seq<char>, j: int)
    requires
        spellings_ok(known),
        recorded(known, d),
        0 <= j < d.len(),
        d[j] == '/',
    ensures
        recorded(known, d.take(j)),
    decreases d.len(),
{
    assert(known.contains_key(unicode_lowercase(d)));
    lemma_last_slash(d);
    if let Some(l) = last_slash(d) {
        if j < l {
            let r = d.take(l);
            assert(r[j] == '/');
            lemma_recorded_prefix(known, r, j);
            assert(r.take(j) =~= d.take(j));
        } else if j > l {
            assert(d[j] != '/');
        }
    }
}

/// Whether `j` ends a directory within the directory path `d`: at a
/// slash or at its end.
pub open spec fn dir_cut(d: Seq<char>, j: int) -> bool {
    0 < j <= d.len() && (j == d.len() || d[j] == '/')
}

/// Whether `j` ends a directory within the file path `f`: at a slash.
pub open spec fn file_cut(f: Seq<char>, j: int) -> bool {
    0 < j < f.len() && f[j] == '/'
}

/// Whether `p` is a directory within a directory path that merging
/// `archives` yields.
pub open spec fn merged_dir_prefix(archives: Seq<(Seq<Seq<char>>, Seq<Seq<char>>)>, p: Seq<char>) -> bool {
    let out = merge_archives(archives, Map::empty()).0;
    exists|a: int, i: int, j: int|
        0 <= a < out.len() && 0 <= i < out[a].0.len() && dir_cut(out[a].0[i], j) && p == (
        #[trigger] out[a].0[i].take(j))
}

/// Whether `p` is a directory within a file path that merging `archives`
/// yields.
pub open spec fn merged_file_prefix(archives: Seq<(Seq<Seq<char>>, Seq<Seq<char>>)>, p: Seq<char>) -> bool {
    let out = merge_archives(archives, Map::empty()).0;
    exists|a: int, i: int, j: int|
        0 <= a < out.len() && 0 <= i < out[a].1.len() && file_cut(out[a].1[i], j) && p == (
        #[trigger] out[a].1[i].take(j))
}

proof fn lemma_merged_prefix_recorded(archives: Seq<(Seq<Seq<char>>, Seq<Seq<char>>)>, p: Seq<char>)
    requires
        merged_dir_prefix(archives, p) || merged_file_prefix(archives, p),
    ensures
        recorded(merge_archives(archives, Map::empty()).1, p),
        p.len() > 0,
{
    lemma_merged_spellings(archives);
    let (out, known) = merge_archives(archives, Map::empty());
    if merged_dir_prefix(archives, p) {
        let (a, i, j) = choose|a: int, i: int, j: int|
            0 <= a < out.len() && 0 <= i < out[a].0.len() && dir_cut(out[a].0[i], j) && p == (
            #[trigger] out[a].0[i].take(j));
        let d = out[a].0[i];
        if j == d.len() {
            assert(d.take(j) =~= d);
        } else {
            lemma_recorded_prefix(known, d, j);
        }
    } else {
        let (a, i, j) = choose|a: int, i: int, j: int|
            0 <= a < out.len() && 0 <= i < out[a].1.len() && file_cut(out[a].1[i], j) && p == (
            #[trigger] out[a].1[i].take(j));
        let f = out[a].1[i];
        let orig = archives[a].1[i];
        assert(merged_file(known, orig, f));
        lemma_last_slash(orig);
        match last_slash(orig) {
            None => {
                assert(orig[j] == '/');
            },
            Some(l) => {
                let d = choose|d: Seq<char>|
                    recorded(known, d) && extforms_spelled(d) && f == d + seq!['/'] + orig.skip(l + 1);
                if j > d.len() {
                    assert(f[j] == orig[j - d.len() - 1 + l + 1]);
                } else if j == d.len() {
                    assert(f.take(j) =~= d);
                } else {
                    assert(d[j] == f[j]);
                    lemma_recorded_prefix(known, d, j);
                    assert(f.take(j) =~= d.take(j));
                }
            },
        }
    }
}

/// After merging, directories that are equal when lower-cased are spelled
/// the same: take any two directories that the merged paths name, each a
/// whole directory path or its part before a slash, or the part of a file
/// path before a slash; if they lower-case alike, they are the same path.
pub proof fn lemma_merged_prefixes(
    archives: Seq<(Seq<Seq<char>>, Seq<Seq<char>>)>,
    p: Seq<char>,
    q: Seq<char>,
)
    requires
        merged_dir_prefix(archives, p) || merged_file_prefix(archives, p),
        merged_dir_prefix(archives, q) || merged_file_prefix(archives, q),
        unicode_lowercase(p) == unicode_lowercase(q),
    ensures
        p == q,
{
    lemma_merged_prefix_recorded(archives, p);
    lemma_merged_prefix_recorded(archives, q);
    lemma_recorded_unique(merge_archives(archives, Map::empty()).1, p, q);
}

proof fn lemma_extends_trans(
    a: Map<Seq<char>, Seq<char>>,
    b: Map<Seq<char>, Seq<char>>,
    c: Map<Seq<char>, Seq<char>>,
)
    requires
        extends(a, b),
        extends(b, c),
    ensures
        extends(a, c),
{
}

/// Merging more archives changes neither what merging the first `t` of
/// them gave nor the spellings that those fixed.
pub proof fn lemma_merge_prefix_stable(archives: Seq<(Seq<Seq<char>>, Seq<Seq<char>>)>, t: int)
    requires
        0 <= t <= archives.len(),
    ensures
        merge_archives(archives, Map::empty()).0.take(t) == merge_archives(archives.take(t), Map::empty()).0,
        extends(merge_archives(archives.take(t), Map::empty()).1, merge_archives(archives, Map::empty()).1),
    decreases archives.len(),
{
    let n = archives.len() as int;
    if t == n {
        assert(archives.take(t) =~= archives);
        lemma_merge_archives(archives, Map::empty());
        assert(merge_archives(archives, Map::empty()).0.take(t) =~= merge_archives(archives, Map::empty()).0);
    } else {
        let rest = archives.drop_last();
        lemma_merge_prefix_stable(rest, t);
        assert(rest.take(t) =~= archives.take(t));
        lemma_merge_archives(rest, Map::empty());
        let (done, k) = merge_archives(rest, Map::empty());
        let last = archives.last();
        lemma_merge_dirs(last.0, k);
        let k2 = merge_dirs(last.0, k).1;
        lemma_merge_files(last.1, k2);
        let out = merge_archives(archives, Map::empty()).0;
        assert(out.take(t) =~= done.take(t));
        lemma_extends_trans(k, k2, merge_archives(archives, Map::empty()).1);
        lemma_extends_trans(
            merge_archives(archives.take(t), Map::empty()).1,
            k,
            merge_archives(archives, Map::empty()).1,
        );
    }
}

/// The first spelling wins: a directory that merging the first `t`
/// archives names, and any directory that merging them all names, that
/// are equal when lower-cased, are the same path.
pub proof fn lemma_first_spelling_wins(
    archives: Seq<(Seq<Seq<char>>, Seq<Seq<char>>)>,
    t: int,
    p: Seq<char>,
    q: Seq<char>,
)
    requires
        0 <= t <= archives.len(),
        merged_dir_prefix(archives.take(t), p) || merged_file_prefix(archives.take(t), p),
        merged_dir_prefix(archives, q) || merged_file_prefix(archives, q),
        unicode_lowercase(p) == unicode_lowercase(q),
    ensures
        p == q,
{
    lemma_merged_prefix_recorded(archives.take(t), p);
    lemma_merged_prefix_recorded(archives, q);
    lemma_merge_prefix_stable(archives, t);
    let known = merge_archives(archives, Map::empty()).1;
    lemma_extends_recorded(merge_archives(archives.take(t), Map::empty()).1, known, p);
    lemma_recorded_unique(known, p, q);
}

/// One step of `normalize_parts`: the component `c` put onto `result`.
pub open spec fn normalize_step(c: Seq<char>, known: Map<Seq<char>, Seq<char>>, result: Seq<char>) -> (
    Seq<char>,
    Map<Seq<char>, Seq<char>>,
) {
    normalize_parts(seq![c], known, result)
}

proof fn lemma_normalize_push(
    parts: Seq<Seq<char>>,
    c: Seq<char>,
    known: Map<Seq<char>, Seq<char>>,
    result: Seq<char>,
)
    ensures
        normalize_parts(parts.push(c), known, result) == ({
            let (r, k) = normalize_parts(parts, known, result);
            normalize_step(c, k, r)
        }),
    decreases parts.len(),
{
    if parts.len() == 0 {
        assert(parts.push(c) =~= seq![c]);
    } else {
        assert(parts.push(c).drop_first() =~= parts.drop_first().push(c));
        assert(parts.push(c)[0] == parts[0]);
        let candidate = if result.len() == 0 {
            preferred(parts[0])
        } else {
            result + seq!['/'] + preferred(parts[0])
        };
        let key = unicode_lowercase(candidate);
        let chosen = if known.contains_key(key) {
            known[key]
        } else {
            candidate
        };
        if parts[0].len() == 0 {
            lemma_normalize_push(parts.drop_first(), c, known, result);
        } else {
            lemma_normalize_push(parts.drop_first(), c, known.insert(key, chosen), chosen);
        }
    }
}

/// Whether the directory part of the file path `f`, if it has one, is
/// recorded in `known`.
pub open spec fn file_ok(known: Map<Seq<char>, Seq<char>>, f: Seq<char>) -> bool {
    match last_slash(f) {
        None => true,
        Some(j) => recorded(known, f.take(j)),
    }
}

proof fn lemma_extends_insert(
    small: Map<Seq<char>, Seq<char>>,
    known: Map<Seq<char>, Seq<char>>,
    d: Seq<char>,
)
    requires
        extends(small, known),
        recorded(known, d),
        d.len() > 0,
    ensures
        extends(small.insert(unicode_lowercase(d), d), known),
{
}

proof fn lemma_normalize_recorded(
    d: Seq<char>,
    known: Map<Seq<char>, Seq<char>>,
    small: Map<Seq<char>, Seq<char>>,
)
    requires
        spellings_ok(known),
        recorded(known, d),
        extends(small, known),
    ensures
        normalize(d, small).0 == d,
        extends(normalize(d, small).1, known),
    decreases d.len(),
{
    if d.len() == 0 {
        assert(d =~= Seq::<char>::empty());
        assert(components(d) =~= seq![Seq::<char>::empty()]);
        assert(seq![Seq::<char>::empty()].drop_first() =~= Seq::<Seq<char>>::empty());
        assert(normalize_parts(Seq::<Seq<char>>::empty(), small, d) == (d, small));
    } else {
        let key = unicode_lowercase(d);
        assert(known.contains_key(key));
        lemma_last_slash(d);
        lemma_extends_insert(small, known, d);
        match last_slash(d) {
            None => {
                lemma_components_of_part(d);
                assert(components(d)[0] == d);
                assert(preferred(d) == d);
                assert(small.contains_key(key) ==> small[key] == d);
                assert(seq![d].drop_first() =~= Seq::<Seq<char>>::empty());
                let next = small.insert(key, d);
                assert(normalize_parts(Seq::<Seq<char>>::empty(), next, d) == (d, next));
            },
            Some(l) => {
                let r = d.take(l);
                let c = d.skip(l + 1);
                assert(!c.contains('/')) by {
                    if c.contains('/') {
                        let k = choose|k: int| 0 <= k < c.len() && c[k] == '/';
                        assert(d[k + l + 1] == '/');
                    }
                }
                assert(d =~= r + seq!['/'] + c);
                lemma_components_append(r, c);
                lemma_normalize_recorded(r, known, small);
                let (r2, small2) = normalize(r, small);
                lemma_normalize_push(components(r), c, small, Seq::empty());
                let n = components(d).len() - 1;
                assert(components(d)[n] == c);
                assert(preferred(c) == c);
                assert(seq![c].drop_first() =~= Seq::<Seq<char>>::empty());
                lemma_extends_insert(small2, known, d);
                assert(small2.contains_key(key) ==> small2[key] == d);
                assert(r.len() > 0);
                assert(r + seq!['/'] + preferred(c) == d);
                let next = small2.insert(key, d);
                assert(normalize_parts(Seq::<Seq<char>>::empty(), next, d) == (d, next));
                assert(normalize_step(c, small2, r2) == (d, next));
            },
        }
    }
}

proof fn lemma_remerge_dirs(
    dirs: Seq<Seq<char>>,
    known: Map<Seq<char>, Seq<char>>,
    small: Map<Seq<char>, Seq<char>>,
)
    requires
        spellings_ok(known),
        forall|i: int| 0 <= i < dirs.len() ==> recorded(known, #[trigger] dirs[i]),
        extends(small, known),
    ensures
        merge_dirs(dirs, small).0 == dirs,
        extends(merge_dirs(dirs, small).1, known),
    decreases dirs.len(),
{
    if dirs.len() > 0 {
        assert(recorded(known, dirs[dirs.len() - 1]));
        lemma_remerge_dirs(dirs.drop_last(), known, small);
        let k = merge_dirs(dirs.drop_last(), small).1;
        lemma_normalize_recorded(dirs.last(), known, k);
        assert(dirs.drop_last().push(dirs.last()) =~= dirs);
    }
}

proof fn lemma_remerge_files(
    files: Seq<Seq<char>>,
    known: Map<Seq<char>, Seq<char>>,
    small: Map<Seq<char>, Seq<char>>,
)
    requires
        spellings_ok(known),
        forall|i: int| 0 <= i < files.len() ==> file_ok(known, #[trigger] files[i]),
        extends(small, known),
    ensures
        merge_files(files, small).0 == files,
        extends(merge_files(files, small).1, known),
    decreases files.len(),
{
    if files.len() > 0 {
        let f = files.last();
        assert(file_ok(known, files[files.len() - 1]));
        lemma_remerge_files(files.drop_last(), known, small);
        let k = merge_files(files.drop_last(), small).1;
        lemma_last_slash(f);
        if let Some(l) = last_slash(f) {
            lemma_normalize_recorded(f.take(l), known, k);
            assert(f.take(l) + seq!['/'] + f.skip(l + 1) =~= f);
        }
        assert(files.drop_last().push(f) =~= files);
    }
}

proof fn lemma_remerge_archives(
    archives: Seq<(Seq<Seq<char>>, Seq<Seq<char>>)>,
    known: Map<Seq<char>, Seq<char>>,
    small: Map<Seq<char>, Seq<char>>,
)
    requires
        spellings_ok(known),
        forall|a: int, i: int|
            0 <= a < archives.len() && 0 <= i < archives[a].0.len() ==> recorded(
                known,
                #[trigger] archives[a].0[i],
            ),
        forall|a: int, i: int|
            0 <= a < archives.len() && 0 <= i < archives[a].1.len() ==> file_ok(
                known,
                #[trigger] archives[a].1[i],
            ),
        extends(small, known),
    ensures
        merge_archives(archives, small).0 == archives,
        extends(merge_archives(archives, small).1, known),
    decreases archives.len(),
{
    if archives.len() > 0 {
        let rest = archives.drop_last();
        let last = archives.last();
        assert forall|a: int, i: int| 0 <= a < rest.len() && 0 <= i < rest[a].0.len() implies recorded(
            known,
            #[trigger] rest[a].0[i],
        ) by {
            assert(rest[a] == archives[a]);
        }
        assert forall|a: int, i: int| 0 <= a < rest.len() && 0 <= i < rest[a].1.len() implies file_ok(
            known,
            #[trigger] rest[a].1[i],
        ) by {
            assert(rest[a] == archives[a]);
        }
        lemma_remerge_archives(rest, known, small);
        let k = merge_archives(rest, small).1;
        let n = archives.len() - 1;
        assert(last == archives[n]);
        assert forall|i: int| 0 <= i < last.0.len() implies recorded(known, #[trigger] last.0[i]) by {
            assert(recorded(known, archives[n].0[i]));
        }
        assert forall|i: int| 0 <= i < last.1.len() implies file_ok(known, #[trigger] last.1[i]) by {
            assert(file_ok(known, archives[n].1[i]));
        }
        lemma_remerge_dirs(last.0, known, k);
        let k2 = merge_dirs(last.0, k).1;
        lemma_remerge_files(last.1, known, k2);
        assert(rest.push((last.0, last.1)) =~= archives);
    }
}

/// Merging twice gives what merging once gives: every path that merging
/// yields is kept by a second merge.
pub proof fn lemma_merge_idempotent(archives: Seq<(Seq<Seq<char>>, Seq<Seq<char>>)>)
    ensures
        merge_archives(merge_archives(archives, Map::empty()).0, Map::empty()).0 == merge_archives(
            archives,
            Map::empty(),
        ).0,
{
    lemma_merged_spellings(archives);
    let (out, known) = merge_archives(archives, Map::empty());
    assert forall|a: int, i: int| 0 <= a < out.len() && 0 <= i < out[a].1.len() implies file_ok(
        known,
        #[trigger] out[a].1[i],
    ) by {
        let orig = archives[a].1[i];
        let f = out[a].1[i];
        assert(merged_file(known, orig, f));
        lemma_last_slash(orig);
        if let Some(l) = last_slash(orig) {
            let d = choose|d: Seq<char>|
                recorded(known, d) && extforms_spelled(d) && f == d + seq!['/'] + orig.skip(l + 1);
            let name = orig.skip(l + 1);
            assert(!name.contains('/')) by {
                if name.contains('/') {
                    let k = choose|k: int| 0 <= k < name.len() && name[k] == '/';
                    assert(orig[k + l + 1] == '/');
                }
            }
            lemma_last_slash_of(d, name);
        }
    }
    lemma_remerge_archives(out, known, Map::empty());
}

proof fn lemma_merge_archives(
    archives: Seq<(Seq<Seq<char>>, Seq<Seq<char>>)>,
    known: Map<Seq<char>, Seq<char>>,
)
    requires
        spellings_ok(known),
    ensures
        ({
            let (out, k) = merge_archives(archives, known);
            &&& spellings_ok(k)
            &&& extends(known, k)
            &&& out.len() == archives.len()
            &&& forall|a: int|
                0 <= a < archives.len() ==> (#[trigger] out[a]).0.len() == archives[a].0.len()
                    && out[a].1.len() == archives[a].1.len()
            &&& forall|a: int, i: int|
                0 <= a < out.len() && 0 <= i < out[a].0.len() ==> recorded(k, #[trigger] out[a].0[i])
            &&& forall|a: int, i: int|
                0 <= a < out.len() && 0 <= i < out[a].1.len() ==> merged_file(
                    k,
                    archives[a].1[i],
                    #[trigger] out[a].1[i],
                )
        }),
    decreases archives.len(),
{
    if archives.len() > 0 {
        lemma_merge_archives(archives.drop_last(), known);
        let (done, k) = merge_archives(archives.drop_last(), known);
        let last = archives.last();
        lemma_merge_dirs(last.0, k);
        let (dirs, k2) = merge_dirs(last.0, k);
        lemma_merge_files(last.1, k2);
        let (files, k3) = merge_files(last.1, k2);
        let out = done.push((dirs, files));
        assert forall|a: int, i: int| 0 <= a < out.len() && 0 <= i < out[a].0.len() implies recorded(
            k3,
            #[trigger] out[a].0[i],
        ) by {
            if a < archives.len() - 1 {
                assert(out[a] == done[a]);
                lemma_extends_recorded(k, k3, done[a].0[i]);
            } else {
                lemma_extends_recorded(k2, k3, dirs[i]);
            }
        }
        assert forall|a: int, i: int| 0 <= a < out.len() && 0 <= i < out[a].1.len() implies merged_file(
            k3,
            archives[a].1[i],
            #[trigger] out[a].1[i],
        ) by {
            if a < archives.len() - 1 {
                assert(out[a] == done[a]);
                assert(archives[a] == archives.drop_last()[a]);
                assert(merged_file(k, archives.drop_last()[a].1[i], done[a].1[i]));
                if let Some(j) = last_slash(archives[a].1[i]) {
                    let p = choose|p: Seq<char>|
                        recorded(k, p) && extforms_spelled(p) && done[a].1[i] == p + seq!['/']
                            + archives[a].1[i].skip(j + 1);
                    lemma_extends_recorded(k, k3, p);
                }
            }
        }
        assert forall|a: int| 0 <= a < archives.len() implies (#[trigger] out[a]).0.len()
            == archives[a].0.len() && out[a].1.len() == archives[a].1.len() by {
            if a < archives.len() - 1 {
                assert(out[a] == done[a]);
                assert(archives[a] == archives.drop_last()[a]);
            }
        }
    }
}

// ---------------------------------------------------------------------------
// The output map of a run over several archives

/// The files and directories that a run will write, planned before any is.
pub struct OutputMap {
    /// The files: the lower-cased text of each path, and the path.
    pub files: Vec<(Vec<char>, PathBuf)>,
    /// The directories that the files need, in the order planned.
    pub directories: Vec<PathBuf>,
}

/// The key under which a path is planned: its text, lower-cased.
pub open spec fn path_key(p: PathBuf) -> Seq<char> {
    unicode_lowercase(lossy_text(p))
}

/// Whether a planned file has the key of `p`.
pub open spec fn is_planned_file(files: Seq<(Vec<char>, PathBuf)>, p: PathBuf) -> bool {
    exists|i: int| 0 <= i < files.len() && #[trigger] files[i].0@ == path_key(p)
}

/// The first of `paths` from `from` on that is a planned file.
pub open spec fn first_file_in(files: Seq<(Vec<char>, PathBuf)>, paths: Seq<PathBuf>, from: int) -> Option<
    PathBuf,
>
    decreases paths.len() - from,
{
    if from < 0 || from >= paths.len() {
        None
    } else if is_planned_file(files, paths[from]) {
        Some(paths[from])
    } else {
        first_file_in(files, paths, from + 1)
    }
}

/// The first directory, or ancestor of one, from the directory `from` on,
/// that is a planned file.
pub open spec fn first_conflict(
    files: Seq<(Vec<char>, PathBuf)>,
    dirs: Seq<PathBuf>,
    from: int,
) -> Option<PathBuf>
    decreases dirs.len() - from,
{
    if from < 0 || from >= dirs.len() {
        None
    } else {
        match first_file_in(files, ancestors_of(dirs[from]), 0) {
            Some(a) => Some(a),
            None => first_conflict(files, dirs, from + 1),
        }
    }
}

proof fn lemma_first_file_in(files: Seq<(Vec<char>, PathBuf)>, paths: Seq<PathBuf>, from: int)
    requires
        0 <= from,
    ensures
        first_file_in(files, paths, from) is None <==> forall|j: int|
            from <= j < paths.len() ==> !is_planned_file(files, #[trigger] paths[j]),
        first_file_in(files, paths, from) matches Some(a) ==> is_planned_file(files, a) && exists|j: int|
            from <= j < paths.len() && #[trigger] paths[j] == a,
    decreases paths.len() - from,
{
    if from < paths.len() {
        lemma_first_file_in(files, paths, from + 1);
        if !is_planned_file(files, paths[from]) {
            assert forall|j: int| from <= j < paths.len() && (forall|k: int|
                from + 1 <= k < paths.len() ==> !is_planned_file(files, #[trigger] paths[k])) implies
                !is_planned_file(files, #[trigger] paths[j]) by {
                if j > from {
                    assert(!is_planned_file(files, paths[j]));
                }
            }
        }
    }
}

/// The plan's check finds every conflict, ancestors included: no
/// directory is refused exactly where no planned directory, nor any
/// ancestor of one, has the key of a planned file; a directory that is
/// refused is a planned file and an ancestor of a planned directory.
pub proof fn lemma_conflicts_found(files: Seq<(Vec<char>, PathBuf)>, dirs: Seq<PathBuf>, from: int)
    requires
        0 <= from,
    ensures
        first_conflict(files, dirs, from) is None <==> forall|d: int, j: int|
            from <= d < dirs.len() && 0 <= j < ancestors_of(dirs[d]).len() ==> !is_planned_file(
                files,
                #[trigger] ancestors_of(dirs[d])[j],
            ),
        first_conflict(files, dirs, from) matches Some(a) ==> is_planned_file(files, a) && exists|
            d: int,
            j: int,
        |
            from <= d < dirs.len() && 0 <= j < ancestors_of(dirs[d]).len() && #[trigger] ancestors_of(
                dirs[d],
            )[j] == a,
    decreases dirs.len() - from,
{
    if from < dirs.len() {
        lemma_conflicts_found(files, dirs, from + 1);
        let list = ancestors_of(dirs[from]);
        lemma_first_file_in(files, list, 0);
        match first_file_in(files, list, 0) {
            Some(a) => {
                let j = choose|j: int| 0 <= j < list.len() && #[trigger] list[j] == a;
                assert(ancestors_of(dirs[from])[j] == a);
            },
            None => {
                if first_conflict(files, dirs, from + 1) is None {
                    assert forall|d: int, j: int|
                        from <= d < dirs.len() && 0 <= j < ancestors_of(dirs[d]).len() implies !is_planned_file(
                        files,
                        #[trigger] ancestors_of(dirs[d])[j],
                    ) by {
                        if d == from {
                            assert(list[j] == ancestors_of(dirs[d])[j]);
                        }
                    }
                }
                if let Some(a) = first_conflict(files, dirs, from + 1) {
                    let (d, j) = choose|d: int, j: int|
                        from + 1 <= d < dirs.len() && 0 <= j < ancestors_of(dirs[d]).len()
                            && #[trigger] ancestors_of(dirs[d])[j] == a;
                    assert(is_planned_file(files, ancestors_of(dirs[d])[j]));
                }
            },
        }
    }
}

/// The joined paths of `dirs` under `root`.
pub open spec fn joined_all(root: PathBuf, dirs: Seq<String>) -> Seq<PathBuf> {
    dirs.map_values(|d: String| path_joined(root, d@))
}

impl OutputMap {
    /// Every file is planned under the key of its path, and no key twice.
    pub open spec fn wf(self) -> bool {
        &&& forall|i: int| 0 <= i < self.files@.len() ==> (#[trigger] self.files@[i]).0@ == path_key(self.files@[i].1)
        &&& forall|i: int, j: int|
            0 <= i < j < self.files@.len() ==> (#[trigger] self.files@[i]).0@ != (#[trigger] self.files@[j]).0@
    }

    /// A plan with nothing in it.
    pub fn new() -> (m: OutputMap)
        ensures
            m.wf(),
            m.files@.len() == 0,
            m.directories@.len() == 0,
    {
        OutputMap { files: Vec::new(), directories: Vec::new() }
    }

    /// Plans the output directory `root` of `archive` and the archive's
    /// directories under it.
    #[verifier::loop_isolation(false)]
    pub fn add_root(&mut self, root: &PathBuf, archive: &Archive)
        ensures
            final(self).files == old(self).files,
            final(self).directories@ == old(self).directories@ + seq![*root] + joined_all(
                *root,
                archive.directories@,
            ),
    {
        let ghost before = self.directories@;
        self.directories.push(copy_root(root));
        let mut i: usize = 0;
        while i < archive.directories.len()
            invariant
                i <= archive.directories@.len(),
                self.files == old(self).files,
                self.directories@ == before + seq![*root] + joined_all(
                    *root,
                    archive.directories@.take(i as int),
                ),
            decreases archive.directories@.len() - i,
        {
            self.directories.push(join(root, archive.directories[i].as_str()));
            i = i + 1;
            assert(joined_all(*root, archive.directories@.take(i as int)) =~= joined_all(
                *root,
                archive.directories@.take(i - 1),
            ).push(path_joined(*root, archive.directories@[i - 1]@)));
        }
        assert(archive.directories@.take(i as int) =~= archive.directories@);
    }

    /// Plans the file `path`: a file with the same path, case ignored, is
    /// refused; else its parent directory is planned too.
    #[verifier::loop_isolation(false)]
    pub fn add_file(&mut self, path: PathBuf) -> (r: Result<(), Error>)
        requires
            old(self).wf(),
        ensures
            final(self).wf(),
            is_planned_file(old(self).files@, path) ==> {
                let i = choose|i: int|
                    0 <= i < old(self).files@.len() && #[trigger] old(self).files@[i].0@ == path_key(path);
                &&& r == Err::<(), Error>(Error::ConflictingOutputPaths(old(self).files@[i].1, path))
                &&& *final(self) == *old(self)
            },
            !is_planned_file(old(self).files@, path) ==> {
                &&& r is Ok
                &&& final(self).files@.len() == old(self).files@.len() + 1
                &&& final(self).files@.drop_last() == old(self).files@
                &&& final(self).files@.last().0@ == path_key(path)
                &&& final(self).files@.last().1 == path
                &&& final(self).directories@ == match parent_of(path) {
                    Some(p) => old(self).directories@.push(p),
                    None => old(self).directories@,
                }
            },
    {
        let lower = lowercase(text(&path).as_str());
        let key = chars_of(lower.as_str());
        let mut i: usize = 0;
        while i < self.files.len()
            invariant
                i <= self.files@.len(),
                key@ == path_key(path),
                forall|k: int| 0 <= k < i ==> (#[trigger] self.files@[k]).0@ != key@,
            decreases self.files@.len() - i,
        {
            if same_chars(self.files[i].0.as_slice(), key.as_slice()) {
                proof {
                    let c = choose|c: int|
                        0 <= c < self.files@.len() && #[trigger] self.files@[c].0@ == path_key(path);
                    if c != i {
                        if c < i {
                            assert(self.files@[c].0@ != self.files@[i as int].0@);
                        } else {
                            assert(self.files@[i as int].0@ != self.files@[c].0@);
                        }
                    }
                }
                return Err(Error::ConflictingOutputPaths(copy_root(&self.files[i].1), path));
            }
            i = i + 1;
        }
        let up = parent(&path);
        self.files.push((key, path));
        match up {
            Some(p) => self.directories.push(p),
            None => {},
        }
        assert(self.files@.drop_last() =~= old(self).files@);
        Ok(())
    }

    /// Refuses a plan in which a file's path, case ignored, is a directory
    /// that the plan needs or an ancestor of one: the first such, taking
    /// the directories in order and each one's ancestors from itself up.
    #[verifier::loop_isolation(false)]
    pub fn check_directories(&self) -> (r: Result<(), Error>)
        ensures
            match first_conflict(self.files@, self.directories@, 0) {
                None => r is Ok,
                Some(a) => r == Err::<(), Error>(Error::FileDirectoryConflict(a)),
            },
            r is Ok <==> forall|d: int, j: int|
                0 <= d < self.directories@.len() && 0 <= j < ancestors_of(self.directories@[d]).len()
                    ==> !is_planned_file(self.files@, #[trigger] ancestors_of(self.directories@[d])[j]),
            r matches Err(Error::FileDirectoryConflict(a)) ==> is_planned_file(self.files@, a) && exists|
                d: int,
                j: int,
            |
                0 <= d < self.directories@.len() && 0 <= j < ancestors_of(self.directories@[d]).len()
                    && #[trigger] ancestors_of(self.directories@[d])[j] == a,
    {
        proof {
            lemma_conflicts_found(self.files@, self.directories@, 0);
        }
        let mut d: usize = 0;
        while d < self.directories.len()
            invariant
                d <= self.directories@.len(),
                first_conflict(self.files@, self.directories@, 0) == first_conflict(
                    self.files@,
                    self.directories@,
                    d as int,
                ),
            decreases self.directories@.len() - d,
        {
            let list = ancestors(&self.directories[d]);
            let mut k: usize = 0;
            while k < list.len()
                invariant
                    k <= list@.len(),
                    list@ == ancestors_of(self.directories@[d as int]),
                    first_file_in(self.files@, list@, 0) == first_file_in(self.files@, list@, k as int),
                decreases list@.len() - k,
            {
                if self.planned(&list[k]) {
                    return Err(Error::FileDirectoryConflict(copy_root(&list[k])));
                }
                k = k + 1;
            }
            d = d + 1;
        }
        Ok(())
    }

    /// Whether a file is planned with the key of `p`.
    fn planned(&self, p: &PathBuf) -> (b: bool)
        ensures
            b == is_planned_file(self.files@, *p),
    {
        let lower = lowercase(text(p).as_str());
        let key = chars_of(lower.as_str());
        let mut i: usize = 0;
        while i < self.files.len()
            invariant
                i <= self.files@.len(),
                key@ == path_key(*p),
                forall|k: int| 0 <= k < i ==> (#[trigger] self.files@[k]).0@ != key@,
            decreases self.files@.len() - i,
        {
            if same_chars(self.files[i].0.as_slice(), key.as_slice()) {
                return true;
            }
            i = i + 1;
        }
        false
    }
}

/// Where an entry of an archive is written under `root`.
pub fn target(root: &PathBuf, entry: &Entry) -> (r: PathBuf)
    ensures
        r == path_joined(*root, entry.path@),
{
    join(root, entry.path.as_str())
}

/// What is found at an output path, symbolic links not followed.
#[derive(Clone, Copy, Debug, PartialEq, Eq, Structural)]
pub enum Existing {
    Missing,
    Directory,
    RegularFile,
    /// A symbolic link or another kind of file.
    Other,
}

/// Checks a directory on the way to the output: it must be a real
/// directory, or missing; whether it is missing, and so to be created.
pub fn directory_check(path: PathBuf, existing: Existing) -> (r: Result<bool, Error>)
    ensures
        r == match existing {
            Existing::Missing => Ok::<bool, Error>(true),
            Existing::Directory => Ok::<bool, Error>(false),
            _ => Err::<bool, Error>(Error::NotADirectory(path)),
        },
{
    match existing {
        Existing::Missing => Ok(true),
        Existing::Directory => Ok(false),
        _ => Err(Error::NotADirectory(path)),
    }
}

/// Checks an output file's path: it must be missing, or a regular file
/// where replacing is allowed.
pub fn target_check(path: PathBuf, existing: Existing, overwrite: bool) -> (r: Result<(), Error>)
    ensures
        r == (if existing == Existing::Missing || (existing == Existing::RegularFile && overwrite) {
            Ok::<(), Error>(())
        } else {
            Err::<(), Error>(Error::OutputExists(path))
        }),
{
    if existing == Existing::Missing || (existing == Existing::RegularFile && overwrite) {
        Ok(())
    } else {
        Err(Error::OutputExists(path))
    }
}

} // verus!
