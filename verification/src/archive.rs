//! InstallShield 3.x archives: file-name encodings, safe paths, catalog
//! entries, the catalog of a volume, the map of a multi-volume archive, and
//! where an entry's compressed bytes lie in it.

use crate::discovery::{all_digits, copy_path, decimal, digits_only, opt_view, parse_decimal, FileName};
use crate::error::{refuses, Error, Refusal};
use crate::explode::{explode, flushed, inflate, DclError, Inflated};
use crate::output::lemma_components_of_part;
use crate::text::{
    ascii_lowercase, ascii_upper, chars_equal, chars_of, eq_ignore_ascii_case, lowercase,
    push_char, string_of, to_ascii_upper, unicode_lowercase, utf8_string,
};
use std::path::PathBuf;
use vstd::prelude::*;
use vstd::utf8::{decode_utf8, valid_utf8};

verus! {

// ---------------------------------------------------------------------------
// File-name encodings

/// How the names in a catalog are encoded.
#[derive(Clone, Copy, Debug, PartialEq, Eq)]
pub enum Encoding {
    Windows1251,
    Cp437,
    Utf8,
}

/// The encoding an option value names, if any.
pub open spec fn encoding_named(name: Seq<char>) -> Option<Encoding> {
    if name == "cp1251"@ || name == "windows-1251"@ {
        Some(Encoding::Windows1251)
    } else if name == "cp437"@ {
        Some(Encoding::Cp437)
    } else if name == "utf-8"@ || name == "utf8"@ {
        Some(Encoding::Utf8)
    } else {
        None
    }
}

/// The characters of bytes 0x80 to 0xFF in Windows code page 1251;
/// U+FFFD marks the one undefined byte.
pub open spec fn cp1251_high() -> Seq<char> {
    seq![
        '\u{402}', '\u{403}', '\u{201a}', '\u{453}', '\u{201e}', '\u{2026}', '\u{2020}', '\u{2021}',
        '\u{20ac}', '\u{2030}', '\u{409}', '\u{2039}', '\u{40a}', '\u{40c}', '\u{40b}', '\u{40f}',
        '\u{452}', '\u{2018}', '\u{2019}', '\u{201c}', '\u{201d}', '\u{2022}', '\u{2013}', '\u{2014}',
        '\u{fffd}', '\u{2122}', '\u{459}', '\u{203a}', '\u{45a}', '\u{45c}', '\u{45b}', '\u{45f}',
        '\u{a0}', '\u{40e}', '\u{45e}', '\u{408}', '\u{a4}', '\u{490}', '\u{a6}', '\u{a7}',
        '\u{401}', '\u{a9}', '\u{404}', '\u{ab}', '\u{ac}', '\u{ad}', '\u{ae}', '\u{407}',
        '\u{b0}', '\u{b1}', '\u{406}', '\u{456}', '\u{491}', '\u{b5}', '\u{b6}', '\u{b7}',
        '\u{451}', '\u{2116}', '\u{454}', '\u{bb}', '\u{458}', '\u{405}', '\u{455}', '\u{457}',
        '\u{410}', '\u{411}', '\u{412}', '\u{413}', '\u{414}', '\u{415}', '\u{416}', '\u{417}',
        '\u{418}', '\u{419}', '\u{41a}', '\u{41b}', '\u{41c}', '\u{41d}', '\u{41e}', '\u{41f}',
        '\u{420}', '\u{421}', '\u{422}', '\u{423}', '\u{424}', '\u{425}', '\u{426}', '\u{427}',
        '\u{428}', '\u{429}', '\u{42a}', '\u{42b}', '\u{42c}', '\u{42d}', '\u{42e}', '\u{42f}',
        '\u{430}', '\u{431}', '\u{432}', '\u{433}', '\u{434}', '\u{435}', '\u{436}', '\u{437}',
        '\u{438}', '\u{439}', '\u{43a}', '\u{43b}', '\u{43c}', '\u{43d}', '\u{43e}', '\u{43f}',
        '\u{440}', '\u{441}', '\u{442}', '\u{443}', '\u{444}', '\u{445}', '\u{446}', '\u{447}',
        '\u{448}', '\u{449}', '\u{44a}', '\u{44b}', '\u{44c}', '\u{44d}', '\u{44e}', '\u{44f}',
    ]
}

/// The characters of bytes 0x80 to 0xFF in DOS code page 437.
pub open spec fn cp437_high() -> Seq<char> {
    seq![
        '\u{c7}', '\u{fc}', '\u{e9}', '\u{e2}', '\u{e4}', '\u{e0}', '\u{e5}', '\u{e7}',
        '\u{ea}', '\u{eb}', '\u{e8}', '\u{ef}', '\u{ee}', '\u{ec}', '\u{c4}', '\u{c5}',
        '\u{c9}', '\u{e6}', '\u{c6}', '\u{f4}', '\u{f6}', '\u{f2}', '\u{fb}', '\u{f9}',
        '\u{ff}', '\u{d6}', '\u{dc}', '\u{a2}', '\u{a3}', '\u{a5}', '\u{20a7}', '\u{192}',
        '\u{e1}', '\u{ed}', '\u{f3}', '\u{fa}', '\u{f1}', '\u{d1}', '\u{aa}', '\u{ba}',
        '\u{bf}', '\u{2310}', '\u{ac}', '\u{bd}', '\u{bc}', '\u{a1}', '\u{ab}', '\u{bb}',
        '\u{2591}', '\u{2592}', '\u{2593}', '\u{2502}', '\u{2524}', '\u{2561}', '\u{2562}', '\u{2556}',
        '\u{2555}', '\u{2563}', '\u{2551}', '\u{2557}', '\u{255d}', '\u{255c}', '\u{255b}', '\u{2510}',
        '\u{2514}', '\u{2534}', '\u{252c}', '\u{251c}', '\u{2500}', '\u{253c}', '\u{255e}', '\u{255f}',
        '\u{255a}', '\u{2554}', '\u{2569}', '\u{2566}', '\u{2560}', '\u{2550}', '\u{256c}', '\u{2567}',
        '\u{2568}', '\u{2564}', '\u{2565}', '\u{2559}', '\u{2558}', '\u{2552}', '\u{2553}', '\u{256b}',
        '\u{256a}', '\u{2518}', '\u{250c}', '\u{2588}', '\u{2584}', '\u{258c}', '\u{2590}', '\u{2580}',
        '\u{3b1}', '\u{df}', '\u{393}', '\u{3c0}', '\u{3a3}', '\u{3c3}', '\u{b5}', '\u{3c4}',
        '\u{3a6}', '\u{398}', '\u{3a9}', '\u{3b4}', '\u{221e}', '\u{3c6}', '\u{3b5}', '\u{2229}',
        '\u{2261}', '\u{b1}', '\u{2265}', '\u{2264}', '\u{2320}', '\u{2321}', '\u{f7}', '\u{2248}',
        '\u{b0}', '\u{2219}', '\u{b7}', '\u{221a}', '\u{207f}', '\u{b2}', '\u{25a0}', '\u{a0}',
    ]
}

/// The character a single-byte code page gives `b`: ASCII below 0x80,
/// the table above.
pub open spec fn single_byte_char(high: Seq<char>, b: u8) -> char {
    if b < 128 {
        b as char
    } else {
        high[b - 128]
    }
}

impl Encoding {
    /// The upper half of a single-byte code page.
    pub open spec fn high_half(self) -> Seq<char> {
        match self {
            Encoding::Windows1251 => cp1251_high(),
            _ => cp437_high(),
        }
    }

    /// What the name `bytes` reads as in this encoding.
    pub open spec fn decoded(self, bytes: Seq<u8>) -> Result<Seq<char>, Error> {
        match self {
            Encoding::Utf8 => if valid_utf8(bytes) {
                Ok(decode_utf8(bytes))
            } else {
                Err(Error::InvalidUtf8Filename)
            },
            _ => if exists|i: int|
                0 <= i < bytes.len() && single_byte_char(self.high_half(), #[trigger] bytes[i])
                    == '\u{fffd}' {
                Err(Error::UndefinedFilenameByte)
            } else {
                Ok(bytes.map_values(|b: u8| single_byte_char(self.high_half(), b)))
            },
        }
    }

    /// Parses an encoding option: `cp1251` or `windows-1251`, `cp437`,
    /// `utf-8` or `utf8`.
    pub fn parse(name: &str) -> (r: Result<Encoding, Error>)
        ensures
            match encoding_named(name@) {
                Some(e) => r == Ok::<Encoding, Error>(e),
                None => r matches Err(Error::UnsupportedEncoding(n)) && n@ == name@,
            },
    {
        let chars = chars_of(name);
        if chars_equal(chars.as_slice(), "cp1251") || chars_equal(chars.as_slice(), "windows-1251") {
            Ok(Encoding::Windows1251)
        } else if chars_equal(chars.as_slice(), "cp437") {
            Ok(Encoding::Cp437)
        } else if chars_equal(chars.as_slice(), "utf-8") || chars_equal(chars.as_slice(), "utf8") {
            Ok(Encoding::Utf8)
        } else {
            Err(Error::UnsupportedEncoding(string_of(chars.as_slice())))
        }
    }

    fn high_table(self) -> (t: Vec<char>)
        requires
            self != Encoding::Utf8,
        ensures
            t@ == self.high_half(),
    {
        match self {
            Encoding::Windows1251 => vec![
        '\u{402}', '\u{403}', '\u{201a}', '\u{453}', '\u{201e}', '\u{2026}', '\u{2020}', '\u{2021}',
        '\u{20ac}', '\u{2030}', '\u{409}', '\u{2039}', '\u{40a}', '\u{40c}', '\u{40b}', '\u{40f}',
        '\u{452}', '\u{2018}', '\u{2019}', '\u{201c}', '\u{201d}', '\u{2022}', '\u{2013}', '\u{2014}',
        '\u{fffd}', '\u{2122}', '\u{459}', '\u{203a}', '\u{45a}', '\u{45c}', '\u{45b}', '\u{45f}',
        '\u{a0}', '\u{40e}', '\u{45e}', '\u{408}', '\u{a4}', '\u{490}', '\u{a6}', '\u{a7}',
        '\u{401}', '\u{a9}', '\u{404}', '\u{ab}', '\u{ac}', '\u{ad}', '\u{ae}', '\u{407}',
        '\u{b0}', '\u{b1}', '\u{406}', '\u{456}', '\u{491}', '\u{b5}', '\u{b6}', '\u{b7}',
        '\u{451}', '\u{2116}', '\u{454}', '\u{bb}', '\u{458}', '\u{405}', '\u{455}', '\u{457}',
        '\u{410}', '\u{411}', '\u{412}', '\u{413}', '\u{414}', '\u{415}', '\u{416}', '\u{417}',
        '\u{418}', '\u{419}', '\u{41a}', '\u{41b}', '\u{41c}', '\u{41d}', '\u{41e}', '\u{41f}',
        '\u{420}', '\u{421}', '\u{422}', '\u{423}', '\u{424}', '\u{425}', '\u{426}', '\u{427}',
        '\u{428}', '\u{429}', '\u{42a}', '\u{42b}', '\u{42c}', '\u{42d}', '\u{42e}', '\u{42f}',
        '\u{430}', '\u{431}', '\u{432}', '\u{433}', '\u{434}', '\u{435}', '\u{436}', '\u{437}',
        '\u{438}', '\u{439}', '\u{43a}', '\u{43b}', '\u{43c}', '\u{43d}', '\u{43e}', '\u{43f}',
        '\u{440}', '\u{441}', '\u{442}', '\u{443}', '\u{444}', '\u{445}', '\u{446}', '\u{447}',
        '\u{448}', '\u{449}', '\u{44a}', '\u{44b}', '\u{44c}', '\u{44d}', '\u{44e}', '\u{44f}',
            ],
            _ => vec![
        '\u{c7}', '\u{fc}', '\u{e9}', '\u{e2}', '\u{e4}', '\u{e0}', '\u{e5}', '\u{e7}',
        '\u{ea}', '\u{eb}', '\u{e8}', '\u{ef}', '\u{ee}', '\u{ec}', '\u{c4}', '\u{c5}',
        '\u{c9}', '\u{e6}', '\u{c6}', '\u{f4}', '\u{f6}', '\u{f2}', '\u{fb}', '\u{f9}',
        '\u{ff}', '\u{d6}', '\u{dc}', '\u{a2}', '\u{a3}', '\u{a5}', '\u{20a7}', '\u{192}',
        '\u{e1}', '\u{ed}', '\u{f3}', '\u{fa}', '\u{f1}', '\u{d1}', '\u{aa}', '\u{ba}',
        '\u{bf}', '\u{2310}', '\u{ac}', '\u{bd}', '\u{bc}', '\u{a1}', '\u{ab}', '\u{bb}',
        '\u{2591}', '\u{2592}', '\u{2593}', '\u{2502}', '\u{2524}', '\u{2561}', '\u{2562}', '\u{2556}',
        '\u{2555}', '\u{2563}', '\u{2551}', '\u{2557}', '\u{255d}', '\u{255c}', '\u{255b}', '\u{2510}',
        '\u{2514}', '\u{2534}', '\u{252c}', '\u{251c}', '\u{2500}', '\u{253c}', '\u{255e}', '\u{255f}',
        '\u{255a}', '\u{2554}', '\u{2569}', '\u{2566}', '\u{2560}', '\u{2550}', '\u{256c}', '\u{2567}',
        '\u{2568}', '\u{2564}', '\u{2565}', '\u{2559}', '\u{2558}', '\u{2552}', '\u{2553}', '\u{256b}',
        '\u{256a}', '\u{2518}', '\u{250c}', '\u{2588}', '\u{2584}', '\u{258c}', '\u{2590}', '\u{2580}',
        '\u{3b1}', '\u{df}', '\u{393}', '\u{3c0}', '\u{3a3}', '\u{3c3}', '\u{b5}', '\u{3c4}',
        '\u{3a6}', '\u{398}', '\u{3a9}', '\u{3b4}', '\u{221e}', '\u{3c6}', '\u{3b5}', '\u{2229}',
        '\u{2261}', '\u{b1}', '\u{2265}', '\u{2264}', '\u{2320}', '\u{2321}', '\u{f7}', '\u{2248}',
        '\u{b0}', '\u{2219}', '\u{b7}', '\u{221a}', '\u{207f}', '\u{b2}', '\u{25a0}', '\u{a0}',
            ],
        }
    }

    /// Decodes a name from the catalog.
    pub fn decode(self, bytes: &[u8]) -> (r: Result<String, Error>)
        ensures
            match self.decoded(bytes@) {
                Ok(chars) => r matches Ok(s) && s@ == chars,
                Err(e) => r == Err::<String, Error>(e),
            },
    {
        if let Encoding::Utf8 = self {
            return match utf8_string(bytes) {
                Some(s) => Ok(s),
                None => Err(Error::InvalidUtf8Filename),
            };
        }
        let table = self.high_table();
        let mut chars: Vec<char> = Vec::new();
        let mut i: usize = 0;
        while i < bytes.len()
            invariant
                self != Encoding::Utf8,
                table@ == self.high_half(),
                table@.len() == 128,
                i <= bytes@.len(),
                chars@ == bytes@.take(i as int).map_values(|b: u8| single_byte_char(self.high_half(), b)),
                forall|k: int| 0 <= k < i ==> single_byte_char(self.high_half(), #[trigger] bytes@[k]) != '\u{fffd}',
            decreases bytes@.len() - i,
        {
            let b = bytes[i];
            let c = if b < 128 {
                b as char
            } else {
                table[(b - 128) as usize]
            };
            if c == '\u{fffd}' {
                return Err(Error::UndefinedFilenameByte);
            }
            chars.push(c);
            i = i + 1;
            assert(chars@ =~= bytes@.take(i as int).map_values(|b: u8| single_byte_char(self.high_half(), b)));
        }
        assert(bytes@.take(i as int) =~= bytes@);
        Ok(string_of(chars.as_slice()))
    }
}

// ---------------------------------------------------------------------------
// Safe paths

/// `s` with every backslash made a slash.
pub open spec fn with_slashes(s: Seq<char>) -> Seq<char> {
    s.map_values(|c: char| if c == '\\' { '/' } else { c })
}

/// The components of a path between its slashes; a path without slashes
/// is one component, the empty path one empty component.
pub open spec fn components(s: Seq<char>) -> Seq<Seq<char>>
    decreases s.len(),
{
    if s.len() == 0 {
        seq![Seq::empty()]
    } else {
        let parts = components(s.drop_last());
        if s.last() == '/' {
            parts.push(Seq::empty())
        } else {
            parts.update(parts.len() - 1, parts.last().push(s.last()))
        }
    }
}

/// Unicode control characters (general category Cc).
pub open spec fn is_control(c: char) -> bool {
    c <= '\u{1f}' || ('\u{7f}' <= c && c <= '\u{9f}')
}

/// Characters that no component may hold.
pub open spec fn forbidden_char(c: char) -> bool {
    is_control(c) || c == ':' || c == '<' || c == '>' || c == '"' || c == '|' || c == '?' || c == '*'
}

/// The part of a component before its first dot.
pub open spec fn stem(c: Seq<char>) -> Seq<char>
    decreases c.len(),
{
    if c.len() == 0 {
        c
    } else if c[0] == '.' {
        Seq::empty()
    } else {
        seq![c[0]] + stem(c.drop_first())
    }
}

/// Whether an upper-cased stem names a DOS device: CON, PRN, AUX, NUL,
/// COM1 to COM9 or LPT1 to LPT9.
pub open spec fn reserved_stem(s: Seq<char>) -> bool {
    ||| s == seq!['C', 'O', 'N']
    ||| s == seq!['P', 'R', 'N']
    ||| s == seq!['A', 'U', 'X']
    ||| s == seq!['N', 'U', 'L']
    ||| s.len() == 4 && (s.take(3) == seq!['C', 'O', 'M'] || s.take(3) == seq!['L', 'P', 'T'])
        && '1' <= s[3] <= '9'
}

/// The digits 1 to 9.
pub open spec fn nonzero_digits() -> Seq<char> {
    seq!['1', '2', '3', '4', '5', '6', '7', '8', '9']
}

/// The DOS device names: CON, PRN, AUX, NUL, then COM1 to COM9 and LPT1 to
/// LPT9.
pub open spec fn device_names() -> Seq<Seq<char>> {
    seq![seq!['C', 'O', 'N'], seq!['P', 'R', 'N'], seq!['A', 'U', 'X'], seq!['N', 'U', 'L']]
        + Seq::new(9, |k: int| seq!['C', 'O', 'M', nonzero_digits()[k]])
        + Seq::new(9, |k: int| seq!['L', 'P', 'T', nonzero_digits()[k]])
}

/// A stem is a device name exactly when it is one of the listed names,
/// whole: CONFIG, CONSOLE or COM10 are none.
pub proof fn lemma_device_names(s: Seq<char>)
    ensures
        reserved_stem(s) <==> device_names().contains(s),
{
    let list = device_names();
    let d = nonzero_digits();
    assert(list.len() == 22);
    if reserved_stem(s) {
        if s == seq!['C', 'O', 'N'] {
            assert(list[0] == s);
        } else if s == seq!['P', 'R', 'N'] {
            assert(list[1] == s);
        } else if s == seq!['A', 'U', 'X'] {
            assert(list[2] == s);
        } else if s == seq!['N', 'U', 'L'] {
            assert(list[3] == s);
        } else {
            let c = s[3];
            let k: int = if c == '1' { 0 } else if c == '2' { 1 } else if c == '3' { 2 } else if c
                == '4' { 3 } else if c == '5' { 4 } else if c == '6' { 5 } else if c == '7' { 6 } else if c
                == '8' { 7 } else { 8 };
            assert(d[k] == c);
            if s.take(3) == seq!['C', 'O', 'M'] {
                assert(s =~= seq!['C', 'O', 'M', d[k]]) by {
                    assert(s.take(3)[0] == s[0] && s.take(3)[1] == s[1] && s.take(3)[2] == s[2]);
                }
                assert(list[4 + k] == s);
            } else {
                assert(s =~= seq!['L', 'P', 'T', d[k]]) by {
                    assert(s.take(3)[0] == s[0] && s.take(3)[1] == s[1] && s.take(3)[2] == s[2]);
                }
                assert(list[13 + k] == s);
            }
        }
    }
    if list.contains(s) {
        let i = choose|i: int| 0 <= i < list.len() && list[i] == s;
        if 4 <= i < 13 {
            assert(s == seq!['C', 'O', 'M', d[i - 4]]);
            assert(s.take(3) =~= seq!['C', 'O', 'M']);
        } else if 13 <= i {
            assert(s == seq!['L', 'P', 'T', d[i - 13]]);
            assert(s.take(3) =~= seq!['L', 'P', 'T']);
        }
    }
}

/// A name of one component is kept as it is when it is safe but for what
/// its stem might be, and its stem, upper-cased, is none of the device
/// names: so CONFIG.SYS or CONTROL.INI pass.
pub proof fn lemma_plain_component_accepted(c: Seq<char>, allow_empty: bool)
    requires
        c.len() > 0,
        !c.contains('/'),
        !c.contains('\\'),
        c != seq!['.'],
        c != seq!['.', '.'],
        c.last() != '.' && c.last() != ' ',
        forall|i: int| 0 <= i < c.len() ==> !forbidden_char(#[trigger] c[i]),
        !device_names().contains(stem(c).map_values(|x: char| ascii_upper(x))),
    ensures
        safe_path_of(c, allow_empty) == Some(c),
{
    lemma_device_names(stem(c).map_values(|x: char| ascii_upper(x)));
    assert(with_slashes(c) =~= c) by {
        assert forall|i: int| 0 <= i < c.len() implies with_slashes(c)[i] == c[i] by {
            if c[i] == '\\' {
                assert(c.contains('\\'));
            }
        }
    }
    lemma_components_of_part(c);
    assert(components(c)[0] == c);
}

/// Whether one component of an archive path is safe to create: not empty,
/// not `.` or `..`, not ending in a dot or a space, not a DOS device name
/// whatever follows its first dot, and without control characters or any
/// of `:<>"|?*`.
pub open spec fn safe_component(c: Seq<char>) -> bool {
    &&& c.len() > 0
    &&& c != seq!['.']
    &&& c != seq!['.', '.']
    &&& c.last() != '.' && c.last() != ' '
    &&& !reserved_stem(stem(c).map_values(|x: char| ascii_upper(x)))
    &&& forall|i: int| 0 <= i < c.len() ==> !forbidden_char(#[trigger] c[i])
}

/// Whether every component of `path` is safe.
pub open spec fn safe_components(path: Seq<char>) -> bool {
    forall|i: int| 0 <= i < components(path).len() ==> safe_component(#[trigger] components(path)[i])
}

/// The archive path `name` with slashes for backslashes, if it is safe:
/// the empty path only where `allow_empty`.
pub open spec fn safe_path_of(name: Seq<char>, allow_empty: bool) -> Option<Seq<char>> {
    let path = with_slashes(name);
    if (path.len() == 0 && allow_empty) || safe_components(path) {
        Some(path)
    } else {
        None
    }
}

/// A safe path is already normal: it holds no backslash, and making it safe
/// again gives it back unchanged.
pub proof fn lemma_safe_path_normal(name: Seq<char>, allow_empty: bool)
    ensures
        safe_path_of(name, allow_empty) matches Some(path) ==> !path.contains('\\')
            && safe_path_of(path, allow_empty) == Some(path),
{
    if let Some(path) = safe_path_of(name, allow_empty) {
        assert(with_slashes(path) =~= path);
        if path.contains('\\') {
            let k = choose|k: int| 0 <= k < path.len() && path[k] == '\\';
            assert(path[k] == (if name[k] == '\\' { '/' } else { name[k] }));
        }
    }
}

pub proof fn lemma_components_nonempty(s: Seq<char>)
    ensures
        components(s).len() >= 1,
    decreases s.len(),
{
    if s.len() > 0 {
        lemma_components_nonempty(s.drop_last());
    }
}

/// The components of a prefix of a path, but for the last, are components
/// of the path.
proof fn lemma_components_prefix(path: Seq<char>, k: int)
    requires
        0 <= k <= path.len(),
    ensures
        components(path.take(k)).len() <= components(path).len(),
        forall|j: int|
            0 <= j < components(path.take(k)).len() - 1 ==> #[trigger] components(path.take(k))[j]
                == components(path)[j],
        k < path.len() && path[k] == '/' ==> components(path.take(k)).last() == components(
            path,
        )[components(path.take(k)).len() - 1],
    decreases path.len() - k,
{
    lemma_components_nonempty(path.take(k));
    if k < path.len() {
        lemma_components_prefix(path, k + 1);
        let longer = path.take(k + 1);
        assert(longer.drop_last() =~= path.take(k));
        assert(longer.last() == path[k]);
        let before = components(path.take(k));
        let after = components(longer);
        if path[k] == '/' {
            assert(after == before.push(Seq::empty()));
            assert forall|j: int| 0 <= j < before.len() - 1 implies #[trigger] before[j]
                == components(path)[j] by {
                assert(after[j] == before[j]);
            }
            assert(after[before.len() - 1] == before.last());
        } else {
            assert(after == before.update(before.len() - 1, before.last().push(path[k])));
            assert forall|j: int| 0 <= j < before.len() - 1 implies #[trigger] before[j]
                == components(path)[j] by {
                assert(after[j] == before[j]);
            }
        }
    } else {
        assert(path.take(k) =~= path);
    }
}

/// Whether one component is safe.
fn check_component(c: &[char]) -> (ok: bool)
    ensures
        ok == safe_component(c@),
{
    let n = c.len();
    if n == 0 {
        return false;
    }
    if n == 1 && c[0] == '.' {
        assert(c@ =~= seq!['.']);
        return false;
    }
    if n == 2 && c[0] == '.' && c[1] == '.' {
        assert(c@ =~= seq!['.', '.']);
        return false;
    }
    assert(n == 1 ==> c@ != seq!['.'] ==> c[0] != '.');
    if c[n - 1] == '.' || c[n - 1] == ' ' {
        return false;
    }
    // The stem, upper-cased.
    let mut upper: Vec<char> = Vec::new();
    let mut i: usize = 0;
    assert(c@.skip(0) =~= c@);
    assert(c@.take(0) =~= Seq::<char>::empty());
    while i < n && c[i] != '.'
        invariant
            i <= n == c@.len(),
            forall|k: int| 0 <= k < i ==> c@[k] != '.',
            upper@ == c@.take(i as int).map_values(|x: char| ascii_upper(x)),
            stem(c@) == c@.take(i as int) + stem(c@.skip(i as int)),
        decreases n - i,
    {
        assert(c@.skip(i as int).drop_first() =~= c@.skip(i + 1));
        assert(c@.take(i + 1) =~= c@.take(i as int) + seq![c@[i as int]]);
        upper.push(to_ascii_upper(c[i]));
        i = i + 1;
        assert(upper@ =~= c@.take(i as int).map_values(|x: char| ascii_upper(x)));
    }
    assert(stem(c@) =~= c@.take(i as int));
    let reserved = reserved_upper_stem(upper.as_slice());
    if reserved {
        return false;
    }
    let mut j: usize = 0;
    while j < n
        invariant
            j <= n == c@.len(),
            forall|k: int| 0 <= k < j ==> !forbidden_char(#[trigger] c@[k]),
        decreases n - j,
    {
        let x = c[j];
        if x <= '\u{1f}' || ('\u{7f}' <= x && x <= '\u{9f}') || x == ':' || x == '<' || x == '>'
            || x == '"' || x == '|' || x == '?' || x == '*' {
            return false;
        }
        j = j + 1;
    }
    true
}

/// Whether an upper-cased stem names a DOS device.
fn reserved_upper_stem(s: &[char]) -> (r: bool)
    ensures
        r == reserved_stem(s@),
{
    if s.len() == 3 {
        let three = (s[0] == 'C' && s[1] == 'O' && s[2] == 'N') || (s[0] == 'P' && s[1] == 'R'
            && s[2] == 'N') || (s[0] == 'A' && s[1] == 'U' && s[2] == 'X') || (s[0] == 'N' && s[1]
            == 'U' && s[2] == 'L');
        if three {
            assert(s@ =~= seq!['C', 'O', 'N'] || s@ =~= seq!['P', 'R', 'N'] || s@ =~= seq![
                'A',
                'U',
                'X',
            ] || s@ =~= seq!['N', 'U', 'L']);
        } else {
            assert(s@ != seq!['C', 'O', 'N'] && s@ != seq!['P', 'R', 'N'] && s@ != seq![
                'A',
                'U',
                'X',
            ] && s@ != seq!['N', 'U', 'L']) by {
                if s@ == seq!['C', 'O', 'N'] {
                    assert(s@[0] == 'C' && s@[1] == 'O' && s@[2] == 'N');
                }
                if s@ == seq!['P', 'R', 'N'] {
                    assert(s@[0] == 'P' && s@[1] == 'R' && s@[2] == 'N');
                }
                if s@ == seq!['A', 'U', 'X'] {
                    assert(s@[0] == 'A' && s@[1] == 'U' && s@[2] == 'X');
                }
                if s@ == seq!['N', 'U', 'L'] {
                    assert(s@[0] == 'N' && s@[1] == 'U' && s@[2] == 'L');
                }
            }
        }
        three
    } else if s.len() == 4 {
        let com = s[0] == 'C' && s[1] == 'O' && s[2] == 'M';
        let lpt = s[0] == 'L' && s[1] == 'P' && s[2] == 'T';
        assert(com == (s@.take(3) == seq!['C', 'O', 'M'])) by {
            if com {
                assert(s@.take(3) =~= seq!['C', 'O', 'M']);
            }
            if s@.take(3) == seq!['C', 'O', 'M'] {
                assert(s@.take(3)[0] == 'C' && s@.take(3)[1] == 'O' && s@.take(3)[2] == 'M');
            }
        }
        assert(lpt == (s@.take(3) == seq!['L', 'P', 'T'])) by {
            if lpt {
                assert(s@.take(3) =~= seq!['L', 'P', 'T']);
            }
            if s@.take(3) == seq!['L', 'P', 'T'] {
                assert(s@.take(3)[0] == 'L' && s@.take(3)[1] == 'P' && s@.take(3)[2] == 'T');
            }
        }
        (com || lpt) && '1' <= s[3] && s[3] <= '9'
    } else {
        false
    }
}

/// Normalizes a Windows archive path: backslashes become slashes, and the
/// path is refused if it could escape the output directory or name a
/// device. The empty path passes only where `allow_empty`.
pub fn safe_path(name: &str, allow_empty: bool) -> (r: Result<String, Error>)
    ensures
        match safe_path_of(name@, allow_empty) {
            Some(path) => r matches Ok(s) && s@ == path,
            None => r matches Err(Error::UnsafePath(s)) && s@ == with_slashes(name@),
        },
{
    let chars = chars_of(name);
    let mut path: Vec<char> = Vec::new();
    let mut i: usize = 0;
    while i < chars.len()
        invariant
            i <= chars@.len(),
            chars@ == name@,
            path@ == with_slashes(chars@.take(i as int)),
        decreases chars@.len() - i,
    {
        path.push(if chars[i] == '\\' { '/' } else { chars[i] });
        i = i + 1;
        assert(path@ =~= with_slashes(chars@.take(i as int)));
    }
    assert(chars@.take(i as int) =~= chars@);
    if path.len() == 0 && allow_empty {
        return Ok(string_of(path.as_slice()));
    }
    // Walk the components, checking each as it ends.
    let mut current: Vec<char> = Vec::new();
    let mut k: usize = 0;
    while k < path.len()
        invariant
            k <= path@.len(),
            path@ == with_slashes(name@),
            components(path@.take(k as int)).len() >= 1,
            current@ == components(path@.take(k as int)).last(),
            forall|j: int|
                0 <= j < components(path@.take(k as int)).len() - 1 ==> safe_component(
                    #[trigger] components(path@.take(k as int))[j],
                ),
        decreases path@.len() - k,
    {
        proof {
            lemma_components_nonempty(path@.take(k as int));
        }
        assert(path@.take(k + 1).drop_last() =~= path@.take(k as int));
        if path[k] == '/' {
            if !check_component(current.as_slice()) {
                proof {
                    lemma_components_prefix(path@, k as int);
                    let j = components(path@.take(k as int)).len() - 1;
                    assert(!safe_component(components(path@)[j]));
                }
                return Err(Error::UnsafePath(string_of(path.as_slice())));
            }
            current = Vec::new();
        } else {
            current.push(path[k]);
        }
        k = k + 1;
    }
    assert(path@.take(k as int) =~= path@);
    if !check_component(current.as_slice()) {
        assert(!safe_component(components(path@)[components(path@).len() - 1]));
        return Err(Error::UnsafePath(string_of(path.as_slice())));
    }
    Ok(string_of(path.as_slice()))
}

// ---------------------------------------------------------------------------
// Catalog entries

/// A file in an archive.
#[derive(Clone, Debug, PartialEq, Eq)]
pub struct Entry {
    /// The path, components separated by `/`.
    pub path: String,
    /// The size after decompression.
    pub size: u64,
    /// The size of the compressed stream.
    pub packed_size: u64,
    /// The DOS date.
    pub date: u16,
    /// The DOS time.
    pub time: u16,
    /// Where the compressed stream starts in the archive's data.
    pub offset: u64,
}

/// The decimal digit `v`.
pub open spec fn digit(v: int) -> char {
    (48 + v) as char
}

/// `v` in two decimal digits.
pub open spec fn two_digits(v: int) -> Seq<char> {
    seq![digit(v / 10), digit(v % 10)]
}

/// `v` in four decimal digits.
pub open spec fn four_digits(v: int) -> Seq<char> {
    seq![digit(v / 1000), digit(v / 100 % 10), digit(v / 10 % 10), digit(v % 10)]
}

/// A DOS date and time as `YYYY-MM-DD hh:mm:ss`: the year counts from 1980
/// in bits 9 to 15 of the date, the month in bits 5 to 8, the day in bits 0
/// to 4; the hour is in bits 11 to 15 of the time, the minute in bits 5 to
/// 10, and bits 0 to 4 count two-second steps.
pub open spec fn dos_timestamp(date: u16, time: u16) -> Seq<char> {
    let (d, t) = (date as int, time as int);
    four_digits(1980 + d / 512) + seq!['-'] + two_digits(d / 32 % 16) + seq!['-'] + two_digits(
        d % 32,
    ) + seq![' '] + two_digits(t / 2048) + seq![':'] + two_digits(t / 32 % 64) + seq![':']
        + two_digits(t % 32 * 2)
}

/// A DOS timestamp is 19 characters: ASCII digits, with `-`, `-`, a space,
/// `:` and `:` at the places of `YYYY-MM-DD hh:mm:ss`.
pub proof fn lemma_timestamp_shape(date: u16, time: u16)
    ensures
        dos_timestamp(date, time).len() == 19,
        forall|i: int|
            0 <= i < 19 && i != 4 && i != 7 && i != 10 && i != 13 && i != 16 ==> '0'
                <= #[trigger] dos_timestamp(date, time)[i] <= '9',
        dos_timestamp(date, time)[4] == '-' && dos_timestamp(date, time)[7] == '-',
        dos_timestamp(date, time)[10] == ' ',
        dos_timestamp(date, time)[13] == ':' && dos_timestamp(date, time)[16] == ':',
{
    let (d, t) = (date as int, time as int);
    let s = dos_timestamp(date, time);
    assert(0 <= (1980 + d / 512) / 1000 <= 2);
    assert forall|i: int|
        0 <= i < 19 && i != 4 && i != 7 && i != 10 && i != 13 && i != 16 implies '0'
            <= #[trigger] s[i] <= '9' by {
        assert(d / 32 % 16 < 16 && d % 32 < 32 && t / 2048 < 32 && t / 32 % 64 < 64 && t % 32 * 2 < 64);
    }
}

fn push_digit(s: &mut String, v: u32)
    requires
        v < 10,
    ensures
        final(s)@ == old(s)@.push(digit(v as int)),
{
    let c = (48 + v as u8) as char;
    push_char(s, c);
}

fn push_two_digits(s: &mut String, v: u32)
    requires
        v < 100,
    ensures
        final(s)@ == old(s)@ + two_digits(v as int),
{
    push_digit(s, v / 10);
    push_digit(s, v % 10);
    assert(s@ =~= old(s)@ + two_digits(v as int));
}

impl Entry {
    /// The entry's DOS date and time, as `YYYY-MM-DD hh:mm:ss`.
    pub fn timestamp(&self) -> (t: String)
        ensures
            t@ == dos_timestamp(self.date, self.time),
    {
        let date = self.date as u32;
        let time = self.time as u32;
        let year = 1980 + date / 512;
        let mut s = String::new();
        push_digit(&mut s, year / 1000);
        push_digit(&mut s, year / 100 % 10);
        push_digit(&mut s, year / 10 % 10);
        push_digit(&mut s, year % 10);
        push_char(&mut s, '-');
        push_two_digits(&mut s, date / 32 % 16);
        push_char(&mut s, '-');
        push_two_digits(&mut s, date % 32);
        push_char(&mut s, ' ');
        push_two_digits(&mut s, time / 2048);
        push_char(&mut s, ':');
        push_two_digits(&mut s, time / 32 % 64);
        push_char(&mut s, ':');
        push_two_digits(&mut s, time % 32 * 2);
        assert(s@ =~= dos_timestamp(self.date, self.time));
        s
    }
}

/// The little-endian `u16` at `offset`.
pub open spec fn le16(bytes: Seq<u8>, offset: int) -> int {
    bytes[offset] + 256 * bytes[offset + 1]
}

/// The little-endian `u32` at `offset`.
pub open spec fn le32(bytes: Seq<u8>, offset: int) -> int {
    le16(bytes, offset) + 65536 * le16(bytes, offset + 2)
}

fn u16_at(bytes: &[u8], offset: usize) -> (v: u16)
    requires
        offset + 2 <= bytes@.len(),
    ensures
        v == le16(bytes@, offset as int),
{
    bytes[offset] as u16 + 256 * (bytes[offset + 1] as u16)
}

fn u32_at(bytes: &[u8], offset: usize) -> (v: u32)
    requires
        offset + 4 <= bytes@.len(),
    ensures
        v == le32(bytes@, offset as int),
{
    // Its length fits a `usize`.
    let _len = bytes.len();
    let low = u16_at(bytes, offset) as u32;
    let high = u16_at(bytes, offset + 2) as u32;
    assert(65536 * high <= 65536 * 65535) by (nonlinear_arith)
        requires
            high <= 65535,
    ;
    low + 65536 * high
}

// ---------------------------------------------------------------------------
// The catalog of a volume

/// The size of a volume header.
pub open spec fn header_size() -> int {
    255
}

/// The signature that starts every volume.
pub open spec fn signature() -> Seq<u8> {
    seq![0x13u8, 0x5d, 0x65, 0x8c]
}

/// A catalog entry as the specifications see it.
pub struct EntryInfo {
    pub path: Seq<char>,
    pub size: int,
    pub packed_size: int,
    pub date: int,
    pub time: int,
    pub offset: int,
}

impl Entry {
    pub open spec fn info(self) -> EntryInfo {
        EntryInfo {
            path: self.path@,
            size: self.size as int,
            packed_size: self.packed_size as int,
            date: self.date as int,
            time: self.time as int,
            offset: self.offset as int,
        }
    }
}

/// The views of a list of strings.
pub open spec fn string_views(v: Seq<String>) -> Seq<Seq<char>> {
    v.map_values(|s: String| s@)
}

/// File counts as integers.
pub open spec fn int_counts(c: Seq<u16>) -> Seq<int> {
    c.map_values(|x: u16| x as int)
}

/// The views of a list of entries.
pub open spec fn entry_infos(v: Seq<Entry>) -> Seq<EntryInfo> {
    v.map_values(|e: Entry| e.info())
}

/// One directory record at `pos`: a declared file count (u16 at 0), the
/// record length (u16 at 2), the name length (u16 at 4), the name at 6 and
/// a zero byte after it. Gives the directory path, its file count, and the
/// position after the record.
pub open spec fn directory_record(file: Seq<u8>, pos: int, encoding: Encoding) -> Result<
    (Seq<char>, int, int),
    Refusal,
> {
    if pos + 6 > file.len() {
        Err(Refusal::Plain(Error::Truncated))
    } else if le16(file, pos + 2) < 6 {
        Err(Refusal::Plain(Error::RecordShorterThanHeader))
    } else if pos + le16(file, pos + 2) > file.len() {
        Err(Refusal::Plain(Error::Truncated))
    } else {
        let length = le16(file, pos + 2);
        let name_length = le16(file, pos + 4);
        if name_length >= length - 6 || file[pos + 6 + name_length] != 0 {
            Err(Refusal::Plain(Error::InvalidDirectoryName))
        } else {
            match encoding.decoded(file.subrange(pos + 6, pos + 6 + name_length)) {
                Err(e) => Err(Refusal::Plain(e)),
                Ok(name) => match safe_path_of(name, true) {
                    None => Err(Refusal::Unsafe(with_slashes(name))),
                    Some(path) => Ok((path, le16(file, pos), pos + length)),
                },
            }
        }
    }
}

/// The first `n` directory records from `pos`: the directories, their file
/// counts, and the position after them.
pub open spec fn directory_records(file: Seq<u8>, pos: int, n: int, encoding: Encoding) -> Result<
    (Seq<Seq<char>>, Seq<int>, int),
    Refusal,
>
    decreases n,
{
    if n <= 0 {
        Ok((Seq::empty(), Seq::empty(), pos))
    } else {
        match directory_records(file, pos, n - 1, encoding) {
            Err(r) => Err(r),
            Ok((dirs, counts, p)) => match directory_record(file, p, encoding) {
                Err(r) => Err(r),
                Ok((dir, count, q)) => Ok((dirs.push(dir), counts.push(count), q)),
            },
        }
    }
}

proof fn lemma_directory_records_advance(file: Seq<u8>, pos: int, n: int, encoding: Encoding)
    ensures
        directory_records(file, pos, n, encoding) matches Ok((dirs, counts, p)) ==> pos <= p
            && dirs.len() == counts.len() == (if n <= 0 { 0 } else { n }) && forall|i: int|
            0 <= i < counts.len() ==> 0 <= #[trigger] counts[i] < 65536,
    decreases n,
{
    if n > 0 {
        lemma_directory_records_advance(file, pos, n - 1, encoding);
    }
}

proof fn lemma_directory_records_err(file: Seq<u8>, pos: int, k: int, m: int, encoding: Encoding)
    requires
        1 <= k <= m,
    ensures
        directory_records(file, pos, k, encoding) is Err ==> directory_records(file, pos, m, encoding)
            == directory_records(file, pos, k, encoding),
    decreases m - k,
{
    if k < m {
        lemma_directory_records_err(file, pos, k, m - 1, encoding);
    }
}

/// Reads `count` directory records from `pos`.
fn read_directories(file: &[u8], pos: usize, count: u16, encoding: Encoding) -> (r: Result<
    (Vec<String>, Vec<u16>, usize),
    Error,
>)
    requires
        pos <= file@.len(),
    ensures
        match directory_records(file@, pos as int, count as int, encoding) {
            Ok((dirs, counts, p)) => r matches Ok((d, c, q)) && string_views(d@) == dirs
                && int_counts(c@) == counts && q == p,
            Err(refusal) => r matches Err(e) && refuses(e, refusal),
        },
{
    let mut dirs: Vec<String> = Vec::new();
    let mut counts: Vec<u16> = Vec::new();
    let mut p = pos;
    let mut n: u16 = 0;
    assert(string_views(dirs@) =~= Seq::<Seq<char>>::empty());
    assert(int_counts(counts@) =~= Seq::<int>::empty());
    while n < count
        invariant
            n <= count,
            p <= file@.len(),
            directory_records(file@, pos as int, n as int, encoding) == Ok::<
                (Seq<Seq<char>>, Seq<int>, int),
                Refusal,
            >((string_views(dirs@), int_counts(counts@), p as int)),
        decreases count - n,
    {
        proof {
            lemma_directory_records_err(file@, pos as int, n + 1, count as int, encoding);
        }
        let ghost spec_record = directory_record(file@, p as int, encoding);
        if file.len() - p < 6 {
            return Err(Error::Truncated);
        }
        let length = u16_at(file, p + 2) as usize;
        if length < 6 {
            return Err(Error::RecordShorterThanHeader);
        }
        if file.len() - p < length {
            return Err(Error::Truncated);
        }
        let name_length = u16_at(file, p + 4) as usize;
        if name_length >= length - 6 || file[p + 6 + name_length] != 0 {
            return Err(Error::InvalidDirectoryName);
        }
        let name_bytes = slice_range(file, p + 6, p + 6 + name_length);
        let name = match encoding.decode(name_bytes.as_slice()) {
            Ok(name) => name,
            Err(e) => {
                return Err(e);
            },
        };
        let path = match safe_path(name.as_str(), true) {
            Ok(path) => path,
            Err(e) => {
                return Err(e);
            },
        };
        let ghost before_dirs = dirs@;
        let ghost before_counts = counts@;
        dirs.push(path);
        counts.push(u16_at(file, p));
        p = p + length;
        n = n + 1;
        assert(string_views(dirs@) =~= string_views(before_dirs).push(dirs@.last()@));
        assert(int_counts(counts@) =~= before_counts.map_values(|x: u16| x as int).push(
            counts@.last() as int,
        ));
    }
    Ok((dirs, counts, p))
}

/// A copy of `bytes[from..to]`.
fn slice_range(bytes: &[u8], from: usize, to: usize) -> (v: Vec<u8>)
    requires
        from <= to <= bytes@.len(),
    ensures
        v@ == bytes@.subrange(from as int, to as int),
{
    let mut v: Vec<u8> = Vec::new();
    let mut i = from;
    while i < to
        invariant
            from <= i <= to <= bytes@.len(),
            v@ == bytes@.subrange(from as int, i as int),
        decreases to - i,
    {
        v.push(bytes[i]);
        i = i + 1;
        assert(v@ =~= bytes@.subrange(from as int, i as int));
    }
    v
}

/// The path of a file named `name` in the directory `dir`.
pub open spec fn join_path(dir: Seq<char>, name: Seq<char>) -> Seq<char> {
    if dir.len() == 0 {
        name
    } else {
        dir + seq!['/'] + name
    }
}

/// Whether one of `entries` already has `path`, case ignored.
pub open spec fn path_taken(entries: Seq<EntryInfo>, path: Seq<char>) -> bool {
    exists|i: int|
        0 <= i < entries.len() && unicode_lowercase(#[trigger] entries[i].path) == unicode_lowercase(
            path,
        )
}

/// The compressed sizes of `entries`, added up.
pub open spec fn total_packed(entries: Seq<EntryInfo>) -> int
    decreases entries.len(),
{
    if entries.len() == 0 {
        0
    } else {
        total_packed(entries.drop_last()) + entries.last().packed_size
    }
}

/// One file record at `pos`: the directory index (u16 at 1), the size
/// (u32 at 3), the compressed size (u32 at 7), the DOS date and time (u16
/// at 15 and 17), the record length (u16 at 23), the name length (byte 29)
/// and the name at 30. `counts` holds the files each directory still
/// expects, `entries` the files read so far. Gives the entry, the counts
/// left, and the position after the record.
#[verifier::opaque]
pub open spec fn file_record(
    file: Seq<u8>,
    pos: int,
    encoding: Encoding,
    dirs: Seq<Seq<char>>,
    counts: Seq<int>,
    entries: Seq<EntryInfo>,
) -> Result<(EntryInfo, Seq<int>, int), Refusal> {
    if pos + 30 > file.len() {
        Err(Refusal::Plain(Error::Truncated))
    } else if le16(file, pos + 23) < 30 {
        Err(Refusal::Plain(Error::RecordShorterThanHeader))
    } else if pos + le16(file, pos + 23) > file.len() {
        Err(Refusal::Plain(Error::Truncated))
    } else {
        let length = le16(file, pos + 23);
        let index = le16(file, pos + 1);
        let name_length = file[pos + 29] as int;
        if index >= dirs.len() {
            Err(Refusal::Plain(Error::InvalidDirectoryIndex))
        } else if counts[index] == 0 {
            Err(Refusal::Plain(Error::DirectoryCountMismatch))
        } else if name_length == 0 || name_length > length - 30 {
            Err(Refusal::Plain(Error::InvalidFileNameLength))
        } else {
            match encoding.decoded(file.subrange(pos + 30, pos + 30 + name_length)) {
                Err(e) => Err(Refusal::Plain(e)),
                Ok(raw) => match safe_path_of(raw, false) {
                    None => Err(Refusal::Unsafe(with_slashes(raw))),
                    Some(name) => if name.contains('/') {
                        Err(Refusal::Plain(Error::FileNameHasSeparator))
                    } else {
                        let path = join_path(dirs[index], name);
                        if path_taken(entries, path) {
                            Err(Refusal::Duplicate(path))
                        } else {
                            Ok(
                                (
                                    EntryInfo {
                                        path,
                                        size: le32(file, pos + 3),
                                        packed_size: le32(file, pos + 7),
                                        date: le16(file, pos + 15),
                                        time: le16(file, pos + 17),
                                        offset: total_packed(entries),
                                    },
                                    counts.update(index, counts[index] - 1),
                                    pos + length,
                                ),
                            )
                        }
                    },
                },
            }
        }
    }
}

/// What a file record gives, by its layout: the size is the little-endian
/// 32-bit number in bytes 3 to 6 of the record, the compressed size that in
/// bytes 7 to 10, the DOS date the little-endian 16-bit number in bytes 15
/// and 16, the DOS time that in bytes 17 and 18, and the next record starts
/// as many bytes on as bytes 23 and 24 say.
pub proof fn lemma_file_record_layout(
    file: Seq<u8>,
    pos: int,
    encoding: Encoding,
    dirs: Seq<Seq<char>>,
    counts: Seq<int>,
    entries: Seq<EntryInfo>,
)
    ensures
        file_record(file, pos, encoding, dirs, counts, entries) matches Ok((e, _, next)) ==> {
            &&& e.size == file[pos + 3] + 256 * file[pos + 4] + 65536 * file[pos + 5] + 16777216 * file[pos + 6]
            &&& e.packed_size == file[pos + 7] + 256 * file[pos + 8] + 65536 * file[pos + 9] + 16777216
                * file[pos + 10]
            &&& e.date == file[pos + 15] + 256 * file[pos + 16]
            &&& e.time == file[pos + 17] + 256 * file[pos + 18]
            &&& next == pos + file[pos + 23] + 256 * file[pos + 24]
        },
{
    reveal(file_record);
}

/// The first `n` file records from `pos`: the entries, the file counts the
/// directories still expect, and the position after the records.
pub open spec fn file_records(
    file: Seq<u8>,
    pos: int,
    n: int,
    encoding: Encoding,
    dirs: Seq<Seq<char>>,
    counts: Seq<int>,
) -> Result<(Seq<EntryInfo>, Seq<int>, int), Refusal>
    decreases n,
{
    if n <= 0 {
        Ok((Seq::empty(), counts, pos))
    } else {
        match file_records(file, pos, n - 1, encoding, dirs, counts) {
            Err(r) => Err(r),
            Ok((entries, left, p)) => match file_record(file, p, encoding, dirs, left, entries) {
                Err(r) => Err(r),
                Ok((entry, left2, q)) => Ok((entries.push(entry), left2, q)),
            },
        }
    }
}

/// Where file record `i` starts when the records start at `pos`: each
/// record's bytes 23 and 24 give, little-endian, how far on the next one
/// starts.
pub open spec fn record_start(file: Seq<u8>, pos: int, i: int) -> int
    decreases i,
{
    if i <= 0 {
        pos
    } else {
        let p = record_start(file, pos, i - 1);
        p + file[p + 23] + 256 * file[p + 24]
    }
}

/// The entries that file records give carry, each, the DOS date in bytes
/// 15 and 16 of its record and the DOS time in bytes 17 and 18, both
/// little-endian, and the sizes in bytes 3 to 6 and 7 to 10; the records
/// follow each other as their lengths say.
pub proof fn lemma_file_records_layout(
    file: Seq<u8>,
    pos: int,
    n: int,
    encoding: Encoding,
    dirs: Seq<Seq<char>>,
    counts: Seq<int>,
)
    ensures
        file_records(file, pos, n, encoding, dirs, counts) matches Ok((entries, _, q)) ==> {
            &&& entries.len() == if n < 0 { 0 } else { n }
            &&& q == record_start(file, pos, entries.len() as int)
            &&& forall|i: int|
                0 <= i < entries.len() ==> {
                    let r = record_start(file, pos, i);
                    &&& (#[trigger] entries[i]).date == file[r + 15] + 256 * file[r + 16]
                    &&& entries[i].time == file[r + 17] + 256 * file[r + 18]
                    &&& entries[i].size == file[r + 3] + 256 * file[r + 4] + 65536 * file[r + 5]
                        + 16777216 * file[r + 6]
                    &&& entries[i].packed_size == file[r + 7] + 256 * file[r + 8] + 65536 * file[r
                        + 9] + 16777216 * file[r + 10]
                }
        },
    decreases n,
{
    if n > 0 {
        lemma_file_records_layout(file, pos, n - 1, encoding, dirs, counts);
        if let Ok((entries, left, p)) = file_records(file, pos, n - 1, encoding, dirs, counts) {
            lemma_file_record_layout(file, p, encoding, dirs, left, entries);
            if let Ok((entry, left2, q)) = file_record(file, p, encoding, dirs, left, entries) {
                let all = entries.push(entry);
                assert forall|i: int| 0 <= i < all.len() implies {
                    let r = record_start(file, pos, i);
                    &&& (#[trigger] all[i]).date == file[r + 15] + 256 * file[r + 16]
                    &&& all[i].time == file[r + 17] + 256 * file[r + 18]
                    &&& all[i].size == file[r + 3] + 256 * file[r + 4] + 65536 * file[r + 5]
                        + 16777216 * file[r + 6]
                    &&& all[i].packed_size == file[r + 7] + 256 * file[r + 8] + 65536 * file[r
                        + 9] + 16777216 * file[r + 10]
                } by {
                    if i < entries.len() {
                        assert(all[i] == entries[i]);
                    }
                }
            }
        }
    }
}

proof fn lemma_file_records_err(
    file: Seq<u8>,
    pos: int,
    k: int,
    m: int,
    encoding: Encoding,
    dirs: Seq<Seq<char>>,
    counts: Seq<int>,
)
    requires
        1 <= k <= m,
    ensures
        file_records(file, pos, k, encoding, dirs, counts) is Err ==> file_records(
            file,
            pos,
            m,
            encoding,
            dirs,
            counts,
        ) == file_records(file, pos, k, encoding, dirs, counts),
    decreases m - k,
{
    if k < m {
        lemma_file_records_err(file, pos, k, m - 1, encoding, dirs, counts);
    }
}

/// Whether `chars` holds `c`.
fn contains_char(chars: &[char], c: char) -> (b: bool)
    ensures
        b == chars@.contains(c),
{
    let mut i: usize = 0;
    while i < chars.len()
        invariant
            i <= chars@.len(),
            forall|k: int| 0 <= k < i ==> chars@[k] != c,
        decreases chars@.len() - i,
    {
        if chars[i] == c {
            return true;
        }
        i = i + 1;
    }
    false
}

/// The path of a file named `name` in the directory `dir`.
fn join(dir: &String, name: &String) -> (p: String)
    ensures
        p@ == join_path(dir@, name@),
{
    if dir.as_str().is_empty() {
        return string_of(chars_of(name.as_str()).as_slice());
    }
    let mut chars = chars_of(dir.as_str());
    chars.push('/');
    let rest = chars_of(name.as_str());
    let mut i: usize = 0;
    let ghost start = chars@;
    while i < rest.len()
        invariant
            i <= rest@.len(),
            chars@ == start + rest@.take(i as int),
        decreases rest@.len() - i,
    {
        chars.push(rest[i]);
        i = i + 1;
        assert(chars@ =~= start + rest@.take(i as int));
    }
    assert(rest@.take(i as int) =~= rest@);
    assert(chars@ =~= dir@ + seq!['/'] + name@);
    string_of(chars.as_slice())
}

/// Whether `seen` holds `lower`.
fn seen_contains(seen: &Vec<String>, lower: &String) -> (b: bool)
    ensures
        b == exists|i: int| 0 <= i < seen@.len() && #[trigger] seen@[i]@ == lower@,
{
    let mut i: usize = 0;
    while i < seen.len()
        invariant
            i <= seen@.len(),
            forall|k: int| 0 <= k < i ==> #[trigger] seen@[k]@ != lower@,
        decreases seen@.len() - i,
    {
        if seen[i] == *lower {
            return true;
        }
        i = i + 1;
    }
    false
}


/// Reads the file record at `p`; `entries` are the files read before it,
/// `seen` their paths lower-cased, and `offset` their compressed sizes
/// added up. Gives the entry, its path lower-cased, its directory index and
/// the record length.
fn read_file_record(
    file: &[u8],
    p: usize,
    encoding: Encoding,
    dirs: &Vec<String>,
    counts: &Vec<u16>,
    seen: &Vec<String>,
    offset: u64,
    Ghost(entries): Ghost<Seq<EntryInfo>>,
) -> (r: Result<(Entry, String, usize, usize), Error>)
    requires
        p <= file@.len(),
        counts@.len() == dirs@.len(),
        seen@.len() == entries.len(),
        forall|i: int| 0 <= i < seen@.len() ==> #[trigger] seen@[i]@ == unicode_lowercase(
            entries[i].path,
        ),
        offset == total_packed(entries),
    ensures
        match file_record(
            file@,
            p as int,
            encoding,
            string_views(dirs@),
            int_counts(counts@),
            entries,
        ) {
            Ok((info, left, q)) => r matches Ok((e, lower, index, length)) && e.info() == info
                && lower@ == unicode_lowercase(e.path@) && index < counts@.len() && counts@[index as int]
                > 0 && left == int_counts(counts@).update(
                index as int,
                counts@[index as int] - 1,
            ) && q == p + length && p + length <= file@.len() && e.packed_size < 0x1_0000_0000,
            Err(refusal) => r matches Err(e) && refuses(e, refusal),
        },
{
    reveal(file_record);
    if file.len() - p < 30 {
        return Err(Error::Truncated);
    }
    let length = u16_at(file, p + 23) as usize;
    if length < 30 {
        return Err(Error::RecordShorterThanHeader);
    }
    if file.len() - p < length {
        return Err(Error::Truncated);
    }
    let index = u16_at(file, p + 1) as usize;
    if index >= dirs.len() {
        return Err(Error::InvalidDirectoryIndex);
    }
    if counts[index] == 0 {
        return Err(Error::DirectoryCountMismatch);
    }
    let name_length = file[p + 29] as usize;
    if name_length == 0 || name_length > length - 30 {
        return Err(Error::InvalidFileNameLength);
    }
    let raw_bytes = slice_range(file, p + 30, p + 30 + name_length);
    let raw = match encoding.decode(raw_bytes.as_slice()) {
        Ok(raw) => raw,
        Err(e) => {
            return Err(e);
        },
    };
    let name = match safe_path(raw.as_str(), false) {
        Ok(name) => name,
        Err(e) => {
            return Err(e);
        },
    };
    if contains_char(chars_of(name.as_str()).as_slice(), '/') {
        return Err(Error::FileNameHasSeparator);
    }
    let path = join(&dirs[index], &name);
    let lower = lowercase(path.as_str());
    let taken = seen_contains(seen, &lower);
    proof {
        let infos = entries;
        assert(taken == path_taken(infos, path@)) by {
            if taken {
                let i = choose|i: int| 0 <= i < seen@.len() && #[trigger] seen@[i]@ == lower@;
                assert(unicode_lowercase(infos[i].path) == unicode_lowercase(path@));
            }
            if path_taken(infos, path@) {
                let i = choose|i: int|
                    0 <= i < infos.len() && unicode_lowercase(#[trigger] infos[i].path)
                        == unicode_lowercase(path@);
                assert(seen@[i]@ == lower@);
            }
        }
    }
    if taken {
        return Err(Error::DuplicatePath(path));
    }
    let packed = u32_at(file, p + 7) as u64;
    let entry = Entry {
        path,
        size: u32_at(file, p + 3) as u64,
        packed_size: packed,
        date: u16_at(file, p + 15),
        time: u16_at(file, p + 17),
        offset,
    };
    Ok((entry, lower, index, length))
}

fn copy_counts(c: &Vec<u16>) -> (r: Vec<u16>)
    ensures
        r@ == c@,
{
    let mut r: Vec<u16> = Vec::new();
    let mut i: usize = 0;
    while i < c.len()
        invariant
            i <= c@.len(),
            r@ == c@.take(i as int),
        decreases c@.len() - i,
    {
        r.push(c[i]);
        i = i + 1;
        assert(r@ =~= c@.take(i as int));
    }
    assert(c@.take(i as int) =~= c@);
    r
}

/// What reading the file records leaves: the entries, each one's path
/// lower-cased, the file counts the directories still expect, the sum of
/// the compressed sizes, and the position after the records.
type FileRecords = (Vec<Entry>, Vec<String>, Vec<u16>, u64, usize);

/// Reads `count` file records from `pos`.
fn read_files(
    file: &[u8],
    pos: usize,
    count: u16,
    encoding: Encoding,
    dirs: &Vec<String>,
    declared: &Vec<u16>,
) -> (r: Result<FileRecords, Error>)
    requires
        pos <= file@.len(),
        declared@.len() == dirs@.len(),
    ensures
        match file_records(
            file@,
            pos as int,
            count as int,
            encoding,
            string_views(dirs@),
            int_counts(declared@),
        ) {
            Ok((entries, left, p)) => r matches Ok((e, seen, c, offset, q)) && entry_infos(e@)
                == entries && int_counts(c@) == left && q == p && offset
                == total_packed(entries) && seen@.len() == e@.len() && forall|i: int|
                0 <= i < seen@.len() ==> #[trigger] seen@[i]@ == unicode_lowercase(e@[i].path@)
                && e@[i].packed_size < 0x1_0000_0000,
            Err(refusal) => r matches Err(e) && refuses(e, refusal),
        },
{
    let ghost dir_views = string_views(dirs@);
    let ghost initial = int_counts(declared@);
    let mut counts = copy_counts(declared);
    let mut entries: Vec<Entry> = Vec::new();
    let mut seen: Vec<String> = Vec::new();
    let mut offset: u64 = 0;
    let mut p = pos;
    let mut n: u16 = 0;
    assert(entry_infos(entries@) =~= Seq::<EntryInfo>::empty());
    while n < count
        invariant
            n <= count,
            p <= file@.len(),
            counts@.len() == dirs@.len(),
            dir_views == string_views(dirs@),
            initial == int_counts(declared@),
            file_records(file@, pos as int, n as int, encoding, dir_views, initial) == Ok::<
                (Seq<EntryInfo>, Seq<int>, int),
                Refusal,
            >((entry_infos(entries@), int_counts(counts@), p as int)),
            offset == total_packed(entry_infos(entries@)),
            offset <= n * 0x1_0000_0000,
            seen@.len() == entries@.len(),
            forall|i: int| 0 <= i < seen@.len() ==> #[trigger] seen@[i]@ == unicode_lowercase(
                entries@[i].path@,
            ) && entries@[i].packed_size < 0x1_0000_0000,
        decreases count - n,
    {
        proof {
            lemma_file_records_err(file@, pos as int, n + 1, count as int, encoding, dir_views, initial);
        }
        let ghost spec_record = file_record(
            file@,
            p as int,
            encoding,
            dir_views,
            int_counts(counts@),
            entry_infos(entries@),
        );
        let result = read_file_record(
            file,
            p,
            encoding,
            dirs,
            &counts,
            &seen,
            offset,
            Ghost(entry_infos(entries@)),
        );
        assert(spec_record is Err ==> (result matches Err(e) && refuses(e, spec_record->Err_0)));
        let (entry, lower, index, length) = match result {
            Ok(found) => found,
            Err(e) => {
                assert(spec_record is Err);
                assert(file_records(file@, pos as int, n + 1, encoding, dir_views, initial) == Err::<
                    (Seq<EntryInfo>, Seq<int>, int),
                    Refusal,
                >(spec_record->Err_0));
                return Err(e);
            },
        };
        assert(spec_record is Ok);
        let packed = entry.packed_size;
        let ghost before = entries@;
        let ghost before_counts = counts@;
        entries.push(entry);
        seen.push(lower);
        let left = counts[index] - 1;
        counts.set(index, left);
        offset = offset + packed;
        // Its length fits a `usize`.
        let _file_len = file.len();
        p = p + length;
        n = n + 1;
        proof {
            assert(entry_infos(entries@) =~= entry_infos(before).push(entries@.last().info()));
            assert(entry_infos(entries@).drop_last() =~= entry_infos(before));
            assert(int_counts(counts@) =~= int_counts(before_counts).update(index as int, before_counts[index as int] - 1));
        }
    }
    Ok((entries, seen, counts, offset, p))
}

/// Whether the path up to one of its slashes is, case ignored, the path
/// of one of `entries`.
pub open spec fn prefix_taken(entries: Seq<EntryInfo>, path: Seq<char>) -> bool {
    exists|i: int| 0 <= i < path.len() && path[i] == '/' && #[trigger] path_taken(entries, path.take(i))
}

/// Whether a file is also a directory, or the parent of another file or
/// directory, case ignored.
pub open spec fn paths_conflict(entries: Seq<EntryInfo>, dirs: Seq<Seq<char>>) -> bool {
    ||| exists|i: int| 0 <= i < entries.len() && prefix_taken(entries, #[trigger] entries[i].path)
    ||| exists|i: int| 0 <= i < dirs.len() && prefix_taken(entries, #[trigger] dirs[i])
    ||| exists|i: int| 0 <= i < dirs.len() && path_taken(entries, #[trigger] dirs[i])
}

/// Whether a lower-cased path is among `seen`.
fn taken(seen: &Vec<String>, path: &str, Ghost(entries): Ghost<Seq<EntryInfo>>) -> (b: bool)
    requires
        seen@.len() == entries.len(),
        forall|i: int| 0 <= i < seen@.len() ==> #[trigger] seen@[i]@ == unicode_lowercase(
            entries[i].path,
        ),
    ensures
        b == path_taken(entries, path@),
{
    let lower = lowercase(path);
    let b = seen_contains(seen, &lower);
    proof {
        if b {
            let i = choose|i: int| 0 <= i < seen@.len() && #[trigger] seen@[i]@ == lower@;
            assert(unicode_lowercase(entries[i].path) == unicode_lowercase(path@));
        }
        if path_taken(entries, path@) {
            let i = choose|i: int|
                0 <= i < entries.len() && unicode_lowercase(#[trigger] entries[i].path)
                    == unicode_lowercase(path@);
            assert(seen@[i]@ == lower@);
        }
    }
    b
}

/// Whether `path` up to one of its slashes is among `seen`.
fn prefix_conflict(seen: &Vec<String>, path: &String, Ghost(entries): Ghost<Seq<EntryInfo>>) -> (b:
    bool)
    requires
        seen@.len() == entries.len(),
        forall|i: int| 0 <= i < seen@.len() ==> #[trigger] seen@[i]@ == unicode_lowercase(
            entries[i].path,
        ),
    ensures
        b == prefix_taken(entries, path@),
{
    let chars = chars_of(path.as_str());
    let mut i: usize = 0;
    while i < chars.len()
        invariant
            i <= chars@.len(),
            chars@ == path@,
            seen@.len() == entries.len(),
            forall|k: int| 0 <= k < seen@.len() ==> #[trigger] seen@[k]@ == unicode_lowercase(
                entries[k].path,
            ),
            forall|k: int|
                0 <= k < i && chars@[k] == '/' ==> !#[trigger] path_taken(entries, path@.take(k)),
        decreases chars@.len() - i,
    {
        if chars[i] == '/' {
            let prefix = string_of(slice_chars(chars.as_slice(), i).as_slice());
            assert(prefix@ == path@.take(i as int));
            if taken(seen, prefix.as_str(), Ghost(entries)) {
                return true;
            }
        }
        i = i + 1;
    }
    false
}

/// The first `n` characters of `chars`.
fn slice_chars(chars: &[char], n: usize) -> (v: Vec<char>)
    requires
        n <= chars@.len(),
    ensures
        v@ == chars@.take(n as int),
{
    let mut v: Vec<char> = Vec::new();
    let mut i: usize = 0;
    while i < n
        invariant
            i <= n <= chars@.len(),
            v@ == chars@.take(i as int),
        decreases n - i,
    {
        v.push(chars[i]);
        i = i + 1;
        assert(v@ =~= chars@.take(i as int));
    }
    v
}

/// Whether a file path conflicts with another path of the catalog.
fn find_conflict(
    seen: &Vec<String>,
    entries: &Vec<Entry>,
    dirs: &Vec<String>,
) -> (b: bool)
    requires
        seen@.len() == entries@.len(),
        forall|i: int| 0 <= i < seen@.len() ==> #[trigger] seen@[i]@ == unicode_lowercase(
            entries@[i].path@,
        ),
    ensures
        b == paths_conflict(entry_infos(entries@), string_views(dirs@)),
{
    let ghost infos = entry_infos(entries@);
    let ghost views = string_views(dirs@);
    assert forall|i: int| 0 <= i < seen@.len() implies #[trigger] seen@[i]@ == unicode_lowercase(
        infos[i].path,
    ) by {
        assert(infos[i] == entries@[i].info());
    }
    let mut i: usize = 0;
    while i < entries.len()
        invariant
            i <= entries@.len() == seen@.len() == infos.len(),
            infos == entry_infos(entries@),
            forall|k: int| 0 <= k < seen@.len() ==> #[trigger] seen@[k]@ == unicode_lowercase(
                infos[k].path,
            ),
            forall|k: int| 0 <= k < i ==> !prefix_taken(infos, #[trigger] infos[k].path),
        decreases entries@.len() - i,
    {
        if prefix_conflict(seen, &entries[i].path, Ghost(infos)) {
            assert(prefix_taken(infos, infos[i as int].path));
            return true;
        }
        i = i + 1;
    }
    let mut j: usize = 0;
    while j < dirs.len()
        invariant
            j <= dirs@.len() == views.len(),
            views == string_views(dirs@),
            infos == entry_infos(entries@),
            seen@.len() == infos.len(),
            forall|k: int| 0 <= k < seen@.len() ==> #[trigger] seen@[k]@ == unicode_lowercase(
                infos[k].path,
            ),
            forall|k: int| 0 <= k < j ==> !prefix_taken(infos, #[trigger] views[k]),
        decreases dirs@.len() - j,
    {
        if prefix_conflict(seen, &dirs[j], Ghost(infos)) {
            assert(prefix_taken(infos, views[j as int]));
            return true;
        }
        j = j + 1;
    }
    let mut k: usize = 0;
    while k < dirs.len()
        invariant
            k <= dirs@.len() == views.len(),
            views == string_views(dirs@),
            infos == entry_infos(entries@),
            seen@.len() == infos.len(),
            forall|m: int| 0 <= m < seen@.len() ==> #[trigger] seen@[m]@ == unicode_lowercase(
                infos[m].path,
            ),
            forall|m: int| 0 <= m < k ==> !path_taken(infos, #[trigger] views[m]),
        decreases dirs@.len() - k,
    {
        if taken(seen, dirs[k].as_str(), Ghost(infos)) {
            assert(path_taken(infos, views[k as int]));
            return true;
        }
        k = k + 1;
    }
    false
}

/// What the catalog of one volume holds.
pub struct Catalog {
    /// The files, in catalog order.
    pub entries: Vec<Entry>,
    /// The directories, in catalog order; the root is the empty path.
    pub directories: Vec<String>,
    /// The size of the data area between the header and the catalog.
    pub data_size: u64,
    /// The volume's number, 0 where the header does not say.
    pub number: u8,
    /// How many volumes the archive has, 0 where the header does not say.
    pub total_volumes: u8,
    /// The archive size the header declares.
    pub archive_size: u32,
}

/// A catalog as the specifications see it.
pub struct CatalogInfo {
    pub entries: Seq<EntryInfo>,
    pub directories: Seq<Seq<char>>,
    pub data_size: int,
    pub number: int,
    pub total_volumes: int,
    pub archive_size: int,
}

impl Catalog {
    pub open spec fn info(self) -> CatalogInfo {
        CatalogInfo {
            entries: entry_infos(self.entries@),
            directories: string_views(self.directories@),
            data_size: self.data_size as int,
            number: self.number as int,
            total_volumes: self.total_volumes as int,
            archive_size: self.archive_size as int,
        }
    }
}

/// The catalog of a volume whose bytes are `file`: a 255-byte header that
/// starts with the signature and gives the number of files (u16 at 12),
/// the archive size (u32 at 18), the volume count (byte 30), the volume
/// number (byte 31), the offset of the directory table (u32 at 41) and the
/// number of directories (u16 at 49); the compressed data up to the
/// directory table; then the directory records and the file records, which
/// must end the volume.
pub open spec fn catalog_of(file: Seq<u8>, encoding: Encoding) -> Result<CatalogInfo, Refusal> {
    if file.len() < header_size() {
        Err(Refusal::Plain(Error::Truncated))
    } else if file.take(4) != signature() {
        Err(Refusal::Plain(Error::NotAnArchive))
    } else {
        let names = le32(file, 41);
        if names < header_size() || names > file.len() {
            Err(Refusal::Plain(Error::InvalidDirectoryTableOffset))
        } else {
            match directory_records(file, names, le16(file, 49), encoding) {
                Err(r) => Err(r),
                Ok((dirs, counts, p)) => match file_records(
                    file,
                    p,
                    le16(file, 12),
                    encoding,
                    dirs,
                    counts,
                ) {
                    Err(r) => Err(r),
                    Ok((entries, left, q)) => {
                        if exists|i: int| 0 <= i < left.len() && #[trigger] left[i] != 0 {
                            Err(Refusal::Plain(Error::DirectoryCountMismatch))
                        } else if q != file.len() {
                            Err(Refusal::Plain(Error::TrailingCatalogData))
                        } else if le32(file, 18) != header_size() + total_packed(entries)
                            + file.len() - names {
                            Err(Refusal::Plain(Error::ArchiveSizeMismatch))
                        } else if paths_conflict(entries, dirs) {
                            Err(Refusal::Plain(Error::PathConflict))
                        } else {
                            Ok(
                                CatalogInfo {
                                    entries,
                                    directories: dirs,
                                    data_size: names - header_size(),
                                    number: file[31] as int,
                                    total_volumes: file[30] as int,
                                    archive_size: le32(file, 18),
                                },
                            )
                        }
                    },
                },
            }
        }
    }
}

proof fn lemma_total_packed_bound(entries: Seq<EntryInfo>)
    requires
        forall|i: int| 0 <= i < entries.len() ==> 0 <= #[trigger] entries[i].packed_size < 0x1_0000_0000,
    ensures
        0 <= total_packed(entries) <= entries.len() * 0x1_0000_0000,
    decreases entries.len(),
{
    if entries.len() > 0 {
        lemma_total_packed_bound(entries.drop_last());
    }
}

/// Whether every directory got all its files.
fn all_zero(left: &Vec<u16>) -> (b: bool)
    ensures
        b == !exists|i: int| 0 <= i < int_counts(left@).len() && #[trigger] int_counts(left@)[i] != 0,
{
    let mut i: usize = 0;
    while i < left.len()
        invariant
            i <= left@.len(),
            forall|k: int| 0 <= k < i ==> left@[k] == 0,
        decreases left@.len() - i,
    {
        if left[i] != 0 {
            assert(int_counts(left@)[i as int] != 0);
            return false;
        }
        i = i + 1;
    }
    assert forall|k: int| 0 <= k < int_counts(left@).len() implies #[trigger] int_counts(left@)[k]
        == 0 by {
        assert(left@[k] == 0);
    }
    true
}

/// Reads the catalog of a volume whose bytes are `file`.
pub fn read_catalog(file: &[u8], encoding: Encoding) -> (r: Result<Catalog, Error>)
    ensures
        match catalog_of(file@, encoding) {
            Ok(info) => r matches Ok(c) && c.info() == info,
            Err(refusal) => r matches Err(e) && refuses(e, refusal),
        },
{
    let file_len = file.len();
    if file_len < 255 {
        return Err(Error::Truncated);
    }
    if !(file[0] == 0x13 && file[1] == 0x5d && file[2] == 0x65 && file[3] == 0x8c) {
        assert(file@.take(4) != signature()) by {
            if file@.take(4) == signature() {
                assert(file@.take(4)[0] == 0x13 && file@.take(4)[1] == 0x5d);
                assert(file@.take(4)[2] == 0x65 && file@.take(4)[3] == 0x8c);
            }
        }
        return Err(Error::NotAnArchive);
    }
    assert(file@.take(4) =~= signature());
    let names = u32_at(file, 41) as usize;
    if names < 255 || names > file_len {
        return Err(Error::InvalidDirectoryTableOffset);
    }
    let (dirs, counts, p) = match read_directories(file, names, u16_at(file, 49), encoding) {
        Ok(found) => found,
        Err(e) => {
            return Err(e);
        },
    };
    proof {
        lemma_directory_records_advance(file@, names as int, le16(file@, 49), encoding);
        assert(string_views(dirs@).len() == dirs@.len());
        assert(int_counts(counts@).len() == counts@.len());
    }
    let (entries, seen, left, offset, q) = match read_files(
        file,
        p,
        u16_at(file, 12),
        encoding,
        &dirs,
        &counts,
    ) {
        Ok(found) => found,
        Err(e) => {
            return Err(e);
        },
    };
    let ghost infos = entry_infos(entries@);
    if !all_zero(&left) {
        return Err(Error::DirectoryCountMismatch);
    }
    if q != file_len {
        return Err(Error::TrailingCatalogData);
    }
    proof {
        assert forall|k: int| 0 <= k < infos.len() implies 0 <= #[trigger] infos[k].packed_size
            < 0x1_0000_0000 by {
            assert(infos[k] == entries@[k].info());
            assert(seen@[k]@ == unicode_lowercase(entries@[k].path@));
        }
        lemma_total_packed_bound(infos);
    }
    let declared = u32_at(file, 18) as u128;
    if declared != 255 + offset as u128 + file_len as u128 - names as u128 {
        return Err(Error::ArchiveSizeMismatch);
    }
    if find_conflict(&seen, &entries, &dirs) {
        return Err(Error::PathConflict);
    }
    Ok(
        Catalog {
            entries,
            directories: dirs,
            data_size: (names - 255) as u64,
            number: file[31],
            total_volumes: file[30],
            archive_size: u32_at(file, 18),
        },
    )
}

// ---------------------------------------------------------------------------
// The volume map of an archive

/// One volume of an archive.
#[derive(Debug)]
pub struct Volume {
    /// Where the volume is.
    pub path: PathBuf,
    /// The size of its data area.
    pub data_size: u64,
    /// Where its data area starts in the archive's data.
    pub logical_start: u64,
}

/// An archive: its catalog and its volumes in order.
pub struct Archive {
    pub entries: Vec<Entry>,
    pub directories: Vec<String>,
    pub volumes: Vec<Volume>,
}

/// Why volume `number` of `count` does not belong with the first catalog,
/// if it does not: its header names another number or volume count, its
/// catalog or declared archive size differs, or it carries no data while
/// the archive has compressed data.
pub open spec fn volume_fault(
    first: CatalogInfo,
    part: CatalogInfo,
    number: int,
    count: int,
    packed: int,
) -> Option<Error> {
    if (part.number != 0 && part.number != number) || (part.total_volumes != 0
        && part.total_volumes != count) || part.entries != first.entries || part.directories
        != first.directories || part.archive_size != first.archive_size {
        Some(Error::ForeignVolume(number as usize))
    } else if part.data_size == 0 && packed != 0 {
        Some(Error::EmptyDataArea(number as usize))
    } else {
        None
    }
}

/// The catalog of volume `i`, as read: the first catalog for the first
/// volume, a refusal tagged with the volume's path.
pub open spec fn part_catalog(
    paths: Seq<PathBuf>,
    catalogs: Seq<Result<Catalog, Error>>,
    first: CatalogInfo,
    i: int,
) -> Result<CatalogInfo, Error> {
    if i == 0 {
        Ok(first)
    } else {
        match catalogs[i] {
            Ok(c) => Ok(c.info()),
            Err(e) => Err(Error::Catalog(paths[i], Box::new(e))),
        }
    }
}

/// Checks the first `k` volumes in order; gives the size of their data
/// areas added up, or the first fault.
pub open spec fn map_volumes(
    paths: Seq<PathBuf>,
    catalogs: Seq<Result<Catalog, Error>>,
    first: CatalogInfo,
    packed: int,
    k: int,
) -> Result<int, Error>
    decreases k,
{
    if k <= 0 {
        Ok(0)
    } else {
        match map_volumes(paths, catalogs, first, packed, k - 1) {
            Err(e) => Err(e),
            Ok(length) => match part_catalog(paths, catalogs, first, k - 1) {
                Err(e) => Err(e),
                Ok(part) => match volume_fault(first, part, k, paths.len() as int, packed) {
                    Some(e) => Err(e),
                    None => Ok(length + part.data_size),
                },
            },
        }
    }
}

/// Whether the data areas of `volumes` lie end to end from 0 up to `end`.
pub open spec fn tiled(volumes: Seq<Volume>, end: int) -> bool {
    &&& volumes.len() > 0 ==> volumes[0].logical_start == 0
    &&& forall|i: int, j: int|
        0 <= i && j == i + 1 && j < volumes.len() ==> #[trigger] volumes[j].logical_start
            == #[trigger] volumes[i].logical_start + volumes[i].data_size
    &&& volumes.len() > 0 ==> volumes.last().logical_start + volumes.last().data_size == end
}

/// The archive that the volumes at `paths`, whose catalogs are
/// `catalogs`, make up: the first catalog, if no volume is faulty and the
/// data areas add up to the compressed sizes.
pub open spec fn archive_of(paths: Seq<PathBuf>, catalogs: Seq<Result<Catalog, Error>>) -> Result<
    CatalogInfo,
    Error,
> {
    if paths.len() == 0 {
        Err(Error::EmptyVolumeMap)
    } else {
        match catalogs[0] {
            Err(e) => Err(Error::Catalog(paths[0], Box::new(e))),
            Ok(c) => if c.number > 1 {
                Err(Error::ContinuationVolume)
            } else {
                match map_volumes(
                    paths,
                    catalogs,
                    c.info(),
                    total_packed(c.info().entries),
                    paths.len() as int,
                ) {
                    Err(e) => Err(e),
                    Ok(length) => if length != total_packed(c.info().entries) {
                        Err(Error::PayloadSizeMismatch)
                    } else {
                        Ok(c.info())
                    },
                }
            },
        }
    }
}

proof fn lemma_map_volumes_err(
    paths: Seq<PathBuf>,
    catalogs: Seq<Result<Catalog, Error>>,
    first: CatalogInfo,
    packed: int,
    k: int,
    m: int,
)
    requires
        1 <= k <= m,
    ensures
        map_volumes(paths, catalogs, first, packed, k) is Err ==> map_volumes(
            paths,
            catalogs,
            first,
            packed,
            m,
        ) == map_volumes(paths, catalogs, first, packed, k),
    decreases m - k,
{
    if k < m {
        lemma_map_volumes_err(paths, catalogs, first, packed, k, m - 1);
    }
}

/// Whether two entries are the same.
fn same_entry(a: &Entry, b: &Entry) -> (r: bool)
    ensures
        r == (a.info() == b.info()),
{
    a.path == b.path && a.size == b.size && a.packed_size == b.packed_size && a.date == b.date
        && a.time == b.time && a.offset == b.offset
}

/// Whether two lists of entries are the same.
fn same_entries(a: &Vec<Entry>, b: &Vec<Entry>) -> (r: bool)
    ensures
        r == (entry_infos(a@) == entry_infos(b@)),
{
    if a.len() != b.len() {
        assert(entry_infos(a@).len() != entry_infos(b@).len());
        return false;
    }
    let mut i: usize = 0;
    while i < a.len()
        invariant
            i <= a@.len() == b@.len(),
            forall|k: int| 0 <= k < i ==> a@[k].info() == b@[k].info(),
        decreases a@.len() - i,
    {
        if !same_entry(&a[i], &b[i]) {
            assert(entry_infos(a@)[i as int] != entry_infos(b@)[i as int]);
            return false;
        }
        i = i + 1;
    }
    assert(entry_infos(a@) =~= entry_infos(b@));
    true
}

/// Whether two lists of strings are the same.
fn same_strings(a: &Vec<String>, b: &Vec<String>) -> (r: bool)
    ensures
        r == (string_views(a@) == string_views(b@)),
{
    if a.len() != b.len() {
        assert(string_views(a@).len() != string_views(b@).len());
        return false;
    }
    let mut i: usize = 0;
    while i < a.len()
        invariant
            i <= a@.len() == b@.len(),
            forall|k: int| 0 <= k < i ==> a@[k]@ == b@[k]@,
        decreases a@.len() - i,
    {
        if a[i] != b[i] {
            assert(string_views(a@)[i as int] != string_views(b@)[i as int]);
            return false;
        }
        i = i + 1;
    }
    assert(string_views(a@) =~= string_views(b@));
    true
}

/// The compressed sizes of the entries, added up.
fn packed_total(entries: &Vec<Entry>) -> (t: u128)
    ensures
        t == total_packed(entry_infos(entries@)),
{
    let mut t: u128 = 0;
    let mut i: usize = 0;
    while i < entries.len()
        invariant
            i <= entries@.len(),
            t == total_packed(entry_infos(entries@.take(i as int))),
            t <= i * 0x1_0000_0000_0000_0000,
        decreases entries@.len() - i,
    {
        assert(entry_infos(entries@.take(i + 1)).drop_last() =~= entry_infos(entries@.take(i as int)));
        t = t + entries[i].packed_size as u128;
        i = i + 1;
    }
    assert(entries@.take(i as int) =~= entries@);
    t
}

impl Archive {
    /// Puts together the archive whose volumes, in order, are at `paths`,
    /// `catalogs` holding what reading each one's catalog gave. Every
    /// volume must carry the first volume's catalog and fit its place in
    /// the set, and the data areas must add up to the compressed sizes.
    #[verifier::loop_isolation(false)]
    #[verifier::spinoff_prover]
    pub fn from_volumes(volume_paths: Vec<PathBuf>, catalogs_read: Vec<Result<Catalog, Error>>) -> (r: Result<
        Archive,
        Error,
    >)
        requires
            catalogs_read@.len() == volume_paths@.len() <= 0xffff_ffff,
            forall|i: int|
                0 <= i < catalogs_read@.len() ==> (#[trigger] catalogs_read@[i] matches Ok(c) ==> c.data_size
                    <= 0xffff_ffff),
        ensures
            match r {
                Ok(a) => archive_of(volume_paths@, catalogs_read@) matches Ok(info) && entry_infos(
                    a.entries@,
                ) == info.entries && string_views(a.directories@) == info.directories
                    && a.volumes@.len() == volume_paths@.len() && forall|i: int|
                    0 <= i < volume_paths@.len() ==> {
                        &&& (#[trigger] a.volumes@[i]).path == volume_paths@[i]
                        &&& part_catalog(volume_paths@, catalogs_read@, info, i) matches Ok(part)
                            && a.volumes@[i].data_size == part.data_size
                        &&& map_volumes(
                            volume_paths@,
                            catalogs_read@,
                            info,
                            total_packed(info.entries),
                            i,
                        ) == Ok::<int, Error>(a.volumes@[i].logical_start as int)
                    } && tiled(a.volumes@, total_packed(info.entries)),
                Err(e) => archive_of(volume_paths@, catalogs_read@) == Err::<CatalogInfo, Error>(e),
            },
    {
        let ghost all_paths = volume_paths@;
        let ghost all_catalogs = catalogs_read@;
        let count = volume_paths.len();
        if count == 0 {
            return Err(Error::EmptyVolumeMap);
        }
        let mut paths = volume_paths;
        let mut catalogs = catalogs_read;
        let first_path = paths.remove(0);
        let first = match catalogs.remove(0) {
            Ok(c) => c,
            Err(e) => {
                return Err(Error::Catalog(first_path, Box::new(e)));
            },
        };
        if first.number > 1 {
            return Err(Error::ContinuationVolume);
        }
        let ghost info = first.info();
        let packed = packed_total(&first.entries);
        proof {
            assert(all_catalogs[0] matches Ok(c) && c.info() == info);
        }
        // The first volume, checked against its own catalog.
        proof {
            lemma_map_volumes_err(all_paths, all_catalogs, info, packed as int, 1, count as int);
            assert(part_catalog(all_paths, all_catalogs, info, 0) == Ok::<CatalogInfo, Error>(info));
            assert(map_volumes(all_paths, all_catalogs, info, packed as int, 0) == Ok::<int, Error>(0));
        }
        if first.total_volumes != 0 && first.total_volumes as usize != count {
            assert(volume_fault(info, info, 1, count as int, packed as int) == Some(
                Error::ForeignVolume(1),
            ));
            assert(map_volumes(all_paths, all_catalogs, info, packed as int, 1) is Err);
            return Err(Error::ForeignVolume(1));
        }
        if first.data_size == 0 && packed != 0 {
            assert(volume_fault(info, info, 1, count as int, packed as int) == Some(
                Error::EmptyDataArea(1),
            ));
            assert(map_volumes(all_paths, all_catalogs, info, packed as int, 1) is Err);
            return Err(Error::EmptyDataArea(1));
        }
        let mut volumes: Vec<Volume> = Vec::new();
        volumes.push(Volume { path: first_path, logical_start: 0, data_size: first.data_size });
        let mut length: u64 = first.data_size;
        let mut k: usize = 1;
        assert(map_volumes(all_paths, all_catalogs, info, packed as int, 0) == Ok::<int, Error>(0));
        assert(map_volumes(all_paths, all_catalogs, info, packed as int, 1) == Ok::<int, Error>(
            first.data_size as int,
        ));
        while k < count
            invariant
                1 <= k <= count == all_paths.len() == all_catalogs.len(),
                count <= 0xffff_ffff,
                paths@ == all_paths.skip(k as int),
                catalogs@ == all_catalogs.skip(k as int),
                forall|i: int|
                    0 <= i < all_catalogs.len() ==> (#[trigger] all_catalogs[i] matches Ok(c)
                        ==> c.data_size <= 0xffff_ffff),
                info == first.info(),
                all_catalogs[0] matches Ok(c) && c.info() == info,
                packed == total_packed(info.entries),
                map_volumes(all_paths, all_catalogs, info, packed as int, k as int) == Ok::<
                    int,
                    Error,
                >(length as int),
                length <= k * 0xffff_ffff,
                volumes@.len() == k,
                tiled(volumes@, length as int),
                forall|i: int|
                    0 <= i < k ==> {
                        &&& (#[trigger] volumes@[i]).path == all_paths[i]
                        &&& part_catalog(all_paths, all_catalogs, info, i) matches Ok(part)
                            && volumes@[i].data_size == part.data_size
                        &&& map_volumes(all_paths, all_catalogs, info, packed as int, i) == Ok::<
                            int,
                            Error,
                        >(volumes@[i].logical_start as int)
                    },
            decreases count - k,
        {
            proof {
                lemma_map_volumes_err(all_paths, all_catalogs, info, packed as int, k + 1, count as int);
            }
            assert(all_paths.skip(k as int).drop_first() =~= all_paths.skip(k + 1));
            assert(all_catalogs.skip(k as int).drop_first() =~= all_catalogs.skip(k + 1));
            let path = paths.remove(0);
            let removed = catalogs.remove(0);
            assert(removed == all_catalogs[k as int]);
            assert(path == all_paths[k as int]);
            let part = match removed {
                Ok(c) => c,
                Err(e) => {
                    assert(part_catalog(all_paths, all_catalogs, info, k as int) == Err::<
                        CatalogInfo,
                        Error,
                    >(Error::Catalog(path, Box::new(e))));
                    assert(map_volumes(all_paths, all_catalogs, info, packed as int, k + 1) is Err);
                    return Err(Error::Catalog(path, Box::new(e)));
                },
            };
            assert(part_catalog(all_paths, all_catalogs, info, k as int) == Ok::<CatalogInfo, Error>(
                part.info(),
            ));
            let number = k + 1;
            if (part.number != 0 && part.number as usize != number) || (part.total_volumes != 0
                && part.total_volumes as usize != count) || !same_entries(&part.entries, &first.entries)
                || !same_strings(&part.directories, &first.directories) || part.archive_size
                != first.archive_size {
                assert(volume_fault(info, part.info(), number as int, count as int, packed as int)
                    == Some(Error::ForeignVolume(number)));
                assert(map_volumes(all_paths, all_catalogs, info, packed as int, k + 1) is Err);
                return Err(Error::ForeignVolume(number));
            }
            if part.data_size == 0 && packed != 0 {
                assert(volume_fault(info, part.info(), number as int, count as int, packed as int)
                    == Some(Error::EmptyDataArea(number)));
                assert(map_volumes(all_paths, all_catalogs, info, packed as int, k + 1) is Err);
                return Err(Error::EmptyDataArea(number));
            }
            assert(all_catalogs[k as int] matches Ok(c) && c.data_size <= 0xffff_ffff);
            let ghost before = volumes@;
            volumes.push(Volume { path, logical_start: length, data_size: part.data_size });
            length = length + part.data_size;
            k = k + 1;
            assert forall|i: int, j: int|
                0 <= i && j == i + 1 && j < volumes@.len() implies #[trigger] volumes@[j].logical_start
                    == #[trigger] volumes@[i].logical_start + volumes@[i].data_size by {
                if j < volumes@.len() - 1 {
                    assert(volumes@[i] == before[i] && volumes@[j] == before[j]);
                }
            }
        }
        assert(k == count);
        assert(map_volumes(all_paths, all_catalogs, info, packed as int, count as int) == Ok::<
            int,
            Error,
        >(length as int));
        if length as u128 != packed {
            return Err(Error::PayloadSizeMismatch);
        }
        assert(archive_of(all_paths, all_catalogs) == Ok::<CatalogInfo, Error>(info));
        assert(all_paths == volume_paths@ && all_catalogs == catalogs_read@);
        assert forall|i: int| 0 <= i < all_paths.len() implies {
            &&& (#[trigger] volumes@[i]).path == all_paths[i]
            &&& part_catalog(all_paths, all_catalogs, info, i) matches Ok(part)
                && volumes@[i].data_size == part.data_size
            &&& map_volumes(all_paths, all_catalogs, info, total_packed(info.entries), i) == Ok::<
                int,
                Error,
            >(volumes@[i].logical_start as int)
        } by {
            assert(packed as int == total_packed(info.entries));
            assert(volumes@[i].path == all_paths[i]);
            assert(part_catalog(all_paths, all_catalogs, info, i) matches Ok(part)
                && volumes@[i].data_size == part.data_size);
            assert(map_volumes(all_paths, all_catalogs, info, packed as int, i) == Ok::<
                int,
                Error,
            >(volumes@[i].logical_start as int));
        }
        let archive = Archive { entries: first.entries, directories: first.directories, volumes };
        assert(entry_infos(archive.entries@) == info.entries);
        assert(string_views(archive.directories@) == info.directories);
        assert(archive.volumes@ == volumes@);
        assert(tiled(archive.volumes@, total_packed(info.entries)));
        assert(forall|i: int|
            0 <= i < volume_paths@.len() ==> {
                &&& (#[trigger] archive.volumes@[i]).path == volume_paths@[i]
                &&& part_catalog(volume_paths@, catalogs_read@, info, i) matches Ok(part)
                    && archive.volumes@[i].data_size == part.data_size
                &&& map_volumes(
                    volume_paths@,
                    catalogs_read@,
                    info,
                    total_packed(info.entries),
                    i,
                ) == Ok::<int, Error>(archive.volumes@[i].logical_start as int)
            });
        Ok(archive)
    }
}

// ---------------------------------------------------------------------------
// Where an entry's compressed bytes lie

/// The size of a volume header, where each volume's data area starts.
pub const HEADER_SIZE: u64 = 255;

/// A run of compressed bytes in one volume.
#[derive(Clone, Copy, Debug, PartialEq, Eq)]
pub struct Segment {
    /// The index of the volume.
    pub volume: usize,
    /// Where the run starts in the volume's data area.
    pub within: u64,
    /// How many bytes it has.
    pub length: u64,
}

/// The first volume at or after `i` whose data area holds the archive
/// data offset `offset`.
pub open spec fn volume_holding(volumes: Seq<Volume>, offset: int, i: int) -> Option<int>
    decreases volumes.len() - i,
{
    if i < 0 || i >= volumes.len() {
        None
    } else if volumes[i].logical_start <= offset < volumes[i].logical_start + volumes[i].data_size {
        Some(i)
    } else {
        volume_holding(volumes, offset, i + 1)
    }
}

/// Reads `left` bytes from `within` in the data area of volume `i` on, on
/// into the following volumes: the runs, and whether the volumes held all
/// of the bytes.
pub open spec fn runs_from(volumes: Seq<Volume>, i: int, within: int, left: int) -> (
    Seq<Segment>,
    bool,
)
    decreases volumes.len() - i,
{
    if left <= 0 {
        (Seq::empty(), true)
    } else if i < 0 || i >= volumes.len() {
        (Seq::empty(), false)
    } else {
        let available = volumes[i].data_size - within;
        let take = if left < available {
            left
        } else {
            available
        };
        let (rest, complete) = runs_from(volumes, i + 1, 0, left - take);
        if take > 0 {
            (seq![Segment { volume: i as usize, within: within as u64, length: take as u64 }] + rest, complete)
        } else {
            (rest, complete)
        }
    }
}

/// Where the `length` compressed bytes at archive data offset `offset`
/// lie, if a volume holds the first of them: the runs, and whether the
/// volumes hold all of them.
pub open spec fn layout(volumes: Seq<Volume>, offset: int, length: int) -> Option<(Seq<Segment>, bool)> {
    match volume_holding(volumes, offset, 0) {
        None => None,
        Some(i) => Some(runs_from(volumes, i, offset - volumes[i].logical_start, length)),
    }
}

/// The bytes in a list of runs.
pub open spec fn run_total(runs: Seq<Segment>) -> int
    decreases runs.len(),
{
    if runs.len() == 0 {
        0
    } else {
        runs[0].length + run_total(runs.drop_first())
    }
}

proof fn lemma_runs_from(volumes: Seq<Volume>, i: int, within: int, left: int)
    requires
        0 <= within,
        0 <= i < volumes.len() ==> within <= volumes[i].data_size,
    ensures
        0 <= run_total(runs_from(volumes, i, within, left).0) <= (if left < 0 { 0 } else { left }),
        runs_from(volumes, i, within, left).1 ==> run_total(runs_from(volumes, i, within, left).0)
            == (if left < 0 { 0 } else { left }),
        !runs_from(volumes, i, within, left).1 ==> run_total(runs_from(volumes, i, within, left).0)
            < left,
    decreases volumes.len() - i,
{
    if left > 0 && 0 <= i < volumes.len() {
        let available = volumes[i].data_size - within;
        let take = if left < available {
            left
        } else {
            available
        };
        lemma_runs_from(volumes, i + 1, 0, left - take);
        let (rest, complete) = runs_from(volumes, i + 1, 0, left - take);
        if take > 0 {
            let all = seq![Segment { volume: i as usize, within: within as u64, length: take as u64 }]
                + rest;
            assert(all.drop_first() =~= rest);
        }
    }
}

/// Whether each of `runs` holds bytes inside the data area of its volume,
/// the volumes rising from `i` on, and only a run in volume `i` starting
/// elsewhere than at the start of the area, at `within`.
pub open spec fn runs_inside(volumes: Seq<Volume>, runs: Seq<Segment>, i: int, within: int) -> bool {
    &&& forall|k: int|
        0 <= k < runs.len() ==> {
            &&& i <= (#[trigger] runs[k]).volume < volumes.len()
            &&& runs[k].length > 0
            &&& runs[k].within + runs[k].length <= volumes[runs[k].volume as int].data_size
            &&& runs[k].within == (if runs[k].volume == i {
                within
            } else {
                0
            })
        }
    &&& forall|k: int, m: int| 0 <= k < m < runs.len() ==> #[trigger] runs[k].volume < #[trigger] runs[m].volume
}

proof fn lemma_runs_inside(volumes: Seq<Volume>, i: int, within: int, left: int)
    requires
        volumes.len() <= usize::MAX,
        0 <= i,
        0 <= within,
        i < volumes.len() ==> within <= volumes[i].data_size,
    ensures
        runs_inside(volumes, runs_from(volumes, i, within, left).0, i, within),
    decreases volumes.len() - i,
{
    if left > 0 && 0 <= i < volumes.len() {
        let available = volumes[i].data_size - within;
        let take = if left < available {
            left
        } else {
            available
        };
        lemma_runs_inside(volumes, i + 1, 0, left - take);
        let (rest, complete) = runs_from(volumes, i + 1, 0, left - take);
        if take > 0 {
            let head = Segment { volume: i as usize, within: within as u64, length: take as u64 };
            let all = seq![head] + rest;
            assert forall|k: int| 0 <= k < all.len() implies {
                &&& i <= (#[trigger] all[k]).volume < volumes.len()
                &&& all[k].length > 0
                &&& all[k].within + all[k].length <= volumes[all[k].volume as int].data_size
                &&& all[k].within == (if all[k].volume == i {
                    within
                } else {
                    0
                })
            } by {
                if k > 0 {
                    assert(all[k] == rest[k - 1]);
                }
            }
            assert forall|k: int, m: int| 0 <= k < m < all.len() implies #[trigger] all[k].volume
                < #[trigger] all[m].volume by {
                assert(all[m] == rest[m - 1]);
                if k > 0 {
                    assert(all[k] == rest[k - 1]);
                }
            }
        } else {
            assert forall|k: int| 0 <= k < rest.len() implies (#[trigger] rest[k]).within == (if rest[k].volume == i {
                within
            } else {
                0
            }) by {}
        }
    }
}

/// Where an entry's compressed bytes lie: each run inside the data area of
/// its volume, the volumes rising, every run but one in the volume that
/// holds the entry's offset starting at the start of its area; the runs
/// hold all of the bytes when the volumes hold them, fewer when not.
pub proof fn lemma_layout(volumes: Seq<Volume>, offset: int, length: int)
    requires
        volumes.len() <= usize::MAX,
    ensures
        layout(volumes, offset, length) matches Some((runs, complete)) ==> {
            let i = volume_holding(volumes, offset, 0)->Some_0;
            &&& runs_inside(volumes, runs, i, offset - volumes[i].logical_start)
            &&& complete ==> run_total(runs) == (if length < 0 {
                0
            } else {
                length
            })
            &&& !complete ==> run_total(runs) < length
        },
{
    if let Some(i) = volume_holding(volumes, offset, 0) {
        lemma_volume_holding(volumes, offset, 0);
        lemma_runs_inside(volumes, i, offset - volumes[i].logical_start, length);
        lemma_runs_from(volumes, i, offset - volumes[i].logical_start, length);
    }
}

proof fn lemma_volume_holding(volumes: Seq<Volume>, offset: int, from: int)
    ensures
        volume_holding(volumes, offset, from) matches Some(i) ==> 0 <= from <= i < volumes.len()
            && volumes[i].logical_start <= offset < volumes[i].logical_start + volumes[i].data_size,
    decreases volumes.len() - from,
{
    if 0 <= from < volumes.len() {
        lemma_volume_holding(volumes, offset, from + 1);
    }
}

/// The first volume whose data area holds the archive data offset
/// `offset`.
fn holding_volume(volumes: &Vec<Volume>, offset: u64) -> (r: Option<usize>)
    ensures
        r matches Some(k) ==> volume_holding(volumes@, offset as int, 0) == Some(k as int) && k
            < volumes@.len() && volumes@[k as int].logical_start <= offset < volumes@[k as int].logical_start
            + volumes@[k as int].data_size,
        r is None ==> volume_holding(volumes@, offset as int, 0) is None,
{
    let mut i: usize = 0;
    while i < volumes.len()
        invariant
            i <= volumes@.len(),
            volume_holding(volumes@, offset as int, 0) == volume_holding(volumes@, offset as int, i as int),
        decreases volumes@.len() - i,
    {
        let v = &volumes[i];
        if v.logical_start <= offset && (offset as u128) < v.logical_start as u128 + v.data_size as u128 {
            return Some(i);
        }
        i = i + 1;
    }
    None
}

impl Archive {
    /// Where `entry`'s compressed bytes lie in the volumes: the runs to
    /// read in order, and whether the volumes hold all of the bytes.
    pub fn packed_segments(&self, entry: &Entry) -> (r: Result<(Vec<Segment>, bool), Error>)
        ensures
            match layout(self.volumes@, entry.offset as int, entry.packed_size as int) {
                None => r == Err::<(Vec<Segment>, bool), Error>(Error::OffsetOutsideVolumes),
                Some((runs, complete)) => r matches Ok((v, c)) && v@ == runs && c == complete,
            },
    {
        let volumes = &self.volumes;
        let offset = entry.offset;
        let mut i = match holding_volume(volumes, offset) {
            Some(i) => i,
            None => {
                return Err(Error::OffsetOutsideVolumes);
            },
        };
        let first = i;
        assert(volume_holding(volumes@, offset as int, 0) == Some(i as int));
        assert(volumes@[i as int].logical_start <= offset);
        let mut within: u64 = offset - volumes[i].logical_start;
        let mut left: u64 = entry.packed_size;
        let mut runs: Vec<Segment> = Vec::new();
        let ghost whole = runs_from(volumes@, i as int, within as int, left as int);
        proof {
            lemma_runs_from(volumes@, i as int, within as int, left as int);
        }
        while left > 0 && i < volumes.len()
            invariant
                first <= i <= volumes@.len(),
                i < volumes@.len() ==> within <= volumes@[i as int].data_size,
                i > first ==> within == 0,
                runs@ + runs_from(volumes@, i as int, within as int, left as int).0 == whole.0,
                runs_from(volumes@, i as int, within as int, left as int).1 == whole.1,
            decreases volumes@.len() - i,
        {
            let available = volumes[i].data_size - within;
            let take = if left < available {
                left
            } else {
                available
            };
            let ghost rest = runs_from(volumes@, i + 1, 0, left - take);
            if take > 0 {
                let ghost before = runs@;
                runs.push(Segment { volume: i, within, length: take });
                assert(runs@ + rest.0 =~= before + (seq![
                    Segment { volume: i, within, length: take },
                ] + rest.0));
            }
            left = left - take;
            within = 0;
            i = i + 1;
        }
        assert(runs@ =~= whole.0);
        Ok((runs, left == 0))
    }
}

/// What unpacking an entry whose compressed bytes are `packed` comes to,
/// `complete` telling whether the volumes held all of them: the error, if
/// any, the stream's own, but that running out of bytes the volumes do not
/// hold means the entry runs past the last volume, and that the stream must
/// take all of the entry's compressed bytes.
pub open spec fn unpack_outcome(entry: EntryInfo, packed: Seq<u8>, complete: bool) -> Result<(), Error> {
    match inflate(packed, entry.size as u64) {
        Inflated::Done(_, consumed) => if consumed == entry.packed_size {
            Ok(())
        } else {
            Err(Error::TrailingBytes)
        },
        Inflated::Failed(e, _) => if e == DclError::Truncated && !complete {
            Err(Error::BeyondFinalVolume)
        } else {
            Err(Error::Dcl(e))
        },
    }
}

/// The bytes that unpacking an entry whose compressed bytes are `packed`
/// writes.
pub open spec fn unpacked_bytes(entry: EntryInfo, packed: Seq<u8>) -> Seq<u8> {
    match inflate(packed, entry.size as u64) {
        Inflated::Done(out, _) => out,
        Inflated::Failed(_, produced) => produced.take(flushed(produced.len() as int)),
    }
}

impl Archive {
    /// Decompresses `entry` onto the end of `output`; `packed` holds the
    /// bytes of the runs that `packed_segments` gives for it, in order.
    pub fn unpack(&self, entry: &Entry, packed: &[u8], output: &mut Vec<u8>) -> (r: Result<(), Error>)
        requires
            layout(self.volumes@, entry.offset as int, entry.packed_size as int) matches Some(
                (runs, _),
            ) ==> packed@.len() == run_total(runs),
        ensures
            match layout(self.volumes@, entry.offset as int, entry.packed_size as int) {
                None => r == Err::<(), Error>(Error::OffsetOutsideVolumes) && final(output)@ == old(
                    output,
                )@,
                Some((_, complete)) => r == unpack_outcome(entry.info(), packed@, complete)
                    && final(output)@ == old(output)@ + unpacked_bytes(entry.info(), packed@),
            },
    {
        let (_, complete) = match self.packed_segments(entry) {
            Ok(found) => found,
            Err(e) => {
                return Err(e);
            },
        };
        assert(entry.info().size as u64 == entry.size);
        let ghost outcome = inflate(packed@, entry.size);
        // Its length fits a `usize`.
        let _packed_len = packed.len();
        let result = explode(packed, output, entry.size);
        assert(final(output)@ == old(output)@ + unpacked_bytes(entry.info(), packed@));
        match result {
            Ok(consumed) => if consumed == entry.packed_size {
                Ok(())
            } else {
                Err(Error::TrailingBytes)
            },
            Err(e) => if e == DclError::Truncated && !complete {
                Err(Error::BeyondFinalVolume)
            } else {
                Err(Error::Dcl(e))
            },
        }
    }
}

// ---------------------------------------------------------------------------
// The first volume of an input

/// The value of `s` as Rust reads a `u32`: an optional `+`, then one or
/// more decimal digits, at most `u32::MAX`.
pub open spec fn u32_value(s: Seq<char>) -> Option<int> {
    let digits = if s.len() > 0 && s[0] == '+' {
        s.drop_first()
    } else {
        s
    };
    if all_digits(digits) && decimal(digits) <= u32::MAX {
        Some(decimal(digits))
    } else {
        None
    }
}

/// Refuses an explicit archive file whose extension is a number other
/// than 1.
fn check_explicit_volume(extension: &Option<String>) -> (r: Result<(), Error>)
    ensures
        match opt_view(*extension) {
            Some(e) => match u32_value(e) {
                Some(n) => if n != 1 {
                    r == Err::<(), Error>(Error::NotFirstVolume)
                } else {
                    r is Ok
                },
                None => r is Ok,
            },
            None => r is Ok,
        },
{
    let chars = match extension {
        Some(e) => chars_of(e.as_str()),
        None => {
            return Ok(());
        },
    };
    let digits = if chars.len() > 0 && chars[0] == '+' {
        let mut d: Vec<char> = Vec::new();
        let mut k: usize = 1;
        while k < chars.len()
            invariant
                1 <= k <= chars@.len(),
                d@ == chars@.subrange(1, k as int),
            decreases chars@.len() - k,
        {
            d.push(chars[k]);
            k = k + 1;
            assert(d@ =~= chars@.subrange(1, k as int));
        }
        assert(d@ =~= chars@.drop_first());
        d
    } else {
        chars
    };
    let ghost e = chars@;
    assert(e == opt_view(*extension)->Some_0);
    assert(digits@ == (if e.len() > 0 && e[0] == '+' {
        e.drop_first()
    } else {
        e
    }));
    if !digits_only(digits.as_slice()) {
        return Ok(());
    }
    match parse_decimal(digits.as_slice(), u32::MAX as u64) {
        Some(n) => if n != 1 {
            Err(Error::NotFirstVolume)
        } else {
            Ok(())
        },
        None => Ok(()),
    }
}

/// An entry of a directory listing.
pub struct Listed {
    /// Its file name, invalid Unicode replaced.
    pub name: String,
    /// Its extension, where it has one that is valid Unicode.
    pub extension: Option<String>,
    pub path: PathBuf,
    /// Whether it is a regular file, links followed.
    pub is_file: bool,
    /// Whether it is a directory, links followed.
    pub is_dir: bool,
}

/// The names of listed entries.
pub open spec fn listed_names(entries: Seq<Listed>) -> Seq<Seq<char>> {
    entries.map_values(|e: Listed| e.name@)
}

/// The first volumes among listed entries: the regular files whose
/// extension is `1`, in order.
pub open spec fn first_volumes_of(entries: Seq<Listed>) -> Seq<PathBuf>
    decreases entries.len(),
{
    if entries.len() == 0 {
        Seq::empty()
    } else {
        let rest = first_volumes_of(entries.drop_last());
        let e = entries.last();
        if e.is_file && opt_view(e.extension) == Some("1"@) {
            rest.push(e.path)
        } else {
            rest
        }
    }
}

/// The first volumes (`*.1`) among the entries of a directory listing.
pub fn first_volumes(entries: &Vec<Listed>) -> (r: Vec<PathBuf>)
    ensures
        r@ == first_volumes_of(entries@),
{
    let mut r: Vec<PathBuf> = Vec::new();
    let mut i: usize = 0;
    while i < entries.len()
        invariant
            i <= entries@.len(),
            r@ == first_volumes_of(entries@.take(i as int)),
        decreases entries@.len() - i,
    {
        assert(entries@.take(i + 1).drop_last() =~= entries@.take(i as int));
        assert(entries@.take(i + 1).last() == entries@[i as int]);
        if entries[i].is_file && first_volume_extension(&entries[i].extension) {
            r.push(copy_path(&entries[i].path));
        }
        i = i + 1;
    }
    assert(entries@.take(i as int) =~= entries@);
    r
}

/// Where the entries of a directory called DISK1 in any ASCII case stand
/// in a listing.
pub open spec fn disk1_found(entries: Seq<Listed>) -> Seq<int> {
    matching(listed_names(entries), "DISK1"@)
}

/// The first volumes that a directory holds: those of its listing
/// `entries`, then, where its one entry called DISK1 in any ASCII case is
/// a directory, those of that directory's listing `disk1`, where given.
pub open spec fn directory_candidates(entries: Seq<Listed>, disk1: Option<Seq<Listed>>) -> Seq<PathBuf> {
    let found = disk1_found(entries);
    if found.len() == 1 && entries[found[0]].is_dir && disk1 is Some {
        first_volumes_of(entries) + first_volumes_of(disk1->Some_0)
    } else {
        first_volumes_of(entries)
    }
}

/// What the file system holds at an input path.
pub enum InputKind {
    File,
    /// A directory, with its listing and, where it has one entry called
    /// DISK1 in any ASCII case that is a directory, that one's listing.
    Directory { entries: Vec<Listed>, disk1: Option<Vec<Listed>> },
    Missing,
}

/// The view of an optional listing.
pub open spec fn listing_view(l: Option<Vec<Listed>>) -> Option<Seq<Listed>> {
    match l {
        Some(v) => Some(v@),
        None => None,
    }
}

/// The first volume of the archive at `input`: an explicit file, which
/// must not name a later volume, or the only first volume found in a
/// directory.
pub fn find_first(input: &FileName, kind: InputKind) -> (r: Result<PathBuf, Error>)
    ensures
        match kind {
            InputKind::File => match opt_view(input.extension) {
                Some(e) => match u32_value(e) {
                    Some(n) => if n != 1 {
                        r == Err::<PathBuf, Error>(Error::NotFirstVolume)
                    } else {
                        r == Ok::<PathBuf, Error>(input.path)
                    },
                    None => r == Ok::<PathBuf, Error>(input.path),
                },
                None => r == Ok::<PathBuf, Error>(input.path),
            },
            InputKind::Missing => r == Err::<PathBuf, Error>(Error::InputNotFound(input.path)),
            InputKind::Directory { entries, disk1 } => if disk1_found(entries@).len() > 1 {
                r matches Err(Error::AmbiguousName(n, d)) && n@ == "DISK1"@ && d == input.path
            } else {
                let candidates = directory_candidates(entries@, listing_view(disk1));
                if candidates.len() == 1 {
                    r == Ok::<PathBuf, Error>(candidates[0])
                } else if candidates.len() == 0 {
                    r == Err::<PathBuf, Error>(Error::NoFirstVolume(input.path))
                } else {
                    r == Err::<PathBuf, Error>(Error::MultipleFirstVolumes)
                }
            },
        },
{
    match kind {
        InputKind::File => {
            match check_explicit_volume(&input.extension) {
                Ok(()) => Ok(copy_path(&input.path)),
                Err(e) => Err(e),
            }
        },
        InputKind::Missing => Err(Error::InputNotFound(copy_path(&input.path))),
        InputKind::Directory { entries, disk1 } => {
            let mut candidates = first_volumes(&entries);
            match child_named(&entries, "DISK1", &input.path) {
                Err(e) => {
                    return Err(e);
                },
                Ok(Some(_)) => {
                    if let Some(listing) = disk1 {
                        let mut more = first_volumes(&listing);
                        candidates.append(&mut more);
                    }
                },
                Ok(None) => {},
            }
            proof {
                reveal_strlit("DISK1");
            }
            assert(candidates@ == directory_candidates(entries@, listing_view(disk1)));
            if candidates.len() == 1 {
                Ok(candidates.remove(0))
            } else if candidates.len() == 0 {
                Err(Error::NoFirstVolume(copy_path(&input.path)))
            } else {
                Err(Error::MultipleFirstVolumes)
            }
        },
    }
}

/// Whether a file's extension marks a first volume: it is `1`.
pub fn first_volume_extension(extension: &Option<String>) -> (b: bool)
    ensures
        b == (opt_view(*extension) == Some("1"@)),
{
    match extension {
        Some(e) => chars_equal(chars_of(e.as_str()).as_slice(), "1"),
        None => false,
    }
}

/// The number of `names` equal to `name` in any ASCII case.
pub open spec fn matching(names: Seq<Seq<char>>, name: Seq<char>) -> Seq<int>
    decreases names.len(),
{
    if names.len() == 0 {
        Seq::empty()
    } else {
        let rest = matching(names.drop_last(), name);
        if ascii_lowercase(names.last()) == ascii_lowercase(name) {
            rest.push(names.len() - 1)
        } else {
            rest
        }
    }
}

/// The entry of a directory called `name` in any ASCII case, given the
/// directory's listing, where it is a directory; several entries so called
/// are refused.
pub fn child_named(entries: &Vec<Listed>, name: &str, directory: &PathBuf) -> (r: Result<
    Option<PathBuf>,
    Error,
>)
    ensures
        ({
            let found = matching(listed_names(entries@), name@);
            if found.len() == 0 {
                r matches Ok(None)
            } else if found.len() == 1 {
                r == Ok::<Option<PathBuf>, Error>(
                    if entries@[found[0]].is_dir {
                        Some(entries@[found[0]].path)
                    } else {
                        None
                    },
                )
            } else {
                r matches Err(Error::AmbiguousName(n, d)) && n@ == name@ && d == *directory
            }
        }),
{
    let ghost names = listed_names(entries@);
    let wanted = chars_of(name);
    let mut found: Vec<usize> = Vec::new();
    let mut i: usize = 0;
    while i < entries.len()
        invariant
            names == listed_names(entries@),
            wanted@ == name@,
            i <= entries@.len(),
            found@.map_values(|k: usize| k as int) == matching(names.take(i as int), name@),
            forall|k: int| 0 <= k < found@.len() ==> found@[k] < i,
        decreases entries@.len() - i,
    {
        assert(names.take(i + 1).drop_last() =~= names.take(i as int));
        let own = chars_of(entries[i].name.as_str());
        if eq_ignore_ascii_case(own.as_slice(), wanted.as_slice()) {
            found.push(i);
        }
        i = i + 1;
        assert(found@.map_values(|k: usize| k as int) =~= matching(names.take(i as int), name@));
    }
    assert(names.take(i as int) =~= names);
    if found.len() > 1 {
        return Err(Error::AmbiguousName(string_of(wanted.as_slice()), copy_path(directory)));
    }
    if found.len() == 0 {
        return Ok(None);
    }
    let k = found[0];
    assert(found@.map_values(|k: usize| k as int)[0] == k as int);
    if entries[k].is_dir {
        Ok(Some(copy_path(&entries[k].path)))
    } else {
        Ok(None)
    }
}

} // verus!
