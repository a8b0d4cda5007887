//! PKWARE DCL ("implode") decompression: the stream format, stated as a
//! specification over the bits of the input, and a decoder proved against it.

use vstd::prelude::*;

verus! {

/// Why a DCL stream was refused.
#[derive(Clone, Copy, Debug, PartialEq, Eq, Structural)]
pub enum DclError {
    /// The input ended before the end-of-stream marker.
    Truncated,
    /// The first byte is neither 0 (plain literals) nor 1 (coded literals).
    InvalidLiteralMode,
    /// The second byte is not a dictionary size of 4, 5 or 6 bits.
    InvalidDictionarySize,
    /// No code of length 1 to 13 matches the next bits.
    InvalidHuffmanCode,
    /// A copy reaches back before the first byte of the output.
    BackReferenceBeforeStart,
    /// The output would grow past the advertised size.
    ExceedsAdvertisedSize,
    /// The end marker came before the advertised size was reached.
    SizeMismatch { expected: u64, got: u64 },
}

// ---------------------------------------------------------------------------
// Bits of the input

/// `2^n`.
pub open spec fn power_of_two(n: nat) -> nat
    decreases n,
{
    if n == 0 {
        1
    } else {
        2 * power_of_two((n - 1) as nat)
    }
}

/// Bit `k` of the stream: bytes are read in order, each from its least
/// significant bit up.
pub open spec fn stream_bit(input: Seq<u8>, k: int) -> u8 {
    (input[k / 8] >> ((k % 8) as u8)) & 1u8
}

/// The `n` bits from position `pos`, the first of them the least significant.
pub open spec fn stream_bits(input: Seq<u8>, pos: int, n: nat) -> nat
    decreases n,
{
    if n == 0 {
        0
    } else {
        stream_bits(input, pos, (n - 1) as nat) + if stream_bit(input, pos + n - 1) == 1u8 {
            power_of_two((n - 1) as nat)
        } else {
            0
        }
    }
}

proof fn lemma_power_of_two_monotonic(n: nat, m: nat)
    requires
        n <= m,
    ensures
        1 <= power_of_two(n) <= power_of_two(m),
    decreases m,
{
    if n < m {
        lemma_power_of_two_monotonic(n, (m - 1) as nat);
    } else if n > 0 {
        lemma_power_of_two_monotonic((n - 1) as nat, (n - 1) as nat);
    }
}

proof fn lemma_power_of_two_bounds(n: nat)
    ensures
        1 <= power_of_two(n),
        n <= 8 ==> power_of_two(n) <= 256,
        n <= 13 ==> power_of_two(n) <= 8192,
        n <= 14 ==> power_of_two(n) <= 16384,
{
    reveal_with_fuel(power_of_two, 15);
    if n <= 8 {
        lemma_power_of_two_monotonic(n, 8);
    } else if n <= 13 {
        lemma_power_of_two_monotonic(n, 13);
    } else if n <= 14 {
        lemma_power_of_two_monotonic(n, 14);
    } else {
        lemma_power_of_two_monotonic(0, n);
    }
}

proof fn lemma_stream_bits_bound(input: Seq<u8>, pos: int, n: nat)
    ensures
        stream_bits(input, pos, n) < power_of_two(n),
    decreases n,
{
    if n > 0 {
        lemma_stream_bits_bound(input, pos, (n - 1) as nat);
    }
}

/// A read position in the input, counted in whole bytes and a bit within
/// the next byte.
struct Bits {
    byte: usize,
    bit: u8,
}

impl Bits {
    spec fn pos(self) -> int {
        8 * self.byte + self.bit
    }

    spec fn wf(self, input: Seq<u8>) -> bool {
        &&& self.bit < 8
        &&& self.byte < input.len() || (self.byte == input.len() && self.bit == 0)
    }

    /// Reads one bit.
    fn get_bit(&mut self, input: &[u8]) -> (b: u8)
        requires
            old(self).wf(input@),
            old(self).pos() < 8 * input@.len(),
        ensures
            final(self).wf(input@),
            final(self).pos() == old(self).pos() + 1,
            b == stream_bit(input@, old(self).pos()),
            b <= 1,
    {
        proof {
            vstd::arithmetic::div_mod::lemma_fundamental_div_mod_converse(
                self.pos(),
                8,
                self.byte as int,
                self.bit as int,
            );
        }
        let byte = input[self.byte];
        let shift = self.bit;
        let b = (byte >> shift) & 1u8;
        assert(b <= 1) by (bit_vector)
            requires
                b == (byte >> shift) & 1u8,
        ;
        if self.bit == 7 {
            self.bit = 0;
            self.byte = self.byte + 1;
        } else {
            self.bit = self.bit + 1;
        }
        b
    }

    /// Reads `count` bits, the first of them the least significant.
    fn get(&mut self, input: &[u8], count: u8) -> (r: Result<u32, DclError>)
        requires
            old(self).wf(input@),
            count <= 8,
        ensures
            final(self).wf(input@),
            old(self).pos() + count <= 8 * input@.len() ==> r == Ok::<u32, DclError>(
                stream_bits(input@, old(self).pos(), count as nat) as u32,
            ) && final(self).pos() == old(self).pos() + count,
            old(self).pos() + count > 8 * input@.len() ==> r == Err::<u32, DclError>(
                DclError::Truncated,
            ),
    {
        let ghost start = self.pos();
        let mut value: u32 = 0;
        let mut weight: u32 = 1;
        let mut j: u8 = 0;
        while j < count
            invariant
                self.wf(input@),
                start == old(self).pos(),
                j <= count <= 8,
                self.pos() == start + j,
                weight == power_of_two(j as nat),
                value == stream_bits(input@, start, j as nat),
                start + count <= 8 * input@.len() || start + j <= 8 * input@.len(),
            decreases count - j,
        {
            proof {
                lemma_power_of_two_bounds(j as nat);
                lemma_stream_bits_bound(input@, start, j as nat);
            }
            if self.byte >= input.len() {
                return Err(DclError::Truncated);
            }
            let b = self.get_bit(input);
            if b == 1 {
                value = value + weight;
            }
            weight = weight * 2;
            j = j + 1;
        }
        Ok(value)
    }
}

// ---------------------------------------------------------------------------
// Canonical Huffman codes

/// Code lengths described by a table of repeats: each byte stands for
/// `byte / 16 + 1` symbols with code length `byte % 16`.
pub open spec fn code_lengths(repeats: Seq<u8>) -> Seq<u8>
    decreases repeats.len(),
{
    if repeats.len() == 0 {
        Seq::empty()
    } else {
        code_lengths(repeats.drop_last()) + Seq::new(
            (repeats.last() / 16 + 1) as nat,
            |i: int| repeats.last() % 16,
        )
    }
}

/// The symbols below `upto` whose code has `len` bits, in increasing order.
pub open spec fn symbols_of_length(lengths: Seq<u8>, len: int, upto: int) -> Seq<int>
    decreases upto,
{
    if upto <= 0 {
        Seq::empty()
    } else if lengths[upto - 1] == len {
        symbols_of_length(lengths, len, upto - 1).push(upto - 1)
    } else {
        symbols_of_length(lengths, len, upto - 1)
    }
}

/// How many symbols have a code of `len` bits.
pub open spec fn length_count(lengths: Seq<u8>, len: int) -> int {
    symbols_of_length(lengths, len, lengths.len() as int).len() as int
}

/// The symbols with code lengths below `len`, ordered by code length and
/// then by symbol.
pub open spec fn canonical_order(lengths: Seq<u8>, len: int) -> Seq<int>
    decreases len,
{
    if len <= 0 {
        Seq::empty()
    } else {
        canonical_order(lengths, len - 1) + symbols_of_length(lengths, len - 1, lengths.len() as int)
    }
}

/// The code of the first symbol with a `len`-bit code.
pub open spec fn first_code(lengths: Seq<u8>, len: int) -> int
    decreases len,
{
    if len <= 1 {
        0
    } else {
        2 * (first_code(lengths, len - 1) + length_count(lengths, len - 1))
    }
}

/// Where the `len`-bit codes start in the canonical order, codes of length
/// zero not counted.
pub open spec fn first_index(lengths: Seq<u8>, len: int) -> int
    decreases len,
{
    if len <= 1 {
        0
    } else {
        first_index(lengths, len - 1) + length_count(lengths, len - 1)
    }
}

/// The outcome of reading one Huffman code.
pub enum Decoded {
    /// The symbol, and the position after its code.
    Symbol(int, int),
    /// The input ended inside the code.
    Truncated,
    /// No code of 1 to 13 bits matches.
    Invalid,
}

/// Reads the code bits from `pos`, most significant first and inverted:
/// `code` holds the bits read so far, and `len` counts the next one.
pub open spec fn huffman_walk(lengths: Seq<u8>, input: Seq<u8>, pos: int, len: int, code: int) -> Decoded
    decreases 14 - len,
{
    if len < 1 || len > 13 {
        Decoded::Invalid
    } else if pos < 0 || pos >= 8 * input.len() {
        Decoded::Truncated
    } else {
        let c = code + 1 - stream_bit(input, pos);
        if c < first_code(lengths, len) + length_count(lengths, len) {
            Decoded::Symbol(
                canonical_order(lengths, 16)[first_index(lengths, len) + c - first_code(lengths, len)],
                pos + 1,
            )
        } else {
            huffman_walk(lengths, input, pos + 1, len + 1, 2 * c)
        }
    }
}

/// The symbol whose canonical code starts at bit `pos`.
pub open spec fn huffman_decode(lengths: Seq<u8>, input: Seq<u8>, pos: int) -> Decoded {
    huffman_walk(lengths, input, pos, 1, 0)
}

proof fn lemma_symbols_of_length(lengths: Seq<u8>, len: int, upto: int)
    requires
        upto <= lengths.len(),
    ensures
        upto >= 0 ==> symbols_of_length(lengths, len, upto).len() <= upto,
        forall|i: int|
            0 <= i < symbols_of_length(lengths, len, upto).len() ==> 0 <= #[trigger] symbols_of_length(
                lengths,
                len,
                upto,
            )[i] < upto && lengths[symbols_of_length(lengths, len, upto)[i]] == len,
    decreases upto,
{
    if upto > 0 {
        lemma_symbols_of_length(lengths, len, upto - 1);
    }
}

proof fn lemma_canonical_order(lengths: Seq<u8>, len: int)
    requires
        0 <= len,
    ensures
        forall|i: int|
            0 <= i < canonical_order(lengths, len).len() ==> 0 <= #[trigger] canonical_order(
                lengths,
                len,
            )[i] < lengths.len(),
        len >= 1 ==> first_index(lengths, len) + length_count(lengths, 0) == canonical_order(
            lengths,
            len,
        ).len(),
    decreases len,
{
    if len > 0 {
        lemma_canonical_order(lengths, len - 1);
        lemma_symbols_of_length(lengths, len - 1, lengths.len() as int);
        let a = canonical_order(lengths, len - 1);
        let b = symbols_of_length(lengths, len - 1, lengths.len() as int);
        assert forall|i: int| 0 <= i < (a + b).len() implies 0 <= #[trigger] (a + b)[i]
            < lengths.len() by {
            if i >= a.len() {
                assert((a + b)[i] == b[i - a.len()]);
            }
        }
    }
}

proof fn lemma_canonical_order_grows(lengths: Seq<u8>, len: int, to: int)
    requires
        0 <= len <= to,
    ensures
        canonical_order(lengths, len).len() <= canonical_order(lengths, to).len(),
    decreases to,
{
    if len < to {
        lemma_canonical_order_grows(lengths, len, to - 1);
    }
}

/// A canonical Huffman decoder: how many codes each length has, and the
/// symbols in canonical order.
struct Huffman {
    counts: Vec<usize>,
    symbols: Vec<usize>,
    lengths: Ghost<Seq<u8>>,
}

impl Huffman {
    spec fn wf(self) -> bool {
        &&& self.counts@.len() == 16
        &&& forall|len: int| 0 <= len < 16 ==> #[trigger] self.counts@[len] == length_count(self.lengths@, len)
        &&& self.symbols@.len() == canonical_order(self.lengths@, 16).len()
        &&& forall|i: int| 0 <= i < self.symbols@.len() ==> #[trigger] self.symbols@[i] as int == canonical_order(self.lengths@, 16)[i]
        &&& self.lengths@.len() <= 4096
        &&& forall|i: int| 0 <= i < self.lengths@.len() ==> #[trigger] self.lengths@[i] < 16
    }

    /// Builds the decoder for the code lengths that `repeats` describes.
    fn new(repeats: &[u8]) -> (h: Huffman)
        requires
            repeats@.len() <= 256,
        ensures
            h.wf(),
            h.lengths@ == code_lengths(repeats@),
    {
        let mut lengths: Vec<u8> = Vec::new();
        let mut i: usize = 0;
        while i < repeats.len()
            invariant
                i <= repeats@.len() <= 256,
                lengths@ == code_lengths(repeats@.take(i as int)),
                lengths@.len() <= 16 * i,
                forall|k: int| 0 <= k < lengths@.len() ==> #[trigger] lengths@[k] < 16,
            decreases repeats@.len() - i,
        {
            let r = repeats[i];
            let ghost before = lengths@;
            let mut n: u8 = 0;
            while n <= r / 16
                invariant
                    n <= r / 16 + 1,
                    r == repeats@[i as int],
                    lengths@ == before + Seq::new(n as nat, |k: int| r % 16),
                    forall|k: int| 0 <= k < lengths@.len() ==> #[trigger] lengths@[k] < 16,
                decreases r / 16 + 1 - n,
            {
                lengths.push(r % 16);
                n = n + 1;
                assert(lengths@ =~= before + Seq::new(n as nat, |k: int| r % 16));
            }
            assert(repeats@.take(i + 1).drop_last() =~= repeats@.take(i as int));
            i = i + 1;
        }
        assert(repeats@.take(i as int) =~= repeats@);
        let ghost all = lengths@;
        let mut counts: Vec<usize> = Vec::new();
        let mut symbols: Vec<usize> = Vec::new();
        let mut len: u8 = 0;
        while len < 16
            invariant
                len <= 16,
                lengths@ == all,
                all.len() <= 4096,
                counts@.len() == len,
                forall|l: int| 0 <= l < len ==> #[trigger] counts@[l] == length_count(all, l),
                symbols@.len() == canonical_order(all, len as int).len(),
                forall|k: int| 0 <= k < symbols@.len() ==> #[trigger] symbols@[k] as int == canonical_order(all, len as int)[k],
            decreases 16 - len,
        {
            let ghost before = symbols@;
            let mut count: usize = 0;
            let mut s: usize = 0;
            while s < lengths.len()
                invariant
                    s <= lengths@.len(),
                    lengths@ == all,
                    all.len() <= 4096,
                    len < 16,
                    symbols@.len() == before.len() + count,
                    count == symbols_of_length(all, len as int, s as int).len(),
                    count <= s,
                    forall|k: int| 0 <= k < before.len() ==> #[trigger] symbols@[k] == before[k],
                    forall|k: int| 0 <= k < count ==> #[trigger] symbols@[before.len() + k] as int
                        == symbols_of_length(all, len as int, s as int)[k],
                decreases lengths@.len() - s,
            {
                proof {
                    lemma_symbols_of_length(all, len as int, s as int);
                }
                if lengths[s] == len {
                    symbols.push(s);
                    count = count + 1;
                }
                s = s + 1;
            }
            counts.push(count);
            proof {
                let a = canonical_order(all, len as int);
                let b = symbols_of_length(all, len as int, all.len() as int);
                assert(canonical_order(all, len + 1) == a + b);
                assert forall|k: int| 0 <= k < symbols@.len() implies #[trigger] symbols@[k] as int
                    == canonical_order(all, len + 1)[k] by {
                    if k >= a.len() {
                        assert(symbols@[before.len() + (k - before.len())] as int == b[k - a.len()]);
                    }
                }
            }
            len = len + 1;
        }
        Huffman { counts, symbols, lengths: Ghost(all) }
    }

    /// Reads one code from the input and returns its symbol.
    fn decode(&self, bits: &mut Bits, input: &[u8]) -> (r: Result<usize, DclError>)
        requires
            self.wf(),
            old(bits).wf(input@),
        ensures
            final(bits).wf(input@),
            match huffman_decode(self.lengths@, input@, old(bits).pos()) {
                Decoded::Symbol(s, p) => r == Ok::<usize, DclError>(s as usize) && final(bits).pos()
                    == p && 0 <= s < self.lengths@.len(),
                Decoded::Truncated => r == Err::<usize, DclError>(DclError::Truncated),
                Decoded::Invalid => r == Err::<usize, DclError>(DclError::InvalidHuffmanCode),
            },
    {
        let ghost lengths = self.lengths@;
        let ghost target = huffman_decode(lengths, input@, bits.pos());
        let mut code: usize = 0;
        let mut first: usize = 0;
        let mut index: usize = 0;
        let mut len: usize = 1;
        let ghost mut w: int = 2;
        proof {
            lemma_canonical_order(lengths, 16);
            reveal_with_fuel(power_of_two, 2);
        }
        while len <= 13
            invariant
                self.wf(),
                target == huffman_decode(self.lengths@, input@, old(bits).pos()),
                lengths == self.lengths@,
                bits.wf(input@),
                1 <= len <= 14,
                target == huffman_walk(lengths, input@, bits.pos(), len as int, code as int),
                first == first_code(lengths, len as int),
                index == first_index(lengths, len as int),
                first <= code,
                code + 2 <= w,
                w == power_of_two(len as nat),
                forall|i: int|
                    0 <= i < canonical_order(lengths, 16).len() ==> 0 <= #[trigger] canonical_order(
                        lengths,
                        16,
                    )[i] < lengths.len(),
            decreases 14 - len,
        {
            proof {
                lemma_power_of_two_bounds(len as nat);
                lemma_canonical_order(lengths, len + 1);
                lemma_canonical_order_grows(lengths, len + 1, 16);
                lemma_symbols_of_length(lengths, len as int, lengths.len() as int);
            }
            if bits.byte >= input.len() {
                return Err(DclError::Truncated);
            }
            let b = bits.get_bit(input);
            code = code + 1 - b as usize;
            let count = self.counts[len];
            assert(count == length_count(lengths, len as int));
            assert(first_index(lengths, len + 1) == index + count);
            let total = self.symbols.len();
            assert(index + count <= total);
            if code < first + count {
                return Ok(self.symbols[index + (code - first)]);
            }
            index = index + count;
            first = (first + count) * 2;
            code = code * 2;
            len = len + 1;
            proof {
                w = 2 * w;
            }
        }
        Err(DclError::InvalidHuffmanCode)
    }
}

// ---------------------------------------------------------------------------
// The DCL stream

/// Code lengths of the 256 literal codes, as repeats.
pub open spec fn literal_repeats() -> Seq<u8> {
    seq![
        11u8, 124, 8, 7, 28, 7, 188, 13, 76, 4, 10, 8, 12, 10, 12, 10, 8, 23, 8, 9, 7, 6, 7, 8, 7, 6, 55,
        8, 23, 24, 12, 11, 7, 9, 11, 12, 6, 7, 22, 5, 7, 24, 6, 11, 9, 6, 7, 22, 7, 11, 38, 7, 9, 8,
        25, 11, 8, 11, 9, 12, 8, 12, 5, 38, 5, 38, 5, 11, 7, 5, 6, 21, 6, 10, 53, 8, 7, 24, 10, 27, 44,
        253, 253, 253, 252, 252, 252, 13, 12, 45, 12, 45, 12, 61, 12, 45, 44, 173
    ]
}

/// Code lengths of the 16 length codes, as repeats.
pub open spec fn length_repeats() -> Seq<u8> {
    seq![2u8, 35, 36, 53, 38, 23]
}

/// Code lengths of the 64 distance codes, as repeats.
pub open spec fn distance_repeats() -> Seq<u8> {
    seq![2u8, 20, 53, 230, 247, 151, 248]
}

/// The shortest copy length of each length code.
pub open spec fn length_base(symbol: int) -> int {
    seq![3int, 2, 4, 5, 6, 7, 8, 9, 10, 12, 16, 24, 40, 72, 136, 264][symbol]
}

/// How many extra bits follow each length code.
pub open spec fn length_extra(symbol: int) -> nat {
    seq![0nat, 0, 0, 0, 0, 0, 0, 0, 1, 2, 3, 4, 5, 6, 7, 8][symbol]
}

/// The copy length that marks the end of the stream.
pub open spec fn end_marker() -> int {
    519
}

/// One token of the stream.
pub enum Token {
    /// A literal byte, and the position after it.
    Literal(u8, int),
    /// Copy `length` bytes from `distance` back; the position after it.
    Copy(int, int, int),
    /// The end marker, and the position after it.
    End(int),
    /// The token could not be read.
    Error(DclError),
}

/// The literal token whose flag bit stands just before `pos`.
#[verifier::opaque]
pub open spec fn literal_token(input: Seq<u8>, coded: bool, pos: int) -> Token {
    if coded {
        match huffman_decode(code_lengths(literal_repeats()), input, pos) {
            Decoded::Symbol(s, p) => Token::Literal((s % 256) as u8, p),
            Decoded::Truncated => Token::Error(DclError::Truncated),
            Decoded::Invalid => Token::Error(DclError::InvalidHuffmanCode),
        }
    } else if pos + 8 > 8 * input.len() {
        Token::Error(DclError::Truncated)
    } else {
        Token::Literal(stream_bits(input, pos, 8) as u8, pos + 8)
    }
}

/// The copy of `length` bytes whose distance code starts at `pos`: the
/// distance code gives the high bits of the distance less one, and the
/// following `shift` bits its low bits.
#[verifier::opaque]
pub open spec fn distance_token(input: Seq<u8>, length: int, shift: nat, pos: int) -> Token {
    match huffman_decode(code_lengths(distance_repeats()), input, pos) {
        Decoded::Symbol(d, r) => {
            if r + shift > 8 * input.len() {
                Token::Error(DclError::Truncated)
            } else {
                Token::Copy(length, d * power_of_two(shift) + stream_bits(input, r, shift) + 1, r + shift)
            }
        },
        Decoded::Truncated => Token::Error(DclError::Truncated),
        Decoded::Invalid => Token::Error(DclError::InvalidHuffmanCode),
    }
}

/// The copy token, or end marker, whose length code starts at `pos`. A
/// copy of 2 bytes takes 2 low distance bits; longer ones take as many as
/// the dictionary size.
#[verifier::opaque]
pub open spec fn match_token(input: Seq<u8>, dictionary: int, pos: int) -> Token {
    match huffman_decode(code_lengths(length_repeats()), input, pos) {
        Decoded::Symbol(s, p) => {
            if p + length_extra(s) > 8 * input.len() {
                Token::Error(DclError::Truncated)
            } else {
                let length = length_base(s) + stream_bits(input, p, length_extra(s));
                let q = p + length_extra(s);
                if length == end_marker() {
                    Token::End(q)
                } else {
                    distance_token(input, length, if length == 2 { 2 } else { dictionary as nat }, q)
                }
            }
        },
        Decoded::Truncated => Token::Error(DclError::Truncated),
        Decoded::Invalid => Token::Error(DclError::InvalidHuffmanCode),
    }
}

/// The token that starts at bit `pos`: a flag bit, 0 for a literal and 1
/// for a copy or the end marker, then the rest of the token.
pub open spec fn read_token(input: Seq<u8>, coded: bool, dictionary: int, pos: int) -> Token {
    if pos < 0 || pos >= 8 * input.len() {
        Token::Error(DclError::Truncated)
    } else if stream_bit(input, pos) == 0 {
        literal_token(input, coded, pos + 1)
    } else {
        match_token(input, dictionary, pos + 1)
    }
}

/// How a copy is laid out in the stream, bit by bit from `pos`: a 1 flag
/// bit, the length code and its extra bits, then the distance code, whose
/// symbol gives the high part of the distance less one, and the low bits
/// of that distance: exactly 2 of them for a copy of 2 bytes, and as many
/// as the dictionary size for a longer one. Length 519 ends the stream
/// instead.
pub proof fn lemma_copy_layout(input: Seq<u8>, coded: bool, dictionary: int, pos: int)
    requires
        0 <= pos < 8 * input.len(),
        stream_bit(input, pos) == 1,
        4 <= dictionary <= 6,
    ensures
        huffman_decode(code_lengths(length_repeats()), input, pos + 1) matches Decoded::Symbol(s, p) ==> {
            let length = length_base(s) + stream_bits(input, p, length_extra(s));
            let q = p + length_extra(s);
            p + length_extra(s) <= 8 * input.len() ==> {
                &&& length == 519 ==> read_token(input, coded, dictionary, pos) == Token::End(q)
                &&& huffman_decode(code_lengths(distance_repeats()), input, q) matches Decoded::Symbol(d, r)
                    ==> {
                    &&& length == 2 && r + 2 <= 8 * input.len() ==> read_token(input, coded, dictionary, pos)
                        == Token::Copy(2, 4 * d + stream_bits(input, r, 2) + 1, r + 2)
                    &&& length > 2 && length != 519 && r + dictionary <= 8 * input.len() ==> read_token(
                        input,
                        coded,
                        dictionary,
                        pos,
                    ) == Token::Copy(
                        length,
                        d * power_of_two(dictionary as nat) + stream_bits(input, r, dictionary as nat) + 1,
                        r + dictionary,
                    )
                }
            }
        },
{
    reveal(match_token);
    reveal(distance_token);
    assert(power_of_two(2) == 4) by {
        assert(power_of_two(0) == 1);
        assert(power_of_two(1) == 2);
    }
}

/// `out` followed by `length` bytes, each copied from `distance` bytes
/// before it; the copy may overlap the bytes it produces.
pub open spec fn copy_back(out: Seq<u8>, distance: int, length: int) -> Seq<u8>
    decreases length,
{
    if length <= 0 {
        out
    } else {
        let prev = copy_back(out, distance, length - 1);
        prev.push(prev[prev.len() - distance])
    }
}

/// The result of decoding a whole stream.
pub enum Inflated {
    /// The decoded bytes, and how many input bytes the stream took,
    /// its end marker included.
    Done(Seq<u8>, int),
    /// The error, and the bytes decoded before it.
    Failed(DclError, Seq<u8>),
}

/// Reading a code moves the position forward, never past the input.
pub proof fn lemma_walk_advances(lengths: Seq<u8>, input: Seq<u8>, pos: int, len: int, code: int)
    ensures
        huffman_walk(lengths, input, pos, len, code) matches Decoded::Symbol(_, p) ==> pos < p <= 8
            * input.len(),
    decreases 14 - len,
{
    if 1 <= len <= 13 && 0 <= pos < 8 * input.len() {
        let c = code + 1 - stream_bit(input, pos);
        lemma_walk_advances(lengths, input, pos + 1, len + 1, 2 * c);
    }
}

/// Reading a token moves the position forward, never past the input.
pub proof fn lemma_token_advances(input: Seq<u8>, coded: bool, dictionary: int, pos: int)
    ensures
        match read_token(input, coded, dictionary, pos) {
            Token::Literal(_, p) => pos < p <= 8 * input.len(),
            Token::Copy(_, _, p) => pos < p <= 8 * input.len(),
            Token::End(p) => pos < p <= 8 * input.len(),
            Token::Error(_) => true,
        },
{
    reveal(literal_token);
    reveal(match_token);
    reveal(distance_token);
    lemma_walk_advances(code_lengths(literal_repeats()), input, pos + 1, 1, 0);
    lemma_walk_advances(code_lengths(length_repeats()), input, pos + 1, 1, 0);
    if let Decoded::Symbol(s, p) = huffman_decode(code_lengths(length_repeats()), input, pos + 1) {
        lemma_walk_advances(code_lengths(distance_repeats()), input, p + length_extra(s), 1, 0);
    }
    if 0 <= pos < 8 * input.len() {
        if stream_bit(input, pos) == 0 {
        } else {
        }
    }
}

/// Decodes the tokens from bit `pos` on, `out` holding the bytes decoded so
/// far, and `expected` the advertised size.
pub open spec fn inflate_from(
    input: Seq<u8>,
    coded: bool,
    dictionary: int,
    pos: int,
    out: Seq<u8>,
    expected: int,
) -> Inflated
    decreases 8 * input.len() - pos,
{
    proof {
        lemma_token_advances(input, coded, dictionary, pos);
    }
    if pos < 0 || pos >= 8 * input.len() {
        Inflated::Failed(DclError::Truncated, out)
    } else {
        match read_token(input, coded, dictionary, pos) {
            Token::Error(e) => Inflated::Failed(e, out),
            Token::End(p) => if out.len() == expected {
                Inflated::Done(out, (p + 7) / 8)
            } else {
                Inflated::Failed(
                    DclError::SizeMismatch { expected: expected as u64, got: out.len() as u64 },
                    out,
                )
            },
            Token::Literal(b, p) => if out.len() + 1 > expected {
                Inflated::Failed(DclError::ExceedsAdvertisedSize, out)
            } else {
                inflate_from(input, coded, dictionary, p, out.push(b), expected)
            },
            Token::Copy(length, distance, p) => if distance > out.len() {
                Inflated::Failed(DclError::BackReferenceBeforeStart, out)
            } else if out.len() + length > expected {
                Inflated::Failed(DclError::ExceedsAdvertisedSize, out)
            } else {
                inflate_from(input, coded, dictionary, p, copy_back(out, distance, length), expected)
            },
        }
    }
}

/// Decodes one DCL stream: a byte that selects plain (0) or coded (1)
/// literals, a byte with the dictionary size in bits (4 to 6), then the
/// tokens up to the end marker; the output must come to `expected` bytes.
pub open spec fn inflate(input: Seq<u8>, expected: u64) -> Inflated {
    if input.len() == 0 {
        Inflated::Failed(DclError::Truncated, Seq::empty())
    } else if input[0] > 1 {
        Inflated::Failed(DclError::InvalidLiteralMode, Seq::empty())
    } else if input.len() == 1 {
        Inflated::Failed(DclError::Truncated, Seq::empty())
    } else if input[1] < 4 || input[1] > 6 {
        Inflated::Failed(DclError::InvalidDictionarySize, Seq::empty())
    } else {
        inflate_from(input, input[0] == 1, input[1] as int, 16, Seq::empty(), expected as int)
    }
}

proof fn lemma_copy_back_len(out: Seq<u8>, distance: int, length: int)
    requires
        length >= 0,
    ensures
        copy_back(out, distance, length).len() == out.len() + length,
    decreases length,
{
    if length > 0 {
        lemma_copy_back_len(out, distance, length - 1);
    }
}

proof fn lemma_inflate_from_size(
    input: Seq<u8>,
    coded: bool,
    dictionary: int,
    pos: int,
    out: Seq<u8>,
    expected: int,
)
    requires
        out.len() <= expected,
    ensures
        inflate_from(input, coded, dictionary, pos, out, expected) matches Inflated::Done(o, c) ==> o.len()
            == expected && c <= input.len() && (pos >= 0 ==> c > 0),
        inflate_from(input, coded, dictionary, pos, out, expected) matches Inflated::Failed(_, o) ==> o.len()
            <= expected,
    decreases 8 * input.len() - pos,
{
    lemma_token_advances(input, coded, dictionary, pos);
    if 0 <= pos < 8 * input.len() {
        match read_token(input, coded, dictionary, pos) {
            Token::Literal(b, p) => {
                if out.len() + 1 <= expected {
                    lemma_inflate_from_size(input, coded, dictionary, p, out.push(b), expected);
                }
            },
            Token::Copy(length, distance, p) => {
                if distance <= out.len() && out.len() + length <= expected {
                    if length >= 0 {
                        lemma_copy_back_len(out, distance, length);
                    }
                    lemma_inflate_from_size(
                        input,
                        coded,
                        dictionary,
                        p,
                        copy_back(out, distance, length),
                        expected,
                    );
                }
            },
            _ => {},
        }
    }
}

/// A stream that decodes gives exactly the advertised number of bytes and
/// takes no more input than there is; one that fails has given no more
/// than the advertised number.
pub proof fn lemma_inflate_size(input: Seq<u8>, expected: u64)
    ensures
        inflate(input, expected) matches Inflated::Done(out, consumed) ==> out.len() == expected
            && 0 < consumed <= input.len(),
        inflate(input, expected) matches Inflated::Failed(_, out) ==> out.len() <= expected,
{
    if input.len() > 1 && input[0] <= 1 && 4 <= input[1] <= 6 {
        lemma_inflate_from_size(input, input[0] == 1, input[1] as int, 16, Seq::empty(), expected as int);
    }
}

proof fn lemma_inflate_from_one_size(
    input: Seq<u8>,
    coded: bool,
    dictionary: int,
    pos: int,
    out: Seq<u8>,
    expected: int,
    other: int,
)
    requires
        out.len() <= expected,
        expected != other,
        inflate_from(input, coded, dictionary, pos, out, expected) is Done,
    ensures
        inflate_from(input, coded, dictionary, pos, out, other) is Failed,
    decreases 8 * input.len() - pos,
{
    lemma_token_advances(input, coded, dictionary, pos);
    if 0 <= pos < 8 * input.len() {
        match read_token(input, coded, dictionary, pos) {
            Token::Literal(b, p) => {
                if out.len() + 1 <= other {
                    lemma_inflate_from_one_size(input, coded, dictionary, p, out.push(b), expected, other);
                }
            },
            Token::Copy(length, distance, p) => {
                if length >= 0 {
                    lemma_copy_back_len(out, distance, length);
                }
                if distance <= out.len() && out.len() + length <= other {
                    lemma_inflate_from_one_size(
                        input,
                        coded,
                        dictionary,
                        p,
                        copy_back(out, distance, length),
                        expected,
                        other,
                    );
                }
            },
            _ => {},
        }
    }
}

/// A stream decodes for one advertised size alone: the number of bytes it
/// decodes to.
pub proof fn lemma_inflate_one_size(input: Seq<u8>, expected: u64, other: u64)
    requires
        expected != other,
    ensures
        inflate(input, expected) is Done ==> inflate(input, other) is Failed,
{
    if input.len() > 1 && input[0] <= 1 && 4 <= input[1] <= 6 && inflate(input, expected) is Done {
        lemma_inflate_from_one_size(
            input,
            input[0] == 1,
            input[1] as int,
            16,
            Seq::empty(),
            expected as int,
            other as int,
        );
    }
}

/// Whether `a` and `b` hold the same first `m` bytes.
pub open spec fn same_prefix(a: Seq<u8>, b: Seq<u8>, m: int) -> bool {
    &&& 0 <= m <= a.len()
    &&& m <= b.len()
    &&& forall|k: int| 0 <= k < m ==> a[k] == b[k]
}

proof fn lemma_bits_frame(a: Seq<u8>, b: Seq<u8>, m: int, pos: int, n: nat)
    requires
        same_prefix(a, b, m),
        0 <= pos,
        pos + n <= 8 * m,
    ensures
        stream_bits(a, pos, n) == stream_bits(b, pos, n),
    decreases n,
{
    if n > 0 {
        lemma_bits_frame(a, b, m, pos, (n - 1) as nat);
        let k = pos + n - 1;
        assert(k / 8 < m);
        assert(a[k / 8] == b[k / 8]);
    }
}

proof fn lemma_walk_frame(
    lengths: Seq<u8>,
    a: Seq<u8>,
    b: Seq<u8>,
    m: int,
    pos: int,
    len: int,
    code: int,
)
    requires
        same_prefix(a, b, m),
        huffman_walk(lengths, a, pos, len, code) matches Decoded::Symbol(_, p) && p <= 8 * m,
    ensures
        huffman_walk(lengths, b, pos, len, code) == huffman_walk(lengths, a, pos, len, code),
    decreases 14 - len,
{
    lemma_walk_advances(lengths, a, pos, len, code);
    if 1 <= len <= 13 && 0 <= pos < 8 * a.len() {
        assert(pos / 8 < m);
        assert(a[pos / 8] == b[pos / 8]);
        assert(stream_bit(a, pos) == stream_bit(b, pos));
        let c = code + 1 - stream_bit(a, pos);
        if c >= first_code(lengths, len) + length_count(lengths, len) {
            lemma_walk_frame(lengths, a, b, m, pos + 1, len + 1, 2 * c);
        }
    }
}

/// Where a token ends, if it was read.
pub open spec fn token_end(t: Token) -> int {
    match t {
        Token::Literal(_, p) => p,
        Token::Copy(_, _, p) => p,
        Token::End(p) => p,
        Token::Error(_) => -1,
    }
}

proof fn lemma_token_frame(a: Seq<u8>, b: Seq<u8>, m: int, coded: bool, dictionary: int, pos: int)
    requires
        same_prefix(a, b, m),
        !(read_token(a, coded, dictionary, pos) is Error),
        token_end(read_token(a, coded, dictionary, pos)) <= 8 * m,
    ensures
        read_token(b, coded, dictionary, pos) == read_token(a, coded, dictionary, pos),
{
    reveal(literal_token);
    reveal(match_token);
    reveal(distance_token);
    lemma_token_advances(a, coded, dictionary, pos);
    assert(0 <= pos < 8 * a.len());
    assert(pos / 8 < m);
    assert(a[pos / 8] == b[pos / 8]);
    assert(stream_bit(a, pos) == stream_bit(b, pos));
    if stream_bit(a, pos) == 0 {
        if coded {
            lemma_walk_frame(code_lengths(literal_repeats()), a, b, m, pos + 1, 1, 0);
        } else {
            lemma_bits_frame(a, b, m, pos + 1, 8);
        }
    } else {
        let lengths = code_lengths(length_repeats());
        lemma_walk_advances(lengths, a, pos + 1, 1, 0);
        if let Decoded::Symbol(s, p) = huffman_decode(lengths, a, pos + 1) {
            lemma_walk_advances(code_lengths(distance_repeats()), a, p + length_extra(s), 1, 0);
            assert(p <= 8 * m);
            lemma_walk_frame(lengths, a, b, m, pos + 1, 1, 0);
            lemma_bits_frame(a, b, m, p, length_extra(s));
            let length = length_base(s) + stream_bits(a, p, length_extra(s));
            let q = p + length_extra(s);
            if length != end_marker() {
                let shift: nat = if length == 2 {
                    2
                } else {
                    dictionary as nat
                };
                if let Decoded::Symbol(dd, r) = huffman_decode(code_lengths(distance_repeats()), a, q) {
                    lemma_walk_frame(code_lengths(distance_repeats()), a, b, m, q, 1, 0);
                    lemma_bits_frame(a, b, m, r, shift);
                }
            }
        }
    }
}

proof fn lemma_inflate_from_prefix(
    a: Seq<u8>,
    b: Seq<u8>,
    coded: bool,
    dictionary: int,
    pos: int,
    out: Seq<u8>,
    expected: int,
)
    requires
        inflate_from(a, coded, dictionary, pos, out, expected) matches Inflated::Done(_, n) && same_prefix(
            a,
            b,
            n,
        ),
    ensures
        inflate_from(b, coded, dictionary, pos, out, expected) == inflate_from(
            a,
            coded,
            dictionary,
            pos,
            out,
            expected,
        ),
        inflate_from(a, coded, dictionary, pos, out, expected) matches Inflated::Done(_, n) && pos < 8
            * n,
    decreases 8 * a.len() - pos,
{
    let n = inflate_from(a, coded, dictionary, pos, out, expected)->Done_1;
    lemma_token_advances(a, coded, dictionary, pos);
    let t = read_token(a, coded, dictionary, pos);
    match t {
        Token::End(p) => {
            assert(p <= 8 * n);
            lemma_token_frame(a, b, n, coded, dictionary, pos);
        },
        Token::Literal(byte, p) => {
            lemma_inflate_from_prefix(a, b, coded, dictionary, p, out.push(byte), expected);
            lemma_token_frame(a, b, n, coded, dictionary, pos);
        },
        Token::Copy(length, distance, p) => {
            lemma_inflate_from_prefix(
                a,
                b,
                coded,
                dictionary,
                p,
                copy_back(out, distance, length),
                expected,
            );
            lemma_token_frame(a, b, n, coded, dictionary, pos);
        },
        Token::Error(_) => {},
    }
}

/// Decoding stops at the end marker: a stream that decodes gives the same
/// bytes and takes the same number of bytes whatever follows what it took.
pub proof fn lemma_inflate_ignores_rest(input: Seq<u8>, rest: Seq<u8>, expected: u64)
    ensures
        inflate(input, expected) matches Inflated::Done(out, consumed) ==> inflate(
            input.take(consumed) + rest,
            expected,
        ) == inflate(input, expected),
{
    if let Inflated::Done(out, consumed) = inflate(input, expected) {
        lemma_inflate_size(input, expected);
        let b = input.take(consumed) + rest;
        assert(input.len() > 1 && input[0] <= 1 && 4 <= input[1] <= 6);
        assert(0 <= consumed <= input.len());
        assert forall|k: int| 0 <= k < consumed implies input[k] == b[k] by {
            assert(b[k] == input.take(consumed)[k]);
        }
        lemma_inflate_from_prefix(
            input,
            b,
            input[0] == 1,
            input[1] as int,
            16,
            Seq::empty(),
            expected as int,
        );
        assert(consumed >= 2);
        assert(b[0] == input[0] && b[1] == input[1]);
    }
}

/// How much of `n` decoded bytes a streaming writer has been handed: whole
/// 4096-byte windows.
pub open spec fn flushed(n: int) -> int {
    n / 4096 * 4096
}

proof fn lemma_length_code_count()
    ensures
        code_lengths(length_repeats()).len() == 16,
{
    let r = length_repeats();
    assert(r.drop_last() =~= seq![2u8, 35, 36, 53, 38]);
    assert(r.drop_last().drop_last() =~= seq![2u8, 35, 36, 53]);
    assert(r.drop_last().drop_last().drop_last() =~= seq![2u8, 35, 36]);
    assert(r.drop_last().drop_last().drop_last().drop_last() =~= seq![2u8, 35]);
    assert(r.drop_last().drop_last().drop_last().drop_last().drop_last() =~= seq![2u8]);
    assert(r.drop_last().drop_last().drop_last().drop_last().drop_last().drop_last() =~= Seq::<
        u8,
    >::empty());
    reveal_with_fuel(code_lengths, 7);
}

fn literal_table() -> (t: Vec<u8>)
    ensures
        t@ == literal_repeats(),
{
    vec![
        11u8, 124, 8, 7, 28, 7, 188, 13, 76, 4, 10, 8, 12, 10, 12, 10, 8, 23, 8, 9, 7, 6, 7, 8, 7, 6, 55,
        8, 23, 24, 12, 11, 7, 9, 11, 12, 6, 7, 22, 5, 7, 24, 6, 11, 9, 6, 7, 22, 7, 11, 38, 7, 9, 8,
        25, 11, 8, 11, 9, 12, 8, 12, 5, 38, 5, 38, 5, 11, 7, 5, 6, 21, 6, 10, 53, 8, 7, 24, 10, 27, 44,
        253, 253, 253, 252, 252, 252, 13, 12, 45, 12, 45, 12, 61, 12, 45, 44, 173
    ]
}

fn length_table() -> (t: Vec<u8>)
    ensures
        t@ == length_repeats(),
{
    vec![2u8, 35, 36, 53, 38, 23]
}

fn distance_table() -> (t: Vec<u8>)
    ensures
        t@ == distance_repeats(),
{
    vec![2u8, 20, 53, 230, 247, 151, 248]
}

fn base_of(symbol: usize) -> (b: usize)
    requires
        symbol < 16,
    ensures
        b == length_base(symbol as int),
        2 <= b <= 264,
{
    let table: [usize; 16] = [3, 2, 4, 5, 6, 7, 8, 9, 10, 12, 16, 24, 40, 72, 136, 264];
    assert(table@ =~= seq![3usize, 2, 4, 5, 6, 7, 8, 9, 10, 12, 16, 24, 40, 72, 136, 264]);
    table[symbol]
}

fn extra_of(symbol: usize) -> (e: u8)
    requires
        symbol < 16,
    ensures
        e == length_extra(symbol as int),
        e <= 8,
{
    let table: [u8; 16] = [0, 0, 0, 0, 0, 0, 0, 0, 1, 2, 3, 4, 5, 6, 7, 8];
    assert(table@ =~= seq![0u8, 0, 0, 0, 0, 0, 0, 0, 1, 2, 3, 4, 5, 6, 7, 8]);
    table[symbol]
}

/// Gives up on the stream: of the bytes decoded after `start`, only the
/// whole 4096-byte windows that a streaming writer would have been handed
/// stay in `output`.
fn give_up(output: &mut Vec<u8>, start: usize, error: DclError) -> (r: Result<u64, DclError>)
    requires
        start <= old(output)@.len(),
    ensures
        r == Err::<u64, DclError>(error),
        final(output)@ == old(output)@.take(start + flushed(old(output)@.len() - start)),
{
    let written = output.len() - start;
    output.truncate(start + written / 4096 * 4096);
    Err(error)
}

/// The three decoders of a DCL stream.
struct Tables {
    literals: Huffman,
    lengths: Huffman,
    distances: Huffman,
}

impl Tables {
    spec fn wf(self) -> bool {
        &&& self.literals.wf()
        &&& self.literals.lengths@ == code_lengths(literal_repeats())
        &&& self.lengths.wf()
        &&& self.lengths.lengths@ == code_lengths(length_repeats())
        &&& code_lengths(length_repeats()).len() == 16
        &&& self.distances.wf()
        &&& self.distances.lengths@ == code_lengths(distance_repeats())
    }

    fn new() -> (t: Tables)
        ensures
            t.wf(),
    {
        let literal_repeats_vec = literal_table();
        let length_repeats_vec = length_table();
        let distance_repeats_vec = distance_table();
        proof {
            lemma_length_code_count();
        }
        Tables {
            literals: Huffman::new(literal_repeats_vec.as_slice()),
            lengths: Huffman::new(length_repeats_vec.as_slice()),
            distances: Huffman::new(distance_repeats_vec.as_slice()),
        }
    }
}

/// A token as the decoder acts on it.
enum Step {
    Literal(u8),
    Copy(usize, usize),
    End,
    Stop(DclError),
}

/// Reads the rest of a literal token, after its flag bit.
fn read_literal(bits: &mut Bits, input: &[u8], coded: u8, tables: &Tables) -> (t: Step)
    requires
        old(bits).wf(input@),
        tables.wf(),
        coded <= 1,
    ensures
        final(bits).wf(input@),
        match literal_token(input@, coded == 1, old(bits).pos()) {
            Token::Literal(b, p) => t == Step::Literal(b) && final(bits).pos() == p,
            Token::Error(e) => t == Step::Stop(e),
            _ => false,
        },
{
    let ghost pos = old(bits).pos() - 1;
    proof {
        reveal(literal_token);
        lemma_stream_bits_bound(input@, pos + 1, 8);
        lemma_power_of_two_bounds(8);
    }
    if coded == 1 {
        match tables.literals.decode(bits, input) {
            Ok(symbol) => Step::Literal((symbol % 256) as u8),
            Err(e) => Step::Stop(e),
        }
    } else {
        match bits.get(input, 8) {
            Ok(value) => {
                proof {
                    lemma_stream_bits_bound(input@, pos + 1, 8);
                    lemma_power_of_two_bounds(8);
                }
                Step::Literal(value as u8)
            },
            Err(e) => Step::Stop(e),
        }
    }
}

/// Reads the rest of a copy token, or of the end marker, after its flag bit.
fn read_match(bits: &mut Bits, input: &[u8], dictionary: u8, tables: &Tables) -> (t: Step)
    requires
        old(bits).wf(input@),
        tables.wf(),
        4 <= dictionary <= 6,
    ensures
        final(bits).wf(input@),
        match match_token(input@, dictionary as int, old(bits).pos()) {
            Token::Copy(l, d, p) => t == Step::Copy(l as usize, d as usize) && final(bits).pos() == p
                && 1 <= d <= 300000 && 2 <= l <= 518,
            Token::End(p) => t == Step::End && final(bits).pos() == p,
            Token::Error(e) => t == Step::Stop(e),
            _ => false,
        },
{
    reveal(match_token);
    let symbol = match tables.lengths.decode(bits, input) {
        Ok(symbol) => symbol,
        Err(e) => {
            return Step::Stop(e);
        },
    };
    let extra = extra_of(symbol);
    let more = match bits.get(input, extra) {
        Ok(value) => value,
        Err(e) => {
            return Step::Stop(e);
        },
    };
    proof {
        lemma_stream_bits_bound(input@, bits.pos() - extra, extra as nat);
        lemma_power_of_two_bounds(extra as nat);
    }
    let length = base_of(symbol) + more as usize;
    if length == 519 {
        return Step::End;
    }
    let shift: u8 = if length == 2 {
        2
    } else {
        dictionary
    };
    read_distance(bits, input, length, shift, tables)
}

/// Reads the distance of a copy of `length` bytes.
fn read_distance(bits: &mut Bits, input: &[u8], length: usize, shift: u8, tables: &Tables) -> (t: Step)
    requires
        old(bits).wf(input@),
        tables.wf(),
        2 <= shift <= 6,
        shift != 3,
        2 <= length <= 518,
    ensures
        final(bits).wf(input@),
        match distance_token(input@, length as int, shift as nat, old(bits).pos()) {
            Token::Copy(l, d, p) => t == Step::Copy(l as usize, d as usize) && final(bits).pos() == p
                && 1 <= d <= 300000 && 2 <= l <= 518,
            Token::Error(e) => t == Step::Stop(e),
            _ => false,
        },
{
    reveal(distance_token);
    let d = match tables.distances.decode(bits, input) {
        Ok(d) => d,
        Err(e) => {
            return Step::Stop(e);
        },
    };
    let low = match bits.get(input, shift) {
        Ok(value) => value,
        Err(e) => {
            return Step::Stop(e);
        },
    };
    proof {
        lemma_stream_bits_bound(input@, bits.pos() - shift, shift as nat);
        reveal_with_fuel(power_of_two, 7);
    }
    let scale: usize = if shift == 2 {
        4
    } else if shift == 4 {
        16
    } else if shift == 5 {
        32
    } else {
        64
    };
    assert(scale == power_of_two(shift as nat));
    Step::Copy(length, d * scale + low as usize + 1)
}

/// Decodes exactly one DCL stream from `input` onto the end of `output`,
/// holding it to the advertised size `expected`. Returns how many input
/// bytes the stream took, its end marker included.
pub fn explode(input: &[u8], output: &mut Vec<u8>, expected: u64) -> (r: Result<u64, DclError>)
    ensures
        match inflate(input@, expected) {
            Inflated::Done(out, consumed) => r == Ok::<u64, DclError>(consumed as u64)
                && final(output)@ == old(output)@ + out && 0 <= consumed <= input@.len(),
            Inflated::Failed(error, produced) => r == Err::<u64, DclError>(error) && final(output)@
                == old(output)@ + produced.take(flushed(produced.len() as int)),
        },
{
    let start = output.len();
    assert(output@ =~= old(output)@ + Seq::<u8>::empty().take(0));
    if input.len() == 0 {
        return Err(DclError::Truncated);
    }
    let coded = input[0];
    if coded > 1 {
        return Err(DclError::InvalidLiteralMode);
    }
    if input.len() == 1 {
        return Err(DclError::Truncated);
    }
    let dictionary = input[1];
    if dictionary < 4 || dictionary > 6 {
        return Err(DclError::InvalidDictionarySize);
    }
    let tables = Tables::new();
    let mut bits = Bits { byte: 2, bit: 0 };
    let mut written: u64 = 0;
    let ghost is_coded = coded == 1;
    assert(output@.skip(start as int) =~= Seq::<u8>::empty());
    loop
        invariant
            bits.wf(input@),
            start == old(output)@.len(),
            output@ == old(output)@ + output@.skip(start as int),
            written == output@.len() - start,
            written <= expected,
            is_coded == (coded == 1),
            coded <= 1,
            4 <= dictionary <= 6,
            tables.wf(),
            inflate(input@, expected) == inflate_from(
                input@,
                is_coded,
                dictionary as int,
                bits.pos(),
                output@.skip(start as int),
                expected as int,
            ),
        decreases 8 * input@.len() - bits.pos(),
    {
        let ghost pos = bits.pos();
        let ghost out = output@.skip(start as int);
        proof {
            lemma_token_advances(input@, is_coded, dictionary as int, pos);
        }
        if bits.byte >= input.len() {
            return give_up(output, start, DclError::Truncated);
        }
        let flag = bits.get_bit(input);
        let step = if flag == 0 {
            read_literal(&mut bits, input, coded, &tables)
        } else {
            read_match(&mut bits, input, dictionary, &tables)
        };
        match step {
            Step::Stop(e) => {
                return give_up(output, start, e);
            },
            Step::End => {
                if written != expected {
                    return give_up(output, start, DclError::SizeMismatch { expected, got: written });
                }
                let consumed: u64 = if bits.bit > 0 {
                    bits.byte as u64 + 1
                } else {
                    bits.byte as u64
                };
                assert(output@ =~= old(output)@ + out);
                return Ok(consumed);
            },
            Step::Literal(literal) => {
                if written >= expected {
                    return give_up(output, start, DclError::ExceedsAdvertisedSize);
                }
                output.push(literal);
                written = written + 1;
                assert(output@.skip(start as int) =~= out.push(literal));
            },
            Step::Copy(length, distance) => {
                if distance as u64 > written {
                    return give_up(output, start, DclError::BackReferenceBeforeStart);
                }
                if length as u64 > expected - written {
                    return give_up(output, start, DclError::ExceedsAdvertisedSize);
                }
                let mut k: usize = 0;
                while k < length
                    invariant
                        k <= length,
                        start == old(output)@.len(),
                        output@ == old(output)@ + output@.skip(start as int),
                        output@.skip(start as int) == copy_back(out, distance as int, k as int),
                        output@.len() == start + out.len() + k,
                        1 <= distance <= out.len(),
                    decreases length - k,
                {
                    let b = output[output.len() - distance];
                    let ghost prev = output@.skip(start as int);
                    output.push(b);
                    k = k + 1;
                    assert(output@.skip(start as int) =~= prev.push(b));
                }
                written = written + length as u64;
            },
        }
    }
}

} // verus!
