//! The geohash text format: the base32 alphabet, encoding of grid points and
//! decoding of hashes into grid cells.
use vstd::prelude::*;
use vstd::utf8::*;
use vstd::string::*;
use crate::bits::{bit32, bit64, deinterleave, interleave, splits};
use crate::grid::{GridBbox, GridPoint};

verus! {

const CHUNK_BITS_SIZE: usize = 5;

const MAX_LEN: usize = 12;

const BASE32_CHARS: [char; 32] = [
    '0', '1', '2', '3', '4', '5', '6', '7', '8', '9',
    'b', 'c', 'd', 'e', 'f', 'g', 'h', 'j', 'k', 'm',
    'n', 'p', 'q', 'r', 's', 't', 'u', 'v', 'w', 'x', 'y', 'z',
];

/// The index of each byte in `BASE32_CHARS`, or 255 for a byte outside the alphabet;
/// the table that `build_reverse_table(BASE32_CHARS)` builds.
const REVERSE_BASE32: [u8; 256] = [
    255, 255, 255, 255, 255, 255, 255, 255, 255, 255, 255, 255, 255, 255, 255, 255,
    255, 255, 255, 255, 255, 255, 255, 255, 255, 255, 255, 255, 255, 255, 255, 255,
    255, 255, 255, 255, 255, 255, 255, 255, 255, 255, 255, 255, 255, 255, 255, 255,
    0, 1, 2, 3, 4, 5, 6, 7, 8, 9, 255, 255, 255, 255, 255, 255,
    255, 255, 255, 255, 255, 255, 255, 255, 255, 255, 255, 255, 255, 255, 255, 255,
    255, 255, 255, 255, 255, 255, 255, 255, 255, 255, 255, 255, 255, 255, 255, 255,
    255, 255, 10, 11, 12, 13, 14, 15, 16, 255, 17, 18, 255, 19, 20, 255,
    21, 22, 23, 24, 25, 26, 27, 28, 29, 30, 31, 255, 255, 255, 255, 255,
    255, 255, 255, 255, 255, 255, 255, 255, 255, 255, 255, 255, 255, 255, 255, 255,
    255, 255, 255, 255, 255, 255, 255, 255, 255, 255, 255, 255, 255, 255, 255, 255,
    255, 255, 255, 255, 255, 255, 255, 255, 255, 255, 255, 255, 255, 255, 255, 255,
    255, 255, 255, 255, 255, 255, 255, 255, 255, 255, 255, 255, 255, 255, 255, 255,
    255, 255, 255, 255, 255, 255, 255, 255, 255, 255, 255, 255, 255, 255, 255, 255,
    255, 255, 255, 255, 255, 255, 255, 255, 255, 255, 255, 255, 255, 255, 255, 255,
    255, 255, 255, 255, 255, 255, 255, 255, 255, 255, 255, 255, 255, 255, 255, 255,
    255, 255, 255, 255, 255, 255, 255, 255, 255, 255, 255, 255, 255, 255, 255, 255,
];

/// The byte that the geohash alphabet uses for the 5-bit value `v`: the digits, then the
/// lower-case letters without `a`, `i`, `l` and `o`.
pub open spec fn digit_char(v: u8) -> u8 {
    if v < 10 {
        (48 + v) as u8
    } else if v < 17 {
        (98 + (v - 10)) as u8
    } else if v < 19 {
        (106 + (v - 17)) as u8
    } else if v < 21 {
        (109 + (v - 19)) as u8
    } else {
        (112 + (v - 21)) as u8
    }
}

/// The 5-bit value of a geohash alphabet byte, or `None` for a byte outside the alphabet.
pub open spec fn digit_value(c: u8) -> Option<u8> {
    if 48 <= c <= 57 {
        Some((c - 48) as u8)
    } else if 98 <= c <= 104 {
        Some((c - 98 + 10) as u8)
    } else if c == 106 || c == 107 {
        Some((c - 106 + 17) as u8)
    } else if c == 109 || c == 110 {
        Some((c - 109 + 19) as u8)
    } else if 112 <= c <= 122 {
        Some((c - 112 + 21) as u8)
    } else {
        None
    }
}

/// Reading a byte of the alphabet back gives the value it was written for, and every
/// byte that reads as a value is the byte written for it.
pub proof fn lemma_digit_roundtrip(v: u8, c: u8)
    ensures
        v < 32 ==> digit_value(digit_char(v)) == Some(v),
        digit_value(c) matches Some(w) ==> w < 32 && digit_char(w) == c,
{
}

proof fn lemma_base32_chars()
    ensures
        forall|v: int| 0 <= v < 32 ==> #[trigger] BASE32_CHARS@[v] as u32 == digit_char(v as u8) as u32,
{
    assert(BASE32_CHARS@[0] == '0');
}


/// What a reverse table holds for byte `b`, given the alphabet `chars`: the index of the
/// last character that is `b`, or 255 where no character is.
pub open spec fn reverse_entry(chars: Seq<char>, b: int, entry: u8) -> bool {
    if entry == 255 {
        forall|j: int| 0 <= j < chars.len() ==> chars[j] as u32 != b
    } else {
        &&& entry < chars.len()
        &&& chars[entry as int] as u32 == b
        &&& forall|j: int| entry < j < chars.len() ==> chars[j] as u32 != b
    }
}

/// Builds the table that maps a byte back to its index in the alphabet `chars`
/// (255 for a byte that is not in it).
pub fn build_reverse_table(chars: [char; 32]) -> (table: [u8; 256])
    requires
        forall|i: int| 0 <= i < 32 ==> ((#[trigger] chars@[i]) as u32) < 256,
    ensures
        forall|b: int| 0 <= b < 256 ==> reverse_entry(chars@, b, #[trigger] table@[b]),
{
    let mut table = [u8::MAX; 256];

    let mut idx: usize = 0;
    while idx < chars.len()
        invariant
            idx <= 32,
            forall|i: int| 0 <= i < 32 ==> ((#[trigger] chars@[i]) as u32) < 256,
            forall|b: int|
                0 <= b < 256 ==> reverse_entry(chars@.subrange(0, idx as int), b, #[trigger] table@[b]),
        decreases 32 - idx,
    {
        let code: u32 = chars[idx] as u32;
        let c: usize = code as usize;
        let ghost prev = table@;
        table[c] = idx as u8;
        idx += 1;
        let ghost done = chars@.subrange(0, idx as int);
        assert forall|b: int| 0 <= b < 256 implies reverse_entry(done, b, #[trigger] table@[b]) by {
            assert(reverse_entry(chars@.subrange(0, idx - 1), b, prev[b]));
            assert(done[idx - 1] as u32 == code);
            assert forall|j: int| 0 <= j < idx - 1 implies done[j] == chars@.subrange(0, idx - 1)[j] by {}
        }
    }
    assert(chars@.subrange(0, 32) =~= chars@);
    table
}


/// Bit `pos` of the 64-bit word that interleaves a point's coordinates: latitude bits on
/// the even positions, longitude bits on the odd ones.
pub open spec fn interleaved_bit(p: GridPoint, pos: int) -> bool {
    if pos % 2 == 0 {
        bit32(p.lat, (pos / 2) as u64)
    } else {
        bit32(p.lon, (pos / 2) as u64)
    }
}

/// The 5-bit number whose binary digits, most significant first, are `b4 .. b0`.
pub open spec fn bits5(b4: bool, b3: bool, b2: bool, b1: bool, b0: bool) -> u8 {
    (if b4 { 16u8 } else { 0u8 }) | (if b3 { 8u8 } else { 0u8 }) | (if b2 { 4u8 } else { 0u8 }) | (
    if b1 { 2u8 } else { 0u8 }) | (if b0 { 1u8 } else { 0u8 })
}

proof fn lemma_bits5_bound(b4: bool, b3: bool, b2: bool, b1: bool, b0: bool)
    by (bit_vector)
    ensures
        bits5(b4, b3, b2, b1, b0) < 32,
{
}

/// The 5-bit value of character `k` of a point's geohash: interleaved bits `63 - 5k` down
/// to `59 - 5k`.
pub open spec fn hash_code(p: GridPoint, k: int) -> u8 {
    bits5(
        interleaved_bit(p, 63 - 5 * k),
        interleaved_bit(p, 62 - 5 * k),
        interleaved_bit(p, 61 - 5 * k),
        interleaved_bit(p, 60 - 5 * k),
        interleaved_bit(p, 59 - 5 * k),
    )
}

/// The geohash of length `n` of a grid point.
pub open spec fn spec_encode(p: GridPoint, n: nat) -> Seq<u8> {
    Seq::new(n, |k: int| digit_char(hash_code(p, k)))
}

spec fn five_bits(w: u64, s: u64) -> u8 {
    bits5(
        bit64(w, (s + 4) as u64),
        bit64(w, (s + 3) as u64),
        bit64(w, (s + 2) as u64),
        bit64(w, (s + 1) as u64),
        bit64(w, s),
    )
}

proof fn lemma_top_chunk(w: u64, s: u64)
    by (bit_vector)
    requires
        s <= 55,
    ensures
        ((((w << s) >> 59u64) as u32) & 31u32) as u8 == five_bits(w, (59 - s) as u64),
        (((w << s) >> 59u64) as u32) & 31u32 < 32,
        (w << s) << 5u64 == w << ((s + 5) as u64),
        w << 0u64 == w,
{
}

proof fn lemma_ascii_valid_utf8(bytes: Seq<u8>)
    requires
        forall|i: int| 0 <= i < bytes.len() ==> #[trigger] bytes[i] < 128,
    ensures
        valid_utf8(bytes),
    decreases bytes.len(),
{
    if bytes.len() > 0 {
        let b = bytes[0];
        assert(codepoint_width_1(b) < 128) by (bit_vector)
            requires
                b < 128,
        ;
        assert(pop_first_scalar(bytes) =~= bytes.drop_first());
        lemma_ascii_valid_utf8(bytes.drop_first());
    }
}

/// Bit `t` of the bit stream that a hash spells, counted from the most significant bit
/// of its first character (five bits per character).
pub open spec fn hash_bit(h: Seq<u8>, t: int) -> bool {
    bit64(digit_value(h[t / 5])->0 as u64, (4 - t % 5) as u64)
}

/// Every byte of `h` belongs to the geohash alphabet.
pub open spec fn is_base32(h: Seq<u8>) -> bool {
    forall|i: int| 0 <= i < h.len() ==> (#[trigger] digit_value(h[i])) is Some
}

/// `cell` is the cell that the valid hash `h` names: the first `5 * |h|` bits of its
/// stream, read alternately as longitude and latitude bits from the most significant one,
/// fix the leading bits of the corner; the remaining bits of the corner are zero.
pub open spec fn decodes_to(h: Seq<u8>, cell: GridBbox) -> bool {
    let n = 5 * h.len();
    &&& cell.lat_bits == n / 2
    &&& cell.lon_bits == n - n / 2
    &&& forall|i: u64|
        i < 32 ==> #[trigger] bit32(cell.min.lat, i) == (63 - 2 * i < n && hash_bit(h, 63 - 2 * i))
    &&& forall|i: u64|
        i < 32 ==> #[trigger] bit32(cell.min.lon, i) == (62 - 2 * i < n && hash_bit(h, 62 - 2 * i))
}

/// The entry that a reverse table of the alphabet holds for byte `c`.
pub open spec fn reverse_value(c: u8) -> u8 {
    match digit_value(c) {
        Some(v) => v,
        None => 255,
    }
}

/// The constant reverse table reads each byte as its alphabet value (255 outside the
/// alphabet), and it is the table that `build_reverse_table(BASE32_CHARS)` builds.
proof fn lemma_reverse_base32()
    ensures
        forall|c: int| 0 <= c < 256 ==> #[trigger] REVERSE_BASE32@[c] == reverse_value(c as u8),
        forall|b: int| 0 <= b < 256 ==> reverse_entry(BASE32_CHARS@, b, #[trigger] REVERSE_BASE32@[b]),
{
    assert forall|c: int| 0 <= c < 256 implies #[trigger] REVERSE_BASE32@[c] == reverse_value(c as u8) by {
    }
    lemma_base32_chars();
    assert forall|b: int| 0 <= b < 256 implies reverse_entry(BASE32_CHARS@, b, #[trigger] REVERSE_BASE32@[b]) by {
        let c = b as u8;
        assert(REVERSE_BASE32@[b] == reverse_value(c));
        assert forall|j: int| 0 <= j < 32 && BASE32_CHARS@[j] as u32 == b implies digit_value(c) == Some(j as u8) by {
            lemma_digit_roundtrip(j as u8, c);
        }
        lemma_digit_roundtrip(0, c);
    }
}

proof fn lemma_push_digit(hash: u64, d: u64, q: u64)
    by (bit_vector)
    requires
        d < 32,
        q < 64,
    ensures
        bit64((hash << 5u64) | d, q) == if q < 5 {
            bit64(d, q)
        } else {
            bit64(hash, (q - 5) as u64)
        },
{
}

proof fn lemma_zero_bit(q: u64)
    by (bit_vector)
    ensures
        !bit64(0u64, q),
{
}

proof fn lemma_shl_bit(x: u64, s: u64, p: u64)
    by (bit_vector)
    requires
        s < 64,
        p < 64,
    ensures
        bit64(x << s, p) == (p >= s && bit64(x, (p - s) as u64)),
{
}

/// `hash` holds, in its low `5k` bits, the first `5k` bits of the stream of `h`.
#[verifier::opaque]
spec fn holds_stream_bits(hash: u64, h: Seq<u8>, k: int) -> bool {
    forall|q: u64| q < 64 ==> #[trigger] bit64(hash, q) == (q < 5 * k && hash_bit(h, 5 * k - 1 - q))
}

proof fn lemma_stream_start(h: Seq<u8>)
    ensures
        holds_stream_bits(0, h, 0),
{
    reveal(holds_stream_bits);
    assert forall|q: u64| q < 64 implies !#[trigger] bit64(0, q) by {
        lemma_zero_bit(q);
    }
}

proof fn lemma_stream_push(prev: u64, d: u8, h: Seq<u8>, k: int)
    requires
        holds_stream_bits(prev, h, k),
        0 <= k < h.len(),
        k < 12,
        d < 32,
        digit_value(h[k]) == Some(d),
    ensures
        holds_stream_bits((prev << 5) | d as u64, h, k + 1),
{
    reveal(holds_stream_bits);
    let next = (prev << 5) | d as u64;
    assert forall|q: u64| q < 64 implies #[trigger] bit64(next, q) == (q < 5 * (k + 1) && hash_bit(
        h,
        5 * (k + 1) - 1 - q,
    )) by {
        lemma_push_digit(prev, d as u64, q);
        let t = 5 * (k + 1) - 1 - q;
        if q < 5 {
            assert(t / 5 == k);
            assert(t % 5 == 4 - q);
        } else {
            assert(bit64(prev, (q - 5) as u64) == ((q - 5) < 5 * k && hash_bit(h, 5 * k - 1 - (q - 5))));
        }
    }
}

proof fn lemma_stream_corner(hash: u64, h: Seq<u8>, full: u64, parts: (u32, u32))
    requires
        1 <= h.len() <= 12,
        holds_stream_bits(hash, h, h.len() as int),
        full == hash << ((64 - 5 * h.len()) as u64),
        splits(full, parts),
    ensures
        forall|i: u64|
            i < 32 ==> #[trigger] bit32(parts.0, i) == (63 - 2 * i < 5 * h.len() && hash_bit(
                h,
                63 - 2 * i,
            )),
        forall|i: u64|
            i < 32 ==> #[trigger] bit32(parts.1, i) == (62 - 2 * i < 5 * h.len() && hash_bit(
                h,
                62 - 2 * i,
            )),
{
    reveal(holds_stream_bits);
    let n = 5 * h.len();
    assert forall|p: u64| p < 64 implies #[trigger] bit64(full, p) == (63 - p < n && hash_bit(h, 63 - p)) by {
        lemma_shl_bit(hash, (64 - n) as u64, p);
    }
    assert forall|i: u64| i < 32 implies #[trigger] bit32(parts.0, i) == (63 - 2 * i < n && hash_bit(
        h,
        63 - 2 * i,
    )) by {
        assert(bit64(full, (2 * i) as u64) == (63 - (2 * i) < n && hash_bit(h, 63 - (2 * i))));
    }
    assert forall|i: u64| i < 32 implies #[trigger] bit32(parts.1, i) == (62 - 2 * i < n && hash_bit(
        h,
        62 - 2 * i,
    )) by {
        assert(bit64(full, (2 * i + 1) as u64) == (63 - (2 * i + 1) < n && hash_bit(h, 63 - (2 * i + 1))));
    }
}

/// Geohash decoding error: the byte at `position` is not in the alphabet.
#[derive(Copy, Clone, Debug)]
pub struct DecodeError {
    position: u8,
    character: u8,
}

impl View for DecodeError {
    type V = (u8, u8);

    /// The position of the offending byte and the byte itself.
    closed spec fn view(&self) -> (u8, u8) {
        (self.position, self.character)
    }
}

impl DecodeError {
    /// The position of the byte that is not in the alphabet.
    pub fn position(&self) -> (r: u8)
        ensures
            r == self@.0,
    {
        self.position
    }

    /// The byte that is not in the alphabet.
    pub fn character(&self) -> (r: u8)
        ensures
            r == self@.1,
    {
        self.character
    }
}

/// A geohash: a base32 text of 1 to 12 bytes.
#[derive(Copy, Clone, Debug, Hash)]
pub struct GeoHash {
    buffer: [u8; MAX_LEN],
    len: u8,
}

impl View for GeoHash {
    type V = Seq<u8>;

    /// The bytes of the hash text.
    closed spec fn view(&self) -> Seq<u8> {
        self.buffer@.subrange(0, self.len as int)
    }
}

impl GeoHash {
    #[verifier::type_invariant]
    spec fn well_formed(self) -> bool {
        &&& 1 <= self.len <= MAX_LEN
        &&& valid_utf8(self.buffer@.subrange(0, self.len as int))
        &&& forall|i: int| self.len <= i < MAX_LEN ==> self.buffer@[i] == 0
    }
}

proof fn lemma_chunk_code(word: u64, point: GridPoint, k: int)
    requires
        0 <= k < 12,
        forall|pos: u64| pos < 64 ==> #[trigger] bit64(word, pos) == interleaved_bit(point, pos as int),
    ensures
        five_bits(word, (59 - 5 * k) as u64) == hash_code(point, k),
{
    let top = 63 - 5 * k;
    assert(bit64(word, (top) as u64) == interleaved_bit(point, top));
    assert(bit64(word, (top - 1) as u64) == interleaved_bit(point, top - 1));
    assert(bit64(word, (top - 2) as u64) == interleaved_bit(point, top - 2));
    assert(bit64(word, (top - 3) as u64) == interleaved_bit(point, top - 3));
    assert(bit64(word, (top - 4) as u64) == interleaved_bit(point, top - 4));
}

fn encode(point: GridPoint, len: usize) -> (r: GeoHash)
    requires
        1 <= len <= MAX_LEN,
    ensures
        r@ == spec_encode(point, len as nat),
{
    let word = interleave(point.lat, point.lon);
    let mut idx: usize = 0;
    let mut buffer = [0u8; MAX_LEN];
    let mut interleaved_bits = word;
    proof {
        lemma_top_chunk(word, 0);
    }
    while idx < len
        invariant
            1 <= len <= MAX_LEN,
            idx <= len,
            interleaved_bits == word << ((5 * idx) as u64),
            forall|pos: u64|
                pos < 64 ==> #[trigger] bit64(word, pos) == interleaved_bit(point, pos as int),
            forall|k: int| 0 <= k < idx ==> #[trigger] buffer@[k] == digit_char(hash_code(point, k)),
            forall|k: int| idx <= k < MAX_LEN ==> #[trigger] buffer@[k] == 0,
        decreases len - idx,
    {
        let code = ((interleaved_bits >> 59) as u32) & 0x1f;
        proof {
            lemma_top_chunk(word, (5 * idx) as u64);
            lemma_chunk_code(word, point, idx as int);
            lemma_base32_chars();
        }
        let ch: u32 = BASE32_CHARS[code as usize] as u32;
        buffer[idx] = ch as u8;
        interleaved_bits = interleaved_bits << 5;
        idx += 1;
    }
    let ghost text = buffer@.subrange(0, len as int);
    proof {
        assert forall|i: int| 0 <= i < text.len() implies #[trigger] text[i] < 128 by {
            assert(text[i] == buffer@[i]);
            let k = i;
            let t = 63 - 5 * k;
            lemma_bits5_bound(
                interleaved_bit(point, t),
                interleaved_bit(point, t - 1),
                interleaved_bit(point, t - 2),
                interleaved_bit(point, t - 3),
                interleaved_bit(point, t - 4),
            );
        }
        lemma_ascii_valid_utf8(text);
    }
    let r = GeoHash { buffer, len: len as u8 };
    assert(r@ =~= spec_encode(point, len as nat));
    r
}


/// Tells whether `bytes` are UTF-8, and if so hands them out as text.
///
/// Trusted: calls `core::str::from_utf8`, whose documentation says it succeeds exactly
/// on valid UTF-8 and then returns a string made of those same bytes; validity is
/// taken to be vstd's `valid_utf8`.
#[verifier::external_body]
fn utf8_str(bytes: &[u8]) -> (r: Option<&str>)
    ensures
        r is Some <==> valid_utf8(bytes@),
        r matches Some(s) ==> s.spec_bytes() == bytes@,
{
    match core::str::from_utf8(bytes) {
        Ok(s) => Some(s),
        Err(_) => None,
    }
}

/// Encoder of geohashes of the fixed length `LEN`, which must lie in `1..=12`.
pub struct Codec<const LEN: usize>;

impl<const LEN: usize> Codec<LEN> {
    /// Encodes the grid point into a geohash of `LEN` characters.
    pub fn encode(point: GridPoint) -> (r: GeoHash)
        requires
            1 <= LEN <= 12,
        ensures
            r@ == spec_encode(point, LEN as nat),
    {
        encode(point, LEN)
    }
}

impl GeoHash {
    /// Maximum possible length of a geohash.
    pub const MAX_LEN: usize = 12;

    /// Creates the `len` characters long geohash of `point`; `None` where `len` is not
    /// within `1..=12`.
    pub fn encode(point: GridPoint, len: usize) -> (r: Option<Self>)
        ensures
            r is Some <==> 1 <= len <= 12,
            r matches Some(h) ==> h@ == spec_encode(point, len as nat),
    {
        if len >= 1 && len <= MAX_LEN {
            Some(encode(point, len))
        } else {
            None
        }
    }

    /// Creates a geohash from text whose length must lie within `1..=12` bytes.
    pub fn from_str(text: &str) -> (r: Self)
        requires
            1 <= text.spec_bytes().len() <= 12,
        ensures
            r@ == text.spec_bytes(),
    {
        Self::try_from_str(text).unwrap()
    }

    /// Creates a geohash from text, checking only that its length lies within `1..=12`
    /// bytes.
    pub fn try_from_str(text: &str) -> (r: Option<Self>)
        ensures
            r is Some <==> 1 <= text.spec_bytes().len() <= 12,
            r matches Some(h) ==> h@ == text.spec_bytes(),
    {
        let bytes = text.as_bytes();
        let n = bytes.len();
        if n >= 1 && n <= MAX_LEN {
            let mut buffer = [0u8; MAX_LEN];
            let mut i: usize = 0;
            while i < n
                invariant
                    n <= MAX_LEN,
                    i <= n,
                    n == bytes@.len(),
                    forall|k: int| 0 <= k < i ==> #[trigger] buffer@[k] == bytes@[k],
                    forall|k: int| i <= k < MAX_LEN ==> #[trigger] buffer@[k] == 0,
                decreases n - i,
            {
                buffer[i] = bytes[i];
                i += 1;
            }
            proof {
                encode_utf8_valid_utf8(text@);
                assert(buffer@.subrange(0, n as int) =~= bytes@);
            }
            Some(GeoHash { buffer, len: n as u8 })
        } else {
            None
        }
    }

    /// Returns the length of the geohash.
    pub fn len(&self) -> (r: usize)
        ensures
            r == self@.len(),
            1 <= r <= 12,
    {
        proof {
            use_type_invariant(self);
        }
        self.len as usize
    }

    /// Decodes the hash into its grid cell; fails at the first byte outside the alphabet.
    pub fn decode_bbox(&self) -> (r: Result<GridBbox, DecodeError>)
        ensures
            r is Ok <==> is_base32(self@),
            r matches Ok(cell) ==> decodes_to(self@, cell),
            r matches Err(e) ==> {
                &&& e@.0 < self@.len()
                &&& e@.1 == self@[e@.0 as int]
                &&& digit_value(e@.1) is None
                &&& is_base32(self@.subrange(0, e@.0 as int))
            },
    {
        proof {
            use_type_invariant(self);
            lemma_base32_chars();
        }
        let bits_len: u8 = self.len * CHUNK_BITS_SIZE as u8;
        proof {
            lemma_reverse_base32();
        }
        let ghost h = self@;

        let mut position: usize = 0;
        let mut hash: u64 = 0;
        proof {
            lemma_stream_start(h);
        }
        while position < self.len as usize
            invariant
                1 <= self.len <= MAX_LEN,
                h == self@,
                h == self.buffer@.subrange(0, self.len as int),
                position <= self.len,
                forall|c: int| 0 <= c < 256 ==> #[trigger] REVERSE_BASE32@[c] == reverse_value(c as u8),
                forall|j: int| 0 <= j < position ==> (#[trigger] digit_value(h[j])) is Some,
                holds_stream_bits(hash, h, position as int),
            decreases self.len - position,
        {
            let character = self.buffer[position];
            let ch_decoded = REVERSE_BASE32[character as usize];
            proof {
                assert(ch_decoded == reverse_value(character));
                lemma_digit_roundtrip(0, character);
                assert(character == h[position as int]);
            }
            if ch_decoded == u8::MAX {
                let e = DecodeError { position: position as u8, character };
                proof {
                    assert(self@.subrange(0, position as int) =~= h.subrange(0, position as int));
                }
                return Err(e);
            }
            proof {
                lemma_stream_push(hash, ch_decoded, h, position as int);
            }
            hash = (hash << 5) | ch_decoded as u64;
            position += 1;
        }

        let full_hash = hash << (64 - bits_len);
        let parts = deinterleave(full_hash);
        let lat_bits: u32 = bits_len as u32 / 2;
        let cell = GridBbox {
            min: GridPoint { lat: parts.0, lon: parts.1 },
            lat_bits,
            lon_bits: bits_len as u32 - lat_bits,
        };
        proof {
            lemma_stream_corner(hash, h, full_hash, parts);
        }
        Ok(cell)
    }

    /// Gets the text of the hash.
    pub fn as_str(&self) -> (r: &str)
        ensures
            r.spec_bytes() == self@,
    {
        proof {
            use_type_invariant(self);
        }
        let (prefix, _) = self.buffer.as_slice().split_at(self.len as usize);
        match utf8_str(prefix) {
            Some(text) => text,
            None => {
                assert(false);
                ""
            }
        }
    }
}

impl GeoHash {
    fn eq_bytes(&self, bytes: &[u8]) -> (r: bool)
        ensures
            r == (self@ == bytes@),
    {
        proof {
            use_type_invariant(self);
        }
        if self.len as usize != bytes.len() {
            return false;
        }
        let mut i: usize = 0;
        while i < bytes.len()
            invariant
                self.len == bytes@.len(),
                self.len <= MAX_LEN,
                i <= self.len,
                forall|k: int| 0 <= k < i ==> self.buffer@[k] == bytes@[k],
            decreases bytes@.len() - i,
        {
            if self.buffer[i] != bytes[i] {
                assert(self@[i as int] != bytes@[i as int]);
                return false;
            }
            i += 1;
        }
        assert(self@ =~= bytes@);
        true
    }
}

impl PartialEq for GeoHash {
    fn eq(&self, other: &Self) -> (r: bool) {
        proof {
            use_type_invariant(other);
        }
        let (other_bytes, _) = other.buffer.as_slice().split_at(other.len as usize);
        self.eq_bytes(other_bytes)
    }
}

impl PartialEq<str> for GeoHash {
    fn eq(&self, other: &str) -> (r: bool) {
        self.eq_bytes(other.as_bytes())
    }
}

impl PartialEq<&str> for GeoHash {
    fn eq(&self, other: &&str) -> (r: bool) {
        self.eq_bytes(other.as_bytes())
    }
}

impl vstd::std_specs::cmp::PartialEqSpecImpl<str> for GeoHash {
    open spec fn obeys_eq_spec() -> bool {
        true
    }

    open spec fn eq_spec(&self, other: &str) -> bool {
        self@ == other.spec_bytes()
    }
}

impl vstd::std_specs::cmp::PartialEqSpecImpl<&str> for GeoHash {
    open spec fn obeys_eq_spec() -> bool {
        true
    }

    open spec fn eq_spec(&self, other: &&str) -> bool {
        self@ == other.spec_bytes()
    }
}

impl vstd::std_specs::cmp::PartialEqSpecImpl for GeoHash {
    open spec fn obeys_eq_spec() -> bool {
        true
    }

    open spec fn eq_spec(&self, other: &Self) -> bool {
        self@ == other@
    }
}

impl Eq for GeoHash {
}

} // verus!
