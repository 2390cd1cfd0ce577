//! Laws that relate encoding and decoding of geohashes.
use vstd::prelude::*;
use crate::bits::{bit32, bit64, lemma_bits_eq32};
use crate::codec::{
    bits5, decodes_to, digit_char, digit_value, hash_bit, hash_code, interleaved_bit, is_base32,
    lemma_digit_roundtrip, spec_encode,
};
use crate::grid::{GridBbox, GridPoint};
use vstd::string::StringSliceAdditionalSpecFns;

verus! {

/// `cell` is the level-`n` cell that holds the point `p`: its corner keeps the leading
/// `5n / 2` latitude bits and `5n - 5n / 2` longitude bits of `p` and clears the rest.
pub open spec fn is_cell_of(p: GridPoint, n: nat, cell: GridBbox) -> bool {
    let m = 5 * n;
    &&& cell.lat_bits == m / 2
    &&& cell.lon_bits == m - m / 2
    &&& forall|i: u64| i < 32 ==> #[trigger] bit32(cell.min.lat, i) == (63 - 2 * i < m && bit32(p.lat, i))
    &&& forall|i: u64| i < 32 ==> #[trigger] bit32(cell.min.lon, i) == (62 - 2 * i < m && bit32(p.lon, i))
}

/// The points `p` and `q` lie in the same level-`n` cell: they agree on the leading
/// `5n / 2` latitude bits and the leading `5n - 5n / 2` longitude bits.
pub open spec fn same_cell(p: GridPoint, q: GridPoint, n: nat) -> bool {
    let m = 5 * n;
    &&& forall|i: u64| i < 32 && 63 - 2 * i < m ==> #[trigger] bit32(p.lat, i) == bit32(q.lat, i)
    &&& forall|i: u64| i < 32 && 62 - 2 * i < m ==> #[trigger] bit32(p.lon, i) == bit32(q.lon, i)
}

proof fn lemma_bits5_bits(b4: bool, b3: bool, b2: bool, b1: bool, b0: bool, j: u64)
    by (bit_vector)
    requires
        j < 5,
    ensures
        bits5(b4, b3, b2, b1, b0) < 32,
        bit64(bits5(b4, b3, b2, b1, b0) as u64, j) == if j == 4 {
            b4
        } else if j == 3 {
            b3
        } else if j == 2 {
            b2
        } else if j == 1 {
            b1
        } else {
            b0
        },
{
}

proof fn lemma_bits5_of_bits(d: u8)
    by (bit_vector)
    requires
        d < 32,
    ensures
        bits5(
            bit64(d as u64, 4),
            bit64(d as u64, 3),
            bit64(d as u64, 2),
            bit64(d as u64, 1),
            bit64(d as u64, 0),
        ) == d,
{
}

/// Bit `t` of the stream that a point's hash spells is interleaved bit `63 - t` of the point.
proof fn lemma_encoded_stream_bit(p: GridPoint, n: nat, t: int)
    requires
        0 <= t < 5 * n,
        n <= 12,
    ensures
        hash_bit(spec_encode(p, n), t) == interleaved_bit(p, 63 - t),
{
    let k = t / 5;
    let j = t % 5;
    let top = 63 - 5 * k;
    let code = hash_code(p, k);
    lemma_bits5_bits(
        interleaved_bit(p, top),
        interleaved_bit(p, top - 1),
        interleaved_bit(p, top - 2),
        interleaved_bit(p, top - 3),
        interleaved_bit(p, top - 4),
        (4 - j) as u64,
    );
    lemma_digit_roundtrip(code, 0);
    assert(spec_encode(p, n)[k] == digit_char(code));
}

/// Every hash of a point is written in the geohash alphabet.
pub proof fn lemma_encode_is_base32(p: GridPoint, n: nat)
    ensures
        is_base32(spec_encode(p, n)),
{
    assert forall|k: int| 0 <= k < n implies (#[trigger] digit_value(spec_encode(p, n)[k])) is Some by {
        let top = 63 - 5 * k;
        lemma_bits5_bits(
            interleaved_bit(p, top),
            interleaved_bit(p, top - 1),
            interleaved_bit(p, top - 2),
            interleaved_bit(p, top - 3),
            interleaved_bit(p, top - 4),
            0,
        );
        lemma_digit_roundtrip(hash_code(p, k), 0);
    }
}

/// Decoding the hash of a point gives the cell that holds the point: the cell named by a
/// point's `n`-character hash is exactly its level-`n` cell.
pub proof fn lemma_decode_encode(p: GridPoint, n: nat, cell: GridBbox)
    requires
        1 <= n <= 12,
    ensures
        is_base32(spec_encode(p, n)),
        decodes_to(spec_encode(p, n), cell) <==> is_cell_of(p, n, cell),
{
    lemma_encode_is_base32(p, n);
    let h = spec_encode(p, n);
    let m = 5 * n;
    assert forall|i: u64| i < 32 && 63 - 2 * i < m implies hash_bit(h, 63 - 2 * i) == bit32(p.lat, i) by {
        lemma_encoded_stream_bit(p, n, 63 - 2 * i);
    }
    assert forall|i: u64| i < 32 && 62 - 2 * i < m implies hash_bit(h, 62 - 2 * i) == bit32(p.lon, i) by {
        lemma_encoded_stream_bit(p, n, 62 - 2 * i);
    }
}

proof fn lemma_cell_interleaved_bit(h: Seq<u8>, cell: GridBbox, t: int)
    requires
        h.len() <= 12,
        0 <= t < 5 * h.len(),
        decodes_to(h, cell),
    ensures
        interleaved_bit(cell.min, 63 - t) == hash_bit(h, t),
{
    let n = 5 * h.len();
    let pos = 63 - t;
    let i = (pos / 2) as u64;
    if pos % 2 == 0 {
        assert(bit32(cell.min.lat, i) == (63 - 2 * i < n && hash_bit(h, 63 - 2 * i)));
    } else {
        assert(bit32(cell.min.lon, i) == (62 - 2 * i < n && hash_bit(h, 62 - 2 * i)));
    }
}

proof fn lemma_cell_code(h: Seq<u8>, cell: GridBbox, k: int)
    requires
        h.len() <= 12,
        0 <= k < h.len(),
        is_base32(h),
        decodes_to(h, cell),
    ensures
        digit_char(hash_code(cell.min, k)) == h[k],
{
    let d = digit_value(h[k])->0;
    assert(digit_value(h[k]) is Some);
    lemma_digit_roundtrip(0, h[k]);
    lemma_bits5_of_bits(d);
    lemma_cell_interleaved_bit(h, cell, 5 * k);
    lemma_cell_interleaved_bit(h, cell, 5 * k + 1);
    lemma_cell_interleaved_bit(h, cell, 5 * k + 2);
    lemma_cell_interleaved_bit(h, cell, 5 * k + 3);
    lemma_cell_interleaved_bit(h, cell, 5 * k + 4);
    assert((5 * k) / 5 == k && (5 * k) % 5 == 0);
    assert((5 * k + 1) / 5 == k && (5 * k + 1) % 5 == 1);
    assert((5 * k + 2) / 5 == k && (5 * k + 2) % 5 == 2);
    assert((5 * k + 3) / 5 == k && (5 * k + 3) % 5 == 3);
    assert((5 * k + 4) / 5 == k && (5 * k + 4) % 5 == 4);
    assert(hash_code(cell.min, k) == d);
}

proof fn lemma_mask_top(x: u32, s: u64, i: u64)
    by (bit_vector)
    requires
        s < 32,
        i < 32,
    ensures
        bit64((x & (0xffff_ffffu32 << (s as u32))) as u64, i) == (i >= s && bit64(x as u64, i)),
        (x & (0xffff_ffffu32 << (s as u32))) <= x,
        x - (x & (0xffff_ffffu32 << (s as u32))) < (1u64 << s),
{
}

proof fn lemma_corner_contains(c: u32, x: u32, s: u64)
    requires
        s < 32,
        forall|i: u64| i < 32 ==> #[trigger] bit32(c, i) == (i >= s && bit32(x, i)),
    ensures
        c <= x,
        x - c < (1u64 << s),
{
    let masked = x & (0xffff_ffffu32 << (s as u32));
    assert forall|i: u64| i < 32 implies #[trigger] bit32(c, i) == bit32(masked, i) by {
        lemma_mask_top(x, s, i);
    }
    lemma_bits_eq32(c, masked);
    lemma_mask_top(x, s, 0);
}

/// The level-`n` cell of a point holds the point: its corner lies at or below the point
/// on both axes, by less than the cell's extent of `2^(32 - bits)` grid steps.
pub proof fn lemma_cell_contains_point(p: GridPoint, n: nat, cell: GridBbox)
    requires
        1 <= n <= 12,
        is_cell_of(p, n, cell),
    ensures
        cell.min.lat <= p.lat,
        p.lat - cell.min.lat < (1u64 << ((32 - cell.lat_bits) as u64)),
        cell.min.lon <= p.lon,
        p.lon - cell.min.lon < (1u64 << ((32 - cell.lon_bits) as u64)),
{
    let m = 5 * n;
    let s_lat = (32 - cell.lat_bits) as u64;
    let s_lon = (32 - cell.lon_bits) as u64;
    assert forall|i: u64| i < 32 implies #[trigger] bit32(cell.min.lat, i) == (i >= s_lat && bit32(p.lat, i)) by {
        assert(bit32(cell.min.lat, i) == (63 - 2 * i < m && bit32(p.lat, i)));
    }
    assert forall|i: u64| i < 32 implies #[trigger] bit32(cell.min.lon, i) == (i >= s_lon && bit32(p.lon, i)) by {
        assert(bit32(cell.min.lon, i) == (62 - 2 * i < m && bit32(p.lon, i)));
    }
    lemma_corner_contains(cell.min.lat, p.lat, s_lat);
    lemma_corner_contains(cell.min.lon, p.lon, s_lon);
}

proof fn lemma_nested_mask(y: u32, sb: u64, sp: u64)
    by (bit_vector)
    requires
        sb <= sp,
        sp < 32,
        y == y & (0xffff_ffffu32 << (sb as u32)),
    ensures
        (y & (0xffff_ffffu32 << (sp as u32))) <= y,
        (y as u64) + (1u64 << sb) <= ((y & (0xffff_ffffu32 << (sp as u32))) as u64) + (1u64 << sp),
{
}

proof fn lemma_masked_eq(c: u32, x: u32, s: u64)
    requires
        s < 32,
        forall|i: u64| i < 32 ==> #[trigger] bit32(c, i) == (i >= s && bit32(x, i)),
    ensures
        c == x & (0xffff_ffffu32 << (s as u32)),
{
    let masked = x & (0xffff_ffffu32 << (s as u32));
    assert forall|i: u64| i < 32 implies #[trigger] bit32(c, i) == bit32(masked, i) by {
        lemma_mask_top(x, s, i);
    }
    lemma_bits_eq32(c, masked);
}

/// One axis of the nesting: `pre` keeps the bits of `big` from position `sp` up and
/// `big` has no bits below `sb <= sp`; then `pre`'s span holds `big`'s.
proof fn lemma_axis_nested(big: u32, pre: u32, sb: u64, sp: u64)
    requires
        sb <= sp < 32,
        forall|i: u64| i < 32 ==> #[trigger] bit32(big, i) == (i >= sb && bit32(big, i)),
        forall|i: u64| i < 32 ==> #[trigger] bit32(pre, i) == (i >= sp && bit32(big, i)),
    ensures
        pre <= big,
        (big as u64) + (1u64 << sb) <= (pre as u64) + (1u64 << sp),
{
    lemma_masked_eq(big, big, sb);
    lemma_masked_eq(pre, big, sp);
    lemma_nested_mask(big, sb, sp);
}

/// The cell of a longer hash lies inside the cell of each of its prefixes: on both axes
/// the prefix cell starts at or below the longer cell and ends at or above it (each cell
/// spanning `2^(32 - bits)` grid steps from its corner).
pub proof fn lemma_prefix_cell_contains(h: Seq<u8>, k: nat, big: GridBbox, pre: GridBbox)
    requires
        1 <= k <= h.len() <= 12,
        is_base32(h),
        decodes_to(h, big),
        decodes_to(h.subrange(0, k as int), pre),
    ensures
        pre.min.lat <= big.min.lat,
        big.min.lat + (1u64 << ((32 - big.lat_bits) as u64)) <= pre.min.lat + (1u64 << ((32
            - pre.lat_bits) as u64)),
        pre.min.lon <= big.min.lon,
        big.min.lon + (1u64 << ((32 - big.lon_bits) as u64)) <= pre.min.lon + (1u64 << ((32
            - pre.lon_bits) as u64)),
{
    let hp = h.subrange(0, k as int);
    let n = 5 * h.len();
    let m = 5 * k;
    let sb_lat = (32 - big.lat_bits) as u64;
    let sp_lat = (32 - pre.lat_bits) as u64;
    let sb_lon = (32 - big.lon_bits) as u64;
    let sp_lon = (32 - pre.lon_bits) as u64;
    assert forall|t: int| 0 <= t < m implies hash_bit(hp, t) == hash_bit(h, t) by {
        assert(hp[t / 5] == h[t / 5]);
    }
    assert forall|i: u64| i < 32 implies #[trigger] bit32(big.min.lat, i) == (i >= sb_lat && bit32(big.min.lat, i)) by {
        assert(bit32(big.min.lat, i) == (63 - 2 * i < n && hash_bit(h, 63 - 2 * i)));
    }
    assert forall|i: u64| i < 32 implies #[trigger] bit32(pre.min.lat, i) == (i >= sp_lat && bit32(big.min.lat, i)) by {
        assert(bit32(pre.min.lat, i) == (63 - 2 * i < m && hash_bit(hp, 63 - 2 * i)));
        assert(bit32(big.min.lat, i) == (63 - 2 * i < n && hash_bit(h, 63 - 2 * i)));
    }
    assert forall|i: u64| i < 32 implies #[trigger] bit32(big.min.lon, i) == (i >= sb_lon && bit32(big.min.lon, i)) by {
        assert(bit32(big.min.lon, i) == (62 - 2 * i < n && hash_bit(h, 62 - 2 * i)));
    }
    assert forall|i: u64| i < 32 implies #[trigger] bit32(pre.min.lon, i) == (i >= sp_lon && bit32(big.min.lon, i)) by {
        assert(bit32(pre.min.lon, i) == (62 - 2 * i < m && hash_bit(hp, 62 - 2 * i)));
        assert(bit32(big.min.lon, i) == (62 - 2 * i < n && hash_bit(h, 62 - 2 * i)));
    }
    lemma_axis_nested(big.min.lat, pre.min.lat, sb_lat, sp_lat);
    lemma_axis_nested(big.min.lon, pre.min.lon, sb_lon, sp_lon);
}

/// Encoding the corner of a decoded cell with the hash's length gives the hash back.
pub proof fn lemma_encode_decode(h: Seq<u8>, cell: GridBbox)
    requires
        1 <= h.len() <= 12,
        is_base32(h),
        decodes_to(h, cell),
    ensures
        spec_encode(cell.min, h.len()) == h,
{
    let e = spec_encode(cell.min, h.len());
    assert forall|k: int| 0 <= k < h.len() implies #[trigger] e[k] == h[k] by {
        lemma_cell_code(h, cell, k);
    }
    assert(e =~= h);
}

/// A shorter hash of a point is a prefix of every longer one.
pub proof fn lemma_encode_prefix(p: GridPoint, n: nat, m: nat)
    requires
        n <= m,
    ensures
        spec_encode(p, m).subrange(0, n as int) == spec_encode(p, n),
{
    assert(spec_encode(p, m).subrange(0, n as int) =~= spec_encode(p, n));
}

proof fn lemma_same_cell_bit(p: GridPoint, q: GridPoint, n: nat, t: int)
    requires
        same_cell(p, q, n),
        0 <= t < 5 * n,
        n <= 12,
    ensures
        interleaved_bit(p, 63 - t) == interleaved_bit(q, 63 - t),
{
    let pos = 63 - t;
    let i = (pos / 2) as u64;
    if pos % 2 == 0 {
        assert(63 - 2 * i < 5 * n);
        assert(bit32(p.lat, i) == bit32(q.lat, i));
    } else {
        assert(62 - 2 * i < 5 * n);
        assert(bit32(p.lon, i) == bit32(q.lon, i));
    }
}

/// Two points get the same `n`-character hash exactly when they lie in the same level-`n`
/// cell; and then, since hashes grow by extension, the hashes of any length `m >= n` of
/// the two points share their first `n` characters, and only then.
pub proof fn lemma_common_prefix(p: GridPoint, q: GridPoint, n: nat, m: nat)
    requires
        n <= m,
        n <= 12,
    ensures
        spec_encode(p, n) == spec_encode(q, n) <==> same_cell(p, q, n),
        spec_encode(p, m).subrange(0, n as int) == spec_encode(q, m).subrange(0, n as int)
            <==> same_cell(p, q, n),
{
    lemma_encode_prefix(p, n, m);
    lemma_encode_prefix(q, n, m);
    let hp = spec_encode(p, n);
    let hq = spec_encode(q, n);
    if same_cell(p, q, n) {
        assert forall|k: int| 0 <= k < n implies #[trigger] hp[k] == hq[k] by {
            lemma_same_cell_bit(p, q, n, 5 * k);
            lemma_same_cell_bit(p, q, n, 5 * k + 1);
            lemma_same_cell_bit(p, q, n, 5 * k + 2);
            lemma_same_cell_bit(p, q, n, 5 * k + 3);
            lemma_same_cell_bit(p, q, n, 5 * k + 4);
            assert(hash_code(p, k) == hash_code(q, k));
        }
        assert(hp =~= hq);
    }
    if hp == hq {
        let m5 = 5 * n;
        assert forall|i: u64| i < 32 && 63 - 2 * i < m5 implies #[trigger] bit32(p.lat, i) == bit32(q.lat, i) by {
            lemma_encoded_stream_bit(p, n, 63 - 2 * i);
            lemma_encoded_stream_bit(q, n, 63 - 2 * i);
        }
        assert forall|i: u64| i < 32 && 62 - 2 * i < m5 implies #[trigger] bit32(p.lon, i) == bit32(q.lon, i) by {
            lemma_encoded_stream_bit(p, n, 62 - 2 * i);
            lemma_encoded_stream_bit(q, n, 62 - 2 * i);
        }
    }
}

/// Text is given back unchanged by a geohash: two strings with the same bytes (as
/// `GeoHash::try_from_str` stores them and `GeoHash::as_str` hands them out) are the
/// same text.
pub proof fn lemma_same_bytes_same_text(a: &str, b: &str)
    requires
        a.spec_bytes() == b.spec_bytes(),
    ensures
        a@ == b@,
{
    vstd::utf8::encode_utf8_decode_utf8(a@);
    vstd::utf8::encode_utf8_decode_utf8(b@);
}

proof fn lemma_in_span(c: u32, q: u32, s: u64)
    by (bit_vector)
    requires
        s < 32,
        c == c & (0xffff_ffffu32 << (s as u32)),
        c <= q,
        (q as u64) < (c as u64) + (1u64 << s),
    ensures
        q & (0xffff_ffffu32 << (s as u32)) == c,
{
}

/// On one axis: a value within `2^s` steps above a corner whose bits below `s` are clear
/// agrees with the corner on every bit from `s` up.
proof fn lemma_axis_in_span(c: u32, q: u32, s: u64)
    requires
        s < 32,
        forall|i: u64| i < 32 && i < s ==> !#[trigger] bit32(c, i),
        c <= q,
        (q as u64) < (c as u64) + (1u64 << s),
    ensures
        forall|i: u64| s <= i < 32 ==> #[trigger] bit32(q, i) == bit32(c, i),
{
    assert forall|i: u64| i < 32 implies #[trigger] bit32(c, i) == (i >= s && bit32(c, i)) by {}
    lemma_masked_eq(c, c, s);
    lemma_in_span(c, q, s);
    assert forall|i: u64| s <= i < 32 implies #[trigger] bit32(q, i) == bit32(c, i) by {
        lemma_mask_top(q, s, i);
    }
}

/// Every grid point inside a hash's cell, its centre among them, encodes back to that
/// hash at the hash's length.
pub proof fn lemma_encode_point_in_cell(h: Seq<u8>, cell: GridBbox, q: GridPoint)
    requires
        1 <= h.len() <= 12,
        is_base32(h),
        decodes_to(h, cell),
        cell.min.lat <= q.lat,
        q.lat < cell.min.lat + (1u64 << ((32 - cell.lat_bits) as u64)),
        cell.min.lon <= q.lon,
        q.lon < cell.min.lon + (1u64 << ((32 - cell.lon_bits) as u64)),
    ensures
        spec_encode(q, h.len()) == h,
{
    let n = 5 * h.len();
    let s_lat = (32 - cell.lat_bits) as u64;
    let s_lon = (32 - cell.lon_bits) as u64;
    assert forall|i: u64| i < 32 && i < s_lat implies !#[trigger] bit32(cell.min.lat, i) by {
        assert(bit32(cell.min.lat, i) == (63 - 2 * i < n && hash_bit(h, 63 - 2 * i)));
    }
    assert forall|i: u64| i < 32 && i < s_lon implies !#[trigger] bit32(cell.min.lon, i) by {
        assert(bit32(cell.min.lon, i) == (62 - 2 * i < n && hash_bit(h, 62 - 2 * i)));
    }
    lemma_axis_in_span(cell.min.lat, q.lat, s_lat);
    lemma_axis_in_span(cell.min.lon, q.lon, s_lon);
    assert(same_cell(q, cell.min, h.len()));
    lemma_common_prefix(q, cell.min, h.len(), h.len());
    lemma_encode_decode(h, cell);
}

} // verus!
