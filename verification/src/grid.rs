//! Grid coordinates: a latitude or longitude scaled onto the unit interval and kept as the
//! 32 most significant bits of its binary fraction.
use vstd::prelude::*;

verus! {

/// A point of the 2^32 x 2^32 grid that geohashes subdivide.
///
/// `lat` is the latitude and `lon` the longitude, each as the top 32 bits of the fraction
/// of its range (`-90..90` and `-180..180`) that lies below the point.
#[derive(Clone, Copy, Debug, PartialEq, Eq, Structural)]
pub struct GridPoint {
    pub lat: u32,
    pub lon: u32,
}


/// A geohash cell on the grid: its lowest corner, and how many leading bits of each
/// coordinate the hash fixes. The cell spans `2^(32 - lat_bits)` grid steps of latitude
/// and `2^(32 - lon_bits)` of longitude from `min`.
#[derive(Clone, Copy, Debug, PartialEq, Eq, Structural)]
pub struct GridBbox {
    pub min: GridPoint,
    pub lat_bits: u32,
    pub lon_bits: u32,
}


/// The grid coordinate of a value on the unit interval, given the IEEE-754 bits of that
/// value plus one (a double in `[1, 2]`): the 32 leading bits of its 52-bit fraction.
/// The top of the interval (the double 2.0) wraps to grid coordinate 0, which is right
/// for longitude: 180 is the same meridian as -180.
pub fn quantize(unit_bits: u64) -> (r: u32)
    ensures
        r == (unit_bits / 0x100000) % 0x1_0000_0000,
        r == quantize_spec(unit_bits),
{
    let r = (unit_bits >> 20) as u32;
    assert(r == (unit_bits / 0x100000) % 0x1_0000_0000) by (bit_vector)
        requires
            r == (unit_bits >> 20u64) as u32,
    ;
    r
}

/// Like [`quantize`], but the top of the interval (the double 2.0 or above) stays at the
/// last grid step: latitude 90 is the pole, which lies in the northern-most cells.
pub fn quantize_latitude(unit_bits: u64) -> (r: u32)
    ensures
        unit_bits < 0x4000_0000_0000_0000 ==> r == (unit_bits / 0x100000) % 0x1_0000_0000,
        unit_bits >= 0x4000_0000_0000_0000 ==> r == 0xffff_ffff,
        r == quantize_latitude_spec(unit_bits),
{
    if unit_bits >= 0x4000_0000_0000_0000 {
        0xffff_ffff
    } else {
        quantize(unit_bits)
    }
}

/// The IEEE-754 bits of the double `1 + x / 2^32`, the unit-interval value of grid
/// coordinate `x` (exponent 1023, fraction led by the bits of `x`).
pub fn unit_bits(x: u32) -> (r: u64)
    ensures
        r == x * 0x100000 + 1023 * 0x10_0000_0000_0000,
        quantize_spec(r) == x,
{
    let r = ((x as u64) << 20) | (1023 << 52);
    assert(r == x * 0x100000 + 1023 * 0x10_0000_0000_0000 && (r / 0x100000) % 0x1_0000_0000 == x)
        by (bit_vector)
        requires
            r == ((x as u64) << 20u64) | (1023u64 << 52u64),
    ;
    r
}

/// The value that [`quantize`] computes: the leading 32 fraction bits.
pub open spec fn quantize_spec(unit_bits: u64) -> u32 {
    ((unit_bits / 0x100000) % 0x1_0000_0000) as u32
}

/// The value that [`quantize_latitude`] computes: the leading 32 fraction bits,
/// saturated at the last grid step from the double 2.0 upwards.
pub open spec fn quantize_latitude_spec(unit_bits: u64) -> u32 {
    if unit_bits >= 0x4000_0000_0000_0000 {
        0xffff_ffff
    } else {
        quantize_spec(unit_bits)
    }
}

impl GridPoint {
    /// The grid point of a position given by the IEEE-754 bits of `1 + lat` and `1 + lon`,
    /// where `lat` and `lon` are its coordinates scaled to the unit interval. Latitude 90
    /// stays in the northern-most cells; longitude 180 falls on the -180 meridian.
    pub fn from_unit_bits(lat_unit_bits: u64, lon_unit_bits: u64) -> (r: GridPoint)
        ensures
            r.lat == quantize_latitude_spec(lat_unit_bits),
            r.lon == quantize_spec(lon_unit_bits),
            lat_unit_bits < 0x4000_0000_0000_0000 ==> r.lat == (lat_unit_bits / 0x100000)
                % 0x1_0000_0000,
            lat_unit_bits >= 0x4000_0000_0000_0000 ==> r.lat == 0xffff_ffff,
            r.lon == (lon_unit_bits / 0x100000) % 0x1_0000_0000,
    {
        GridPoint { lat: quantize_latitude(lat_unit_bits), lon: quantize(lon_unit_bits) }
    }
}

/// The bits of a positive IEEE-754 double with the given biased exponent (kept modulo
/// 2^11) and significand (kept modulo 2^52).
pub fn f64_bits_from_parts(exponent: u32, significand: u64) -> (r: u64)
    ensures
        r == (exponent % 2048) * 0x10_0000_0000_0000 + significand % 0x10_0000_0000_0000,
{
    let r = (((exponent & 0x7ff) as u64) << 52) | (significand & 0xf_ffff_ffff_ffff);
    assert(r == (exponent % 2048) * 0x10_0000_0000_0000 + significand % 0x10_0000_0000_0000)
        by (bit_vector)
        requires
            r == (((exponent & 0x7ffu32) as u64) << 52u64) | (significand & 0xf_ffff_ffff_ffffu64),
    ;
    r
}

/// Quantizing keeps the 32 fraction bits that lead the double's bits, whatever the
/// bits below them: values that differ only below a grid step get the same coordinate.
pub proof fn lemma_quantize_fraction_bits(b: u64)
    ensures
        quantize_spec(b) == (b / 0x100000) % 0x1_0000_0000,
        quantize_spec(b) == quantize_spec((b - b % 0x100000) as u64),
{
}

/// On the unit values `[1, 2)` quantizing rounds down to the grid: the coordinate's own
/// unit value lies at or below the given one, and the next grid step lies above it. So the
/// coordinate grows with the value, and longitude 180 (the double 2.0) wraps to 0.
pub proof fn lemma_quantize_rounds_down(b: u64, c: u64)
    ensures
        0x3ff0_0000_0000_0000 <= b < 0x4000_0000_0000_0000 ==> {
            &&& (quantize_spec(b) as int) * 0x100000 + 0x3ff0_0000_0000_0000 <= b
            &&& b < (quantize_spec(b) as int + 1) * 0x100000 + 0x3ff0_0000_0000_0000
        },
        0x3ff0_0000_0000_0000 <= b <= c < 0x4000_0000_0000_0000 ==> quantize_spec(b)
            <= quantize_spec(c),
        quantize_spec(0x4000_0000_0000_0000) == 0,
{
}

/// Below the pole (unit values under 2.0) the latitude coordinate is exactly the
/// longitude one: the leading 32 fraction bits, rounded down to the grid and growing with
/// the value; from the pole up it is the last grid step, above every other coordinate.
pub proof fn lemma_quantize_latitude(b: u64, c: u64)
    ensures
        b < 0x4000_0000_0000_0000 ==> quantize_latitude_spec(b) == (b / 0x100000) % 0x1_0000_0000,
        b < 0x4000_0000_0000_0000 ==> quantize_latitude_spec(b) == quantize_spec(b),
        0x3ff0_0000_0000_0000 <= b < 0x4000_0000_0000_0000 ==> {
            &&& (quantize_latitude_spec(b) as int) * 0x100000 + 0x3ff0_0000_0000_0000 <= b
            &&& b < (quantize_latitude_spec(b) as int + 1) * 0x100000 + 0x3ff0_0000_0000_0000
        },
        0x3ff0_0000_0000_0000 <= b <= c ==> quantize_latitude_spec(b) <= quantize_latitude_spec(c),
        b >= 0x4000_0000_0000_0000 ==> quantize_latitude_spec(b) == 0xffff_ffff,
{
}

} // verus!
