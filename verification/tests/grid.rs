use geo_hash::direction::Direction;
use geo_hash::grid::{f64_bits_from_parts, quantize, quantize_latitude, unit_bits, GridPoint};

#[test]
fn quantize_takes_leading_fraction_bits() {
    assert_eq!(quantize(1.5f64.to_bits()), 0x8000_0000);
    assert_eq!(quantize(1.0f64.to_bits()), 0);
    assert_eq!(quantize(1.75f64.to_bits()), 0xc000_0000);
    assert_eq!(quantize(0x3ff1_2345_6789_abcd), 0x1234_5678);
    // the top of the interval wraps round for longitude, and stays at the top for latitude
    assert_eq!(quantize(2.0f64.to_bits()), 0);
    assert_eq!(quantize_latitude(2.0f64.to_bits()), u32::MAX);
    assert_eq!(quantize_latitude(u64::MAX), u32::MAX);
    assert_eq!(quantize_latitude(1.75f64.to_bits()), 0xc000_0000);
}

#[test]
fn unit_bits_inverts_quantize() {
    assert_eq!(unit_bits(0), 1.0f64.to_bits());
    assert_eq!(unit_bits(0x8000_0000), 1.5f64.to_bits());
    for x in [0u32, 1, 0x1234_5678, 0xdead_beef, u32::MAX] {
        assert_eq!(quantize(unit_bits(x)), x);
    }
}

#[test]
fn grid_point_from_unit_bits() {
    let p = GridPoint::from_unit_bits(1.25f64.to_bits(), 1.5f64.to_bits());
    assert_eq!(p, GridPoint { lat: 0x4000_0000, lon: 0x8000_0000 });
    let corner = GridPoint::from_unit_bits(2.0f64.to_bits(), 2.0f64.to_bits());
    assert_eq!(corner, GridPoint { lat: u32::MAX, lon: 0 });
}

#[test]
fn f64_bits_from_parts_builds_powers_of_two() {
    assert_eq!(f64::from_bits(f64_bits_from_parts(1023, 0)), 1.0);
    assert_eq!(f64::from_bits(f64_bits_from_parts(1023 << 1, 0)), 2f64.powi(1023));
    assert_eq!(f64::from_bits(f64_bits_from_parts(1, 0)), 2f64.powi(-1022));
    assert_eq!(f64_bits_from_parts(0x800 + 5, (1 << 52) + 3), (5 << 52) + 3);
}

#[test]
fn directions_step_one_cell() {
    assert_eq!(Direction::N.to_lat_lon(), (1, 0));
    assert_eq!(Direction::NE.to_lat_lon(), (1, 1));
    assert_eq!(Direction::E.to_lat_lon(), (0, 1));
    assert_eq!(Direction::SE.to_lat_lon(), (-1, 1));
    assert_eq!(Direction::S.to_lat_lon(), (-1, 0));
    assert_eq!(Direction::SW.to_lat_lon(), (-1, -1));
    assert_eq!(Direction::W.to_lat_lon(), (0, -1));
    assert_eq!(Direction::NW.to_lat_lon(), (1, -1));
    assert_eq!(Direction::ALL.len(), 8);
    for (i, a) in Direction::ALL.iter().enumerate() {
        for b in &Direction::ALL[i + 1..] {
            assert_ne!(a, b);
            assert_ne!(a.to_lat_lon(), b.to_lat_lon());
        }
    }
}
