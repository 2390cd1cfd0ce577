use geo_hash::codec::{build_reverse_table, Codec, GeoHash};
use geo_hash::grid::{unit_bits, GridBbox, GridPoint};

const MAX_LAT: f64 = 90.0;
const MAX_LON: f64 = 180.0;

fn grid_point(lat: f64, lon: f64) -> GridPoint {
    let lat_unit = lat / (MAX_LAT * 2.0) + 1.5;
    let lon_unit = lon / (MAX_LON * 2.0) + 1.5;
    GridPoint::from_unit_bits(lat_unit.to_bits(), lon_unit.to_bits())
}

fn grid_value(x: u32, r: f64) -> f64 {
    let p = f64::from_bits(unit_bits(x));
    2.0 * r * (p - 1.0) - r
}

fn cell_floats(cell: GridBbox) -> ((f64, f64), (f64, f64)) {
    let min_lat = grid_value(cell.min.lat, MAX_LAT);
    let min_lon = grid_value(cell.min.lon, MAX_LON);
    let lat_diff = MAX_LAT * 2.0 * 2f64.powi(-(cell.lat_bits as i32));
    let lon_diff = MAX_LON * 2.0 * 2f64.powi(-(cell.lon_bits as i32));
    ((min_lat, min_lon), (min_lat + lat_diff, min_lon + lon_diff))
}

fn f64_round(x: f64, decimals: u32) -> f64 {
    let factor = 10.0_f64.powi(decimals as i32);
    (x * factor).round() / factor
}

fn compare(left: (f64, f64), expected: (f64, f64)) {
    assert_eq!(f64_round(left.0, 12), f64_round(expected.0, 12), "latitude {} vs {}", left.0, expected.0);
    assert_eq!(f64_round(left.1, 12), f64_round(expected.1, 12), "longitude {} vs {}", left.1, expected.1);
}

#[test]
fn validate_geohash_encoding() {
    let data = [
        ("sb54v4xk18jg", 0.497818518f64, 38.198505253f64),
        ("00upjeyjb54g", -84.529178182, -174.125057287),
        ("kkfwu0udnhxm", -17.090238388, 14.947853282),
        ("gp2cx4ywjhyj", 86.06108453, -43.628546008),
        ("h0g4tmrp0cut", -85.311745894, 4.459114168),
        ("v471duxnbttv", 57.945830289, 49.349241965),
        ("h78n33z47k3j", -69.203844118, 11.314685805),
        ("gvtw7yer4bhh", 77.073040753, -3.346243298),
        ("0fqwy0pgxxwj", -76.156584583, -136.834730089),
        ("dj53wuppzfrx", 28.411988257, -85.123100792),
        ("rmbn08wvubcz", -11.597823607, 146.281448853),
        ("qtjucvmdjyhe", -16.010823784, 120.67064801),
        ("9wkcmxuswb2j", 35.419323354, -105.572143468),
        ("9745rntct4xh", 17.482266365, -120.621762327),
        ("fdhmnve3sz53", 57.159413941, -61.222135062),
        ("1w24t6m5t8ew", -54.391332719, -112.262179799),
        ("bxgshxvdqnzj", 89.33987042, -152.372551026),
        ("yhuw9x0p1mt1", 72.901011648, 96.39410362),
        ("800000000000", 0.0, -180.0),
    ];
    for (expected, lat, lon) in data {
        let result = Codec::<12>::encode(grid_point(lat, lon));
        let expected = GeoHash::from_str(expected);
        assert_eq!(
            result,
            expected,
            "Coordinate({lat}, {lon}) has geohash='{}' but expected='{}'",
            result.as_str(),
            expected.as_str()
        );
    }
}

#[test]
fn validate_geohash_decoding() {
    let data = [
        ("d", (0.0, -90.0), (45.0, -45.0)),
        ("db", (0.0, -56.25), (5.625, -45.0)),
        ("dbc", (4.21875, -54.84375), (5.625, -53.4375)),
        ("dbcd", (4.5703125, -54.140625), (4.74609375, -53.7890625)),
        ("dbcde", (4.658203125, -54.0087890625), (4.7021484375, -53.96484375)),
        ("dbcdef", (4.669189453125, -53.975830078125), (4.6746826171875, -53.96484375)),
        ("dbcdef1", (4.669189453125, -53.974456787109375), (4.670562744140625, -53.97308349609375)),
        ("dbcdef12", (4.669189453125, -53.97411346435547), (4.669361114501953, -53.97377014160156)),
        ("dbcdef123", (4.669232368469238, -53.97407054901123), (4.669275283813477, -53.97402763366699)),
        ("dbcdef1234", (4.669243097305298, -53.97407054901123), (4.669248461723328, -53.97405982017517)),
        ("dbcdef12345", (4.669243097305298, -53.97406652569771), (4.669244438409805, -53.9740651845932)),
        ("dbcdef123456", (4.669243432581425, -53.97406619042158), (4.669243600219488, -53.974065855145454)),
        ("9g3q", (19.3359375, -99.4921875), (19.51171875, -99.140625)),
        ("ww8p1r4t8", (37.83236503601074, 112.55836486816406), (37.83240795135498, 112.5584077835083)),
        ("800000000000", (0.0, -180.0), (1.6763806343078613e-7, -179.99999966472387)),
    ];

    for (hash, expected_min, expected_max) in data {
        let hash = GeoHash::from_str(hash);
        let cell = hash.decode_bbox().expect("to decode");
        let (min, max) = cell_floats(cell);
        compare(min, expected_min);
        compare(max, expected_max);
        // the corner of the cell encodes back to the same hash
        let again = GeoHash::encode(cell.min, hash.len()).expect("to encode");
        assert_eq!(again, hash);
        // so does its centre, on the grid and in degrees
        let centre = GridPoint {
            lat: cell.min.lat + (1u32 << (31 - cell.lat_bits)),
            lon: cell.min.lon + (1u32 << (31 - cell.lon_bits)),
        };
        assert_eq!(GeoHash::encode(centre, hash.len()).expect("to encode"), hash);
        let mid = ((min.0 + max.0) / 2.0, (min.1 + max.1) / 2.0);
        assert_eq!(GeoHash::encode(grid_point(mid.0, mid.1), hash.len()).expect("to encode"), hash);
    }
}

#[test]
fn readme_encode_and_decode() {
    let point = grid_point(43.2203, 142.8635);
    let hash = GeoHash::encode(point, 9).expect("to encode");
    assert_eq!(hash.as_str(), "xpttfun02");
    assert_eq!(Codec::<9>::encode(point), hash);

    let hash = GeoHash::try_from_str("xpttfun02").expect("valid geohash");
    assert_eq!(hash, "xpttfun02");
    assert!(hash == *"xpttfun02");
    assert!(hash != "xpttfun0");
    assert_eq!(hash.as_str(), "xpttfun02");
    let cell = hash.decode_bbox().expect("we should have valid hash here");
    let (min, max) = cell_floats(cell);
    assert_eq!(min, (43.22025775909424, 142.86346435546875));
    assert_eq!(max, (43.22030067443848, 142.863507270813));
    assert_eq!(((min.0 + max.0) / 2.0, (min.1 + max.1) / 2.0), (43.22027921676636, 142.86348581314087));
}

#[test]
fn encode_rejects_lengths_outside_range() {
    let point = grid_point(10.0, 20.0);
    assert!(GeoHash::encode(point, 0).is_none());
    assert!(GeoHash::encode(point, 13).is_none());
    assert_eq!(GeoHash::encode(point, 1).expect("len 1").len(), 1);
    assert_eq!(GeoHash::encode(point, 12).expect("len 12").len(), 12);
}

#[test]
fn encode_exact_cells() {
    // grid corner (0, 0) is the south-west corner of the world
    let origin = GridPoint { lat: 0, lon: 0 };
    assert_eq!(GeoHash::encode(origin, 12).unwrap().as_str(), "000000000000");
    let top = GridPoint { lat: u32::MAX, lon: u32::MAX };
    assert_eq!(GeoHash::encode(top, 12).unwrap().as_str(), "zzzzzzzzzzzz");
    // only the longitude's leading bit set: first character has value 0b10000
    let east = GridPoint { lat: 0, lon: 0x8000_0000 };
    assert_eq!(GeoHash::encode(east, 3).unwrap().as_str(), "h00");
    // only the latitude's leading bit set: first character has value 0b01000
    let north = GridPoint { lat: 0x8000_0000, lon: 0 };
    assert_eq!(GeoHash::encode(north, 3).unwrap().as_str(), "800");
}

#[test]
fn shorter_hash_is_prefix_of_longer() {
    let point = grid_point(-33.8688, 151.2093);
    let long = GeoHash::encode(point, 12).unwrap();
    for n in 1..=12 {
        let short = GeoHash::encode(point, n).unwrap();
        assert_eq!(short.as_str(), &long.as_str()[..n]);
    }
}

#[test]
fn decoded_cell_keeps_leading_bits() {
    let point = GridPoint { lat: 0xdead_beef, lon: 0x1234_5678 };
    for n in 1..=12usize {
        let hash = GeoHash::encode(point, n).unwrap();
        let cell = hash.decode_bbox().expect("valid");
        let bits = 5 * n as u32;
        assert_eq!(cell.lat_bits, bits / 2);
        assert_eq!(cell.lon_bits, bits - bits / 2);
        let lat_mask = if cell.lat_bits == 0 { 0 } else { u32::MAX << (32 - cell.lat_bits) };
        let lon_mask = u32::MAX << (32 - cell.lon_bits);
        assert_eq!(cell.min, GridPoint { lat: point.lat & lat_mask, lon: point.lon & lon_mask });
    }
}

#[test]
fn points_in_same_cell_share_hash() {
    let a = GridPoint { lat: 0xabcd_0000, lon: 0x1357_0000 };
    let b = GridPoint { lat: 0xabcd_ffff, lon: 0x1357_ffff };
    // 5 characters fix 12 latitude and 13 longitude bits, which a and b share
    assert_eq!(GeoHash::encode(a, 5).unwrap(), GeoHash::encode(b, 5).unwrap());
    // 7 characters fix 17 latitude bits: a and b differ there
    assert_ne!(GeoHash::encode(a, 7).unwrap(), GeoHash::encode(b, 7).unwrap());
}

#[test]
fn decode_reports_first_invalid_character() {
    let hash = GeoHash::from_str("dbcadef");
    let error = hash.decode_bbox().expect_err("'a' is not in the alphabet");
    assert_eq!(error.position(), 3);
    assert_eq!(error.character(), b'a');
    for text in ["i", "l", "o", "A", "-", "0i"] {
        let error = GeoHash::from_str(text).decode_bbox().expect_err("invalid");
        assert_eq!(error.position() as usize, text.len() - 1);
        assert_eq!(error.character(), text.as_bytes()[text.len() - 1]);
    }
}

#[test]
fn from_str_checks_length_only() {
    assert!(GeoHash::try_from_str("").is_none());
    assert!(GeoHash::try_from_str("1234567891234").is_none());
    let hash = GeoHash::try_from_str("123456789123").expect("12 bytes fit");
    assert_eq!(hash.as_str(), "123456789123");
    assert_eq!(hash.len(), 12);
    // any text of fitting length is kept, even outside the alphabet
    let text = GeoHash::try_from_str("héllo").expect("6 bytes fit");
    assert_eq!(text.as_str(), "héllo");
    assert_eq!(text.len(), 6);
    assert!(GeoHash::try_from_str("ééééééé").is_none());
}

#[test]
fn geohash_equality_compares_text() {
    assert_eq!(GeoHash::from_str("u4pruyd"), GeoHash::from_str("u4pruyd"));
    assert_ne!(GeoHash::from_str("u4pruyd"), GeoHash::from_str("u4pruy"));
    assert_ne!(GeoHash::from_str("u4pruyd"), GeoHash::from_str("u4pruye"));
}

#[test]
fn reverse_table_maps_alphabet_back() {
    let chars = [
        '0', '1', '2', '3', '4', '5', '6', '7', '8', '9', 'b', 'c', 'd', 'e', 'f', 'g', 'h', 'j', 'k',
        'm', 'n', 'p', 'q', 'r', 's', 't', 'u', 'v', 'w', 'x', 'y', 'z',
    ];
    let table = build_reverse_table(chars);
    for (idx, c) in chars.iter().enumerate() {
        assert_eq!(table[*c as usize] as usize, idx);
    }
    assert_eq!(table[b'a' as usize], u8::MAX);
    assert_eq!(table[0], u8::MAX);
    assert_eq!(table[255], u8::MAX);
    // a repeated character maps to its last position
    let mut repeated = chars;
    repeated[31] = '0';
    assert_eq!(build_reverse_table(repeated)[b'0' as usize], 31);
}

#[test]
fn north_pole_and_date_line_stay_in_edge_cells() {
    assert_eq!(GeoHash::encode(grid_point(90.0, 0.0), 1).unwrap(), "u");
    assert_eq!(GeoHash::encode(grid_point(89.99999, 0.0), 1).unwrap(), "u");
    // longitude 180 is the -180 meridian
    assert_eq!(GeoHash::encode(grid_point(0.0, 180.0), 12).unwrap(), "800000000000");
    assert_eq!(GeoHash::encode(grid_point(0.0, 180.0), 12).unwrap(), GeoHash::encode(grid_point(0.0, -180.0), 12).unwrap());
    assert_eq!(GeoHash::encode(grid_point(90.0, 180.0), 12).unwrap(), "bpbpbpbpbpbp");
    assert_eq!(GeoHash::encode(grid_point(-90.0, -180.0), 12).unwrap(), "000000000000");
}

#[test]
fn prefix_cell_contains_longer_cell() {
    let text = "dbcdef123456";
    let big = GeoHash::from_str(text).decode_bbox().unwrap();
    for k in 1..=text.len() {
        let pre = GeoHash::from_str(&text[..k]).decode_bbox().unwrap();
        assert!(pre.min.lat <= big.min.lat && pre.min.lon <= big.min.lon);
        assert!(big.min.lat as u64 + (1u64 << (32 - big.lat_bits)) <= pre.min.lat as u64 + (1u64 << (32 - pre.lat_bits)));
        assert!(big.min.lon as u64 + (1u64 << (32 - big.lon_bits)) <= pre.min.lon as u64 + (1u64 << (32 - pre.lon_bits)));
    }
}
