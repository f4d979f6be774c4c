use geohash32::alphabet::{position, symbol};
use geohash32::bisect::{bisect_axis, RangeTriple};
use geohash32::codec::{
    check_precision, decode, encode, get_bit_representation, validate_latitude_longitude,
    GeohashError, LAT_BOUND, LON_BOUND,
};

const TABLE: &str = "0123456789bcdefghjkmnpqrstuvwxyz";

fn degrees(d: f64) -> i32 {
    (d * 1e7).round() as i32
}

#[test]
fn encodes_known_points() {
    assert_eq!(encode(degrees(57.64911), degrees(10.40744), 11).unwrap(), "u4pruydqqvj");
    assert_eq!(encode(degrees(42.6), degrees(-5.6), 5).unwrap(), "ezs42");
}

#[test]
fn encodes_corners() {
    assert_eq!(encode(LAT_BOUND, LON_BOUND, 12).unwrap(), "zzzzzzzzzzzz");
    assert_eq!(encode(-LAT_BOUND, -LON_BOUND, 4).unwrap(), "0000");
    assert_eq!(encode(0, 0, 1).unwrap(), "s");
}

#[test]
fn encode_has_requested_length_and_only_symbols() {
    let points = [
        (0, 0),
        (LAT_BOUND, LON_BOUND),
        (-LAT_BOUND, -LON_BOUND),
        (degrees(-0.08635), degrees(51.52562)),
        (degrees(-33.8688), degrees(151.2093)),
        (degrees(64.1466), degrees(-21.9426)),
    ];
    for &(lat, lon) in points.iter() {
        for p in 1u8..=12 {
            let h = encode(lat, lon, p).unwrap();
            assert_eq!(h.chars().count(), p as usize);
            assert!(h.chars().all(|c| TABLE.contains(c)));
        }
    }
}

#[test]
fn encode_rejects_precision_zero_and_thirteen() {
    assert_eq!(encode(0, 0, 0), Err(GeohashError::InvalidPrecision));
    assert_eq!(encode(0, 0, 13), Err(GeohashError::InvalidPrecision));
    assert!(!check_precision(0));
    assert!(!check_precision(13));
    assert!(check_precision(1));
    assert!(check_precision(12));
}

#[test]
fn encode_rejects_out_of_range_coordinates() {
    assert_eq!(encode(degrees(91.0), 0, 5), Err(GeohashError::InvalidCoordinate));
    assert_eq!(encode(0, degrees(-181.0), 5), Err(GeohashError::InvalidCoordinate));
    assert!(!validate_latitude_longitude(degrees(91.0), 0));
    assert!(!validate_latitude_longitude(0, degrees(-181.0)));
    assert!(validate_latitude_longitude(LAT_BOUND, -LON_BOUND));
}

#[test]
fn precision_is_checked_before_coordinates() {
    assert_eq!(encode(degrees(91.0), 0, 0), Err(GeohashError::InvalidPrecision));
}

#[test]
fn round_trip_within_five_symbol_cell() {
    let lat = degrees(-0.08635);
    let lon = degrees(51.52562);
    let h = encode(lat, lon, 5).unwrap();
    let (dlat, dlon) = decode(&h).unwrap();
    assert!((dlat as i64 - lat as i64).abs() <= 440_000);
    assert!((dlon as i64 - lon as i64).abs() <= 440_000);
}

#[test]
fn decode_rejects_symbol_outside_table() {
    assert_eq!(
        decode("a12"),
        Err(GeohashError::InvalidSymbol { symbol: 'a', index: 0 })
    );
    assert_eq!(
        decode("u4i"),
        Err(GeohashError::InvalidSymbol { symbol: 'i', index: 2 })
    );
}

#[test]
fn decode_accepts_more_than_twelve_symbols() {
    let (lat, lon) = decode("0123456789bcd").unwrap();
    let (lat12, lon12) = decode("0123456789bc").unwrap();
    assert!(-LAT_BOUND <= lat && lat <= LAT_BOUND);
    assert!(-LON_BOUND <= lon && lon <= LON_BOUND);
    assert!((lat as i64 - lat12 as i64).abs() <= 2);
    assert!((lon as i64 - lon12 as i64).abs() <= 4);
    let long = "zzzzzzzzzzzzzzzzzzzzzzzzzzzzzzzzzzzzzzzz";
    assert_eq!(decode(long), Ok((LAT_BOUND - 1, LON_BOUND - 1)));
    let low = "0000000000000000000000000000000000000000";
    assert_eq!(decode(low), Ok((-LAT_BOUND, -LON_BOUND)));
}

#[test]
fn decode_reports_bad_symbol_before_length() {
    assert_eq!(
        decode("a123456789bcd"),
        Err(GeohashError::InvalidSymbol { symbol: 'a', index: 0 })
    );
    assert_eq!(
        decode("0123456789bcdefo"),
        Err(GeohashError::InvalidSymbol { symbol: 'o', index: 15 })
    );
}

#[test]
fn decode_of_empty_geohash_is_origin() {
    assert_eq!(decode(""), Ok((0, 0)));
}

#[test]
fn each_symbol_encodes_its_cell_centre() {
    for (i, c) in TABLE.chars().enumerate() {
        let b: Vec<i32> = (0..5).map(|j| ((i >> (4 - j)) & 1) as i32).collect();
        let lat = -675_000_000 + 450_000_000 * (2 * b[1] + b[3]);
        let lon = -1_575_000_000 + 450_000_000 * (4 * b[0] + 2 * b[2] + b[4]);
        assert_eq!(encode(lat, lon, 1), Ok(c.to_string()));
    }
}

#[test]
fn each_symbol_decodes_by_its_own_position() {
    for (i, c) in TABLE.chars().enumerate() {
        let b: Vec<usize> = (0..5).map(|j| (i >> (4 - j)) & 1).collect();
        let lat = if b[1] == 1 { 450_000_000 } else { -450_000_000 };
        let lon = (if b[0] == 1 { 900_000_000 } else { -900_000_000 })
            + (if b[2] == 1 { 450_000_000 } else { -450_000_000 });
        assert_eq!(decode(&c.to_string()), Ok((lat, lon)));
    }
}

#[test]
fn decode_gives_cell_middles() {
    assert_eq!(decode("s"), Ok((450_000_000, 450_000_000)));
    assert_eq!(decode("0"), Ok((-450_000_000, -1_350_000_000)));
    assert_eq!(decode("z"), Ok((450_000_000, 1_350_000_000)));
}

#[test]
fn alphabet_positions_round_trip() {
    for (k, c) in TABLE.chars().enumerate() {
        assert_eq!(symbol(k as u8), c);
        assert_eq!(position(c), Some(k as u8));
        assert_eq!(position(symbol(k as u8)), Some(k as u8));
    }
    for c in ['a', 'i', 'l', 'o', 'A', ' ', '-'] {
        assert_eq!(position(c), None);
    }
}

#[test]
fn higher_precision_stays_within_lower_precision_cell() {
    let lat = degrees(48.8584);
    let lon = degrees(2.2945);
    let mut tolerances: Vec<(i64, i64)> = Vec::new();
    for p in 1u8..=12 {
        let n = 5 * p as u32;
        let lat_steps = n / 2 - 1;
        let lon_steps = (n + 1) / 2 - 1;
        tolerances.push((
            LAT_BOUND as i64 / (1i64 << lat_steps) + 1,
            LON_BOUND as i64 / (1i64 << lon_steps) + 1,
        ));
    }
    for p in 1..=12usize {
        let (dlat, dlon) = decode(&encode(lat, lon, p as u8).unwrap()).unwrap();
        for q in 1..=p {
            assert!((dlat as i64 - lat as i64).abs() <= tolerances[q - 1].0);
            assert!((dlon as i64 - lon as i64).abs() <= tolerances[q - 1].1);
        }
        if p > 1 {
            assert!(tolerances[p - 1].0 <= tolerances[p - 2].0);
            assert!(tolerances[p - 1].1 <= tolerances[p - 2].1);
        }
    }
}

#[test]
fn point_error_can_grow_with_precision() {
    let (d1, _) = decode(&encode(degrees(45.0), 0, 1).unwrap()).unwrap();
    let (d2, _) = decode(&encode(degrees(45.0), 0, 2).unwrap()).unwrap();
    assert_eq!(d1, degrees(45.0));
    assert_ne!(d2, degrees(45.0));
}

#[test]
fn bit_representation_is_most_significant_first() {
    assert_eq!(get_bit_representation(5), vec![false, false, true, false, true]);
    assert_eq!(get_bit_representation(31), vec![true; 5]);
    assert_eq!(get_bit_representation(0), vec![false; 5]);
}

#[test]
fn bisection_bits_of_axis() {
    let bits = bisect_axis(0, LAT_BOUND);
    assert_eq!(bits.len(), 32);
    assert!(bits[0]);
    assert!(bits[1..].iter().all(|b| !*b));
    let top = bisect_axis(LON_BOUND, LON_BOUND);
    assert!(top.iter().all(|b| *b));
    let low = bisect_axis(-LON_BOUND, LON_BOUND);
    assert!(low.iter().all(|b| !*b));
}

#[test]
fn range_triple_narrows_to_the_half_holding_the_value() {
    let mut r = RangeTriple { low: -8, mid: 0, high: 8 };
    assert!(r.narrow(3));
    assert_eq!((r.low, r.mid, r.high), (0, 4, 8));
    assert!(!r.narrow(3));
    assert_eq!((r.low, r.mid, r.high), (0, 2, 4));
}

fn closed_cell_holds(d: i32, v: i32, bound: i32, n: u32) -> bool {
    let w = 2 * bound as i128;
    let x = v as i128 + bound as i128;
    let scale = 1i128 << n;
    let k = if x >= w { scale - 1 } else { x * scale / w };
    let y = (d as i128 + bound as i128) * scale;
    k * w <= y && y <= (k + 1) * w
}

#[test]
fn longer_geohash_decodes_inside_shorter_cell() {
    let points = [
        (degrees(48.8584), degrees(2.2945)),
        (degrees(45.0), 0),
        (degrees(-0.08635), degrees(51.52562)),
        (LAT_BOUND, LON_BOUND),
        (-LAT_BOUND, -LON_BOUND),
    ];
    for &(lat, lon) in points.iter() {
        for q in 2u32..=12 {
            let (dlat, dlon) = decode(&encode(lat, lon, q as u8).unwrap()).unwrap();
            for p in 1..q {
                assert!(closed_cell_holds(dlat, lat, LAT_BOUND, 5 * p / 2));
                assert!(closed_cell_holds(dlon, lon, LON_BOUND, (5 * p + 1) / 2));
            }
        }
    }
}
