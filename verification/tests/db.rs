use chrono::DateTime;
use geolocation_history::bsp::{latlng_to_packed, packed_to_latlng, LatLng};
use geolocation_history::db::{Builder, GeoDB, MAX_ERROR_MM, MAX_SECONDS, ORIGIN};
use geolocation_history::delta::{apply_delta, calculate_difference};
use geolocation_history::error::Error;
use geolocation_history::simple8b::{pack, unpack};

fn to_fixed(x: f32) -> u32 {
    (x * 4294967296.0) as u32
}

fn from_fixed(x: u32) -> f32 {
    x as f32 / 4294967296.0
}

fn position(lat: f32, lng: f32) -> LatLng {
    LatLng { lat: to_fixed((lat + 90.) / 180.), lng: to_fixed((lng + 180.) / 360.) }
}

fn degrees(pos: LatLng) -> (f32, f32) {
    let x = from_fixed(pos.lat);
    let y = from_fixed(pos.lng);
    (90. * (2. * x - 1.), 180. * (2. * y - 1.))
}

fn distance_meters(start: (f32, f32), end: (f32, f32)) -> f32 {
    let r = 6371000.;

    let d_lat = (end.0 - start.0).to_radians();
    let d_lon = (end.1 - start.1).to_radians();
    let lat1 = (start.0).to_radians();
    let lat2 = (end.0).to_radians();

    let a = ((d_lat / 2.0).sin()) * ((d_lat / 2.0).sin())
        + ((d_lon / 2.0).sin()) * ((d_lon / 2.0).sin()) * (lat1.cos()) * (lat2.cos());
    let c = 2.0 * ((a.sqrt()).atan2((1.0 - a).sqrt()));

    r * c
}

fn error_mm(lat: f32, lng: f32) -> u32 {
    let stored = degrees(packed_to_latlng(latlng_to_packed(position(lat, lng))));
    (distance_meters((lat, lng), stored) * 1000.).ceil() as u32
}

fn seconds(time_str: &str) -> i64 {
    DateTime::parse_from_rfc3339(time_str).unwrap().timestamp()
}

fn all_codes(db: &GeoDB) -> Vec<u64> {
    let mut iter = db.into_iter();
    let mut codes = Vec::new();
    while let Some(code) = iter.next() {
        codes.push(code);
    }
    codes
}

fn all_deltas(db: &GeoDB) -> Vec<u64> {
    db.points().iter().flat_map(|&word| unpack(word)).collect()
}

const T0: i64 = 1_666_329_360;

#[test]
fn distances() {
    let mut db_builder = Builder::new();

    let points = vec![
        ("2022-10-21T05:16:00.444Z", -23., -46.),
        ("2022-10-21T05:17:00.444Z", -23.003, -46.006),
        ("2022-10-21T05:23:00.444Z", -23.002, -45.998),
        ("2022-10-21T05:28:00.444Z", 42., 64.),
        ("2022-10-21T05:29:00.444Z", 42.001, 63.999),
    ];

    for (time_str, lat, lng) in &points {
        let time = seconds(time_str);
        db_builder.add(time, position(*lat, *lng), error_mm(*lat, *lng)).unwrap();
    }

    let db = db_builder.build();

    for (time_str, lat, lng) in points {
        let time = seconds(time_str);
        let (latitude, longitude) = degrees(db.pos(time).unwrap());
        let error = distance_meters((lat, lng), (latitude, longitude));
        assert!(error <= 10.);
    }

    let time = seconds("2022-10-21T05:18:00.444Z");
    let (lat, lng) = degrees(db.pos(time).unwrap());
    assert!((-23.003 - lat).abs() <= 0.0001);
    assert!((-46.006 - lng).abs() <= 0.0002);

    let time = seconds("2022-10-21T05:27:00.444Z");
    let (lat, lng) = degrees(db.pos(time).unwrap());
    assert!((-23.002 - lat).abs() <= 0.0001);
    assert!((-45.998 - lng).abs() <= 0.0002);
}

#[test]
fn difference_is_signed_magnitude() {
    assert_eq!(calculate_difference(5, 9), 8);
    assert_eq!(calculate_difference(9, 5), 9);
    assert_eq!(calculate_difference(7, 7), 1);
    assert_eq!(calculate_difference(0, 0), 1);
    assert_eq!(calculate_difference(0, (1 << 60) - 1), (1 << 61) - 2);
    assert_eq!(calculate_difference((1 << 60) - 1, 0), (1 << 61) - 1);
    assert_eq!(calculate_difference(0, (1 << 63) - 1), u64::MAX - 1);
    assert_eq!(calculate_difference((1 << 63) - 1, 0), u64::MAX);
}

#[test]
fn delta_is_applied_by_its_direction() {
    assert_eq!(apply_delta(5, 8), 9);
    assert_eq!(apply_delta(9, 9), 5);
    assert_eq!(apply_delta(7, 1), 7);
    assert_eq!(apply_delta(7, 0), 7);
    assert_eq!(apply_delta(0, u64::MAX - 1), (1 << 63) - 1);
}

#[test]
fn apply_inverts_difference() {
    let mut x: u64 = 99;
    for _ in 0..10000 {
        x = x.wrapping_mul(6364136223846793005).wrapping_add(1442695040888963407);
        let before = x >> 4;
        x = x.wrapping_mul(6364136223846793005).wrapping_add(1442695040888963407);
        let after = x >> 4;
        assert_eq!(apply_delta(before, calculate_difference(before, after)), after);
    }
    let top = (1u64 << 60) - 1;
    assert_eq!(apply_delta(0, calculate_difference(0, top)), top);
    assert_eq!(apply_delta(top, calculate_difference(top, 0)), 0);
    assert_eq!(apply_delta(top, calculate_difference(top, top)), top);
}

#[test]
fn first_sample_sets_the_beginning() {
    let mut builder = Builder::new();
    assert_eq!(builder.reference(), ORIGIN);
    assert_eq!(builder.pending(), 0);
    let pos = position(10., 20.);
    assert_eq!(builder.add(T0 + 59, pos, 0), Ok(true));
    assert_eq!(builder.reference(), latlng_to_packed(pos));
    let db = builder.build();
    assert_eq!(db.beginning_minutes() as i64, T0 / 60);
    assert_eq!(all_codes(&db), vec![latlng_to_packed(pos)]);
    assert_eq!(db.pos(T0), Ok(packed_to_latlng(latlng_to_packed(pos))));
    assert_eq!(db.pos(T0 + 59), db.pos(T0));
}

#[test]
fn gap_is_filled_with_the_last_position() {
    let first = position(-23., -46.);
    let second = position(-23.003, -46.006);
    let mut builder = Builder::new();
    assert_eq!(builder.add(T0, first, 0), Ok(true));
    assert_eq!(builder.add(T0 + 5 * 60, second, 0), Ok(true));
    let db = builder.build();
    let a = latlng_to_packed(first);
    let b = latlng_to_packed(second);
    assert_eq!(all_codes(&db), vec![a, a, a, a, a, b]);
    for minute in 0..5 {
        assert_eq!(db.pos(T0 + minute * 60), Ok(packed_to_latlng(a)));
    }
    assert_eq!(db.pos(T0 + 5 * 60), Ok(packed_to_latlng(b)));
    assert_eq!(db.pos(T0 + 6 * 60), Err(Error::NoDataPoint));
    assert_eq!(
        all_deltas(&db),
        vec![calculate_difference(0, a), 1, 1, 1, 1, calculate_difference(a, b)]
    );
}

#[test]
fn sample_of_a_covered_minute_is_rejected() {
    let first = position(1., 2.);
    let second = position(1.5, 2.5);
    let mut builder = Builder::new();
    assert_eq!(builder.add(T0, first, 0), Ok(true));
    assert_eq!(builder.add(T0 + 180, second, 0), Ok(true));
    let reference = builder.reference();
    let pending = builder.pending();
    // the same minute, an earlier minute, a minute before the beginning
    assert_eq!(builder.add(T0 + 180 + 30, first, 0), Ok(false));
    assert_eq!(builder.add(T0 + 60, first, 0), Ok(false));
    assert_eq!(builder.add(T0 - 600, first, 0), Ok(false));
    assert_eq!(builder.add(0, first, 0), Ok(false));
    // a rejected sample is rejected whatever its error
    assert_eq!(builder.add(T0 + 60, first, u32::MAX), Ok(false));
    assert_eq!(builder.reference(), reference);
    assert_eq!(builder.pending(), pending);
    let db = builder.build();
    let a = latlng_to_packed(first);
    let b = latlng_to_packed(second);
    assert_eq!(all_codes(&db), vec![a, a, a, b]);
    assert_eq!(db.beginning_minutes() as i64, T0 / 60);
}

#[test]
fn imprecise_sample_fails_and_changes_nothing() {
    let first = position(1., 2.);
    let second = position(1.5, 2.5);
    let mut builder = Builder::new();
    assert_eq!(builder.add(T0, first, MAX_ERROR_MM + 1), Err(Error::PrecisionExceeded));
    assert_eq!(builder.reference(), ORIGIN);
    assert_eq!(builder.pending(), 0);
    assert_eq!(builder.add(T0, first, MAX_ERROR_MM), Ok(true));
    let reference = builder.reference();
    let pending = builder.pending();
    assert_eq!(builder.add(T0 + 600, second, 8001), Err(Error::PrecisionExceeded));
    assert_eq!(builder.reference(), reference);
    assert_eq!(builder.pending(), pending);
    assert_eq!(builder.add(T0 + 60, second, 8000), Ok(true));
    let db = builder.build();
    assert_eq!(all_codes(&db), vec![latlng_to_packed(first), latlng_to_packed(second)]);
    assert_eq!(Error::PrecisionExceeded.message(), "error too big");
}

#[test]
fn lookup_outside_the_series_finds_no_data_point() {
    let empty = Builder::new().build();
    assert_eq!(empty.pos(0), Err(Error::NoDataPoint));
    assert_eq!(empty.pos(T0), Err(Error::NoDataPoint));
    assert!(empty.points().is_empty());
    assert!(all_codes(&empty).is_empty());

    let mut builder = Builder::new();
    builder.add(T0, position(0., 0.), 0).unwrap();
    builder.add(T0 + 120, position(0.1, 0.1), 0).unwrap();
    let db = builder.build();
    assert!(db.pos(T0 + 179).is_ok());
    assert_eq!(db.pos(T0 + 180), Err(Error::NoDataPoint));
    assert_eq!(db.pos(T0 - 1), Err(Error::NoDataPoint));
    assert_eq!(db.pos(-1), Err(Error::NoDataPoint));
    assert_eq!(db.pos(i64::MIN), Err(Error::NoDataPoint));
    assert_eq!(db.pos(i64::MAX), Err(Error::NoDataPoint));
    assert_eq!(Error::NoDataPoint.message(), "no datapoint");
}

#[test]
fn words_are_written_once_sixty_deltas_are_pending() {
    let pos = LatLng { lat: 0, lng: 0 };
    let mut builder = Builder::new();
    builder.add(T0, pos, 0).unwrap();
    assert_eq!(builder.pending(), 1);
    builder.add(T0 + 58 * 60, pos, 0).unwrap();
    assert_eq!(builder.pending(), 59);
    // the sixtieth delta fills the buffer: one word of thirty two-bit slots leaves
    builder.add(T0 + 59 * 60, pos, 0).unwrap();
    assert_eq!(builder.pending(), 30);
    builder.add(T0 + 100 * 60, pos, 0).unwrap();
    let db = builder.build();
    assert_eq!(all_deltas(&db), vec![1u64; 101]);
    assert_eq!(all_codes(&db), vec![0u64; 101]);
    assert_eq!(db.points().len(), 4);
    assert_eq!(db.pos(T0 + 100 * 60), Ok(pos));
    assert_eq!(db.pos(T0 + 101 * 60), Err(Error::NoDataPoint));
}

#[test]
fn series_replays_every_minute_of_a_long_history() {
    let mut builder = Builder::new();
    let mut expected: Vec<u64> = Vec::new();
    let mut x: u32 = 3;
    let mut minute: i64 = 0;
    for step in 0..400 {
        x = x.wrapping_mul(1664525).wrapping_add(1013904223);
        let lat = x;
        x = x.wrapping_mul(1664525).wrapping_add(1013904223);
        let lng = x;
        let pos = LatLng { lat, lng };
        let code = latlng_to_packed(pos);
        if step > 0 {
            let gap = 1 + (x >> 29) as i64;
            for _ in 1..gap {
                expected.push(*expected.last().unwrap());
            }
            minute += gap;
        }
        expected.push(code);
        assert_eq!(builder.add(T0 + minute * 60, pos, 0), Ok(true));
        assert_eq!(builder.reference(), code);
    }
    let db = builder.build();
    assert_eq!(all_codes(&db), expected);
    for (offset, &code) in expected.iter().enumerate().step_by(37) {
        assert_eq!(db.pos(T0 + offset as i64 * 60 + 13), Ok(packed_to_latlng(code)));
    }
}

#[test]
fn reader_restarts_from_the_first_minute() {
    let mut builder = Builder::new();
    builder.add(T0, position(5., 5.), 0).unwrap();
    builder.add(T0 + 60, position(6., 6.), 0).unwrap();
    let db = builder.build();
    let mut one = db.into_iter();
    let first = one.next();
    assert_eq!(first, Some(latlng_to_packed(position(5., 5.))));
    let mut two = db.into_iter();
    assert_eq!(two.next(), first);
    assert_eq!(one.next(), Some(latlng_to_packed(position(6., 6.))));
    assert_eq!(one.next(), None);
    assert_eq!(one.next(), None);
    assert_eq!(two.next(), Some(latlng_to_packed(position(6., 6.))));
}

#[test]
fn last_minute_that_a_series_can_hold() {
    let mut builder = Builder::new();
    let pos = position(0., 0.);
    assert_eq!(builder.add(MAX_SECONDS - 120, pos, 0), Ok(true));
    assert_eq!(builder.add(MAX_SECONDS - 1, pos, 0), Ok(true));
    let db = builder.build();
    assert_eq!(db.beginning_minutes(), u32::MAX - 1);
    assert_eq!(all_codes(&db).len(), 2);
    assert!(db.pos(MAX_SECONDS - 1).is_ok());
    assert_eq!(db.pos(MAX_SECONDS), Err(Error::NoDataPoint));
}

/// The words that the deltas between `codes` are packed into: one word
/// whenever sixty deltas or more are pending and the last is not zero, and
/// the rest at the end.
fn words_of(codes: &[u64]) -> Vec<u64> {
    let mut words = Vec::new();
    let mut pending: Vec<u64> = Vec::new();
    let mut reference = ORIGIN;
    for &code in codes {
        pending.push(calculate_difference(reference, code));
        reference = code;
        while pending.len() >= 60 && *pending.last().unwrap() != 0 {
            let (word, count) = pack(&pending).unwrap();
            words.push(word);
            pending.drain(..count);
        }
    }
    while !pending.is_empty() {
        let (word, count) = pack(&pending).unwrap();
        words.push(word);
        pending.drain(..count);
    }
    words
}

#[test]
fn words_follow_the_flush_policy() {
    let mut builder = Builder::new();
    let mut codes: Vec<u64> = Vec::new();
    let mut x: u32 = 11;
    for minute in 0..500i64 {
        x = x.wrapping_mul(1664525).wrapping_add(1013904223);
        // mostly small steps, now and then a jump
        let lat = if minute % 97 == 0 { x } else { 0x4000_0000 + (x >> 18) };
        x = x.wrapping_mul(1664525).wrapping_add(1013904223);
        let lng = 0x8000_0000 + (x >> 20);
        let pos = LatLng { lat, lng };
        assert_eq!(builder.add(T0 + minute * 60, pos, 0), Ok(true));
        assert!(builder.pending() < 60);
        codes.push(latlng_to_packed(pos));
    }
    let db = builder.build();
    assert_eq!(all_codes(&db), codes);
    assert_eq!(db.points(), &words_of(&codes));
}

#[test]
fn finished_series_holds_no_spare_capacity() {
    let pos = LatLng { lat: 0, lng: 0 };
    let mut builder = Builder::new();
    builder.add(T0, pos, 0).unwrap();
    builder.add(T0 + 140 * 60, pos, 0).unwrap();
    let db = builder.build();
    assert_eq!(all_deltas(&db), vec![1u64; 141]);
    assert_eq!(db.points().len(), 5);
    assert_eq!(db.points().capacity(), 5);
}

#[test]
fn default_series_is_empty() {
    let db = GeoDB::default();
    assert_eq!(db.beginning_minutes(), 0);
    assert!(db.points().is_empty());
    assert_eq!(db.pos(0), Err(Error::NoDataPoint));
    let builder = Builder::default();
    assert_eq!(builder.reference(), ORIGIN);
    assert_eq!(builder.pending(), 0);
}
