use geolocation_history::error::Error;
use geolocation_history::simple8b::{
    count_leading_zeroes, count_packed, get_min_selector, pack, unpack, MAX_VALUE,
};

#[test]
fn test_foo() {
    let input = [2, 76, 3, 5, 7, 2];
    let (n, count) = pack(&input).unwrap();
    let output = unpack(n);
    assert_eq!(&input[..], &output[..]);
    assert_eq!(count, output.len());
}

#[test]
fn test_bar() {
    let input = [
        1, 1, 1, 1, 1, 1, 1, 1, 1, 1, 1, 1, 1, 1, 1, 1, 1, 1, 1, 1, 1, 1, 1, 1, 1, 1, 1, 2762,
    ];
    let (n, count) = pack(&input).unwrap();
    let output = unpack(n);
    assert_eq!(count, output.len());
}

#[test]
fn test_mode1() {
    let input = [0; 58634];
    let (n, count) = pack(&input).unwrap();
    let output = unpack(n);
    assert_eq!(count, output.len());
}

#[test]
fn zero_run_word_counts_the_run() {
    let input = [0u64; 58634];
    let (word, count) = pack(&input).unwrap();
    assert_eq!(count, 58634);
    assert_eq!(word, (1u64 << 60) + 58634);
    let output = unpack(word);
    assert_eq!(output.len(), 58634);
    assert!(output.iter().all(|&v| v == 0));
}

#[test]
fn zero_run_stops_at_first_value() {
    let mut input = vec![0u64; 61];
    input.push(9);
    input.push(0);
    let (word, count) = pack(&input).unwrap();
    assert_eq!(count, 61);
    assert_eq!(word >> 60, 1);
    assert_eq!(unpack(word), vec![0u64; 61]);
}

#[test]
fn sixty_zeros_are_packed_slot_by_slot() {
    let input = [0u64; 60];
    let (word, count) = pack(&input).unwrap();
    assert_eq!(count, 60);
    assert_eq!(word, (2u64 << 60) | ((1u64 << 60) - 1));
    assert_eq!(unpack(word), vec![0u64; 60]);
}

#[test]
fn word_layout_is_exact() {
    // stored as 3, 77, 4, 6, 8, 3 in slots of seven bits, mode 8
    let input = [2u64, 76, 3, 5, 7, 2];
    let (word, count) = pack(&input).unwrap();
    assert_eq!(count, 6);
    let mut expected: u64 = 0;
    for &v in input.iter().rev() {
        expected = (expected << 7) | (v + 1);
    }
    assert_eq!(word, expected | (8u64 << 60));
}

#[test]
fn prefix_is_as_long_as_the_mode_allows() {
    // 27 ones need two bits each: 30 would fit; 2762 needs twelve bits, of
    // which a word holds five.
    let mut input = vec![1u64; 27];
    input.push(2762);
    let (word, count) = pack(&input).unwrap();
    assert_eq!(count, 27);
    assert_eq!(word >> 60, 3);
    assert_eq!(unpack(word), vec![1u64; 27]);
    let (word, count) = pack(&input[27..]).unwrap();
    assert_eq!(count, 1);
    assert_eq!(word, (11u64 << 60) | 2763);
    assert_eq!(unpack(word), vec![2762]);
}

#[test]
fn round_trip_over_a_long_sequence() {
    let mut data: Vec<u64> = Vec::new();
    let mut x: u64 = 12345;
    for i in 0..5000u64 {
        x = x.wrapping_mul(6364136223846793005).wrapping_add(1442695040888963407);
        let bits = (x >> 58) % 60;
        let v = (x >> 4) & ((1u64 << bits) - 1);
        data.push(if i % 7 == 0 { 0 } else { v });
    }
    let mut rest: &[u64] = &data;
    let mut out: Vec<u64> = Vec::new();
    while !rest.is_empty() {
        let (word, count) = pack(rest).unwrap();
        assert!(count > 0);
        let values = unpack(word);
        assert_eq!(values.len(), count);
        assert_eq!(&values[..], &rest[..count]);
        out.extend(values);
        rest = &rest[count..];
    }
    assert_eq!(out, data);
}

#[test]
fn empty_input_gives_an_empty_word() {
    let (word, count) = pack(&[]).unwrap();
    assert_eq!((word, count), (0, 0));
    assert!(unpack(word).is_empty());
}

#[test]
fn largest_value_fills_the_widest_slot() {
    let input = [MAX_VALUE - 2];
    let (word, count) = pack(&input).unwrap();
    assert_eq!(count, 1);
    assert_eq!(word, (15u64 << 60) | (MAX_VALUE - 1));
    assert_eq!(unpack(word), vec![MAX_VALUE - 2]);
}

#[test]
fn value_too_large_is_refused() {
    assert_eq!(pack(&[MAX_VALUE - 1]), Err(Error::ValueTooLarge));
    assert_eq!(pack(&[MAX_VALUE]), Err(Error::ValueTooLarge));
    assert_eq!(pack(&[u64::MAX]), Err(Error::ValueTooLarge));
    assert_eq!(pack(&[1, 2, u64::MAX]), Err(Error::ValueTooLarge));
    assert_eq!(Error::ValueTooLarge.message(), "value too large");
}

#[test]
fn value_too_large_behind_a_full_word_is_met() {
    // thirty zeros go into one-bit slots; the one behind them needs two bits,
    // of which a word holds thirty, so the scan stops there and never sees
    // the large value.
    let mut input = vec![0u64; 30];
    input.push(1);
    input.extend(vec![0u64; 40]);
    input.push(u64::MAX);
    let (_, count) = pack(&input).unwrap();
    assert_eq!(count, 30);
    // a value that the scan reaches is refused even if it would not be taken
    let mut input = vec![0u64; 60];
    input.push(u64::MAX);
    assert_eq!(pack(&input), Err(Error::ValueTooLarge));
}

#[test]
fn unpack_stops_at_an_empty_slot() {
    // mode 9: seven slots of eight bits; only two are filled
    let word = (9u64 << 60) | (6 << 8) | 4;
    assert_eq!(unpack(word), vec![3, 5]);
    assert_eq!(count_packed(word), 7);
    // an empty first slot ends the word at once
    assert!(unpack((9u64 << 60) | (6 << 8)).is_empty());
    // mode 0 is never written and reads as empty
    assert!(unpack(12345).is_empty());
    assert_eq!(count_packed(0), 240);
    // a run of no zeros
    assert!(unpack(1u64 << 60).is_empty());
}

#[test]
fn min_selector_is_the_densest_mode() {
    assert_eq!(get_min_selector(0), Ok(2));
    assert_eq!(get_min_selector(1), Ok(2));
    assert_eq!(get_min_selector(2), Ok(3));
    assert_eq!(get_min_selector(3), Ok(3));
    assert_eq!(get_min_selector(4), Ok(4));
    assert_eq!(get_min_selector(255), Ok(9));
    assert_eq!(get_min_selector(256), Ok(10));
    assert_eq!(get_min_selector(1023), Ok(10));
    assert_eq!(get_min_selector(1024), Ok(11));
    assert_eq!(get_min_selector((1 << 30) - 1), Ok(14));
    assert_eq!(get_min_selector(1 << 30), Ok(15));
    assert_eq!(get_min_selector(MAX_VALUE - 1), Ok(15));
    assert_eq!(get_min_selector(MAX_VALUE), Err(Error::ValueTooLarge));
}

#[test]
fn leading_zeroes_are_counted() {
    assert_eq!(count_leading_zeroes(&[]), 0);
    assert_eq!(count_leading_zeroes(&[1, 0, 0]), 0);
    assert_eq!(count_leading_zeroes(&[0, 0, 3, 0]), 2);
    assert_eq!(count_leading_zeroes(&[0, 0, 0]), 3);
}
