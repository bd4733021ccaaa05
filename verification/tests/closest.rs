use gradual_int_sqrt::closest::{
    int_sqrt_gradually_ascending_from, int_sqrt_gradually_changing_from,
    int_sqrt_gradually_descending_from, saturating_plus, MaxValue,
};

#[test]
fn test_asc_u8() {
    let mut to_isqrt = int_sqrt_gradually_ascending_from::<u8>(0);
    let result: Vec<u8> = (0u8..17).map(|n| to_isqrt.step(n)).collect();
    let expected: Vec<u8> = vec![
        // 0  1  2  3  4  5  6  7  8  9 10 11 12 13 14 15 16
        0, 1, 1, 2, 2, 2, 2, 3, 3, 3, 3, 3, 3, 4, 4, 4, 4,
    ];
    assert_eq!(result, expected);
}

#[test]
fn test_entire_u16_asc_range_u16() {
    // The nearest root of 65535 is greater than 255, and the end of its
    // bracket is greater than 65535.
    let mut to_isqrt = int_sqrt_gradually_ascending_from::<u16>(0);
    for n in 0u16..65535 {
        let dist = |s: u16| {
            let s = s as i64;
            (n as i64 - s * s).abs()
        };
        let s = to_isqrt.step(n);
        let d = dist(s);
        if s > 0 {
            let d1 = dist(s - 1);
            assert!(d <= d1);
        }
        let d1 = dist(s + 1);
        assert!(d <= d1);
    }
}

#[test]
fn test_asc_u16() {
    let mut to_isqrt = int_sqrt_gradually_ascending_from::<u16>(0);
    let result: Vec<_> = (0u16..17).map(|n| to_isqrt.step(n)).collect();
    let expected: Vec<u16> = vec![0, 1, 1, 2, 2, 2, 2, 3, 3, 3, 3, 3, 3, 4, 4, 4, 4];
    assert_eq!(result, expected);
}

#[test]
fn test_scaled_asc_u16() {
    let mut to_isqrt = int_sqrt_gradually_ascending_from::<u16>(0);
    let result: Vec<_> = (0u16..17).map(|n| to_isqrt.step(1024 * n)).collect();
    let expected: Vec<u16> = vec![
        // 0   1   2   3   4   5   6   7   8   9  10  11  12  13  14  15  16
        0, 32, 45, 55, 64, 72, 78, 85, 91, 96, 101, 106, 111, 115, 120, 124, 128,
    ];
    assert_eq!(result, expected);
}

#[test]
fn test_desc_u8() {
    let mut to_isqrt = int_sqrt_gradually_descending_from::<u8>(5);
    let result: Vec<u8> = (0u8..17).rev().map(|n| to_isqrt.step(n)).collect();
    let expected: Vec<u8> = vec![
        // 16 15 14 13 12 11 10  9  8  7  6  5  4  3  2  1  0
        4, 4, 4, 4, 3, 3, 3, 3, 3, 3, 2, 2, 2, 2, 1, 1, 0,
    ];
    assert_eq!(result, expected);
}

#[test]
fn test_u8() {
    let mut to_isqrt = int_sqrt_gradually_changing_from(0u8);
    let inputs: Vec<u8> = (0u8..14).chain((0u8..14).rev()).collect();
    let result: Vec<u8> = inputs.iter().map(|&n| to_isqrt.step(n)).collect();
    // The roots of the inputs from 0 to 9, on the way up and on the way down.
    let single_digit: Vec<u8> = inputs
        .iter()
        .zip(result.iter())
        .filter(|(n, _)| **n <= 9)
        .map(|(_, s)| *s)
        .collect();
    let expected: Vec<u8> = vec![
        // 0 1 2 3 4 5 6 7 8 9 9 8 7 6 5 4 3 2 1 0
        0, 1, 1, 2, 2, 2, 2, 3, 3, 3, 3, 3, 3, 2, 2, 2, 2, 1, 1, 0,
    ];
    assert_eq!(single_digit, expected);
}

#[test]
fn closest_changing_over_fourteen_up_and_down() {
    let mut to_isqrt = int_sqrt_gradually_changing_from(0u16);
    let result: Vec<u16> = (0u16..14)
        .chain((0u16..14).rev())
        .map(|n| to_isqrt.step(n))
        .collect();
    let expected: Vec<u16> = vec![
        0, 1, 1, 2, 2, 2, 2, 3, 3, 3, 3, 3, 3, 4, 4, 3, 3, 3, 3, 3, 3, 2, 2, 2, 2, 1, 1, 0,
    ];
    assert_eq!(result, expected);
}

#[test]
fn closest_changing_sweeps_u8_both_ways() {
    let mut to_isqrt = int_sqrt_gradually_changing_from(0u8);
    for n in (0u8..=255).chain((0u8..=255).rev()) {
        let s = to_isqrt.step(n) as i32;
        let n = n as i32;
        assert!(s * s - s + 1 <= n || s == 0);
        assert!(n <= s * s + s);
    }
}

#[test]
fn closest_changing_saturates_at_the_top() {
    let mut to_isqrt = int_sqrt_gradually_changing_from(15u8);
    assert_eq!(to_isqrt.step(240), 15);
    assert_eq!(to_isqrt.step(241), 16);
    assert_eq!(to_isqrt.step(255), 16);
    assert_eq!(to_isqrt.step(240), 15);
    assert_eq!(to_isqrt.step(211), 15);
    assert_eq!(to_isqrt.step(210), 14);
    let mut top = int_sqrt_gradually_changing_from(16u8);
    assert_eq!(top.step(255), 16);
    assert_eq!(top.step(241), 16);
    assert_eq!(top.step(0), 0);
    assert_eq!(top.step(1), 1);
    assert_eq!(top.step(2), 1);
    assert_eq!(top.step(3), 2);
}

#[test]
fn closest_ascending_saturates_at_the_top() {
    let mut to_isqrt = int_sqrt_gradually_ascending_from::<u16>(0);
    assert_eq!(to_isqrt.step(65280), 255);
    assert_eq!(to_isqrt.step(65281), 256);
    assert_eq!(to_isqrt.step(65535), 256);
    let mut stuck = int_sqrt_gradually_ascending_from::<u8>(255);
    assert_eq!(stuck.step(0), 255);
    assert_eq!(stuck.step(255), 255);
}

#[test]
fn closest_ascending_keeps_a_stale_root_for_a_lower_input() {
    let mut to_isqrt = int_sqrt_gradually_ascending_from::<u32>(0);
    assert_eq!(to_isqrt.step(110), 10);
    assert_eq!(to_isqrt.step(4), 10);
    assert_eq!(to_isqrt.step(111), 11);
    assert_eq!(to_isqrt.step(111), 11);
}

#[test]
fn closest_descending_keeps_a_stale_root_for_a_higher_input() {
    let mut to_isqrt = int_sqrt_gradually_descending_from::<u64>(16);
    assert_eq!(to_isqrt.step(1_000_000), 16);
    assert_eq!(to_isqrt.step(241), 16);
    assert_eq!(to_isqrt.step(240), 15);
    assert_eq!(to_isqrt.step(1), 1);
    assert_eq!(to_isqrt.step(0), 0);
    assert_eq!(to_isqrt.step(0), 0);
    let mut top = int_sqrt_gradually_descending_from::<u8>(16);
    assert_eq!(top.step(255), 16);
    assert_eq!(top.step(200), 14);
}

#[test]
fn closest_ascending_output_never_decreases() {
    let inputs: Vec<u16> = vec![0, 2, 2, 3, 6, 7, 7, 12, 13, 600, 65535];
    let mut to_isqrt = int_sqrt_gradually_ascending_from::<u16>(0);
    let result: Vec<u16> = inputs.iter().map(|&n| to_isqrt.step(n)).collect();
    assert_eq!(result, vec![0, 1, 1, 2, 2, 3, 3, 3, 4, 24, 256]);
}

#[test]
fn closest_descending_mirrors_ascending() {
    let inputs: Vec<u8> = vec![30, 21, 20, 13, 12, 7, 6, 3, 2, 1, 0];
    let mut down = int_sqrt_gradually_descending_from::<u8>(5);
    let descending: Vec<u8> = inputs.iter().map(|&n| down.step(n)).collect();
    let mut up = int_sqrt_gradually_ascending_from::<u8>(0);
    let mut ascending: Vec<u8> = inputs.iter().rev().map(|&n| up.step(n)).collect();
    ascending.reverse();
    assert_eq!(descending, vec![5, 5, 4, 4, 3, 3, 2, 2, 1, 1, 0]);
    assert_eq!(descending, ascending);
}

#[test]
fn closest_step_repeated_gives_the_same_root() {
    let mut changing = int_sqrt_gradually_changing_from(0u16);
    assert_eq!(changing.step(700), 26);
    assert_eq!(changing.step(700), 26);
    assert_eq!(changing.step(703), 27);
    assert_eq!(changing.step(703), 27);
}

#[test]
fn saturating_plus_stops_at_the_largest_value() {
    assert_eq!(saturating_plus(200u8, 55u8), 255);
    assert_eq!(saturating_plus(200u8, 56u8), 255);
    assert_eq!(saturating_plus(200u8, 54u8), 254);
    assert_eq!(saturating_plus(0u64, 0u64), 0);
    assert_eq!(saturating_plus(u128::MAX, 1u128), u128::MAX);
}

#[test]
fn max_value_is_the_largest_of_each_type() {
    assert_eq!(<u8 as MaxValue<u8>>::MAX, 255);
    assert_eq!(<u16 as MaxValue<u16>>::MAX, 65535);
    assert_eq!(<u32 as MaxValue<u32>>::MAX, u32::MAX);
    assert_eq!(<u64 as MaxValue<u64>>::MAX, u64::MAX);
    assert_eq!(<u128 as MaxValue<u128>>::MAX, u128::MAX);
}
