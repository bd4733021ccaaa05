use gradual_int_sqrt::floor::{
    int_sqrt_gradually_ascending_from, int_sqrt_gradually_changing_from,
    int_sqrt_gradually_descending_from,
};

#[test]
fn test_asc_u16_u8() {
    let mut to_isqrt = int_sqrt_gradually_ascending_from::<u16, u8>(0);
    let result: Vec<u8> = (0u16..17).map(|n| to_isqrt.step(n)).collect();
    let expected: Vec<u8> = vec![
        // 0  1  2  3  4  5  6  7  8  9 10 11 12 13 14 15 16
        0, 1, 1, 1, 2, 2, 2, 2, 2, 3, 3, 3, 3, 3, 3, 3, 4,
    ];
    assert_eq!(result, expected);
}

#[test]
fn test_entire_asc_range_u16_u8() {
    let mut to_isqrt = int_sqrt_gradually_ascending_from::<u16, u8>(0);
    for n in 0u16..65535 {
        let s = to_isqrt.step(n);
        let t = s as u32;
        let n = n as u32;
        assert!(t * t <= n);
        let t = t + 1;
        assert!(t * t > n);
    }
}

#[test]
fn test_asc_u16_u16() {
    let mut to_isqrt = int_sqrt_gradually_ascending_from::<u16, u16>(0);
    let result: Vec<_> = (0u16..17).map(|n| to_isqrt.step(n)).collect();
    let expected: Vec<u16> = vec![0, 1, 1, 1, 2, 2, 2, 2, 2, 3, 3, 3, 3, 3, 3, 3, 4];
    assert_eq!(result, expected);
}

#[test]
fn test_asc_u32_u16() {
    let mut to_isqrt = int_sqrt_gradually_ascending_from::<u32, u16>(0);
    let result: Vec<_> = (0u32..17).map(|n| to_isqrt.step(n)).collect();
    let expected: Vec<u16> = vec![0, 1, 1, 1, 2, 2, 2, 2, 2, 3, 3, 3, 3, 3, 3, 3, 4];
    assert_eq!(result, expected);
}

#[test]
fn test_asc_i32_i16() {
    // Overflow is possible with i32 and i16, but not with these numbers.
    let mut to_isqrt = int_sqrt_gradually_ascending_from::<i32, i16>(0);
    let result: Vec<_> = (0i32..10).map(|n| to_isqrt.step(n)).collect();
    let expected: Vec<i16> = vec![0, 1, 1, 1, 2, 2, 2, 2, 2, 3];
    assert_eq!(result, expected);
}

#[test]
fn test_scaled_asc_u32_u16() {
    let mut to_isqrt = int_sqrt_gradually_ascending_from::<u32, u16>(0);
    let result: Vec<_> = (0u32..10).map(|n| to_isqrt.step(1024 * n)).collect();
    let expected: Vec<u16> = vec![0, 32, 45, 55, 64, 71, 78, 84, 90, 96];
    assert_eq!(result, expected);
}

#[test]
fn test_desc_u16_u8() {
    let mut to_isqrt = int_sqrt_gradually_descending_from::<u16, u8>(5);
    let result: Vec<u8> = (0u16..10).rev().map(|n| to_isqrt.step(n)).collect();
    let expected: Vec<u8> = vec![3, 2, 2, 2, 2, 2, 1, 1, 1, 0];
    assert_eq!(result, expected);
}

#[test]
fn test_u16_u8() {
    let mut to_isqrt = int_sqrt_gradually_changing_from::<u16, u8>(0);
    let result: Vec<u8> = (0u16..10)
        .chain((0u16..10).rev())
        .map(|n| to_isqrt.step(n))
        .collect();
    let expected: Vec<u8> = vec![
        //1 2 3 4 5 6 7 8 9 9 8 7 6 5 4 3 2 1 0
        0, 1, 1, 1, 2, 2, 2, 2, 2, 3, 3, 2, 2, 2, 2, 2, 1, 1, 1, 0,
    ];
    assert_eq!(result, expected);
}

#[test]
fn floor_descending_from_five_over_sixteen_down_to_zero() {
    let mut to_isqrt = int_sqrt_gradually_descending_from::<u16, u8>(5);
    let result: Vec<u8> = (0u16..17).rev().map(|n| to_isqrt.step(n)).collect();
    let expected: Vec<u8> = vec![4, 3, 3, 3, 3, 3, 3, 3, 2, 2, 2, 2, 2, 1, 1, 1, 0];
    assert_eq!(result, expected);
}

#[test]
fn floor_scaled_by_sixty_four() {
    let mut to_isqrt = int_sqrt_gradually_ascending_from::<u16, u8>(0);
    let result: Vec<u8> = (0u16..17).map(|n| to_isqrt.step(64 * n)).collect();
    let expected: Vec<u8> = vec![
        0, 8, 11, 13, 16, 17, 19, 21, 22, 24, 25, 26, 27, 28, 29, 30, 32,
    ];
    assert_eq!(result, expected);
}

#[test]
fn floor_changing_reaches_the_top_of_u16() {
    let mut to_isqrt = int_sqrt_gradually_changing_from::<u16, u8>(0);
    assert_eq!(to_isqrt.step(65535), 255);
    assert_eq!(to_isqrt.step(65025), 255);
    assert_eq!(to_isqrt.step(65024), 254);
    assert_eq!(to_isqrt.step(0), 0);
    assert_eq!(to_isqrt.step(143), 11);
    assert_eq!(to_isqrt.step(144), 12);
    assert_eq!(to_isqrt.step(168), 12);
    assert_eq!(to_isqrt.step(169), 13);
}

#[test]
fn floor_changing_sweeps_u16_both_ways() {
    let mut to_isqrt = int_sqrt_gradually_changing_from::<u16, u8>(17);
    for n in (0u16..=65535).chain((0u16..=65535).rev()) {
        let t = to_isqrt.step(n) as u32;
        let n = n as u32;
        assert!(t * t <= n);
        assert!((t + 1) * (t + 1) > n);
    }
}

#[test]
fn floor_changing_from_a_seed_far_off() {
    let mut up = int_sqrt_gradually_changing_from::<u32, u16>(0);
    assert_eq!(up.step(1_000_293), 1000);
    let mut down = int_sqrt_gradually_changing_from::<u32, u16>(1000);
    assert_eq!(down.step(30), 5);
    assert_eq!(down.step(36), 6);
    assert_eq!(down.step(35), 5);
}

#[test]
fn floor_ascending_keeps_a_stale_root_for_a_lower_input() {
    let mut to_isqrt = int_sqrt_gradually_ascending_from::<u16, u8>(0);
    assert_eq!(to_isqrt.step(100), 10);
    assert_eq!(to_isqrt.step(4), 10);
    assert_eq!(to_isqrt.step(120), 10);
    assert_eq!(to_isqrt.step(121), 11);
}

#[test]
fn floor_descending_keeps_a_stale_root_for_a_higher_input() {
    let mut to_isqrt = int_sqrt_gradually_descending_from::<u16, u8>(5);
    assert_eq!(to_isqrt.step(1000), 5);
    assert_eq!(to_isqrt.step(25), 5);
    assert_eq!(to_isqrt.step(24), 4);
    assert_eq!(to_isqrt.step(1000), 4);
    assert_eq!(to_isqrt.step(0), 0);
    assert_eq!(to_isqrt.step(0), 0);
}

#[test]
fn floor_ascending_output_never_decreases() {
    let inputs: Vec<u16> = vec![0, 0, 3, 9, 9, 10, 50, 50, 63, 64, 4000, 65535];
    let mut to_isqrt = int_sqrt_gradually_ascending_from::<u16, u8>(0);
    let result: Vec<u8> = inputs.iter().map(|&n| to_isqrt.step(n)).collect();
    assert_eq!(result, vec![0, 0, 1, 3, 3, 3, 7, 7, 7, 8, 63, 255]);
    for pair in result.windows(2) {
        assert!(pair[0] <= pair[1]);
    }
}

#[test]
fn floor_descending_mirrors_ascending() {
    let inputs: Vec<u16> = vec![35, 30, 30, 17, 16, 15, 4, 3, 0];
    let mut down = int_sqrt_gradually_descending_from::<u16, u8>(5);
    let descending: Vec<u8> = inputs.iter().map(|&n| down.step(n)).collect();
    let mut up = int_sqrt_gradually_ascending_from::<u16, u8>(0);
    let mut ascending: Vec<u8> = inputs.iter().rev().map(|&n| up.step(n)).collect();
    ascending.reverse();
    assert_eq!(descending, vec![5, 5, 5, 4, 4, 3, 2, 1, 0]);
    assert_eq!(descending, ascending);
}

#[test]
fn floor_step_repeated_gives_the_same_root() {
    let mut changing = int_sqrt_gradually_changing_from::<u16, u8>(0);
    assert_eq!(changing.step(700), 26);
    assert_eq!(changing.step(700), 26);
    let mut up = int_sqrt_gradually_ascending_from::<u16, u8>(0);
    assert_eq!(up.step(700), 26);
    assert_eq!(up.step(700), 26);
    let mut down = int_sqrt_gradually_descending_from::<u16, u8>(200);
    assert_eq!(down.step(700), 26);
    assert_eq!(down.step(700), 26);
}

#[test]
fn floor_wide_types() {
    let mut wide = int_sqrt_gradually_changing_from::<u64, u32>(3_000_000_000);
    assert_eq!(wide.step(9_000_000_000_000_000_000), 3_000_000_000);
    assert_eq!(wide.step(8_999_999_999_999_999_999), 2_999_999_999);
    let mut signed = int_sqrt_gradually_changing_from::<i64, i32>(0);
    assert_eq!(signed.step(1_000_000), 1000);
    assert_eq!(signed.step(999_999), 999);
    let mut same = int_sqrt_gradually_descending_from::<u128, u128>(20);
    assert_eq!(same.step(399), 19);
}
