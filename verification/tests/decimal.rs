use fakefmt::decimal::to_decimal;

#[test]
fn decimal_of_small_and_large_numbers() {
    assert_eq!(to_decimal(0), "0");
    assert_eq!(to_decimal(7), "7");
    assert_eq!(to_decimal(10), "10");
    assert_eq!(to_decimal(4096), "4096");
    assert_eq!(to_decimal(1_000_000_000), "1000000000");
    assert_eq!(to_decimal(u32::MAX), "4294967295");
}

#[test]
fn decimal_agrees_with_display() {
    let mut n: u32 = 1;
    for _ in 0..2000 {
        assert_eq!(to_decimal(n), n.to_string());
        assert_eq!(to_decimal(n - 1), (n - 1).to_string());
        n = n.wrapping_mul(1_664_525).wrapping_add(1_013_904_223) | 1;
    }
}
