use rtptool::text::grouped_decimal;

#[test]
fn sizes_are_grouped_by_thousands() {
    assert_eq!(grouped_decimal(0), "0");
    assert_eq!(grouped_decimal(7), "7");
    assert_eq!(grouped_decimal(999), "999");
    assert_eq!(grouped_decimal(1000), "1,000");
    assert_eq!(grouped_decimal(131_072), "131,072");
    assert_eq!(grouped_decimal(204_800), "204,800");
    assert_eq!(grouped_decimal(1_000_005), "1,000,005");
    assert_eq!(grouped_decimal(1_048_576), "1,048,576");
    assert_eq!(grouped_decimal(u64::MAX), "18,446,744,073,709,551,615");
}
