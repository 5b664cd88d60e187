use shiritori::bits::i64_to_u64_bitwise;
use shiritori::bits::u64_to_i64_bitwise;

#[test]
fn small_values_pass_through() {
    assert_eq!(u64_to_i64_bitwise(0), 0);
    assert_eq!(u64_to_i64_bitwise(1), 1);
    assert_eq!(u64_to_i64_bitwise(9223372036854775807), 9223372036854775807);
    assert_eq!(i64_to_u64_bitwise(0), 0);
    assert_eq!(i64_to_u64_bitwise(42), 42);
}

#[test]
fn high_bit_values_reinterpret() {
    assert_eq!(u64_to_i64_bitwise(u64::MAX), -1);
    assert_eq!(u64_to_i64_bitwise(0x8000_0000_0000_0000), i64::MIN);
    assert_eq!(i64_to_u64_bitwise(-1), u64::MAX);
    assert_eq!(i64_to_u64_bitwise(i64::MIN), 0x8000_0000_0000_0000);
}

#[test]
fn reinterpretation_round_trips() {
    for u in [0u64, 1, 12345, 0x7fff_ffff_ffff_ffff, 0x8000_0000_0000_0000, u64::MAX] {
        assert_eq!(i64_to_u64_bitwise(u64_to_i64_bitwise(u)), u);
    }
    for i in [0i64, -1, 7, i64::MIN, i64::MAX] {
        assert_eq!(u64_to_i64_bitwise(i64_to_u64_bitwise(i)), i);
    }
}
