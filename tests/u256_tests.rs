use bridge_cherry::error::BridgeContractError;
use bridge_cherry::u256::U256;

const MAX_DEC: &str =
    "115792089237316195423570985008687907853269984665640564039457584007913129639935";

fn dec(s: &str) -> U256 {
    U256::from_decimal(s.to_string()).unwrap()
}

#[test]
fn decimal_round_trip_examples() {
    for s in ["0", "1", "9", "10", "255", "256", "1000", "18446744073709551616", MAX_DEC] {
        assert_eq!(dec(s).to_decimal(), s);
    }
}

#[test]
fn decimal_leading_zeros_are_read() {
    assert_eq!(dec("007").to_decimal(), "7");
    assert_eq!(dec("000").to_decimal(), "0");
}

#[test]
fn decimal_value_bytes() {
    let v = dec("1000");
    let mut expected = [0u8; 32];
    expected[30] = 0x03;
    expected[31] = 0xe8;
    assert_eq!(*v.get(), expected);
    assert_eq!(*dec(MAX_DEC).get(), *U256::new_ff().get());
    assert_eq!(*dec("0").get(), *U256::new_zero().get());
}

#[test]
fn decimal_invalid_text() {
    for s in ["", "12a", "-1", " 1", "1.5", "٣"] {
        assert_eq!(
            U256::from_decimal(s.to_string()).unwrap_err(),
            BridgeContractError::InvalidEncoding
        );
    }
}

#[test]
fn decimal_overflow() {
    let over = "115792089237316195423570985008687907853269984665640564039457584007913129639936";
    assert_eq!(
        U256::from_decimal(over.to_string()).unwrap_err(),
        BridgeContractError::Overflow
    );
    let long = "1".repeat(100);
    assert_eq!(U256::from_decimal(long).unwrap_err(), BridgeContractError::Overflow);
}

#[test]
fn hex_round_trip_lowercases() {
    let h = "00000000000000000000000000000000000000000000000000000000000003E8";
    let v = U256::from_hex(h.as_bytes()).unwrap();
    assert_eq!(v.to_hex(), h.to_lowercase());
    assert_eq!(v.to_decimal(), "1000");
}

#[test]
fn hex_of_values() {
    assert_eq!(
        dec("1000").to_hex(),
        "00000000000000000000000000000000000000000000000000000000000003e8"
    );
    assert_eq!(U256::new_ff().to_hex(), "f".repeat(64));
    assert_eq!(U256::new_zero().to_hex(), "0".repeat(64));
}

#[test]
fn hex_invalid_text() {
    assert_eq!(U256::from_hex(b"03e8").unwrap_err(), BridgeContractError::InvalidEncoding);
    let bad = format!("{}g", "0".repeat(63));
    assert_eq!(
        U256::from_hex(bad.as_bytes()).unwrap_err(),
        BridgeContractError::InvalidEncoding
    );
    let long = "0".repeat(66);
    assert_eq!(
        U256::from_hex(long.as_bytes()).unwrap_err(),
        BridgeContractError::InvalidEncoding
    );
}

#[test]
fn text_dispatch() {
    let h = "00000000000000000000000000000000000000000000000000000000000003e8".to_string();
    assert_eq!(U256::from_text(h).unwrap().to_decimal(), "1000");
    assert_eq!(U256::from_text("1000".to_string()).unwrap().to_decimal(), "1000");
    assert_eq!(U256::from_text("0".to_string()).unwrap().to_decimal(), "0");
    assert_eq!(
        U256::from_text("0123".to_string()).unwrap_err(),
        BridgeContractError::InvalidEncoding
    );
}

#[test]
fn add_is_commutative() {
    let a = dec("123456789012345678901234567890");
    let b = dec("987654321098765432109876543210");
    let ab = U256::add_a_with_b(&a, &b).unwrap();
    let ba = U256::add_a_with_b(&b, &a).unwrap();
    assert_eq!(ab.get(), ba.get());
    assert_eq!(ab.to_decimal(), "1111111110111111111011111111100");
}

#[test]
fn add_carries_across_bytes() {
    let a = dec("255");
    let b = dec("1");
    assert_eq!(U256::add_a_with_b(&a, &b).unwrap().to_decimal(), "256");
    let c = dec("18446744073709551615");
    assert_eq!(U256::add_a_with_b(&c, &b).unwrap().to_decimal(), "18446744073709551616");
}

#[test]
fn add_overflow() {
    let max = U256::new_ff();
    let one = dec("1");
    assert_eq!(U256::add_a_with_b(&max, &one).unwrap_err(), BridgeContractError::Overflow);
    assert_eq!(U256::add_a_with_b(&one, &max).unwrap_err(), BridgeContractError::Overflow);
    let zero = U256::new_zero();
    assert_eq!(U256::add_a_with_b(&max, &zero).unwrap().to_decimal(), MAX_DEC);
}

#[test]
fn subtract_undoes_add() {
    let a = dec("5000");
    let b = dec("300");
    let s = U256::add_a_with_b(&a, &b).unwrap();
    let d = U256::subtract_b_from_a(&s, &b).unwrap();
    assert_eq!(d.get(), a.get());
    assert_eq!(U256::subtract_b_from_a(&dec("256"), &dec("1")).unwrap().to_decimal(), "255");
}

#[test]
fn subtract_underflow() {
    assert_eq!(
        U256::subtract_b_from_a(&dec("300"), &dec("301")).unwrap_err(),
        BridgeContractError::Underflow
    );
    assert_eq!(U256::subtract_b_from_a(&dec("7"), &dec("7")).unwrap().to_decimal(), "0");
}

#[test]
fn compare_follows_magnitude() {
    // One high byte outweighs many low ones.
    let a = dec("256");
    let b = dec("255");
    assert!(U256::a_greater_than_b(&a, &b));
    assert!(!U256::a_greater_than_b(&b, &a));
    let big = U256::from_hex(format!("01{}", "0".repeat(62)).as_bytes()).unwrap();
    let many = U256::from_hex(format!("00{}", "f".repeat(62)).as_bytes()).unwrap();
    assert!(U256::a_greater_than_b(&big, &many));
    assert!(!U256::a_greater_than_b(&many, &big));
    assert!(!U256::a_greater_than_b(&a, &a));
}
