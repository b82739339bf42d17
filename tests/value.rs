use xplane_link::value::{convert_battery_state, parse_id, BatteryState};

#[test]
fn battery_state_from_numbers() {
    assert_eq!(convert_battery_state(1.0f64.to_bits()), BatteryState::Auto);
    assert_eq!(convert_battery_state(0.0f64.to_bits()), BatteryState::Off);
    assert_eq!(convert_battery_state((-0.0f64).to_bits()), BatteryState::Off);
    assert_eq!(convert_battery_state(0.5f64.to_bits()), BatteryState::Unknown);
    assert_eq!(convert_battery_state(2.0f64.to_bits()), BatteryState::Unknown);
    assert_eq!(convert_battery_state(f64::NAN.to_bits()), BatteryState::Unknown);
}

#[test]
fn parse_decimal_ids() {
    assert_eq!(parse_id("100"), Some(100));
    assert_eq!(parse_id("0"), Some(0));
    assert_eq!(parse_id("007"), Some(7));
    assert_eq!(parse_id("18446744073709551615"), Some(u64::MAX));
    assert_eq!(parse_id("18446744073709551616"), None);
    assert_eq!(parse_id("99999999999999999999"), None);
    assert_eq!(parse_id(""), None);
    assert_eq!(parse_id("+5"), Some(5));
    assert_eq!(parse_id("+18446744073709551615"), Some(u64::MAX));
    assert_eq!(parse_id("+"), None);
    assert_eq!(parse_id("++5"), None);
    assert_eq!(parse_id("-5"), None);
    assert_eq!(parse_id("5+"), None);
    assert_eq!(parse_id("not-a-number"), None);
    assert_eq!(parse_id("12a"), None);
    assert_eq!(parse_id("é1"), None);
}
