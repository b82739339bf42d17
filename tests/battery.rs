use xplane_link::battery::BatteryPushButton;
use xplane_link::value::BatteryState;

#[test]
fn new_button_holds_initial_state() {
    let b = BatteryPushButton::new("BAT 1", BatteryState::Unknown);
    assert_eq!(b.name, "BAT 1");
    assert_eq!(b.get_state(), BatteryState::Unknown);
}

#[test]
fn set_state_overwrites_without_receivers() {
    let mut b = BatteryPushButton::new("BAT 1", BatteryState::Unknown);
    b.set_state(BatteryState::Auto);
    assert_eq!(b.get_state(), BatteryState::Auto);
    b.set_state(BatteryState::Auto);
    assert_eq!(b.get_state(), BatteryState::Auto);
}

#[test]
fn late_subscriber_sees_last_value() {
    let mut b = BatteryPushButton::new("BAT 1", BatteryState::Unknown);
    b.set_state(BatteryState::Auto);
    b.set_state(BatteryState::Off);
    let obs = b.subscribe();
    assert_eq!(obs.first, BatteryState::Off);
    assert_eq!(*obs.receiver.borrow(), BatteryState::Off);
}

#[test]
fn observers_see_later_writes() {
    let mut b = BatteryPushButton::new("BAT 1", BatteryState::Unknown);
    let mut first = b.subscribe();
    let second = b.subscribe();
    assert_eq!(first.first, BatteryState::Unknown);
    b.set_state(BatteryState::Auto);
    b.set_state(BatteryState::Off);
    assert!(first.receiver.has_changed().unwrap());
    assert_eq!(*first.receiver.borrow_and_update(), BatteryState::Off);
    assert!(!first.receiver.has_changed().unwrap());
    drop(second);
    b.set_state(BatteryState::Auto);
    assert_eq!(*first.receiver.borrow(), BatteryState::Auto);
}
