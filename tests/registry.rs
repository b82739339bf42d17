use xplane_link::dataref::{DataRef, DataRefHandler, BAT_OHP_ARRAY_NAME};
use xplane_link::registry::{DataRefRegistry, RegistryError};
use xplane_link::value::{BatteryState, Value};

fn record(id: u64, name: &str) -> DataRef {
    DataRef { id, name: name.to_string(), is_writable: false, value_type: "float_array".to_string() }
}

fn ids(r: &DataRefRegistry) -> Vec<Option<u64>> {
    r.datarefs.iter().map(|h| h.id()).collect()
}

fn battery(r: &DataRefRegistry) -> BatteryState {
    r.entry(BAT_OHP_ARRAY_NAME).unwrap().get_battery_state().unwrap()
}

#[test]
fn new_registry_tracks_battery_array_unresolved() {
    let r = DataRefRegistry::new();
    assert_eq!(r.datarefs.len(), 1);
    assert_eq!(r.datarefs[0].name(), BAT_OHP_ARRAY_NAME);
    assert_eq!(r.datarefs[0].id(), None);
    assert!(r.id_to_name.is_empty());
    assert_eq!(battery(&r), BatteryState::Unknown);
}

#[test]
fn resolve_with_no_records_leaves_ids_unset() {
    let mut r = DataRefRegistry::new();
    r.register("X");
    r.register("Y");
    r.update_dataref_id(vec![]);
    assert_eq!(ids(&r), vec![None, None, None]);
    assert!(r.id_to_name.is_empty());
}

#[test]
fn resolve_ignores_unregistered_names() {
    let mut r = DataRefRegistry::new();
    r.register("X");
    r.update_dataref_id(vec![record(7, "Nope"), record(8, "Other/Thing")]);
    assert_eq!(r.datarefs.len(), 2);
    assert!(r.entry("Nope").is_none());
    assert_eq!(ids(&r), vec![None, None]);
    assert!(r.id_to_name.is_empty());
}

#[test]
fn descriptors_only_for_resolved_entries() {
    let mut r = DataRefRegistry::new();
    r.register("X");
    r.register("Y");
    r.update_dataref_id(vec![record(5, "Y"), record(100, BAT_OHP_ARRAY_NAME)]);
    let plan = r.descriptors_to_subscribe();
    let got: Vec<u64> = plan.descriptors.iter().map(|d| d.id).collect();
    assert_eq!(got, vec![100, 5]);
    assert_eq!(plan.descriptors[0].index, Some(vec![0, 1]));
    assert_eq!(plan.descriptors[1].index, None);
    assert_eq!(plan.unresolved.len(), 1);
    assert_eq!(plan.unresolved[0].name, "X");
}

#[test]
fn descriptors_empty_before_discovery() {
    let r = DataRefRegistry::new();
    let plan = r.descriptors_to_subscribe();
    assert!(plan.descriptors.is_empty());
    assert_eq!(plan.unresolved.len(), 1);
    assert_eq!(plan.unresolved[0].name, BAT_OHP_ARRAY_NAME);
}

#[test]
fn dispatch_malformed_id_changes_nothing() {
    let mut r = DataRefRegistry::new();
    r.update_dataref_id(vec![record(100, BAT_OHP_ARRAY_NAME)]);
    let before_ids = ids(&r);
    for text in ["not-a-number", "", "-1", "+", "++1", "+-1", "1.0", " 100", "18446744073709551616"] {
        assert_eq!(r.dispatch(text, Value::Single(1.0f64.to_bits())), Err(RegistryError::MalformedId));
    }
    assert_eq!(ids(&r), before_ids);
    assert_eq!(r.id_to_name.len(), 1);
    assert_eq!(battery(&r), BatteryState::Unknown);
}

#[test]
fn dispatch_unknown_id_reports_and_changes_nothing() {
    let mut r = DataRefRegistry::new();
    r.update_dataref_id(vec![record(100, BAT_OHP_ARRAY_NAME)]);
    assert_eq!(r.dispatch("101", Value::Single(1.0f64.to_bits())), Err(RegistryError::UnknownId));
    assert_eq!(r.dispatch("18446744073709551615", Value::Single(0)), Err(RegistryError::UnknownId));
    assert_eq!(battery(&r), BatteryState::Unknown);
}

#[test]
fn dispatch_accepts_leading_plus() {
    let mut r = DataRefRegistry::new();
    r.update_dataref_id(vec![record(100, BAT_OHP_ARRAY_NAME)]);
    assert_eq!(r.dispatch("+5", Value::Single(1.0f64.to_bits())), Err(RegistryError::UnknownId));
    assert_eq!(battery(&r), BatteryState::Unknown);
    assert_eq!(r.dispatch("+100", Value::Single(1.0f64.to_bits())), Ok(()));
    assert_eq!(battery(&r), BatteryState::Auto);
}

#[test]
fn id_given_to_two_names_stays_with_both() {
    let mut r = DataRefRegistry::new();
    r.register("X");
    r.update_dataref_id(vec![record(100, BAT_OHP_ARRAY_NAME), record(100, "X")]);
    assert_eq!(ids(&r), vec![Some(100), Some(100)]);
    assert_eq!(r.id_to_name.len(), 1);
    assert_eq!(r.id_to_name.get(&100).map(|s| s.as_str()), Some("X"));
    assert_eq!(r.dispatch("100", Value::Single(1.0f64.to_bits())), Ok(()));
    assert_eq!(battery(&r), BatteryState::Unknown);
    match r.entry("X").unwrap() {
        DataRefHandler::Generic(g) => assert!(matches!(g.last, Some(Value::Single(b)) if b == 1.0f64.to_bits())),
        _ => panic!("expected a generic handler"),
    }
    assert_eq!(r.descriptors_to_subscribe().descriptors.len(), 2);
}

#[test]
fn new_id_for_a_name_drops_its_old_index_entry() {
    let mut r = DataRefRegistry::new();
    r.update_dataref_id(vec![record(1, BAT_OHP_ARRAY_NAME)]);
    r.update_dataref_id(vec![record(2, BAT_OHP_ARRAY_NAME)]);
    assert_eq!(ids(&r), vec![Some(2)]);
    assert_eq!(r.id_to_name.len(), 1);
    assert_eq!(r.id_to_name.get(&2).map(|s| s.as_str()), Some(BAT_OHP_ARRAY_NAME));
}

#[test]
fn dispatch_before_discovery_is_unknown() {
    let mut r = DataRefRegistry::new();
    assert_eq!(r.dispatch("100", Value::Single(1.0f64.to_bits())), Err(RegistryError::UnknownId));
}

#[test]
fn register_twice_keeps_one_entry() {
    let mut r = DataRefRegistry::new();
    r.register("X");
    r.register("X");
    assert_eq!(r.datarefs.iter().filter(|h| h.name() == "X").count(), 1);
    assert_eq!(r.datarefs.len(), 2);
    r.register(BAT_OHP_ARRAY_NAME);
    assert_eq!(r.datarefs.len(), 2);
}

#[test]
fn discovery_then_update_turns_battery_on() {
    let mut r = DataRefRegistry::new();
    r.register("X");
    r.update_dataref_id(vec![record(100, BAT_OHP_ARRAY_NAME), record(200, "X")]);
    let plan = r.descriptors_to_subscribe();
    assert_eq!(plan.descriptors.len(), 2);
    assert_eq!(plan.descriptors[0].id, 100);
    assert_eq!(r.dispatch("100", Value::Single(1.0f64.to_bits())), Ok(()));
    assert_eq!(battery(&r), BatteryState::Auto);
    assert_eq!(r.dispatch("100", Value::Single(0.0f64.to_bits())), Ok(()));
    assert_eq!(battery(&r), BatteryState::Off);
}

#[test]
fn single_discovered_name_gives_one_descriptor() {
    let mut r = DataRefRegistry { datarefs: vec![DataRefHandler::for_name("X")], id_to_name: Default::default() };
    r.update_dataref_id(vec![record(100, "X")]);
    let plan = r.descriptors_to_subscribe();
    assert_eq!(plan.descriptors.len(), 1);
    assert_eq!(plan.descriptors[0].id, 100);
    assert_eq!(r.dispatch("100", Value::Single(1.0f64.to_bits())), Ok(()));
    match r.entry("X").unwrap() {
        DataRefHandler::Generic(g) => assert!(matches!(g.last, Some(Value::Single(b)) if b == 1.0f64.to_bits())),
        _ => panic!("expected a generic handler"),
    }
}

#[test]
fn array_update_leaves_battery_state() {
    let mut r = DataRefRegistry::new();
    r.update_dataref_id(vec![record(100, BAT_OHP_ARRAY_NAME)]);
    assert_eq!(r.dispatch("100", Value::Single(0.0f64.to_bits())), Ok(()));
    assert_eq!(battery(&r), BatteryState::Off);
    let arr = Value::Array(vec![0.0f64.to_bits(), 1.0f64.to_bits()]);
    assert_eq!(r.dispatch("100", arr), Ok(()));
    assert_eq!(battery(&r), BatteryState::Off);
}

#[test]
fn reassigned_id_moves_to_new_name() {
    let mut r = DataRefRegistry::new();
    r.register("X");
    r.update_dataref_id(vec![record(5, "X"), record(5, BAT_OHP_ARRAY_NAME), record(9, "X")]);
    assert_eq!(ids(&r), vec![Some(5), Some(9)]);
    assert_eq!(r.id_to_name.len(), 2);
    assert_eq!(r.id_to_name.get(&5).map(|s| s.as_str()), Some(BAT_OHP_ARRAY_NAME));
    assert_eq!(r.id_to_name.get(&9).map(|s| s.as_str()), Some("X"));
}

#[test]
fn later_record_of_same_name_wins() {
    let mut r = DataRefRegistry::new();
    r.update_dataref_id(vec![record(1, BAT_OHP_ARRAY_NAME), record(2, BAT_OHP_ARRAY_NAME)]);
    assert_eq!(ids(&r), vec![Some(2)]);
    assert_eq!(r.id_to_name.len(), 1);
    assert_eq!(r.dispatch("1", Value::Single(0)), Err(RegistryError::UnknownId));
    assert_eq!(r.dispatch("2", Value::Single(0)), Ok(()));
}
