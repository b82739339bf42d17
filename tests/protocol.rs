use xplane_link::dataref::{DataRef, SubscriptionDescriptor, BAT_OHP_ARRAY_NAME};
use xplane_link::protocol::{
    encode_subscribe, process_message, ClientPhase, SubscribeError, WebSocketResponse, XPlaneClient,
};
use xplane_link::registry::{DataRefRegistry, RegistryError};
use xplane_link::session::ConnectToXPlaneUseCase;
use xplane_link::value::{BatteryState, Value};

#[test]
fn subscribe_frame_round_trips() {
    let ds = vec![SubscriptionDescriptor { id: 42, index: Some(vec![0, 1]) }];
    let bytes = encode_subscribe(&ds, 9998);
    let text = String::from_utf8(bytes).unwrap();
    assert_eq!(
        text,
        r#"{"req_id":9998,"type":"dataref_subscribe_values","params":{"datarefs":[{"id":42,"index":[0,1]}]}}"#
    );
    let v: serde_json::Value = serde_json::from_str(&text).unwrap();
    assert_eq!(v["req_id"].as_u64(), Some(9998));
    assert_eq!(v["type"].as_str(), Some("dataref_subscribe_values"));
    let d = &v["params"]["datarefs"][0];
    assert_eq!(d["id"].as_u64(), Some(42));
    assert_eq!(d["index"][0].as_u64(), Some(0));
    assert_eq!(d["index"][1].as_u64(), Some(1));
    assert_eq!(v["params"]["datarefs"].as_array().unwrap().len(), 1);
}

#[test]
fn subscribe_frame_several_and_none() {
    let ds = vec![
        SubscriptionDescriptor { id: 0, index: None },
        SubscriptionDescriptor { id: u64::MAX, index: Some(vec![]) },
        SubscriptionDescriptor { id: 10, index: Some(vec![3]) },
    ];
    let text = String::from_utf8(encode_subscribe(&ds, 0)).unwrap();
    assert_eq!(
        text,
        r#"{"req_id":0,"type":"dataref_subscribe_values","params":{"datarefs":[{"id":0},{"id":18446744073709551615,"index":[]},{"id":10,"index":[3]}]}}"#
    );
    let v: serde_json::Value = serde_json::from_str(&text).unwrap();
    assert_eq!(v["params"]["datarefs"][1]["id"].as_u64(), Some(u64::MAX));
    let empty = String::from_utf8(encode_subscribe(&vec![], 7)).unwrap();
    assert_eq!(empty, r#"{"req_id":7,"type":"dataref_subscribe_values","params":{"datarefs":[]}}"#);
}

#[test]
fn client_refuses_subscribe_before_connect() {
    let mut c = XPlaneClient::new();
    assert_eq!(c.phase, ClientPhase::Disconnected);
    let ds = vec![SubscriptionDescriptor { id: 1, index: None }];
    assert!(matches!(c.subscribe(&ds, 1), Err(SubscribeError::NotConnected)));
    assert!(!c.start_streaming());
    assert_eq!(c.phase, ClientPhase::Disconnected);
}

#[test]
fn client_phases_follow_events() {
    let mut c = XPlaneClient::new();
    c.on_connected();
    assert_eq!(c.phase, ClientPhase::Connected);
    let ds = vec![SubscriptionDescriptor { id: 1, index: None }];
    let frame = c.subscribe(&ds, 5).ok().unwrap();
    assert_eq!(frame, encode_subscribe(&ds, 5));
    assert_eq!(c.phase, ClientPhase::Subscribed);
    assert!(c.start_streaming());
    assert_eq!(c.phase, ClientPhase::Streaming);
    assert!(c.subscribe(&ds, 6).is_ok());
    assert_eq!(c.phase, ClientPhase::Streaming);
    c.on_transport_closed();
    assert_eq!(c.phase, ClientPhase::Disconnected);
}

#[test]
fn frames_route_in_order_and_bad_ids_do_not_stop() {
    let mut r = DataRefRegistry::new();
    r.update_dataref_id(vec![DataRef {
        id: 100,
        name: BAT_OHP_ARRAY_NAME.to_string(),
        is_writable: true,
        value_type: "int_array".to_string(),
    }]);
    let ack = WebSocketResponse::ResultMessage { req_id: 9998, success: true };
    assert!(process_message(&mut r, ack).is_empty());
    let update = WebSocketResponse::DataRefUpdate {
        data: vec![
            ("abc".to_string(), Value::Single(1.0f64.to_bits())),
            ("100".to_string(), Value::Single(1.0f64.to_bits())),
            ("555".to_string(), Value::Single(0)),
            ("100".to_string(), Value::Single(0.0f64.to_bits())),
        ],
    };
    let out = process_message(&mut r, update);
    assert_eq!(out, vec![Err(RegistryError::MalformedId), Ok(()), Err(RegistryError::UnknownId), Ok(())]);
    assert_eq!(r.entry(BAT_OHP_ARRAY_NAME).unwrap().get_battery_state(), Some(BatteryState::Off));
}

#[test]
fn use_case_subscribes_after_discovery() {
    let mut u = ConnectToXPlaneUseCase::new();
    assert!(matches!(u.subscription(), Err(SubscribeError::NotConnected)));
    u.on_discovery(vec![DataRef {
        id: 42,
        name: BAT_OHP_ARRAY_NAME.to_string(),
        is_writable: true,
        value_type: "int_array".to_string(),
    }]);
    u.client.on_connected();
    let (frame, skipped) = u.subscription().ok().unwrap();
    assert!(skipped.is_empty());
    assert_eq!(
        String::from_utf8(frame).unwrap(),
        r#"{"req_id":9998,"type":"dataref_subscribe_values","params":{"datarefs":[{"id":42,"index":[0,1]}]}}"#
    );
}

#[test]
fn use_case_skips_unresolved() {
    let mut u = ConnectToXPlaneUseCase::new();
    u.client.on_connected();
    let (frame, skipped) = u.subscription().ok().unwrap();
    assert_eq!(skipped.len(), 1);
    assert_eq!(skipped[0].name, BAT_OHP_ARRAY_NAME);
    assert_eq!(
        String::from_utf8(frame).unwrap(),
        r#"{"req_id":9998,"type":"dataref_subscribe_values","params":{"datarefs":[]}}"#
    );
}
