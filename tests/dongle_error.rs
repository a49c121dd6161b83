use homey_energy_dongle::websocket::{websocket_path, DongleError};

#[test]
fn policy_close_with_connection_limit() {
    let e = DongleError::from_code_and_reason(1008, "Connection limit reached".to_string());
    assert!(matches!(e, DongleError::ConnectionLimitReached));
    assert_eq!(e.message(), "Connection limit reached");
}

#[test]
fn policy_close_with_local_api_disabled() {
    let e = DongleError::from_code_and_reason(1008, "Local API disabled".to_string());
    assert!(matches!(e, DongleError::LocalApiDisabled));
    assert_eq!(e.message(), "Local API disabled");
}

#[test]
fn policy_close_with_other_reason() {
    let e = DongleError::from_code_and_reason(1008, "Busy".to_string());
    assert!(matches!(e, DongleError::Other(ref r) if r == "Busy"));
    assert_eq!(e.message(), "Busy");
}

#[test]
fn known_reason_with_other_code() {
    let e = DongleError::from_code_and_reason(1000, "Connection limit reached".to_string());
    assert!(matches!(e, DongleError::Other(ref r) if r == "Connection limit reached"));
}

#[test]
fn websocket_path_strips_one_slash() {
    assert_eq!(websocket_path("/ws"), "ws");
    assert_eq!(websocket_path("ws"), "ws");
    assert_eq!(websocket_path("//ws"), "/ws");
    assert_eq!(websocket_path(""), "");
}
