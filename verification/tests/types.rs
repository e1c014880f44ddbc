use vent_mcp::types::{
    first_delivery_error, project_label, short_event_id, EventId, SinkDeliveryStatus, VentEvent,
};

fn status(sink: &str, ok: bool, message: Option<&str>) -> SinkDeliveryStatus {
    SinkDeliveryStatus {
        sink: sink.to_string(),
        ok,
        message: message.map(|m| m.to_string()),
    }
}

#[test]
fn event_ids_are_short_base62_strings() {
    let event = VentEvent::new(
        "general".to_string(),
        "Something happened.".to_string(),
        "vent-mcp".to_string(),
    );

    assert_eq!(event.id.as_str().len(), 8);
    assert!(event
        .id
        .as_str()
        .chars()
        .all(|character| character.is_ascii_alphanumeric()));
    assert!(event.timestamp.ends_with('Z'));
}

#[test]
fn short_ids_are_the_low_base62_digits_least_significant_first() {
    assert_eq!(short_event_id(0), "00000000");
    assert_eq!(short_event_id(61), "z0000000");
    assert_eq!(short_event_id(62), "01000000");
    assert_eq!(short_event_id(10 + 36 * 62), "Aa000000");
    assert_eq!(EventId::from_value(62 * 62 * 62).as_str(), "00010000");
}

#[test]
fn first_delivery_error_names_the_first_failure() {
    assert_eq!(first_delivery_error(&[]), None);
    assert_eq!(
        first_delivery_error(&[status("a", true, None), status("b", true, None)]),
        None
    );
    assert_eq!(
        first_delivery_error(&[
            status("a", true, None),
            status("b", false, None),
            status("c", false, Some("boom")),
        ]),
        Some("b failed".to_string())
    );
    assert_eq!(
        first_delivery_error(&[status("c", false, Some("boom")), status("b", false, None)]),
        Some("boom".to_string())
    );
}

#[test]
fn project_labels_fall_back_to_unknown() {
    assert_eq!(project_label(Some("vent-mcp".to_string())), "vent-mcp");
    assert_eq!(project_label(Some("  ".to_string())), "unknown");
    assert_eq!(project_label(None), "unknown");
}
