use rezzy::{resolved_state_entries, OutputFormat, ResolvedStateEntry};

#[test]
fn resolved_state_entries_orders_by_type_then_state_key() {
    let mut state: Vec<((String, String), String)> = Vec::new();
    state.push((("m.room.member".into(), "@bob:x".into()), "$b".into()));
    state.push((("m.room.create".into(), String::new()), "$c".into()));
    state.push((("m.room.member".into(), "@alice:x".into()), "$a".into()));

    let entries = resolved_state_entries(&state);
    assert_eq!(
        entries,
        vec![
            ResolvedStateEntry {
                event_type: "m.room.create".into(),
                state_key: String::new(),
                event_id: "$c".into(),
            },
            ResolvedStateEntry {
                event_type: "m.room.member".into(),
                state_key: "@alice:x".into(),
                event_id: "$a".into(),
            },
            ResolvedStateEntry {
                event_type: "m.room.member".into(),
                state_key: "@bob:x".into(),
                event_id: "$b".into(),
            },
        ]
    );
}

#[test]
fn events_are_the_default_format() {
    assert_eq!(OutputFormat::default(), OutputFormat::Events);
}
