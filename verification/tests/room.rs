use rezzy::collections::TextMap;
use rezzy::events::{LeanEvent, StateResVersion};
use rezzy::json::Json;
use rezzy::lattice::{
    compute_lattice_coordinatized_winners, is_lattice_winner_better,
    resolve_lattice_coordinatized, route_power_events,
};
use rezzy::power::{apply_global_power_levels, power_candidates};
use rezzy::resolution::prepare;
use rezzy::room::{
    auto_heads, component_roots, depth_range, head_states, latest_state, sort_by_depth, AuthGraph,
};
use rezzy::state_map::{StateKey, StateMap};
use rezzy::summary::summarize;
use rezzy::timeline::{localpart, timeline, timestamp_text};

fn object(members: Vec<(&str, Json)>) -> Json {
    let mut map = TextMap::new();
    for (name, value) in members {
        map.insert(name.to_string(), value);
    }
    Json::Object(map)
}

fn text(value: &str) -> Json {
    Json::Text(value.to_string())
}

fn event(id: &str, kind: &str, key: Option<&str>, depth: u64, prev: &[&str]) -> LeanEvent {
    LeanEvent {
        event_id: id.to_string(),
        event_type: kind.to_string(),
        state_key: key.map(|key| key.to_string()),
        is_state: key.is_some(),
        sender: "@alice:x".to_string(),
        power_level: 0,
        origin_server_ts: 0,
        depth,
        prev_events: prev.iter().map(|id| id.to_string()).collect(),
        auth_events: Vec::new(),
        content: object(Vec::new()),
    }
}

fn collect(events: Vec<LeanEvent>) -> TextMap<LeanEvent> {
    let mut map = TextMap::new();
    for event in events {
        map.insert(event.event_id.clone(), event);
    }
    map
}

fn key(kind: &str, key: &str) -> StateKey {
    StateKey {
        event_type: kind.to_string(),
        state_key: Some(key.to_string()),
    }
}

fn forked() -> TextMap<LeanEvent> {
    collect(vec![
        event("$1", "m.room.create", Some(""), 1, &[]),
        event("$2", "m.room.name", Some(""), 2, &["$1"]),
        event("$3", "m.room.name", Some(""), 2, &["$1"]),
        event("$4", "m.room.topic", Some(""), 3, &["$3"]),
    ])
}

#[test]
fn heads_are_what_nothing_follows() {
    assert_eq!(auto_heads(&forked()), ["$2", "$4"]);
}

#[test]
fn states_keep_the_latest_event() {
    let events = forked();
    let all = latest_state(&events, &[true; 4]);
    assert_eq!(all.get(&key("m.room.name", "")), Some(&2));
    let states = head_states(&events, &["$2".to_string(), "$4".to_string()]);
    assert_eq!(states[0].get(&key("m.room.name", "")), Some(&1));
    assert_eq!(states[0].get(&key("m.room.topic", "")), None);
    assert_eq!(states[1].get(&key("m.room.name", "")), Some(&2));
    assert_eq!(states[1].get(&key("m.room.topic", "")), Some(&3));
}

#[test]
fn forks_put_events_in_conflict() {
    let prepared = prepare(&forked(), &[]);
    assert_eq!(prepared.heads, ["$2", "$4"]);
    assert_eq!(prepared.agreed.get(&key("m.room.create", "")), Some(&0));
    assert_eq!(prepared.agreed.get(&key("m.room.name", "")), None);
    assert_eq!(prepared.disputed, [false, true, true, true]);
    assert!(prepared.difference.is_empty());

    let single = prepare(&forked(), &["$4".to_string()]);
    assert_eq!(single.disputed, [false; 4]);
    assert_eq!(single.agreed.get(&key("m.room.name", "")), Some(&2));
}

#[test]
fn subgraphs_count_in_some_versions_only() {
    let prepared = prepare(&forked(), &[]);
    let subgraph = vec![0];
    assert_eq!(
        prepared.conflicted(&subgraph, StateResVersion::V2),
        [false, true, true, true]
    );
    assert_eq!(
        prepared.conflicted(&subgraph, StateResVersion::V2_1),
        [true, true, true, true]
    );
}

fn authorized_by(id: &str, auth: &[&str]) -> LeanEvent {
    LeanEvent {
        auth_events: auth.iter().map(|id| id.to_string()).collect(),
        ..event(id, "m.room.message", None, 1, &[])
    }
}

#[test]
fn auth_chains_are_transitive() {
    let events = collect(vec![
        authorized_by("$a", &[]),
        authorized_by("$b", &["$a"]),
        authorized_by("$c", &["$b"]),
        authorized_by("$d", &["$a", "$missing"]),
    ]);
    let graph = AuthGraph::build(&events);
    assert_eq!(graph.auth_chain(&[2]), [0, 1]);
    assert_eq!(graph.auth_chain(&[3]), [0]);
    assert_eq!(graph.auth_difference(&[2, 3]), [1]);
    assert!(graph.auth_difference(&[2]).is_empty());
    assert!(graph.auth_difference(&[]).is_empty());
}

#[test]
fn components_start_at_their_shallowest_event() {
    let events = collect(vec![
        event("$a", "m.room.create", Some(""), 5, &[]),
        event("$b", "m.room.message", None, 2, &["$a"]),
        event("$c", "m.room.message", None, 2, &["$a"]),
        event("$z", "m.room.message", None, 9, &["$unknown"]),
    ]);
    assert_eq!(component_roots(&events), [1, 3]);
    assert_eq!(depth_range(&events), Some((2, 9, 1)));
    assert_eq!(depth_range(&TextMap::new()), None);
    assert_eq!(sort_by_depth(&events, &[3, 0, 2, 1]), [1, 2, 0, 3]);
}

#[test]
fn winners_are_close_then_late_then_large() {
    let mut distances = TextMap::new();
    distances.insert("$near".to_string(), 0);
    distances.insert("$far".to_string(), 3);
    let near = event("$near", "t", Some(""), 1, &[]);
    let far = event("$far", "t", Some(""), 1, &[]);
    let late = LeanEvent { origin_server_ts: 9, ..event("$late", "t", Some(""), 1, &[]) };
    let later = LeanEvent { origin_server_ts: 9, ..event("$later", "t", Some(""), 1, &[]) };
    assert!(is_lattice_winner_better(&near, &far, &distances, 5));
    assert!(!is_lattice_winner_better(&far, &near, &distances, 5));
    assert!(is_lattice_winner_better(&far, &late, &distances, 5));
    assert!(is_lattice_winner_better(&later, &late, &distances, 5));
    assert!(!is_lattice_winner_better(&late, &late, &distances, 5));
}

#[test]
fn winners_do_not_depend_on_chunks() {
    let events = collect(vec![
        LeanEvent { origin_server_ts: 1, ..event("$1", "t", Some("a"), 1, &[]) },
        LeanEvent { origin_server_ts: 3, ..event("$2", "t", Some("a"), 1, &[]) },
        LeanEvent { origin_server_ts: 2, ..event("$3", "t", Some("a"), 1, &[]) },
        LeanEvent { origin_server_ts: 7, ..event("$4", "t", Some("b"), 1, &[]) },
        LeanEvent { origin_server_ts: 9, ..event("$5", "t", Some("b"), 1, &[]) },
    ]);
    let authorized = [true, true, true, true, false];
    for chunk in 1..7 {
        let winners = compute_lattice_coordinatized_winners(
            &events,
            &authorized,
            &TextMap::new(),
            0,
            chunk,
        );
        assert_eq!(winners.get(&key("t", "a")), Some(&1));
        assert_eq!(winners.get(&key("t", "b")), Some(&3));
    }
    let mut unconflicted = StateMap::new();
    unconflicted.insert(key("t", "a"), "$0".to_string());
    unconflicted.insert(key("u", ""), "$9".to_string());
    let mut power = StateMap::new();
    power.insert(key("p", ""), "$8".to_string());
    let state = resolve_lattice_coordinatized(
        unconflicted,
        power,
        &events,
        &authorized,
        &TextMap::new(),
        0,
        2,
    );
    assert_eq!(state.get(&key("u", "")), Some(&"$9".to_string()));
    assert_eq!(state.get(&key("p", "")), Some(&"$8".to_string()));
    assert_eq!(state.get(&key("t", "b")), Some(&"$4".to_string()));
}

#[test]
fn power_events_are_routed_apart() {
    let set = || {
        let left = |id: &str, user: &str| LeanEvent {
            content: object(vec![("membership", text("leave"))]),
            ..event(id, "m.room.member", Some(user), 1, &[])
        };
        collect(vec![
            left("$kick", "@bob:x"),
            left("$leave", "@alice:x"),
            event("$levels", "m.room.power_levels", Some(""), 1, &[]),
            event("$topic", "m.room.topic", Some(""), 1, &[]),
        ])
    };
    let ids = |map: &TextMap<LeanEvent>| -> Vec<String> {
        map.entries.iter().map(|(id, _)| id.clone()).collect()
    };
    let (power, rest) = route_power_events(set(), StateResVersion::V2_1);
    assert_eq!(ids(&power), ["$kick", "$levels"]);
    assert_eq!(ids(&rest), ["$leave", "$topic"]);
    let (power, rest) = route_power_events(set(), StateResVersion::V2);
    assert_eq!(ids(&power), ["$kick", "$leave", "$levels"]);
    assert_eq!(ids(&rest), ["$topic"]);
}

#[test]
fn levels_come_from_the_last_power_event() {
    let mut events = collect(vec![
        LeanEvent {
            content: object(vec![("users_default", Json::Integer(5))]),
            ..event("$1", "m.room.power_levels", Some(""), 1, &[])
        },
        LeanEvent {
            content: object(vec![
                ("users", object(vec![("@alice:x", Json::Integer(50))])),
                ("users_default", Json::Integer(1)),
            ]),
            ..event("$2", "m.room.power_levels", Some(""), 2, &[])
        },
        LeanEvent {
            sender: "@bob:x".to_string(),
            ..event("$3", "m.room.message", None, 3, &[])
        },
    ]);
    apply_global_power_levels(&mut events, &["$1".to_string(), "$2".to_string()]);
    let levels: Vec<i64> = events.entries.iter().map(|(_, event)| event.power_level).collect();
    assert_eq!(levels, [50, 50, 1]);
    apply_global_power_levels(&mut events, &["$2".to_string(), "$1".to_string()]);
    let levels: Vec<i64> = events.entries.iter().map(|(_, event)| event.power_level).collect();
    assert_eq!(levels, [5, 5, 5]);
    apply_global_power_levels(&mut events, &[]);
    assert_eq!(events.entries[0].1.power_level, 0);
}

#[test]
fn the_creator_has_power() {
    let events = collect(vec![
        event("$1", "m.room.create", Some(""), 1, &[]),
        event("$2", "m.room.member", Some("@alice:x"), 1, &[]),
        event("$3", "m.room.message", None, 1, &[]),
    ]);
    assert_eq!(
        power_candidates(&events, "@alice:x"),
        [Some(100), Some(100), None]
    );
    assert_eq!(power_candidates(&events, ""), [Some(100), Some(0), None]);
}

#[test]
fn summaries_group_members() {
    let member = |id: &str, user: &str, membership: &str| LeanEvent {
        content: object(vec![
            ("displayname", text(user)),
            ("membership", text(membership)),
        ]),
        ..event(id, "m.room.member", Some(user), 4, &[])
    };
    let events = collect(vec![
        member("$a", "@alice:x", "join"),
        member("$b", "@bob:x", "ban"),
        member("$c", "@carol:x", "join"),
        event("$n", "m.room.name", Some(""), 7, &[]),
    ]);
    let mut state = StateMap::new();
    state.insert(key("m.room.member", "@carol:x"), "$c".to_string());
    state.insert(key("m.room.member", "@alice:x"), "$a".to_string());
    state.insert(key("m.room.member", "@bob:x"), "$b".to_string());
    state.insert(key("m.room.member", "@dan:x"), "$missing".to_string());
    state.insert(key("m.room.name", ""), "$n".to_string());
    state.insert(key("m.room.topic", ""), "$gone".to_string());
    let summary = summarize(&state, &events);
    let joined = summary.members.get("join").unwrap();
    assert_eq!(joined.len(), 2);
    assert_eq!(joined[0].user_id, Some("@alice:x".to_string()));
    assert_eq!(joined[1].user_id, Some("@carol:x".to_string()));
    assert_eq!(joined[0].depth, 4);
    assert_eq!(summary.members.get("unknown").unwrap()[0].displayname, "");
    assert_eq!(summary.members.get("ban").unwrap().len(), 1);
    assert_eq!(summary.state.len(), 2);
    assert_eq!(summary.state[0].sender, "@alice:x");
    assert_eq!(summary.state[0].depth, 7);
    assert_eq!(summary.state[1].sender, "?");
}

#[test]
fn names_are_cut_at_the_colon() {
    assert_eq!(localpart("@alice:example.org"), "alice");
    assert_eq!(localpart("@@bob"), "bob");
    assert_eq!(localpart(""), "");
}

#[test]
fn timestamps_use_a_twelve_hour_clock() {
    assert_eq!(timestamp_text(0), "1 Jan 1970 12:00 AM");
    assert_eq!(timestamp_text(951_826_500_000), "29 Feb 2000 12:15 PM");
    assert_eq!(timestamp_text(1_700_000_000_000), "14 Nov 2023 10:13 PM");
}

#[test]
fn timelines_tell_events_in_order() {
    let events = collect(vec![
        LeanEvent {
            content: object(vec![("membership", text("join")), ("displayname", text("Alice"))]),
            ..event("$2", "m.room.member", Some("@alice:x"), 2, &[])
        },
        event("$1", "m.room.create", Some(""), 1, &[]),
        LeanEvent {
            content: object(vec![("body", text("hello"))]),
            origin_server_ts: 60_000,
            ..event("$3", "m.room.message", None, 3, &[])
        },
        event("$4", "m.reaction", None, 4, &[]),
        LeanEvent {
            content: object(vec![
                ("membership", text("ban")),
                ("reason", text("spam")),
            ]),
            origin_server_ts: 60_000,
            ..event("$5", "m.room.member", Some("@bob:x"), 5, &[])
        },
    ]);
    assert_eq!(
        timeline(&events),
        "Alice sent m.room.create state event\n1 Jan 1970 12:00 AM\n\
         Alice joined the room\n1 Jan 1970 12:00 AM\n\
         \nAlice: hello\n1 Jan 1970 12:01 AM\n\
         Alice banned bob spam\n1 Jan 1970 12:01 AM\n"
    );
}
