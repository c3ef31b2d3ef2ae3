use rezzy::calendar::epoch_days_to_ymd;
use rezzy::collections::TextMap;
use rezzy::events::StateResVersion;
use rezzy::input::{input_shape, InputFault, InputShape};
use rezzy::json::Json;
use rezzy::merge::{
    highest_shared_depths, merge_event_sets, merge_overlapping, DisjointInputs, MergeCounts,
};
use rezzy::power::{detect_version, parse_room_version, room_version};

fn ids(lists: &[&[&str]]) -> Vec<Vec<String>> {
    lists
        .iter()
        .map(|list| list.iter().map(|id| id.to_string()).collect())
        .collect()
}

#[test]
fn the_first_event_with_an_id_is_kept() {
    let merge = merge_event_sets(&ids(&[&["a", "b", "", "a"], &["b", "c"]])).unwrap();
    assert_eq!(merge.kept, [(0, 0), (0, 1), (1, 1)]);
    assert_eq!(
        merge.counts,
        [
            MergeCounts { added: 2, dupes: 1 },
            MergeCounts { added: 1, dupes: 1 },
        ]
    );
    assert_eq!(merge.shared.map.entries.len(), 1);
    assert!(merge.shared.contains("b"));
}

#[test]
fn inputs_must_be_connected() {
    assert!(merge_event_sets(&ids(&[&["a"], &["b", "c"], &["c", "a"]])).is_ok());
    let error = merge_event_sets(&ids(&[&["a"], &["a"], &["b"], &["b"]])).unwrap_err();
    assert_eq!(error, DisjointInputs { index: 2 });
    assert_eq!(
        error.message(),
        "Disjoint DAGs: input file at index 2 shares no history with the connected component. \
         Cannot compute meaningful merge — all inputs must share history."
    );
    assert!(merge_event_sets(&ids(&[&["a"]])).is_ok());
    // Events without an id connect nothing.
    assert!(merge_event_sets(&ids(&[&[""], &[""]])).is_err());
}

#[test]
fn one_overlap_can_be_enough() {
    assert!(merge_overlapping(&ids(&[&["a"], &["a"], &["b"]])).is_ok());
    assert!(merge_overlapping(&ids(&[&[""], &[""]])).is_ok());
    let error = merge_overlapping(&ids(&[&["a"], &["b"]])).unwrap_err();
    assert_eq!(
        error.message(),
        "Disjoint DAGs: no shared events found across inputs. \
         Cannot compute meaningful merge — the DAGs share no history."
    );
}

#[test]
fn the_deepest_shared_events_come_first() {
    let listed = ids(&[
        &["a", "b", "c", "d", "e", "f", "g"],
        &["a", "b", "c", "d", "e", "f", "g", "h"],
    ]);
    let depths = vec![
        vec![Some(3), Some(9), None, Some(1), Some(4), Some(5), Some(2)],
        vec![Some(0); 8],
    ];
    let merge = merge_event_sets(&listed).unwrap();
    let highest: Vec<(String, u64)> = highest_shared_depths(&listed, &depths, &merge);
    let expected: Vec<(String, u64)> = [("b", 9), ("f", 5), ("e", 4), ("a", 3), ("g", 2)]
        .iter()
        .map(|(id, depth)| (id.to_string(), *depth))
        .collect();
    assert_eq!(highest, expected);
}

#[test]
fn room_versions_name_algorithms() {
    assert_eq!(parse_room_version("1"), Ok(StateResVersion::V1));
    assert_eq!(parse_room_version("2"), Ok(StateResVersion::V2));
    assert_eq!(parse_room_version("11"), Ok(StateResVersion::V2));
    assert_eq!(parse_room_version("12"), Ok(StateResVersion::V2_1));
    assert_eq!(parse_room_version("12.1"), Ok(StateResVersion::V2_1_1));
    assert_eq!(
        parse_room_version("13"),
        Err("Unsupported room version: 13".to_string())
    );
}

fn object(members: Vec<(&str, Json)>) -> Json {
    let mut map = TextMap::new();
    for (name, value) in members {
        map.insert(name.to_string(), value);
    }
    Json::Object(map)
}

fn text(value: &str) -> Json {
    Json::Text(value.to_string())
}

#[test]
fn the_creation_event_states_the_version() {
    let creation = || {
        object(vec![
            ("type", text("m.room.create")),
            ("content", object(vec![("room_version", text("10"))])),
        ])
    };
    let other = || object(vec![("type", text("m.room.name"))]);
    assert_eq!(
        detect_version(&[other(), creation()]),
        Ok(StateResVersion::V2)
    );
    assert_eq!(room_version(&[other(), creation()]), Some("10"));
    assert_eq!(room_version(&[other()]), None);
    assert!(detect_version(&[other()]).is_err());
    assert!(detect_version(&[]).is_err());
}

#[test]
fn inputs_have_one_of_three_shapes() {
    let headed = object(vec![
        ("events", Json::Array(vec![Json::Null])),
        ("heads", Json::Array(vec![text("$a")])),
    ]);
    assert_eq!(
        input_shape(&headed),
        Ok(InputShape::Headed {
            events: &vec![Json::Null],
            heads: vec!["$a".to_string()],
        })
    );
    assert_eq!(
        input_shape(&object(vec![("type", text("m.room.name"))])),
        Ok(InputShape::Single)
    );
    assert_eq!(
        input_shape(&Json::Array(Vec::new())),
        Ok(InputShape::Events { events: &Vec::new() })
    );
    let shape = |events: Json, heads: Json| object(vec![("events", events), ("heads", heads)]);
    assert_eq!(
        input_shape(&shape(Json::Null, Json::Null)),
        Err(InputFault::EventsNoArray)
    );
    assert_eq!(
        input_shape(&shape(Json::Array(Vec::new()), Json::Null)),
        Err(InputFault::HeadsNoArray)
    );
    assert_eq!(
        input_shape(&shape(
            Json::Array(Vec::new()),
            Json::Array(vec![Json::Bool(true)])
        )),
        Err(InputFault::HeadNoString)
    );
    assert_eq!(input_shape(&Json::Null), Err(InputFault::UnexpectedFormat));
    assert_eq!(
        InputFault::UnexpectedFormat.message(),
        "Unexpected JSON format"
    );
}

#[test]
fn days_since_the_epoch_are_dates() {
    assert_eq!(epoch_days_to_ymd(0), (1970, 1, 1));
    assert_eq!(epoch_days_to_ymd(-1), (1969, 12, 31));
    assert_eq!(epoch_days_to_ymd(11_016), (2000, 2, 29));
    assert_eq!(epoch_days_to_ymd(-719_468), (0, 3, 1));
}
