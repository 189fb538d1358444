use task_tracker::codec::{deserialize, serialize};
use task_tracker::task::{Status, Task, TaskList};
use task_tracker::time::{display_date, Timestamp};

fn stamp(h: u8, m: u8, s: u8) -> Timestamp {
    Timestamp {
        year: 2026,
        month: 10,
        day: 12,
        hour: h,
        minute: m,
        second: s,
        offset_min: 120,
    }
}

#[test]
fn round_trip_preserves_every_field() {
    let mut tl = TaskList::new();
    tl.list.push(Task {
        id: 1,
        desc: String::from("plain"),
        status: Status::Todo,
        create_at: stamp(1, 2, 3),
        update_at: stamp(4, 5, 6),
    });
    tl.list.push(Task {
        id: 12,
        desc: String::from("with \"quotes\" and \\ backslash"),
        status: Status::Progress,
        create_at: stamp(7, 8, 9),
        update_at: Timestamp { offset_min: -90, ..stamp(10, 11, 12) },
    });
    let text = serialize(&tl);
    let back = deserialize(text.as_str()).unwrap();
    assert_eq!(back.list.len(), tl.list.len());
    for (a, b) in tl.list.iter().zip(back.list.iter()) {
        assert_eq!(a.id, b.id);
        assert_eq!(a.desc, b.desc);
        assert_eq!(a.status, b.status);
        assert_eq!(a.create_at, b.create_at);
        assert_eq!(a.update_at, b.update_at);
    }
}

#[test]
fn empty_store_round_trips() {
    let tl = TaskList::new();
    let text = serialize(&tl);
    assert_eq!(text, "{\n  \"list\": []\n}");
    let back = deserialize(text.as_str()).unwrap();
    assert_eq!(back.list.len(), 0);
}

#[test]
fn serialized_document_layout() {
    let mut tl = TaskList::new();
    tl.list.push(Task {
        id: 3,
        desc: String::from("hi"),
        status: Status::Done,
        create_at: stamp(0, 0, 7),
        update_at: stamp(23, 59, 59),
    });
    let text = serialize(&tl);
    let expected = "{\n  \"list\": [\n    {\n      \"id\": 3,\n      \"desc\": \"hi\",\n      \"status\": \"Done\",\n      \"create_at\": \"2026-10-12T00:00:07+02:00\",\n      \"update_at\": \"2026-10-12T23:59:59+02:00\"\n    }\n  ]\n}";
    assert_eq!(text, expected);
}

#[test]
fn malformed_documents_are_rejected() {
    assert!(deserialize("").is_err());
    assert!(deserialize("{}").is_err());
    assert!(deserialize("{\n  \"list\": []\n}x").is_err());
    assert!(deserialize("{\n  \"list\": [1]\n}").is_err());
}

#[test]
fn clock_yields_calendar_fields_in_range() {
    let mut tl = TaskList::new();
    tl.add_task(String::from("now")).unwrap();
    let t = tl.get_task(1).unwrap();
    assert!((1..=12).contains(&t.create_at.month));
    assert!((1..=31).contains(&t.create_at.day));
    assert!(t.create_at.hour <= 23);
    assert_eq!(t.create_at, t.update_at);
    assert!(t.create_at.year >= 2020);
}

#[test]
fn display_date_format() {
    let d = display_date(&stamp(4, 5, 6));
    assert_eq!(d, "2026-10-12 04:05:06");
}

#[test]
fn control_characters_are_escaped_and_round_trip() {
    let mut tl = TaskList::new();
    tl.list.push(Task {
        id: 1,
        desc: String::from("line\nbreak\ttab\u{1}bell"),
        status: Status::Todo,
        create_at: stamp(1, 2, 3),
        update_at: stamp(1, 2, 3),
    });
    let text = serialize(&tl);
    assert!(text.contains("line\\u000abreak\\u0009tab\\u0001bell"));
    assert!(!text.contains('\u{1}'));
    let back = deserialize(text.as_str()).unwrap();
    assert_eq!(back.list[0].desc, "line\nbreak\ttab\u{1}bell");
}
