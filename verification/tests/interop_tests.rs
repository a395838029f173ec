use devlog::codec::{parse_event, serialize_event};
use devlog::event::Event;

#[test]
fn serde_json_reads_our_lines() {
    let e = Event::new(5, String::from("na\"me \u{0007}"), String::from("2025-08-16T12:00:01+00:00"));
    let line = serialize_event(&e);
    let v: serde_json::Value = serde_json::from_str(&line).expect("serde_json must accept our line");
    assert_eq!(v.get("id").and_then(|x| x.as_i64()), Some(5));
    assert_eq!(v.get("name").and_then(|x| x.as_str()), Some("na\"me \u{0007}"));
    assert_eq!(
        v.get("time").and_then(|x| x.as_str()),
        Some("2025-08-16T12:00:01+00:00")
    );
}

#[test]
fn we_read_serde_json_lines() {
    let mut map = serde_json::Map::new();
    map.insert(String::from("id"), serde_json::Value::from(31_i64));
    map.insert(String::from("name"), serde_json::Value::from("task \u{2603} \"x\"\n"));
    map.insert(String::from("time"), serde_json::Value::from("2025-08-16T12:05:30+00:00"));
    let line = serde_json::Value::Object(map).to_string();
    let e = parse_event(&line).expect("serde_json output must parse");
    assert_eq!(e.id, 31);
    assert_eq!(e.name, "task \u{2603} \"x\"\n");
    assert_eq!(e.time, "2025-08-16T12:05:30+00:00");
}
