use devlog::codec::{parse_event, serialize_event};
use devlog::event::Event;

#[test]
fn serialize_matches_documented_format() {
    let e = Event::new(1, String::from("write-report"), String::from("2025-08-16T12:00:01+00:00"));
    let line = serialize_event(&e);
    assert_eq!(line, "{\"id\":1,\"name\":\"write-report\",\"time\":\"2025-08-16T12:00:01+00:00\"}");
}

#[test]
fn serialize_escapes_special_characters() {
    let e = Event::new(7, String::from("a\"b\\c\nd\te"), String::from("t"));
    let line = serialize_event(&e);
    assert_eq!(line, "{\"id\":7,\"name\":\"a\\\"b\\\\c\\nd\\te\",\"time\":\"t\"}");
}

#[test]
fn serialize_escapes_control_characters() {
    let e = Event::new(2, String::from("x\u{0001}y\u{0008}z\u{000C}"), String::from("t"));
    let line = serialize_event(&e);
    assert_eq!(line, "{\"id\":2,\"name\":\"x\\u0001y\\bz\\f\",\"time\":\"t\"}");
}

#[test]
fn round_trip_plain() {
    let e = Event::new(42, String::from("fix-bug"), String::from("2025-08-16T12:05:30+00:00"));
    let line = serialize_event(&e);
    let back = parse_event(&line).expect("own output must parse");
    assert_eq!(back.id, e.id);
    assert_eq!(back.name, e.name);
    assert_eq!(back.time, e.time);
}

#[test]
fn round_trip_with_escapes_and_unicode() {
    let e = Event::new(
        2147483647,
        String::from("quote \" backslash \\ newline \n tab \t bell \u{0007} snowman \u{2603}"),
        String::from("2025-01-01T00:00:00+00:00"),
    );
    let line = serialize_event(&e);
    let back = parse_event(&line).expect("own output must parse");
    assert_eq!(back.id, e.id);
    assert_eq!(back.name, e.name);
    assert_eq!(back.time, e.time);
}

#[test]
fn parse_accepts_reordered_and_unknown_fields() {
    let line = "{\"time\":\"t1\",\"extra\":null,\"name\":\"n1\",\"count\":-3.5e2,\"flag\":true,\"id\":9}";
    let e = parse_event(line).expect("reordered fields must parse");
    assert_eq!(e.id, 9);
    assert_eq!(e.name, "n1");
    assert_eq!(e.time, "t1");
}

#[test]
fn parse_accepts_whitespace_and_unicode_escape() {
    let line = "{ \"id\" : 3 , \"name\" : \"\\u0041\\u00e9\" , \"time\" : \"t\" }";
    let e = parse_event(line).expect("whitespace must be tolerated");
    assert_eq!(e.id, 3);
    assert_eq!(e.name, "A\u{00e9}");
    assert_eq!(e.time, "t");
}

#[test]
fn parse_accepts_negative_id() {
    let e = parse_event("{\"id\":-12,\"name\":\"n\",\"time\":\"t\"}").expect("parses");
    assert_eq!(e.id, -12);
}

#[test]
fn parse_rejects_malformed_lines() {
    // not an object
    assert!(parse_event("hello").is_none());
    assert!(parse_event("").is_none());
    // truncated
    assert!(parse_event("{\"id\":1,\"name\":\"n\"").is_none());
    // missing field
    assert!(parse_event("{\"id\":1,\"name\":\"n\"}").is_none());
    // duplicate field
    assert!(parse_event("{\"id\":1,\"id\":2,\"name\":\"n\",\"time\":\"t\"}").is_none());
    // id not a number
    assert!(parse_event("{\"id\":\"1\",\"name\":\"n\",\"time\":\"t\"}").is_none());
    // id out of 32-bit range
    assert!(parse_event("{\"id\":99999999999,\"name\":\"n\",\"time\":\"t\"}").is_none());
    // trailing garbage
    assert!(parse_event("{\"id\":1,\"name\":\"n\",\"time\":\"t\"} x").is_none());
    // bad escape
    assert!(parse_event("{\"id\":1,\"name\":\"\\x\",\"time\":\"t\"}").is_none());
    // lone surrogate escape
    assert!(parse_event("{\"id\":1,\"name\":\"\\ud800\",\"time\":\"t\"}").is_none());
}

#[test]
fn parse_boundary_ids() {
    let hi = parse_event("{\"id\":2147483647,\"name\":\"n\",\"time\":\"t\"}").expect("max id");
    assert_eq!(hi.id, 2147483647);
    let lo = parse_event("{\"id\":-2147483648,\"name\":\"n\",\"time\":\"t\"}").expect("min id");
    assert_eq!(lo.id, -2147483648);
    assert!(parse_event("{\"id\":2147483648,\"name\":\"n\",\"time\":\"t\"}").is_none());
}

#[test]
fn parse_ignores_unknown_fields_with_nested_values() {
    let line = "{\"meta\":{\"tags\":[\"a\",{\"x\":[1,2,{}]},[]],\"n\":{}},\"id\":4,\"name\":\"n\",\"time\":\"t\",\"more\":[null,true,[-1.5e3]]}";
    let e = parse_event(line).expect("nested unknown fields must be tolerated");
    assert_eq!(e.id, 4);
    assert_eq!(e.name, "n");
    assert_eq!(e.time, "t");
}

#[test]
fn parse_rejects_unbalanced_nested_values() {
    assert!(parse_event("{\"x\":[{,\"id\":1,\"name\":\"n\",\"time\":\"t\"}").is_none());
    assert!(parse_event("{\"x\":[1,2,\"id\":1,\"name\":\"n\",\"time\":\"t\"}").is_none());
}

#[test]
fn parse_combines_surrogate_pairs() {
    // U+1F600 as the surrogate pair D83D DE00
    let line = "{\"id\":8,\"name\":\"\\ud83d\\ude00\",\"time\":\"t\"}";
    let e = parse_event(line).expect("surrogate pair must decode");
    assert_eq!(e.name, "\u{1F600}");
    // a lone high surrogate, or a pair in the wrong order, stays malformed
    assert!(parse_event("{\"id\":8,\"name\":\"\\ud83dx\",\"time\":\"t\"}").is_none());
    assert!(parse_event("{\"id\":8,\"name\":\"\\ude00\\ud83d\",\"time\":\"t\"}").is_none());
}

#[test]
fn parse_rejects_leading_zero_ids() {
    assert!(parse_event("{\"id\":01,\"name\":\"n\",\"time\":\"t\"}").is_none());
    assert!(parse_event("{\"id\":-01,\"name\":\"n\",\"time\":\"t\"}").is_none());
    let z = parse_event("{\"id\":0,\"name\":\"n\",\"time\":\"t\"}").expect("plain zero parses");
    assert_eq!(z.id, 0);
    let nz = parse_event("{\"id\":-0,\"name\":\"n\",\"time\":\"t\"}").expect("negative zero parses");
    assert_eq!(nz.id, 0);
}
