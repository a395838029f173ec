use devlog::log::{load_events, recover_last_id};

#[test]
fn load_events_reads_lines_in_order() {
    let content = "{\"id\":1,\"name\":\"a\",\"time\":\"t1\"}\n{\"id\":2,\"name\":\"b\",\"time\":\"t2\"}\n";
    let events = load_events(content);
    assert_eq!(events.len(), 2);
    assert_eq!(events[0].id, 1);
    assert_eq!(events[0].name, "a");
    assert_eq!(events[1].id, 2);
    assert_eq!(events[1].name, "b");
}

#[test]
fn load_events_empty_content() {
    assert_eq!(load_events("").len(), 0);
}

#[test]
fn load_events_skips_junk_lines_anywhere() {
    let content = "garbage\n{\"id\":1,\"name\":\"a\",\"time\":\"t\"}\nnot json at all\n{\"id\":2,\"name\":\"b\",\"time\":\"t\"}\n{broken\n";
    let events = load_events(content);
    assert_eq!(events.len(), 2);
    assert_eq!(events[0].id, 1);
    assert_eq!(events[1].id, 2);

    let without = "{\"id\":1,\"name\":\"a\",\"time\":\"t\"}\n{\"id\":2,\"name\":\"b\",\"time\":\"t\"}\n";
    let clean = load_events(without);
    assert_eq!(clean.len(), events.len());
    for (x, y) in clean.iter().zip(events.iter()) {
        assert_eq!(x.id, y.id);
        assert_eq!(x.name, y.name);
        assert_eq!(x.time, y.time);
    }
}

#[test]
fn load_events_handles_final_unterminated_line_and_crlf() {
    let content = "{\"id\":1,\"name\":\"a\",\"time\":\"t\"}\r\n{\"id\":2,\"name\":\"b\",\"time\":\"t\"}";
    let events = load_events(content);
    assert_eq!(events.len(), 2);
    assert_eq!(events[1].id, 2);
}

#[test]
fn load_events_is_idempotent() {
    let content = "{\"id\":1,\"name\":\"a\",\"time\":\"t\"}\njunk\n{\"id\":2,\"name\":\"b\",\"time\":\"t\"}\n";
    let first = load_events(content);
    let second = load_events(content);
    assert_eq!(first.len(), second.len());
    for (x, y) in first.iter().zip(second.iter()) {
        assert_eq!(x.id, y.id);
        assert_eq!(x.name, y.name);
        assert_eq!(x.time, y.time);
    }
}

#[test]
fn recover_takes_maximum_id() {
    let content = "{\"id\":5,\"name\":\"a\",\"time\":\"t\"}\n{\"id\":3,\"name\":\"b\",\"time\":\"t\"}\n";
    assert_eq!(recover_last_id(content), 5);
}

#[test]
fn recover_ignores_junk_and_missing_file() {
    assert_eq!(recover_last_id(""), 0);
    assert_eq!(recover_last_id("junk\nmore junk\n"), 0);
    let content = "junk\n{\"id\":7,\"name\":\"a\",\"time\":\"t\"}\n{oops\n";
    assert_eq!(recover_last_id(content), 7);
}

#[test]
fn long_junk_line_is_skipped_without_harm() {
    let mut junk = String::new();
    for _ in 0..5000 {
        junk.push('x');
    }
    let mut content = String::new();
    content.push_str(&junk);
    content.push('\n');
    content.push_str("{\"id\":1,\"name\":\"a\",\"time\":\"t\"}\n");
    let events = load_events(&content);
    assert_eq!(events.len(), 1);
    assert_eq!(events[0].id, 1);
}
