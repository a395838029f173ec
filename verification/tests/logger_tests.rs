use devlog::codec::parse_event;
use devlog::log::load_events;
use devlog::logger::{Logger, Sequencer};

#[test]
fn sequencer_hands_out_contiguous_ids() {
    let mut s = Sequencer::new(0);
    assert_eq!(s.next_id(), 1);
    assert_eq!(s.next_id(), 2);
    assert_eq!(s.next_id(), 3);
}

#[test]
fn fresh_log_submission_order() {
    // Submitting names to an initially empty log yields ids 1..N in
    // submission order.
    let mut logger = Logger::new("log.jsonl");
    let names = ["alpha", "beta", "gamma", "delta"];
    let mut content = String::new();
    for name in names.iter() {
        let line = logger.log_event(name, "2025-08-16T12:00:00+00:00");
        content.push_str(&line);
        content.push('\n');
    }
    let events = load_events(&content);
    assert_eq!(events.len(), names.len());
    for (k, e) in events.iter().enumerate() {
        assert_eq!(e.id, (k + 1) as i32);
        assert_eq!(e.name, names[k]);
    }
}

#[test]
fn resume_continues_from_maximum_id() {
    let existing = "{\"id\":2,\"name\":\"old\",\"time\":\"t\"}\n{\"id\":41,\"name\":\"older\",\"time\":\"t\"}\n";
    let mut logger = Logger::new("log.jsonl");
    logger.recover(existing);
    let line = logger.log_event("new-task", "t2");
    let e = parse_event(&line).expect("own line parses");
    assert_eq!(e.id, 42);
    let line2 = logger.log_event("next-task", "t3");
    let e2 = parse_event(&line2).expect("own line parses");
    assert_eq!(e2.id, 43);
}

#[test]
fn drain_persists_every_buffered_item() {
    // Closing the queue with M items buffered: all M are persisted,
    // ids continuing the existing sequence.
    let existing = "{\"id\":10,\"name\":\"old\",\"time\":\"t\"}\n";
    let mut logger = Logger::new("log.jsonl");
    logger.recover(existing);
    let names: Vec<String> = vec![
        String::from("one"),
        String::from("two"),
        String::from("three"),
    ];
    let times: Vec<String> = vec![String::from("t1"), String::from("t2"), String::from("t3")];
    let lines = logger.drain(&names, &times);
    assert_eq!(lines.len(), 3);
    let mut content = String::from(existing);
    for line in lines.iter() {
        content.push_str(line);
        content.push('\n');
    }
    let events = load_events(&content);
    assert_eq!(events.len(), 4);
    for (k, e) in events.iter().enumerate().skip(1) {
        assert_eq!(e.id, 10 + k as i32);
        assert_eq!(e.name, names[k - 1]);
        assert_eq!(e.time, times[k - 1]);
    }
}

#[test]
fn example_two_submissions_with_real_timestamps() {
    // Empty log, submit "write-report" then "fix-bug": two lines,
    // ids 1 and 2, names as submitted, times valid and ordered.
    let mut logger = Logger::new("log.jsonl");
    let mut content = String::new();
    let t1 = chrono::Utc::now().to_rfc3339();
    let line1 = logger.log_event("write-report", &t1);
    content.push_str(&line1);
    content.push('\n');
    let t2 = chrono::Utc::now().to_rfc3339();
    let line2 = logger.log_event("fix-bug", &t2);
    content.push_str(&line2);
    content.push('\n');

    assert_eq!(content.lines().count(), 2);
    let events = load_events(&content);
    assert_eq!(events.len(), 2);
    assert_eq!(events[0].id, 1);
    assert_eq!(events[1].id, 2);
    assert_eq!(events[0].name, "write-report");
    assert_eq!(events[1].name, "fix-bug");
    let p1 = chrono::DateTime::parse_from_rfc3339(&events[0].time).expect("valid timestamp");
    let p2 = chrono::DateTime::parse_from_rfc3339(&events[1].time).expect("valid timestamp");
    assert!(p2 >= p1);
}

#[test]
fn log_event_now_stamps_current_instant() {
    let mut logger = Logger::new("log.jsonl");
    let before = chrono::Utc::now();
    let line = logger.log_event_now("task");
    let after = chrono::Utc::now();
    let e = parse_event(&line).expect("own line parses");
    assert_eq!(e.id, 1);
    assert_eq!(e.name, "task");
    let stamped = chrono::DateTime::parse_from_rfc3339(&e.time).expect("valid timestamp");
    assert!(stamped >= before);
    assert!(stamped <= after);
}

#[test]
fn logger_keeps_its_path() {
    let logger = Logger::new("some/dir/log.jsonl");
    assert_eq!(logger.path(), "some/dir/log.jsonl");
}

#[test]
fn load_events_method_matches_free_function() {
    let content = "{\"id\":1,\"name\":\"a\",\"time\":\"t\"}\n";
    let logger = Logger::new("log.jsonl");
    let via_method = logger.load_events(content);
    let via_free = load_events(content);
    assert_eq!(via_method.len(), via_free.len());
    assert_eq!(via_method[0].id, 1);
}

#[test]
fn restart_recovers_where_previous_run_stopped() {
    let mut logger = Logger::new("log.jsonl");
    let mut content = String::new();
    for name in ["a", "b", "c"].iter() {
        let line = logger.log_event(name, "t");
        content.push_str(&line);
        content.push('\n');
    }
    // a fresh process over the same file continues at 4
    let mut restarted = Logger::new("log.jsonl");
    restarted.recover(&content);
    let line = restarted.log_event("d", "t");
    let e = parse_event(&line).expect("own line parses");
    assert_eq!(e.id, 4);
}

#[test]
fn failed_append_consumes_no_id() {
    let mut logger = Logger::new("log.jsonl");
    // prepare without committing: the append failed, the id is not spent
    let first = logger.run_step(Some(String::from("lost"))).expect("a task yields a line");
    let e1 = parse_event(&first).expect("own line parses");
    assert_eq!(e1.id, 1);
    // the next prepared line carries the same id again
    let second = logger.run_step(Some(String::from("kept"))).expect("a task yields a line");
    let e2 = parse_event(&second).expect("own line parses");
    assert_eq!(e2.id, 1);
    // this append succeeds and is committed; only then is the id spent
    logger.commit_append();
    let third = logger.prepare("next", "t");
    let e3 = parse_event(&third).expect("own line parses");
    assert_eq!(e3.id, 2);
    // closing the queue terminates the writer
    assert!(logger.run_step(None).is_none());
}
