use std::hash::{DefaultHasher, Hash, Hasher};
use musiq::events::{Event, EventQueue, ScheduledTrigger};
use musiq::Error;

fn event(name: &str, trigger: Option<ScheduledTrigger>) -> Event {
    Event::from_parts(String::from(name), trigger)
}

#[test]
fn trigger_bytes_roundtrip() {
    let t = ScheduledTrigger::new(0x0102030405060708, Some(600), Some(3), true);
    let bytes = t.to_bytes();
    assert_eq!(bytes.len(), 19);
    let back = ScheduledTrigger::from_bytes(&bytes).unwrap();
    assert_eq!(back.next_trigger_raw(), 0x0102030405060708);
    assert_eq!(back.trigger_period(), Some(600));
    assert_eq!(back.triggers_remaining(), Some(3));
    assert!(back.auto_delete());
}

#[test]
fn trigger_bytes_zero_means_none() {
    let t = ScheduledTrigger::new(42, None, None, false);
    let bytes = t.to_bytes();
    assert_eq!(&bytes[8..16], &[0u8; 8]);
    assert_eq!(&bytes[16..18], &[0u8; 2]);
    let back = ScheduledTrigger::from_bytes(&bytes).unwrap();
    assert_eq!(back.trigger_period(), None);
    assert_eq!(back.triggers_remaining(), None);
    assert!(!back.auto_delete());
}

#[test]
fn trigger_from_bytes_rejects_bad_flag_and_length() {
    let mut bytes = vec![0u8; 19];
    bytes[18] = 2;
    assert!(ScheduledTrigger::from_bytes(&bytes).is_none());
    assert!(ScheduledTrigger::from_bytes(&[0u8; 18]).is_none());
    assert!(ScheduledTrigger::from_bytes(&[0u8; 20]).is_none());
}

#[test]
fn update_trigger_time_is_additive() {
    let mut e = event("a", Some(ScheduledTrigger::new(100, Some(60), None, false)));
    assert!(!e.update_trigger_time());
    assert_eq!(e.trigger.unwrap().next_trigger_raw(), 160);
}

#[test]
fn update_trigger_time_retires_one_shot() {
    let mut e = event("a", Some(ScheduledTrigger::new(100, None, Some(5), false)));
    assert!(!e.update_trigger_time());
    assert!(e.trigger.is_none());
}

#[test]
fn update_trigger_time_counts_down() {
    let mut e = event("a", Some(ScheduledTrigger::new(100, Some(10), Some(2), false)));
    assert!(!e.update_trigger_time());
    assert_eq!(e.trigger.unwrap().triggers_remaining(), Some(1));
    assert!(e.update_trigger_time());
    assert_eq!(e.trigger.unwrap().triggers_remaining(), Some(1));
}

#[test]
fn due_events_fire_in_order_and_only_due() {
    let mut q = EventQueue::new(vec![
        event("b", Some(ScheduledTrigger::new(15, None, None, false))),
        event("a", Some(ScheduledTrigger::new(10, Some(20), None, false))),
        event("late", Some(ScheduledTrigger::new(1000, Some(5), None, false))),
    ]);
    let fired = q.trigger_events(50);
    let names: Vec<&str> = fired.iter().map(|e| e.name()).collect();
    assert_eq!(names, vec!["a", "b", "a", "a"]);
    // Each returned copy carries the already advanced trigger.
    assert_eq!(fired[0].trigger.unwrap().next_trigger_raw(), 30);
    assert!(fired[1].trigger.is_none());
    assert_eq!(fired[2].trigger.unwrap().next_trigger_raw(), 50);
    assert_eq!(fired[3].trigger.unwrap().next_trigger_raw(), 70);
}

#[test]
fn one_shot_becomes_unscheduled() {
    let mut q = EventQueue::new(vec![event(
        "solo",
        Some(ScheduledTrigger::new(10, None, None, false)),
    )]);
    let fired = q.trigger_events(20);
    assert_eq!(fired.len(), 1);
    assert!(fired[0].trigger.is_none());
    // A later pass with a larger time never returns it again.
    let later = q.trigger_events(1000);
    assert!(later.is_empty());
}

#[test]
fn last_remaining_fires_exactly_once() {
    let mut q = EventQueue::new(vec![event(
        "once",
        Some(ScheduledTrigger::new(5, Some(10), Some(1), true)),
    )]);
    let fired = q.trigger_events(50);
    assert_eq!(fired.len(), 1);
    assert_eq!(fired[0].trigger.unwrap().next_trigger_raw(), 15);
    let later = q.trigger_events(10_000);
    assert!(later.is_empty());
}

#[test]
fn insert_keeps_firing_order() {
    let mut q = EventQueue::new(Vec::new());
    q.insert_event(event("late", Some(ScheduledTrigger::new(30, None, None, false))));
    q.insert_event(event("early", Some(ScheduledTrigger::new(10, None, None, false))));
    q.insert_event(event("middle", Some(ScheduledTrigger::new(20, None, None, false))));
    let fired = q.trigger_events(100);
    let names: Vec<&str> = fired.iter().map(|e| e.name()).collect();
    assert_eq!(names, vec!["early", "middle", "late"]);
}

#[test]
fn unscheduled_events_never_fire() {
    let mut q = EventQueue::new(vec![event("manual", None)]);
    assert!(q.trigger_events(u64::MAX / 2).is_empty());
}

#[test]
fn queue_bytes_roundtrip() {
    let mut q = EventQueue::new(vec![
        event("first", Some(ScheduledTrigger::new(10, Some(60), Some(2), false))),
        event("second", Some(ScheduledTrigger::new(99, None, None, true))),
        event("manual", None),
    ]);
    let bytes = q.to_bytes();
    let mut back = EventQueue::from_bytes(&bytes).unwrap();
    assert_eq!(back.to_bytes(), bytes);
    let fired = back.trigger_events(10);
    assert_eq!(fired.len(), 1);
    assert_eq!(fired[0].name(), "first");
    let _ = q.trigger_events(0);
}

#[test]
fn queue_from_bytes_empty_and_sentinel() {
    let empty = EventQueue::from_bytes(&[]).unwrap();
    assert_eq!(empty.to_bytes(), vec![0u8]);
    let only_sentinel = EventQueue::from_bytes(&[0u8]).unwrap();
    assert_eq!(only_sentinel.to_bytes(), vec![0u8]);
}

#[test]
fn queue_from_bytes_rejects_bad_records() {
    // A scheduled record whose trigger is cut short.
    let mut truncated = b"name\x00".to_vec();
    truncated.extend_from_slice(&[0u8; 5]);
    assert!(matches!(
        EventQueue::from_bytes(&truncated),
        Err(Error::InvalidEventQueueFile)
    ));

    // A scheduled record whose auto-delete byte is neither zero nor one.
    let mut bad_flag = b"name\x00".to_vec();
    let mut trigger = vec![0u8; 19];
    trigger[7] = 1;
    trigger[18] = 7;
    bad_flag.extend_from_slice(&trigger);
    assert!(matches!(
        EventQueue::from_bytes(&bad_flag),
        Err(Error::InvalidEventQueueFile)
    ));

    // A name that is not valid UTF-8.
    let mut bad_name = vec![0xFFu8, 0xFE];
    bad_name.push(0);
    bad_name.extend_from_slice(&[0u8; 18]);
    bad_name.push(1);
    assert!(matches!(EventQueue::from_bytes(&bad_name), Err(Error::InvalidUtf8)));
}

#[test]
fn queue_from_bytes_resorts_scheduled_events() {
    let late = event("late", Some(ScheduledTrigger::new(500, None, None, false)));
    let early = event("early", Some(ScheduledTrigger::new(5, None, None, false)));
    let mut bytes = Vec::new();
    bytes.extend_from_slice(&late.to_bytes());
    bytes.extend_from_slice(&early.to_bytes());
    bytes.push(0);
    let mut q = EventQueue::from_bytes(&bytes).unwrap();
    let fired = q.trigger_events(1000);
    let names: Vec<&str> = fired.iter().map(|e| e.name()).collect();
    assert_eq!(names, vec!["early", "late"]);
}

#[test]
fn remove_by_name_removes_all_matches() {
    let mut q = EventQueue::new(vec![
        event("keep", Some(ScheduledTrigger::new(10, None, None, false))),
        event("drop", Some(ScheduledTrigger::new(20, None, None, false))),
        event("drop", None),
    ]);
    q.remove_by_name("drop");
    let fired = q.trigger_events(1000);
    assert_eq!(fired.len(), 1);
    assert_eq!(fired[0].name(), "keep");
}

#[test]
fn obtain_filename_hashes_the_name() {
    let e = event("My Event", None);
    let mut hasher = DefaultHasher::new();
    "My Event".hash(&mut hasher);
    let expected = format!("{:016x}.mp3", hasher.finish());
    assert_eq!(e.obtain_filename(), expected);
    // Different names give different payload files.
    let other = event("Other", None);
    assert_ne!(e.obtain_filename(), other.obtain_filename());
}

#[test]
fn raw_next_trigger_parses_schedule_text() {
    assert_eq!(
        ScheduledTrigger::raw_next_trigger_from("2000-01-01T00:00:00"),
        Some(946684800)
    );
    assert_eq!(
        ScheduledTrigger::raw_next_trigger_from("2000-01-01T00:01"),
        Some(946684860)
    );
    // An unreadable seconds field falls back to zero.
    assert_eq!(
        ScheduledTrigger::raw_next_trigger_from("2000-01-01T00:01:xx"),
        Some(946684860)
    );
    assert_eq!(ScheduledTrigger::raw_next_trigger_from("too short"), None);
    assert_eq!(
        ScheduledTrigger::raw_next_trigger_from("2023-02-29T00:00:00"),
        None
    );
    assert_eq!(
        ScheduledTrigger::raw_next_trigger_from("1969-12-31T23:59:59"),
        None
    );
}

#[test]
fn next_trigger_formats_timestamp() {
    let t = ScheduledTrigger::new(946684800, None, None, false);
    assert_eq!(t.next_trigger(), "2000-01-01T00:00:00");
    let t2 = ScheduledTrigger::new(0, None, None, false);
    assert_eq!(t2.next_trigger(), "1970-01-01T00:00:00");
    let t3 = ScheduledTrigger::new(951782400 + 45296, None, None, false);
    assert_eq!(t3.next_trigger(), "2000-02-29T12:34:56");
}

#[test]
fn schedule_text_roundtrip() {
    let texts = ["2024-02-29T12:34:56", "1970-01-01T00:00:00", "2100-03-01T23:59:59"];
    for text in texts {
        let ts = ScheduledTrigger::raw_next_trigger_from(text).unwrap();
        let t = ScheduledTrigger::new(ts, None, None, false);
        assert_eq!(t.next_trigger(), text);
    }
}

#[test]
fn queue_csv_rows_sorted_by_name() {
    let q = EventQueue::new(vec![
        event("beta", Some(ScheduledTrigger::new(946684800, None, None, false))),
        event("alpha", None),
        event("gamma", Some(ScheduledTrigger::new(0, Some(5), None, false))),
    ]);
    let rows = q.get_queue_csv();
    assert_eq!(rows.len(), 3);
    assert_eq!(rows[0][0].as_string(), Some("alpha"));
    assert_eq!(rows[0][1].as_string(), Some("Not Scheduled"));
    assert_eq!(rows[1][0].as_string(), Some("beta"));
    assert_eq!(rows[1][1].as_string(), Some("2000-01-01T00:00:00"));
    assert_eq!(rows[2][0].as_string(), Some("gamma"));
    assert_eq!(rows[2][1].as_string(), Some("1970-01-01T00:00:00"));
}
