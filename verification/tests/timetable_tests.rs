use musiq::config::{default_config_bytes, Break, Configs, DailySchedule, Timetable};
use musiq::time::{Day, Time};
use musiq::Error;

fn default_configs_parsed() -> Configs {
    Configs::from_bytes(&default_config_bytes()).expect("default bytes must parse")
}

#[test]
fn break_pack_unpack_roundtrip() {
    let cases = [
        (0u8, 0u8, 0u8, 23u8, 59u8, 59u8),
        (7, 41, 0, 7, 50, 0),
        (12, 34, 56, 13, 0, 1),
        (0, 0, 1, 0, 0, 2),
    ];
    for (sh, sm, ss, eh, em, es) in cases {
        let b = Break::new(sh, sm, ss, eh, em, es).unwrap();
        let packed = b.to_bytes();
        let unpacked = Break::from_bytes(&packed).unwrap();
        assert_eq!(unpacked.start.elapsed_seconds(), b.start.elapsed_seconds());
        assert_eq!(unpacked.end.elapsed_seconds(), b.end.elapsed_seconds());
    }
}

#[test]
fn break_new_rejects_out_of_range() {
    assert!(Break::new(24, 0, 0, 0, 0, 0).is_none());
    assert!(Break::new(0, 60, 0, 0, 0, 0).is_none());
    assert!(Break::new(0, 0, 0, 0, 0, 60).is_none());
}

#[test]
fn timetable_bytes_roundtrip() {
    let cfg = default_configs_parsed();
    let tt_bytes = cfg.timetable().to_bytes();
    assert_eq!(tt_bytes.len(), 45);
    let tt = Timetable::from_bytes(&tt_bytes).unwrap();
    assert_eq!(tt.to_bytes(), tt_bytes);
}

#[test]
fn timetable_from_bytes_rejects_wrong_length() {
    assert!(Timetable::from_bytes(&[0u8; 44]).is_none());
    assert!(Timetable::from_bytes(&[0u8; 46]).is_none());
    assert!(Timetable::from_bytes(&[0u8; 45]).is_some());
}

#[test]
fn config_write_read_roundtrip() {
    for offset in -12i8..12 {
        let mut cfg = default_configs_parsed();
        assert!(cfg.set_utc_offset(offset));
        let bytes = cfg.write();
        let back = Configs::from_bytes(&bytes).expect("written bytes must parse");
        assert_eq!(back.utc_offset(), offset);
        assert_eq!(back.timetable().to_bytes(), cfg.timetable().to_bytes());
    }
}

#[test]
fn config_set_utc_offset_validates_range() {
    let mut cfg = default_configs_parsed();
    assert!(!cfg.set_utc_offset(12));
    assert!(!cfg.set_utc_offset(-13));
    assert!(cfg.set_utc_offset(-12));
    assert_eq!(cfg.utc_offset(), -12);
    assert!(cfg.set_utc_offset(11));
    assert_eq!(cfg.utc_offset(), 11);
}

#[test]
fn config_rejects_bad_magic() {
    let bytes = b"NUSIQ\x0aT".to_vec();
    assert!(matches!(Configs::from_bytes(&bytes), Err(Error::InvalidConfigFile)));
    assert!(matches!(Configs::from_bytes(b"MUS"), Err(Error::InvalidConfigFile)));
}

#[test]
fn config_rejects_unknown_tag_and_truncation() {
    let mut bytes = b"MUSIQ\x0a".to_vec();
    bytes.push(b'X');
    assert!(matches!(Configs::from_bytes(&bytes), Err(Error::InvalidConfigFile)));

    let mut truncated = b"MUSIQ\x0aT".to_vec();
    truncated.extend_from_slice(&[0u8; 10]);
    assert!(matches!(Configs::from_bytes(&truncated), Err(Error::InvalidConfigFile)));
}

#[test]
fn config_requires_both_records() {
    let mut only_tt = b"MUSIQ\x0aT".to_vec();
    only_tt.extend_from_slice(&[0u8; 45]);
    assert!(matches!(Configs::from_bytes(&only_tt), Err(Error::NoTimetableFound)));

    let only_offset = b"MUSIQ\x0aO\x02".to_vec();
    assert!(matches!(Configs::from_bytes(&only_offset), Err(Error::NoTimetableFound)));

    assert!(matches!(Configs::from_bytes(b"MUSIQ\x0a"), Err(Error::NoTimetableFound)));
}

#[test]
fn config_rejects_duplicate_records() {
    let mut bytes = b"MUSIQ\x0a".to_vec();
    bytes.push(b'O');
    bytes.push(2);
    bytes.push(b'O');
    bytes.push(3);
    assert!(matches!(Configs::from_bytes(&bytes), Err(Error::InvalidConfigFile)));
}

#[test]
fn default_config_layout() {
    let bytes = default_config_bytes();
    assert_eq!(bytes.len(), 54);
    assert_eq!(&bytes[0..6], b"MUSIQ\x0a");
    assert_eq!(bytes[6], b'T');
    assert_eq!(bytes[52], b'O');
    assert_eq!(bytes[53], 2);
    for d in 0..5 {
        assert_eq!(bytes[47 + d], 0b0111_1100);
    }
}

/// The default breaks with every window enabled every weekday, so that
/// break 0, the 07:41 to 07:50 window, is active Monday through Friday.
fn all_enabled_configs() -> Configs {
    let mut bytes = default_config_bytes();
    for d in 0..5 {
        bytes[47 + d] = 0xFF;
    }
    Configs::from_bytes(&bytes).expect("modified default bytes must parse")
}

#[test]
fn action_signals_break_edges() {
    let cfg = all_enabled_configs();
    let tt = cfg.timetable();
    let start = Time::from_hms(7, 41, 0).unwrap();
    let end = Time::from_hms(7, 50, 0).unwrap();
    let middle = Time::from_hms(7, 45, 0).unwrap();
    assert_eq!(tt.action(&start, &Day::Monday), Some(true));
    assert_eq!(tt.action(&end, &Day::Monday), Some(false));
    assert_eq!(tt.action(&middle, &Day::Monday), None);
    assert_eq!(tt.action(&start, &Day::Friday), Some(true));
}

#[test]
fn action_skips_disabled_breaks() {
    // In the stock default schedule byte, break 0 is disabled.
    let cfg = default_configs_parsed();
    let tt = cfg.timetable();
    let start = Time::from_hms(7, 41, 0).unwrap();
    assert_eq!(tt.action(&start, &Day::Monday), None);
    // Break 1, 08:36 to 08:40, is enabled there.
    let second = Time::from_hms(8, 36, 0).unwrap();
    assert_eq!(tt.action(&second, &Day::Monday), Some(true));
}

#[test]
fn action_is_silent_on_weekends() {
    let cfg = all_enabled_configs();
    let tt = cfg.timetable();
    let start = Time::from_hms(7, 41, 0).unwrap();
    assert_eq!(tt.action(&start, &Day::Saturday), None);
    assert_eq!(tt.action(&start, &Day::Sunday), None);
}

#[test]
fn daily_schedule_bits_map_msb_to_break_zero() {
    let d = DailySchedule::from_byte(&0b1000_0001);
    let bools = d.to_bools();
    assert!(bools[0]);
    assert!(!bools[1]);
    assert!(bools[7]);
    let back = DailySchedule::from_bools(bools);
    assert_eq!(back.to_byte(), 0b1000_0001);
}

#[test]
fn timetable_csv_roundtrip_through_setters() {
    let mut cfg = default_configs_parsed();
    let table = cfg.get_timetable_csv();
    assert_eq!(table.len(), 8);
    assert_eq!(table[0].len(), 5);
    let before = cfg.timetable().to_bytes();
    assert!(cfg.set_timetable_from_csv(table).is_some());
    assert_eq!(cfg.timetable().to_bytes(), before);
}

#[test]
fn breaks_csv_roundtrip_through_setters() {
    let mut cfg = default_configs_parsed();
    let rows = cfg.get_breaks_csv();
    assert_eq!(rows.len(), 8);
    assert_eq!(rows[0][0].as_string(), Some("07:41:00"));
    assert_eq!(rows[0][1].as_string(), Some("07:50:00"));
    let before = cfg.timetable().to_bytes();
    assert!(cfg.set_breaks_from_csv(rows).is_some());
    assert_eq!(cfg.timetable().to_bytes(), before);
}

#[test]
fn set_breaks_requires_exactly_eight_rows() {
    let mut cfg = default_configs_parsed();
    let mut rows = cfg.get_breaks_csv();
    rows.pop();
    assert!(cfg.set_breaks_from_csv(rows).is_none());
}

#[test]
fn set_timetable_rejects_short_rows() {
    let mut cfg = default_configs_parsed();
    let mut table = cfg.get_timetable_csv();
    table[3].pop();
    assert!(cfg.set_timetable_from_csv(table).is_none());
}

#[test]
fn time_from_str_reads_clock_text() {
    assert_eq!(Break::time_from_str("07:41:00"), Some((7, 41, 0)));
    assert_eq!(Break::time_from_str("23:59:59"), Some((23, 59, 59)));
    assert_eq!(Break::time_from_str("0741:00"), None);
    assert_eq!(Break::time_from_str("07:41"), None);
    assert_eq!(Break::time_from_str("aa:bb:cc"), None);
    assert_eq!(Break::time_from_str("300:00:00"), None);
}

#[test]
fn display_renders_table() {
    let cfg = all_enabled_configs();
    let text = cfg.timetable().display();
    let mut lines = text.lines();
    assert_eq!(lines.next(), Some("                 | M T W T F"));
    assert_eq!(lines.next(), Some("0. (07:41-07:50) | X X X X X"));
    assert_eq!(text.lines().count(), 9);

    let default_text = default_configs_parsed().timetable().display();
    assert!(default_text.contains("0. (07:41-07:50) | O O O O O"));
    assert!(default_text.contains("1. (08:36-08:40) | X X X X X"));
}

#[test]
fn decode_is_lenient_encode_is_canonical() {
    // Any 45 bytes decode; seconds fields wrap modulo one day and the six
    // unused bits of each five-byte block are dropped, so re-encoding such
    // a blob normalizes it rather than reproducing it.
    let mut bytes = [0u8; 45];
    bytes[2] = 0b0111_1110;
    let tt = Timetable::from_bytes(&bytes).unwrap();
    let encoded = tt.to_bytes();
    assert_eq!(encoded[2], 0);

    // A start field of exactly one day wraps to midnight.
    let mut wrap = [0u8; 45];
    // 86400 in the top 17 bits of the first block.
    let v: u64 = 86400u64 << 23;
    for (i, slot) in wrap.iter_mut().take(5).enumerate() {
        *slot = ((v >> (8 * (4 - i))) & 0xFF) as u8;
    }
    let tt2 = Timetable::from_bytes(&wrap).unwrap();
    let enc2 = tt2.to_bytes();
    assert_eq!(&enc2[0..5], &[0u8; 5]);
}
