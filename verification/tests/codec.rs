use elma::utils::{
    parse_sub_table, parse_top10, string_null_pad, write_sub_table, write_top10, SUB_TABLE_SIZE,
    TOP10_SIZE,
};
use elma::{time_format, BestTimes, ElmaError, Position, Time, TimeEntry};

fn entry(time: i32, name_1: &str, name_2: &str) -> TimeEntry {
    TimeEntry { time: Time(time), names: (name_1.to_string(), name_2.to_string()) }
}

#[test]
fn test_lev_default_values_1() {
    let best_times = BestTimes::new();
    assert_eq!(best_times.single.len(), 0);
    assert_eq!(best_times.multi.len(), 0);
}

#[test]
fn test_rec_default_values_1() {
    let position: Position<i32> = Position::default();
    assert_eq!(position, Position { x: 0, y: 0 });
}

#[test]
fn test_trim_string_doc_example() {
    let cstring: [u8; 10] = [0x45, 0x6C, 0x6D, 0x61, 0x00, 0x00, 0x00, 0x7E, 0x7E, 0x7E];
    let trimmed = elma::utils::trim_string(&cstring).unwrap();
    assert_eq!(trimmed, "Elma");
}

#[test]
fn test_trim_string_no_null() {
    assert_eq!(elma::trim_string(b"abc").unwrap(), "abc");
    assert_eq!(elma::trim_string(b"").unwrap(), "");
}

#[test]
fn test_trim_string_invalid_encoding() {
    let bad: [u8; 3] = [0xFF, 0x10, 0x00];
    assert_eq!(elma::trim_string(&bad), Err(ElmaError::InvalidEncoding));
}

#[test]
fn test_string_null_pad_doc_example() {
    let string = String::from("Elma");
    let padded = string_null_pad(&string, 10).unwrap();
    assert_eq!(&padded, &[0x45, 0x6C, 0x6D, 0x61, 0x00, 0x00, 0x00, 0x00, 0x00, 0x00]);
}

#[test]
fn test_pad_trim_round_trip() {
    let padded = string_null_pad("Mongoose", 15).unwrap();
    assert_eq!(padded.len(), 15);
    assert_eq!(elma::utils::trim_string(&padded).unwrap(), "Mongoose");
}

#[test]
fn test_padding_too_short() {
    // A text of 16 bytes in a field of 15: one byte over budget.
    assert_eq!(string_null_pad("sixteen bytes!!!", 15), Err(ElmaError::PaddingTooShort(-1)));
    // Six bytes over budget.
    assert_eq!(
        string_null_pad("this text is sixteen!", 15),
        Err(ElmaError::PaddingTooShort(-6))
    );
}

#[test]
fn test_non_ascii() {
    assert_eq!(string_null_pad("café", 15), Err(ElmaError::NonASCII));
}

#[test]
fn test_time_format() {
    assert_eq!(time_format(0), "00:00,00");
    assert_eq!(time_format(2039), "00:20,39");
    assert_eq!(time_format(100), "00:01,00");
    assert_eq!(time_format(590039), "59:00,39");
}

#[test]
fn test_time_format_overflow() {
    // Seven or more digits do not fit: the last slot written is the leftmost,
    // so it ends up holding the leading digit.
    assert_eq!(time_format(1000000), "10:00,00");
    assert_eq!(time_format(12345678), "14:56,78");
}

#[test]
fn test_top10_round_trip() {
    let best_times = BestTimes {
        single: vec![entry(2039, "Anna", "Bert"), entry(4800, "Cleo", "")],
        multi: vec![entry(100, "Duo A", "Duo B")],
    };
    let bytes = write_top10(&best_times).unwrap();
    assert_eq!(bytes.len(), TOP10_SIZE);
    let parsed = parse_top10(&bytes).unwrap();
    assert_eq!(parsed.single.len(), 2);
    assert_eq!(parsed.single[0].time, Time(2039));
    assert_eq!(parsed.single[0].names.0, "Anna");
    assert_eq!(parsed.single[0].names.1, "Bert");
    assert_eq!(parsed.single[1].time, Time(4800));
    assert_eq!(parsed.single[1].names.0, "Cleo");
    assert_eq!(parsed.single[1].names.1, "");
    assert_eq!(parsed.multi.len(), 1);
    assert_eq!(parsed.multi[0].time, Time(100));
    assert_eq!(parsed.multi[0].names.0, "Duo A");
    assert_eq!(parsed.multi[0].names.1, "Duo B");
}

#[test]
fn test_negative_time_round_trip() {
    let best_times =
        BestTimes { single: vec![entry(-1, "A", "B")], multi: Vec::new() };
    let bytes = write_top10(&best_times).unwrap();
    // Count 1, then the little-endian two's-complement time.
    assert_eq!(&bytes[0..4], &[1, 0, 0, 0]);
    assert_eq!(&bytes[4..8], &[0xFF, 0xFF, 0xFF, 0xFF]);
    let parsed = parse_top10(&bytes).unwrap();
    assert_eq!(parsed.single[0].time, Time(-1));
}

#[test]
fn test_truncation() {
    let mut single = Vec::new();
    for i in 0..12 {
        single.push(entry(i * 100, &format!("racer{}", i), ""));
    }
    let best_times = BestTimes { single, multi: Vec::new() };
    let bytes = write_top10(&best_times).unwrap();
    // The count written is 10, not 12.
    assert_eq!(&bytes[0..4], &[10, 0, 0, 0]);
    let parsed = parse_top10(&bytes).unwrap();
    assert_eq!(parsed.single.len(), 10);
    assert_eq!(parsed.single[9].names.0, "racer9");
    for entry in &parsed.single {
        assert_ne!(entry.names.0, "racer10");
        assert_ne!(entry.names.0, "racer11");
    }
}

#[test]
fn test_empty_table() {
    let bytes = write_top10(&BestTimes::new()).unwrap();
    assert_eq!(bytes.len(), TOP10_SIZE);
    // Count 0, zero time slots, all-zero name columns: every byte is zero.
    for byte in &bytes {
        assert_eq!(*byte, 0);
    }
    let parsed = parse_top10(&bytes).unwrap();
    assert_eq!(parsed.single.len(), 0);
    assert_eq!(parsed.multi.len(), 0);
}

#[test]
fn test_write_error_aborts_whole_table() {
    // The single-player list is checked first, row by row, first name before
    // second: the non-ASCII second name of row 0 wins over the over-long
    // first name of row 1.
    let best_times = BestTimes {
        single: vec![entry(1, "ok", "café"), entry(2, "sixteen bytes!!!", "ok")],
        multi: Vec::new(),
    };
    assert_eq!(write_top10(&best_times), Err(ElmaError::NonASCII));

    let best_times = BestTimes {
        single: Vec::new(),
        multi: vec![entry(1, "sixteen bytes!!!", "ok")],
    };
    assert_eq!(write_top10(&best_times), Err(ElmaError::PaddingTooShort(-1)));
}

#[test]
fn test_eleventh_entry_never_fails() {
    // Entries past the tenth are dropped before validation, so a bad name
    // there cannot fail the write.
    let mut single = Vec::new();
    for i in 0..10 {
        single.push(entry(i, "ok", "ok"));
    }
    single.push(entry(10, "café", "ok"));
    let best_times = BestTimes { single, multi: Vec::new() };
    assert!(write_top10(&best_times).is_ok());
}

#[test]
fn test_parse_count_clamped() {
    // A negative stored count reads as empty; a count above 10 reads 10 rows.
    let mut buffer = vec![0u8; SUB_TABLE_SIZE];
    buffer[0] = 0xFB;
    buffer[1] = 0xFF;
    buffer[2] = 0xFF;
    buffer[3] = 0xFF;
    assert_eq!(parse_sub_table(&buffer).unwrap().len(), 0);
    let mut buffer = vec![0u8; SUB_TABLE_SIZE];
    buffer[0] = 99;
    assert_eq!(parse_sub_table(&buffer).unwrap().len(), 10);
}

#[test]
fn test_sub_table_layout() {
    // One entry: its time at offset 4, the names in their two columns.
    let entries = vec![entry(0x01020304, "Anna", "Bert")];
    let bytes = write_sub_table(&entries).unwrap();
    assert_eq!(bytes.len(), SUB_TABLE_SIZE);
    assert_eq!(&bytes[0..4], &[1, 0, 0, 0]);
    assert_eq!(&bytes[4..8], &[0x04, 0x03, 0x02, 0x01]);
    assert_eq!(&bytes[44..48], b"Anna");
    assert_eq!(bytes[48], 0);
    assert_eq!(&bytes[194..198], b"Bert");
    assert_eq!(bytes[198], 0);
}
