use loadtimer::errors::SampleError;
use loadtimer::stat::{parse_entry, read_user_sys_time, thread_ids_from_entries};

fn rec(utime: &str, stime: &str) -> Vec<u8> {
    format!("7 (cmd) S 1 7 7 0 -1 4194560 1000 0 0 0 {} {} 0 0 20 0 1 0", utime, stime)
        .into_bytes()
}

#[test]
fn parses_counters_at_offsets_13_and_14() {
    let t = read_user_sys_time(&rec("123", "456")).unwrap();
    assert_eq!(t.utime, 123);
    assert_eq!(t.stime, 456);
}

#[test]
fn parses_record_with_exactly_15_fields() {
    let t = read_user_sys_time(b"a b c d e f g h i j k l m 9 8").unwrap();
    assert_eq!(t.utime, 9);
    assert_eq!(t.stime, 8);
}

#[test]
fn rejects_record_with_fewer_than_15_fields() {
    let r = read_user_sys_time(b"1 2 3 4 5 6 7 8 9 10 11 12 13 14");
    assert_eq!(r.unwrap_err(), SampleError::MalformedSource);
}

#[test]
fn rejects_empty_record() {
    assert_eq!(read_user_sys_time(b"").unwrap_err(), SampleError::MalformedSource);
}

#[test]
fn rejects_non_numeric_utime() {
    let r = read_user_sys_time(&rec("12x", "456"));
    assert_eq!(r.unwrap_err(), SampleError::MalformedSource);
}

#[test]
fn rejects_non_numeric_stime() {
    let r = read_user_sys_time(&rec("123", ""));
    assert_eq!(r.unwrap_err(), SampleError::MalformedSource);
}

#[test]
fn rejects_signed_counter_field() {
    // counters are non-negative by definition; a sign is not a digit
    let r = read_user_sys_time(&rec("-5", "456"));
    assert_eq!(r.unwrap_err(), SampleError::MalformedSource);
}

#[test]
fn rejects_counter_overflowing_i64() {
    let r = read_user_sys_time(&rec("9223372036854775808", "0"));
    assert_eq!(r.unwrap_err(), SampleError::MalformedSource);
}

#[test]
fn accepts_counter_at_i64_max() {
    let t = read_user_sys_time(&rec("9223372036854775807", "0")).unwrap();
    assert_eq!(t.utime, i64::MAX);
    assert_eq!(t.stime, 0);
}

#[test]
fn adjacent_separators_make_empty_fields() {
    // the double space shifts the counters out of offsets 13 and 14
    let r = read_user_sys_time(b"a b c d e f g h i j k l  m 1 2");
    assert_eq!(r.unwrap_err(), SampleError::MalformedSource);
}

#[test]
fn parse_entry_reads_decimal_names() {
    assert_eq!(parse_entry(b"123"), Some(123));
    assert_eq!(parse_entry(b"0"), Some(0));
    assert_eq!(parse_entry(b"007"), Some(7));
}

#[test]
fn parse_entry_rejects_non_decimal_names() {
    assert_eq!(parse_entry(b""), None);
    assert_eq!(parse_entry(b"12a"), None);
    assert_eq!(parse_entry(b"-3"), None);
    assert_eq!(parse_entry(b"99999999999999999999999"), None);
}

#[test]
fn thread_ids_skip_process_and_junk_and_duplicates() {
    let entries: Vec<Vec<u8>> = vec![
        b"41".to_vec(),
        b"7".to_vec(),
        b"x".to_vec(),
        b"41".to_vec(),
        b"042".to_vec(),
        b"42".to_vec(),
    ];
    let ids = thread_ids_from_entries(7, &entries);
    assert_eq!(ids, vec![41, 42]);
}
