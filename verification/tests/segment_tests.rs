//! Tests of segment file naming: rendering, parsing, and directory scans.

use kvs::segment::{get_log_numbers, log_path, parse_log_name};

#[test]
fn log_path_renders_the_well_known_name() {
    assert_eq!(log_path("dir", 42), "dir/42.kvs.log");
    assert_eq!(log_path("/var/data", 0), "/var/data/0.kvs.log");
    assert_eq!(log_path("d", 18446744073709551615), "d/18446744073709551615.kvs.log");
}

#[test]
fn parse_accepts_canonical_names() {
    assert_eq!(parse_log_name(&"0.kvs.log".to_string()), Some(0));
    assert_eq!(parse_log_name(&"7.kvs.log".to_string()), Some(7));
    assert_eq!(parse_log_name(&"123.kvs.log".to_string()), Some(123));
    assert_eq!(
        parse_log_name(&"18446744073709551615.kvs.log".to_string()),
        Some(u64::MAX)
    );
}

#[test]
fn parse_rejects_other_names() {
    assert_eq!(parse_log_name(&"".to_string()), None);
    assert_eq!(parse_log_name(&"kvs.engine".to_string()), None);
    assert_eq!(parse_log_name(&"1.log".to_string()), None);
    assert_eq!(parse_log_name(&"01.kvs.log".to_string()), None);
    assert_eq!(parse_log_name(&"00.kvs.log".to_string()), None);
    assert_eq!(parse_log_name(&"abc.kvs.log".to_string()), None);
    assert_eq!(parse_log_name(&"1x.kvs.log".to_string()), None);
    assert_eq!(parse_log_name(&".kvs.log".to_string()), None);
    assert_eq!(parse_log_name(&"1.kvs.LOG".to_string()), None);
    // One past u64::MAX does not fit a segment id.
    assert_eq!(parse_log_name(&"18446744073709551616.kvs.log".to_string()), None);
}

#[test]
fn parse_inverts_rendering() {
    for n in [0u64, 1, 9, 10, 99, 100, 4096, u64::MAX] {
        let path = log_path("", n);
        let name = path.strip_prefix('/').unwrap().to_string();
        assert_eq!(parse_log_name(&name), Some(n));
    }
}

#[test]
fn get_log_numbers_filters_sorts_and_dedups() {
    let names: Vec<String> = [
        "9.kvs.log",
        "kvs.engine",
        "2.kvs.log",
        "notes.txt",
        "10.kvs.log",
        "2.kvs.log",
        "0.kvs.log",
        "03.kvs.log",
    ]
    .iter()
    .map(|s| s.to_string())
    .collect();
    assert_eq!(get_log_numbers(&names), vec![0, 2, 9, 10]);
}

#[test]
fn get_log_numbers_of_nothing_is_empty() {
    let names: Vec<String> = Vec::new();
    assert!(get_log_numbers(&names).is_empty());
}
