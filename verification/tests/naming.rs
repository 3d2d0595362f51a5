use kvs::gen_list;
use kvs::log_file;
use kvs::parse_gen_name;

#[test]
fn file_names_are_decimal_with_a_log_suffix() {
    assert_eq!(log_file(1), "1.log");
    assert_eq!(log_file(0), "0.log");
    assert_eq!(log_file(42), "42.log");
    assert_eq!(log_file(1234567890), "1234567890.log");
    assert_eq!(log_file(u64::MAX), "18446744073709551615.log");
}

#[test]
fn parse_round_trips_canonical_names() {
    for gen in [0u64, 1, 9, 10, 99, 12345, u64::MAX] {
        assert_eq!(parse_gen_name(&log_file(gen)), Some(gen));
    }
}

#[test]
fn parse_rejects_everything_else() {
    assert_eq!(parse_gen_name(""), None);
    assert_eq!(parse_gen_name(".log"), None);
    assert_eq!(parse_gen_name("01.log"), None);
    assert_eq!(parse_gen_name("a.log"), None);
    assert_eq!(parse_gen_name("1.txt"), None);
    assert_eq!(parse_gen_name("1log"), None);
    assert_eq!(parse_gen_name("1.log.bak"), None);
    assert_eq!(parse_gen_name("-1.log"), None);
    assert_eq!(parse_gen_name("18446744073709551616.log"), None);
}

#[test]
fn gen_list_sorts_and_ignores_strangers() {
    let names = vec![
        "7.log".to_string(),
        "engine".to_string(),
        "2.log".to_string(),
        "notes.txt".to_string(),
        "10.log".to_string(),
        "2.log".to_string(),
        "02.log".to_string(),
    ];
    assert_eq!(gen_list(&names), vec![2, 7, 10]);
    assert_eq!(gen_list(&Vec::new()), Vec::<u64>::new());
}
