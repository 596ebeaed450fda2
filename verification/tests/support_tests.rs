//! Tests for severity classification, input validation, display formats,
//! report placeholders and the summary calculations.

use loggregate::analyse::calc::{max_log_count, max_log_occ, sum_of_log_occ};
use loggregate::analyse::dtfmt::{dt_fmt_pattern, dt_fmt_to_regex, get_dt_fmt, DateTimeCat};
use loggregate::analyse::loglevel::{
    make_loglevel_count_map, make_loglevel_count_vec_map, to_loglevel, LogLevel,
    LogLevelCountVecMap,
};
use loggregate::cli::{validate_input, Cli};
use loggregate::plot::get_tick_size;
use loggregate::report::{prepare_placeholder_map, replace_placeholders};
use loggregate::strutil::{i32_to_string, replace_all};

#[test]
fn classification_matches_synonyms() {
    assert_eq!(to_loglevel("INFO"), LogLevel::Info);
    assert_eq!(to_loglevel("INFORMATION"), LogLevel::Info);
    assert_eq!(to_loglevel("DEBUG"), LogLevel::Debug);
    assert_eq!(to_loglevel("WARNING"), LogLevel::Warning);
    assert_eq!(to_loglevel("WARN"), LogLevel::Warning);
    assert_eq!(to_loglevel("ERROR"), LogLevel::Error);
    assert_eq!(to_loglevel("NOTICE"), LogLevel::Notice);
    assert_eq!(to_loglevel("CRITICAL"), LogLevel::Critical);
    assert_eq!(to_loglevel("ALERT"), LogLevel::Alert);
    assert_eq!(to_loglevel("EMERGENCY"), LogLevel::Emergency);
}

#[test]
fn classification_ignores_case() {
    assert_eq!(to_loglevel("info"), LogLevel::Info);
    assert_eq!(to_loglevel("Warn"), LogLevel::Warning);
    assert_eq!(to_loglevel("eRrOr"), LogLevel::Error);
    assert_eq!(to_loglevel("emergency"), LogLevel::Emergency);
}

#[test]
fn classification_defaults_to_others() {
    assert_eq!(to_loglevel("TRACE"), LogLevel::Others);
    assert_eq!(to_loglevel(""), LogLevel::Others);
    assert_eq!(to_loglevel("INFO "), LogLevel::Others);
    assert_eq!(to_loglevel("ERR"), LogLevel::Others);
}

#[test]
fn fresh_count_tables_cover_all_levels() {
    let m = make_loglevel_count_map();
    assert_eq!(m.counts, vec![0; 9]);
    let v = make_loglevel_count_vec_map();
    assert_eq!(v.counts.len(), 9);
    for row in &v.counts {
        assert!(row.is_empty());
    }
}

#[test]
fn validate_input_accepts_complete_input() {
    let cli = Cli {
        datetime_str_format: String::from("%Y-%m-%d %H:%M:%S"),
        user: None,
        file_pattern: String::from("./*.log"),
    };
    assert_eq!(validate_input(&cli), Ok(true));
}

#[test]
fn validate_input_rejects_empty_fields() {
    let cli = Cli {
        datetime_str_format: String::from("%Y"),
        user: None,
        file_pattern: String::new(),
    };
    assert_eq!(
        validate_input(&cli),
        Err("No file pattern given, give a valid file pattern")
    );
    let cli = Cli {
        datetime_str_format: String::new(),
        user: Some(String::from("sam")),
        file_pattern: String::from("*.log"),
    };
    assert_eq!(
        validate_input(&cli),
        Err("Empty datetime string format given, give a valid datetime format")
    );
}

#[test]
fn display_formats_per_granularity() {
    assert_eq!(get_dt_fmt(&DateTimeCat::Seconds), "%Y-%m-%d %H:%M:%S");
    assert_eq!(get_dt_fmt(&DateTimeCat::Minutes), "%Y-%m-%d %H:%M");
    assert_eq!(get_dt_fmt(&DateTimeCat::Hours), "%Y-%m-%d %H:%M");
    assert_eq!(get_dt_fmt(&DateTimeCat::Days), "%Y-%m-%d");
    assert_eq!(get_dt_fmt(&DateTimeCat::Months), "%Y-%b");
    assert_eq!(get_dt_fmt(&DateTimeCat::Years), "%Y");
}

#[test]
fn tick_sizes_per_granularity() {
    assert_eq!(get_tick_size(&DateTimeCat::Seconds), 40);
    assert_eq!(get_tick_size(&DateTimeCat::Minutes), 35);
    assert_eq!(get_tick_size(&DateTimeCat::Hours), 35);
    assert_eq!(get_tick_size(&DateTimeCat::Days), 28);
    assert_eq!(get_tick_size(&DateTimeCat::Months), 25);
    assert_eq!(get_tick_size(&DateTimeCat::Years), 15);
}

#[test]
fn datetime_format_becomes_a_pattern() {
    assert_eq!(
        dt_fmt_pattern("%Y-%m-%d %H:%M:%S"),
        "\\d{4}-\\d{2}-\\d{2} \\d{2}:\\d{2}:\\d{2}"
    );
    assert_eq!(dt_fmt_pattern("%F"), "\\d{4}-\\d{2}-\\d{2}");
    assert_eq!(
        dt_fmt_pattern("%d/%b/%Y"),
        "\\d{2}/(?i)(jan|feb|mar|apr|may|jun|jul|aug|sep|oct|nov|dec)/\\d{4}"
    );
    // unknown specifiers and loose characters pass through unchanged
    assert_eq!(dt_fmt_pattern("%Q x%"), "%Q x%");
    assert_eq!(dt_fmt_pattern(""), "");
}

#[test]
fn compiled_pattern_finds_a_timestamp() {
    let re = dt_fmt_to_regex("%Y-%m-%d %H:%M:%S").unwrap();
    let line = "2024-01-01 00:00:05 ERROR something broke";
    let found = re.find(line).unwrap();
    assert_eq!(found.as_str(), "2024-01-01 00:00:05");
    // a line without a timestamp yields no match
    assert!(re.find("no timestamp here").is_none());
}

#[test]
fn summary_calculations() {
    let table = LogLevelCountVecMap {
        counts: vec![
            vec![0, 0],
            vec![0, 0],
            vec![0, 0],
            vec![2, 5],
            vec![1, 0],
            vec![0, 0],
            vec![3, 3],
            vec![0, 0],
            vec![0, 1],
        ],
    };
    assert_eq!(max_log_occ(&table, &LogLevel::Error), 5);
    assert_eq!(max_log_occ(&table, &LogLevel::Info), 3);
    assert_eq!(max_log_occ(&table, &LogLevel::Alert), 0);
    let totals = sum_of_log_occ(&table);
    assert_eq!(totals.get(&LogLevel::Error), 7);
    assert_eq!(totals.get(&LogLevel::Warning), 1);
    assert_eq!(totals.get(&LogLevel::Info), 6);
    assert_eq!(totals.get(&LogLevel::Others), 1);
    assert_eq!(totals.get(&LogLevel::Debug), 0);
    assert_eq!(max_log_count(&totals), 7);
}

#[test]
fn decimal_rendering() {
    assert_eq!(i32_to_string(0), "0");
    assert_eq!(i32_to_string(7), "7");
    assert_eq!(i32_to_string(120), "120");
    assert_eq!(i32_to_string(-13), "-13");
    assert_eq!(i32_to_string(i32::MAX), "2147483647");
    assert_eq!(i32_to_string(i32::MIN), "-2147483648");
}

#[test]
fn replacement_rewrites_all_occurrences() {
    assert_eq!(replace_all("a-b-c", "-", "+"), "a+b+c");
    assert_eq!(replace_all("aaaa", "aa", "b"), "bb");
    assert_eq!(replace_all("nothing", "xyz", "q"), "nothing");
}

#[test]
fn placeholder_table_and_substitution() {
    let mut totals = make_loglevel_count_map();
    // three errors, one warning observed
    totals.counts[3] = 3;
    totals.counts[4] = 1;
    let map = prepare_placeholder_map(2, 17, &totals, Some(String::from("sam")));
    assert_eq!(map.len(), 21);
    assert_eq!(map[0], (String::from("NO_OF_FILES"), String::from("2")));
    assert_eq!(map[1], (String::from("NO_OF_LOGS"), String::from("17")));
    assert_eq!(map[5], (String::from("NO_OF_ERROR"), String::from("3")));
    assert_eq!(map[6], (String::from("NO_OF_WARNING"), String::from("1")));
    assert_eq!(map[8], (String::from("NO_OF_INFO"), String::from("0")));
    assert_eq!(map[14], (String::from("ERROR_VISIBILITY"), String::from("")));
    assert_eq!(map[17], (String::from("INFO_VISIBILITY"), String::from("hide")));
    assert_eq!(map[20], (String::from("BY_USER"), String::from(" by sam")));
    let text = String::from("errors: {#NO_OF_ERROR#}{#BY_USER#}{#ERROR_VISIBILITY#}");
    let out = replace_placeholders(text, &map);
    assert_eq!(out, "errors: 3 by sam");
}

#[test]
fn placeholder_attribution_forms() {
    let totals = make_loglevel_count_map();
    let map = prepare_placeholder_map(0, 0, &totals, None);
    assert_eq!(map[20].1, "");
    let map = prepare_placeholder_map(0, 0, &totals, Some(String::new()));
    assert_eq!(map[20].1, "");
}
