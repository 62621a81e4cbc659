use airflow_analytics::clock::Moment;
use airflow_analytics::model::{
    application_from_fileloc, environment_from_dag_id, format_timestamp, is_application_code,
    parse_bool, parse_timestamp, RawRow,
};

#[test]
fn application_prefers_ap_code() {
    assert_eq!(
        application_from_fileloc("/opt/airflow/dags/org/AP1234-ALPHA/qa_x.py"),
        "AP1234-ALPHA"
    );
    assert_eq!(
        application_from_fileloc("/opt/airflow/dags/AP9000-beta/factory/x.py"),
        "AP9000-beta"
    );
}

#[test]
fn application_falls_back_to_parent_dir() {
    assert_eq!(
        application_from_fileloc("/opt/airflow/dags/org/TEAM-SANDBOX/x.py"),
        "TEAM-SANDBOX"
    );
    assert_eq!(application_from_fileloc("/opt/airflow/dags/x.py"), "(root)");
}

#[test]
fn environment_from_suffix() {
    assert_eq!(environment_from_dag_id("org-report-dag-qa"), "qa");
    assert_eq!(environment_from_dag_id("org-report-dag-SIT"), "sit");
    assert_eq!(environment_from_dag_id("load_transfers"), "other");
}

#[test]
fn application_code_needs_digit_after_prefix() {
    assert!(is_application_code("AP1-X"));
    assert!(is_application_code("ap9"));
    assert!(!is_application_code("AP"));
    assert!(!is_application_code("APX1"));
    assert!(!is_application_code("BP12"));
}

#[test]
fn application_uses_first_dags_marker_and_first_code() {
    assert_eq!(
        application_from_fileloc("/d/dags/org/AP1-X/dags/AP2-Y/f.py"),
        "AP1-X"
    );
    assert_eq!(application_from_fileloc("relative/team/f.py"), "team");
    assert_eq!(application_from_fileloc("f.py"), "(root)");
    assert_eq!(application_from_fileloc("/d/dags/a/ap7-low/b/f.py"), "ap7-low");
}

#[test]
fn environment_uses_last_separator() {
    assert_eq!(environment_from_dag_id("a_b-PROD"), "prod");
    assert_eq!(environment_from_dag_id("x-nonprod"), "nonprod");
    assert_eq!(environment_from_dag_id("staging"), "staging");
    assert_eq!(environment_from_dag_id("report-"), "other");
    assert_eq!(environment_from_dag_id("dev-report"), "other");
}

#[test]
fn booleans_in_postgres_spellings() {
    assert_eq!(parse_bool("t"), Some(true));
    assert_eq!(parse_bool(" TRUE "), Some(true));
    assert_eq!(parse_bool("Yes"), Some(true));
    assert_eq!(parse_bool("1"), Some(true));
    assert_eq!(parse_bool("f"), Some(false));
    assert_eq!(parse_bool("False"), Some(false));
    assert_eq!(parse_bool("\tno\n"), Some(false));
    assert_eq!(parse_bool("0"), Some(false));
    assert_eq!(parse_bool(""), None);
    assert_eq!(parse_bool("maybe"), None);
}

fn at(secs: i64) -> Moment {
    Moment { secs, leap: false }
}

#[test]
fn timestamps_read_and_written() {
    assert_eq!(parse_timestamp("2026-09-23 10:00:00"), Some(at(1790157600)));
    assert_eq!(parse_timestamp("  2026-09-23 09:59:00 "), Some(at(1790157540)));
    assert_eq!(parse_timestamp("2026-09-23"), None);
    assert_eq!(parse_timestamp("not a time"), None);
    assert_eq!(
        format_timestamp(at(1790157600)).as_deref(),
        Some("2026-09-23 10:00:00")
    );
    assert_eq!(format_timestamp(at(0)).as_deref(), Some("1970-01-01 00:00:00"));
}

#[test]
fn leap_seconds_read_and_written() {
    let leap = parse_timestamp("2026-09-23 23:59:60").unwrap();
    assert_eq!(leap, Moment { secs: 1790207999, leap: true });
    assert_eq!(format_timestamp(leap).as_deref(), Some("2026-09-23 23:59:60"));
    let mid_day = parse_timestamp("2026-09-23 12:34:60").unwrap();
    assert!(mid_day.leap);
    assert_eq!(format_timestamp(mid_day).as_deref(), Some("2026-09-23 12:34:60"));
    assert_eq!(parse_timestamp("2026-09-23 12:34:61"), None);
}

fn row(
    version_number: Option<u32>,
    latest_version: Option<u32>,
    version_count: Option<u32>,
) -> RawRow<Option<f64>> {
    RawRow {
        dag_id: "a".to_string(),
        fileloc: "/d/dags/a.py".to_string(),
        last_parsed_time: None,
        parse_seconds: None,
        version_number,
        latest_version,
        version_count,
        is_stale: None,
        version_created_at: None,
    }
}

#[test]
fn version_key_and_count_fallbacks() {
    assert_eq!(row(Some(2), Some(5), None).version_key(), Some(2));
    assert_eq!(row(None, Some(5), None).version_key(), Some(5));
    assert_eq!(row(None, None, None).version_key(), None);
    assert_eq!(row(Some(2), Some(5), Some(4)).versions(), 4);
    assert_eq!(row(Some(2), Some(5), None).versions(), 5);
    assert_eq!(row(Some(2), None, None).versions(), 2);
    assert_eq!(row(None, None, None).versions(), 0);
}
