use airflow_analytics::clock::Moment;
use airflow_analytics::load::read_dags;
use airflow_analytics::model::{Dag, RawRow};

/// Decodes an export the way the program does: columns by header name, empty
/// or unreadable numbers as missing.
fn rows_from_csv(text: &str) -> Vec<RawRow<Option<f64>>> {
    let mut reader = csv::Reader::from_reader(text.as_bytes());
    let headers = reader.headers().unwrap().clone();
    let mut rows = Vec::new();
    for record in reader.records() {
        let record = record.unwrap();
        let field = |name: &str| -> Option<String> {
            headers
                .iter()
                .position(|h| h == name)
                .and_then(|i| record.get(i))
                .filter(|f| !f.is_empty())
                .map(|f| f.to_string())
        };
        let number = |name: &str| field(name).and_then(|f| f.parse::<u32>().ok());
        rows.push(RawRow {
            dag_id: field("dag_id").unwrap_or_default(),
            fileloc: field("fileloc").unwrap_or_default(),
            last_parsed_time: field("last_parsed_time"),
            parse_seconds: field("parse_seconds").and_then(|f| f.parse::<f64>().ok()),
            version_number: number("version_number"),
            latest_version: number("latest_version"),
            version_count: number("version_count"),
            is_stale: field("is_stale"),
            version_created_at: field("version_created_at"),
        });
    }
    rows
}

fn read(text: &str) -> Vec<Dag<Option<f64>>> {
    read_dags(&rows_from_csv(text))
}

const CSV: &str = "\
\"dag_id\",\"fileloc\",\"last_parsed_time\",\"parse_seconds\",\"version_number\",\"bundle_name\",\"bundle_version\"
a-dev,/opt/airflow/dags/org/AP1-X/a.py,2026-09-23 10:00:00,4.5,3,dags-folder,
a-dev,/opt/airflow/dags/org/AP1-X/a.py,2026-09-23 10:00:00,4.5,2,dags-folder,
a-dev,/opt/airflow/dags/org/AP1-X/a.py,2026-09-23 10:00:00,4.5,1,dags-folder,
b-sit,/opt/airflow/dags/org/AP2-Y/b.py,,,1,dags-folder,
c-qa,/opt/airflow/dags/org/AP2-Y/c.py,2026-09-23 10:00:00,1.5,,,
";

fn at(secs: i64) -> Moment {
    Moment { secs, leap: false }
}

#[test]
fn reads_latest_version_export() {
    let csv = "\
dag_id,fileloc,last_parsed_time,parse_seconds,is_stale,latest_version,version_created_at,bundle_name,bundle_version
a-dev,/opt/airflow/dags/org/AP1-X/a.py,2026-09-23 10:00:00,4.5,f,7,2026-09-23 09:59:00,dags-folder,
";
    let dags = read(csv);
    assert_eq!(dags[0].versions, 7);
    assert_eq!(dags[0].is_stale, Some(false));
    assert_eq!(dags[0].parse_seconds, Some(4.5));
}

#[test]
fn reads_all_versions_export_with_extra_columns() {
    let csv = "\
dag_id,fileloc,last_parsed_time,parse_seconds,is_stale,bundle_name,bundle_version,version_number,version_created_at,latest_version,version_count,is_latest,seconds_since_prev_version
a-dev,/opt/airflow/dags/org/AP1-X/a.py,2026-09-23 10:00:00,4.5,f,dags-folder,,2,2026-09-23 09:59:00,2,2,t,3600.0
a-dev,/opt/airflow/dags/org/AP1-X/a.py,2026-09-23 10:00:00,4.5,f,dags-folder,,1,2026-09-23 08:59:00,2,2,f,
";
    let dags = read(csv);
    assert_eq!(dags.len(), 1);
    assert_eq!(dags[0].versions, 2);
    assert_eq!(dags[0].version_times.len(), 2);
    assert!(dags[0].version_times[0] < dags[0].version_times[1]);
}

#[test]
fn deduplicates_versions_and_keeps_missing_parse_time() {
    let dags = read(CSV);
    assert_eq!(dags.len(), 3);

    let a = &dags[0];
    assert_eq!(a.dag_id, "a-dev");
    assert_eq!(a.versions, 3);
    assert_eq!(a.parse_seconds, Some(4.5));
    assert_eq!(a.application, "AP1-X");
    assert_eq!(a.environment, "dev");

    let b = &dags[1];
    assert_eq!(b.parse_seconds, None);
    assert_eq!(b.last_parsed, None);

    let c = &dags[2];
    assert_eq!(c.versions, 0);
}

#[test]
fn newest_version_row_wins_whatever_the_row_order() {
    let csv = "\
dag_id,fileloc,last_parsed_time,parse_seconds,version_number,version_created_at
z-dev,/d/dags/AP1-X/z.py,2026-09-23 10:00:00,1.0,1,2026-09-23 08:59:00
y-qa,/d/dags/AP2-Y/y.py,2026-09-23 09:30:00,2.0,4,2026-09-23 09:30:00
z-dev,/d/dags/AP1-X/z_new.py,2026-09-23 10:00:00,3.0,5,2026-09-23 10:00:00
z-dev,/d/dags/AP1-X/z_mid.py,2026-09-23 10:00:00,2.5,3,
";
    let dags = read(csv);
    assert_eq!(dags.len(), 2);
    assert_eq!(dags[0].dag_id, "y-qa");
    assert_eq!(dags[1].dag_id, "z-dev");
    assert_eq!(dags[1].fileloc, "/d/dags/AP1-X/z_new.py");
    assert_eq!(dags[1].parse_seconds, Some(3.0));
    assert_eq!(dags[1].versions, 5);
    assert_eq!(dags[1].version_times, vec![at(1790153940), at(1790157600)]);
    assert_eq!(dags[1].last_parsed, Some(at(1790157600)));
}

#[test]
fn leap_second_sorts_between_its_neighbours() {
    let csv = "\
dag_id,fileloc,last_parsed_time,parse_seconds,version_number,version_created_at
l-dev,/d/dags/AP1-X/l.py,2026-09-23 23:59:60,1.0,1,2026-09-24 00:00:00
l-dev,/d/dags/AP1-X/l.py,2026-09-23 23:59:60,1.0,2,2026-09-23 23:59:60
l-dev,/d/dags/AP1-X/l.py,2026-09-23 23:59:60,1.0,3,2026-09-23 23:59:59
";
    let dags = read(csv);
    let leap = Moment { secs: 1790207999, leap: true };
    assert_eq!(dags[0].version_times, vec![at(1790207999), leap, at(1790208000)]);
    assert_eq!(dags[0].last_parsed, Some(leap));
}

#[test]
fn empty_export_has_no_dags() {
    let dags = read("dag_id,fileloc,last_parsed_time,parse_seconds\n");
    assert!(dags.is_empty());
}

#[test]
fn equal_versions_keep_the_first_row() {
    let csv = "\
dag_id,fileloc,last_parsed_time,parse_seconds,version_number,is_stale
q-dev,/d/dags/first.py,,,2,true
q-dev,/d/dags/second.py,,,2,false
";
    let dags = read(csv);
    assert_eq!(dags.len(), 1);
    assert_eq!(dags[0].fileloc, "/d/dags/first.py");
    assert_eq!(dags[0].is_stale, Some(true));
    assert_eq!(dags[0].application, "(root)");
}
