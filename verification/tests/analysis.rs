use airflow_analytics::analysis::dag_processor::{
    active_parse_times, activity_counts, application_count, churn_key, count_distinct, freshness, is_suspect, next_parse_by,
    has_removed_flag, has_version_history, parse_activity, ranked, ranked_all, reference_time, removed_groups, seconds_between,
    summary_counts, suspect_key, to_facts, truncate, version_activity, version_counts,
};
use airflow_analytics::clock::Moment;
use airflow_analytics::load::read_dags;
use airflow_analytics::model::{Dag, RawRow};

fn rows_from_csv(text: &str) -> Vec<RawRow<Option<f64>>> {
    let mut reader = csv::Reader::from_reader(text.as_bytes());
    let headers = reader.headers().unwrap().clone();
    let mut rows = Vec::new();
    for record in reader.records() {
        let record = record.unwrap();
        let field = |name: &str| -> Option<String> {
            headers
                .iter()
                .position(|h| h == name)
                .and_then(|i| record.get(i))
                .filter(|f| !f.is_empty())
                .map(|f| f.to_string())
        };
        let number = |name: &str| field(name).and_then(|f| f.parse::<u32>().ok());
        rows.push(RawRow {
            dag_id: field("dag_id").unwrap_or_default(),
            fileloc: field("fileloc").unwrap_or_default(),
            last_parsed_time: field("last_parsed_time"),
            parse_seconds: field("parse_seconds").and_then(|f| f.parse::<f64>().ok()),
            version_number: number("version_number"),
            latest_version: number("latest_version"),
            version_count: number("version_count"),
            is_stale: field("is_stale"),
            version_created_at: field("version_created_at"),
        });
    }
    rows
}

const CSV: &str = "\
dag_id,fileloc,last_parsed_time,parse_seconds,version_number,bundle_name,bundle_version,is_stale
a-dev,/d/dags/AP1-X/a.py,2026-09-23 10:00:00,1.0,1,f,,false
b-dev,/d/dags/AP1-X/b.py,2026-09-23 09:30:00,2.0,5,f,,false
c-sit,/d/dags/AP2-Y/c.py,2026-09-21 10:00:00,40.0,1,f,,false
d-sit,/d/dags/AP2-Y/d.py,2026-09-23 10:00:00,57.0,2,f,,false
e-qa,/d/dags/AP2-Y/e.py,,,1,f,,false
f-sit,/d/dags/AP3-Z/f.py,2026-01-01 10:00:00,300.0,9,f,,true
g-dev,/d/dags/AP3-Z/g.py,,,1,f,,true
";

const HISTORY_CSV: &str = "\
dag_id,fileloc,last_parsed_time,parse_seconds,is_stale,version_number,version_created_at
h-dev,/d/dags/AP1-X/h.py,2026-09-23 09:59:00,1.0,false,1,2026-09-17 09:00:00
h-dev,/d/dags/AP1-X/h.py,2026-09-23 09:59:00,1.0,false,2,2026-09-19 09:00:00
h-dev,/d/dags/AP1-X/h.py,2026-09-23 09:59:00,1.0,false,3,2026-09-20 09:00:00
h-dev,/d/dags/AP1-X/h.py,2026-09-23 09:59:00,1.0,false,4,2026-09-22 12:00:00
h-dev,/d/dags/AP1-X/h.py,2026-09-23 09:59:00,1.0,false,5,2026-09-23 09:00:00
h-dev,/d/dags/AP1-X/h.py,2026-09-23 09:59:00,1.0,false,6,2026-09-23 09:58:30
i-dev,/d/dags/AP1-X/i.py,2026-09-23 10:00:00,2.0,false,1,2026-01-01 00:00:00
j-dev,/d/dags/AP1-X/j.py,2026-09-23 08:05:00,2.0,false,1,2026-01-01 00:00:00
k-dev,/d/dags/AP1-X/k.py,2026-09-23 09:00:00,2.0,true,1,2026-09-23 09:00:00
k-dev,/d/dags/AP1-X/k.py,2026-09-23 09:00:00,2.0,true,2,2026-09-23 09:01:00
k-dev,/d/dags/AP1-X/k.py,2026-09-23 09:00:00,2.0,true,3,2026-09-23 09:02:00
";

fn at(secs: i64) -> Moment {
    Moment { secs, leap: false }
}

fn leap_after(secs: i64) -> Moment {
    Moment { secs, leap: true }
}

fn dags(text: &str) -> Vec<Dag<Option<f64>>> {
    read_dags(&rows_from_csv(text))
}

fn removed(dags: &[Dag<Option<f64>>]) -> Vec<bool> {
    dags.iter().map(|d| d.is_stale == Some(true)).collect()
}

fn ids(dags: &[Dag<Option<f64>>]) -> Vec<String> {
    dags.iter().map(|d| d.dag_id.clone()).collect()
}

#[test]
fn reference_is_newest_parse() {
    assert_eq!(reference_time(&dags(CSV)), Some(at(1790157600)));
    assert_eq!(reference_time::<Option<f64>>(&Vec::new()), None);
}

#[test]
fn export_shape_flags() {
    assert!(has_removed_flag(&dags(CSV)));
    assert!(!has_version_history(&dags(CSV)));
    assert!(has_version_history(&dags(HISTORY_CSV)));
    let narrow = "dag_id,fileloc,last_parsed_time,parse_seconds\na-dev,/d/dags/a.py,,\n";
    assert!(!has_removed_flag(&dags(narrow)));
    assert!(!has_version_history(&dags(narrow)));
}

#[test]
fn rankings_are_truncated_and_ordered() {
    let d = dags(CSV);
    let names = ids(&d);
    let gone = removed(&d);
    let reference = reference_time(&d);
    let pick = |order: Vec<usize>| -> Vec<String> {
        order.iter().map(|&i| d[i].dag_id.clone()).collect()
    };

    let parse_keys: Vec<Option<i128>> = d
        .iter()
        .map(|r| r.parse_seconds.map(|s| (s * 1000.0) as i128))
        .collect();
    assert_eq!(pick(truncate(ranked(&names, &gone, &parse_keys), 2)), ["d-sit", "c-sit"]);

    let churn_keys: Vec<Option<i128>> = d
        .iter()
        .map(|r| (r.versions > 1).then_some(i128::from(r.versions)))
        .collect();
    assert_eq!(pick(truncate(ranked(&names, &gone, &churn_keys), 2)), ["b-dev", "d-sit"]);

    let overdue_keys: Vec<Option<i128>> = d
        .iter()
        .map(|r| seconds_between(r.last_parsed, reference).filter(|s| *s > 24 * 3600))
        .collect();
    assert_eq!(pick(ranked(&names, &gone, &overdue_keys)), ["c-sit"]);

    let removed_keys: Vec<Option<i128>> = d
        .iter()
        .map(|r| {
            (r.is_stale == Some(true))
                .then(|| seconds_between(r.last_parsed, reference).unwrap_or(i128::MAX))
        })
        .collect();
    assert_eq!(pick(ranked_all(&names, &removed_keys)), ["g-dev", "f-sit"]);
}

#[test]
fn summary_counts_of_facts() {
    let d = dags(CSV);
    let reference = reference_time(&d);
    let facts: Vec<_> = d
        .iter()
        .map(|r| {
            let age = seconds_between(r.last_parsed, reference);
            to_facts(
                r,
                reference,
                r.parse_seconds.is_some(),
                r.parse_seconds.is_some_and(|s| s > 30.0),
                age.is_some_and(|a| a > 24 * 3600),
                false,
            )
        })
        .collect();
    let c_sit = facts.iter().find(|f| f.dag_id == "c-sit").unwrap();
    assert_eq!(c_sit.age_seconds, Some(2 * 24 * 3600));
    assert!(c_sit.overdue && c_sit.over_timeout && !c_sit.removed);
    assert_eq!(c_sit.last_parsed.as_deref(), Some("2026-09-21 10:00:00"));
    let f_sit = facts.iter().find(|f| f.dag_id == "f-sit").unwrap();
    assert!(f_sit.removed && !f_sit.over_timeout && !f_sit.overdue);
    assert_eq!(f_sit.environment, "sit");
    assert_eq!(f_sit.application, "AP3-Z");

    let s = summary_counts(&facts);
    assert_eq!(s.dag_count, 5);
    assert_eq!(s.all_dag_count, 7);
    assert_eq!(s.removed_count, 2);
    assert_eq!(s.file_count, 5);
    assert_eq!(s.missing_count, 1);
    assert_eq!(s.parsed_count, 4);
    assert_eq!(s.parsed_count + s.missing_count, s.dag_count);
    assert_eq!(s.removed_missing_count, 1);
    assert_eq!(s.over_timeout_count, 2);
    assert_eq!(s.overdue_count, 1);
    assert_eq!(s.version_rows, 20);
    assert_eq!(s.max_versions, 5);
    assert_eq!(s.suspect_count, 0);
    assert!(s.missing_count <= s.dag_count);
    assert!(s.changed_at_last_parse_count + s.unchanged_at_last_parse_count <= s.dag_count);
    assert!(s.removed_missing_count <= s.removed_count);
    assert_eq!(s.changed_at_last_parse_count, 0);
    assert_eq!(s.unchanged_at_last_parse_count, 0);
}

#[test]
fn ranking_ties_break_by_id_then_row() {
    let names: Vec<String> = ["b", "a", "c", "a"].iter().map(|s| s.to_string()).collect();
    let keys = vec![Some(5), Some(5), None, Some(5)];
    assert_eq!(ranked_all(&names, &keys), vec![1, 3, 0]);
    let keys = vec![Some(1), Some(2), Some(3), Some(-4)];
    assert_eq!(ranked_all(&names, &keys), vec![2, 1, 0, 3]);
    assert_eq!(ranked(&names, &vec![false, true, false, false], &keys), vec![2, 0, 3]);
}

#[test]
fn truncate_keeps_a_prefix() {
    assert_eq!(truncate(vec![1, 2, 3], 2), vec![1, 2]);
    assert_eq!(truncate(vec![1, 2, 3], 5), vec![1, 2, 3]);
    assert_eq!(truncate(Vec::<u8>::new(), 0), Vec::<u8>::new());
}

#[test]
fn freshness_buckets() {
    let d = dags(CSV);
    let reference = reference_time(&d);
    let ages: Vec<Option<i128>> = d
        .iter()
        .filter(|r| r.is_stale != Some(true))
        .map(|r| seconds_between(r.last_parsed, reference))
        .collect();
    let f = freshness(&ages);
    let count = |label: &str| f.iter().find(|b| b.label == label).map(|b| b.count);
    assert_eq!(count("< 1 h"), Some(3));
    assert_eq!(count("1–6 h"), Some(0));
    assert_eq!(count("1–7 d"), Some(1));
    assert_eq!(count("> 7 d"), Some(0));
    assert_eq!(count("Never parsed"), Some(1));
    assert_eq!(f.iter().map(|b| b.count).sum::<usize>(), 5);
}

#[test]
fn freshness_bucket_edges() {
    let f = freshness(&vec![Some(3599), Some(3600), Some(21600), Some(86399), Some(604800)]);
    let counts: Vec<usize> = f.iter().map(|b| b.count).collect();
    assert_eq!(counts, [1, 1, 2, 0, 1]);
    assert_eq!(f.len(), 5);
}

#[test]
fn version_activity_and_suspects() {
    let d = dags(HISTORY_CSV);
    let reference = reference_time(&d);
    let h = d.iter().find(|r| r.dag_id == "h-dev").unwrap();
    let a = version_activity(h, reference);
    assert_eq!(a.versions_7d, 6);
    assert_eq!(a.versions_24h, 3);
    assert_eq!(a.weekend_versions_7d, 2);
    assert_eq!(a.last_changed.as_deref(), Some("2026-09-23 09:58:30"));
    assert_eq!(seconds_between(a.last_change, reference), Some(90));
    assert!(is_suspect(false, &a));

    let i = d.iter().find(|r| r.dag_id == "i-dev").unwrap();
    assert!(!is_suspect(false, &version_activity(i, reference)));
    let k = d.iter().find(|r| r.dag_id == "k-dev").unwrap();
    let ka = version_activity(k, reference);
    assert_eq!(ka.versions_24h, 3);
    assert!(!is_suspect(true, &ka));
}

#[test]
fn version_counts_need_a_reference() {
    let times = vec![at(1), at(2), at(3)];
    let c = version_counts(&times, &vec![Some(5), Some(6), Some(0)], None);
    assert_eq!((c.versions_24h, c.versions_7d, c.weekend_versions_7d), (0, 0, 0));
    let c = version_counts(&times, &vec![Some(5), Some(6), Some(0)], Some(at(3)));
    assert_eq!((c.versions_24h, c.versions_7d, c.weekend_versions_7d), (3, 3, 2));
}

#[test]
fn observed_activity_bins() {
    let d = dags(HISTORY_CSV);
    let reference = reference_time(&d).unwrap();
    let times = active_parse_times(&d);
    assert_eq!(times.len(), 3);
    let bins = parse_activity(&times, reference);
    assert_eq!(bins.len(), 13);
    assert_eq!(bins[0].start, "08:00");
    assert_eq!(bins.last().unwrap().start, "10:00");
    assert_eq!(bins.iter().map(|b| b.count).sum::<usize>(), 3);
    assert_eq!(bins[0].count, 1);
    assert_eq!(bins[11].count, 1);
    assert_eq!(bins[12].count, 1);
}

#[test]
fn activity_ignores_old_parses() {
    assert!(activity_counts(&vec![at(0), at(100)], at(100_000)).is_none());
    assert!(parse_activity(&vec![], at(100_000)).is_empty());
    let times = vec![at(599), at(600), at(1199), at(1800)];
    let (first, first_leap, counts) = activity_counts(&times, at(1800)).unwrap();
    assert_eq!((first, first_leap), (0, false));
    assert_eq!(counts, vec![1, 2, 0, 1]);
}

#[test]
fn removed_dags_grouped_by_application() {
    let d = dags(CSV);
    let apps: Vec<String> = d.iter().map(|r| r.application.clone()).collect();
    let files: Vec<String> = d.iter().map(|r| r.fileloc.clone()).collect();
    let groups = removed_groups(&apps, &files, &removed(&d));
    assert_eq!(groups.len(), 1);
    assert_eq!(groups[0].name, "AP3-Z");
    assert_eq!(groups[0].dags, 2);
    assert_eq!(groups[0].files, 2);
}

#[test]
fn removed_groups_order_and_distinct_files() {
    let s = |v: &[&str]| v.iter().map(|x| x.to_string()).collect::<Vec<String>>();
    let apps = s(&["B", "A", "B", "C", "A", "C"]);
    let files = s(&["b1", "a1", "b1", "c1", "a2", "c2"]);
    let removed = vec![true, true, true, true, true, false];
    let groups = removed_groups(&apps, &files, &removed);
    let summary: Vec<(String, usize, usize)> =
        groups.iter().map(|g| (g.name.clone(), g.dags, g.files)).collect();
    assert_eq!(
        summary,
        [
            ("A".to_string(), 2, 2),
            ("B".to_string(), 2, 1),
            ("C".to_string(), 1, 1)
        ]
    );
    let counted: usize = groups.iter().map(|g| g.dags).sum();
    assert_eq!(counted, removed.iter().filter(|r| **r).count());
}

#[test]
fn distinct_texts_counted_once() {
    let v = |s: &str| s.chars().collect::<Vec<char>>();
    assert_eq!(count_distinct(&vec![v("a"), v("b"), v("a"), v("")]), 3);
    assert_eq!(count_distinct(&vec![]), 0);
}

#[test]
fn next_parse_only_for_active_on_time_dags() {
    assert_eq!(
        next_parse_by(Some(at(1790157600)), false, false, 6840).as_deref(),
        Some("2026-09-23 11:54:00")
    );
    assert_eq!(next_parse_by(Some(at(1790157600)), true, false, 60), None);
    assert_eq!(next_parse_by(Some(at(1790157600)), false, true, 60), None);
    assert_eq!(next_parse_by(None, false, false, 60), None);
    assert_eq!(next_parse_by(Some(at(i64::MAX)), false, false, 60), None);
}

#[test]
fn leap_seconds_count_as_chrono_counts_them() {
    // 2026-09-23 23:59:59, its leap second, and the next midnight.
    let s59 = at(1790207999);
    let leap = leap_after(1790207999);
    let midnight = at(1790208000);
    assert_eq!(seconds_between(Some(s59), Some(leap)), Some(1));
    assert_eq!(seconds_between(Some(leap), Some(midnight)), Some(0));
    assert_eq!(seconds_between(Some(at(1790207998)), Some(leap)), Some(2));
    assert_eq!(seconds_between(Some(leap), Some(at(1790208005))), Some(5));
    assert_eq!(seconds_between(Some(leap), Some(leap)), Some(0));
    // From later in the day the leap second counts as its 59th second.
    let next_noon = at(1790208000 + 12 * 3600);
    assert_eq!(seconds_between(Some(leap), Some(next_noon)), Some(12 * 3600));
    // 12:34:60 seen from 12:35:00 of the same day.
    let noon_leap = leap_after(1790166899);
    assert_eq!(seconds_between(Some(noon_leap), Some(at(1790166900))), Some(1));
    assert_eq!(seconds_between(Some(at(1790166900)), Some(noon_leap)), Some(-1));
}

#[test]
fn leap_second_reference_and_next_parse() {
    let leap = leap_after(1790207999);
    assert_eq!(
        next_parse_by(Some(leap), false, false, 0).as_deref(),
        Some("2026-09-23 23:59:60")
    );
    assert_eq!(
        next_parse_by(Some(leap), false, false, 1).as_deref(),
        Some("2026-09-24 00:00:00")
    );
    assert_eq!(
        next_parse_by(Some(leap), false, false, -1).as_deref(),
        Some("2026-09-23 23:59:59")
    );
    // A version at the leap second lies within a day of a leap-second reference.
    let c = version_counts(&vec![at(1790121600), leap], &vec![Some(2), Some(2)], Some(leap));
    assert_eq!((c.versions_24h, c.versions_7d), (1, 2));
}

#[test]
fn leap_second_reference_can_leave_a_parse_past_the_last_bin() {
    // Reference 23:59:60; a parse at 23:40:00 starts the bins. chrono counts
    // the reference's bin start 23:50:00 as a leap second one second further
    // on, while the reference itself lands one bin past it.
    let leap = leap_after(1790207999);
    let times = vec![at(1790206800), leap];
    let (first, first_leap, counts) = activity_counts(&times, leap).unwrap();
    assert_eq!((first, first_leap), (1790206800, false));
    assert_eq!(counts, vec![1, 0]);
}

#[test]
fn applications_of_active_dags_counted_once() {
    let d = dags(CSV);
    let apps: Vec<String> = d.iter().map(|r| r.application.clone()).collect();
    assert_eq!(application_count(&apps, &removed(&d)), 2);
    assert_eq!(application_count(&apps, &vec![false; apps.len()]), 3);
    assert_eq!(application_count(&apps, &vec![true; apps.len()]), 0);
}

#[test]
fn churn_and_suspect_keys() {
    assert_eq!(churn_key(5), Some(5));
    assert_eq!(churn_key(1), None);
    assert_eq!(churn_key(0), None);
    assert_eq!(suspect_key(true, 6), Some(6));
    assert_eq!(suspect_key(false, 6), None);
}

#[test]
fn activity_chart_spans_at_most_73_bins() {
    // The reference at 10:00:00 and a parse one second inside the 12-hour
    // window, at 22:00:01 the day before.
    let reference = at(1790157600);
    let oldest = at(1790157600 - 43200 + 1);
    let bins = parse_activity(&vec![oldest, reference], reference);
    assert_eq!(bins.len(), 73);
    assert_eq!(bins.iter().map(|b| b.count).sum::<usize>(), 2);
    assert_eq!(bins[0].start, "22:00");
    assert_eq!(bins[72].start, "10:00");
    assert_eq!(bins[0].count, 1);
    assert_eq!(bins[72].count, 1);
}
