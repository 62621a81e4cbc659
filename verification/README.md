# airflow_analytics

Turns an Airflow 3 metadata export (the `dag` table joined with `dag_version`,
as CSV) into a self-contained HTML report about the DAG processor: how long
each DAG takes to parse, how long a full parse loop really takes, which DAGs
are removed, overdue or keep saving new versions, and when a deployed change
should show up.

## Layout

- `src/` is the library, written in Verus and verified:
  - `model.rs`: one exported row, the application and environment derived
    from a DAG's file location and id, booleans and timestamps of the export;
  - `load.rs`: folding the per-version rows into one DAG per id;
  - `analysis/dag_processor.rs`: rankings, freshness buckets, version
    activity, parse activity per 10-minute bin, removed DAGs per application
    and the summary counts;
  - `group.rs`, `order.rs`, `text.rs`: grouping by name, text order and the
    character-level helpers the above rely on;
  - `clock.rs`: the calendar work that `chrono` does, behind trusted wrappers;
  - `report.rs`: escaping the report data for an inline `<script>`.
- `app/` is the command-line program: argument handling, reading the CSV,
  the floating-point statistics (percentiles, histogram, Pareto shares) and
  writing the HTML page.
- `tests/` exercises the library on concrete exports.

Parse durations are floating point and stay in `app/`; the library carries
them through unread and takes integer order keys where a ranking needs them.
Times are whole seconds since 1970-01-01 00:00:00 on the export's clock, with
a flag for a leap second (`:60`); they are ordered and subtracted as chrono
orders and subtracts its date-times.
