//! The DAG-processor analysis: rankings, groupings, counts and time windows
//! over the exported DAGs. Parse durations are floating point and stay with
//! the caller, which hands in integer order keys where a ranking needs them.

use vstd::prelude::*;

use crate::order::{
    lemma_text_lt_irreflexive, lemma_text_lt_total,
    lemma_text_lt_transitive, text_lt, text_precedes,
};
use crate::clock::{
    before, chrono_clock_text, chrono_day_of_week, chrono_format_clock, chrono_weekday,
    clock_text_of, elapsed, elapsed_between, elapsed_parts, elapsed_seconds, is_not_after,
    later_than_second, leap_secs, moment_text, nanos_of, not_after, option_text, representable,
    second_before, weekday_of_secs, Moment,
};
use crate::group::{
    group_indices, grouping_of, lemma_distinct_names_cover, lemma_members_bounds, members_named,
    rows_total, selected_count,
};
use crate::model::{format_timestamp, word_in, Dag};
use crate::text::{chars_of, same_chars, string_from_chars, views};

verus! {

// ---------------------------------------------------------------------------
// Rankings
// ---------------------------------------------------------------------------

/// Row `a` is listed before row `b`: larger key first, then smaller id, then
/// earlier row (the sort is stable).
pub open spec fn ranks_before(ids: Seq<Seq<char>>, keys: Seq<Option<i128>>, a: int, b: int) -> bool {
    let ka = keys[a]->0;
    let kb = keys[b]->0;
    ||| ka > kb
    ||| ka == kb && text_lt(ids[a], ids[b])
    ||| ka == kb && ids[a] == ids[b] && a < b
}

/// `order` lists exactly the rows that have a key, each once, in ranking order.
pub open spec fn ranking_of(order: Seq<usize>, ids: Seq<Seq<char>>, keys: Seq<Option<i128>>) -> bool {
    &&& forall|k: int| 0 <= k < order.len() ==> #[trigger] order[k] < keys.len() && keys[order[k] as int] is Some
    &&& forall|i: int| 0 <= i < keys.len() && keys[i] is Some ==> #[trigger] order.contains(i as usize)
    &&& forall|a: int, b: int| 0 <= a < b < order.len() ==> ranks_before(ids, keys, order[a] as int, order[b] as int)
}

proof fn lemma_ranks_before_transitive(ids: Seq<Seq<char>>, keys: Seq<Option<i128>>, a: int, b: int, c: int)
    requires
        ranks_before(ids, keys, a, b),
        ranks_before(ids, keys, b, c),
    ensures
        ranks_before(ids, keys, a, c),
{
    if keys[a]->0 == keys[b]->0 && keys[b]->0 == keys[c]->0 {
        if text_lt(ids[a], ids[b]) && text_lt(ids[b], ids[c]) {
            lemma_text_lt_transitive(ids[a], ids[b], ids[c]);
        }
    }
}

proof fn lemma_ranks_before_total(ids: Seq<Seq<char>>, keys: Seq<Option<i128>>, a: int, b: int)
    requires
        a != b,
    ensures
        ranks_before(ids, keys, a, b) || ranks_before(ids, keys, b, a),
{
    lemma_text_lt_total(ids[a], ids[b]);
}

proof fn lemma_ranks_before_irreflexive(ids: Seq<Seq<char>>, keys: Seq<Option<i128>>, a: int)
    ensures
        !ranks_before(ids, keys, a, a),
{
    lemma_text_lt_irreflexive(ids[a]);
}

fn listed_before(names: &Vec<Vec<char>>, keys: &Vec<Option<i128>>, a: usize, b: usize) -> (r: bool)
    requires
        a < names.len(),
        b < names.len(),
        names.len() == keys.len(),
        keys@[a as int] is Some,
        keys@[b as int] is Some,
    ensures
        r == ranks_before(views(names@), keys@, a as int, b as int),
{
    let ka = keys[a].unwrap();
    let kb = keys[b].unwrap();
    assert(views(names@)[a as int] == names@[a as int]@);
    assert(views(names@)[b as int] == names@[b as int]@);
    if ka > kb {
        true
    } else if ka < kb {
        false
    } else if text_precedes(&names[a], &names[b]) {
        true
    } else {
        same_chars(&names[a], &names[b]) && a < b
    }
}

proof fn lemma_insert_ranked(
    ns: Seq<Seq<char>>,
    keys: Seq<Option<i128>>,
    before: Seq<usize>,
    p: int,
    i: int,
)
    requires
        0 <= p <= before.len(),
        0 <= i < keys.len(),
        i <= usize::MAX,
        keys[i] is Some,
        forall|k: int| 0 <= k < before.len() ==> #[trigger] before[k] < i && keys[before[k] as int] is Some,
        forall|j: int| 0 <= j < i && keys[j] is Some ==> #[trigger] before.contains(j as usize),
        forall|a: int, b: int| 0 <= a < b < before.len() ==> ranks_before(ns, keys, before[a] as int, before[b] as int),
        forall|q: int| 0 <= q < p ==> ranks_before(ns, keys, before[q] as int, i),
        p == before.len() || ranks_before(ns, keys, i, before[p] as int),
    ensures
        ({
            let order = before.insert(p, i as usize);
            &&& forall|k: int| 0 <= k < order.len() ==> #[trigger] order[k] < i + 1 && keys[order[k] as int] is Some
            &&& forall|j: int| 0 <= j < i + 1 && keys[j] is Some ==> #[trigger] order.contains(j as usize)
            &&& forall|a: int, b: int| 0 <= a < b < order.len() ==> ranks_before(ns, keys, order[a] as int, order[b] as int)
        }),
{
    let order = before.insert(p, i as usize);
    before.insert_ensures(p, i as usize);
    assert forall|k: int| 0 <= k < order.len() implies #[trigger] order[k] < i + 1 && keys[order[k] as int] is Some by {
        if k < p {
            assert(order[k] == before[k]);
        } else if k > p {
            assert(order[k] == before[k - 1]);
        }
    }
    assert forall|j: int| 0 <= j < i + 1 && keys[j] is Some implies #[trigger] order.contains(j as usize) by {
        if j < i {
            assert(before.contains(j as usize));
            let k = choose|k: int| 0 <= k < before.len() && before[k] == j as usize;
            if k < p {
                assert(order[k] == before[k]);
                assert(order[k] == j as usize);
            } else {
                assert(order[k + 1] == before[k]);
                assert(order[k + 1] == j as usize);
            }
        } else {
            assert(order[p] == j as usize);
        }
    }
    assert forall|a: int, b: int| 0 <= a < b < order.len() implies ranks_before(ns, keys, order[a] as int, order[b] as int) by {
        if b < p {
            assert(order[a] == before[a]);
            assert(order[b] == before[b]);
        } else if b == p {
            assert(order[a] == before[a]);
        } else if a < p {
            assert(order[a] == before[a]);
            assert(order[b] == before[b - 1]);
            if b - 1 > p {
                lemma_ranks_before_transitive(ns, keys, i, before[p] as int, before[b - 1] as int);
            }
            lemma_ranks_before_transitive(ns, keys, before[a] as int, i, before[b - 1] as int);
        } else if a == p {
            assert(order[b] == before[b - 1]);
            if b - 1 > p {
                lemma_ranks_before_transitive(ns, keys, i, before[p] as int, before[b - 1] as int);
            }
        } else {
            assert(order[a] == before[a - 1]);
            assert(order[b] == before[b - 1]);
        }
    }
}

/// The characters of each string.
pub fn chars_of_all(items: &Vec<String>) -> (names: Vec<Vec<char>>)
    ensures
        names.len() == items.len(),
        forall|i: int| 0 <= i < items.len() ==> #[trigger] names@[i]@ == items@[i]@,
        views(names@) == items@.map_values(|s: String| s@),
{
    let mut names: Vec<Vec<char>> = Vec::new();
    let mut i: usize = 0;
    while i < items.len()
        invariant
            i <= items.len(),
            names.len() == i,
            forall|k: int| 0 <= k < i ==> #[trigger] names@[k]@ == items@[k]@,
        decreases items.len() - i,
    {
        names.push(chars_of(items[i].as_str()));
        i = i + 1;
    }
    assert(views(names@) =~= items@.map_values(|s: String| s@));
    names
}

/// Indices of the rows with a key, largest key first, ties by id and then by
/// row order.
pub fn ranked_all(ids: &Vec<String>, keys: &Vec<Option<i128>>) -> (order: Vec<usize>)
    requires
        ids.len() == keys.len(),
    ensures
        ranking_of(order@, ids@.map_values(|s: String| s@), keys@),
{
    let names = chars_of_all(ids);
    let ghost ns = views(names@);
    let mut order: Vec<usize> = Vec::new();
    let mut i: usize = 0;
    while i < keys.len()
        invariant
            names.len() == keys.len(),
            ns == views(names@),
            i <= keys.len(),
            forall|k: int| 0 <= k < order.len() ==> #[trigger] order@[k] < i && keys@[order@[k] as int] is Some,
            forall|j: int| 0 <= j < i && keys@[j] is Some ==> #[trigger] order@.contains(j as usize),
            forall|a: int, b: int| 0 <= a < b < order.len() ==> ranks_before(ns, keys@, order@[a] as int, order@[b] as int),
        decreases keys.len() - i,
    {
        if keys[i].is_some() {
            let mut p: usize = 0;
            while p < order.len() && !listed_before(&names, keys, i, order[p])
                invariant
                    names.len() == keys.len(),
                    ns == views(names@),
                    i < keys.len(),
                    keys@[i as int] is Some,
                    p <= order.len(),
                    forall|k: int| 0 <= k < order.len() ==> #[trigger] order@[k] < i && keys@[order@[k] as int] is Some,
                    forall|q: int| 0 <= q < p ==> ranks_before(ns, keys@, order@[q] as int, i as int),
                decreases order.len() - p,
            {
                proof {
                    lemma_ranks_before_total(ns, keys@, i as int, order@[p as int] as int);
                }
                p = p + 1;
            }
            let ghost before = order@;
            order.insert(p, i);
            proof {
                lemma_insert_ranked(ns, keys@, before, p as int, i as int);
            }
        } else {
            proof {
                assert forall|j: int| 0 <= j < i + 1 && keys@[j] is Some implies #[trigger] order@.contains(j as usize) by {
                }
            }
        }
        i = i + 1;
    }
    order
}

/// The ranking of the rows that have a key and are not removed.
pub open spec fn active_keys(removed: Seq<bool>, keys: Seq<Option<i128>>) -> Seq<Option<i128>> {
    Seq::new(keys.len(), |i: int| if removed[i] { None } else { keys[i] })
}

/// Indices of active rows with a key, sorted by key descending (ties by id).
pub fn ranked(ids: &Vec<String>, removed: &Vec<bool>, keys: &Vec<Option<i128>>) -> (order: Vec<usize>)
    requires
        ids.len() == keys.len(),
        removed.len() == keys.len(),
    ensures
        ranking_of(order@, ids@.map_values(|s: String| s@), active_keys(removed@, keys@)),
{
    let mut masked: Vec<Option<i128>> = Vec::new();
    let mut i: usize = 0;
    while i < keys.len()
        invariant
            removed.len() == keys.len(),
            i <= keys.len(),
            masked@ == active_keys(removed@, keys@).take(i as int),
        decreases keys.len() - i,
    {
        if removed[i] {
            masked.push(None);
        } else {
            masked.push(keys[i]);
        }
        i = i + 1;
        assert(masked@ =~= active_keys(removed@, keys@).take(i as int));
    }
    assert(masked@ =~= active_keys(removed@, keys@));
    ranked_all(ids, &masked)
}

/// The first `n` items (all of them when there are fewer).
pub fn truncate<T>(items: Vec<T>, n: usize) -> (kept: Vec<T>)
    ensures
        n <= items.len() ==> kept@ == items@.take(n as int),
        n > items.len() ==> kept@ == items@,
{
    let mut items = items;
    items.truncate(n);
    items
}

// ---------------------------------------------------------------------------
// Distinct values
// ---------------------------------------------------------------------------

/// How many different texts `s` holds.
pub open spec fn distinct_count(s: Seq<Seq<char>>) -> nat {
    s.to_set().len()
}

/// How many different texts `items` holds.
pub fn count_distinct(items: &Vec<Vec<char>>) -> (n: usize)
    ensures
        n == distinct_count(views(items@)),
{
    let mut seen: Vec<Vec<char>> = Vec::new();
    let mut i: usize = 0;
    while i < items.len()
        invariant
            i <= items.len(),
            views(seen@).no_duplicates(),
            views(seen@).to_set() == views(items@).take(i as int).to_set(),
            seen.len() <= i,
        decreases items.len() - i,
    {
        let ghost before = views(seen@);
        proof {
            assert(views(items@).take(i + 1) =~= views(items@).take(i as int).push(items@[i as int]@));
            views(items@).take(i as int).lemma_push_to_set_commute(items@[i as int]@);
        }
        if !word_in(&items[i], &seen) {
            let item = items[i].clone();
            seen.push(item);
            proof {
                assert(views(seen@) =~= before.push(items@[i as int]@));
                before.lemma_push_to_set_commute(items@[i as int]@);
            }
        } else {
            proof {
                assert(before.to_set().contains(items@[i as int]@));
                assert(before.to_set().insert(items@[i as int]@) =~= before.to_set());
            }
        }
        i = i + 1;
    }
    proof {
        assert(views(items@).take(items.len() as int) =~= views(items@));
        views(seen@).unique_seq_to_set();
    }
    seen.len()
}

/// The names of the active rows, in row order.
pub open spec fn active_names(names: Seq<Seq<char>>, removed: Seq<bool>, n: int) -> Seq<Seq<char>>
    decreases n,
{
    if n <= 0 {
        Seq::<Seq<char>>::empty()
    } else if !removed[n - 1] {
        active_names(names, removed, n - 1).push(names[n - 1])
    } else {
        active_names(names, removed, n - 1)
    }
}

/// How many different applications the active rows belong to.
pub fn application_count(applications: &Vec<String>, removed: &Vec<bool>) -> (n: usize)
    requires
        applications.len() == removed.len(),
    ensures
        n == distinct_count(
            active_names(applications@.map_values(|s: String| s@), removed@, applications.len() as int),
        ),
{
    let ghost apps = applications@.map_values(|s: String| s@);
    let mut names: Vec<Vec<char>> = Vec::new();
    let mut i: usize = 0;
    while i < applications.len()
        invariant
            i <= applications.len(),
            applications.len() == removed.len(),
            apps == applications@.map_values(|s: String| s@),
            views(names@) == active_names(apps, removed@, i as int),
        decreases applications.len() - i,
    {
        if !removed[i] {
            let ghost before = names@;
            let name = chars_of(applications[i].as_str());
            names.push(name);
            assert(views(names@) =~= views(before).push(apps[i as int]));
        }
        i = i + 1;
    }
    count_distinct(&names)
}

/// The churn ranking's key: the version count of a DAG with more than one
/// version.
pub fn churn_key(versions: u32) -> (k: Option<i128>)
    ensures
        k == (if versions > 1 { Some(versions as i128) } else { None }),
{
    if versions > 1 {
        Some(versions as i128)
    } else {
        None
    }
}

/// The suspect ranking's key: the new versions of the last 7 days of a
/// suspect DAG.
pub fn suspect_key(suspect: bool, versions_7d: u32) -> (k: Option<i128>)
    ensures
        k == (if suspect { Some(versions_7d as i128) } else { None }),
{
    if suspect {
        Some(versions_7d as i128)
    } else {
        None
    }
}

// ---------------------------------------------------------------------------
// Freshness
// ---------------------------------------------------------------------------

pub struct FreshnessBucket {
    pub label: String,
    pub count: usize,
}

/// Bucket of a time since the last parse, in seconds: under 1 h, 1–6 h,
/// 6–24 h, 1–7 d, over 7 d.
pub open spec fn freshness_index(age: i128) -> int {
    if age < 3600 {
        0
    } else if age < 21600 {
        1
    } else if age < 86400 {
        2
    } else if age < 604800 {
        3
    } else {
        4
    }
}

/// How many of the first `n` ages fall in bucket `k`.
pub open spec fn bucket_count(ages: Seq<Option<i128>>, k: int, n: int) -> nat
    decreases n,
{
    if n <= 0 {
        0
    } else {
        bucket_count(ages, k, n - 1) + match ages[n - 1] {
            Some(a) => if freshness_index(a) == k {
                1nat
            } else {
                0nat
            },
            None => 0nat,
        }
    }
}

/// How many of the first `n` rows were never parsed.
pub open spec fn never_count(ages: Seq<Option<i128>>, n: int) -> nat
    decreases n,
{
    if n <= 0 {
        0
    } else {
        never_count(ages, n - 1) + if ages[n - 1] is None {
            1nat
        } else {
            0nat
        }
    }
}

pub open spec fn freshness_label(k: int) -> Seq<char> {
    if k == 0 {
        seq!['<', ' ', '1', ' ', 'h']
    } else if k == 1 {
        seq!['1', '\u{2013}', '6', ' ', 'h']
    } else if k == 2 {
        seq!['6', '\u{2013}', '2', '4', ' ', 'h']
    } else if k == 3 {
        seq!['1', '\u{2013}', '7', ' ', 'd']
    } else if k == 4 {
        seq!['>', ' ', '7', ' ', 'd']
    } else {
        seq!['N', 'e', 'v', 'e', 'r', ' ', 'p', 'a', 'r', 's', 'e', 'd']
    }
}

fn freshness_label_text(k: usize) -> (label: String)
    ensures
        label@ == freshness_label(k as int),
{
    let chars = if k == 0 {
        vec!['<', ' ', '1', ' ', 'h']
    } else if k == 1 {
        vec!['1', '\u{2013}', '6', ' ', 'h']
    } else if k == 2 {
        vec!['6', '\u{2013}', '2', '4', ' ', 'h']
    } else if k == 3 {
        vec!['1', '\u{2013}', '7', ' ', 'd']
    } else if k == 4 {
        vec!['>', ' ', '7', ' ', 'd']
    } else {
        vec!['N', 'e', 'v', 'e', 'r', ' ', 'p', 'a', 'r', 's', 'e', 'd']
    };
    assert(chars@ =~= freshness_label(k as int));
    string_from_chars(&chars)
}

fn freshness_bucket(age: i128) -> (k: usize)
    ensures
        k == freshness_index(age),
{
    if age < 3600 {
        0
    } else if age < 21600 {
        1
    } else if age < 86400 {
        2
    } else if age < 604800 {
        3
    } else {
        4
    }
}

proof fn lemma_counts_bounded(ages: Seq<Option<i128>>, n: int)
    requires
        0 <= n <= ages.len(),
    ensures
        forall|k: int| #[trigger] bucket_count(ages, k, n) <= n,
        never_count(ages, n) <= n,
    decreases n,
{
    if n > 0 {
        lemma_counts_bounded(ages, n - 1);
        assert forall|k: int| #[trigger] bucket_count(ages, k, n) <= n by {
            assert(bucket_count(ages, k, n - 1) <= n - 1);
        }
    }
}

/// Rows per age bucket, then the never-parsed ones when there are any. Ages
/// are seconds from the last parse to the newest parse.
pub fn freshness(ages: &Vec<Option<i128>>) -> (buckets: Vec<FreshnessBucket>)
    ensures
        never_count(ages@, ages.len() as int) > 0 ==> buckets.len() == 6,
        never_count(ages@, ages.len() as int) == 0 ==> buckets.len() == 5,
        forall|k: int|
            0 <= k < 5 ==> #[trigger] buckets@[k].count == bucket_count(ages@, k, ages.len() as int)
                && buckets@[k].label@ == freshness_label(k),
        buckets.len() == 6 ==> buckets@[5].count == never_count(ages@, ages.len() as int)
            && buckets@[5].label@ == freshness_label(5),
{
    let mut counts: Vec<usize> = vec![0, 0, 0, 0, 0];
    let mut never: usize = 0;
    let mut i: usize = 0;
    while i < ages.len()
        invariant
            i <= ages.len(),
            counts.len() == 5,
            forall|k: int| 0 <= k < 5 ==> #[trigger] counts@[k] == bucket_count(ages@, k, i as int),
            never == never_count(ages@, i as int),
        decreases ages.len() - i,
    {
        proof {
            lemma_counts_bounded(ages@, i as int);
        }
        match ages[i] {
            Some(age) => {
                let k = freshness_bucket(age);
                let c = counts[k];
                counts.set(k, c + 1);
            },
            None => {
                never = never + 1;
            },
        }
        i = i + 1;
    }
    let mut buckets: Vec<FreshnessBucket> = Vec::new();
    let mut k: usize = 0;
    while k < 5
        invariant
            k <= 5,
            counts.len() == 5,
            buckets.len() == k,
            forall|j: int|
                0 <= j < k ==> #[trigger] buckets@[j].count == counts@[j] && buckets@[j].label@
                    == freshness_label(j),
        decreases 5 - k,
    {
        buckets.push(FreshnessBucket { label: freshness_label_text(k), count: counts[k] });
        k = k + 1;
    }
    if never > 0 {
        buckets.push(FreshnessBucket { label: freshness_label_text(5), count: never });
    }
    buckets
}

// ---------------------------------------------------------------------------
// Version activity
// ---------------------------------------------------------------------------

/// A new version averaging one a day for a week, or three in one day, rarely
/// comes from deploys alone.
pub const SUSPECT_MIN_VERSIONS_7D: u32 = 7;
pub const SUSPECT_MIN_VERSIONS_24H: u32 = 3;

pub open spec fn seconds_in_day() -> int {
    86400
}

pub open spec fn seconds_in_week() -> int {
    604800
}

/// `t` lies within `window` seconds before the reference: after the time
/// chrono gives for the reference minus the window.
pub open spec fn within(t: Moment, reference: Option<Moment>, window: int) -> bool {
    reference matches Some(r) && later_than_second(t, second_before(r, window))
}

/// How many of the first `n` times lie within `window` of the reference.
pub open spec fn count_within(times: Seq<Moment>, reference: Option<Moment>, window: int, n: int) -> nat
    decreases n,
{
    if n <= 0 {
        0
    } else {
        count_within(times, reference, window, n - 1) + if within(times[n - 1], reference, window) {
            1nat
        } else {
            0nat
        }
    }
}

/// Saturday (5) or Sunday (6), counted from Monday = 0.
pub open spec fn weekend_day(day: Option<u32>) -> bool {
    match day {
        Some(w) => w >= 5,
        None => false,
    }
}

/// How many of the first `n` times lie within the last week and fall on a
/// Saturday or Sunday.
pub open spec fn count_weekend(
    times: Seq<Moment>,
    weekdays: Seq<Option<u32>>,
    reference: Option<Moment>,
    n: int,
) -> nat
    decreases n,
{
    if n <= 0 {
        0
    } else {
        count_weekend(times, weekdays, reference, n - 1) + if within(
            times[n - 1],
            reference,
            seconds_in_week(),
        ) && weekend_day(weekdays[n - 1]) {
            1nat
        } else {
            0nat
        }
    }
}

/// Counts of new versions near the reference: within 24 hours, within 7 days,
/// and within 7 days on a weekend.
pub struct VersionCounts {
    pub versions_24h: u32,
    pub versions_7d: u32,
    pub weekend_versions_7d: u32,
}

fn is_within(t: Moment, reference: Option<Moment>, window: i64) -> (r: bool)
    requires
        0 <= window <= seconds_in_week(),
    ensures
        r == within(t, reference, window as int),
{
    match reference {
        Some(r) => {
            let leap: i128 = if r.leap { 1 } else { 0 };
            let start: i128 = (r.secs as i128) + leap - (window as i128);
            (t.secs as i128) > start || ((t.secs as i128) == start && t.leap)
        },
        None => false,
    }
}

proof fn lemma_version_counts_bounded(
    times: Seq<Moment>,
    weekdays: Seq<Option<u32>>,
    reference: Option<Moment>,
    n: int,
)
    requires
        0 <= n <= times.len(),
    ensures
        count_within(times, reference, seconds_in_day(), n) <= n,
        count_within(times, reference, seconds_in_week(), n) <= n,
        count_weekend(times, weekdays, reference, n) <= n,
    decreases n,
{
    if n > 0 {
        lemma_version_counts_bounded(times, weekdays, reference, n - 1);
    }
}

/// Counts new versions near the reference, given each version's weekday.
pub fn version_counts(times: &Vec<Moment>, weekdays: &Vec<Option<u32>>, reference: Option<Moment>) -> (c: VersionCounts)
    requires
        times.len() == weekdays.len(),
    ensures
        c.versions_24h == count_within(times@, reference, seconds_in_day(), times.len() as int) as u32,
        c.versions_7d == count_within(times@, reference, seconds_in_week(), times.len() as int) as u32,
        c.weekend_versions_7d == count_weekend(times@, weekdays@, reference, times.len() as int) as u32,
{
    let mut day: usize = 0;
    let mut week: usize = 0;
    let mut weekend: usize = 0;
    let mut i: usize = 0;
    while i < times.len()
        invariant
            times.len() == weekdays.len(),
            i <= times.len(),
            day == count_within(times@, reference, seconds_in_day(), i as int),
            week == count_within(times@, reference, seconds_in_week(), i as int),
            weekend == count_weekend(times@, weekdays@, reference, i as int),
        decreases times.len() - i,
    {
        proof {
            lemma_version_counts_bounded(times@, weekdays@, reference, i as int);
        }
        let t = times[i];
        if is_within(t, reference, 86400) {
            day = day + 1;
        }
        if is_within(t, reference, 604800) {
            week = week + 1;
            match weekdays[i] {
                Some(w) => {
                    if w >= 5 {
                        weekend = weekend + 1;
                    }
                },
                None => {},
            }
        }
        i = i + 1;
    }
    VersionCounts {
        versions_24h: day as u32,
        versions_7d: week as u32,
        weekend_versions_7d: weekend as u32,
    }
}

/// What the version history of one DAG says near the reference time.
pub struct VersionActivity {
    pub versions_24h: u32,
    pub versions_7d: u32,
    pub weekend_versions_7d: u32,
    /// The latest version's creation time, written out.
    pub last_changed: Option<String>,
    /// The latest version's creation time.
    pub last_change: Option<Moment>,
}

/// chrono's weekday of each time.
pub open spec fn weekdays_of(times: Seq<Moment>) -> Seq<Option<u32>> {
    times.map_values(|t: Moment| chrono_weekday(t.secs, nanos_of(t)))
}

/// Within chrono's range the weekday of each time is the one the calendar
/// gives (see `weekday_of_secs`).
pub open spec fn weekdays_known(times: Seq<Moment>) -> bool {
    forall|k: int|
        0 <= k < times.len() && representable(times[k].secs, nanos_of(times[k])) ==> #[trigger] chrono_weekday(
            times[k].secs,
            nanos_of(times[k]),
        ) == Some(weekday_of_secs(times[k].secs as int) as u32)
}

/// New versions within 24 hours and 7 days of the reference, those of the
/// week created on a weekend, and the latest version's time.
pub fn version_activity<P>(dag: &Dag<P>, reference: Option<Moment>) -> (a: VersionActivity)
    ensures
        a.versions_24h == count_within(dag.version_times@, reference, seconds_in_day(), dag.version_times.len() as int) as u32,
        a.versions_7d == count_within(dag.version_times@, reference, seconds_in_week(), dag.version_times.len() as int) as u32,
        a.weekend_versions_7d == count_weekend(dag.version_times@, weekdays_of(dag.version_times@), reference, dag.version_times.len() as int) as u32,
        dag.version_times.len() == 0 ==> a.last_change is None && a.last_changed is None,
        dag.version_times.len() > 0 ==> a.last_change == Some(dag.version_times@.last())
            && option_text(a.last_changed) == moment_text(dag.version_times@.last()),
        weekdays_known(dag.version_times@),
{
    let times = &dag.version_times;
    let mut weekdays: Vec<Option<u32>> = Vec::new();
    let mut i: usize = 0;
    while i < times.len()
        invariant
            i <= times.len(),
            weekdays@ == weekdays_of(times@).take(i as int),
            weekdays_known(times@.take(i as int)),
        decreases times.len() - i,
    {
        let t = times[i];
        let nanos: u32 = if t.leap {
            1_000_000_000
        } else {
            0
        };
        let w = chrono_day_of_week(t.secs, nanos);
        weekdays.push(w);
        proof {
            let prev = times@.take(i as int);
            let cur = times@.take(i + 1);
            assert forall|k: int|
                0 <= k < cur.len() && representable(cur[k].secs, nanos_of(cur[k])) implies #[trigger] chrono_weekday(
                cur[k].secs,
                nanos_of(cur[k]),
            ) == Some(weekday_of_secs(cur[k].secs as int) as u32) by {
                if k < i {
                    assert(cur[k] == prev[k]);
                } else {
                    assert(cur[k] == t);
                }
            }
        }
        i = i + 1;
        assert(weekdays@ =~= weekdays_of(times@).take(i as int));
    }
    assert(weekdays@ =~= weekdays_of(times@));
    assert(times@.take(times.len() as int) =~= times@);
    let counts = version_counts(times, &weekdays, reference);
    let (last_change, last_changed) = if times.len() > 0 {
        let latest = times[times.len() - 1];
        (Some(latest), format_timestamp(latest))
    } else {
        (None, None)
    };
    VersionActivity {
        versions_24h: counts.versions_24h,
        versions_7d: counts.versions_7d,
        weekend_versions_7d: counts.weekend_versions_7d,
        last_changed,
        last_change,
    }
}

/// A DAG that keeps saving new versions without being removed: likely its
/// definition changes on every parse.
pub open spec fn suspect_of(removed: bool, versions_7d: u32, versions_24h: u32) -> bool {
    !removed && (versions_7d >= 7 || versions_24h >= 3)
}

pub fn is_suspect(removed: bool, activity: &VersionActivity) -> (s: bool)
    ensures
        s == suspect_of(removed, activity.versions_7d, activity.versions_24h),
{
    !removed && (activity.versions_7d >= SUSPECT_MIN_VERSIONS_7D || activity.versions_24h
        >= SUSPECT_MIN_VERSIONS_24H)
}

// ---------------------------------------------------------------------------
// Times of the export
// ---------------------------------------------------------------------------

/// The newest of the first `n` parse times.
pub open spec fn newest_parse<P>(dags: Seq<Dag<P>>, n: int) -> Option<Moment>
    decreases n,
{
    if n <= 0 {
        None
    } else {
        let prev = newest_parse(dags, n - 1);
        match dags[n - 1].last_parsed {
            None => prev,
            Some(t) => match prev {
                Some(p) => if before(p, t) {
                    Some(t)
                } else {
                    Some(p)
                },
                None => Some(t),
            },
        }
    }
}

/// The newest `last_parsed` of the export: ages are measured against it.
pub fn reference_time<P>(dags: &Vec<Dag<P>>) -> (r: Option<Moment>)
    ensures
        r == newest_parse(dags@, dags.len() as int),
{
    let mut newest: Option<Moment> = None;
    let mut i: usize = 0;
    while i < dags.len()
        invariant
            i <= dags.len(),
            newest == newest_parse(dags@, i as int),
        decreases dags.len() - i,
    {
        match dags[i].last_parsed {
            None => {},
            Some(t) => {
                newest = match newest {
                    Some(p) => if !is_not_after(t, p) {
                        Some(t)
                    } else {
                        Some(p)
                    },
                    None => Some(t),
                };
            },
        }
        i = i + 1;
    }
    newest
}

/// Seconds from `from` to `to` as chrono counts them (`to - from`), when both
/// are known.
pub fn seconds_between(from: Option<Moment>, to: Option<Moment>) -> (d: Option<i128>)
    ensures
        d == gap(from, to),
{
    match (from, to) {
        (Some(a), Some(b)) => Some(elapsed_seconds(b, a)),
        _ => None,
    }
}

/// Parse times of the DAGs that are not removed, in DAG order.
pub open spec fn active_times<P>(dags: Seq<Dag<P>>, n: int) -> Seq<Moment>
    decreases n,
{
    if n <= 0 {
        Seq::<Moment>::empty()
    } else {
        let prev = active_times(dags, n - 1);
        if dags[n - 1].is_stale != Some(true) && dags[n - 1].last_parsed is Some {
            prev.push(dags[n - 1].last_parsed->0)
        } else {
            prev
        }
    }
}

/// Whether the export has a version history: some DAG carries more than one
/// version's creation time.
pub fn has_version_history<P>(dags: &Vec<Dag<P>>) -> (r: bool)
    ensures
        r == exists|k: int| 0 <= k < dags.len() && #[trigger] dags@[k].version_times.len() > 1,
{
    let mut i: usize = 0;
    while i < dags.len()
        invariant
            i <= dags.len(),
            forall|k: int| 0 <= k < i ==> #[trigger] dags@[k].version_times.len() <= 1,
        decreases dags.len() - i,
    {
        if dags[i].version_times.len() > 1 {
            return true;
        }
        i = i + 1;
    }
    false
}

/// Whether the export has the `is_stale` column: some DAG carries the flag.
pub fn has_removed_flag<P>(dags: &Vec<Dag<P>>) -> (r: bool)
    ensures
        r == exists|k: int| 0 <= k < dags.len() && #[trigger] dags@[k].is_stale is Some,
{
    let mut i: usize = 0;
    while i < dags.len()
        invariant
            i <= dags.len(),
            forall|k: int| 0 <= k < i ==> #[trigger] dags@[k].is_stale is None,
        decreases dags.len() - i,
    {
        if dags[i].is_stale.is_some() {
            return true;
        }
        i = i + 1;
    }
    false
}

/// The parse times of active DAGs.
pub fn active_parse_times<P>(dags: &Vec<Dag<P>>) -> (times: Vec<Moment>)
    ensures
        times@ == active_times(dags@, dags.len() as int),
{
    let mut times: Vec<Moment> = Vec::new();
    let mut i: usize = 0;
    while i < dags.len()
        invariant
            i <= dags.len(),
            times@ == active_times(dags@, i as int),
        decreases dags.len() - i,
    {
        let stale = match dags[i].is_stale {
            Some(b) => b,
            None => false,
        };
        if !stale {
            match dags[i].last_parsed {
                Some(t) => times.push(t),
                None => {},
            }
        }
        i = i + 1;
    }
    times
}

/// The whole second chrono gives for `t + n seconds`: a leap second stays put
/// when nothing is added, and leaves its minute otherwise (forward from its
/// 59th second, backward from the next minute).
pub open spec fn advanced_secs(t: Moment, n: int) -> int {
    if n == 0 {
        t.secs as int
    } else if n > 0 {
        t.secs + n
    } else {
        t.secs + leap_secs(t) + n
    }
}

/// Roughly the latest time the next parse of an active, non-overdue DAG
/// should happen: its last parse plus the observed loop length (seconds).
pub fn next_parse_by(last_parsed: Option<Moment>, removed: bool, overdue: bool, loop_seconds: i64) -> (next: Option<String>)
    ensures
        (removed || overdue || last_parsed is None) ==> next is None,
        !removed && !overdue && last_parsed is Some ==> {
            let t = last_parsed->0;
            let due = advanced_secs(t, loop_seconds as int);
            if i64::MIN <= due <= i64::MAX {
                option_text(next) == moment_text(
                    Moment { secs: due as i64, leap: loop_seconds == 0 && t.leap },
                )
            } else {
                next is None
            }
        },
{
    if removed || overdue {
        return None;
    }
    match last_parsed {
        Some(t) => {
            if loop_seconds == 0 {
                return format_timestamp(t);
            }
            let back: i128 = if loop_seconds < 0 && t.leap {
                1
            } else {
                0
            };
            let due: i128 = (t.secs as i128) + back + (loop_seconds as i128);
            if (i64::MIN as i128) <= due && due <= (i64::MAX as i128) {
                format_timestamp(Moment { secs: due as i64, leap: false })
            } else {
                None
            }
        },
        None => None,
    }
}

// ---------------------------------------------------------------------------
// Parse activity
// ---------------------------------------------------------------------------

/// Active DAGs whose last parse falls in one 10-minute bin; `start` is the
/// bin's first minute as `%H:%M`.
pub struct ActivityBin {
    pub start: String,
    pub count: usize,
}

/// Parses count towards the activity chart when they come after the
/// reference minus 12 hours.
pub open spec fn is_recent(t: Moment, reference: Moment) -> bool {
    later_than_second(t, second_before(reference, 43200))
}

/// The oldest recent time among the first `n`.
pub open spec fn oldest_recent(times: Seq<Moment>, reference: Moment, n: int) -> Option<Moment>
    decreases n,
{
    if n <= 0 {
        None
    } else {
        let prev = oldest_recent(times, reference, n - 1);
        if is_recent(times[n - 1], reference) {
            match prev {
                Some(o) => if before(times[n - 1], o) {
                    Some(times[n - 1])
                } else {
                    Some(o)
                },
                None => Some(times[n - 1]),
            }
        } else {
            prev
        }
    }
}

/// Start of the 10-minute bin of the clock that holds `t` (seconds and minute
/// set back; a leap second stays one).
pub open spec fn bin_floor(t: int) -> int {
    t - t % 600
}

/// Rust's integer `/`: rounds toward zero.
pub open spec fn div_toward_zero(x: int, d: int) -> int {
    if x >= 0 {
        x / d
    } else {
        -((-x) / d)
    }
}

/// Whole 10-minute steps in `e` seconds, as chrono's `num_minutes() / 10`.
pub open spec fn ten_minute_steps(e: int) -> int {
    div_toward_zero(div_toward_zero(e, 60), 10)
}

/// The bin of `t`, bins counted in 10-minute steps from `first`.
pub open spec fn bin_index(t: Moment, first: int, first_leap: bool) -> int {
    ten_minute_steps(elapsed_parts(t.secs as int, t.leap, first, first_leap))
}

/// The number of bins: from `first` up to the reference's bin.
pub open spec fn bin_total(reference: Moment, first: int, first_leap: bool) -> int {
    ten_minute_steps(elapsed_parts(bin_floor(reference.secs as int), reference.leap, first, first_leap)) + 1
}

/// How many of the first `n` recent times fall in bin `k`.
pub open spec fn bin_count(times: Seq<Moment>, reference: Moment, first: int, first_leap: bool, k: int, n: int) -> nat
    decreases n,
{
    if n <= 0 {
        0
    } else {
        bin_count(times, reference, first, first_leap, k, n - 1) + if is_recent(times[n - 1], reference)
            && bin_index(times[n - 1], first, first_leap) == k {
            1nat
        } else {
            0nat
        }
    }
}

proof fn lemma_floor(x: int)
    ensures
        bin_floor(x) <= x < bin_floor(x) + 600,
        bin_floor(x) % 600 == 0,
{
}

proof fn lemma_floor_monotone(x: int, y: int)
    requires
        x <= y,
    ensures
        bin_floor(x) <= bin_floor(y),
{
    lemma_floor(x);
    lemma_floor(y);
    let qx = bin_floor(x) / 600;
    let qy = bin_floor(y) / 600;
    assert(bin_floor(x) == 600 * qx);
    assert(bin_floor(y) == 600 * qy);
}

proof fn lemma_oldest_recent(times: Seq<Moment>, reference: Moment, n: int)
    requires
        0 <= n <= times.len(),
    ensures
        oldest_recent(times, reference, n) is Some ==> is_recent(oldest_recent(times, reference, n)->0, reference) && exists|
            j: int,
        | 0 <= j < n && times[j] == oldest_recent(times, reference, n)->0,
        forall|j: int|
            0 <= j < n && is_recent(times[j], reference) ==> (oldest_recent(times, reference, n)
                is Some && not_after(oldest_recent(times, reference, n)->0, times[j])),
    decreases n,
{
    if n > 0 {
        lemma_oldest_recent(times, reference, n - 1);
        let prev = oldest_recent(times, reference, n - 1);
        if is_recent(times[n - 1], reference) && prev is Some && !before(times[n - 1], prev->0) {
            let j = choose|j: int| 0 <= j < n - 1 && times[j] == prev->0;
            assert(0 <= j < n && times[j] == prev->0);
        }
    }
}

proof fn lemma_bin_counts_bounded(times: Seq<Moment>, reference: Moment, first: int, first_leap: bool, n: int)
    requires
        0 <= n <= times.len(),
    ensures
        forall|k: int| #[trigger] bin_count(times, reference, first, first_leap, k, n) <= n,
    decreases n,
{
    if n > 0 {
        lemma_bin_counts_bounded(times, reference, first, first_leap, n - 1);
        assert forall|k: int| #[trigger] bin_count(times, reference, first, first_leap, k, n) <= n by {
            assert(bin_count(times, reference, first, first_leap, k, n - 1) <= n - 1);
        }
    }
}

/// Rust's integer `/` by a positive divisor.
fn divide_toward_zero(x: i128, d: i128) -> (q: i128)
    requires
        0 < d,
        -0x1_0000_0000_0000_0000_0000 <= x <= 0x1_0000_0000_0000_0000_0000,
    ensures
        q == div_toward_zero(x as int, d as int),
        -0x1_0000_0000_0000_0000_0000 <= q <= 0x1_0000_0000_0000_0000_0000,
{
    let m: i128 = if x >= 0 { x } else { -x };
    let q: i128 = m.checked_div_euclid(d).unwrap();
    proof {
        vstd::arithmetic::div_mod::lemma_div_is_ordered_by_denominator(m as int, 1, d as int);
        vstd::arithmetic::div_mod::lemma_div_pos_is_pos(m as int, d as int);
    }
    if x >= 0 {
        q
    } else {
        -q
    }
}

/// Whole 10-minute steps in `e` seconds.
fn steps_of(e: i128) -> (k: i128)
    requires
        -0x1_0000_0000_0000_0000_0000 <= e <= 0x1_0000_0000_0000_0000_0000,
    ensures
        k == ten_minute_steps(e as int),
{
    let minutes = divide_toward_zero(e, 60);
    divide_toward_zero(minutes, 10)
}

proof fn lemma_steps_range(e: int)
    requires
        -2 <= e <= 43202,
    ensures
        0 <= ten_minute_steps(e) <= 72,
{
    if e >= 0 {
        vstd::arithmetic::div_mod::lemma_div_is_ordered(e, 43202, 60);
        vstd::arithmetic::div_mod::lemma_div_pos_is_pos(e, 60);
        let m = e / 60;
        vstd::arithmetic::div_mod::lemma_div_is_ordered(m, 720, 10);
        vstd::arithmetic::div_mod::lemma_div_pos_is_pos(m, 10);
    } else {
        assert((-e) / 60 == 0);
        assert(div_toward_zero(e, 60) == 0);
    }
}

/// The activity chart spans at most 12 hours of 10-minute bins plus the
/// reference's own: between 1 and 73 bins, when no parse comes after the
/// reference and some parse is recent.
pub proof fn law_activity_bins_at_most_73(times: Seq<Moment>, reference: Moment)
    requires
        forall|j: int| 0 <= j < times.len() ==> not_after(times[j], reference),
        oldest_recent(times, reference, times.len() as int) is Some,
    ensures
        ({
            let oldest = oldest_recent(times, reference, times.len() as int)->0;
            let first = bin_floor(oldest.secs as int);
            &&& 1 <= bin_total(reference, first, oldest.leap) <= 73
            &&& 0 <= elapsed_parts(bin_floor(reference.secs as int), reference.leap, first, oldest.leap) + 2 <= 43204
        }),
{
    let oldest = oldest_recent(times, reference, times.len() as int)->0;
    lemma_oldest_recent(times, reference, times.len() as int);
    let j = choose|j: int| 0 <= j < times.len() && times[j] == oldest;
    assert(not_after(times[j], reference));
    let o = oldest.secs as int;
    let r = reference.secs as int;
    let first = bin_floor(o);
    let last = bin_floor(r);
    lemma_floor(o);
    lemma_floor(r);
    lemma_floor_monotone(o, r);
    vstd::arithmetic::div_mod::lemma_fundamental_div_mod(first, 600);
    vstd::arithmetic::div_mod::lemma_fundamental_div_mod(last, 600);
    let qf = first / 600;
    let ql = last / 600;
    assert(first == 600 * qf);
    assert(last == 600 * ql);
    assert(last - first <= 43799);
    assert(ql - qf <= 72);
    assert(last - first <= 43200);
    let span = elapsed_parts(last, reference.leap, first, oldest.leap);
    assert(last - first - 2 <= span <= last - first + 2);
    lemma_steps_range(span);
}

/// The bins of the parse-activity chart: the start of the first bin (that of
/// the oldest recent parse, a leap second when that parse is one) and the
/// number of recent parses in each bin up to the reference's bin. `None`
/// when no parse is recent.
pub fn activity_counts(times: &Vec<Moment>, reference: Moment) -> (r: Option<(i128, bool, Vec<usize>)>)
    requires
        forall|j: int| 0 <= j < times.len() ==> not_after(times@[j], reference),
    ensures
        r is None <==> oldest_recent(times@, reference, times.len() as int) is None,
        r matches Some((first, first_leap, counts)) ==> {
            let oldest = oldest_recent(times@, reference, times.len() as int)->0;
            &&& first == bin_floor(oldest.secs as int)
            &&& first_leap == oldest.leap
            &&& counts.len() == bin_total(reference, first as int, first_leap)
            &&& (i64::MIN as int) - 600 <= first <= i64::MAX as int
            &&& counts.len() <= 73
            &&& forall|k: int|
                0 <= k < counts.len() ==> #[trigger] counts@[k] == bin_count(
                    times@,
                    reference,
                    first as int,
                    first_leap,
                    k,
                    times.len() as int,
                )
        },
{
    let mut oldest: Option<Moment> = None;
    let mut i: usize = 0;
    let leap: i128 = if reference.leap { 1 } else { 0 };
    let window_start: i128 = (reference.secs as i128) + leap - 43200;
    while i < times.len()
        invariant
            i <= times.len(),
            window_start == second_before(reference, 43200),
            oldest == oldest_recent(times@, reference, i as int),
        decreases times.len() - i,
    {
        let t = times[i];
        if (t.secs as i128) > window_start || ((t.secs as i128) == window_start && t.leap) {
            oldest = match oldest {
                Some(o) => if !is_not_after(o, t) {
                    Some(t)
                } else {
                    Some(o)
                },
                None => Some(t),
            };
        }
        i = i + 1;
    }
    let oldest = match oldest {
        Some(o) => o,
        None => return None,
    };
    proof {
        lemma_oldest_recent(times@, reference, times.len() as int);
        let j = choose|j: int| 0 <= j < times.len() && times@[j] == oldest;
        assert(not_after(times@[j], reference));
    }
    let first: i128 = (oldest.secs as i128) - (oldest.secs as i128).checked_rem_euclid(600).unwrap();
    let last: i128 = (reference.secs as i128) - (reference.secs as i128).checked_rem_euclid(600).unwrap();
    proof {
        lemma_floor_monotone(oldest.secs as int, reference.secs as int);
        lemma_floor(oldest.secs as int);
        lemma_floor(reference.secs as int);
    }
    let span = elapsed_between(last, reference.leap, first, oldest.leap);
    proof {
        law_activity_bins_at_most_73(times@, reference);
        lemma_steps_range(span as int);
    }
    let bins: i128 = steps_of(span) + 1;
    let mut counts: Vec<usize> = Vec::new();
    while (counts.len() as i128) < bins
        invariant
            1 <= bins <= 73,
            counts.len() <= bins,
            forall|k: int| 0 <= k < counts.len() ==> #[trigger] counts@[k] == 0,
        decreases bins - counts.len(),
    {
        counts.push(0);
    }
    let mut i: usize = 0;
    while i < times.len()
        invariant
            i <= times.len(),
            counts.len() == bins,
            1 <= bins <= 73,
            window_start == second_before(reference, 43200),
            first <= oldest.secs,
            oldest.secs - 600 < first,
            forall|k: int|
                0 <= k < counts.len() ==> #[trigger] counts@[k] == bin_count(
                    times@,
                    reference,
                    first as int,
                    oldest.leap,
                    k,
                    i as int,
                ),
        decreases times.len() - i,
    {
        proof {
            lemma_bin_counts_bounded(times@, reference, first as int, oldest.leap, i as int);
        }
        let t = times[i];
        if (t.secs as i128) > window_start || ((t.secs as i128) == window_start && t.leap) {
            let index: i128 = steps_of(elapsed_between(t.secs as i128, t.leap, first, oldest.leap));
            if 0 <= index && index < bins {
                let k = index as usize;
                let c = counts[k];
                counts.set(k, c + 1);
            }
        }
        i = i + 1;
    }
    Some((first, oldest.leap, counts))
}

/// The bins of the activity chart for `times`: from the bin of the oldest
/// recent time up to the reference's bin, each with its count and start.
pub open spec fn activity_matches(bins: Seq<ActivityBin>, times: Seq<Moment>, reference: Moment) -> bool {
    match oldest_recent(times, reference, times.len() as int) {
        None => bins.len() == 0,
        Some(oldest) => {
            let first = bin_floor(oldest.secs as int);
            &&& bins.len() == bin_total(reference, first, oldest.leap)
            &&& forall|k: int|
                0 <= k < bins.len() ==> {
                    &&& #[trigger] bins[k].count == bin_count(times, reference, first, oldest.leap, k, times.len() as int)
                    &&& bins[k].start@ == clock_label(first + 600 * k)
                }
        },
    }
}

/// Active DAGs per 10-minute bin, from the bin of the oldest parse of the last
/// 12 hours up to the bin of the reference.
#[verifier::spinoff_prover]
pub fn parse_activity(parse_times: &Vec<Moment>, reference: Moment) -> (bins: Vec<ActivityBin>)
    requires
        forall|j: int| 0 <= j < parse_times.len() ==> not_after(parse_times@[j], reference),
    ensures
        activity_matches(bins@, parse_times@, reference),
        bins.len() <= 73,
{
    let mut bins: Vec<ActivityBin> = Vec::new();
    match activity_counts(parse_times, reference) {
        None => bins,
        Some((first, first_leap, counts)) => {
            let mut k: usize = 0;
            while k < counts.len()
                invariant
                    k <= counts.len(),
                    bins.len() == k,
                    counts.len() <= 73,
                    (i64::MIN as int) - 600 <= first <= i64::MAX as int,
                    forall|j: int|
                        0 <= j < k ==> {
                            &&& #[trigger] bins@[j].count == counts@[j]
                            &&& bins@[j].start@ == clock_label(first + 600 * j)
                        },
                decreases counts.len() - k,
            {
                let start = clock_text_or_empty(first + 600 * (k as i128));
                let ghost before = bins@;
                bins.push(ActivityBin { start, count: counts[k] });
                proof {
                    assert forall|j: int| 0 <= j < k + 1 implies {
                        &&& #[trigger] bins@[j].count == counts@[j]
                        &&& bins@[j].start@ == clock_label(first + 600 * j)
                    } by {
                        if j < k {
                            assert(bins@[j] == before[j]);
                        }
                    }
                }
                k = k + 1;
            }
            proof {
                let oldest = oldest_recent(parse_times@, reference, parse_times.len() as int)->0;
                let f = bin_floor(oldest.secs as int);
                assert(first == f);
                assert forall|k: int| 0 <= k < bins.len() implies {
                    &&& #[trigger] bins@[k].count == bin_count(
                        parse_times@,
                        reference,
                        f,
                        oldest.leap,
                        k,
                        parse_times.len() as int,
                    )
                    &&& bins@[k].start@ == clock_label(f + 600 * k)
                } by {
                    assert(bins@[k].count == counts@[k]);
                }
                assert(bins.len() == bin_total(reference, f, oldest.leap));
                assert(activity_matches(bins@, parse_times@, reference));
            }
            bins
        },
    }
}

/// The `%H:%M` text of a time, empty when chrono cannot represent it. Within
/// chrono's range it is the two-digit hour and minute (see `clock_text_of`).
pub open spec fn clock_label(t: int) -> Seq<char> {
    if i64::MIN <= t <= i64::MAX {
        match chrono_clock_text(t as i64) {
            Some(text) => text,
            None => Seq::<char>::empty(),
        }
    } else {
        Seq::<char>::empty()
    }
}

fn clock_text_or_empty(t: i128) -> (text: String)
    ensures
        text@ == clock_label(t as int),
        i64::MIN <= t <= i64::MAX && representable(t as i64, 0) ==> text@ == clock_text_of(t as int),
{
    if (i64::MIN as i128) <= t && t <= (i64::MAX as i128) {
        match chrono_format_clock(t as i64) {
            Some(text) => text,
            None => String::new(),
        }
    } else {
        String::new()
    }
}

// ---------------------------------------------------------------------------
// Removed DAGs per application
// ---------------------------------------------------------------------------

pub struct RemovedGroup {
    pub name: String,
    pub dags: usize,
    pub files: usize,
}

/// The file locations of rows `members`.
pub open spec fn files_of(filelocs: Seq<Seq<char>>, members: Seq<usize>) -> Seq<Seq<char>> {
    members.map_values(|m: usize| filelocs[m as int])
}

/// The removed rows of application `name`, in row order.
pub open spec fn removed_rows(applications: Seq<Seq<char>>, removed: Seq<bool>, name: Seq<char>) -> Seq<usize> {
    members_named(applications, removed, name, applications.len() as int)
}

/// `groups` lists each application with removed DAGs once: how many removed
/// DAGs and distinct files it has, most DAGs first, ties by name.
pub open spec fn removed_groups_of(
    groups: Seq<RemovedGroup>,
    applications: Seq<Seq<char>>,
    filelocs: Seq<Seq<char>>,
    removed: Seq<bool>,
) -> bool {
    &&& forall|k: int|
        0 <= k < groups.len() ==> {
            let rows = removed_rows(applications, removed, #[trigger] groups[k].name@);
            &&& rows.len() > 0
            &&& groups[k].dags == rows.len()
            &&& groups[k].files == distinct_count(files_of(filelocs, rows))
        }
    &&& forall|i: int|
        0 <= i < applications.len() && removed[i] ==> exists|k: int|
            0 <= k < groups.len() && #[trigger] groups[k].name@ == applications[i]
    &&& forall|a: int, b: int|
        #![trigger groups[a], groups[b]]
        0 <= a < b < groups.len() ==> groups[a].dags > groups[b].dags || (groups[a].dags
            == groups[b].dags && text_lt(groups[a].name@, groups[b].name@))
}

fn member_files(files: &Vec<Vec<char>>, members: &Vec<usize>) -> (out: Vec<Vec<char>>)
    requires
        forall|k: int| 0 <= k < members.len() ==> members@[k] < files.len(),
    ensures
        views(out@) == files_of(views(files@), members@),
{
    let mut out: Vec<Vec<char>> = Vec::new();
    let mut k: usize = 0;
    while k < members.len()
        invariant
            k <= members.len(),
            forall|j: int| 0 <= j < members.len() ==> members@[j] < files.len(),
            views(out@) == files_of(views(files@), members@.take(k as int)),
        decreases members.len() - k,
    {
        let ghost old = out@;
        let item = files[members[k]].clone();
        out.push(item);
        proof {
            assert(out@ == old.push(item));
            assert(views(out@) =~= views(old).push(item@));
            assert(item@ == views(files@)[members@[k as int] as int]);
        }
        k = k + 1;
        assert(views(out@) =~= files_of(views(files@), members@.take(k as int)));
    }
    assert(members@.take(members.len() as int) =~= members@);
    out
}

/// Removed DAGs per application, most first.
#[verifier::spinoff_prover]
pub fn removed_groups(applications: &Vec<String>, filelocs: &Vec<String>, removed: &Vec<bool>) -> (groups: Vec<RemovedGroup>)
    requires
        applications.len() == filelocs.len(),
        applications.len() == removed.len(),
    ensures
        removed_groups_of(
            groups@,
            applications@.map_values(|s: String| s@),
            filelocs@.map_values(|s: String| s@),
            removed@,
        ),
{
    let names = chars_of_all(applications);
    let files = chars_of_all(filelocs);
    let ghost apps = views(names@);
    let ghost locs = views(files@);
    let grouped = group_indices(&names, removed);
    let mut ids: Vec<String> = Vec::new();
    let mut keys: Vec<Option<i128>> = Vec::new();
    let mut summaries: Vec<RemovedGroup> = Vec::new();
    let mut g: usize = 0;
    while g < grouped.len()
        invariant
            g <= grouped.len(),
            names.len() == removed.len(),
            files.len() == removed.len(),
            apps == views(names@),
            locs == views(files@),
            grouping_of(grouped@, apps, removed@, names.len() as int),
            ids.len() == g,
            keys.len() == g,
            summaries.len() == g,
            forall|k: int| 0 <= k < g ==> {
                let rows = removed_rows(apps, removed@, grouped@[k].name@);
                &&& #[trigger] ids@[k]@ == grouped@[k].name@
                &&& summaries@[k].name@ == grouped@[k].name@
                &&& summaries@[k].dags == rows.len()
                &&& keys@[k] == Some(rows.len() as i128)
                &&& summaries@[k].files == distinct_count(files_of(locs, rows))
            },
        decreases grouped.len() - g,
    {
        let members = &grouped[g].members;
        let ghost name = grouped@[g as int].name@;
        proof {
            assert(grouped@[g as int].members@ == members_named(apps, removed@, name, names.len() as int));
            lemma_members_bounds(apps, removed@, name, names.len() as int);
        }
        let group_files = member_files(&files, members);
        let distinct = count_distinct(&group_files);
        let name_text = string_from_chars(&grouped[g].name);
        let dags = members.len();
        let ghost old_ids = ids@;
        let ghost old_keys = keys@;
        let ghost old_summaries = summaries@;
        ids.push(string_from_chars(&grouped[g].name));
        keys.push(Some(dags as i128));
        summaries.push(RemovedGroup { name: name_text, dags, files: distinct });
        proof {
            assert(removed_rows(apps, removed@, name) == members@);
            assert forall|k: int| 0 <= k < g + 1 implies {
                let rows = removed_rows(apps, removed@, grouped@[k].name@);
                &&& #[trigger] ids@[k]@ == grouped@[k].name@
                &&& summaries@[k].name@ == grouped@[k].name@
                &&& summaries@[k].dags == rows.len()
                &&& keys@[k] == Some(rows.len() as i128)
                &&& summaries@[k].files == distinct_count(files_of(locs, rows))
            } by {
                if k < g {
                    assert(ids@[k] == old_ids[k]);
                    assert(old_ids[k]@ == grouped@[k].name@);
                    assert(summaries@[k] == old_summaries[k]);
                    assert(keys@[k] == old_keys[k]);
                }
            }
        }
        g = g + 1;
    }
    let order = ranked_all(&ids, &keys);
    let ghost id_views = ids@.map_values(|s: String| s@);
    proof {
        assert forall|x: int, y: int| 0 <= x < y < grouped.len() implies id_views[x] != id_views[y] by {
            assert(id_views[x] == grouped@[x].name@);
            assert(id_views[y] == grouped@[y].name@);
            lemma_text_lt_irreflexive(grouped@[x].name@);
        }
    }
    let mut groups: Vec<RemovedGroup> = Vec::new();
    let mut k: usize = 0;
    while k < order.len()
        invariant
            k <= order.len(),
            summaries.len() == keys.len(),
            ids.len() == keys.len(),
            ranking_of(order@, id_views, keys@),
            groups.len() == k,
            forall|j: int| 0 <= j < k ==> {
                &&& #[trigger] groups@[j].name@ == summaries@[order@[j] as int].name@
                &&& groups@[j].dags == summaries@[order@[j] as int].dags
                &&& groups@[j].files == summaries@[order@[j] as int].files
            },
        decreases order.len() - k,
    {
        let s = &summaries[order[k]];
        groups.push(RemovedGroup { name: s.name.clone(), dags: s.dags, files: s.files });
        k = k + 1;
    }
    proof {
        let app_views = applications@.map_values(|s: String| s@);
        let loc_views = filelocs@.map_values(|s: String| s@);
        assert(app_views == apps);
        assert(loc_views == locs);
        assert forall|j: int| 0 <= j < groups.len() implies {
            let rows = removed_rows(apps, removed@, #[trigger] groups@[j].name@);
            &&& rows.len() > 0
            &&& groups@[j].dags == rows.len()
            &&& groups@[j].files == distinct_count(files_of(locs, rows))
        } by {
            let x = order@[j] as int;
            assert(0 <= x < grouped.len());
            assert(ids@[x]@ == grouped@[x].name@);
            assert(grouped@[x].members@.len() > 0);
            assert(grouped@[x].members@ == members_named(apps, removed@, grouped@[x].name@, names.len() as int));
        }
        assert forall|i: int| 0 <= i < apps.len() && removed@[i] implies exists|j: int|
            0 <= j < groups.len() && #[trigger] groups@[j].name@ == apps[i] by {
            let x = choose|x: int| 0 <= x < grouped@.len() && #[trigger] grouped@[x].name@ == apps[i];
            assert(ids@[x]@ == grouped@[x].name@);
            assert(keys@[x] is Some);
            assert(order@.contains(x as usize));
            let j = choose|j: int| 0 <= j < order@.len() && order@[j] == x as usize;
            assert(groups@[j].name@ == apps[i]);
        }
        assert forall|a: int, b: int| #![trigger groups@[a], groups@[b]] 0 <= a < b < groups.len() implies groups@[a].dags > groups@[b].dags || (groups@[a].dags
            == groups@[b].dags && text_lt(groups@[a].name@, groups@[b].name@)) by {
            let x = order@[a] as int;
            let y = order@[b] as int;
            assert(ids@[x]@ == grouped@[x].name@);
            assert(ids@[y]@ == grouped@[y].name@);
            assert(groups@[a].name@ == summaries@[x].name@);
            assert(groups@[b].name@ == summaries@[y].name@);
            assert(id_views[x] == groups@[a].name@);
            assert(id_views[y] == groups@[b].name@);
            assert(keys@[x] == Some(groups@[a].dags as i128));
            assert(keys@[y] == Some(groups@[b].dags as i128));
            assert(ranks_before(id_views, keys@, x, y));
            if x == y {
                lemma_ranks_before_irreflexive(id_views, keys@, x);
            } else if x < y {
                assert(id_views[x] != id_views[y]);
            } else {
                assert(id_views[y] != id_views[x]);
            }
        }
    }
    proof {
        assert(removed_groups_of(groups@, apps, locs, removed@));
        assert(applications@.map_values(|s: String| s@) == apps);
        assert(filelocs@.map_values(|s: String| s@) == locs);
    }
    groups
}

// ---------------------------------------------------------------------------
// Rows of the report
// ---------------------------------------------------------------------------

/// What the report says of one DAG, apart from its parse duration and the
/// figures derived from it.
pub struct DagFacts {
    pub dag_id: String,
    pub fileloc: String,
    pub application: String,
    pub environment: String,
    pub last_parsed: Option<String>,
    /// Seconds from this DAG's last parse to the newest parse in the export.
    pub age_seconds: Option<i128>,
    pub versions: u32,
    pub over_timeout: bool,
    /// The export has a parse duration for the DAG.
    pub parsed: bool,
    /// Airflow marked the DAG stale: its file is gone from the bundle, so it
    /// is no longer parsed.
    pub removed: bool,
    pub overdue: bool,
    pub versions_24h: u32,
    pub versions_7d: u32,
    /// New versions created on Saturday or Sunday within the last 7 days.
    pub weekend_versions_7d: u32,
    pub last_changed: Option<String>,
    /// Seconds from the latest version to the newest parse in the export.
    pub seconds_since_change: Option<i128>,
    /// The latest version was saved by the latest parse.
    pub changed_at_last_parse: bool,
    pub suspect: bool,
}

/// The written form of an optional time.
pub open spec fn time_text(t: Option<Moment>) -> Option<Seq<char>> {
    match t {
        Some(v) => moment_text(v),
        None => None,
    }
}

/// chrono's `to - from` in seconds, when both are known.
pub open spec fn gap(from: Option<Moment>, to: Option<Moment>) -> Option<i128> {
    match (from, to) {
        (Some(a), Some(b)) => Some(elapsed(b, a) as i128),
        _ => None,
    }
}

/// The facts of the report row of `dag`. The parse-duration checks are the
/// caller's: `has_parse_time` (the export has its parse duration),
/// `slower_than_timeout` (its parse exceeds the timeout),
/// `older_than_limit` (its age exceeds the overdue limit) and
/// `saved_by_last_parse` (its latest version was saved by its latest parse).
pub fn to_facts<P>(
    dag: &Dag<P>,
    reference: Option<Moment>,
    has_parse_time: bool,
    slower_than_timeout: bool,
    older_than_limit: bool,
    saved_by_last_parse: bool,
) -> (f: DagFacts)
    ensures
        f.dag_id@ == dag.dag_id@,
        f.fileloc@ == dag.fileloc@,
        f.application@ == dag.application@,
        f.environment@ == dag.environment@,
        option_text(f.last_parsed) == time_text(dag.last_parsed),
        f.age_seconds == gap(dag.last_parsed, reference),
        f.versions == dag.versions,
        f.removed == (dag.is_stale == Some(true)),
        f.parsed == has_parse_time,
        f.over_timeout == (!f.removed && slower_than_timeout),
        f.overdue == (!f.removed && older_than_limit),
        f.versions_24h == count_within(dag.version_times@, reference, seconds_in_day(), dag.version_times.len() as int) as u32,
        f.versions_7d == count_within(dag.version_times@, reference, seconds_in_week(), dag.version_times.len() as int) as u32,
        f.weekend_versions_7d == count_weekend(dag.version_times@, weekdays_of(dag.version_times@), reference, dag.version_times.len() as int) as u32,
        weekdays_known(dag.version_times@),
        option_text(f.last_changed) == time_text(if dag.version_times.len() > 0 { Some(dag.version_times@.last()) } else { None }),
        f.seconds_since_change == gap(if dag.version_times.len() > 0 { Some(dag.version_times@.last()) } else { None }, reference),
        f.changed_at_last_parse == saved_by_last_parse,
        f.suspect == suspect_of(f.removed, f.versions_7d, f.versions_24h),
{
    let removed = match dag.is_stale {
        Some(b) => b,
        None => false,
    };
    let activity = version_activity(dag, reference);
    let suspect = is_suspect(removed, &activity);
    let last_parsed = match dag.last_parsed {
        Some(t) => format_timestamp(t),
        None => None,
    };
    DagFacts {
        dag_id: dag.dag_id.clone(),
        fileloc: dag.fileloc.clone(),
        application: dag.application.clone(),
        environment: dag.environment.clone(),
        last_parsed,
        age_seconds: seconds_between(dag.last_parsed, reference),
        versions: dag.versions,
        over_timeout: !removed && slower_than_timeout,
        parsed: has_parse_time,
        removed,
        overdue: !removed && older_than_limit,
        versions_24h: activity.versions_24h,
        versions_7d: activity.versions_7d,
        weekend_versions_7d: activity.weekend_versions_7d,
        last_changed: activity.last_changed,
        seconds_since_change: seconds_between(activity.last_change, reference),
        changed_at_last_parse: saved_by_last_parse,
        suspect,
    }
}

// ---------------------------------------------------------------------------
// Summary counts
// ---------------------------------------------------------------------------

/// The counts of the summary; they cover active DAGs unless named otherwise.
pub struct SummaryCounts {
    pub dag_count: usize,
    pub all_dag_count: usize,
    pub removed_count: usize,
    pub file_count: usize,
    /// Active DAGs with a parse duration, and those without.
    pub parsed_count: usize,
    pub missing_count: usize,
    /// Removed DAGs without a parse duration.
    pub removed_missing_count: usize,
    pub over_timeout_count: usize,
    pub overdue_count: usize,
    pub changed_24h_count: usize,
    pub changed_7d_count: usize,
    pub suspect_count: usize,
    /// Active DAGs whose latest parse saved a new version, and those with a
    /// version and a parse whose latest parse did not.
    pub changed_at_last_parse_count: usize,
    pub unchanged_at_last_parse_count: usize,
    /// Versions across all DAGs, removed ones included.
    pub version_rows: u64,
    pub max_versions: u32,
}

/// How many of the first `n` rows are active and satisfy `p`.
pub open spec fn count_active(rows: Seq<DagFacts>, p: spec_fn(DagFacts) -> bool, n: int) -> nat
    decreases n,
{
    if n <= 0 {
        0
    } else {
        count_active(rows, p, n - 1) + if !rows[n - 1].removed && p(rows[n - 1]) {
            1nat
        } else {
            0nat
        }
    }
}

/// Versions of the first `n` rows added up.
pub open spec fn version_sum(rows: Seq<DagFacts>, n: int) -> nat
    decreases n,
{
    if n <= 0 {
        0
    } else {
        version_sum(rows, n - 1) + rows[n - 1].versions as nat
    }
}

/// The most versions among the first `n` active rows (0 when there is none).
pub open spec fn max_active_versions(rows: Seq<DagFacts>, n: int) -> u32
    decreases n,
{
    if n <= 0 {
        0
    } else {
        let prev = max_active_versions(rows, n - 1);
        if !rows[n - 1].removed && rows[n - 1].versions > prev {
            rows[n - 1].versions
        } else {
            prev
        }
    }
}

/// File locations of the active rows, in row order.
pub open spec fn active_files(rows: Seq<DagFacts>, n: int) -> Seq<Seq<char>>
    decreases n,
{
    if n <= 0 {
        Seq::<Seq<char>>::empty()
    } else if !rows[n - 1].removed {
        active_files(rows, n - 1).push(rows[n - 1].fileloc@)
    } else {
        active_files(rows, n - 1)
    }
}

pub open spec fn is_any(r: DagFacts) -> bool {
    true
}

pub open spec fn is_over_timeout(r: DagFacts) -> bool {
    r.over_timeout
}

pub open spec fn is_overdue(r: DagFacts) -> bool {
    r.overdue
}

pub open spec fn changed_in_day(r: DagFacts) -> bool {
    r.versions_24h > 0
}

pub open spec fn changed_in_week(r: DagFacts) -> bool {
    r.versions_7d > 0
}

pub open spec fn is_suspect_row(r: DagFacts) -> bool {
    r.suspect
}

pub open spec fn is_changed_at_last_parse(r: DagFacts) -> bool {
    r.changed_at_last_parse
}

pub open spec fn is_unchanged_at_last_parse(r: DagFacts) -> bool {
    r.last_changed is Some && r.last_parsed is Some && !r.changed_at_last_parse
}

pub open spec fn is_missing(r: DagFacts) -> bool {
    !r.parsed
}

pub open spec fn is_parsed(r: DagFacts) -> bool {
    r.parsed
}

/// How many of the first `n` rows are removed and have no parse duration.
pub open spec fn removed_missing_of(rows: Seq<DagFacts>, n: int) -> nat
    decreases n,
{
    if n <= 0 {
        0
    } else {
        removed_missing_of(rows, n - 1) + if rows[n - 1].removed && !rows[n - 1].parsed {
            1nat
        } else {
            0nat
        }
    }
}

/// How many of the first `n` rows are removed.
pub open spec fn removed_count_of(rows: Seq<DagFacts>, n: int) -> nat
    decreases n,
{
    if n <= 0 {
        0
    } else {
        removed_count_of(rows, n - 1) + if rows[n - 1].removed {
            1nat
        } else {
            0nat
        }
    }
}

proof fn lemma_summary_bounds(rows: Seq<DagFacts>, n: int)
    requires
        0 <= n <= rows.len(),
    ensures
        forall|p: spec_fn(DagFacts) -> bool| #[trigger] count_active(rows, p, n) <= n,
        removed_count_of(rows, n) <= n,
        removed_missing_of(rows, n) <= n,
        version_sum(rows, n) <= n * 0xffff_ffff,
        active_files(rows, n).len() <= n,
    decreases n,
{
    if n > 0 {
        lemma_summary_bounds(rows, n - 1);
        assert forall|p: spec_fn(DagFacts) -> bool| #[trigger] count_active(rows, p, n) <= n by {
            assert(count_active(rows, p, n - 1) <= n - 1);
        }
    }
}

/// The counts of the summary over the report rows.
pub fn summary_counts(rows: &Vec<DagFacts>) -> (c: SummaryCounts)
    requires
        version_sum(rows@, rows.len() as int) <= u64::MAX,
    ensures
        c.dag_count == count_active(rows@, |r: DagFacts| is_any(r), rows.len() as int),
        c.all_dag_count == rows.len(),
        c.removed_count == removed_count_of(rows@, rows.len() as int),
        c.file_count == distinct_count(active_files(rows@, rows.len() as int)),
        c.parsed_count == count_active(rows@, |r: DagFacts| is_parsed(r), rows.len() as int),
        c.missing_count == count_active(rows@, |r: DagFacts| is_missing(r), rows.len() as int),
        c.removed_missing_count == removed_missing_of(rows@, rows.len() as int),
        c.over_timeout_count == count_active(rows@, |r: DagFacts| is_over_timeout(r), rows.len() as int),
        c.overdue_count == count_active(rows@, |r: DagFacts| is_overdue(r), rows.len() as int),
        c.changed_24h_count == count_active(rows@, |r: DagFacts| changed_in_day(r), rows.len() as int),
        c.changed_7d_count == count_active(rows@, |r: DagFacts| changed_in_week(r), rows.len() as int),
        c.suspect_count == count_active(rows@, |r: DagFacts| is_suspect_row(r), rows.len() as int),
        c.changed_at_last_parse_count == count_active(rows@, |r: DagFacts| is_changed_at_last_parse(r), rows.len() as int),
        c.unchanged_at_last_parse_count == count_active(rows@, |r: DagFacts| is_unchanged_at_last_parse(r), rows.len() as int),
        c.version_rows == version_sum(rows@, rows.len() as int),
        c.max_versions == max_active_versions(rows@, rows.len() as int),
{
    let ghost all = |r: DagFacts| is_any(r);
    let ghost over = |r: DagFacts| is_over_timeout(r);
    let ghost late = |r: DagFacts| is_overdue(r);
    let ghost missing = |r: DagFacts| is_missing(r);
    let ghost parsed = |r: DagFacts| is_parsed(r);
    let ghost day = |r: DagFacts| changed_in_day(r);
    let ghost week = |r: DagFacts| changed_in_week(r);
    let ghost sus = |r: DagFacts| is_suspect_row(r);
    let ghost changed = |r: DagFacts| is_changed_at_last_parse(r);
    let ghost unchanged = |r: DagFacts| is_unchanged_at_last_parse(r);
    let mut dag_count: usize = 0;
    let mut removed_count: usize = 0;
    let mut missing_count: usize = 0;
    let mut parsed_count: usize = 0;
    let mut removed_missing_count: usize = 0;
    let mut over_timeout_count: usize = 0;
    let mut overdue_count: usize = 0;
    let mut changed_24h_count: usize = 0;
    let mut changed_7d_count: usize = 0;
    let mut suspect_count: usize = 0;
    let mut changed_at_last_parse_count: usize = 0;
    let mut unchanged_at_last_parse_count: usize = 0;
    let mut version_rows: u64 = 0;
    let mut max_versions: u32 = 0;
    let mut files: Vec<Vec<char>> = Vec::new();
    let mut i: usize = 0;
    proof {
        lemma_version_sum_monotone(rows@, rows.len() as int);
    }
    while i < rows.len()
        invariant
            i <= rows.len(),
            all == (|r: DagFacts| is_any(r)),
            over == (|r: DagFacts| is_over_timeout(r)),
            late == (|r: DagFacts| is_overdue(r)),
            missing == (|r: DagFacts| is_missing(r)),
            parsed == (|r: DagFacts| is_parsed(r)),
            day == (|r: DagFacts| changed_in_day(r)),
            week == (|r: DagFacts| changed_in_week(r)),
            sus == (|r: DagFacts| is_suspect_row(r)),
            changed == (|r: DagFacts| is_changed_at_last_parse(r)),
            unchanged == (|r: DagFacts| is_unchanged_at_last_parse(r)),
            version_sum(rows@, rows.len() as int) <= u64::MAX,
            forall|m: int| 0 <= m <= rows.len() ==> #[trigger] version_sum(rows@, m) <= version_sum(rows@, rows.len() as int),
            dag_count == count_active(rows@, all, i as int),
            removed_count == removed_count_of(rows@, i as int),
            missing_count == count_active(rows@, missing, i as int),
            parsed_count == count_active(rows@, parsed, i as int),
            removed_missing_count == removed_missing_of(rows@, i as int),
            over_timeout_count == count_active(rows@, over, i as int),
            overdue_count == count_active(rows@, late, i as int),
            changed_24h_count == count_active(rows@, day, i as int),
            changed_7d_count == count_active(rows@, week, i as int),
            suspect_count == count_active(rows@, sus, i as int),
            changed_at_last_parse_count == count_active(rows@, changed, i as int),
            unchanged_at_last_parse_count == count_active(rows@, unchanged, i as int),
            version_rows == version_sum(rows@, i as int),
            max_versions == max_active_versions(rows@, i as int),
            views(files@) == active_files(rows@, i as int),
        decreases rows.len() - i,
    {
        proof {
            lemma_summary_bounds(rows@, i as int);
            assert(version_sum(rows@, i + 1) <= version_sum(rows@, rows.len() as int));
        }
        let r = &rows[i];
        version_rows = version_rows + (r.versions as u64);
        if r.removed {
            removed_count = removed_count + 1;
            if !r.parsed {
                removed_missing_count = removed_missing_count + 1;
            }
        } else {
            dag_count = dag_count + 1;
            if !r.parsed {
                missing_count = missing_count + 1;
            } else {
                parsed_count = parsed_count + 1;
            }
            if r.over_timeout {
                over_timeout_count = over_timeout_count + 1;
            }
            if r.overdue {
                overdue_count = overdue_count + 1;
            }
            if r.versions_24h > 0 {
                changed_24h_count = changed_24h_count + 1;
            }
            if r.versions_7d > 0 {
                changed_7d_count = changed_7d_count + 1;
            }
            if r.suspect {
                suspect_count = suspect_count + 1;
            }
            if r.changed_at_last_parse {
                changed_at_last_parse_count = changed_at_last_parse_count + 1;
            }
            if r.last_changed.is_some() && r.last_parsed.is_some() && !r.changed_at_last_parse {
                unchanged_at_last_parse_count = unchanged_at_last_parse_count + 1;
            }
            if r.versions > max_versions {
                max_versions = r.versions;
            }
            let ghost before = files@;
            let file = chars_of(r.fileloc.as_str());
            files.push(file);
            assert(views(files@) =~= views(before).push(r.fileloc@));
        }
        i = i + 1;
    }
    let file_count = count_distinct(&files);
    SummaryCounts {
        dag_count,
        all_dag_count: rows.len(),
        removed_count,
        file_count,
        parsed_count,
        missing_count,
        removed_missing_count,
        over_timeout_count,
        overdue_count,
        changed_24h_count,
        changed_7d_count,
        suspect_count,
        changed_at_last_parse_count,
        unchanged_at_last_parse_count,
        version_rows,
        max_versions,
    }
}

proof fn lemma_version_sum_monotone(rows: Seq<DagFacts>, n: int)
    requires
        0 <= n,
    ensures
        forall|m: int| 0 <= m <= n ==> #[trigger] version_sum(rows, m) <= version_sum(rows, n),
    decreases n,
{
    if n > 0 {
        lemma_version_sum_monotone(rows, n - 1);
    }
}

// ---------------------------------------------------------------------------
// Laws
// ---------------------------------------------------------------------------

/// A ranking lists every keyed row exactly once: no index appears twice.
pub proof fn law_ranking_lists_each_row_once(order: Seq<usize>, ids: Seq<Seq<char>>, keys: Seq<Option<i128>>)
    requires
        ranking_of(order, ids, keys),
    ensures
        order.no_duplicates(),
{
    assert forall|a: int, b: int| 0 <= a < order.len() && 0 <= b < order.len() && a != b implies order[a] != order[b] by {
        if a < b {
            lemma_ranks_before_irreflexive(ids, keys, order[a] as int);
        } else {
            lemma_ranks_before_irreflexive(ids, keys, order[b] as int);
        }
    }
}

/// A ranking of active rows never lists a removed row.
pub proof fn law_ranking_skips_removed(order: Seq<usize>, ids: Seq<Seq<char>>, removed: Seq<bool>, keys: Seq<Option<i128>>)
    requires
        removed.len() == keys.len(),
        ranking_of(order, ids, active_keys(removed, keys)),
    ensures
        forall|k: int| 0 <= k < order.len() ==> !removed[#[trigger] order[k] as int],
{
    assert forall|k: int| 0 <= k < order.len() implies !removed[#[trigger] order[k] as int] by {
        assert(active_keys(removed, keys)[order[k] as int] is Some);
    }
}

/// Every row lands in exactly one freshness bucket: the bucket counts and the
/// never-parsed count add up to the number of rows.
pub proof fn law_freshness_counts_every_row(ages: Seq<Option<i128>>, n: int)
    requires
        0 <= n <= ages.len(),
    ensures
        bucket_count(ages, 0, n) + bucket_count(ages, 1, n) + bucket_count(ages, 2, n)
            + bucket_count(ages, 3, n) + bucket_count(ages, 4, n) + never_count(ages, n) == n,
    decreases n,
{
    if n > 0 {
        law_freshness_counts_every_row(ages, n - 1);
    }
}

/// Versions of the last 24 hours are among those of the last 7 days.
pub proof fn law_day_within_week(times: Seq<Moment>, reference: Option<Moment>, n: int)
    requires
        0 <= n <= times.len(),
    ensures
        count_within(times, reference, seconds_in_day(), n) <= count_within(
            times,
            reference,
            seconds_in_week(),
            n,
        ),
    decreases n,
{
    if n > 0 {
        law_day_within_week(times, reference, n - 1);
    }
}

/// Weekend versions of the last 7 days are among the versions of those days.
pub proof fn law_weekend_within_week(times: Seq<Moment>, weekdays: Seq<Option<u32>>, reference: Option<Moment>, n: int)
    requires
        0 <= n <= times.len(),
    ensures
        count_weekend(times, weekdays, reference, n) <= count_within(
            times,
            reference,
            seconds_in_week(),
            n,
        ),
    decreases n,
{
    if n > 0 {
        law_weekend_within_week(times, weekdays, reference, n - 1);
    }
}

/// How many of the first `n` times are recent.
pub open spec fn recent_count(times: Seq<Moment>, reference: Moment, n: int) -> nat
    decreases n,
{
    if n <= 0 {
        0
    } else {
        recent_count(times, reference, n - 1) + if is_recent(times[n - 1], reference) {
            1nat
        } else {
            0nat
        }
    }
}

/// The counts of bins `0..m` added up.
pub open spec fn bins_total(times: Seq<Moment>, reference: Moment, first: int, first_leap: bool, m: int, n: int) -> nat
    decreases m,
{
    if m <= 0 {
        0
    } else {
        bins_total(times, reference, first, first_leap, m - 1, n) + bin_count(times, reference, first, first_leap, m - 1, n)
    }
}

proof fn lemma_bins_total_step(times: Seq<Moment>, reference: Moment, first: int, first_leap: bool, m: int, n: int)
    requires
        n > 0,
        m >= 0,
    ensures
        bins_total(times, reference, first, first_leap, m, n) == bins_total(times, reference, first, first_leap, m, n - 1)
            + if is_recent(times[n - 1], reference) && 0 <= bin_index(times[n - 1], first, first_leap) < m {
            1nat
        } else {
            0nat
        },
    decreases m,
{
    if m > 0 {
        lemma_bins_total_step(times, reference, first, first_leap, m - 1, n);
    }
}

proof fn lemma_bins_total_zero(times: Seq<Moment>, reference: Moment, first: int, first_leap: bool, m: int)
    ensures
        bins_total(times, reference, first, first_leap, m, 0) == 0,
    decreases m,
{
    if m > 0 {
        lemma_bins_total_zero(times, reference, first, first_leap, m - 1);
    }
}

/// Every recent parse is counted in exactly one bin of the activity chart:
/// the bins add up to the number of parses of the last 12 hours. Leap seconds
/// are left out: chrono counts one as the second before or the second after,
/// depending on the other time, so a leap-second reference can leave a parse
/// past the last bin.
pub proof fn law_activity_counts_every_recent_parse(times: Seq<Moment>, reference: Moment, n: int)
    requires
        0 <= n <= times.len(),
        forall|j: int| 0 <= j < times.len() ==> not_after(times[j], reference),
        !reference.leap,
        forall|j: int| 0 <= j < times.len() ==> !(#[trigger] times[j]).leap,
        oldest_recent(times, reference, times.len() as int) is Some,
    ensures
        ({
            let oldest = oldest_recent(times, reference, times.len() as int)->0;
            let first = bin_floor(oldest.secs as int);
            bins_total(times, reference, first, oldest.leap, bin_total(reference, first, oldest.leap), n)
                == recent_count(times, reference, n)
        }),
    decreases n,
{
    let oldest = oldest_recent(times, reference, times.len() as int)->0;
    let first = bin_floor(oldest.secs as int);
    let r = reference.secs as int;
    lemma_oldest_recent(times, reference, times.len() as int);
    let jo = choose|j: int| 0 <= j < times.len() && times[j] == oldest;
    assert(!oldest.leap) by {
        assert(!times[jo].leap);
    }
    assert(not_after(times[jo], reference));
    lemma_floor(oldest.secs as int);
    lemma_floor(r);
    lemma_floor_monotone(oldest.secs as int, r);
    let big = r - first;
    assert(elapsed_parts(bin_floor(r), false, first, false) == bin_floor(r) - first);
    assert(bin_floor(r) - first == 600 * (big / 600)) by {
        vstd::arithmetic::div_mod::lemma_fundamental_div_mod(big, 600);
        vstd::arithmetic::div_mod::lemma_fundamental_div_mod(r, 600);
        vstd::arithmetic::div_mod::lemma_fundamental_div_mod(first, 600);
        assert(big % 600 == r % 600) by {
            let q = first / 600;
            assert(first == 600 * q);
            vstd::arithmetic::div_mod::lemma_mod_multiples_vanish(-q, r, 600);
        }
    }
    assert(0 <= big);
    assert(ten_minute_steps(bin_floor(r) - first) == big / 600) by {
        vstd::arithmetic::div_mod::lemma_div_pos_is_pos(big, 600);
        vstd::arithmetic::div_mod::lemma_div_multiples_vanish(big / 600, 600);
        vstd::arithmetic::div_mod::lemma_div_denominator(bin_floor(r) - first, 60, 10);
    }
    let bins = bin_total(reference, first, oldest.leap);
    assert(bins == big / 600 + 1);
    if n == 0 {
        lemma_bins_total_zero(times, reference, first, oldest.leap, bins);
    } else {
        law_activity_counts_every_recent_parse(times, reference, n - 1);
        lemma_bins_total_step(times, reference, first, oldest.leap, bins, n);
        let t = times[n - 1];
        if is_recent(t, reference) {
            assert(not_after(oldest, t));
            assert(!t.leap);
            assert(not_after(t, reference));
            let d = t.secs - first;
            assert(0 <= d <= big);
            assert(elapsed_parts(t.secs as int, false, first, false) == d);
            assert(ten_minute_steps(d) == d / 600) by {
                vstd::arithmetic::div_mod::lemma_div_pos_is_pos(d, 60);
                vstd::arithmetic::div_mod::lemma_div_denominator(d, 60, 10);
            }
            assert(d / 600 <= big / 600) by {
                vstd::arithmetic::div_mod::lemma_div_is_ordered(d, big, 600);
            }
            assert(0 <= d / 600) by {
                vstd::arithmetic::div_mod::lemma_div_pos_is_pos(d, 600);
            }
        }
    }
}

/// How many of the first `n` recent times have their 10-minute bin start at
/// `start` (seconds set to zero, minutes floored to a multiple of ten).
pub open spec fn floor_count(times: Seq<Moment>, reference: Moment, start: int, n: int) -> nat
    decreases n,
{
    if n <= 0 {
        0
    } else {
        floor_count(times, reference, start, n - 1) + if is_recent(times[n - 1], reference)
            && bin_floor(times[n - 1].secs as int) == start {
            1nat
        } else {
            0nat
        }
    }
}

proof fn lemma_steps_of_whole(d: int)
    requires
        0 <= d,
    ensures
        ten_minute_steps(d) == d / 600,
{
    vstd::arithmetic::div_mod::lemma_div_pos_is_pos(d, 60);
    vstd::arithmetic::div_mod::lemma_div_denominator(d, 60, 10);
}

proof fn lemma_bin_is_floor(t: int, first: int, k: int)
    requires
        first % 600 == 0,
        first <= t,
    ensures
        ((t - first) / 600 == k) == (bin_floor(t) == first + 600 * k),
{
    let d = t - first;
    let qf = first / 600;
    vstd::arithmetic::div_mod::lemma_fundamental_div_mod(first, 600);
    vstd::arithmetic::div_mod::lemma_fundamental_div_mod(d, 600);
    assert(first == 600 * qf);
    vstd::arithmetic::div_mod::lemma_mod_multiples_vanish(qf, d, 600);
    assert(t % 600 == d % 600);
    assert(bin_floor(t) == first + 600 * (d / 600));
}

/// Without leap seconds the chart's bins are the clock's 10-minute bins:
/// there are as many as there are from the oldest recent parse's bin to the
/// reference's, and bin `k` counts the recent parses whose bin starts `k`
/// steps of 10 minutes after the first.
pub proof fn law_activity_bins_floor_form(times: Seq<Moment>, reference: Moment, k: int, n: int)
    requires
        0 <= n <= times.len(),
        forall|j: int| 0 <= j < times.len() ==> not_after(times[j], reference),
        !reference.leap,
        forall|j: int| 0 <= j < times.len() ==> !(#[trigger] times[j]).leap,
        oldest_recent(times, reference, times.len() as int) is Some,
    ensures
        ({
            let oldest = oldest_recent(times, reference, times.len() as int)->0;
            let first = bin_floor(oldest.secs as int);
            &&& bin_total(reference, first, oldest.leap) == (bin_floor(reference.secs as int) - first) / 600 + 1
            &&& bin_count(times, reference, first, oldest.leap, k, n) == floor_count(
                times,
                reference,
                first + 600 * k,
                n,
            )
        }),
    decreases n,
{
    let oldest = oldest_recent(times, reference, times.len() as int)->0;
    lemma_oldest_recent(times, reference, times.len() as int);
    let jo = choose|j: int| 0 <= j < times.len() && times[j] == oldest;
    assert(!oldest.leap) by {
        assert(!times[jo].leap);
    }
    assert(not_after(times[jo], reference));
    let first = bin_floor(oldest.secs as int);
    let r = reference.secs as int;
    lemma_floor(oldest.secs as int);
    lemma_floor(r);
    lemma_floor_monotone(oldest.secs as int, r);
    lemma_steps_of_whole(bin_floor(r) - first);
    if n > 0 {
        law_activity_bins_floor_form(times, reference, k, n - 1);
        let t = times[n - 1];
        if is_recent(t, reference) {
            assert(not_after(oldest, t));
            assert(!t.leap);
            lemma_steps_of_whole(t.secs - first);
            lemma_bin_is_floor(t.secs as int, first, k);
        }
    }
}

/// The freshness buckets by age in seconds: under 1 hour, 1 to 6 hours, 6 to
/// 24 hours, 1 to 7 days, and 7 days or more; each age in exactly one.
pub proof fn law_freshness_buckets_by_age(age: i128)
    ensures
        freshness_index(age) == 0 <==> age < 3600,
        freshness_index(age) == 1 <==> 3600 <= age < 21600,
        freshness_index(age) == 2 <==> 21600 <= age < 86400,
        freshness_index(age) == 3 <==> 86400 <= age < 604800,
        freshness_index(age) == 4 <==> 604800 <= age,
{
}

/// An active DAG is a suspect when it saved 7 or more new versions within 7
/// days, or 3 or more within 24 hours, and only then; a removed DAG never is.
pub proof fn law_suspect_thresholds(removed: bool, versions_7d: u32, versions_24h: u32)
    ensures
        !removed && versions_7d >= 7 ==> suspect_of(removed, versions_7d, versions_24h),
        !removed && versions_24h >= 3 ==> suspect_of(removed, versions_7d, versions_24h),
        suspect_of(removed, versions_7d, versions_24h) ==> !removed && (versions_7d >= 7
            || versions_24h >= 3),
{
}

/// Each summary count grows by one exactly for an active row with its
/// property: over the timeout, overdue, a new version within 24 hours, a new
/// version within 7 days, a suspect, its latest version saved by its latest
/// parse, a version and a parse but the version not saved by that parse, a
/// parse duration, no parse duration. A removed row adds to none of them.
pub proof fn law_summary_counts_step(rows: Seq<DagFacts>, n: int)
    requires
        0 < n <= rows.len(),
    ensures
        ({
            let r = rows[n - 1];
            let on = |b: bool| if !r.removed && b { 1int } else { 0int };
            &&& count_active(rows, |r: DagFacts| is_over_timeout(r), n) == count_active(
                rows,
                |r: DagFacts| is_over_timeout(r),
                n - 1,
            ) + on(r.over_timeout)
            &&& count_active(rows, |r: DagFacts| is_overdue(r), n) == count_active(
                rows,
                |r: DagFacts| is_overdue(r),
                n - 1,
            ) + on(r.overdue)
            &&& count_active(rows, |r: DagFacts| changed_in_day(r), n) == count_active(
                rows,
                |r: DagFacts| changed_in_day(r),
                n - 1,
            ) + on(r.versions_24h > 0)
            &&& count_active(rows, |r: DagFacts| changed_in_week(r), n) == count_active(
                rows,
                |r: DagFacts| changed_in_week(r),
                n - 1,
            ) + on(r.versions_7d > 0)
            &&& count_active(rows, |r: DagFacts| is_suspect_row(r), n) == count_active(
                rows,
                |r: DagFacts| is_suspect_row(r),
                n - 1,
            ) + on(r.suspect)
            &&& count_active(rows, |r: DagFacts| is_changed_at_last_parse(r), n) == count_active(
                rows,
                |r: DagFacts| is_changed_at_last_parse(r),
                n - 1,
            ) + on(r.changed_at_last_parse)
            &&& count_active(rows, |r: DagFacts| is_unchanged_at_last_parse(r), n) == count_active(
                rows,
                |r: DagFacts| is_unchanged_at_last_parse(r),
                n - 1,
            ) + on(r.last_changed is Some && r.last_parsed is Some && !r.changed_at_last_parse)
            &&& count_active(rows, |r: DagFacts| is_parsed(r), n) == count_active(
                rows,
                |r: DagFacts| is_parsed(r),
                n - 1,
            ) + on(r.parsed)
            &&& count_active(rows, |r: DagFacts| is_missing(r), n) == count_active(
                rows,
                |r: DagFacts| is_missing(r),
                n - 1,
            ) + on(!r.parsed)
            &&& count_active(rows, |r: DagFacts| is_any(r), n) == count_active(
                rows,
                |r: DagFacts| is_any(r),
                n - 1,
            ) + on(true)
            &&& removed_count_of(rows, n) == removed_count_of(rows, n - 1) + if r.removed {
                1int
            } else {
                0int
            }
            &&& removed_missing_of(rows, n) == removed_missing_of(rows, n - 1) + if r.removed
                && !r.parsed {
                1int
            } else {
                0int
            }
        }),
{
}

/// A ranking lists larger keys first; among equal keys, ids in ascending
/// order; among equal keys and ids, rows in their order.
pub proof fn law_ranking_larger_key_first(order: Seq<usize>, ids: Seq<Seq<char>>, keys: Seq<Option<i128>>)
    requires
        ranking_of(order, ids, keys),
    ensures
        forall|a: int, b: int|
            #![trigger order[a], order[b]]
            0 <= a < b < order.len() ==> {
                let x = order[a] as int;
                let y = order[b] as int;
                &&& keys[x]->0 >= keys[y]->0
                &&& keys[x]->0 == keys[y]->0 ==> ids[x] == ids[y] || text_lt(ids[x], ids[y])
                &&& keys[x]->0 == keys[y]->0 && ids[x] == ids[y] ==> x < y
            },
{
    assert forall|a: int, b: int|
        #![trigger order[a], order[b]]
        0 <= a < b < order.len() implies {
            let x = order[a] as int;
            let y = order[b] as int;
            &&& keys[x]->0 >= keys[y]->0
            &&& keys[x]->0 == keys[y]->0 ==> ids[x] == ids[y] || text_lt(ids[x], ids[y])
            &&& keys[x]->0 == keys[y]->0 && ids[x] == ids[y] ==> x < y
        } by {
        let x = order[a] as int;
        let y = order[b] as int;
        assert(ranks_before(ids, keys, x, y));
        if keys[x]->0 == keys[y]->0 && ids[x] == ids[y] {
            lemma_text_lt_irreflexive(ids[x]);
        }
    }
}

/// The version windows on plain times: within 24 hours means later than the
/// reference minus 86,400 seconds, within 7 days later than the reference
/// minus 604,800 seconds; without a reference nothing is within either.
pub proof fn law_version_windows(t: Moment, r: Moment)
    requires
        !t.leap,
        !r.leap,
    ensures
        within(t, Some(r), seconds_in_day()) <==> t.secs > r.secs - 86400,
        within(t, Some(r), seconds_in_week()) <==> t.secs > r.secs - 604800,
        !within(t, None, seconds_in_day()),
        !within(t, None, seconds_in_week()),
{
}

/// The activity chart covers plain parse times later than the reference minus
/// 12 hours, in bins of 10 minutes aligned to the clock.
pub proof fn law_activity_window_and_bins(t: Moment, r: Moment, x: int)
    requires
        !t.leap,
        !r.leap,
    ensures
        is_recent(t, r) <==> t.secs > r.secs - 43200,
        bin_floor(x) % 600 == 0,
        bin_floor(x) <= x < bin_floor(x) + 600,
{
    lemma_floor(x);
}

/// Saturday and Sunday (days 5 and 6 counted from Monday = 0) are the weekend.
pub proof fn law_weekend_days(w: u32)
    requires
        w < 7,
    ensures
        weekend_day(Some(w)) <==> (w == 5 || w == 6),
        !weekend_day(None),
{
}

/// Removed groups come with the most removed DAGs first.
pub proof fn law_removed_groups_most_first(
    groups: Seq<RemovedGroup>,
    applications: Seq<Seq<char>>,
    filelocs: Seq<Seq<char>>,
    removed: Seq<bool>,
)
    requires
        removed_groups_of(groups, applications, filelocs, removed),
    ensures
        forall|a: int, b: int| #![trigger groups[a], groups[b]] 0 <= a < b < groups.len() ==> groups[a].dags >= groups[b].dags,
{
}

/// The activity chart's parse times are those of the DAGs not flagged
/// removed: every DAG whose `is_stale` is not `Some(true)` (a DAG of an
/// export without the flag included) and that has a last parse contributes
/// it, and every time listed comes from such a DAG.
pub proof fn law_active_parse_times_of_unremoved_dags<P>(dags: Seq<Dag<P>>, n: int)
    requires
        0 <= n <= dags.len(),
    ensures
        forall|k: int|
            0 <= k < n && dags[k].is_stale != Some(true) && #[trigger] dags[k].last_parsed is Some
                ==> active_times(dags, n).contains(dags[k].last_parsed->0),
        forall|t: Moment|
            active_times(dags, n).contains(t) ==> exists|k: int|
                0 <= k < n && dags[k].is_stale != Some(true) && #[trigger] dags[k].last_parsed == Some(t),
    decreases n,
{
    if n > 0 {
        law_active_parse_times_of_unremoved_dags(dags, n - 1);
        let prev = active_times(dags, n - 1);
        let cur = active_times(dags, n);
        assert forall|k: int|
            0 <= k < n && dags[k].is_stale != Some(true) && #[trigger] dags[k].last_parsed is Some
                implies cur.contains(dags[k].last_parsed->0) by {
            if k < n - 1 {
                let i = choose|i: int| 0 <= i < prev.len() && prev[i] == dags[k].last_parsed->0;
                if dags[n - 1].is_stale != Some(true) && dags[n - 1].last_parsed is Some {
                    assert(cur[i] == prev[i]);
                }
            } else {
                assert(cur[prev.len() as int] == dags[k].last_parsed->0);
            }
        }
        assert forall|t: Moment| cur.contains(t) implies exists|k: int|
            0 <= k < n && dags[k].is_stale != Some(true) && #[trigger] dags[k].last_parsed == Some(t) by {
            let i = choose|i: int| 0 <= i < cur.len() && cur[i] == t;
            if i < prev.len() {
                assert(prev[i] == cur[i]);
                assert(prev.contains(t));
            } else {
                assert(dags[n - 1].last_parsed == Some(t));
            }
        }
    }
}

/// Every DAG of the export is either active or removed: the active and the
/// removed counts add up to all DAGs.
pub proof fn law_active_and_removed_add_up(rows: Seq<DagFacts>, n: int)
    requires
        0 <= n <= rows.len(),
    ensures
        count_active(rows, |r: DagFacts| is_any(r), n) + removed_count_of(rows, n) == n,
    decreases n,
{
    if n > 0 {
        law_active_and_removed_add_up(rows, n - 1);
    }
}

/// The summary's counts of active DAGs never exceed the active DAGs; the
/// DAGs whose latest parse saved a version and those whose latest parse did
/// not are apart, so together they stay within the active DAGs; removed DAGs
/// without a parse duration are among the removed ones; and every active DAG
/// has a parse duration or is counted missing, never both.
pub proof fn law_summary_counts_within_active(rows: Seq<DagFacts>, n: int)
    requires
        0 <= n <= rows.len(),
    ensures
        forall|p: spec_fn(DagFacts) -> bool|
            #[trigger] count_active(rows, p, n) <= count_active(rows, |r: DagFacts| is_any(r), n),
        count_active(rows, |r: DagFacts| is_changed_at_last_parse(r), n) + count_active(
            rows,
            |r: DagFacts| is_unchanged_at_last_parse(r),
            n,
        ) <= count_active(rows, |r: DagFacts| is_any(r), n),
        removed_missing_of(rows, n) <= removed_count_of(rows, n),
        count_active(rows, |r: DagFacts| is_parsed(r), n) + count_active(
            rows,
            |r: DagFacts| is_missing(r),
            n,
        ) == count_active(rows, |r: DagFacts| is_any(r), n),
    decreases n,
{
    if n > 0 {
        law_summary_counts_within_active(rows, n - 1);
        assert forall|p: spec_fn(DagFacts) -> bool|
            #[trigger] count_active(rows, p, n) <= count_active(rows, |r: DagFacts| is_any(r), n) by {
            assert(count_active(rows, p, n - 1) <= count_active(rows, |r: DagFacts| is_any(r), n - 1));
        }
    }
}

/// A removed DAG is never a suspect, however often it changed.
pub proof fn law_removed_never_suspect(versions_7d: u32, versions_24h: u32)
    ensures
        !suspect_of(true, versions_7d, versions_24h),
{
}

/// The removed DAGs of all the groups, added up.
pub open spec fn removed_dags_total(groups: Seq<RemovedGroup>) -> int
    decreases groups.len(),
{
    if groups.len() == 0 {
        0
    } else {
        removed_dags_total(groups.drop_last()) + groups.last().dags
    }
}

proof fn lemma_removed_dags_total(groups: Seq<RemovedGroup>, applications: Seq<Seq<char>>, removed: Seq<bool>)
    requires
        forall|k: int| 0 <= k < groups.len() ==> #[trigger] groups[k].dags == removed_rows(applications, removed, groups[k].name@).len(),
    ensures
        removed_dags_total(groups) == rows_total(
            applications,
            removed,
            groups.map_values(|g: RemovedGroup| g.name@),
            applications.len() as int,
        ),
    decreases groups.len(),
{
    if groups.len() > 0 {
        let prev = groups.drop_last();
        assert forall|k: int| 0 <= k < prev.len() implies #[trigger] prev[k].dags == removed_rows(applications, removed, prev[k].name@).len() by {
            assert(prev[k] == groups[k]);
        }
        lemma_removed_dags_total(prev, applications, removed);
        assert(groups.map_values(|g: RemovedGroup| g.name@).drop_last() =~= prev.map_values(|g: RemovedGroup| g.name@));
        assert(groups[groups.len() - 1].dags == removed_rows(applications, removed, groups[groups.len() - 1].name@).len());
    }
}

/// Each removed DAG is counted in the group of its application and in no
/// other: the groups' DAG counts add up to the removed DAGs.
pub proof fn law_removed_groups_count_each_removed_dag_once(
    groups: Seq<RemovedGroup>,
    applications: Seq<Seq<char>>,
    filelocs: Seq<Seq<char>>,
    removed: Seq<bool>,
)
    requires
        applications.len() == removed.len(),
        removed_groups_of(groups, applications, filelocs, removed),
    ensures
        removed_dags_total(groups) == selected_count(removed, removed.len() as int),
{
    let n = applications.len() as int;
    let listed = groups.map_values(|g: RemovedGroup| g.name@);
    assert forall|k: int| 0 <= k < groups.len() implies #[trigger] groups[k].dags == removed_rows(applications, removed, groups[k].name@).len() by {
    }
    assert forall|a: int, b: int| 0 <= a < b < listed.len() implies listed[a] != listed[b] by {
        assert(groups[a].dags == removed_rows(applications, removed, groups[a].name@).len());
        assert(groups[b].dags == removed_rows(applications, removed, groups[b].name@).len());
        if listed[a] == listed[b] {
            lemma_text_lt_irreflexive(groups[a].name@);
        }
    }
    assert forall|i: int| 0 <= i < n && removed[i] implies listed.contains(applications[i]) by {
        let k = choose|k: int| 0 <= k < groups.len() && #[trigger] groups[k].name@ == applications[i];
        assert(listed[k] == applications[i]);
    }
    lemma_removed_dags_total(groups, applications, removed);
    lemma_distinct_names_cover(applications, removed, listed, n);
}

} // verus!
