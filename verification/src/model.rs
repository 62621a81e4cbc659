//! What one exported DAG row says, and the derived names the report groups by.

use vstd::prelude::*;

use crate::clock::{
    chrono_format_datetime, chrono_parse, chrono_timestamp_of, moment_of, moment_text, option_text,
    Moment,
};
use crate::order::{ascending, sort_times};
use crate::text::{
    is_white_space, trim_back, trim_front,
    ascii_lower, ascii_lower_chars, ascii_lower_text, chars_of, same_chars, string_from_chars,
    trim_chars, trimmed, views,
};

verus! {

broadcast use vstd::seq_lib::group_to_multiset_ensures;

/// The layout of every timestamp in the export and in the report.
pub const TIMESTAMP_FORMAT: &'static str = "%Y-%m-%d %H:%M:%S";

// ---------------------------------------------------------------------------
// Application name from the DAG file location
// ---------------------------------------------------------------------------

/// The separator after which a file location is taken relative to the DAG folder.
pub open spec fn dags_marker() -> Seq<char> {
    seq!['/', 'd', 'a', 'g', 's', '/']
}

pub open spec fn marker_at(s: Seq<char>, i: int) -> bool {
    0 <= i && i + 6 <= s.len() && s.subrange(i, i + 6) == dags_marker()
}

/// Index of the first occurrence of `/dags/` at or after `i`.
pub open spec fn find_marker_from(s: Seq<char>, i: int) -> Option<int>
    decreases s.len() - i,
{
    if i < 0 || i + 6 > s.len() {
        None
    } else if marker_at(s, i) {
        Some(i)
    } else {
        find_marker_from(s, i + 1)
    }
}

/// The part of a file location after the first `/dags/`, or all of it.
pub open spec fn relative_path(s: Seq<char>) -> Seq<char> {
    match find_marker_from(s, 0) {
        Some(i) => s.skip(i + 6),
        None => s,
    }
}

/// `str::split` on one separator character: the pieces between separators,
/// always at least one.
pub open spec fn split_on(s: Seq<char>, sep: char) -> Seq<Seq<char>>
    decreases s.len(),
{
    if s.len() == 0 {
        seq![Seq::<char>::empty()]
    } else {
        let prev = split_on(s.drop_last(), sep);
        if s.last() == sep {
            prev.push(Seq::<char>::empty())
        } else {
            prev.update(prev.len() - 1, prev.last().push(s.last()))
        }
    }
}

/// The directories of a file location below the DAG folder (the file name dropped).
pub open spec fn directories(fileloc: Seq<char>) -> Seq<Seq<char>> {
    split_on(relative_path(fileloc), '/').drop_last()
}

/// A directory named like `AP1234-...`: `AP` in any case followed by a digit.
pub open spec fn application_code(dir: Seq<char>) -> bool {
    &&& dir.len() >= 3
    &&& ascii_lower(dir[0]) == 'a'
    &&& ascii_lower(dir[1]) == 'p'
    &&& '0' <= dir[2] && dir[2] <= '9'
}

/// Index of the first application-code directory at or after `k`.
pub open spec fn first_application_from(dirs: Seq<Seq<char>>, k: int) -> Option<int>
    decreases dirs.len() - k,
{
    if k < 0 || k >= dirs.len() {
        None
    } else if application_code(dirs[k]) {
        Some(k)
    } else {
        first_application_from(dirs, k + 1)
    }
}

pub open spec fn root_label() -> Seq<char> {
    seq!['(', 'r', 'o', 'o', 't', ')']
}

/// First directory named like an application code, else the last one, else
/// `(root)`.
pub open spec fn pick_application(dirs: Seq<Seq<char>>) -> Seq<char> {
    match first_application_from(dirs, 0) {
        Some(k) => dirs[k],
        None => if dirs.len() > 0 {
            dirs.last()
        } else {
            root_label()
        },
    }
}

/// First directory named like an application code, else the file's parent
/// directory, else `(root)`.
pub open spec fn application_of(fileloc: Seq<char>) -> Seq<char> {
    pick_application(directories(fileloc))
}

fn is_application_code_chars(dir: &Vec<char>) -> (r: bool)
    ensures
        r == application_code(dir@),
{
    dir.len() >= 3 && crate::text::ascii_lower_char(dir[0]) == 'a'
        && crate::text::ascii_lower_char(dir[1]) == 'p' && '0' <= dir[2] && dir[2] <= '9'
}

/// Whether a directory name looks like an application code (`AP` in any case,
/// then a digit).
pub fn is_application_code(dir: &str) -> (r: bool)
    ensures
        r == application_code(dir@),
{
    let chars = chars_of(dir);
    is_application_code_chars(&chars)
}

fn marker_at_exec(s: &Vec<char>, i: usize) -> (r: bool)
    requires
        i + 6 <= s.len(),
    ensures
        r == marker_at(s@, i as int),
{
    let r = s[i] == '/' && s[i + 1] == 'd' && s[i + 2] == 'a' && s[i + 3] == 'g' && s[i + 4]
        == 's' && s[i + 5] == '/';
    proof {
        if r {
            assert(s@.subrange(i as int, i + 6) =~= dags_marker());
        } else {
            if s@.subrange(i as int, i + 6) == dags_marker() {
                assert(s@.subrange(i as int, i + 6)[0] == s@[i as int]);
                assert(s@.subrange(i as int, i + 6)[1] == s@[i + 1]);
                assert(s@.subrange(i as int, i + 6)[2] == s@[i + 2]);
                assert(s@.subrange(i as int, i + 6)[3] == s@[i + 3]);
                assert(s@.subrange(i as int, i + 6)[4] == s@[i + 4]);
                assert(s@.subrange(i as int, i + 6)[5] == s@[i + 5]);
            }
        }
    }
    r
}

/// Start of the part after the first `/dags/`, or 0.
fn relative_start(s: &Vec<char>) -> (start: usize)
    ensures
        start <= s.len(),
        s@.skip(start as int) == relative_path(s@),
{
    let mut i: usize = 0;
    while i < s.len() && s.len() - i >= 6
        invariant
            i <= s.len(),
            find_marker_from(s@, 0) == find_marker_from(s@, i as int),
        decreases s.len() - i,
    {
        if marker_at_exec(s, i) {
            return i + 6;
        }
        i = i + 1;
    }
    assert(s@.skip(0) =~= s@);
    0
}

proof fn lemma_split_push(s: Seq<char>, sep: char, c: char)
    ensures
        split_on(s.push(c), sep) == ({
            let prev = split_on(s, sep);
            if c == sep {
                prev.push(Seq::<char>::empty())
            } else {
                prev.update(prev.len() - 1, prev.last().push(c))
            }
        }),
{
    assert(s.push(c).drop_last() =~= s);
}

proof fn lemma_split_nonempty(s: Seq<char>, sep: char)
    ensures
        split_on(s, sep).len() >= 1,
    decreases s.len(),
{
    if s.len() > 0 {
        lemma_split_nonempty(s.drop_last(), sep);
    }
}

/// The pieces of `s[start..]` between `sep` characters.
pub fn split_chars(s: &Vec<char>, start: usize, sep: char) -> (pieces: Vec<Vec<char>>)
    requires
        start <= s.len(),
    ensures
        views(pieces@) == split_on(s@.skip(start as int), sep),
{
    let mut pieces: Vec<Vec<char>> = Vec::new();
    let mut cur: Vec<char> = Vec::new();
    let mut i: usize = start;
    proof {
        assert(s@.skip(start as int).take(0) =~= Seq::<char>::empty());
        assert(views(pieces@).push(cur@) =~= seq![Seq::<char>::empty()]);
    }
    while i < s.len()
        invariant
            start <= i <= s.len(),
            views(pieces@).push(cur@) == split_on(s@.skip(start as int).take(i - start), sep),
        decreases s.len() - i,
    {
        let c = s[i];
        let ghost prefix = s@.skip(start as int).take(i - start);
        let ghost before = views(pieces@).push(cur@);
        let ghost old_pieces = pieces@;
        proof {
            assert(s@.skip(start as int).take(i + 1 - start) =~= prefix.push(c));
            lemma_split_push(prefix, sep, c);
        }
        if c == sep {
            let done = cur;
            pieces.push(done);
            cur = Vec::new();
            assert(views(pieces@) =~= views(old_pieces).push(done@));
            assert(views(pieces@).push(cur@) =~= before.push(Seq::<char>::empty()));
        } else {
            cur.push(c);
            assert(views(pieces@).push(cur@) =~= before.update(
                before.len() - 1,
                before.last().push(c),
            ));
        }
        i = i + 1;
    }
    assert(s@.skip(start as int).take(s.len() - start) =~= s@.skip(start as int));
    let ghost old_pieces = pieces@;
    let last = cur;
    pieces.push(last);
    assert(views(pieces@) =~= views(old_pieces).push(last@));
    pieces
}

/// First directory named like `AP1234-...`, else the file's parent directory.
pub fn application_from_fileloc(fileloc: &str) -> (app: String)
    ensures
        app@ == application_of(fileloc@),
{
    let chars = chars_of(fileloc);
    let start = relative_start(&chars);
    let pieces = split_chars(&chars, start, '/');
    let ghost all = split_on(chars@.skip(start as int), '/');
    let ghost dirs = all.drop_last();
    proof {
        lemma_split_nonempty(chars@.skip(start as int), '/');
        assert(dirs == directories(fileloc@));
    }
    let n_dirs = pieces.len() - 1;
    let mut k: usize = 0;
    while k < n_dirs
        invariant
            n_dirs == pieces.len() - 1,
            views(pieces@) == all,
            dirs == all.drop_last(),
            dirs == directories(fileloc@),
            k <= n_dirs,
            first_application_from(dirs, 0) == first_application_from(dirs, k as int),
        decreases n_dirs - k,
    {
        assert(all[k as int] == pieces[k as int]@);
        if is_application_code_chars(&pieces[k]) {
            let app = string_from_chars(&pieces[k]);
            assert(first_application_from(dirs, k as int) == Some(k as int));
            assert(app@ == pick_application(dirs));
            return app;
        }
        k = k + 1;
    }
    assert(first_application_from(dirs, n_dirs as int) == None::<int>);
    if n_dirs > 0 {
        assert(all[n_dirs - 1] == pieces[n_dirs - 1]@);
        let app = string_from_chars(&pieces[n_dirs - 1]);
        assert(app@ == pick_application(dirs));
        app
    } else {
        let root = vec!['(', 'r', 'o', 'o', 't', ')'];
        assert(root@ =~= root_label());
        string_from_chars(&root)
    }
}

// ---------------------------------------------------------------------------
// Environment from the DAG id
// ---------------------------------------------------------------------------

pub open spec fn is_environment_separator(c: char) -> bool {
    c == '-' || c == '_'
}

/// The part of a DAG id after its last `-` or `_` (all of it when there is none).
pub open spec fn after_last_separator(s: Seq<char>) -> Seq<char>
    decreases s.len(),
{
    if s.len() == 0 {
        s
    } else if is_environment_separator(s.last()) {
        Seq::<char>::empty()
    } else {
        after_last_separator(s.drop_last()).push(s.last())
    }
}

/// The environment names recognised as DAG id suffixes.
pub open spec fn known_environments() -> Seq<Seq<char>> {
    seq![
        seq!['d', 'e', 'v'],
        seq!['s', 'i', 't'],
        seq!['q', 'a'],
        seq!['u', 'a', 't'],
        seq!['n', 'o', 'n', 'p', 'r', 'o', 'd'],
        seq!['p', 'r', 'e', 'p', 'r', 'o', 'd'],
        seq!['s', 't', 'a', 'g', 'i', 'n', 'g'],
        seq!['p', 'r', 'o', 'd'],
    ]
}

pub open spec fn other_label() -> Seq<char> {
    seq!['o', 't', 'h', 'e', 'r']
}

/// The lower-cased suffix of a DAG id when it names a known environment, else `other`.
pub open spec fn environment_of(dag_id: Seq<char>) -> Seq<char> {
    let suffix = ascii_lower_text(after_last_separator(dag_id));
    if known_environments().contains(suffix) {
        suffix
    } else {
        other_label()
    }
}

proof fn lemma_after_last_separator(s: Seq<char>, p: int)
    requires
        0 <= p <= s.len(),
        forall|k: int| p <= k < s.len() ==> !is_environment_separator(s[k]),
        p == 0 || is_environment_separator(s[p - 1]),
    ensures
        after_last_separator(s) == s.skip(p),
    decreases s.len() - p,
{
    if s.len() == p {
        assert(s.skip(p) =~= Seq::<char>::empty());
    } else {
        lemma_after_last_separator(s.drop_last(), p);
        assert(s.drop_last().skip(p).push(s.last()) =~= s.skip(p));
    }
}

/// Whether `word` is one of `list`.
pub fn word_in(word: &Vec<char>, list: &Vec<Vec<char>>) -> (r: bool)
    ensures
        r == views(list@).contains(word@),
{
    let mut i: usize = 0;
    while i < list.len()
        invariant
            i <= list.len(),
            forall|k: int| 0 <= k < i ==> list@[k]@ != word@,
        decreases list.len() - i,
    {
        if same_chars(&list[i], word) {
            assert(views(list@)[i as int] == word@);
            return true;
        }
        i = i + 1;
    }
    proof {
        if views(list@).contains(word@) {
            let k = choose|k: int| 0 <= k < views(list@).len() && views(list@)[k] == word@;
            assert(list@[k]@ == word@);
        }
    }
    false
}

fn known_environment_list() -> (list: Vec<Vec<char>>)
    ensures
        views(list@) == known_environments(),
{
    let list = vec![
        vec!['d', 'e', 'v'],
        vec!['s', 'i', 't'],
        vec!['q', 'a'],
        vec!['u', 'a', 't'],
        vec!['n', 'o', 'n', 'p', 'r', 'o', 'd'],
        vec!['p', 'r', 'e', 'p', 'r', 'o', 'd'],
        vec!['s', 't', 'a', 'g', 'i', 'n', 'g'],
        vec!['p', 'r', 'o', 'd'],
    ];
    assert(views(list@) =~= known_environments());
    list
}

/// The environment a DAG belongs to, read from the suffix of its id.
pub fn environment_from_dag_id(dag_id: &str) -> (env: String)
    ensures
        env@ == environment_of(dag_id@),
{
    let chars = chars_of(dag_id);
    let mut p: usize = chars.len();
    while p > 0 && !(chars[p - 1] == '-' || chars[p - 1] == '_')
        invariant
            p <= chars.len(),
            forall|k: int| p <= k < chars.len() ==> !is_environment_separator(chars@[k]),
        decreases p,
    {
        p = p - 1;
    }
    proof {
        lemma_after_last_separator(chars@, p as int);
    }
    let mut suffix: Vec<char> = Vec::new();
    let mut k: usize = p;
    while k < chars.len()
        invariant
            p <= k <= chars.len(),
            suffix@ == chars@.subrange(p as int, k as int),
        decreases chars.len() - k,
    {
        suffix.push(chars[k]);
        k = k + 1;
        assert(suffix@ =~= chars@.subrange(p as int, k as int));
    }
    assert(suffix@ =~= chars@.skip(p as int));
    let lowered = ascii_lower_chars(&suffix);
    let known = known_environment_list();
    if word_in(&lowered, &known) {
        string_from_chars(&lowered)
    } else {
        let other = vec!['o', 't', 'h', 'e', 'r'];
        assert(other@ =~= other_label());
        string_from_chars(&other)
    }
}

// ---------------------------------------------------------------------------
// Booleans as exported by Postgres clients
// ---------------------------------------------------------------------------

pub open spec fn true_words() -> Seq<Seq<char>> {
    seq![seq!['t', 'r', 'u', 'e'], seq!['t'], seq!['1'], seq!['y', 'e', 's']]
}

pub open spec fn false_words() -> Seq<Seq<char>> {
    seq![seq!['f', 'a', 'l', 's', 'e'], seq!['f'], seq!['0'], seq!['n', 'o']]
}

/// `true`/`t`/`1`/`yes` and `false`/`f`/`0`/`no`, in any ASCII case and with
/// surrounding white space.
pub open spec fn bool_of(value: Seq<char>) -> Option<bool> {
    let word = ascii_lower_text(trimmed(value));
    if true_words().contains(word) {
        Some(true)
    } else if false_words().contains(word) {
        Some(false)
    } else {
        None
    }
}

fn true_word_list() -> (list: Vec<Vec<char>>)
    ensures
        views(list@) == true_words(),
{
    let list = vec![vec!['t', 'r', 'u', 'e'], vec!['t'], vec!['1'], vec!['y', 'e', 's']];
    assert(list@[1]@ =~= seq!['t']);
    assert(list@[2]@ =~= seq!['1']);
    assert(views(list@) =~= true_words());
    list
}

fn false_word_list() -> (list: Vec<Vec<char>>)
    ensures
        views(list@) == false_words(),
{
    let list = vec![vec!['f', 'a', 'l', 's', 'e'], vec!['f'], vec!['0'], vec!['n', 'o']];
    assert(list@[1]@ =~= seq!['f']);
    assert(list@[2]@ =~= seq!['0']);
    assert(views(list@) =~= false_words());
    list
}

/// Postgres exports booleans as `true`/`false` or `t`/`f` depending on the client.
pub fn parse_bool(value: &str) -> (r: Option<bool>)
    ensures
        r == bool_of(value@),
{
    let chars = chars_of(value);
    let trimmed_chars = trim_chars(&chars);
    let word = ascii_lower_chars(&trimmed_chars);
    let truthy = true_word_list();
    let falsy = false_word_list();
    if word_in(&word, &truthy) {
        Some(true)
    } else if word_in(&word, &falsy) {
        Some(false)
    } else {
        None
    }
}

// ---------------------------------------------------------------------------
// Timestamps
// ---------------------------------------------------------------------------

/// The time in an exported timestamp field: chrono's reading of the trimmed text.
pub open spec fn timestamp_of(value: Seq<char>) -> Option<Moment> {
    moment_of(chrono_timestamp_of(trimmed(value)))
}

/// A time as chrono reads it: written out again it gives text, and a leap
/// second follows the 59th second of a minute.
pub open spec fn readable(m: Moment) -> bool {
    &&& moment_text(m) is Some
    &&& (m.leap ==> m.secs % 60 == 59)
}

/// Reads `%Y-%m-%d %H:%M:%S` (surrounding white space ignored) as seconds since
/// 1970-01-01 00:00:00; second 60 reads as a leap second.
pub fn parse_timestamp(value: &str) -> (t: Option<Moment>)
    ensures
        t == timestamp_of(value@),
        t matches Some(m) ==> readable(m),
{
    let chars = chars_of(value);
    let trimmed_chars = trim_chars(&chars);
    let text = string_from_chars(&trimmed_chars);
    match chrono_parse(text.as_str()) {
        Some((secs, nanos)) => Some(Moment { secs, leap: nanos != 0 }),
        None => None,
    }
}

/// Writes a time as `%Y-%m-%d %H:%M:%S`, a leap second as `:60`.
pub fn format_timestamp(t: Moment) -> (text: Option<String>)
    ensures
        option_text(text) == moment_text(t),
{
    let nanos: u32 = if t.leap {
        1_000_000_000
    } else {
        0
    };
    chrono_format_datetime(t.secs, nanos)
}

/// The time of an optional exported timestamp field.
pub open spec fn optional_time(field: Option<String>) -> Option<Moment> {
    match field {
        Some(text) => timestamp_of(text@),
        None => None,
    }
}

pub fn parse_optional_timestamp(field: &Option<String>) -> (t: Option<Moment>)
    ensures
        t == optional_time(*field),
        t matches Some(m) ==> readable(m),
{
    match field {
        Some(text) => parse_timestamp(text.as_str()),
        None => None,
    }
}

// ---------------------------------------------------------------------------
// Rows and DAGs
// ---------------------------------------------------------------------------

/// One row of the export. Exports differ in shape: all-versions rows carry
/// `version_number` (and optionally `latest_version`/`version_count`); the
/// latest-only export carries just `latest_version`. `P` is the parse duration
/// as the caller holds it; the library carries it without reading it.
pub struct RawRow<P> {
    pub dag_id: String,
    pub fileloc: String,
    pub last_parsed_time: Option<String>,
    pub parse_seconds: P,
    pub version_number: Option<u32>,
    pub latest_version: Option<u32>,
    pub version_count: Option<u32>,
    pub is_stale: Option<String>,
    pub version_created_at: Option<String>,
}

/// `Option`'s order: `None` first, then by value.
pub open spec fn version_after(a: Option<u32>, b: Option<u32>) -> bool {
    match (a, b) {
        (Some(x), Some(y)) => x > y,
        (Some(_), None) => true,
        _ => false,
    }
}

impl<P> RawRow<P> {
    pub open spec fn key(&self) -> Option<u32> {
        match self.version_number {
            Some(n) => Some(n),
            None => self.latest_version,
        }
    }

    pub open spec fn version_total(&self) -> u32 {
        match self.version_count {
            Some(n) => n,
            None => match self.latest_version {
                Some(n) => n,
                None => match self.version_number {
                    Some(n) => n,
                    None => 0,
                },
            },
        }
    }

    /// Orders rows of the same DAG so the newest version wins.
    pub fn version_key(&self) -> (k: Option<u32>)
        ensures
            k == self.key(),
    {
        match self.version_number {
            Some(n) => Some(n),
            None => self.latest_version,
        }
    }

    /// Exact count when exported, else the latest version number (assumes no gaps).
    pub fn versions(&self) -> (n: u32)
        ensures
            n == self.version_total(),
    {
        match self.version_count {
            Some(n) => n,
            None => match self.latest_version {
                Some(n) => n,
                None => match self.version_number {
                    Some(n) => n,
                    None => 0,
                },
            },
        }
    }
}

/// One DAG, deduplicated from its per-version rows.
pub struct Dag<P> {
    pub dag_id: String,
    pub fileloc: String,
    pub application: String,
    pub environment: String,
    pub parse_seconds: P,
    /// The last parse.
    pub last_parsed: Option<Moment>,
    pub versions: u32,
    /// `None` when the export has no `is_stale` column.
    pub is_stale: Option<bool>,
    /// `created_at` of every exported version, ascending. Complete only for the
    /// all-versions export.
    pub version_times: Vec<Moment>,
}

/// The staleness flag of a row.
pub open spec fn stale_flag(field: Option<String>) -> Option<bool> {
    match field {
        Some(text) => bool_of(text@),
        None => None,
    }
}

/// What the DAG built from `row` holds, `times` aside.
pub open spec fn dag_matches_row<P>(dag: Dag<P>, row: RawRow<P>) -> bool {
    &&& dag.dag_id@ == row.dag_id@
    &&& dag.fileloc@ == row.fileloc@
    &&& dag.application@ == application_of(row.fileloc@)
    &&& dag.environment@ == environment_of(row.dag_id@)
    &&& dag.parse_seconds == row.parse_seconds
    &&& dag.last_parsed == optional_time(row.last_parsed_time)
    &&& dag.versions == row.version_total()
    &&& dag.is_stale == stale_flag(row.is_stale)
}

/// The DAG that `row` describes, with `version_times` put in ascending order.
pub fn to_dag<P: Copy>(row: &RawRow<P>, version_times: Vec<Moment>) -> (dag: Dag<P>)
    ensures
        dag_matches_row(dag, *row),
        ascending(dag.version_times@),
        dag.version_times@.to_multiset() =~= version_times@.to_multiset(),
        dag.last_parsed matches Some(m) ==> readable(m),
{
    let version_times = sort_times(version_times);
    let application = application_from_fileloc(row.fileloc.as_str());
    let environment = environment_from_dag_id(row.dag_id.as_str());
    let last_parsed = parse_optional_timestamp(&row.last_parsed_time);
    let versions = row.versions();
    let is_stale = match &row.is_stale {
        Some(text) => parse_bool(text.as_str()),
        None => None,
    };
    Dag {
        dag_id: row.dag_id.clone(),
        fileloc: row.fileloc.clone(),
        application,
        environment,
        parse_seconds: row.parse_seconds,
        last_parsed,
        versions,
        is_stale,
        version_times,
    }
}

// ---------------------------------------------------------------------------
// Laws
// ---------------------------------------------------------------------------

proof fn lemma_first_application(dirs: Seq<Seq<char>>, k: int)
    requires
        0 <= k,
    ensures
        first_application_from(dirs, k) matches Some(j) ==> k <= j < dirs.len() && application_code(dirs[j]),
        (exists|j: int| k <= j < dirs.len() && application_code(dirs[j])) ==> first_application_from(dirs, k) is Some,
    decreases dirs.len() - k,
{
    if k < dirs.len() && !application_code(dirs[k]) {
        lemma_first_application(dirs, k + 1);
        if exists|j: int| k <= j < dirs.len() && application_code(dirs[j]) {
            let j = choose|j: int| k <= j < dirs.len() && application_code(dirs[j]);
            assert(j != k);
        }
    }
}

/// The application of a DAG is one of the directories of its file location
/// (or `(root)` when the file sits directly in the DAG folder), and whenever
/// some directory is named like an application code, the one picked is.
pub proof fn law_application_is_a_directory(fileloc: Seq<char>)
    ensures
        application_of(fileloc) == root_label() || directories(fileloc).contains(application_of(fileloc)),
        (exists|j: int| 0 <= j < directories(fileloc).len() && application_code(#[trigger] directories(fileloc)[j]))
            ==> application_code(application_of(fileloc)),
{
    let dirs = directories(fileloc);
    lemma_first_application(dirs, 0);
    match first_application_from(dirs, 0) {
        Some(j) => {
            assert(dirs[j] == application_of(fileloc));
        },
        None => {
            if dirs.len() > 0 {
                assert(dirs[dirs.len() - 1] == application_of(fileloc));
            }
        },
    }
}

/// The environment is always one of the known environments or `other`.
pub proof fn law_environment_is_known_or_other(dag_id: Seq<char>)
    ensures
        environment_of(dag_id) == other_label() || known_environments().contains(environment_of(dag_id)),
{
}

/// A DAG id names its environment in the part after its last `-` or `_`
/// (the whole id when it has none), in any ASCII case: `dev`, `sit`, `qa`,
/// `uat`, `nonprod`, `preprod`, `staging` or `prod`, lower-cased; any other
/// suffix gives `other`.
pub proof fn law_environment_names(prefix: Seq<char>, suffix: Seq<char>)
    requires
        prefix.len() == 0 || prefix.last() == '-' || prefix.last() == '_',
        forall|k: int| 0 <= k < suffix.len() ==> #[trigger] suffix[k] != '-' && suffix[k] != '_',
    ensures
        ({
            let e = ascii_lower_text(suffix);
            let listed = e == seq!['d', 'e', 'v'] || e == seq!['s', 'i', 't'] || e == seq!['q', 'a']
                || e == seq!['u', 'a', 't'] || e == seq!['n', 'o', 'n', 'p', 'r', 'o', 'd']
                || e == seq!['p', 'r', 'e', 'p', 'r', 'o', 'd'] || e == seq![
                's',
                't',
                'a',
                'g',
                'i',
                'n',
                'g',
            ] || e == seq!['p', 'r', 'o', 'd'];
            &&& listed ==> environment_of(prefix + suffix) == e
            &&& !listed ==> environment_of(prefix + suffix) == seq!['o', 't', 'h', 'e', 'r']
        }),
{
    let s = prefix + suffix;
    let p = prefix.len() as int;
    assert forall|k: int| p <= k < s.len() implies !is_environment_separator(s[k]) by {
        assert(s[k] == suffix[k - p]);
        assert(suffix[k - p] != '-' && suffix[k - p] != '_');
    }
    if p > 0 {
        assert(s[p - 1] == prefix.last());
    }
    lemma_after_last_separator(s, p);
    assert(s.skip(p) =~= suffix);
    let e = ascii_lower_text(suffix);
    let known = known_environments();
    assert(known[0] == seq!['d', 'e', 'v']);
    assert(known[1] == seq!['s', 'i', 't']);
    assert(known[2] == seq!['q', 'a']);
    assert(known[3] == seq!['u', 'a', 't']);
    assert(known[4] == seq!['n', 'o', 'n', 'p', 'r', 'o', 'd']);
    assert(known[5] == seq!['p', 'r', 'e', 'p', 'r', 'o', 'd']);
    assert(known[6] == seq!['s', 't', 'a', 'g', 'i', 'n', 'g']);
    assert(known[7] == seq!['p', 'r', 'o', 'd']);
    assert(known.len() == 8);
    if known.contains(e) {
        let k = choose|k: int| 0 <= k < known.len() && known[k] == e;
        assert(k == 0 || k == 1 || k == 2 || k == 3 || k == 4 || k == 5 || k == 6 || k == 7);
    }
    assert(other_label() =~= seq!['o', 't', 'h', 'e', 'r']);
}

/// A directory is an application code exactly when it has at least three
/// characters: `A` or `a`, then `P` or `p`, then a decimal digit.
pub proof fn law_application_code_shape(dir: Seq<char>)
    ensures
        application_code(dir) <==> dir.len() >= 3 && (dir[0] == 'a' || dir[0] == 'A') && (dir[1]
            == 'p' || dir[1] == 'P') && '0' <= dir[2] <= '9',
{
    if dir.len() >= 3 {
        lemma_lower_is(dir[0], 'a', 'A');
        lemma_lower_is(dir[1], 'p', 'P');
    }
}

proof fn lemma_lower_is(c: char, lower: char, upper: char)
    requires
        'a' <= lower <= 'z',
        upper as u32 + 32 == lower as u32,
    ensures
        ascii_lower(c) == lower <==> (c == lower || c == upper),
{
    if 'A' <= c && c <= 'Z' {
        assert(ascii_lower(c) as u32 == c as u32 + 32);
    }
}

/// The boolean words, after trimming white space and lower-casing ASCII:
/// `true`, `t`, `1`, `yes` read true; `false`, `f`, `0`, `no` read false;
/// anything else reads as nothing.
pub proof fn law_bool_words(value: Seq<char>)
    ensures
        ({
            let w = ascii_lower_text(trimmed(value));
            let yes = w == seq!['t', 'r', 'u', 'e'] || w == seq!['t'] || w == seq!['1'] || w == seq![
                'y',
                'e',
                's',
            ];
            let no = w == seq!['f', 'a', 'l', 's', 'e'] || w == seq!['f'] || w == seq!['0'] || w
                == seq!['n', 'o'];
            &&& yes ==> bool_of(value) == Some(true)
            &&& no ==> bool_of(value) == Some(false)
            &&& !yes && !no ==> bool_of(value) is None
        }),
{
    let w = ascii_lower_text(trimmed(value));
    let t = true_words();
    let f = false_words();
    assert(t.len() == 4 && f.len() == 4);
    assert(t[0] == seq!['t', 'r', 'u', 'e'] && t[1] == seq!['t'] && t[2] == seq!['1'] && t[3] == seq!['y', 'e', 's']);
    assert(f[0] == seq!['f', 'a', 'l', 's', 'e'] && f[1] == seq!['f'] && f[2] == seq!['0'] && f[3] == seq!['n', 'o']);
    assert(t[0][0] == 't' && t[1][0] == 't' && t[2][0] == '1' && t[3][0] == 'y');
    assert(f[0][0] == 'f' && f[1][0] == 'f' && f[2][0] == '0' && f[3][0] == 'n');
    if t.contains(w) {
        let k = choose|k: int| 0 <= k < t.len() && t[k] == w;
        assert(k == 0 || k == 1 || k == 2 || k == 3);
        assert(w[0] == 't' || w[0] == '1' || w[0] == 'y');
    }
    if f.contains(w) {
        let k = choose|k: int| 0 <= k < f.len() && f[k] == w;
        assert(k == 0 || k == 1 || k == 2 || k == 3);
        assert(w[0] == 'f' || w[0] == '0' || w[0] == 'n');
    }
}

/// Versions compare as `Option`s do: a number beats no number, a larger
/// number beats a smaller one, and nothing beats itself.
pub proof fn law_version_order(a: Option<u32>, b: Option<u32>)
    ensures
        (a is Some && b is None) ==> version_after(a, b),
        (a is None) ==> !version_after(a, b),
        (a is Some && b is Some) ==> (version_after(a, b) <==> a->0 > b->0),
{
}

/// The application is the first directory named like an application code;
/// with none, the file's parent directory; with no directory, `(root)`.
pub proof fn law_application_pick(fileloc: Seq<char>)
    ensures
        ({
            let dirs = directories(fileloc);
            &&& forall|j: int|
                0 <= j < dirs.len() && application_code(#[trigger] dirs[j]) && (forall|i: int|
                    0 <= i < j ==> !application_code(dirs[i])) ==> application_of(fileloc) == dirs[j]
            &&& (forall|i: int| 0 <= i < dirs.len() ==> !application_code(#[trigger] dirs[i]))
                && dirs.len() > 0 ==> application_of(fileloc) == dirs[dirs.len() - 1]
            &&& dirs.len() == 0 ==> application_of(fileloc) == seq!['(', 'r', 'o', 'o', 't', ')']
        }),
{
    let dirs = directories(fileloc);
    lemma_first_application(dirs, 0);
    assert forall|j: int|
        0 <= j < dirs.len() && application_code(#[trigger] dirs[j]) && (forall|i: int|
            0 <= i < j ==> !application_code(dirs[i])) implies application_of(fileloc) == dirs[j] by {
        let f = first_application_from(dirs, 0)->0;
        assert(application_code(dirs[f]));
        if f < j {
            assert(!application_code(dirs[f]));
        }
        if f > j {
            lemma_first_before(dirs, 0, j);
        }
    }
    if forall|i: int| 0 <= i < dirs.len() ==> !application_code(#[trigger] dirs[i]) {
        if first_application_from(dirs, 0) is Some {
            let f = first_application_from(dirs, 0)->0;
            assert(application_code(dirs[f]));
        }
    }
}

proof fn lemma_first_before(dirs: Seq<Seq<char>>, k: int, j: int)
    requires
        0 <= k <= j < dirs.len(),
        application_code(dirs[j]),
    ensures
        first_application_from(dirs, k) matches Some(f) && f <= j,
    decreases j - k,
{
    if !application_code(dirs[k]) {
        lemma_first_before(dirs, k + 1, j);
    }
}

proof fn lemma_lower_char(c: char)
    ensures
        is_white_space(ascii_lower(c)) == is_white_space(c),
        ascii_lower(ascii_lower(c)) == ascii_lower(c),
{
    if 'A' <= c && c <= 'Z' {
        let u = (c as u32) + 32;
        assert(97 <= u <= 122);
        assert(ascii_lower(c) as u32 == u);
    }
}

proof fn lemma_lower_trim_front(s: Seq<char>)
    ensures
        trim_front(ascii_lower_text(s)) == ascii_lower_text(trim_front(s)),
    decreases s.len(),
{
    if s.len() > 0 {
        lemma_lower_char(s[0]);
        assert(ascii_lower_text(s)[0] == ascii_lower(s[0]));
        if is_white_space(s[0]) {
            assert(ascii_lower_text(s).drop_first() =~= ascii_lower_text(s.drop_first()));
            lemma_lower_trim_front(s.drop_first());
        }
    }
}

proof fn lemma_lower_trim_back(s: Seq<char>)
    ensures
        trim_back(ascii_lower_text(s)) == ascii_lower_text(trim_back(s)),
    decreases s.len(),
{
    if s.len() > 0 {
        lemma_lower_char(s.last());
        assert(ascii_lower_text(s).last() == ascii_lower(s.last()));
        if is_white_space(s.last()) {
            assert(ascii_lower_text(s).drop_last() =~= ascii_lower_text(s.drop_last()));
            lemma_lower_trim_back(s.drop_last());
        }
    }
}

/// Booleans are read regardless of ASCII case: lower-casing the field first
/// changes nothing.
pub proof fn law_bool_ignores_case(value: Seq<char>)
    ensures
        bool_of(ascii_lower_text(value)) == bool_of(value),
{
    lemma_lower_trim_front(value);
    lemma_lower_trim_back(trim_front(value));
    let t = trimmed(value);
    assert(trimmed(ascii_lower_text(value)) == ascii_lower_text(t));
    assert forall|k: int| 0 <= k < t.len() implies ascii_lower_text(ascii_lower_text(t))[k] == ascii_lower_text(t)[k] by {
        lemma_lower_char(t[k]);
    }
    assert(ascii_lower_text(ascii_lower_text(t)) =~= ascii_lower_text(t));
}

} // verus!
