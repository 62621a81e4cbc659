//! Folding the per-version rows of an export into one DAG each.

use vstd::prelude::*;

use crate::clock::Moment;
use crate::group::{group_indices, grouping_of, lemma_members_bounds, members_named};
use crate::model::{
    dag_matches_row, optional_time, parse_optional_timestamp, to_dag, version_after, Dag, RawRow,
};
use crate::order::{ascending, lemma_text_lt_irreflexive, text_lt};
use crate::text::{chars_of, views};

verus! {

broadcast use vstd::seq_lib::group_to_multiset_ensures;

pub open spec fn all_selected(n: int) -> Seq<bool> {
    Seq::new(n as nat, |i: int| true)
}

pub open spec fn row_ids<P>(rows: Seq<RawRow<P>>) -> Seq<Seq<char>> {
    rows.map_values(|r: RawRow<P>| r.dag_id@)
}

/// Indices of the rows of DAG `id`, in row order.
pub open spec fn rows_of<P>(rows: Seq<RawRow<P>>, id: Seq<char>) -> Seq<usize> {
    members_named(row_ids(rows), all_selected(rows.len() as int), id, rows.len() as int)
}

/// The row with the newest version among `members[..k]`: the first one whose
/// version key no later row exceeds.
pub open spec fn newest_among<P>(rows: Seq<RawRow<P>>, members: Seq<usize>, k: int) -> usize
    decreases k,
{
    if k <= 1 {
        members[0]
    } else {
        let best = newest_among(rows, members, k - 1);
        if version_after(rows[members[k - 1] as int].key(), rows[best as int].key()) {
            members[k - 1]
        } else {
            best
        }
    }
}

/// The creation times that the rows `members` carry, in that order.
pub open spec fn created_times<P>(rows: Seq<RawRow<P>>, members: Seq<usize>) -> Seq<Moment>
    decreases members.len(),
{
    if members.len() == 0 {
        Seq::<Moment>::empty()
    } else {
        let prev = created_times(rows, members.drop_last());
        match optional_time(rows[members.last() as int].version_created_at) {
            Some(t) => prev.push(t),
            None => prev,
        }
    }
}

/// `dag` is what the rows of its id fold into.
pub open spec fn folded_from<P>(dag: Dag<P>, rows: Seq<RawRow<P>>) -> bool {
    let members = rows_of(rows, dag.dag_id@);
    &&& members.len() > 0
    &&& dag_matches_row(dag, rows[newest_among(rows, members, members.len() as int) as int])
    &&& ascending(dag.version_times@)
    &&& dag.version_times@.to_multiset() =~= created_times(rows, members).to_multiset()
}

/// Some DAG carries the id `id`.
pub open spec fn has_dag_named<P>(dags: Seq<Dag<P>>, id: Seq<char>) -> bool {
    exists|k: int| 0 <= k < dags.len() && #[trigger] dags[k].dag_id@ == id
}

/// Every row's id is the id of some DAG.
pub open spec fn every_row_has_dag<P>(dags: Seq<Dag<P>>, rows: Seq<RawRow<P>>) -> bool {
    forall|i: int| 0 <= i < rows.len() ==> has_dag_named(dags, #[trigger] rows[i].dag_id@)
}

/// `Option`'s order on version keys.
pub fn is_newer(a: Option<u32>, b: Option<u32>) -> (r: bool)
    ensures
        r == version_after(a, b),
{
    match (a, b) {
        (Some(x), Some(y)) => x > y,
        (Some(_), None) => true,
        _ => false,
    }
}

/// Folds one DAG's rows: the fields of its newest version, every version's creation time.
fn fold_group<P: Copy>(rows: &Vec<RawRow<P>>, members: &Vec<usize>) -> (dag: Dag<P>)
    requires
        members.len() > 0,
        forall|k: int| 0 <= k < members.len() ==> members@[k] < rows.len(),
    ensures
        dag_matches_row(dag, rows@[newest_among(rows@, members@, members.len() as int) as int]),
        ascending(dag.version_times@),
        dag.version_times@.to_multiset() =~= created_times(rows@, members@).to_multiset(),
{
    let mut best = members[0];
    let mut k: usize = 1;
    while k < members.len()
        invariant
            1 <= k <= members.len(),
            forall|j: int| 0 <= j < members.len() ==> members@[j] < rows.len(),
            best == newest_among(rows@, members@, k as int),
            best < rows.len(),
        decreases members.len() - k,
    {
        let candidate = members[k];
        if is_newer(rows[candidate].version_key(), rows[best].version_key()) {
            best = candidate;
        }
        k = k + 1;
    }
    let mut times: Vec<Moment> = Vec::new();
    let mut k: usize = 0;
    while k < members.len()
        invariant
            k <= members.len(),
            forall|j: int| 0 <= j < members.len() ==> members@[j] < rows.len(),
            times@ == created_times(rows@, members@.take(k as int)),
        decreases members.len() - k,
    {
        let row = members[k];
        assert(members@.take(k + 1).drop_last() =~= members@.take(k as int));
        if let Some(t) = parse_optional_timestamp(&rows[row].version_created_at) {
            times.push(t);
        }
        k = k + 1;
    }
    assert(members@.take(members.len() as int) =~= members@);
    to_dag(&rows[best], times)
}

/// The export has one row per DAG version; parse fields repeat the current
/// snapshot, so the row with the highest version stands for its DAG, together
/// with every version's creation time. DAGs come out ordered by id.
pub fn read_dags<P: Copy>(rows: &Vec<RawRow<P>>) -> (dags: Vec<Dag<P>>)
    ensures
        forall|a: int, b: int|
            0 <= a < b < dags.len() ==> text_lt(dags@[a].dag_id@, dags@[b].dag_id@),
        every_row_has_dag(dags@, rows@),
        forall|k: int| 0 <= k < dags.len() ==> folded_from(#[trigger] dags@[k], rows@),
{
    let mut names: Vec<Vec<char>> = Vec::new();
    let mut selected: Vec<bool> = Vec::new();
    let mut i: usize = 0;
    while i < rows.len()
        invariant
            i <= rows.len(),
            names.len() == i,
            selected.len() == i,
            views(names@) == row_ids(rows@).take(i as int),
            selected@ == all_selected(rows.len() as int).take(i as int),
        decreases rows.len() - i,
    {
        let name = chars_of(rows[i].dag_id.as_str());
        names.push(name);
        selected.push(true);
        i = i + 1;
        assert(views(names@) =~= row_ids(rows@).take(i as int));
        assert(selected@ =~= all_selected(rows.len() as int).take(i as int));
    }
    assert(views(names@) =~= row_ids(rows@));
    assert(selected@ =~= all_selected(rows.len() as int));
    let groups = group_indices(&names, &selected);
    let ghost ids = row_ids(rows@);
    let ghost sel = all_selected(rows.len() as int);
    let mut dags: Vec<Dag<P>> = Vec::new();
    let mut g: usize = 0;
    while g < groups.len()
        invariant
            g <= groups.len(),
            ids == row_ids(rows@),
            sel == all_selected(rows.len() as int),
            rows.len() == names.len(),
            grouping_of(groups@, ids, sel, rows.len() as int),
            dags.len() == g,
            forall|k: int| 0 <= k < g ==> #[trigger] dags@[k].dag_id@ == groups@[k].name@,
            forall|k: int| 0 <= k < g ==> folded_from(#[trigger] dags@[k], rows@),
        decreases groups.len() - g,
    {
        let members = &groups[g].members;
        let ghost name = groups@[g as int].name@;
        proof {
            assert(groups@[g as int].members@ == members_named(ids, sel, name, rows.len() as int));
            lemma_members_bounds(ids, sel, name, rows.len() as int);
        }
        let dag = fold_group(rows, members);
        proof {
            let m = members@;
            let w = newest_among(rows@, m, m.len() as int);
            assert(m.len() > 0);
            assert(dag.dag_id@ == rows@[w as int].dag_id@);
            lemma_newest_is_member(rows@, m, m.len() as int);
            let j = choose|j: int| 0 <= j < m.len() && m[j] == w;
            assert(ids[m[j] as int] == name);
            assert(dag.dag_id@ == name);
            assert(rows_of(rows@, dag.dag_id@) == m);
        }
        dags.push(dag);
        g = g + 1;
    }
    proof {
        assert forall|a: int, b: int|
            0 <= a < b < dags.len() implies text_lt(dags@[a].dag_id@, dags@[b].dag_id@) by {
            assert(dags@[a].dag_id@ == groups@[a].name@);
            assert(dags@[b].dag_id@ == groups@[b].name@);
        }
        assert forall|i: int| 0 <= i < rows.len() implies has_dag_named(dags@, #[trigger] rows@[i].dag_id@) by {
            assert(sel[i]);
            assert(ids[i] == rows@[i].dag_id@);
            let a = choose|a: int| 0 <= a < groups@.len() && #[trigger] groups@[a].name@ == ids[i];
            assert(dags@[a].dag_id@ == groups@[a].name@);
            assert(dags@[a].dag_id@ == rows@[i].dag_id@);
        }
    }
    dags
}

proof fn lemma_newest_is_member<P>(rows: Seq<RawRow<P>>, members: Seq<usize>, k: int)
    requires
        1 <= k <= members.len(),
    ensures
        exists|j: int| 0 <= j < k && members[j] == newest_among(rows, members, k),
    decreases k,
{
    if k > 1 {
        lemma_newest_is_member(rows, members, k - 1);
        if version_after(
            rows[members[k - 1] as int].key(),
            rows[newest_among(rows, members, k - 1) as int].key(),
        ) {
            assert(members[k - 1] == newest_among(rows, members, k));
        }
    } else {
        assert(members[0] == newest_among(rows, members, k));
    }
}

/// The fold keeps the newest version: no row of the DAG has a later version
/// key than the row that stands for it, and the rows listed before that one
/// all have earlier keys (ties go to the first row).
pub proof fn law_newest_version_wins<P>(rows: Seq<RawRow<P>>, members: Seq<usize>, k: int)
    requires
        1 <= k <= members.len(),
    ensures
        forall|j: int|
            #![trigger members[j]]
            0 <= j < k ==> !version_after(
                rows[members[j] as int].key(),
                rows[newest_among(rows, members, k) as int].key(),
            ),
        exists|p: int|
            0 <= p < k && members[p] == newest_among(rows, members, k) && forall|j: int|
            #![trigger members[j]]
                0 <= j < p ==> version_after(
                    rows[newest_among(rows, members, k) as int].key(),
                    rows[members[j] as int].key(),
                ),
    decreases k,
{
    if k > 1 {
        law_newest_version_wins(rows, members, k - 1);
        let best = newest_among(rows, members, k - 1);
        if version_after(rows[members[k - 1] as int].key(), rows[best as int].key()) {
            assert forall|j: int| #![trigger members[j]] 0 <= j < k - 1 implies version_after(
                rows[members[k - 1] as int].key(),
                rows[members[j] as int].key(),
            ) by {
                assert(!version_after(rows[members[j] as int].key(), rows[best as int].key()));
            }
            assert(members[k - 1] == newest_among(rows, members, k));
        } else {
            let p = choose|p: int|
                0 <= p < k - 1 && members[p] == best && forall|j: int|
            #![trigger members[j]]
                    0 <= j < p ==> version_after(rows[best as int].key(), rows[members[j] as int].key());
            assert(0 <= p < k && members[p] == newest_among(rows, members, k));
        }
    } else {
        assert(members[0] == newest_among(rows, members, k));
    }
}

/// Folding leaves one DAG per id: no two DAGs share an id.
pub proof fn law_one_dag_per_id<P>(dags: Seq<Dag<P>>)
    requires
        forall|a: int, b: int| 0 <= a < b < dags.len() ==> text_lt(dags[a].dag_id@, dags[b].dag_id@),
    ensures
        forall|a: int, b: int|
            0 <= a < dags.len() && 0 <= b < dags.len() && a != b ==> dags[a].dag_id@ != dags[b].dag_id@,
{
    assert forall|a: int, b: int|
        0 <= a < dags.len() && 0 <= b < dags.len() && a != b implies dags[a].dag_id@ != dags[b].dag_id@ by {
        lemma_text_lt_irreflexive(dags[a].dag_id@);
    }
}

} // verus!
