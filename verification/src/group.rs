//! Grouping row indices by a name, groups in name order, as an ordered map
//! keyed by the name would hold them.

use vstd::prelude::*;

use crate::order::{
    lemma_text_lt_irreflexive, lemma_text_lt_total, lemma_text_lt_transitive, text_lt,
    text_precedes,
};
use crate::text::{same_chars, views};

verus! {

/// The rows sharing one name, in row order.
pub struct Group {
    pub name: Vec<char>,
    pub members: Vec<usize>,
}

/// Indices below `n` of the included rows named `name`, ascending.
pub open spec fn members_named(
    names: Seq<Seq<char>>,
    selected: Seq<bool>,
    name: Seq<char>,
    n: int,
) -> Seq<usize>
    decreases n,
{
    if n <= 0 {
        Seq::<usize>::empty()
    } else {
        let prev = members_named(names, selected, name, n - 1);
        if selected[n - 1] && names[n - 1] == name {
            prev.push((n - 1) as usize)
        } else {
            prev
        }
    }
}

/// Groups strictly ordered by name.
pub open spec fn names_ascending(groups: Seq<Group>) -> bool {
    forall|a: int, b: int| 0 <= a < b < groups.len() ==> text_lt(groups[a].name@, groups[b].name@)
}

/// `groups` is the grouping of the first `n` rows: one group per name among
/// the included rows, in name order, each holding exactly its rows.
pub open spec fn grouping_of(
    groups: Seq<Group>,
    names: Seq<Seq<char>>,
    selected: Seq<bool>,
    n: int,
) -> bool {
    &&& names_ascending(groups)
    &&& forall|a: int|
        0 <= a < groups.len() ==> {
            &&& #[trigger] groups[a].members@ == members_named(names, selected, groups[a].name@, n)
            &&& groups[a].members@.len() > 0
        }
    &&& forall|i: int|
        0 <= i < n && selected[i] ==> exists|a: int|
            0 <= a < groups.len() && #[trigger] groups[a].name@ == names[i]
}

proof fn lemma_members_empty(names: Seq<Seq<char>>, selected: Seq<bool>, name: Seq<char>, n: int)
    requires
        forall|j: int| 0 <= j < n ==> !(selected[j] && names[j] == name),
    ensures
        members_named(names, selected, name, n) == Seq::<usize>::empty(),
    decreases n,
{
    if n > 0 {
        lemma_members_empty(names, selected, name, n - 1);
    }
}

pub proof fn lemma_members_bounds(names: Seq<Seq<char>>, selected: Seq<bool>, name: Seq<char>, n: int)
    requires
        0 <= n <= usize::MAX,
    ensures
        forall|k: int|
            0 <= k < members_named(names, selected, name, n).len() ==> {
                let j = #[trigger] members_named(names, selected, name, n)[k] as int;
                &&& 0 <= j < n
                &&& selected[j]
                &&& names[j] == name
            },
        forall|k1: int, k2: int|
            0 <= k1 < k2 < members_named(names, selected, name, n).len() ==> members_named(
                names,
                selected,
                name,
                n,
            )[k1] < members_named(names, selected, name, n)[k2],
    decreases n,
{
    if n > 0 {
        lemma_members_bounds(names, selected, name, n - 1);
        let prev = members_named(names, selected, name, n - 1);
        let cur = members_named(names, selected, name, n);
        if selected[n - 1] && names[n - 1] == name {
            assert(cur == prev.push((n - 1) as usize));
            assert forall|k: int| 0 <= k < cur.len() implies {
                let j = #[trigger] cur[k] as int;
                &&& 0 <= j < n
                &&& selected[j]
                &&& names[j] == name
            } by {
                if k < prev.len() {
                    assert(cur[k] == prev[k]);
                }
            }
            assert forall|k1: int, k2: int| 0 <= k1 < k2 < cur.len() implies cur[k1] < cur[k2] by {
                assert(cur[k1] == prev[k1]);
                if k2 < prev.len() {
                    assert(cur[k2] == prev[k2]);
                }
            }
        }
    }
}

/// Groups the included rows by name.
pub fn group_indices(names: &Vec<Vec<char>>, selected: &Vec<bool>) -> (groups: Vec<Group>)
    requires
        names.len() == selected.len(),
    ensures
        grouping_of(groups@, views(names@), selected@, names.len() as int),
{
    let ghost ns = views(names@);
    let mut groups: Vec<Group> = Vec::new();
    let mut i: usize = 0;
    while i < names.len()
        invariant
            names.len() == selected.len(),
            ns == views(names@),
            i <= names.len(),
            grouping_of(groups@, ns, selected@, i as int),
        decreases names.len() - i,
    {
        let ghost old_groups = groups@;
        assert(ns[i as int] == names@[i as int]@);
        if selected[i] {
            let name = &names[i];
            let mut p: usize = 0;
            while p < groups.len() && text_precedes(&groups[p].name, name)
                invariant
                    groups@ == old_groups,
                    p <= groups.len(),
                    forall|a: int| 0 <= a < p ==> text_lt(groups@[a].name@, name@),
                decreases groups.len() - p,
            {
                p = p + 1;
            }
            if p < groups.len() && same_chars(&groups[p].name, name) {
                groups[p].members.push(i);
                proof {
                    assert forall|a: int| 0 <= a < groups@.len() implies {
                        &&& #[trigger] groups@[a].members@ == members_named(
                            ns,
                            selected@,
                            groups@[a].name@,
                            i + 1,
                        )
                        &&& groups@[a].members@.len() > 0
                    } by {
                        if a != p {
                            assert(groups@[a] == old_groups[a]);
                            if groups@[a].name@ == name@ {
                                lemma_text_lt_irreflexive(name@);
                            }
                        }
                    }
                    assert forall|j: int| 0 <= j < i + 1 && selected@[j] implies exists|a: int|
                        0 <= a < groups@.len() && #[trigger] groups@[a].name@ == ns[j] by {
                        if j < i {
                            let a = choose|a: int|
                                0 <= a < old_groups.len() && #[trigger] old_groups[a].name@
                                    == ns[j];
                            assert(groups@[a].name@ == ns[j]);
                        } else {
                            assert(groups@[p as int].name@ == ns[j]);
                        }
                    }
                    assert(names_ascending(groups@)) by {
                        assert forall|a: int, b: int|
                            0 <= a < b < groups@.len() implies text_lt(
                            groups@[a].name@,
                            groups@[b].name@,
                        ) by {
                            assert(groups@[a].name@ == old_groups[a].name@);
                            assert(groups@[b].name@ == old_groups[b].name@);
                        }
                    }
                }
            } else {
                let mut members: Vec<usize> = Vec::new();
                members.push(i);
                let group = Group { name: names[i].clone(), members };
                proof {
                    assert forall|j: int| 0 <= j < i implies !(selected@[j] && ns[j] == name@) by {
                        if selected@[j] && ns[j] == name@ {
                            let a = choose|a: int|
                                0 <= a < old_groups.len() && #[trigger] old_groups[a].name@
                                    == ns[j];
                            if a < p {
                                lemma_text_lt_irreflexive(name@);
                            } else {
                                if p < old_groups.len() {
                                    lemma_text_lt_total(old_groups[p as int].name@, name@);
                                    if a > p {
                                        lemma_text_lt_transitive(
                                            name@,
                                            old_groups[p as int].name@,
                                            old_groups[a].name@,
                                        );
                                        lemma_text_lt_irreflexive(name@);
                                    }
                                }
                            }
                        }
                    }
                    lemma_members_empty(ns, selected@, name@, i as int);
                    assert(group.members@ =~= members_named(ns, selected@, name@, i + 1));
                    if p < old_groups.len() {
                        lemma_text_lt_total(old_groups[p as int].name@, name@);
                    }
                }
                groups.insert(p, group);
                proof {
                    old_groups.insert_ensures(p as int, group);
                    assert(names_ascending(groups@)) by {
                        assert forall|a: int, b: int|
                            0 <= a < b < groups@.len() implies text_lt(
                            groups@[a].name@,
                            groups@[b].name@,
                        ) by {
                            if b < p {
                            } else if b == p {
                            } else if a < p {
                                assert(groups@[b] == old_groups[b - 1]);
                                lemma_text_lt_transitive(
                                    groups@[a].name@,
                                    name@,
                                    old_groups[p as int].name@,
                                );
                                if b - 1 > p {
                                    lemma_text_lt_transitive(
                                        groups@[a].name@,
                                        old_groups[p as int].name@,
                                        old_groups[b - 1].name@,
                                    );
                                }
                            } else if a == p {
                                assert(groups@[b] == old_groups[b - 1]);
                                if b - 1 > p {
                                    lemma_text_lt_transitive(
                                        name@,
                                        old_groups[p as int].name@,
                                        old_groups[b - 1].name@,
                                    );
                                }
                            } else {
                                assert(groups@[b] == old_groups[b - 1]);
                                assert(groups@[a] == old_groups[a - 1]);
                            }
                        }
                    }
                    assert forall|a: int| 0 <= a < groups@.len() implies {
                        &&& #[trigger] groups@[a].members@ == members_named(
                            ns,
                            selected@,
                            groups@[a].name@,
                            i + 1,
                        )
                        &&& groups@[a].members@.len() > 0
                    } by {
                        if a != p {
                            let old_a = if a < p {
                                a
                            } else {
                                a - 1
                            };
                            assert(groups@[a] == old_groups[old_a]);
                            if groups@[a].name@ == name@ {
                                lemma_text_lt_irreflexive(name@);
                                if old_a >= p {
                                    lemma_text_lt_total(old_groups[p as int].name@, name@);
                                    if old_a > p {
                                        lemma_text_lt_transitive(
                                            name@,
                                            old_groups[p as int].name@,
                                            old_groups[old_a].name@,
                                        );
                                    }
                                }
                            }
                        }
                    }
                    assert forall|j: int| 0 <= j < i + 1 && selected@[j] implies exists|a: int|
                        0 <= a < groups@.len() && #[trigger] groups@[a].name@ == ns[j] by {
                        if j < i {
                            let a = choose|a: int|
                                0 <= a < old_groups.len() && #[trigger] old_groups[a].name@
                                    == ns[j];
                            if a < p {
                                assert(groups@[a].name@ == ns[j]);
                            } else {
                                assert(groups@[a + 1].name@ == ns[j]);
                            }
                        } else {
                            assert(groups@[p as int].name@ == ns[j]);
                        }
                    }
                }
            }
        } else {
            proof {
                assert forall|a: int| 0 <= a < groups@.len() implies {
                    &&& #[trigger] groups@[a].members@ == members_named(
                        ns,
                        selected@,
                        groups@[a].name@,
                        i + 1,
                    )
                    &&& groups@[a].members@.len() > 0
                } by {
                }
            }
        }
        i = i + 1;
    }
    groups
}

/// How many of the first `n` rows are included.
pub open spec fn selected_count(selected: Seq<bool>, n: int) -> nat
    decreases n,
{
    if n <= 0 {
        0
    } else {
        selected_count(selected, n - 1) + if selected[n - 1] { 1nat } else { 0nat }
    }
}

/// How often `x` occurs in `listed`.
pub open spec fn occurrences(listed: Seq<Seq<char>>, x: Seq<char>) -> nat
    decreases listed.len(),
{
    if listed.len() == 0 {
        0
    } else {
        occurrences(listed.drop_last(), x) + if listed.last() == x { 1nat } else { 0nat }
    }
}

/// The rows below `n` of all the names in `listed`, added up.
pub open spec fn rows_total(names: Seq<Seq<char>>, selected: Seq<bool>, listed: Seq<Seq<char>>, n: int) -> nat
    decreases listed.len(),
{
    if listed.len() == 0 {
        0
    } else {
        rows_total(names, selected, listed.drop_last(), n) + members_named(names, selected, listed.last(), n).len()
    }
}

/// No name occurs twice.
pub open spec fn distinct_names(listed: Seq<Seq<char>>) -> bool {
    forall|a: int, b: int| 0 <= a < b < listed.len() ==> listed[a] != listed[b]
}

/// The members of all the groups, added up.
pub open spec fn members_total(groups: Seq<Group>) -> nat
    decreases groups.len(),
{
    if groups.len() == 0 {
        0
    } else {
        members_total(groups.drop_last()) + groups.last().members@.len()
    }
}

pub open spec fn group_names(groups: Seq<Group>) -> Seq<Seq<char>> {
    groups.map_values(|g: Group| g.name@)
}

proof fn lemma_occurrences(listed: Seq<Seq<char>>, x: Seq<char>)
    requires
        distinct_names(listed),
    ensures
        listed.contains(x) ==> occurrences(listed, x) == 1,
        !listed.contains(x) ==> occurrences(listed, x) == 0,
    decreases listed.len(),
{
    if listed.len() > 0 {
        let prev = listed.drop_last();
        assert forall|a: int, b: int| 0 <= a < b < prev.len() implies prev[a] != prev[b] by {
            assert(prev[a] == listed[a] && prev[b] == listed[b]);
        }
        lemma_occurrences(prev, x);
        if listed.last() == x {
            if prev.contains(x) {
                let a = choose|a: int| 0 <= a < prev.len() && prev[a] == x;
                assert(listed[a] == listed[listed.len() - 1]);
            }
            assert(listed.contains(x)) by {
                assert(listed[listed.len() - 1] == x);
            }
        } else {
            if listed.contains(x) {
                let a = choose|a: int| 0 <= a < listed.len() && listed[a] == x;
                assert(prev[a] == x);
            }
            if prev.contains(x) {
                let a = choose|a: int| 0 <= a < prev.len() && prev[a] == x;
                assert(listed[a] == x);
            }
        }
    }
}

proof fn lemma_rows_total_step(names: Seq<Seq<char>>, selected: Seq<bool>, listed: Seq<Seq<char>>, n: int)
    requires
        n > 0,
    ensures
        rows_total(names, selected, listed, n) == rows_total(names, selected, listed, n - 1)
            + if selected[n - 1] { occurrences(listed, names[n - 1]) } else { 0nat },
    decreases listed.len(),
{
    if listed.len() > 0 {
        lemma_rows_total_step(names, selected, listed.drop_last(), n);
    }
}

proof fn lemma_rows_total_covers(names: Seq<Seq<char>>, selected: Seq<bool>, listed: Seq<Seq<char>>, n: int)
    requires
        distinct_names(listed),
        forall|i: int| 0 <= i < n && selected[i] ==> listed.contains(names[i]),
    ensures
        rows_total(names, selected, listed, n) == selected_count(selected, n),
    decreases n,
{
    if n <= 0 {
        lemma_rows_total_empty(names, selected, listed, n);
    } else {
        lemma_rows_total_covers(names, selected, listed, n - 1);
        lemma_rows_total_step(names, selected, listed, n);
        lemma_occurrences(listed, names[n - 1]);
    }
}

proof fn lemma_rows_total_empty(names: Seq<Seq<char>>, selected: Seq<bool>, listed: Seq<Seq<char>>, n: int)
    requires
        n <= 0,
    ensures
        rows_total(names, selected, listed, n) == 0,
    decreases listed.len(),
{
    if listed.len() > 0 {
        lemma_rows_total_empty(names, selected, listed.drop_last(), n);
    }
}

proof fn lemma_members_total(groups: Seq<Group>, names: Seq<Seq<char>>, selected: Seq<bool>, n: int)
    requires
        forall|a: int| 0 <= a < groups.len() ==> #[trigger] groups[a].members@ == members_named(names, selected, groups[a].name@, n),
    ensures
        members_total(groups) == rows_total(names, selected, group_names(groups), n),
    decreases groups.len(),
{
    if groups.len() > 0 {
        let prev = groups.drop_last();
        assert forall|a: int| 0 <= a < prev.len() implies #[trigger] prev[a].members@ == members_named(names, selected, prev[a].name@, n) by {
            assert(prev[a] == groups[a]);
        }
        lemma_members_total(prev, names, selected, n);
        assert(group_names(groups).drop_last() =~= group_names(prev));
        assert(groups[groups.len() - 1].members@ == members_named(names, selected, groups[groups.len() - 1].name@, n));
    }
}

/// Rows listed under distinct names that cover every included row add up to
/// the included rows.
pub proof fn lemma_distinct_names_cover(names: Seq<Seq<char>>, selected: Seq<bool>, listed: Seq<Seq<char>>, n: int)
    requires
        distinct_names(listed),
        forall|i: int| 0 <= i < n && selected[i] ==> listed.contains(names[i]),
    ensures
        rows_total(names, selected, listed, n) == selected_count(selected, n),
{
    lemma_rows_total_covers(names, selected, listed, n);
}

/// A grouping is a partition: every included row is the member of exactly one
/// group, so the groups' members add up to the included rows.
pub proof fn law_grouping_partitions_rows(groups: Seq<Group>, names: Seq<Seq<char>>, selected: Seq<bool>)
    requires
        grouping_of(groups, names, selected, names.len() as int),
    ensures
        members_total(groups) == selected_count(selected, names.len() as int),
{
    let n = names.len() as int;
    let listed = group_names(groups);
    assert forall|a: int, b: int| 0 <= a < b < listed.len() implies listed[a] != listed[b] by {
        assert(text_lt(groups[a].name@, groups[b].name@));
        lemma_text_lt_irreflexive(groups[a].name@);
    }
    assert forall|i: int| 0 <= i < n && selected[i] implies listed.contains(names[i]) by {
        let a = choose|a: int| 0 <= a < groups.len() && #[trigger] groups[a].name@ == names[i];
        assert(listed[a] == names[i]);
    }
    lemma_members_total(groups, names, selected, n);
    lemma_rows_total_covers(names, selected, listed, n);
}

} // verus!
