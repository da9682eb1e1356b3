//! Merging the states of a table that cannot be told apart by their rows.
use vstd::prelude::*;
use std::collections::{BTreeMap, HashMap};
use itertools::Itertools;
use crate::collections::scalar;
use crate::dfa::{last_match, Dfa, MalformedTableError, NonTotalTransitionError, Row, Rule, State, Table};
use crate::nfa::GlobalEnv;
use crate::table::{
    lemma_row_target_is_entry, row_sorted, row_target, table_accepts_from, table_has_entry,
    table_is_finish, table_is_start, table_run_from, table_sorted, table_start_is, table_step,
    TableView,
};

verus! {

/// What tells two rows apart: whether the state accepts, and where each
/// symbol leads.
pub open spec fn signature(entry: (bool, bool, Row)) -> (bool, Seq<(char, State)>) {
    (entry.0, entry.2@)
}

/// The place `j` of group `i` exists.
pub open spec fn valid_place(groups: Seq<Vec<State>>, i: int, j: int) -> bool {
    0 <= i < groups.len() && 0 <= j < groups[i]@.len()
}

/// The state at place `j` of group `i`.
pub open spec fn member(groups: Seq<Vec<State>>, i: int, j: int) -> State {
    groups[i]@[j]
}

/// `q` stands in one of the groups.
pub open spec fn in_groups(groups: Seq<Vec<State>>, q: State) -> bool {
    exists|i: int, j: int| valid_place(groups, i, j) && #[trigger] member(groups, i, j) == q
}

/// The groups divide the states of the table by their signatures: each
/// state stands at one place of one group, no group is empty, and two
/// states stand in one group if and only if their rows have one signature.
pub open spec fn is_grouping(t: TableView, groups: Seq<Vec<State>>) -> bool {
    &&& forall|i: int, j: int|
        valid_place(groups, i, j) ==> t.contains_key(#[trigger] member(groups, i, j))
    &&& forall|q: State| t.contains_key(q) ==> in_groups(groups, q)
    &&& forall|i1: int, j1: int, i2: int, j2: int|
        valid_place(groups, i1, j1) && valid_place(groups, i2, j2) && #[trigger] member(
            groups,
            i1,
            j1,
        ) == #[trigger] member(groups, i2, j2) ==> i1 == i2 && j1 == j2
    &&& forall|i: int| 0 <= i < groups.len() ==> (#[trigger] groups[i])@.len() > 0
    &&& forall|i1: int, j1: int, i2: int, j2: int|
        valid_place(groups, i1, j1) && valid_place(groups, i2, j2) ==> (i1 == i2 <==> signature(
            t[#[trigger] member(groups, i1, j1)],
        ) == signature(t[#[trigger] member(groups, i2, j2)]))
}

/// What tells the row of a state apart from the others.
pub fn row_signature<'a>(entry: &'a (bool, bool, Row)) -> (s: (bool, &'a Row))
    ensures
        (s.0, s.1@) == signature(*entry),
{
    (entry.0, &entry.2)
}

/// Groups the states of the table by the signatures of their rows, with
/// `into_group_map_by` of itertools, and hands out the groups in the order
/// in which its hash map yields them. The contract holds what the function
/// does whatever that order is: it puts every item it is given into the one
/// list that is kept under the item's key, so the lists are not empty, hold
/// each state of the table once, and two states share a list exactly when
/// their signatures are equal.
#[verifier::external_body]
fn group_by_signature(table: &Table) -> (groups: Vec<Vec<State>>)
    ensures
        is_grouping(table@, groups@),
{
    let grouped = table.iter().into_group_map_by(|item| row_signature(item.1));
    grouped.into_values().map(|rows| rows.into_iter().map(|item| *item.0).collect()).collect()
}

/// How many of the first `n` groups hold more than one state.
pub open spec fn merged_upto(groups: Seq<Vec<State>>, n: int) -> int
    decreases n,
{
    if 0 < n <= groups.len() {
        merged_upto(groups, n - 1) + if groups[n - 1]@.len() > 1 {
            1int
        } else {
            0int
        }
    } else {
        0
    }
}

/// How many states the first `n` groups hold together.
pub open spec fn members_upto(groups: Seq<Vec<State>>, n: int) -> int
    decreases n,
{
    if 0 < n <= groups.len() {
        members_upto(groups, n - 1) + groups[n - 1]@.len()
    } else {
        0
    }
}

/// The state that stands for group `i` once the groups are merged: a group
/// of one state keeps it, and the groups of several states take the
/// identifiers after `base`, one each, in the order of the groups.
pub open spec fn representative(groups: Seq<Vec<State>>, base: int, i: int) -> State {
    if groups[i]@.len() > 1 {
        (base + merged_upto(groups, i + 1)) as State
    } else {
        groups[i]@[0]
    }
}

/// `q` stands in group `i`.
pub open spec fn group_holds(groups: Seq<Vec<State>>, i: int, q: State) -> bool {
    exists|j: int| valid_place(groups, i, j) && #[trigger] member(groups, i, j) == q
}

/// The group in which `q` stands.
pub open spec fn group_of(groups: Seq<Vec<State>>, q: State) -> int {
    choose|i: int| #[trigger] group_holds(groups, i, q)
}

/// The state that `q` becomes when the groups are merged: the
/// representative of its group, or `q` itself where it stands in none.
pub open spec fn migrated(groups: Seq<Vec<State>>, base: int, q: State) -> State {
    if in_groups(groups, q) {
        representative(groups, base, group_of(groups, q))
    } else {
        q
    }
}

/// A row with each of its targets migrated.
pub open spec fn migrated_row(
    row: Seq<(char, State)>,
    groups: Seq<Vec<State>>,
    base: int,
) -> Seq<(char, State)> {
    Seq::new(row.len(), |k: int| (row[k].0, migrated(groups, base, row[k].1)))
}

/// One of the states of group `i` is marked as the start.
pub open spec fn group_has_start(t: TableView, groups: Seq<Vec<State>>, i: int) -> bool {
    exists|j: int| valid_place(groups, i, j) && table_is_start(t, #[trigger] member(groups, i, j))
}

/// No state of the table and no target in it is larger than `bound`.
pub open spec fn table_ids_at_most(t: TableView, bound: int) -> bool {
    forall|q: State| #[trigger]
        t.contains_key(q) ==> q <= bound && forall|k: int|
            0 <= k < t[q].2@.len() ==> (#[trigger] t[q].2@[k]).1 <= bound
}

/// The first `n` groups hold at least as many states as there are groups
/// among them, and one more for each that holds several.
pub proof fn lemma_members_bound(groups: Seq<Vec<State>>, n: int)
    requires
        0 <= n <= groups.len(),
        forall|i: int| 0 <= i < groups.len() ==> (#[trigger] groups[i])@.len() > 0,
    ensures
        0 <= merged_upto(groups, n) <= n,
        members_upto(groups, n) >= n + merged_upto(groups, n),
        merged_upto(groups, n) == 0 ==> forall|i: int|
            0 <= i < n ==> (#[trigger] groups[i])@.len() <= 1,
        members_upto(groups, n) == n ==> merged_upto(groups, n) == 0,
        merged_upto(groups, n) == 0 ==> members_upto(groups, n) == n,
    decreases n,
{
    if n > 0 {
        lemma_members_bound(groups, n - 1);
        assert(groups[n - 1]@.len() > 0);
    }
}

/// Counting more groups never gives fewer merged ones.
pub proof fn lemma_merged_monotonic(groups: Seq<Vec<State>>, m: int, n: int)
    requires
        0 <= m <= n <= groups.len(),
    ensures
        merged_upto(groups, m) <= merged_upto(groups, n),
    decreases n - m,
{
    if m < n {
        lemma_merged_monotonic(groups, m, n - 1);
    }
}

/// No state stands at two places.
pub open spec fn unique_places(groups: Seq<Vec<State>>) -> bool {
    forall|i1: int, j1: int, i2: int, j2: int|
        valid_place(groups, i1, j1) && valid_place(groups, i2, j2) && #[trigger] member(
            groups,
            i1,
            j1,
        ) == #[trigger] member(groups, i2, j2) ==> i1 == i2 && j1 == j2
}

/// No group is empty.
pub open spec fn nonempty_groups(groups: Seq<Vec<State>>) -> bool {
    forall|i: int| 0 <= i < groups.len() ==> (#[trigger] groups[i])@.len() > 0
}

/// A state that stands at a place of group `i` is in that group and in no
/// other.
pub proof fn lemma_group_of_member(groups: Seq<Vec<State>>, i: int, j: int)
    requires
        valid_place(groups, i, j),
        unique_places(groups),
    ensures
        in_groups(groups, member(groups, i, j)),
        group_of(groups, member(groups, i, j)) == i,
{
    let q = member(groups, i, j);
    assert(group_holds(groups, i, q));
    let g = group_of(groups, q);
    assert(group_holds(groups, g, q));
    let h = choose|h: int| valid_place(groups, g, h) && #[trigger] member(groups, g, h) == q;
    assert(member(groups, g, h) == member(groups, i, j));
}

/// A state in the groups stands at some place of its group.
pub proof fn lemma_group_of_place(groups: Seq<Vec<State>>, q: State) -> (j: int)
    requires
        in_groups(groups, q),
    ensures
        valid_place(groups, group_of(groups, q), j),
        member(groups, group_of(groups, q), j) == q,
{
    let (i0, j0) = choose|i: int, j: int|
        valid_place(groups, i, j) && #[trigger] member(groups, i, j) == q;
    assert(group_holds(groups, i0, q));
    let g = group_of(groups, q);
    assert(group_holds(groups, g, q));
    choose|h: int| valid_place(groups, g, h) && #[trigger] member(groups, g, h) == q
}

/// What a table of migrations gives for `q`: its entry, or `q` itself.
pub open spec fn lookup(migrations: Map<State, State>, q: State) -> State {
    if migrations.contains_key(q) {
        migrations[q]
    } else {
        q
    }
}

/// The state that `q` migrates to.
fn migrate(migrations: &HashMap<State, State>, q: State) -> (r: State)
    ensures
        r == lookup(migrations@, q),
{
    match migrations.get(&q) {
        Some(to) => *to,
        None => q,
    }
}

/// The migrations planned when the first `n` groups are done, and of group
/// `n` its first `j` states.
pub open spec fn migrations_planned(
    migrations: Map<State, State>,
    groups: Seq<Vec<State>>,
    base: int,
    n: int,
    j: int,
) -> bool {
    &&& forall|q: State| #[trigger]
        migrations.contains_key(q) ==> in_groups(groups, q) && group_of(groups, q) <= n
            && groups[group_of(groups, q)]@.len() > 1 && migrations[q] == representative(
            groups,
            base,
            group_of(groups, q),
        )
    &&& forall|i: int, k: int|
        valid_place(groups, i, k) && groups[i]@.len() > 1 && (i < n || (i == n && k < j))
            ==> migrations.contains_key(#[trigger] member(groups, i, k))
}

/// Takes a new identifier for every group of several states, and notes for
/// each of its states that it migrates there.
fn plan_migrations(groups: &Vec<Vec<State>>, env: &mut GlobalEnv) -> (migrations: HashMap<
    State,
    State,
>)
    requires
        unique_places(groups@),
        nonempty_groups(groups@),
        old(env).current + merged_upto(groups@, groups@.len() as int) <= i32::MAX,
    ensures
        final(env).current == old(env).current + merged_upto(groups@, groups@.len() as int),
        forall|q: State| #[trigger]
            lookup(migrations@, q) == migrated(groups@, old(env).current as int, q),
{
    let ghost base = env.current as int;
    let mut migrations: HashMap<State, State> = HashMap::new();
    let mut n: usize = 0;
    while n < groups.len()
        invariant
            0 <= n <= groups.len(),
            unique_places(groups@),
            nonempty_groups(groups@),
            base + merged_upto(groups@, groups@.len() as int) <= i32::MAX,
            env.current == base + merged_upto(groups@, n as int),
            migrations_planned(migrations@, groups@, base, n as int, 0),
        decreases groups.len() - n,
    {
        proof {
            lemma_merged_monotonic(groups@, n + 1, groups@.len() as int);
        }
        if groups[n].len() > 1 {
            let id = env.new_state();
            let mut j: usize = 0;
            while j < groups[n].len()
                invariant
                    0 <= j <= groups[n as int]@.len(),
                    0 <= n < groups.len(),
                    groups[n as int]@.len() > 1,
                    unique_places(groups@),
                    id == representative(groups@, base, n as int),
                    migrations_planned(migrations@, groups@, base, n as int, j as int),
                decreases groups[n as int]@.len() - j,
            {
                let q = groups[n][j];
                let ghost before = migrations@;
                migrations.insert(q, id);
                proof {
                    assert(valid_place(groups@, n as int, j as int));
                    assert(q == member(groups@, n as int, j as int));
                    lemma_group_of_member(groups@, n as int, j as int);
                    assert forall|i: int, k: int|
                        valid_place(groups@, i, k) && groups@[i]@.len() > 1 && (i < n || (i == n
                            && k < j + 1)) implies migrations@.contains_key(
                        #[trigger] member(groups@, i, k),
                    ) by {
                        if i == n && k == j {
                        } else {
                            assert(before.contains_key(member(groups@, i, k)));
                        }
                    }
                    assert forall|p: State| #[trigger]
                        migrations@.contains_key(p) implies in_groups(groups@, p) && group_of(
                        groups@,
                        p,
                    ) <= n && groups@[group_of(groups@, p)]@.len() > 1 && migrations@[p]
                        == representative(groups@, base, group_of(groups@, p)) by {
                        if p != q {
                            assert(before.contains_key(p));
                        }
                    }
                }
                j += 1;
            }
        }
        n += 1;
    }
    proof {
        assert forall|q: State| #[trigger]
            lookup(migrations@, q) == migrated(groups@, base, q) by {
            if !migrations@.contains_key(q) && in_groups(groups@, q) {
                let g = group_of(groups@, q);
                let j = lemma_group_of_place(groups@, q);
                assert(groups@[g]@.len() > 0);
                if groups@[g]@.len() > 1 {
                    assert(migrations@.contains_key(member(groups@, g, j)));
                }
                assert(j == 0);
            }
        }
    }
    migrations
}

/// The row that stands for group `i` in the merged table is that of the
/// first state of the group, with its targets migrated; it is the start
/// where a state of the group was.
pub open spec fn merged_entry(
    t: TableView,
    groups: Seq<Vec<State>>,
    base: int,
    merged: TableView,
    i: int,
) -> bool {
    let rep = representative(groups, base, i);
    &&& merged.contains_key(rep)
    &&& merged[rep].0 == t[groups[i]@[0]].0
    &&& merged[rep].1 == group_has_start(t, groups, i)
    &&& merged[rep].2@ == migrated_row(t[groups[i]@[0]].2@, groups, base)
}

/// `q` stands for one of the first `n` groups.
pub open spec fn represents(groups: Seq<Vec<State>>, base: int, n: int, q: State) -> bool {
    exists|i: int| 0 <= i < n && i < groups.len() && #[trigger] representative(groups, base, i) == q
}

/// `merged` is the table in which each group has become one state.
pub open spec fn is_merge(
    t: TableView,
    groups: Seq<Vec<State>>,
    base: int,
    merged: TableView,
) -> bool {
    &&& forall|i: int| 0 <= i < groups.len() ==> #[trigger] merged_entry(t, groups, base, merged, i)
    &&& forall|q: State| #[trigger]
        merged.contains_key(q) ==> represents(groups, base, groups.len() as int, q)
    &&& merged.dom().len() == groups.len()
}

/// Two groups have two representatives.
pub proof fn lemma_representatives_differ(
    t: TableView,
    groups: Seq<Vec<State>>,
    base: int,
    i1: int,
    i2: int,
)
    requires
        is_grouping(t, groups),
        table_ids_at_most(t, base),
        base + merged_upto(groups, groups.len() as int) <= i32::MAX,
        i32::MIN <= base,
        0 <= i1 < i2 < groups.len(),
    ensures
        representative(groups, base, i1) != representative(groups, base, i2),
        groups[i1]@.len() > 1 ==> base < representative(groups, base, i1) == base + merged_upto(
            groups,
            i1 + 1,
        ),
        groups[i2]@.len() > 1 ==> base < representative(groups, base, i2) == base + merged_upto(
            groups,
            i2 + 1,
        ),
        groups[i1]@.len() <= 1 ==> representative(groups, base, i1) <= base,
        groups[i2]@.len() <= 1 ==> representative(groups, base, i2) <= base,
{
    lemma_merged_monotonic(groups, i1 + 1, i2);
    lemma_merged_monotonic(groups, i2 + 1, groups.len() as int);
    lemma_members_bound(groups, i1);
    lemma_members_bound(groups, i2);
    assert(valid_place(groups, i1, 0));
    assert(valid_place(groups, i2, 0));
    assert(t.contains_key(member(groups, i1, 0)));
    assert(t.contains_key(member(groups, i2, 0)));
    if member(groups, i1, 0) == member(groups, i2, 0) {
        assert(i1 == i2);
    }
}

/// The row with each of its targets migrated.
fn migrate_row(
    row: &Row,
    migrations: &HashMap<State, State>,
    Ghost(groups): Ghost<Seq<Vec<State>>>,
    Ghost(base): Ghost<int>,
) -> (out: Row)
    requires
        forall|q: State| #[trigger] lookup(migrations@, q) == migrated(groups, base, q),
    ensures
        out@ == migrated_row(row@, groups, base),
{
    let mut out: Row = Vec::new();
    let mut k: usize = 0;
    while k < row.len()
        invariant
            0 <= k <= row.len(),
            forall|q: State| #[trigger] lookup(migrations@, q) == migrated(groups, base, q),
            out@ == migrated_row(row@, groups, base).take(k as int),
        decreases row.len() - k,
    {
        let symbol = scalar(row[k].0);
        let target = migrate(migrations, row[k].1);
        out.push((symbol, target));
        proof {
            let whole = migrated_row(row@, groups, base);
            assert(lookup(migrations@, row@[k as int].1) == migrated(groups, base, row@[k as int].1));
            assert(whole.take(k + 1) =~= whole.take(k as int).push(whole[k as int]));
        }
        k += 1;
    }
    proof {
        let whole = migrated_row(row@, groups, base);
        assert(whole.take(k as int) =~= whole);
    }
    out
}

/// Whether one of the states of a group is marked as the start.
fn group_start(table: &Table, groups: &Vec<Vec<State>>, i: usize) -> (found: bool)
    requires
        i < groups.len(),
    ensures
        found == group_has_start(table@, groups@, i as int),
{
    let mut j: usize = 0;
    while j < groups[i].len()
        invariant
            0 <= j <= groups[i as int]@.len(),
            i < groups.len(),
            forall|k: int| 0 <= k < j ==> !table_is_start(table@, #[trigger] member(groups@, i as int, k)),
        decreases groups[i as int]@.len() - j,
    {
        let q = groups[i][j];
        match table.get(&q) {
            Some(entry) => {
                if entry.1 {
                    proof {
                        assert(valid_place(groups@, i as int, j as int));
                        assert(table_is_start(table@, member(groups@, i as int, j as int)));
                    }
                    return true;
                }
            },
            None => {},
        }
        j += 1;
    }
    proof {
        if group_has_start(table@, groups@, i as int) {
            let k = choose|k: int|
                valid_place(groups@, i as int, k) && table_is_start(
                    table@,
                    #[trigger] member(groups@, i as int, k),
                );
            assert(!table_is_start(table@, member(groups@, i as int, k)));
        }
    }
    false
}

/// Merges the states of each group into one. A group of one state keeps
/// it. A group of several states becomes a new state, taken from `env`,
/// that accepts as they do, is the start where one of them was, and has
/// their row. Every target in the table follows its state.
pub fn merge_groups(table: &Table, groups: &Vec<Vec<State>>, env: &mut GlobalEnv) -> (merged:
    Table)
    requires
        is_grouping(table@, groups@),
        table_ids_at_most(table@, old(env).current as int),
        old(env).current + merged_upto(groups@, groups@.len() as int) <= i32::MAX,
    ensures
        final(env).current == old(env).current + merged_upto(groups@, groups@.len() as int),
        is_merge(table@, groups@, old(env).current as int, merged@),
{
    let ghost base = env.current as int;
    let migrations = plan_migrations(groups, env);
    let mut merged: Table = BTreeMap::new();
    let mut i: usize = 0;
    while i < groups.len()
        invariant
            0 <= i <= groups.len(),
            is_grouping(table@, groups@),
            table_ids_at_most(table@, base),
            i32::MIN <= base,
            base + merged_upto(groups@, groups@.len() as int) <= i32::MAX,
            forall|q: State| #[trigger] lookup(migrations@, q) == migrated(groups@, base, q),
            forall|k: int| 0 <= k < i ==> #[trigger] merged_entry(table@, groups@, base, merged@, k),
            forall|q: State| #[trigger]
                merged@.contains_key(q) ==> represents(groups@, base, i as int, q),
            merged@.dom().len() == i,
            merged@.dom().finite(),
        decreases groups.len() - i,
    {
        let first = groups[i][0];
        proof {
            assert(valid_place(groups@, i as int, 0));
            assert(first == member(groups@, i as int, 0));
            assert(table@.contains_key(first));
            lemma_group_of_member(groups@, i as int, 0);
        }
        match table.get(&first) {
            Some(entry) => {
                let is_start = group_start(table, groups, i);
                let row = migrate_row(&entry.2, &migrations, Ghost(groups@), Ghost(base));
                let rep = migrate(&migrations, first);
                let ghost before = merged@;
                proof {
                    assert(lookup(migrations@, first) == migrated(groups@, base, first));
                    assert(rep == representative(groups@, base, i as int));
                    assert(!before.contains_key(rep)) by {
                        if before.contains_key(rep) {
                            assert(represents(groups@, base, i as int, rep));
                            let k = choose|k: int|
                                0 <= k < i && k < groups@.len() && #[trigger] representative(
                                    groups@,
                                    base,
                                    k,
                                ) == rep;
                            lemma_representatives_differ(table@, groups@, base, k, i as int);
                        }
                    }
                }
                merged.insert(rep, (entry.0, is_start, row));
                proof {
                    assert forall|k: int| 0 <= k < i + 1 implies #[trigger] merged_entry(
                        table@,
                        groups@,
                        base,
                        merged@,
                        k,
                    ) by {
                        if k < i {
                            assert(merged_entry(table@, groups@, base, before, k));
                            lemma_representatives_differ(table@, groups@, base, k, i as int);
                        }
                    }
                    assert forall|q: State| #[trigger] merged@.contains_key(q) implies represents(
                        groups@,
                        base,
                        i + 1,
                        q,
                    ) by {
                        if q == rep {
                            assert(representative(groups@, base, i as int) == q);
                        } else {
                            assert(before.contains_key(q));
                            assert(represents(groups@, base, i as int, q));
                            let k = choose|k: int|
                                0 <= k < i && k < groups@.len() && #[trigger] representative(
                                    groups@,
                                    base,
                                    k,
                                ) == q;
                            assert(representative(groups@, base, k) == q);
                        }
                    }
                    assert(merged@.dom() =~= before.dom().insert(rep));
                }
            },
            None => {},
        }
        i += 1;
    }
    merged
}

/// `merged` is what merging the groups makes of the table `t`, with the
/// new identifiers taken after `base`, which no identifier of `t` exceeds.
pub open spec fn merge_of(
    t: TableView,
    groups: Seq<Vec<State>>,
    base: int,
    merged: TableView,
) -> bool {
    &&& is_grouping(t, groups)
    &&& table_ids_at_most(t, base)
    &&& i32::MIN <= base
    &&& base + merged_upto(groups, groups.len() as int) <= i32::MAX
    &&& is_merge(t, groups, base, merged)
}

/// The result of a run with its states migrated.
pub open spec fn migrated_result(
    r: Result<State, NonTotalTransitionError>,
    groups: Seq<Vec<State>>,
    base: int,
) -> Result<State, NonTotalTransitionError> {
    match r {
        Ok(p) => Ok(migrated(groups, base, p)),
        Err(e) => Err(
            NonTotalTransitionError { state: migrated(groups, base, e.state), symbol: e.symbol },
        ),
    }
}

/// A state of the table is found in the merged table where it migrated
/// to, accepting as before and with its row migrated.
pub proof fn lemma_merged_state(
    t: TableView,
    groups: Seq<Vec<State>>,
    base: int,
    merged: TableView,
    q: State,
)
    requires
        merge_of(t, groups, base, merged),
        t.contains_key(q),
    ensures
        in_groups(groups, q),
        0 <= group_of(groups, q) < groups.len(),
        migrated(groups, base, q) == representative(groups, base, group_of(groups, q)),
        merged.contains_key(migrated(groups, base, q)),
        merged[migrated(groups, base, q)].0 == t[q].0,
        merged[migrated(groups, base, q)].1 == group_has_start(t, groups, group_of(groups, q)),
        merged[migrated(groups, base, q)].2@ == migrated_row(t[q].2@, groups, base),
        migrated(groups, base, q) <= base + merged_upto(groups, groups.len() as int),
{
    let g = group_of(groups, q);
    let j = lemma_group_of_place(groups, q);
    assert(merged_entry(t, groups, base, merged, g));
    assert(valid_place(groups, g, 0));
    assert(signature(t[member(groups, g, 0)]) == signature(t[member(groups, g, j)]));
    lemma_merged_monotonic(groups, g + 1, groups.len() as int);
    lemma_members_bound(groups, g + 1);
    assert(t.contains_key(member(groups, g, 0)));
}

/// A state that the table does not hold stays what it is, outside the
/// merged table too.
pub proof fn lemma_unmerged_state(
    t: TableView,
    groups: Seq<Vec<State>>,
    base: int,
    merged: TableView,
    q: State,
)
    requires
        merge_of(t, groups, base, merged),
        !t.contains_key(q),
        q <= base,
    ensures
        migrated(groups, base, q) == q,
        !merged.contains_key(q),
{
    if in_groups(groups, q) {
        let j = lemma_group_of_place(groups, q);
        assert(t.contains_key(member(groups, group_of(groups, q), j)));
    }
    if merged.contains_key(q) {
        assert(represents(groups, base, groups.len() as int, q));
        let i = choose|i: int|
            0 <= i < groups.len() && i < groups.len() && #[trigger] representative(groups, base, i)
                == q;
        lemma_merged_monotonic(groups, i + 1, groups.len() as int);
        lemma_members_bound(groups, i);
        assert(valid_place(groups, i, 0));
        assert(t.contains_key(member(groups, i, 0)));
    }
}

/// Migrating the targets of a row migrates what the row gives for a
/// symbol.
pub proof fn lemma_migrated_row_target(
    row: Seq<(char, State)>,
    groups: Seq<Vec<State>>,
    base: int,
    a: char,
)
    ensures
        row_target(migrated_row(row, groups, base), a) == match row_target(row, a) {
            Some(to) => Some(migrated(groups, base, to)),
            None => None,
        },
    decreases row.len(),
{
    if row.len() > 0 {
        lemma_migrated_row_target(row.drop_last(), groups, base, a);
        assert(migrated_row(row, groups, base).drop_last() =~= migrated_row(
            row.drop_last(),
            groups,
            base,
        ));
    }
}

/// A step in the merged table is the migrated step of the table.
pub proof fn lemma_merge_step(
    t: TableView,
    groups: Seq<Vec<State>>,
    base: int,
    merged: TableView,
    q: State,
    a: char,
)
    requires
        merge_of(t, groups, base, merged),
        q <= base,
    ensures
        table_step(merged, migrated(groups, base, q), a) == match table_step(t, q, a) {
            Some(to) => Some(migrated(groups, base, to)),
            None => None,
        },
        table_step(t, q, a) matches Some(to) ==> to <= base,
{
    if t.contains_key(q) {
        lemma_merged_state(t, groups, base, merged, q);
        lemma_migrated_row_target(t[q].2@, groups, base, a);
        if row_target(t[q].2@, a) is Some {
            let k = lemma_row_target_is_entry(t[q].2@, a);
            assert(t[q].2@[k].1 <= base);
        }
    } else {
        lemma_unmerged_state(t, groups, base, merged, q);
    }
}

/// A run in the merged table is the migrated run of the table.
pub proof fn lemma_merge_run(
    t: TableView,
    groups: Seq<Vec<State>>,
    base: int,
    merged: TableView,
    q: State,
    word: Seq<char>,
)
    requires
        merge_of(t, groups, base, merged),
        q <= base,
    ensures
        table_run_from(merged, migrated(groups, base, q), word) == migrated_result(
            table_run_from(t, q, word),
            groups,
            base,
        ),
        table_run_from(t, q, word) matches Ok(p) ==> p <= base,
    decreases word.len(),
{
    if word.len() > 0 {
        lemma_merge_run(t, groups, base, merged, q, word.drop_last());
        if table_run_from(t, q, word.drop_last()) is Ok {
            let p = table_run_from(t, q, word.drop_last())->Ok_0;
            lemma_merge_step(t, groups, base, merged, p, word.last());
        }
    }
}

/// Whether a state accepts is not changed by migrating it.
pub proof fn lemma_merge_finish(
    t: TableView,
    groups: Seq<Vec<State>>,
    base: int,
    merged: TableView,
    q: State,
)
    requires
        merge_of(t, groups, base, merged),
        q <= base,
    ensures
        table_is_finish(merged, migrated(groups, base, q)) == table_is_finish(t, q),
{
    if t.contains_key(q) {
        lemma_merged_state(t, groups, base, merged, q);
    } else {
        lemma_unmerged_state(t, groups, base, merged, q);
    }
}

/// The merged table has one start, the state that the start migrated to,
/// and accepts the words that the table accepts.
pub proof fn lemma_merge_accepts(
    t: TableView,
    groups: Seq<Vec<State>>,
    base: int,
    merged: TableView,
    start: State,
)
    requires
        merge_of(t, groups, base, merged),
        table_start_is(t, start),
    ensures
        table_start_is(merged, migrated(groups, base, start)),
        forall|word: Seq<char>| #[trigger]
            table_accepts_from(merged, migrated(groups, base, start), word) == table_accepts_from(
                t,
                start,
                word,
            ),
{
    assert(table_is_start(t, start));
    lemma_merged_state(t, groups, base, merged, start);
    let g = group_of(groups, start);
    let js = lemma_group_of_place(groups, start);
    assert forall|q: State| table_is_start(merged, q) <==> q == migrated(groups, base, start) by {
        if merged.contains_key(q) {
            assert(represents(groups, base, groups.len() as int, q));
            let i = choose|i: int|
                0 <= i < groups.len() && i < groups.len() && #[trigger] representative(groups, base, i)
                    == q;
            assert(merged_entry(t, groups, base, merged, i));
            if i < g {
                lemma_representatives_differ(t, groups, base, i, g);
            }
            if g < i {
                lemma_representatives_differ(t, groups, base, g, i);
            }
            if group_has_start(t, groups, i) {
                let j = choose|j: int|
                    valid_place(groups, i, j) && table_is_start(
                        t,
                        #[trigger] member(groups, i, j),
                    );
                assert(member(groups, i, j) == start);
                assert(member(groups, i, j) == member(groups, g, js));
            }
            if i == g {
                assert(table_is_start(t, member(groups, g, js)));
            }
        }
    }
    assert forall|word: Seq<char>| #[trigger]
        table_accepts_from(merged, migrated(groups, base, start), word) == table_accepts_from(
            t,
            start,
            word,
        ) by {
        lemma_merge_run(t, groups, base, merged, start, word);
        if table_run_from(t, start, word) is Ok {
            lemma_merge_finish(t, groups, base, merged, table_run_from(t, start, word)->Ok_0);
        }
    }
}

/// The merged table keeps its rows in order, and none of its identifiers
/// exceeds the last one taken.
pub proof fn lemma_merge_shape(
    t: TableView,
    groups: Seq<Vec<State>>,
    base: int,
    merged: TableView,
)
    requires
        merge_of(t, groups, base, merged),
    ensures
        table_sorted(t) ==> table_sorted(merged),
        rows_nonempty(t) ==> rows_nonempty(merged),
        table_ids_at_most(merged, base + merged_upto(groups, groups.len() as int)),
{
    let top = base + merged_upto(groups, groups.len() as int);
    lemma_members_bound(groups, groups.len() as int);
    assert forall|q: State| #[trigger] merged.contains_key(q) implies q <= top && (forall|k: int|
        0 <= k < merged[q].2@.len() ==> (#[trigger] merged[q].2@[k]).1 <= top) && (table_sorted(t)
        ==> row_sorted(merged[q].2@)) && (rows_nonempty(t) ==> merged[q].2@.len() > 0) by {
        assert(represents(groups, base, groups.len() as int, q));
        let i = choose|i: int|
            0 <= i < groups.len() && i < groups.len() && #[trigger] representative(groups, base, i)
                == q;
        assert(merged_entry(t, groups, base, merged, i));
        assert(valid_place(groups, i, 0));
        let first = member(groups, i, 0);
        assert(t.contains_key(first));
        lemma_merged_monotonic(groups, i + 1, groups.len() as int);
        lemma_members_bound(groups, i + 1);
        assert forall|k: int| 0 <= k < merged[q].2@.len() implies (#[trigger] merged[q].2@[k]).1
            <= top by {
            let target = t[first].2@[k].1;
            assert(target <= base);
            if t.contains_key(target) {
                lemma_merged_state(t, groups, base, merged, target);
            } else {
                lemma_unmerged_state(t, groups, base, merged, target);
            }
        }
        if table_sorted(t) {
            assert(row_sorted(t[first].2@));
        }
        if rows_nonempty(t) {
            assert(t[first].2@.len() > 0);
        }
    }
}

/// The states of the first `n` groups, one group after the other.
pub open spec fn flattened(groups: Seq<Vec<State>>, n: int) -> Seq<State>
    decreases n,
{
    if 0 < n <= groups.len() {
        flattened(groups, n - 1) + groups[n - 1]@
    } else {
        Seq::empty()
    }
}

/// `q` stands in one of the first `n` groups.
pub open spec fn in_first_groups(groups: Seq<Vec<State>>, n: int, q: State) -> bool {
    exists|i: int, j: int|
        valid_place(groups, i, j) && i < n && #[trigger] member(groups, i, j) == q
}

/// The states of the first `n` groups are as many as the groups hold, each
/// of them once.
pub proof fn lemma_flattened(groups: Seq<Vec<State>>, n: int)
    requires
        0 <= n <= groups.len(),
        unique_places(groups),
    ensures
        flattened(groups, n).len() == members_upto(groups, n),
        flattened(groups, n).no_duplicates(),
        forall|q: State| flattened(groups, n).contains(q) <==> in_first_groups(groups, n, q),
    decreases n,
{
    if n > 0 {
        lemma_flattened(groups, n - 1);
        let a = flattened(groups, n - 1);
        let b = groups[n - 1]@;
        assert forall|q: State| (a + b).contains(q) <==> in_first_groups(groups, n, q) by {
            if (a + b).contains(q) {
                let k = choose|k: int| 0 <= k < (a + b).len() && (a + b)[k] == q;
                if k < a.len() {
                    assert(a[k] == q);
                    assert(a.contains(q));
                    assert(in_first_groups(groups, n - 1, q));
                    let (i, j) = choose|i: int, j: int|
                        valid_place(groups, i, j) && i < n - 1 && #[trigger] member(groups, i, j)
                            == q;
                    assert(valid_place(groups, i, j) && i < n && member(groups, i, j) == q);
                } else {
                    assert(valid_place(groups, n - 1, k - a.len()));
                    assert(member(groups, n - 1, k - a.len()) == q);
                }
            }
            if in_first_groups(groups, n, q) {
                let (i, j) = choose|i: int, j: int|
                    valid_place(groups, i, j) && i < n && #[trigger] member(groups, i, j) == q;
                if i < n - 1 {
                    assert(in_first_groups(groups, n - 1, q));
                    assert(a.contains(q));
                    let k = choose|k: int| 0 <= k < a.len() && a[k] == q;
                    assert((a + b)[k] == q);
                } else {
                    assert((a + b)[a.len() + j] == q);
                }
            }
        }
        assert(b.no_duplicates()) by {
            assert forall|j1: int, j2: int| 0 <= j1 < b.len() && 0 <= j2 < b.len() && j1
                != j2 implies b[j1] != b[j2] by {
                assert(valid_place(groups, n - 1, j1));
                assert(valid_place(groups, n - 1, j2));
                if member(groups, n - 1, j1) == member(groups, n - 1, j2) {
                }
            }
        }
        assert forall|k: int, j: int| 0 <= k < a.len() && 0 <= j < b.len() implies a[k]
            != b[j] by {
            assert(a.contains(a[k]));
            assert(in_first_groups(groups, n - 1, a[k]));
            let (i, h) = choose|i: int, h: int|
                valid_place(groups, i, h) && i < n - 1 && #[trigger] member(groups, i, h) == a[k];
            assert(valid_place(groups, n - 1, j));
            if member(groups, i, h) == member(groups, n - 1, j) {
            }
        }
        vstd::seq_lib::lemma_no_dup_in_concat(a, b);
    }
}

/// The groups of a table hold as many states as the table has.
pub proof fn lemma_members_total(t: TableView, groups: Seq<Vec<State>>)
    requires
        is_grouping(t, groups),
        t.dom().finite(),
    ensures
        members_upto(groups, groups.len() as int) == t.dom().len(),
{
    let flat = flattened(groups, groups.len() as int);
    lemma_flattened(groups, groups.len() as int);
    flat.unique_seq_to_set();
    assert forall|q: State| flat.to_set().contains(q) <==> t.dom().contains(q) by {
        if flat.contains(q) {
            assert(in_first_groups(groups, groups.len() as int, q));
            let (i, j) = choose|i: int, j: int|
                valid_place(groups, i, j) && i < groups.len() && #[trigger] member(groups, i, j)
                    == q;
            assert(t.contains_key(member(groups, i, j)));
        }
        if t.contains_key(q) {
            assert(in_groups(groups, q));
            let (i, j) = choose|i: int, j: int|
                valid_place(groups, i, j) && #[trigger] member(groups, i, j) == q;
            assert(valid_place(groups, i, j) && i < groups.len() && member(groups, i, j) == q);
            assert(in_first_groups(groups, groups.len() as int, q));
            assert(flat.contains(q));
        }
    }
    assert(flat.to_set() =~= t.dom());
}

/// Where no group holds two states, every state is its own group: the
/// merged table has the rows of the table, and no two states of the table
/// have one signature.
pub proof fn lemma_merge_nothing(
    t: TableView,
    groups: Seq<Vec<State>>,
    base: int,
    merged: TableView,
)
    requires
        merge_of(t, groups, base, merged),
        merged_upto(groups, groups.len() as int) == 0,
    ensures
        forall|q: State| migrated(groups, base, q) == q,
        forall|q: State| merged.contains_key(q) <==> t.contains_key(q),
        forall|q: State| #[trigger]
            t.contains_key(q) ==> merged[q].0 == t[q].0 && merged[q].1 == t[q].1 && merged[q].2@
                == t[q].2@,
        forall|p: State, q: State|
            t.contains_key(p) && t.contains_key(q) && p != q ==> signature(t[p]) != signature(t[q]),
{
    lemma_members_bound(groups, groups.len() as int);
    assert forall|q: State| migrated(groups, base, q) == q by {
        if in_groups(groups, q) {
            let j = lemma_group_of_place(groups, q);
            assert(groups[group_of(groups, q)]@.len() <= 1);
        }
    }
    assert forall|row: Seq<(char, State)>| migrated_row(row, groups, base) == row by {
        assert(migrated_row(row, groups, base) =~= row);
    }
    assert forall|q: State| #[trigger] t.contains_key(q) implies merged.contains_key(q)
        && merged[q].0 == t[q].0 && merged[q].1 == t[q].1 && merged[q].2@ == t[q].2@ by {
        lemma_merged_state(t, groups, base, merged, q);
        let g = group_of(groups, q);
        let j = lemma_group_of_place(groups, q);
        assert(groups[g]@.len() <= 1);
        assert(migrated_row(t[q].2@, groups, base) == t[q].2@);
        if group_has_start(t, groups, g) {
            let h = choose|h: int|
                valid_place(groups, g, h) && table_is_start(t, #[trigger] member(groups, g, h));
            assert(h == 0);
        }
        if t[q].1 {
            assert(table_is_start(t, member(groups, g, j)));
        }
    }
    assert forall|q: State| merged.contains_key(q) implies t.contains_key(q) by {
        assert(represents(groups, base, groups.len() as int, q));
        let i = choose|i: int|
            0 <= i < groups.len() && i < groups.len() && #[trigger] representative(groups, base, i)
                == q;
        assert(groups[i]@.len() <= 1);
        assert(valid_place(groups, i, 0));
        assert(t.contains_key(member(groups, i, 0)));
    }
    assert forall|p: State, q: State|
        t.contains_key(p) && t.contains_key(q) && p != q implies signature(t[p]) != signature(
        t[q],
    ) by {
        let jp = lemma_group_of_place(groups, p);
        let jq = lemma_group_of_place(groups, q);
        let gp = group_of(groups, p);
        let gq = group_of(groups, q);
        assert(groups[gp]@.len() <= 1);
        assert(groups[gq]@.len() <= 1);
        assert(member(groups, gp, jp) == p);
        assert(member(groups, gq, jq) == q);
        assert(gp != gq);
    }
}

/// Two tables have the same states with the same rows.
pub open spec fn same_rows(t1: TableView, t2: TableView) -> bool {
    &&& forall|q: State| t1.contains_key(q) <==> t2.contains_key(q)
    &&& forall|q: State| #[trigger]
        t1.contains_key(q) ==> t1[q].0 == t2[q].0 && t1[q].1 == t2[q].1 && t1[q].2@ == t2[q].2@
}

/// No two states of the table have one signature.
pub open spec fn distinct_signatures(t: TableView) -> bool {
    forall|p: State, q: State|
        t.contains_key(p) && t.contains_key(q) && p != q ==> signature(#[trigger] t[p])
            != signature(#[trigger] t[q])
}

/// No row of the table is empty.
pub open spec fn rows_nonempty(t: TableView) -> bool {
    forall|q: State| t.contains_key(q) ==> (#[trigger] t[q]).2@.len() > 0
}

impl Dfa {
    /// Every accepting state has an outgoing rule.
    pub open spec fn finish_in_sources(&self) -> bool {
        forall|q: State| self.finish_states@.contains(q) ==> self.is_source(q)
    }

    /// The states `p` and `q` accept alike and take the same steps.
    pub open spec fn alike(&self, p: State, q: State) -> bool {
        &&& self.finish_states@.contains(p) == self.finish_states@.contains(q)
        &&& forall|a: char| self.spec_step(p, a) == self.spec_step(q, a)
    }

    /// No two states with outgoing rules are alike.
    pub open spec fn reduced(&self) -> bool {
        forall|p: State, q: State|
            self.is_source(p) && self.is_source(q) && p != q ==> !#[trigger] self.alike(p, q)
    }

    /// The states that have an outgoing rule.
    pub open spec fn sources(&self) -> Set<State> {
        Set::new(|q: State| self.is_source(q))
    }

    /// The number of states that have an outgoing rule.
    pub open spec fn state_count(&self) -> nat {
        self.sources().len()
    }

    /// Above every identifier in use, and above `current`, there are as
    /// many identifiers left as the automaton has rules.
    pub open spec fn room_to_minimize(&self, current: State) -> bool {
        &&& current + self.rules@.len() <= i32::MAX
        &&& forall|k: int|
            0 <= k < self.rules@.len() ==> (#[trigger] self.rules@[k]).from + self.rules@.len()
                <= i32::MAX && self.rules@[k].to + self.rules@.len() <= i32::MAX
    }

    /// No identifier in a rule is larger than `bound`.
    pub open spec fn ids_at_most(&self, bound: int) -> bool {
        forall|k: int|
            0 <= k < self.rules@.len() ==> (#[trigger] self.rules@[k]).from <= bound
                && self.rules@[k].to <= bound
    }
}

impl Dfa {
    /// An entry of the table of the automaton is one of its rules, and no
    /// row of the table is empty.
    pub proof fn lemma_table_entries(&self, t: TableView)
        requires
            self.is_table_of(t),
        ensures
            rows_nonempty(t),
            forall|q: State, a: char, to: State|
                table_has_entry(t, q, a, to) ==> self.has_rule(q, a, to),
            forall|bound: int| self.ids_at_most(bound) ==> table_ids_at_most(t, bound),
    {
        assert forall|q: State, a: char, to: State| table_has_entry(t, q, a, to) implies self.has_rule(
            q,
            a,
            to,
        ) by {
            assert(row_sorted(t[q].2@));
            crate::table::lemma_row_target_sorted(t[q].2@, a);
            assert(table_step(t, q, a) == Some(to));
            crate::dfa::lemma_last_match_is_rule(self.rules@, q, a);
        }
        assert forall|q: State| t.contains_key(q) implies (#[trigger] t[q]).2@.len() > 0 by {
            assert(self.is_source(q));
            let k = choose|k: int|
                0 <= k < self.rules@.len() && k < self.rules@.len() && #[trigger] self.rules@[k].from
                    == q;
            let r = self.rules@[k];
            crate::dfa::lemma_last_match_is_rule(self.rules@, q, r.alphabet);
            assert(self.rules@.contains(Rule { from: q, alphabet: r.alphabet, to: r.to }));
            assert(table_step(t, q, r.alphabet) is Some);
        }
        assert forall|bound: int| self.ids_at_most(bound) implies table_ids_at_most(t, bound) by {
            assert forall|q: State| #[trigger] t.contains_key(q) implies q <= bound && forall|
                k: int,
            |
                0 <= k < t[q].2@.len() ==> (#[trigger] t[q].2@[k]).1 <= bound by {
                assert(self.is_source(q));
                let i = choose|i: int|
                    0 <= i < self.rules@.len() && i < self.rules@.len()
                        && #[trigger] self.rules@[i].from == q;
                assert(self.rules@[i].from <= bound);
                assert forall|k: int| 0 <= k < t[q].2@.len() implies (#[trigger] t[q].2@[k]).1
                    <= bound by {
                    let e = t[q].2@[k];
                    assert(t[q].2@.contains((e.0, e.1)));
                    assert(table_has_entry(t, q, e.0, e.1));
                    let rule = Rule { from: q, alphabet: e.0, to: e.1 };
                    assert(self.rules@.contains(rule));
                    let j = choose|j: int| 0 <= j < self.rules@.len() && self.rules@[j] == rule;
                    assert(self.rules@[j].to <= bound);
                }
            }
        }
    }

    /// There are no more states with outgoing rules than rules.
    pub proof fn lemma_state_count(&self)
        ensures
            self.sources().finite(),
            self.state_count() <= self.rules@.len(),
    {
        let froms = self.rules@.map_values(|r: Rule| r.from);
        vstd::seq_lib::seq_to_set_is_finite(froms);
        froms.lemma_cardinality_of_set();
        assert forall|q: State| froms.to_set().contains(q) <==> self.sources().contains(q) by {
            if froms.contains(q) {
                let k = choose|k: int| 0 <= k < froms.len() && froms[k] == q;
                assert(self.rules@[k].from == q);
            }
            if self.is_source(q) {
                let k = choose|k: int|
                    0 <= k < self.rules@.len() && k < self.rules@.len() && #[trigger] self.rules@[k].from
                        == q;
                assert(froms[k] == q);
            }
        }
        assert(froms.to_set() =~= self.sources());
    }

    /// The automaton of a table with sorted rows is deterministic; where no
    /// row is empty, its states with outgoing rules are the states of the
    /// table, and its accepting states are among them.
    pub proof fn lemma_automaton_of_sorted(&self, t: TableView)
        requires
            self.is_automaton_of(t),
            table_sorted(t),
        ensures
            self.deterministic(),
            rows_nonempty(t) ==> self.finish_in_sources() && self.is_source(self.start) && forall|
                q: State,
            |
                self.is_source(q) <==> t.contains_key(q),
            forall|bound: int| table_ids_at_most(t, bound) ==> self.ids_at_most(bound),
    {
        assert forall|i: int, j: int|
            0 <= i < self.rules@.len() && 0 <= j < self.rules@.len() && self.rules@[i].from
                == self.rules@[j].from && self.rules@[i].alphabet
                == self.rules@[j].alphabet implies self.rules@[i].to == self.rules@[j].to by {
            let ri = self.rules@[i];
            let rj = self.rules@[j];
            assert(self.has_rule(ri.from, ri.alphabet, ri.to));
            assert(self.has_rule(rj.from, rj.alphabet, rj.to));
            assert(table_has_entry(t, ri.from, ri.alphabet, ri.to));
            assert(table_has_entry(t, rj.from, rj.alphabet, rj.to));
            assert(row_sorted(t[ri.from].2@));
            crate::table::lemma_row_target_sorted(t[ri.from].2@, ri.alphabet);
        }
        assert forall|q: State| self.is_source(q) implies t.contains_key(q) by {
            let k = choose|k: int|
                0 <= k < self.rules@.len() && k < self.rules@.len() && #[trigger] self.rules@[k].from
                    == q;
            let r = self.rules@[k];
            assert(self.has_rule(r.from, r.alphabet, r.to));
            assert(table_has_entry(t, r.from, r.alphabet, r.to));
        }
        if rows_nonempty(t) {
            assert forall|q: State| t.contains_key(q) implies self.is_source(q) by {
                assert(t[q].2@.len() > 0);
                let e = t[q].2@[0];
                assert(t[q].2@.contains((e.0, e.1)));
                assert(table_has_entry(t, q, e.0, e.1));
                assert(self.has_rule(q, e.0, e.1));
                let k = choose|k: int|
                    0 <= k < self.rules@.len() && self.rules@[k] == Rule {
                        from: q,
                        alphabet: e.0,
                        to: e.1,
                    };
                assert(self.rules@[k].from == q);
            }
            assert(table_is_start(t, self.start));
            assert(self.is_source(self.start));
            assert forall|q: State| self.finish_states@.contains(q) implies self.is_source(q) by {
                assert(table_is_finish(t, q));
            }
        }
        assert forall|bound: int| table_ids_at_most(t, bound) implies self.ids_at_most(bound) by {
            assert forall|k: int| 0 <= k < self.rules@.len() implies (#[trigger] self.rules@[k]).from
                <= bound && self.rules@[k].to <= bound by {
                let r = self.rules@[k];
                assert(self.has_rule(r.from, r.alphabet, r.to));
                assert(table_has_entry(t, r.from, r.alphabet, r.to));
                let j = choose|j: int| 0 <= j < t[r.from].2@.len() && t[r.from].2@[j] == (
                    r.alphabet,
                    r.to,
                );
                assert(t[r.from].2@[j].1 <= bound);
            }
        }
    }

    /// Two states of a sorted table that are alike in its automaton have
    /// one signature.
    pub proof fn lemma_alike_signature(&self, t: TableView, p: State, q: State)
        requires
            self.is_automaton_of(t),
            table_sorted(t),
            t.contains_key(p),
            t.contains_key(q),
            self.alike(p, q),
        ensures
            signature(t[p]) == signature(t[q]),
    {
        assert forall|a: char| row_target(t[p].2@, a) == row_target(t[q].2@, a) by {
            assert(self.spec_step(p, a) == table_step(t, p, a));
            assert(self.spec_step(q, a) == table_step(t, q, a));
        }
        assert(row_sorted(t[p].2@));
        assert(row_sorted(t[q].2@));
        crate::table::lemma_sorted_rows_equal(t[p].2@, t[q].2@);
        assert(table_is_finish(t, p) == table_is_finish(t, q));
    }

    /// In the table of a deterministic automaton without two states alike,
    /// no two states have one signature.
    pub proof fn lemma_reduced_table(&self, t: TableView)
        requires
            self.is_table_of(t),
            self.deterministic(),
            self.reduced(),
        ensures
            distinct_signatures(t),
    {
        assert forall|p: State, q: State|
            t.contains_key(p) && t.contains_key(q) && p != q implies signature(#[trigger] t[p])
            != signature(#[trigger] t[q]) by {
            if signature(t[p]) == signature(t[q]) {
                assert forall|a: char| self.spec_step(p, a) == self.spec_step(q, a) by {
                    crate::dfa::lemma_deterministic_match(self.rules@, p, a);
                    crate::dfa::lemma_deterministic_match(self.rules@, q, a);
                    assert(table_step(t, p, a) == last_match(self.rules@, p, a));
                    assert(table_step(t, q, a) == last_match(self.rules@, q, a));
                }
                assert(self.alike(p, q));
            }
        }
    }
}

/// Tables with the same rows have the same signatures.
pub proof fn lemma_same_rows_signatures(t1: TableView, t2: TableView)
    requires
        same_rows(t1, t2),
        distinct_signatures(t2),
    ensures
        distinct_signatures(t1),
{
    assert forall|p: State, q: State|
        t1.contains_key(p) && t1.contains_key(q) && p != q implies signature(#[trigger] t1[p])
        != signature(#[trigger] t1[q]) by {
        assert(signature(t2[p]) != signature(t2[q]));
    }
}

/// Where no two states of a table have one signature, no group holds two
/// states.
pub proof fn lemma_distinct_means_single(t: TableView, groups: Seq<Vec<State>>)
    requires
        is_grouping(t, groups),
        distinct_signatures(t),
    ensures
        merged_upto(groups, groups.len() as int) == 0,
        members_upto(groups, groups.len() as int) == groups.len(),
{
    assert forall|i: int| 0 <= i < groups.len() implies (#[trigger] groups[i])@.len() <= 1 by {
        if groups[i]@.len() > 1 {
            assert(valid_place(groups, i, 0));
            assert(valid_place(groups, i, 1));
            let p = member(groups, i, 0);
            let q = member(groups, i, 1);
            assert(t.contains_key(p));
            assert(t.contains_key(q));
            if p == q {
                assert(member(groups, i, 0) == member(groups, i, 1));
            }
            assert(signature(t[p]) == signature(t[q]));
        }
    }
    lemma_no_merge(groups, groups.len() as int);
    lemma_members_bound(groups, groups.len() as int);
}

/// Groups of one state each need no merging.
pub proof fn lemma_no_merge(groups: Seq<Vec<State>>, n: int)
    requires
        0 <= n <= groups.len(),
        forall|i: int| 0 <= i < groups.len() ==> (#[trigger] groups[i])@.len() <= 1,
    ensures
        merged_upto(groups, n) == 0,
    decreases n,
{
    if n > 0 {
        lemma_no_merge(groups, n - 1);
        assert(groups[n - 1]@.len() <= 1);
    }
}

impl Dfa {
    /// Whether there is room to minimize with the identifiers after
    /// `current`.
    pub fn can_minimize(&self, current: State) -> (room: bool)
        ensures
            room == self.room_to_minimize(current),
    {
        if self.rules.len() > u32::MAX as usize {
            return false;
        }
        let count = self.rules.len() as i64;
        if current as i64 + count > i32::MAX as i64 {
            return false;
        }
        let mut k: usize = 0;
        while k < self.rules.len()
            invariant
                0 <= k <= self.rules.len(),
                count == self.rules@.len(),
                count <= u32::MAX,
                forall|i: int|
                    0 <= i < k ==> (#[trigger] self.rules@[i]).from + self.rules@.len() <= i32::MAX
                        && self.rules@[i].to + self.rules@.len() <= i32::MAX,
            decreases self.rules.len() - k,
        {
            let rule = self.rules[k];
            if rule.from as i64 + count > i32::MAX as i64 || rule.to as i64 + count
                > i32::MAX as i64 {
                return false;
            }
            k += 1;
        }
        true
    }

    /// Brings `env` up to the largest identifier in a rule.
    fn raise_above_ids(&self, env: &mut GlobalEnv)
        requires
            self.room_to_minimize(old(env).current),
        ensures
            old(env).current <= final(env).current,
            self.ids_at_most(final(env).current as int),
            final(env).current + self.rules@.len() <= i32::MAX,
    {
        let mut top = env.current;
        let mut k: usize = 0;
        while k < self.rules.len()
            invariant
                0 <= k <= self.rules.len(),
                self.room_to_minimize(env.current),
                env.current <= top,
                top + self.rules@.len() <= i32::MAX,
                forall|i: int|
                    0 <= i < k ==> (#[trigger] self.rules@[i]).from <= top && self.rules@[i].to
                        <= top,
            decreases self.rules.len() - k,
        {
            let rule = self.rules[k];
            if rule.from > top {
                top = rule.from;
            }
            if rule.to > top {
                top = rule.to;
            }
            k += 1;
        }
        env.current = top;
    }

    /// Merges the states that are alike, and again those that have become
    /// alike by it, until none are left.
    ///
    /// The work is done on the table of the automaton, so only the states
    /// with an outgoing rule are kept, and the start must be one of them.
    /// Each merged state is a new one taken from `env`, which is first
    /// brought up to the largest identifier in use.
    ///
    /// The automaton that comes out is deterministic and has no two states
    /// alike. It accepts the words that a deterministic automaton whose
    /// accepting states all have outgoing rules accepted, and it is the
    /// automaton that went in, rule for rule, where that one had no two
    /// states alike.
    pub fn minimize(&self, env: &mut GlobalEnv) -> (r: Result<Dfa, MalformedTableError>)
        requires
            self.room_to_minimize(old(env).current),
        ensures
            old(env).current <= final(env).current,
            match r {
                Ok(d) => {
                    &&& self.is_source(self.start)
                    &&& d.deterministic()
                    &&& d.reduced()
                    &&& d.finish_in_sources()
                    &&& d.is_source(d.start)
                    &&& d.ids_at_most(final(env).current as int)
                    &&& forall|q: State|
                        d.is_source(q) ==> self.is_source(q) || old(env).current < q
                    &&& d.state_count() <= self.state_count()
                    &&& self.deterministic() && self.finish_in_sources() ==> forall|
                        word: Seq<char>,
                    |
                        d.accepts(word) == self.accepts(word)
                    &&& self.deterministic() && self.reduced() ==> d.start == self.start
                        && d.state_count() == self.state_count() && (forall|q: State|
                        d.is_source(q) <==> self.is_source(q)) && (forall|q: State, a: char|
                        d.spec_step(q, a) == self.spec_step(q, a))
                },
                Err(e) => e == MalformedTableError::NoStart && !self.is_source(self.start)
                    && final(env).current == old(env).current,
            },
    {
        let mut table = self.to_table();
        if !table.contains_key(&self.start) {
            return Err(MalformedTableError::NoStart);
        }
        self.raise_above_ids(env);
        let ghost first_table = table@;
        let ghost mut start = self.start;
        proof {
            self.lemma_table_entries(first_table);
            self.lemma_state_count();
            assert(first_table.dom() =~= self.sources());
            assert(table_start_is(first_table, start));
            if self.deterministic() && self.reduced() {
                self.lemma_reduced_table(first_table);
            }
        }
        let mut done = false;
        while !done
            invariant
                table_sorted(table@),
                rows_nonempty(table@),
                table@.dom().finite(),
                table_ids_at_most(table@, env.current as int),
                env.current + table@.dom().len() <= i32::MAX,
                table_start_is(table@, start),
                forall|word: Seq<char>| #[trigger]
                    table_accepts_from(table@, start, word) == table_accepts_from(
                        first_table,
                        self.start,
                        word,
                    ),
                table@.dom().len() <= first_table.dom().len(),
                forall|q: State|
                    table@.contains_key(q) ==> first_table.contains_key(q) || old(env).current < q,
                distinct_signatures(first_table) ==> same_rows(table@, first_table),
                done ==> distinct_signatures(table@),
                old(env).current <= env.current,
            decreases
                    (if done {
                        0
                    } else {
                        table@.dom().len() + 1
                    }),
        {
            let groups = group_by_signature(&table);
            let ghost base = env.current as int;
            let ghost before = table@;
            proof {
                lemma_members_total(before, groups@);
                lemma_members_bound(groups@, groups@.len() as int);
            }
            let merged = merge_groups(&table, &groups, env);
            proof {
                assert(merge_of(before, groups@, base, merged@));
                lemma_merge_accepts(before, groups@, base, merged@, start);
                lemma_merge_shape(before, groups@, base, merged@);
                assert forall|word: Seq<char>| #[trigger]
                    table_accepts_from(merged@, migrated(groups@, base, start), word)
                        == table_accepts_from(first_table, self.start, word) by {
                    assert(table_accepts_from(merged@, migrated(groups@, base, start), word)
                        == table_accepts_from(before, start, word));
                }
                if distinct_signatures(first_table) {
                    lemma_same_rows_signatures(before, first_table);
                    lemma_distinct_means_single(before, groups@);
                }
                assert forall|q: State| merged@.contains_key(q) implies first_table.contains_key(q)
                    || old(env).current < q by {
                    assert(represents(groups@, base, groups@.len() as int, q));
                    let i = choose|i: int|
                        0 <= i < groups@.len() && i < groups@.len() && #[trigger] representative(
                            groups@,
                            base,
                            i,
                        ) == q;
                    lemma_members_bound(groups@, i + 1);
                    lemma_merged_monotonic(groups@, i + 1, groups@.len() as int);
                    assert(valid_place(groups@, i, 0));
                    assert(before.contains_key(member(groups@, i, 0)));
                }
                if merged@.dom().len() == before.dom().len() {
                    lemma_merge_nothing(before, groups@, base, merged@);
                    assert(same_rows(merged@, before));
                    lemma_same_rows_signatures(merged@, before);
                }
                start = migrated(groups@, base, start);
            }
            done = merged.len() == table.len();
            table = merged;
        }
        match Dfa::from_table(&table) {
            Ok(d) => {
                proof {
                    let t = table@;
                    d.lemma_automaton_of_sorted(t);
                    assert(d.start == start) by {
                        assert(table_is_start(t, start));
                    }
                    assert(d.sources() =~= t.dom());
                    assert forall|p: State, q: State|
                        d.is_source(p) && d.is_source(q) && p != q implies !#[trigger] d.alike(
                        p,
                        q,
                    ) by {
                        if d.alike(p, q) {
                            d.lemma_alike_signature(t, p, q);
                        }
                    }
                    if self.deterministic() && self.finish_in_sources() {
                        assert forall|word: Seq<char>| d.accepts(word) == self.accepts(word) by {
                            d.lemma_run_by_table(t, d.start, word);
                            assert(table_accepts_from(t, start, word) == table_accepts_from(
                                first_table,
                                self.start,
                                word,
                            ));
                            self.lemma_steps_of_table(first_table);
                            self.lemma_run_by_table(first_table, self.start, word);
                            assert(d.accepts(word) == table_accepts_from(t, start, word));
                            if self.spec_run(word) is Ok {
                                let p = self.spec_run(word)->Ok_0;
                                assert(self.finish_states@.contains(p) ==> self.is_source(p));
                                assert(first_table.contains_key(p) <==> self.is_source(p));
                                assert(table_is_finish(first_table, p)
                                    == self.finish_states@.contains(p));
                            }
                        }
                    }
                    if self.deterministic() && self.reduced() {
                        assert(same_rows(t, first_table));
                        self.lemma_steps_of_table(first_table);
                        assert forall|q: State, a: char|
                            d.spec_step(q, a) == self.spec_step(q, a) by {
                            assert(d.spec_step(q, a) == table_step(t, q, a));
                            assert(self.spec_step(q, a) == table_step(first_table, q, a));
                        }
                        assert(table_is_start(first_table, self.start));
                        assert(table_is_start(t, self.start));
                        assert(t.dom() =~= first_table.dom());
                    }
                }
                Ok(d)
            },
            Err(e) => {
                proof {
                    assert(table_is_start(table@, start));
                }
                Err(e)
            },
        }
    }

    /// The table of a deterministic automaton steps as the automaton does.
    pub proof fn lemma_steps_of_table(&self, t: TableView)
        requires
            self.is_table_of(t),
            self.deterministic(),
        ensures
            forall|q: State, a: char| #[trigger] self.spec_step(q, a) == table_step(t, q, a),
    {
        assert forall|q: State, a: char| #[trigger] self.spec_step(q, a) == table_step(
            t,
            q,
            a,
        ) by {
            crate::dfa::lemma_deterministic_match(self.rules@, q, a);
            assert(table_step(t, q, a) == last_match(self.rules@, q, a));
        }
    }
}

} // verus!
