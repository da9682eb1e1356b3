//! Transition tables: the rows of a deterministic automaton, state by state.
use vstd::prelude::*;
use std::collections::{BTreeMap, BTreeSet};
use crate::collections::{map_keys, scalar};
use crate::dfa::{
    first_match, last_match, Dfa, MalformedTableError, NonTotalTransitionError, Row, Rule, State,
    Table,
};

verus! {

/// What a table is to the contracts: its rows by state.
pub type TableView = Map<State, (bool, bool, Row)>;

/// The target that `row` gives for `a`: that of its first entry for `a`.
pub open spec fn row_target(row: Seq<(char, State)>, a: char) -> Option<State>
    decreases row.len(),
{
    if row.len() == 0 {
        None
    } else {
        let earlier = row_target(row.drop_last(), a);
        if earlier is Some {
            earlier
        } else if row.last().0 == a {
            Some(row.last().1)
        } else {
            None
        }
    }
}

/// The symbols of `row` are in strictly increasing order.
pub open spec fn row_sorted(row: Seq<(char, State)>) -> bool {
    forall|i: int, j: int| 0 <= i < j < row.len() ==> row[i].0 < row[j].0
}

/// Where `a` leads from `q` by the table.
pub open spec fn table_step(t: TableView, q: State, a: char) -> Option<State> {
    if t.contains_key(q) {
        row_target(t[q].2@, a)
    } else {
        None
    }
}

/// The row of `q` holds the entry `(a, to)`.
pub open spec fn table_has_entry(t: TableView, q: State, a: char, to: State) -> bool {
    t.contains_key(q) && t[q].2@.contains((a, to))
}

/// `q` is a state of the table that is marked as the start.
pub open spec fn table_is_start(t: TableView, q: State) -> bool {
    t.contains_key(q) && t[q].1
}

/// `q` is a state of the table that is marked as accepting.
pub open spec fn table_is_finish(t: TableView, q: State) -> bool {
    t.contains_key(q) && t[q].0
}

/// Every row of the table is in increasing order of its symbols.
pub open spec fn table_sorted(t: TableView) -> bool {
    forall|q: State| t.contains_key(q) ==> row_sorted(#[trigger] t[q].2@)
}

/// In a sorted row the target of a symbol is that of its one entry.
pub proof fn lemma_row_target_sorted(row: Seq<(char, State)>, a: char)
    requires
        row_sorted(row),
    ensures
        forall|t: State| row.contains((a, t)) <==> row_target(row, a) == Some(t),
    decreases row.len(),
{
    if row.len() > 0 {
        let init = row.drop_last();
        lemma_row_target_sorted(init, a);
        assert forall|t: State| row.contains((a, t)) <==> row_target(row, a) == Some(t) by {
            if row.contains((a, t)) {
                let i = choose|i: int| 0 <= i < row.len() && row[i] == (a, t);
                if i < init.len() {
                    assert(init[i] == (a, t));
                    assert(init.contains((a, t)));
                } else {
                    if row_target(init, a) is Some {
                        let u = row_target(init, a)->0;
                        assert(init.contains((a, u)));
                        let j = choose|j: int| 0 <= j < init.len() && init[j] == (a, u);
                        assert(row[j].0 < row[i].0);
                    }
                }
            }
            if row_target(row, a) == Some(t) {
                if row_target(init, a) is Some {
                    assert(init.contains((a, t)));
                    let j = choose|j: int| 0 <= j < init.len() && init[j] == (a, t);
                    assert(row[j] == (a, t));
                } else {
                    assert(row[row.len() - 1] == (a, t));
                }
            }
        }
    } else {
        assert forall|t: State| !row.contains((a, t)) by {
            if row.contains((a, t)) {
                let i = choose|i: int| 0 <= i < row.len() && row[i] == (a, t);
            }
        }
    }
}

/// Two sorted rows that give every symbol the same target are one row.
pub proof fn lemma_sorted_rows_equal(r1: Seq<(char, State)>, r2: Seq<(char, State)>)
    requires
        row_sorted(r1),
        row_sorted(r2),
        forall|a: char| row_target(r1, a) == row_target(r2, a),
    ensures
        r1 == r2,
    decreases r1.len() + r2.len(),
{
    assert forall|a: char, t: State| r1.contains((a, t)) <==> r2.contains((a, t)) by {
        lemma_row_target_sorted(r1, a);
        lemma_row_target_sorted(r2, a);
    }
    if r1.len() == 0 {
        if r2.len() > 0 {
            let e = (r2[0].0, r2[0].1);
            assert(r2[0] == e);
            assert(r2.contains(e));
            assert(r1.contains(e));
            let i = choose|i: int| 0 <= i < r1.len() && r1[i] == e;
        }
        assert(r1 =~= r2);
    } else if r2.len() == 0 {
        let e = (r1[0].0, r1[0].1);
        assert(r1[0] == e);
        assert(r1.contains(e));
        assert(r2.contains(e));
        let i = choose|i: int| 0 <= i < r2.len() && r2[i] == e;
    } else {
        // The two last entries are the largest of either row, so they are
        // the same entry.
        let l1 = (r1.last().0, r1.last().1);
        let l2 = (r2.last().0, r2.last().1);
        assert(r1.contains(l1)) by {
            assert(r1[r1.len() - 1] == l1);
        }
        assert(r2.contains(l2)) by {
            assert(r2[r2.len() - 1] == l2);
        }
        assert(r2.contains(l1));
        assert(r1.contains(l2));
        let i2 = choose|i: int| 0 <= i < r2.len() && r2[i] == l1;
        let i1 = choose|i: int| 0 <= i < r1.len() && r1[i] == l2;
        assert(l1 == l2) by {
            if i2 < r2.len() - 1 {
                assert(r2[i2].0 < r2[r2.len() - 1].0);
            }
            if i1 < r1.len() - 1 {
                assert(r1[i1].0 < r1[r1.len() - 1].0);
            }
        }
        let d1 = r1.drop_last();
        let d2 = r2.drop_last();
        assert forall|a: char| row_target(d1, a) == row_target(d2, a) by {
            lemma_row_target_sorted(d1, a);
            lemma_row_target_sorted(d2, a);
            lemma_row_target_sorted(r1, a);
            lemma_row_target_sorted(r2, a);
            assert forall|t: State| d1.contains((a, t)) <==> d2.contains((a, t)) by {
                if d1.contains((a, t)) {
                    let i = choose|i: int| 0 <= i < d1.len() && d1[i] == (a, t);
                    assert(r1[i] == (a, t));
                    assert(r1[i].0 < r1[r1.len() - 1].0);
                    assert(r2.contains((a, t)));
                    let j = choose|j: int| 0 <= j < r2.len() && r2[j] == (a, t);
                    assert(j < r2.len() - 1);
                    assert(d2[j] == (a, t));
                }
                if d2.contains((a, t)) {
                    let i = choose|i: int| 0 <= i < d2.len() && d2[i] == (a, t);
                    assert(r2[i] == (a, t));
                    assert(r2[i].0 < r2[r2.len() - 1].0);
                    assert(r1.contains((a, t)));
                    let j = choose|j: int| 0 <= j < r1.len() && r1[j] == (a, t);
                    assert(j < r1.len() - 1);
                    assert(d1[j] == (a, t));
                }
            }
            if row_target(d1, a) is Some {
                assert(d1.contains((a, row_target(d1, a)->0)));
            }
            if row_target(d2, a) is Some {
                assert(d2.contains((a, row_target(d2, a)->0)));
            }
        }
        lemma_sorted_rows_equal(d1, d2);
        assert(r1 =~= d1.push(l1));
        assert(r2 =~= d2.push(l2));
    }
}

/// Gives `a` the target `t` in a sorted row, in place of the target it had.
pub fn row_insert(row: &mut Row, a: char, t: State)
    requires
        row_sorted(old(row)@),
    ensures
        row_sorted(final(row)@),
        forall|b: char|
            row_target(final(row)@, b) == if b == a {
                Some(t)
            } else {
                row_target(old(row)@, b)
            },
{
    let ghost before = row@;
    let mut i: usize = 0;
    while i < row.len() && row[i].0 < a
        invariant
            0 <= i <= row.len(),
            row@ == before,
            forall|k: int| 0 <= k < i ==> row@[k].0 < a,
        decreases row.len() - i,
    {
        i += 1;
    }
    if i < row.len() && row[i].0 == a {
        row.set(i, (a, t));
    } else {
        row.insert(i, (a, t));
    }
    proof {
        let after = row@;
        assert(row_sorted(after));
        assert forall|b: char|
            row_target(after, b) == if b == a {
                Some(t)
            } else {
                row_target(before, b)
            } by {
            lemma_row_target_sorted(before, b);
            lemma_row_target_sorted(after, b);
            if b == a {
                assert(after[i as int] == (a, t));
                assert(after.contains((a, t)));
            } else {
                assert forall|x: State| after.contains((b, x)) <==> before.contains((b, x)) by {
                    if after.contains((b, x)) {
                        let k = choose|k: int| 0 <= k < after.len() && after[k] == (b, x);
                        if after.len() == before.len() {
                            assert(before[k] == (b, x));
                        } else if k < i {
                            assert(before[k] == (b, x));
                        } else {
                            assert(before[k - 1] == (b, x));
                        }
                    }
                    if before.contains((b, x)) {
                        let k = choose|k: int| 0 <= k < before.len() && before[k] == (b, x);
                        if after.len() == before.len() {
                            assert(after[k] == (b, x));
                        } else if k < i {
                            assert(after[k] == (b, x));
                        } else {
                            assert(after[k + 1] == (b, x));
                        }
                    }
                }
                if row_target(after, b) is Some {
                    assert(after.contains((b, row_target(after, b)->0)));
                }
                if row_target(before, b) is Some {
                    assert(before.contains((b, row_target(before, b)->0)));
                }
            }
        }
    }
}

/// There is a rule among the first `n` of `rules` that leaves `q`.
pub open spec fn leaves(rules: Seq<Rule>, n: int, q: State) -> bool {
    exists|k: int| 0 <= k < n && k < rules.len() && #[trigger] rules[k].from == q
}

impl Dfa {
    /// `q` has an outgoing rule.
    pub open spec fn is_source(&self, q: State) -> bool {
        leaves(self.rules@, self.rules@.len() as int, q)
    }

    /// `t` is the table of the automaton: it has one row for each state
    /// with an outgoing rule, which says whether the state accepts and
    /// whether it is the start, and gives each symbol, in increasing order,
    /// the target of the last rule that leaves the state with it.
    pub open spec fn is_table_of(&self, t: TableView) -> bool {
        &&& forall|q: State| t.contains_key(q) <==> self.is_source(q)
        &&& forall|q: State| #[trigger]
            t.contains_key(q) ==> t[q].0 == self.finish_states@.contains(q) && t[q].1 == (q
                == self.start)
        &&& table_sorted(t)
        &&& forall|q: State, a: char| #[trigger]
            table_step(t, q, a) == last_match(self.rules@, q, a)
    }

    /// The automaton is the one that the table `t` describes: its start is
    /// the one state marked so, its accepting states are those marked so,
    /// and its rules are the entries of the rows, so that it steps as the
    /// table does.
    pub open spec fn is_automaton_of(&self, t: TableView) -> bool {
        &&& forall|q: State| table_is_start(t, q) <==> q == self.start
        &&& forall|q: State| self.finish_states@.contains(q) <==> table_is_finish(t, q)
        &&& forall|q: State, a: char| #[trigger] self.spec_step(q, a) == table_step(t, q, a)
        &&& forall|q: State, a: char, to: State| #[trigger]
            self.has_rule(q, a, to) <==> table_has_entry(t, q, a, to)
    }

    /// The table of the automaton: one row for each state that has an
    /// outgoing rule. Where two rules leave one state with one symbol, the
    /// later rule gives the target.
    pub fn to_table(&self) -> (table: Table)
        ensures
            self.is_table_of(table@),
    {
        let mut table: Table = BTreeMap::new();
        let mut i: usize = 0;
        while i < self.rules.len()
            invariant
                0 <= i <= self.rules.len(),
                forall|q: State| table@.contains_key(q) <==> leaves(self.rules@, i as int, q),
                forall|q: State| #[trigger]
                    table@.contains_key(q) ==> table@[q].0 == self.finish_states@.contains(q)
                        && table@[q].1 == (q == self.start),
                table_sorted(table@),
                forall|q: State, a: char| #[trigger]
                    table_step(table@, q, a) == last_match(self.rules@.take(i as int), q, a),
            decreases self.rules.len() - i,
        {
            let rule = self.rules[i];
            let ghost before = table@;
            proof {
                assert(self.rules@.take(i + 1).drop_last() =~= self.rules@.take(i as int));
                assert(self.rules@.take(i + 1).last() == rule);
            }
            match table.remove(&rule.from) {
                Some(entry) => {
                    let (is_finish, is_start, mut row) = entry;
                    proof {
                        assert(before.contains_key(rule.from));
                        assert(row_sorted(before[rule.from].2@));
                    }
                    let ghost old_row = row@;
                    row_insert(&mut row, rule.alphabet, rule.to);
                    table.insert(rule.from, (is_finish, is_start, row));
                    proof {
                        assert forall|q: State, a: char| #[trigger]
                            table_step(table@, q, a) == last_match(
                                self.rules@.take(i + 1),
                                q,
                                a,
                            ) by {
                            assert(table_step(before, q, a) == last_match(
                                self.rules@.take(i as int),
                                q,
                                a,
                            ));
                        }
                    }
                },
                None => {
                    let mut row: Row = Vec::new();
                    row.push((rule.alphabet, rule.to));
                    let is_start = rule.from == self.start;
                    let is_finish = self.finish_states.contains(&rule.from);
                    proof {
                        assert(row@.drop_last() =~= Seq::<(char, State)>::empty());
                        assert forall|b: char|
                            row_target(row@, b) == if b == rule.alphabet {
                                Some(rule.to)
                            } else {
                                None
                            } by {
                            assert(row_target(row@.drop_last(), b) is None);
                        }
                    }
                    table.insert(rule.from, (is_finish, is_start, row));
                    proof {
                        assert forall|q: State, a: char| #[trigger]
                            table_step(table@, q, a) == last_match(
                                self.rules@.take(i + 1),
                                q,
                                a,
                            ) by {
                            assert(table_step(before, q, a) == last_match(
                                self.rules@.take(i as int),
                                q,
                                a,
                            ));
                        }
                    }
                },
            }
            proof {
                assert forall|q: State| table@.contains_key(q) <==> leaves(
                    self.rules@,
                    i + 1,
                    q,
                ) by {
                    if leaves(self.rules@, i + 1, q) {
                        let k = choose|k: int|
                            0 <= k < i + 1 && k < self.rules@.len() && #[trigger] self.rules@[k].from
                                == q;
                        if k < i {
                            assert(leaves(self.rules@, i as int, q));
                        }
                    }
                    if table@.contains_key(q) {
                        if q != rule.from {
                            assert(leaves(self.rules@, i as int, q));
                            let k = choose|k: int|
                                0 <= k < i && k < self.rules@.len() && #[trigger] self.rules@[k].from
                                    == q;
                            assert(self.rules@[k].from == q);
                        } else {
                            assert(self.rules@[i as int].from == q);
                        }
                    }
                }
            }
            i += 1;
        }
        proof {
            assert(self.rules@.take(i as int) =~= self.rules@);
        }
        table
    }
}

/// The rules drawn so far from a table: those of the rows of `done`, and
/// of the row of `q` its first `j` entries.
pub open spec fn rules_drawn(
    rules: Seq<Rule>,
    t: TableView,
    done: Seq<State>,
    q: State,
    j: int,
) -> bool {
    &&& forall|p: State, a: char| #[trigger]
        first_match(rules, p, a) == if done.contains(p) {
            table_step(t, p, a)
        } else if p == q && t.contains_key(q) {
            row_target(t[q].2@.take(j), a)
        } else {
            None
        }
    &&& forall|r: Rule| #[trigger]
        rules.contains(r) <==> (done.contains(r.from) && table_has_entry(
            t,
            r.from,
            r.alphabet,
            r.to,
        )) || (r.from == q && t.contains_key(q) && t[q].2@.take(j).contains((r.alphabet, r.to)))
}

/// `q` is one of `done` and the table marks it as the start.
pub open spec fn start_among(t: TableView, done: Seq<State>, q: State) -> bool {
    done.contains(q) && table_is_start(t, q)
}

/// The rules drawn from the rows of `done`, all of them.
pub open spec fn rules_of_rows(rules: Seq<Rule>, t: TableView, done: Seq<State>) -> bool {
    &&& forall|p: State, a: char| #[trigger]
        first_match(rules, p, a) == if done.contains(p) {
            table_step(t, p, a)
        } else {
            None
        }
    &&& forall|r: Rule| #[trigger]
        rules.contains(r) <==> done.contains(r.from) && table_has_entry(
            t,
            r.from,
            r.alphabet,
            r.to,
        )
}

/// The rules drawn from the rows of `done` hold a rule exactly where the
/// rows hold its entry.
pub proof fn lemma_rules_of_rows_entry(
    rules: Seq<Rule>,
    t: TableView,
    done: Seq<State>,
    q: State,
    a: char,
    to: State,
)
    requires
        rules_of_rows(rules, t, done),
    ensures
        rules.contains(Rule { from: q, alphabet: a, to }) <==> done.contains(q) && table_has_entry(
            t,
            q,
            a,
            to,
        ),
{
    let r = Rule { from: q, alphabet: a, to };
    assert(rules.contains(r) <==> done.contains(r.from) && table_has_entry(
        t,
        r.from,
        r.alphabet,
        r.to,
    ));
}

impl Dfa {
    /// The automaton that a table describes. Its start is the one state
    /// that the table marks as such: a table with no such state, or with
    /// more than one, is refused.
    pub fn from_table(table: &Table) -> (r: Result<Dfa, MalformedTableError>)
        ensures
            match r {
                Ok(d) => d.is_automaton_of(table@),
                Err(MalformedTableError::NoStart) => forall|q: State| !table_is_start(table@, q),
                Err(MalformedTableError::MultipleStart) => exists|p: State, q: State|
                    p != q && table_is_start(table@, p) && table_is_start(table@, q),
            },
    {
        let keys = map_keys(table);
        let mut start: Option<State> = None;
        let mut finish_states: BTreeSet<State> = BTreeSet::new();
        let mut rules: Vec<Rule> = Vec::new();
        let mut i: usize = 0;
        proof {
            assert forall|r: Rule| !(#[trigger] rules@.contains(r)) by {
                if rules@.contains(r) {
                    let k = choose|k: int| 0 <= k < rules@.len() && rules@[k] == r;
                }
            }
            assert(keys@.take(0) =~= Seq::<State>::empty());
        }
        while i < keys.len()
            invariant
                0 <= i <= keys.len(),
                keys@.no_duplicates(),
                keys@.to_set() == table@.dom(),
                rules_of_rows(rules@, table@, keys@.take(i as int)),
                forall|q: State|
                    finish_states@.contains(q) <==> keys@.take(i as int).contains(q)
                        && table_is_finish(table@, q),
                match start {
                    Some(s) => forall|q: State| #[trigger]
                        start_among(table@, keys@.take(i as int), q) <==> q == s,
                    None => forall|q: State| !#[trigger] start_among(table@, keys@.take(i as int), q),
                },
            decreases keys.len() - i,
        {
            let from = keys[i];
            let ghost done = keys@.take(i as int);
            proof {
                assert(keys@.contains(from));
                assert(keys@.to_set().contains(from));
                assert(table@.contains_key(from));
                assert(!done.contains(from)) by {
                    if done.contains(from) {
                        let k = choose|k: int| 0 <= k < done.len() && done[k] == from;
                        assert(keys@[k] == keys@[i as int]);
                    }
                }
                assert(keys@.take(i + 1) =~= done.push(from));
                assert forall|q: State| keys@.take(i + 1).contains(q) <==> done.contains(q) || q
                    == from by {
                    if done.contains(q) {
                        let k = choose|k: int| 0 <= k < done.len() && done[k] == q;
                        assert(done.push(from)[k] == q);
                    }
                    assert(done.push(from)[i as int] == from);
                    if done.push(from).contains(q) {
                        let k = choose|k: int|
                            0 <= k < done.push(from).len() && done.push(from)[k] == q;
                        if k < i {
                            assert(done[k] == q);
                        }
                    }
                }
            }
            match table.get(&from) {
                Some(entry) => {
                    if entry.1 {
                        if let Some(other) = start {
                            proof {
                                assert(start_among(table@, done, other));
                                assert(other != from && table_is_start(table@, from));
                            }
                            return Err(MalformedTableError::MultipleStart);
                        }
                        start = Some(from);
                    }
                    if entry.0 {
                        finish_states.insert(from);
                    }
                    let mut j: usize = 0;
                    proof {
                        assert(entry.2@.take(0) =~= Seq::<(char, State)>::empty());
                        assert forall|x: (char, State)| !(#[trigger] entry.2@.take(0).contains(x)) by {
                            if entry.2@.take(0).contains(x) {
                                let k = choose|k: int|
                                    0 <= k < entry.2@.take(0).len() && entry.2@.take(0)[k] == x;
                            }
                        }
                        assert forall|p: State, a: char| #[trigger]
                            first_match(rules@, p, a) == if done.contains(p) {
                                table_step(table@, p, a)
                            } else if p == from && table@.contains_key(from) {
                                row_target(entry.2@.take(0), a)
                            } else {
                                None
                            } by {
                            assert(first_match(rules@, p, a) == if done.contains(p) {
                                table_step(table@, p, a)
                            } else {
                                None
                            });
                        }
                    }
                    while j < entry.2.len()
                        invariant
                            0 <= j <= entry.2.len(),
                            table@.contains_key(from),
                            table@[from] == *entry,
                            !done.contains(from),
                            rules_drawn(rules@, table@, done, from, j as int),
                        decreases entry.2.len() - j,
                    {
                        let alphabet = scalar(entry.2[j].0);
                        let to = entry.2[j].1;
                        let ghost earlier = rules@;
                        let rule = Rule { from, alphabet, to };
                        rules.push(rule);
                        proof {
                            let row = entry.2@;
                            assert(rules@.drop_last() =~= earlier);
                            assert(rules@.last() == rule);
                            assert(row.take(j + 1).drop_last() =~= row.take(j as int));
                            assert(row.take(j + 1).last() == (alphabet, to));
                            assert forall|r: Rule| #[trigger]
                                rules@.contains(r) <==> (done.contains(r.from) && table_has_entry(
                                    table@,
                                    r.from,
                                    r.alphabet,
                                    r.to,
                                )) || (r.from == from && table@.contains_key(from) && row.take(
                                    j + 1,
                                ).contains((r.alphabet, r.to))) by {
                                assert(earlier.contains(r) <==> (done.contains(r.from)
                                    && table_has_entry(table@, r.from, r.alphabet, r.to)) || (r.from
                                    == from && table@.contains_key(from) && row.take(
                                    j as int,
                                ).contains((r.alphabet, r.to))));
                                crate::collections::lemma_push_contains(earlier, rule, r);
                                crate::collections::lemma_push_contains(
                                    row.take(j as int),
                                    (alphabet, to),
                                    (r.alphabet, r.to),
                                );
                                assert(row.take(j + 1) =~= row.take(j as int).push((alphabet, to)));
                            }
                            assert forall|p: State, a: char| #[trigger]
                                first_match(rules@, p, a) == if done.contains(p) {
                                    table_step(table@, p, a)
                                } else if p == from && table@.contains_key(from) {
                                    row_target(row.take(j + 1), a)
                                } else {
                                    None
                                } by {
                                assert(first_match(earlier, p, a) == if done.contains(p) {
                                    table_step(table@, p, a)
                                } else if p == from && table@.contains_key(from) {
                                    row_target(row.take(j as int), a)
                                } else {
                                    None
                                });
                            }
                        }
                        j += 1;
                    }
                    proof {
                        assert(entry.2@.take(j as int) =~= entry.2@);
                        let next = keys@.take(i + 1);
                        assert forall|q: State| #[trigger]
                            start_among(table@, next, q) <==> start_among(table@, done, q) || (q
                                == from && entry.1) by {
                            assert(next.contains(q) <==> done.contains(q) || q == from);
                        }
                        assert forall|p: State, a: char| #[trigger]
                            first_match(rules@, p, a) == if next.contains(p) {
                                table_step(table@, p, a)
                            } else {
                                None
                            } by {
                            assert(first_match(rules@, p, a) == if done.contains(p) {
                                table_step(table@, p, a)
                            } else if p == from && table@.contains_key(from) {
                                row_target(entry.2@.take(j as int), a)
                            } else {
                                None
                            });
                        }
                        assert forall|r: Rule| #[trigger]
                            rules@.contains(r) <==> (next.contains(r.from) && table_has_entry(
                                table@,
                                r.from,
                                r.alphabet,
                                r.to,
                            )) by {
                            assert(rules@.contains(r) <==> (done.contains(r.from)
                                && table_has_entry(table@, r.from, r.alphabet, r.to)) || (r.from
                                == from && table@.contains_key(from) && entry.2@.take(
                                j as int,
                            ).contains((r.alphabet, r.to))));
                        }
                    }
                },
                None => {},
            }
            i += 1;
        }
        proof {
            assert(keys@.take(i as int) =~= keys@);
            assert forall|q: State| keys@.contains(q) <==> table@.contains_key(q) by {
                assert(keys@.to_set().contains(q) <==> table@.dom().contains(q));
            }
            assert forall|q: State| table_is_start(table@, q) <==> start_among(table@, keys@, q) by {}
            assert forall|q: State, a: char, to: State| #[trigger]
                rules@.contains(Rule { from: q, alphabet: a, to }) <==> table_has_entry(
                    table@,
                    q,
                    a,
                    to,
                ) by {
                lemma_rules_of_rows_entry(rules@, table@, keys@, q, a, to);
            }
        }
        match start {
            Some(s) => Ok(Dfa { start: s, finish_states, rules }),
            None => Err(MalformedTableError::NoStart),
        }
    }
}

/// The state reached in the table from `q` after reading `word`, or the
/// place where no entry fits.
pub open spec fn table_run_from(t: TableView, q: State, word: Seq<char>) -> Result<
    State,
    NonTotalTransitionError,
>
    decreases word.len(),
{
    if word.len() == 0 {
        Ok(q)
    } else {
        match table_run_from(t, q, word.drop_last()) {
            Ok(p) => match table_step(t, p, word.last()) {
                Some(to) => Ok(to),
                None => Err(NonTotalTransitionError { state: p, symbol: word.last() }),
            },
            Err(e) => Err(e),
        }
    }
}

/// The run of the table from `q` on `word` ends, and in an accepting state.
pub open spec fn table_accepts_from(t: TableView, q: State, word: Seq<char>) -> bool {
    table_run_from(t, q, word) matches Ok(p) && table_is_finish(t, p)
}

/// `start` is the one state that the table marks as the start.
pub open spec fn table_start_is(t: TableView, start: State) -> bool {
    forall|q: State| table_is_start(t, q) <==> q == start
}

/// What the row gives for a symbol is one of its entries.
pub proof fn lemma_row_target_is_entry(row: Seq<(char, State)>, a: char) -> (k: int)
    requires
        row_target(row, a) is Some,
    ensures
        0 <= k < row.len(),
        row[k] == (a, row_target(row, a)->0),
    decreases row.len(),
{
    if row_target(row.drop_last(), a) is Some {
        lemma_row_target_is_entry(row.drop_last(), a)
    } else {
        row.len() - 1
    }
}

impl Dfa {
    /// An automaton and a table that take the same steps make the same
    /// runs.
    pub proof fn lemma_run_by_table(&self, t: TableView, q: State, word: Seq<char>)
        requires
            forall|p: State, a: char| #[trigger] self.spec_step(p, a) == table_step(t, p, a),
        ensures
            self.spec_run_from(q, word) == table_run_from(t, q, word),
        decreases word.len(),
    {
        if word.len() > 0 {
            self.lemma_run_by_table(t, q, word.drop_last());
            if self.spec_run_from(q, word.drop_last()) is Ok {
                let p = self.spec_run_from(q, word.drop_last())->Ok_0;
                assert(self.spec_step(p, word.last()) == table_step(t, p, word.last()));
            }
        }
    }
}

} // verus!
