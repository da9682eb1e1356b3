//! The syntax tree of a regular expression and the automaton that is built from it.
use vstd::prelude::*;
use crate::collections::scalar;
use crate::nfa::{GlobalEnv, Nfa, NfaView, Rule, State, EPSILON};

verus! {

/// A regular expression.
///
/// `Cat` with no operand matches nothing, and so does `Or` with no operand.
#[derive(Debug, PartialEq, Eq)]
pub enum RegExpr {
    Empty,
    Char(char),
    Cat(Vec<RegExpr>),
    Or(Vec<RegExpr>),
    Repeat(Box<RegExpr>),
}

/// The mathematical form of a [`RegExpr`].
pub enum RegExprView {
    Empty,
    Char(char),
    Cat(Seq<RegExprView>),
    Or(Seq<RegExprView>),
    Repeat(Box<RegExprView>),
}

impl RegExpr {
    /// The expression as a mathematical value.
    pub open spec fn model(&self) -> RegExprView
        decreases self,
    {
        match self {
            RegExpr::Empty => RegExprView::Empty,
            RegExpr::Char(c) => RegExprView::Char(*c),
            RegExpr::Cat(v) => RegExprView::Cat(
                Seq::new(
                    v@.len(),
                    |i: int|
                        if 0 <= i < v@.len() {
                            v@[i].model()
                        } else {
                            RegExprView::Empty
                        },
                ),
            ),
            RegExpr::Or(v) => RegExprView::Or(
                Seq::new(
                    v@.len(),
                    |i: int|
                        if 0 <= i < v@.len() {
                            v@[i].model()
                        } else {
                            RegExprView::Empty
                        },
                ),
            ),
            RegExpr::Repeat(r) => RegExprView::Repeat(Box::new(r.model())),
        }
    }
}

impl View for RegExpr {
    type V = RegExprView;

    open spec fn view(&self) -> RegExprView {
        self.model()
    }
}

/// The number of states that the first `n` expressions of `v` take together.
pub open spec fn list_state_count(v: Seq<RegExprView>, n: int) -> int
    decreases v, n,
{
    if 0 < n <= v.len() {
        list_state_count(v, n - 1) + v[n - 1].state_count()
    } else {
        0
    }
}

/// An epsilon transition between two states given as integers.
pub open spec fn eps_rule(from: int, to: int) -> Rule {
    Rule { from: from as State, to: to as State, alphabet: EPSILON }
}

/// The transitions that chain the first `n` operands of a concatenation that
/// takes its own start `base + 1` and finish `base + 2`: for each operand
/// the link into it, then its own transitions.
pub open spec fn cat_rules(v: Seq<RegExprView>, base: int, n: int) -> Seq<Rule>
    decreases v, n,
{
    if 0 < n <= v.len() {
        let b = base + 2 + list_state_count(v, n - 1);
        let from = if n == 1 {
            base + 1
        } else {
            v[n - 2].nfa_finish(base + 2 + list_state_count(v, n - 2))
        };
        cat_rules(v, base, n - 1) + seq![eps_rule(from, v[n - 1].nfa_start(b))] + v[n
            - 1].nfa_rules(b)
    } else {
        Seq::empty()
    }
}

/// The transitions that join the first `n` operands of an alternation that
/// takes its own start `base + 1` and finish `base + 2`: for each operand
/// the link into it, the link out of it, then its own transitions.
pub open spec fn or_rules(v: Seq<RegExprView>, base: int, n: int) -> Seq<Rule>
    decreases v, n,
{
    if 0 < n <= v.len() {
        let b = base + 2 + list_state_count(v, n - 1);
        or_rules(v, base, n - 1) + seq![
            eps_rule(base + 1, v[n - 1].nfa_start(b)),
            eps_rule(v[n - 1].nfa_finish(b), base + 2),
        ] + v[n - 1].nfa_rules(b)
    } else {
        Seq::empty()
    }
}

impl RegExprView {
    /// The number of states that the automaton of this expression has.
    pub open spec fn state_count(self) -> int
        decreases self, 0int,
    {
        match self {
            RegExprView::Empty => 2,
            RegExprView::Char(_) => 2,
            RegExprView::Cat(v) => 2 + list_state_count(v, v.len() as int),
            RegExprView::Or(v) => 2 + list_state_count(v, v.len() as int),
            RegExprView::Repeat(r) => 1 + r.state_count(),
        }
    }

    /// The start state of the automaton built when `base` was the last
    /// identifier issued.
    pub open spec fn nfa_start(self, base: int) -> int {
        base + 1
    }

    /// The accepting state of that automaton. A repetition has none of its
    /// own: it accepts where the repeated expression does.
    pub open spec fn nfa_finish(self, base: int) -> int
        decreases self,
    {
        match self {
            RegExprView::Repeat(r) => r.nfa_finish(base + 1),
            _ => base + 2,
        }
    }

    /// The transitions of that automaton, in the order in which they are
    /// laid down.
    pub open spec fn nfa_rules(self, base: int) -> Seq<Rule>
        decreases self, 0int,
    {
        match self {
            RegExprView::Empty => seq![eps_rule(base + 1, base + 2)],
            RegExprView::Char(c) => seq![
                Rule { from: (base + 1) as State, to: (base + 2) as State, alphabet: c },
            ],
            RegExprView::Cat(v) => if v.len() == 0 {
                Seq::empty()
            } else {
                let n = v.len() as int;
                cat_rules(v, base, n) + seq![
                    eps_rule(v[n - 1].nfa_finish(base + 2 + list_state_count(v, n - 1)), base + 2),
                ]
            },
            RegExprView::Or(v) => or_rules(v, base, v.len() as int),
            RegExprView::Repeat(r) => r.nfa_rules(base + 1) + seq![
                eps_rule(base + 1, r.nfa_finish(base + 1)),
                eps_rule(r.nfa_finish(base + 1), r.nfa_start(base + 1)),
            ],
        }
    }

    /// The automaton built for the expression when `base` was the last
    /// identifier issued.
    pub open spec fn automaton(self, base: int) -> NfaView {
        NfaView {
            start: self.nfa_start(base) as State,
            finish: self.nfa_finish(base) as State,
            rules: self.nfa_rules(base),
        }
    }

    /// Every expression takes at least one state.
    pub proof fn lemma_state_count_positive(self)
        ensures
            self.state_count() >= 1,
        decreases self,
    {
        match self {
            RegExprView::Cat(v) => lemma_list_state_count_nonnegative(v, v.len() as int),
            RegExprView::Or(v) => lemma_list_state_count_nonnegative(v, v.len() as int),
            RegExprView::Repeat(r) => r.lemma_state_count_positive(),
            _ => {},
        }
    }
}

/// A list of expressions takes no fewer states when more of it is counted.
pub proof fn lemma_list_state_count_nonnegative(v: Seq<RegExprView>, n: int)
    ensures
        list_state_count(v, n) >= 0,
        0 < n <= v.len() ==> list_state_count(v, n) >= list_state_count(v, n - 1) + 1,
    decreases v, n,
{
    if 0 < n <= v.len() {
        lemma_list_state_count_nonnegative(v, n - 1);
        v[n - 1].lemma_state_count_positive();
    }
}

/// Counting more of a list never gives less.
pub proof fn lemma_list_state_count_monotonic(v: Seq<RegExprView>, m: int, n: int)
    requires
        0 <= m <= n <= v.len(),
    ensures
        list_state_count(v, m) <= list_state_count(v, n),
    decreases n - m,
{
    if m < n {
        lemma_list_state_count_nonnegative(v, n);
        lemma_list_state_count_monotonic(v, m, n - 1);
    }
}

impl RegExpr {
    /// Thompson's construction. The states are taken from `env`, the first
    /// of them for the start.
    pub fn to_nfa(&self, env: &mut GlobalEnv) -> (nfa: Nfa)
        requires
            old(env).current + self@.state_count() <= i32::MAX,
        ensures
            final(env).current == old(env).current + self@.state_count(),
            nfa.start == self@.nfa_start(old(env).current as int),
            nfa.finish == self@.nfa_finish(old(env).current as int),
            nfa.rules@ == self@.nfa_rules(old(env).current as int),
            nfa@ =~= self@.automaton(old(env).current as int),
        decreases self,
    {
        let ghost base = env.current as int;
        proof {
            self@.lemma_state_count_positive();
        }
        let nfa = match self {
            RegExpr::Empty => {
                let start = env.new_state();
                let finish = env.new_state();
                let rules = vec![Rule { from: start, to: finish, alphabet: EPSILON }];
                Nfa { start, finish, rules }
            },
            RegExpr::Char(c) => {
                let start = env.new_state();
                let finish = env.new_state();
                let rules = vec![Rule { from: start, to: finish, alphabet: *c }];
                Nfa { start, finish, rules }
            },
            RegExpr::Cat(v) => {
                let ghost m = self@->Cat_0;
                proof {
                    lemma_list_state_count_nonnegative(m, m.len() as int);
                }
                let start = env.new_state();
                let finish = env.new_state();
                let mut rules: Vec<Rule> = Vec::new();
                let mut link = start;
                let mut i: usize = 0;
                while i < v.len()
                    invariant
                        0 <= i <= v.len(),
                        m.len() == v.len(),
                        forall|k: int| 0 <= k < v.len() ==> m[k] == #[trigger] v@[k]@,
                        forall|k: int| 0 <= k < v.len() ==> decreases_to!(self => #[trigger] v@[k]),
                        base + 2 + list_state_count(m, m.len() as int) <= i32::MAX,
                        env.current == base + 2 + list_state_count(m, i as int),
                        rules@ == cat_rules(m, base, i as int),
                        start == base + 1,
                        finish == base + 2,
                        link == if i == 0 {
                            base + 1
                        } else {
                            m[i - 1].nfa_finish(base + 2 + list_state_count(m, i - 1))
                        },
                    decreases v.len() - i,
                {
                    proof {
                        lemma_list_state_count_monotonic(m, i as int + 1, m.len() as int);
                        lemma_list_state_count_nonnegative(m, i as int);
                    }
                    let nfa = v[i].to_nfa(env);
                    rules.push(Rule { from: link, to: nfa.start, alphabet: EPSILON });
                    let mut inner = nfa.rules;
                    rules.append(&mut inner);
                    link = nfa.finish;
                    i += 1;
                }
                if v.len() > 0 {
                    rules.push(Rule { from: link, to: finish, alphabet: EPSILON });
                }
                Nfa { start, finish, rules }
            },
            RegExpr::Or(v) => {
                let ghost m = self@->Or_0;
                proof {
                    lemma_list_state_count_nonnegative(m, m.len() as int);
                }
                let start = env.new_state();
                let finish = env.new_state();
                let mut rules: Vec<Rule> = Vec::new();
                let mut i: usize = 0;
                while i < v.len()
                    invariant
                        0 <= i <= v.len(),
                        m.len() == v.len(),
                        forall|k: int| 0 <= k < v.len() ==> m[k] == #[trigger] v@[k]@,
                        forall|k: int| 0 <= k < v.len() ==> decreases_to!(self => #[trigger] v@[k]),
                        base + 2 + list_state_count(m, m.len() as int) <= i32::MAX,
                        env.current == base + 2 + list_state_count(m, i as int),
                        rules@ == or_rules(m, base, i as int),
                        start == base + 1,
                        finish == base + 2,
                    decreases v.len() - i,
                {
                    proof {
                        lemma_list_state_count_monotonic(m, i as int + 1, m.len() as int);
                        lemma_list_state_count_nonnegative(m, i as int);
                    }
                    let nfa = v[i].to_nfa(env);
                    rules.push(Rule { from: start, to: nfa.start, alphabet: EPSILON });
                    rules.push(Rule { from: nfa.finish, to: finish, alphabet: EPSILON });
                    let mut inner = nfa.rules;
                    rules.append(&mut inner);
                    i += 1;
                }
                Nfa { start, finish, rules }
            },
            RegExpr::Repeat(r) => {
                let start = env.new_state();
                let nfa = r.to_nfa(env);
                let mut rules = nfa.rules;
                rules.push(Rule { from: start, to: nfa.finish, alphabet: EPSILON });
                rules.push(Rule { from: nfa.finish, to: nfa.start, alphabet: EPSILON });
                Nfa { start, finish: nfa.finish, rules }
            },
        };
        proof {
            let view = self@.automaton(base);
            assert(nfa@.start == view.start);
            assert(nfa@.finish == view.finish);
            assert(nfa@.rules =~= view.rules);
        }
        nfa
    }
}

/// The symbols of the first `n` expressions of `v`, in their order.
pub open spec fn list_alphabets(v: Seq<RegExprView>, n: int) -> Seq<char>
    decreases v, n,
{
    if 0 < n <= v.len() {
        list_alphabets(v, n - 1) + v[n - 1].alphabets()
    } else {
        Seq::empty()
    }
}

impl RegExprView {
    /// The symbols of the expression from left to right, each as often as
    /// it stands there.
    pub open spec fn alphabets(self) -> Seq<char>
        decreases self, 0int,
    {
        match self {
            RegExprView::Empty => Seq::empty(),
            RegExprView::Char(c) => seq![c],
            RegExprView::Cat(v) => list_alphabets(v, v.len() as int),
            RegExprView::Or(v) => list_alphabets(v, v.len() as int),
            RegExprView::Repeat(r) => r.alphabets(),
        }
    }
}

/// The concatenation of the characters of `s`, each as a symbol.
pub fn cat_char(s: &str) -> (e: RegExpr)
    ensures
        e@ is Cat,
        e@->Cat_0.len() == s@.len(),
        forall|i: int| 0 <= i < s@.len() ==> (#[trigger] e@->Cat_0[i]) == RegExprView::Char(s@[i]),
{
    let mut v: Vec<RegExpr> = Vec::new();
    for c in it: s.chars()
        invariant
            it.seq() == s@,
            v@.len() == it.index(),
            forall|i: int| 0 <= i < v@.len() ==> (#[trigger] v@[i])@ == RegExprView::Char(s@[i]),
    {
        v.push(RegExpr::Char(scalar(c)));
    }
    let ghost items = v@;
    let e = RegExpr::Cat(v);
    proof {
        let got = e@->Cat_0;
        assert(got.len() == items.len() == s@.len());
        assert forall|i: int| 0 <= i < s@.len() implies (#[trigger] got[i]) == RegExprView::Char(
            s@[i],
        ) by {
            assert(got[i] == items[i]@);
        }
    }
    e
}

impl RegExpr {
    /// The symbols of the expression from left to right, each as often as
    /// it stands there.
    pub fn get_alphabets(&self) -> (symbols: Vec<char>)
        ensures
            symbols@ == self@.alphabets(),
        decreases self,
    {
        let mut v: Vec<char> = Vec::new();
        match self {
            RegExpr::Empty => {},
            RegExpr::Char(c) => {
                v.push(*c);
            },
            RegExpr::Cat(rs) => {
                let ghost m = self@->Cat_0;
                let mut i: usize = 0;
                while i < rs.len()
                    invariant
                        0 <= i <= rs.len(),
                        m.len() == rs.len(),
                        forall|k: int| 0 <= k < rs.len() ==> m[k] == #[trigger] rs@[k]@,
                        forall|k: int|
                            0 <= k < rs.len() ==> decreases_to!(self => #[trigger] rs@[k]),
                        v@ == list_alphabets(m, i as int),
                    decreases rs.len() - i,
                {
                    let mut inner = rs[i].get_alphabets();
                    v.append(&mut inner);
                    i += 1;
                }
            },
            RegExpr::Or(rs) => {
                let ghost m = self@->Or_0;
                let mut i: usize = 0;
                while i < rs.len()
                    invariant
                        0 <= i <= rs.len(),
                        m.len() == rs.len(),
                        forall|k: int| 0 <= k < rs.len() ==> m[k] == #[trigger] rs@[k]@,
                        forall|k: int|
                            0 <= k < rs.len() ==> decreases_to!(self => #[trigger] rs@[k]),
                        v@ == list_alphabets(m, i as int),
                    decreases rs.len() - i,
                {
                    let mut inner = rs[i].get_alphabets();
                    v.append(&mut inner);
                    i += 1;
                }
            },
            RegExpr::Repeat(r) => {
                let mut inner = r.get_alphabets();
                v.append(&mut inner);
            },
        }
        v
    }

    /// What is left of `budget` states when the automaton of the expression
    /// has taken its own, or nothing where it needs more.
    pub fn states_left(&self, budget: i32) -> (left: Option<i32>)
        requires
            0 <= budget,
        ensures
            match left {
                Some(n) => 0 <= n == budget - self@.state_count(),
                None => self@.state_count() > budget,
            },
        decreases self,
    {
        match self {
            RegExpr::Empty => if budget >= 2 {
                Some(budget - 2)
            } else {
                None
            },
            RegExpr::Char(_) => if budget >= 2 {
                Some(budget - 2)
            } else {
                None
            },
            RegExpr::Cat(rs) => {
                let ghost m = self@->Cat_0;
                proof {
                    lemma_list_state_count_nonnegative(m, rs.len() as int);
                }
                if budget < 2 {
                    return None;
                }
                let mut left = budget - 2;
                let mut i: usize = 0;
                while i < rs.len()
                    invariant
                        0 <= i <= rs.len(),
                        m.len() == rs.len(),
                        forall|k: int| 0 <= k < rs.len() ==> m[k] == #[trigger] rs@[k]@,
                        forall|k: int|
                            0 <= k < rs.len() ==> decreases_to!(self => #[trigger] rs@[k]),
                        self@.state_count() == 2 + list_state_count(m, m.len() as int),
                        0 <= left == budget - 2 - list_state_count(m, i as int),
                    decreases rs.len() - i,
                {
                    match rs[i].states_left(left) {
                        Some(n) => {
                            left = n;
                        },
                        None => {
                            proof {
                                lemma_list_state_count_monotonic(m, i + 1, m.len() as int);
                            }
                            return None;
                        },
                    }
                    i += 1;
                }
                Some(left)
            },
            RegExpr::Or(rs) => {
                let ghost m = self@->Or_0;
                proof {
                    lemma_list_state_count_nonnegative(m, rs.len() as int);
                }
                if budget < 2 {
                    return None;
                }
                let mut left = budget - 2;
                let mut i: usize = 0;
                while i < rs.len()
                    invariant
                        0 <= i <= rs.len(),
                        m.len() == rs.len(),
                        forall|k: int| 0 <= k < rs.len() ==> m[k] == #[trigger] rs@[k]@,
                        forall|k: int|
                            0 <= k < rs.len() ==> decreases_to!(self => #[trigger] rs@[k]),
                        self@.state_count() == 2 + list_state_count(m, m.len() as int),
                        0 <= left == budget - 2 - list_state_count(m, i as int),
                    decreases rs.len() - i,
                {
                    match rs[i].states_left(left) {
                        Some(n) => {
                            left = n;
                        },
                        None => {
                            proof {
                                lemma_list_state_count_monotonic(m, i + 1, m.len() as int);
                            }
                            return None;
                        },
                    }
                    i += 1;
                }
                Some(left)
            },
            RegExpr::Repeat(r) => {
                proof {
                    r@.lemma_state_count_positive();
                }
                if budget < 1 {
                    return None;
                }
                r.states_left(budget - 1)
            },
        }
    }
}

} // verus!
