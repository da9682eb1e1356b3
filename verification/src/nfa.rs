//! Non-deterministic automata with epsilon transitions.
use vstd::prelude::*;
use std::collections::BTreeSet;
use crate::collections::{set_elements, union_into};

verus! {

/// An identifier of a state. It carries no meaning beyond identity.
pub type State = i32;

/// The label of a transition that reads no input.
pub const EPSILON: char = '\u{3b5}';

/// Issues state identifiers, each one larger than the last.
pub struct GlobalEnv {
    pub current: State,
}

impl Default for GlobalEnv {
    fn default() -> (env: Self)
        ensures
            env.current == 0,
    {
        Self { current: 0 }
    }
}

impl GlobalEnv {
    /// Hands out the identifier after the last one issued.
    pub fn new_state(&mut self) -> (s: State)
        requires
            old(self).current < i32::MAX,
        ensures
            final(self).current == old(self).current + 1,
            s == final(self).current,
    {
        self.current += 1;
        self.current
    }
}

/// One transition: from `from` to `to`, reading `alphabet`, or nothing when
/// `alphabet` is [`EPSILON`].
#[derive(Debug, Clone, Copy, PartialEq, Eq, Structural)]
pub struct Rule {
    pub from: State,
    pub to: State,
    pub alphabet: char,
}

/// An automaton with one start state and one accepting state.
#[derive(Debug, PartialEq, Eq)]
pub struct Nfa {
    pub start: State,
    pub finish: State,
    pub rules: Vec<Rule>,
}

/// The mathematical form of an [`Nfa`].
pub struct NfaView {
    pub start: State,
    pub finish: State,
    pub rules: Seq<Rule>,
}

impl View for Nfa {
    type V = NfaView;

    open spec fn view(&self) -> NfaView {
        NfaView { start: self.start, finish: self.finish, rules: self.rules@ }
    }
}

/// One of `rules` leads from `from` to `to` with the label `label`.
pub open spec fn rule_in(rules: Seq<Rule>, from: State, label: char, to: State) -> bool {
    exists|k: int|
        0 <= k < rules.len() && (#[trigger] rules[k]).from == from && rules[k].alphabet == label
            && rules[k].to == to
}

impl NfaView {
    /// There is a rule from `from` to `to` with the label `label`.
    pub open spec fn has_rule(&self, from: State, label: char, to: State) -> bool {
        rule_in(self.rules, from, label, to)
    }

    /// The states that one rule with the label `c` reaches from `s`.
    pub open spec fn spec_edge(&self, s: State, c: char) -> Set<State> {
        Set::new(|t: State| self.has_rule(s, c, t))
    }

    /// Each state of `path` is joined to the next by an epsilon rule.
    pub open spec fn eps_path(&self, path: Seq<State>) -> bool {
        &&& path.len() > 0
        &&& forall|i: int|
            0 <= i < path.len() - 1 ==> #[trigger] self.has_rule(path[i], EPSILON, path[i + 1])
    }

    /// `to` is reached from `from` by epsilon rules alone.
    pub open spec fn eps_reaches(&self, from: State, to: State) -> bool {
        exists|path: Seq<State>| #[trigger]
            self.eps_path(path) && path.first() == from && path.last() == to
    }

    /// The epsilon closure: the states reached from a state of `states` by
    /// epsilon rules alone, those of `states` among them.
    pub open spec fn spec_closure(&self, states: Set<State>) -> Set<State> {
        Set::new(|t: State| exists|s: State| states.contains(s) && #[trigger] self.eps_reaches(s, t))
    }

    /// The states that one rule with the label `c` reaches from a state of
    /// `states`.
    pub open spec fn spec_move(&self, states: Set<State>, c: char) -> Set<State> {
        Set::new(|t: State| exists|s: State| states.contains(s) && #[trigger] self.has_rule(s, c, t))
    }

    /// Where the symbol `c` leads from the states `states`: one rule with
    /// that label, then epsilon rules.
    pub open spec fn spec_dfa_edge(&self, states: Set<State>, c: char) -> Set<State> {
        self.spec_closure(self.spec_move(states, c))
    }

    /// The states in which the automaton can be after it has read `word`
    /// from one of the states `from`.
    pub open spec fn after(&self, from: Set<State>, word: Seq<char>) -> Set<State>
        decreases word.len(),
    {
        if word.len() == 0 {
            self.spec_closure(from)
        } else {
            self.spec_dfa_edge(self.after(from, word.drop_last()), word.last())
        }
    }

    /// The states in which the automaton can be after it has read `word`
    /// from its start.
    pub open spec fn states_after(&self, word: Seq<char>) -> Set<State> {
        self.after(set![self.start], word)
    }

    /// The automaton can be in its accepting state after it has read
    /// `word`.
    pub open spec fn accepts(&self, word: Seq<char>) -> bool {
        self.states_after(word).contains(self.finish)
    }

    /// The targets of all rules.
    pub open spec fn targets(&self) -> Set<State> {
        self.rules.map_values(|r: Rule| r.to).to_set()
    }

    /// What is reached by epsilon rules is where one started or the target
    /// of a rule.
    pub proof fn lemma_closure_bound(&self, states: Set<State>)
        ensures
            self.spec_closure(states).subset_of(states.union(self.targets())),
            states.subset_of(self.spec_closure(states)),
            self.targets().finite(),
    {
        let targets = self.rules.map_values(|r: Rule| r.to);
        vstd::seq_lib::seq_to_set_is_finite(targets);
        assert forall|t: State| self.spec_closure(states).contains(t) implies states.union(
            self.targets(),
        ).contains(t) by {
            let s = choose|s: State| states.contains(s) && #[trigger] self.eps_reaches(s, t);
            let path = choose|path: Seq<State>| #[trigger]
                self.eps_path(path) && path.first() == s && path.last() == t;
            if path.len() > 1 {
                let n = path.len() - 2;
                assert(self.has_rule(path[n], EPSILON, path[n + 1]));
                let k = choose|k: int|
                    0 <= k < self.rules.len() && (#[trigger] self.rules[k]).from == path[n]
                        && self.rules[k].alphabet == EPSILON && self.rules[k].to == t;
                assert(targets[k] == t);
                assert(targets.contains(t));
            }
        }
        assert forall|s: State| states.contains(s) implies self.spec_closure(states).contains(
            s,
        ) by {
            self.lemma_reaches_itself(s);
        }
    }

    /// Every state is reached from itself.
    pub proof fn lemma_reaches_itself(&self, s: State)
        ensures
            self.eps_reaches(s, s),
    {
        let path = seq![s];
        assert(self.eps_path(path) && path.first() == s && path.last() == s);
    }

    /// A set that is closed under epsilon rules holds the closure of every
    /// set in it.
    pub proof fn lemma_closed_holds_closure(&self, states: Set<State>, closed: Set<State>)
        requires
            states.subset_of(closed),
            forall|s: State, t: State|
                closed.contains(s) && #[trigger] self.has_rule(s, EPSILON, t) ==> closed.contains(t),
        ensures
            self.spec_closure(states).subset_of(closed),
    {
        assert forall|t: State| self.spec_closure(states).contains(t) implies closed.contains(t) by {
            let s = choose|s: State| states.contains(s) && #[trigger] self.eps_reaches(s, t);
            let path = choose|path: Seq<State>| #[trigger]
                self.eps_path(path) && path.first() == s && path.last() == t;
            self.lemma_path_stays(closed, path, path.len() - 1);
        }
    }

    /// A path of epsilon rules that starts in a closed set stays in it.
    pub proof fn lemma_path_stays(&self, closed: Set<State>, path: Seq<State>, i: int)
        requires
            self.eps_path(path),
            closed.contains(path.first()),
            0 <= i < path.len(),
            forall|p: State, q: State|
                closed.contains(p) && #[trigger] self.has_rule(p, EPSILON, q) ==> closed.contains(q),
        ensures
            closed.contains(path[i]),
        decreases i,
    {
        if i > 0 {
            self.lemma_path_stays(closed, path, i - 1);
            assert(self.has_rule(path[i - 1], EPSILON, path[i - 1 + 1]));
        }
    }

    /// One more epsilon rule from the closure leads into the closure.
    pub proof fn lemma_closure_step(&self, states: Set<State>, s: State, t: State)
        requires
            self.spec_closure(states).contains(s),
            self.has_rule(s, EPSILON, t),
        ensures
            self.spec_closure(states).contains(t),
    {
        let origin = choose|o: State| states.contains(o) && #[trigger] self.eps_reaches(o, s);
        let path = choose|path: Seq<State>| #[trigger]
            self.eps_path(path) && path.first() == origin && path.last() == s;
        let longer = path.push(t);
        assert(self.eps_path(longer)) by {
            assert forall|i: int| 0 <= i < longer.len() - 1 implies #[trigger] self.has_rule(
                longer[i],
                EPSILON,
                longer[i + 1],
            ) by {
                if i < path.len() - 1 {
                    assert(self.has_rule(path[i], EPSILON, path[i + 1]));
                }
            }
        }
        assert(longer.first() == origin && longer.last() == t);
        assert(self.eps_reaches(origin, t));
    }
}

impl Nfa {
    /// The states that one rule with the label `c` reaches from `s`.
    pub fn edge(&self, s: State, c: char) -> (reached: BTreeSet<State>)
        ensures
            reached@ == self@.spec_edge(s, c),
    {
        let mut reached: BTreeSet<State> = BTreeSet::new();
        let mut i: usize = 0;
        while i < self.rules.len()
            invariant
                0 <= i <= self.rules.len(),
                forall|t: State|
                    reached@.contains(t) <==> exists|k: int|
                        0 <= k < i && (#[trigger] self.rules@[k]).from == s && self.rules@[k].alphabet
                            == c && self.rules@[k].to == t,
            decreases self.rules.len() - i,
        {
            let r = self.rules[i];
            if r.from == s && r.alphabet == c {
                reached.insert(r.to);
            }
            i += 1;
        }
        proof {
            assert(self@.rules == self.rules@);
            assert(reached@ =~= self@.spec_edge(s, c));
        }
        reached
    }

    /// The epsilon closure of one state.
    pub fn closure_(&self, state: State) -> (closed: BTreeSet<State>)
        ensures
            closed@ == self@.spec_closure(set![state]),
    {
        let mut set: BTreeSet<State> = BTreeSet::new();
        set.insert(state);
        proof {
            assert(set@ =~= set![state]);
        }
        self.closure(&set)
    }

    /// The epsilon closure of a set of states: the targets of the epsilon
    /// rules that leave the set are added to it until none is new.
    pub fn closure(&self, states: &BTreeSet<State>) -> (closed: BTreeSet<State>)
        ensures
            closed@ == self@.spec_closure(states@),
    {
        let ghost all = states@.union(self@.targets());
        let mut t = states.clone();
        let mut items = set_elements(&t);
        proof {
            self@.lemma_closure_bound(states@);
        }
        let mut done = false;
        while !done
            invariant
                items@.to_set() == t@,
                items@.len() == t@.len(),
                states@.subset_of(t@),
                t@.subset_of(self@.spec_closure(states@)),
                self@.spec_closure(states@).subset_of(all),
                all.finite(),
                t@.finite(),
                done ==> t@ == self@.spec_closure(states@),
            decreases
                    (if done {
                        0
                    } else {
                        all.len() - t@.len() + 1
                    }),
        {
            let mut t_dash = t.clone();
            let mut i: usize = 0;
            while i < items.len()
                invariant
                    0 <= i <= items.len(),
                    items@.to_set() == t@,
                    t@.subset_of(t_dash@),
                    t@.subset_of(self@.spec_closure(states@)),
                    t_dash@.subset_of(self@.spec_closure(states@)),
                    forall|k: int, u: State|
                        0 <= k < i && #[trigger] self@.has_rule(items@[k], EPSILON, u)
                            ==> t_dash@.contains(u),
                decreases items.len() - i,
            {
                let reached = self.edge(items[i], EPSILON);
                let ghost before = t_dash@;
                union_into(&mut t_dash, &reached);
                proof {
                    assert(items@.contains(items@[i as int]));
                    assert(t@.contains(items@[i as int]));
                    assert forall|u: State| t_dash@.contains(u) implies self@.spec_closure(
                        states@,
                    ).contains(u) by {
                        if !before.contains(u) {
                            assert(self@.has_rule(items@[i as int], EPSILON, u));
                            self@.lemma_closure_step(states@, items@[i as int], u);
                        }
                    }
                }
                i += 1;
            }
            let grown = set_elements(&t_dash);
            proof {
                vstd::set_lib::lemma_len_subset(t@, t_dash@);
                vstd::set_lib::lemma_len_subset(t_dash@, all);
            }
            if items.len() == grown.len() {
                proof {
                    vstd::set_lib::lemma_subset_equality(t@, t_dash@);
                    assert forall|p: State, q: State|
                        t@.contains(p) && #[trigger] self@.has_rule(p, EPSILON, q) implies t@.contains(
                        q,
                    ) by {
                        assert(items@.to_set().contains(p));
                        let k = choose|k: int| 0 <= k < items@.len() && items@[k] == p;
                        assert(self@.has_rule(items@[k], EPSILON, q));
                    }
                    self@.lemma_closed_holds_closure(states@, t@);
                    assert(t@ =~= self@.spec_closure(states@));
                }
                done = true;
            } else {
                t = t_dash;
                items = grown;
            }
        }
        t
    }

    /// Where the symbol `c` leads from the states `states`.
    pub fn dfa_edge(&self, states: &BTreeSet<State>, c: char) -> (reached: BTreeSet<State>)
        ensures
            reached@ == self@.spec_dfa_edge(states@, c),
    {
        let mut e: BTreeSet<State> = BTreeSet::new();
        let items = set_elements(states);
        let mut i: usize = 0;
        while i < items.len()
            invariant
                0 <= i <= items.len(),
                items@.to_set() == states@,
                forall|t: State|
                    e@.contains(t) <==> exists|k: int|
                        0 <= k < i && #[trigger] self@.has_rule(items@[k], c, t),
            decreases items.len() - i,
        {
            let reached = self.edge(items[i], c);
            let ghost before = e@;
            union_into(&mut e, &reached);
            proof {
                assert forall|t: State|
                    e@.contains(t) <==> exists|k: int|
                        0 <= k < i + 1 && #[trigger] self@.has_rule(items@[k], c, t) by {
                    if e@.contains(t) {
                        if before.contains(t) {
                            let k = choose|k: int|
                                0 <= k < i && #[trigger] self@.has_rule(items@[k], c, t);
                            assert(self@.has_rule(items@[k], c, t));
                        } else {
                            assert(self@.has_rule(items@[i as int], c, t));
                        }
                    }
                    if exists|k: int| 0 <= k < i + 1 && #[trigger] self@.has_rule(items@[k], c, t) {
                        let k = choose|k: int|
                            0 <= k < i + 1 && #[trigger] self@.has_rule(items@[k], c, t);
                        if k < i {
                            assert(before.contains(t));
                        } else {
                            assert(reached@.contains(t));
                        }
                    }
                }
            }
            i += 1;
        }
        proof {
            assert forall|t: State| e@.contains(t) <==> self@.spec_move(states@, c).contains(t) by {
                if e@.contains(t) {
                    let k = choose|k: int|
                        0 <= k < i && #[trigger] self@.has_rule(items@[k], c, t);
                    assert(items@.contains(items@[k]));
                    assert(states@.contains(items@[k]));
                }
                if self@.spec_move(states@, c).contains(t) {
                    let s = choose|s: State| states@.contains(s) && #[trigger] self@.has_rule(s, c, t);
                    assert(items@.to_set().contains(s));
                    let k = choose|k: int| 0 <= k < items@.len() && items@[k] == s;
                    assert(self@.has_rule(items@[k], c, t));
                }
            }
            assert(e@ =~= self@.spec_move(states@, c));
        }
        self.closure(&e)
    }
}

} // verus!
