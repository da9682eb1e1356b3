//! Deterministic automata, their transition tables, and their simulation.
use vstd::prelude::*;
use std::collections::{BTreeMap, BTreeSet};

verus! {

/// An identifier of a state. It carries no meaning beyond identity.
pub type State = i32;

/// One transition: in state `from`, reading `alphabet`, go to `to`.
#[derive(Debug, Clone, Copy, PartialEq, Eq, Structural)]
pub struct Rule {
    pub from: State,
    pub alphabet: char,
    pub to: State,
}

/// An automaton that is deterministic when no two of its rules share
/// `from` and `alphabet`.
#[derive(Debug, PartialEq, Eq)]
pub struct Dfa {
    pub start: State,
    pub finish_states: BTreeSet<State>,
    pub rules: Vec<Rule>,
}

/// The outgoing transitions of one state: each symbol with its target.
pub type Row = Vec<(char, State)>;

/// A table of states: for each one whether it accepts, whether it is the
/// start, and its outgoing transitions.
pub type Table = BTreeMap<State, (bool, bool, Row)>;

/// A table has no start state, or more than one.
#[derive(Debug, Clone, Copy, PartialEq, Eq, Structural)]
pub enum MalformedTableError {
    NoStart,
    MultipleStart,
}

/// In state `state` no rule reads `symbol`.
#[derive(Debug, Clone, Copy, PartialEq, Eq, Structural)]
pub struct NonTotalTransitionError {
    pub state: State,
    pub symbol: char,
}

/// The target of the first of `rules` that leaves `q` reading `a`.
pub open spec fn first_match(rules: Seq<Rule>, q: State, a: char) -> Option<State>
    decreases rules.len(),
{
    if rules.len() == 0 {
        None
    } else {
        let earlier = first_match(rules.drop_last(), q, a);
        if earlier is Some {
            earlier
        } else if rules.last().from == q && rules.last().alphabet == a {
            Some(rules.last().to)
        } else {
            None
        }
    }
}

/// The target of the last of `rules` that leaves `q` reading `a`.
pub open spec fn last_match(rules: Seq<Rule>, q: State, a: char) -> Option<State>
    decreases rules.len(),
{
    if rules.len() == 0 {
        None
    } else if rules.last().from == q && rules.last().alphabet == a {
        Some(rules.last().to)
    } else {
        last_match(rules.drop_last(), q, a)
    }
}

/// The state reached from `q` after reading `word` by the rules, each
/// symbol along the first rule that fits, or the place where no rule fits.
pub open spec fn run_rules(rules: Seq<Rule>, q: State, word: Seq<char>) -> Result<
    State,
    NonTotalTransitionError,
>
    decreases word.len(),
{
    if word.len() == 0 {
        Ok(q)
    } else {
        match run_rules(rules, q, word.drop_last()) {
            Ok(p) => match first_match(rules, p, word.last()) {
                Some(t) => Ok(t),
                None => Err(NonTotalTransitionError { state: p, symbol: word.last() }),
            },
            Err(e) => Err(e),
        }
    }
}

/// No two of `rules` leave the same state reading the same symbol for
/// different targets.
pub open spec fn deterministic_rules(rules: Seq<Rule>) -> bool {
    forall|i: int, j: int|
        0 <= i < rules.len() && 0 <= j < rules.len() && rules[i].from == rules[j].from
            && rules[i].alphabet == rules[j].alphabet ==> rules[i].to == rules[j].to
}

/// A match found among the first rules stays the first match when more
/// rules follow.
pub proof fn lemma_first_match_prefix(rules: Seq<Rule>, k: int, q: State, a: char)
    requires
        0 <= k <= rules.len(),
        first_match(rules.take(k), q, a) is Some,
    ensures
        first_match(rules, q, a) == first_match(rules.take(k), q, a),
    decreases rules.len() - k,
{
    if k < rules.len() {
        assert(rules.take(k + 1).drop_last() =~= rules.take(k));
        lemma_first_match_prefix(rules, k + 1, q, a);
    } else {
        assert(rules.take(k) =~= rules);
    }
}

/// What `first_match` finds is the target of one of the rules, and it finds
/// something whenever a rule fits.
pub proof fn lemma_first_match_is_rule(rules: Seq<Rule>, q: State, a: char)
    ensures
        first_match(rules, q, a) matches Some(t) ==> rules.contains(
            Rule { from: q, alphabet: a, to: t },
        ),
        first_match(rules, q, a) is None ==> forall|t: State|
            !rules.contains(Rule { from: q, alphabet: a, to: t }),
    decreases rules.len(),
{
    if rules.len() > 0 {
        let init = rules.drop_last();
        lemma_first_match_is_rule(init, q, a);
        if first_match(init, q, a) is Some {
            let t = first_match(init, q, a)->0;
            let r = Rule { from: q, alphabet: a, to: t };
            let i = choose|i: int| 0 <= i < init.len() && init[i] == r;
            assert(rules[i] == r);
        } else {
            if rules.last().from == q && rules.last().alphabet == a {
                assert(rules[rules.len() - 1] == rules.last());
            } else {
                assert forall|t: State|
                    !rules.contains(Rule { from: q, alphabet: a, to: t }) by {
                    let r = Rule { from: q, alphabet: a, to: t };
                    if rules.contains(r) {
                        let i = choose|i: int| 0 <= i < rules.len() && rules[i] == r;
                        if i == rules.len() - 1 {
                            assert(rules.last() == r);
                        } else {
                            assert(init[i] == r);
                            assert(init.contains(r));
                        }
                    }
                }
            }
        }
    }
}

/// What `last_match` finds is the target of one of the rules, and it finds
/// something whenever a rule fits.
pub proof fn lemma_last_match_is_rule(rules: Seq<Rule>, q: State, a: char)
    ensures
        last_match(rules, q, a) matches Some(t) ==> rules.contains(
            Rule { from: q, alphabet: a, to: t },
        ),
        last_match(rules, q, a) is None ==> forall|t: State|
            !rules.contains(Rule { from: q, alphabet: a, to: t }),
    decreases rules.len(),
{
    if rules.len() > 0 {
        let init = rules.drop_last();
        lemma_last_match_is_rule(init, q, a);
        if rules.last().from == q && rules.last().alphabet == a {
            assert(rules[rules.len() - 1] == rules.last());
        } else {
            if last_match(init, q, a) is Some {
                let t = last_match(init, q, a)->0;
                let r = Rule { from: q, alphabet: a, to: t };
                let i = choose|i: int| 0 <= i < init.len() && init[i] == r;
                assert(rules[i] == r);
            } else {
                assert forall|t: State|
                    !rules.contains(Rule { from: q, alphabet: a, to: t }) by {
                    let r = Rule { from: q, alphabet: a, to: t };
                    if rules.contains(r) {
                        let i = choose|i: int| 0 <= i < rules.len() && rules[i] == r;
                        if i == rules.len() - 1 {
                            assert(rules.last() == r);
                        } else {
                            assert(init[i] == r);
                            assert(init.contains(r));
                        }
                    }
                }
            }
        }
    }
}

/// Among deterministic rules the first match, the last match and any rule
/// that fits agree.
pub proof fn lemma_deterministic_match(rules: Seq<Rule>, q: State, a: char)
    requires
        deterministic_rules(rules),
    ensures
        first_match(rules, q, a) == last_match(rules, q, a),
        forall|t: State|
            rules.contains(Rule { from: q, alphabet: a, to: t }) <==> first_match(rules, q, a)
                == Some(t),
{
    lemma_first_match_is_rule(rules, q, a);
    lemma_last_match_is_rule(rules, q, a);
    assert forall|t: State| rules.contains(Rule { from: q, alphabet: a, to: t }) implies (
    first_match(rules, q, a) == Some(t) && last_match(rules, q, a) == Some(t)) by {
        let r = Rule { from: q, alphabet: a, to: t };
        let i = choose|i: int| 0 <= i < rules.len() && rules[i] == r;
        let f = first_match(rules, q, a)->0;
        let rf = Rule { from: q, alphabet: a, to: f };
        let j = choose|j: int| 0 <= j < rules.len() && rules[j] == rf;
        assert(rules[i].to == rules[j].to);
        let l = last_match(rules, q, a)->0;
        let rl = Rule { from: q, alphabet: a, to: l };
        let k = choose|k: int| 0 <= k < rules.len() && rules[k] == rl;
        assert(rules[i].to == rules[k].to);
    }
}

impl Dfa {
    /// There is a rule from `q` to `t` that reads `a`.
    pub open spec fn has_rule(&self, q: State, a: char, t: State) -> bool {
        self.rules@.contains(Rule { from: q, alphabet: a, to: t })
    }

    /// No state has two targets for one symbol.
    pub open spec fn deterministic(&self) -> bool {
        deterministic_rules(self.rules@)
    }

    /// `q` is the start, an accepting state, or the source or the target
    /// of a rule.
    pub open spec fn is_state(&self, q: State) -> bool {
        ||| q == self.start
        ||| self.finish_states@.contains(q)
        ||| exists|k: int|
            0 <= k < self.rules@.len() && ((#[trigger] self.rules@[k]).from == q
                || self.rules@[k].to == q)
    }

    /// Every state has a rule for every symbol of `alphabet`.
    pub open spec fn total_over(&self, alphabet: Seq<char>) -> bool {
        forall|q: State, a: char|
            self.is_state(q) && alphabet.contains(a) ==> #[trigger] self.spec_step(q, a) is Some
    }

    /// Where one symbol leads from `q`: along the first rule that fits.
    pub open spec fn spec_step(&self, q: State, a: char) -> Option<State> {
        first_match(self.rules@, q, a)
    }

    /// The state reached from `q` after reading `word`, or the place where
    /// no rule fits.
    pub open spec fn spec_run_from(&self, q: State, word: Seq<char>) -> Result<
        State,
        NonTotalTransitionError,
    > {
        run_rules(self.rules@, q, word)
    }

    /// The state reached from the start after reading `word`.
    pub open spec fn spec_run(&self, word: Seq<char>) -> Result<State, NonTotalTransitionError> {
        self.spec_run_from(self.start, word)
    }

    /// The run on `word` ends, and in an accepting state.
    pub open spec fn accepts(&self, word: Seq<char>) -> bool {
        self.spec_run(word) matches Ok(q) && self.finish_states@.contains(q)
    }

    /// Looks up the rule that leaves `q` reading `a`.
    pub fn step(&self, q: State, a: char) -> (t: Option<State>)
        ensures
            t == self.spec_step(q, a),
    {
        let mut i: usize = 0;
        while i < self.rules.len()
            invariant
                0 <= i <= self.rules.len(),
                first_match(self.rules@.take(i as int), q, a) is None,
            decreases self.rules.len() - i,
        {
            let r = self.rules[i];
            proof {
                assert(self.rules@.take(i + 1).drop_last() =~= self.rules@.take(i as int));
            }
            if r.alphabet == a && r.from == q {
                proof {
                    lemma_first_match_prefix(self.rules@, i + 1, q, a);
                }
                return Some(r.to);
            }
            i += 1;
        }
        proof {
            assert(self.rules@.take(i as int) =~= self.rules@);
        }
        None
    }

    /// Simulates the automaton on `input`, one symbol at a time from the
    /// start. Gives the state reached and whether it accepts, or the state
    /// and the symbol for which no rule was found.
    pub fn run(&self, input: &str) -> (r: Result<(State, bool), NonTotalTransitionError>)
        ensures
            match r {
                Ok((q, accepted)) => self.spec_run(input@) == Ok::<State, NonTotalTransitionError>(q)
                    && accepted == self.finish_states@.contains(q)
                    && accepted == self.accepts(input@),
                Err(e) => self.spec_run(input@) == Err::<State, NonTotalTransitionError>(e)
                    && !self.accepts(input@),
            },
    {
        let mut current = self.start;
        for c in it: input.chars()
            invariant
                it.seq() == input@,
                self.spec_run(it.seq().take(it.index())) == Ok::<State, NonTotalTransitionError>(
                    current,
                ),
                it.index() == it.seq().len() ==> self.spec_run(input@) == Ok::<
                    State,
                    NonTotalTransitionError,
                >(current),
        {
            proof {
                assert(it.seq().take(it.index() + 1).drop_last() =~= it.seq().take(it.index()));
                assert(it.index() + 1 == it.seq().len() ==> it.seq().take(it.index() + 1)
                    =~= input@);
            }
            match self.step(current, c) {
                Some(t) => {
                    current = t;
                },
                None => {
                    proof {
                        self.lemma_run_error_sticks(input@, it.index() + 1);
                    }
                    return Err(NonTotalTransitionError { state: current, symbol: c });
                },
            }
        }
        let accepted = self.finish_states.contains(&current);
        Ok((current, accepted))
    }

    /// A run that fails on a prefix of a word fails in the same way on the
    /// word.
    pub proof fn lemma_run_error_sticks(&self, word: Seq<char>, k: int)
        requires
            0 <= k <= word.len(),
            self.spec_run(word.take(k)) is Err,
        ensures
            self.spec_run(word) == self.spec_run(word.take(k)),
        decreases word.len() - k,
    {
        if k < word.len() {
            assert(word.take(k + 1).drop_last() =~= word.take(k));
            self.lemma_run_error_sticks(word, k + 1);
        } else {
            assert(word.take(k) =~= word);
        }
    }
}

} // verus!
