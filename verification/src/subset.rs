//! The subset construction: from a non-deterministic automaton to a
//! deterministic one whose states stand for sets of its states.
use vstd::prelude::*;
use std::collections::BTreeSet;
use crate::collections::{scalar, sets_equal};
use crate::dfa;
use crate::dfa::{first_match, run_rules, Dfa};
use crate::nfa::{Nfa, NfaView, State};

verus! {

/// More sets of states are reached than there are identifiers.
#[derive(Debug, Clone, Copy, PartialEq, Eq)]
pub struct StateLimitError {}

/// Gives each set of states one identifier: the first set gets 1, and
/// every set that was not seen before the next number.
pub struct DfaStateProvider {
    states: Vec<BTreeSet<State>>,
    current: dfa::State,
}

impl Default for DfaStateProvider {
    fn default() -> (provider: Self)
        ensures
            provider.wf(),
            provider.sets() == Seq::<Set<State>>::empty(),
    {
        let provider = Self { states: Vec::new(), current: 0 };
        proof {
            assert(provider.sets() =~= Seq::<Set<State>>::empty());
        }
        provider
    }
}

impl DfaStateProvider {
    /// The sets seen so far. The set at place `i` has the identifier
    /// `i + 1`.
    pub closed spec fn sets(&self) -> Seq<Set<State>> {
        Seq::new(self.states@.len(), |i: int| self.states@[i]@)
    }

    /// No set is held twice, and the last identifier given is the number
    /// of sets.
    pub closed spec fn wf(&self) -> bool {
        &&& self.current == self.states@.len()
        &&& forall|i: int, j: int|
            0 <= i < j < self.states@.len() ==> self.sets()[i] != self.sets()[j]
    }

    /// The set `set` has an identifier.
    pub open spec fn knows(&self, set: Set<State>) -> bool {
        exists|i: int| 0 <= i < self.sets().len() && #[trigger] self.sets()[i] == set
    }

    /// Two different places hold two different sets.
    pub proof fn lemma_distinct(&self)
        requires
            self.wf(),
        ensures
            self.sets().len() <= i32::MAX,
            forall|i: int, j: int|
                0 <= i < self.sets().len() && 0 <= j < self.sets().len() && i != j
                    ==> #[trigger] self.sets()[i] != #[trigger] self.sets()[j],
    {
        assert forall|i: int, j: int|
            0 <= i < self.sets().len() && 0 <= j < self.sets().len() && i
                != j implies #[trigger] self.sets()[i] != #[trigger] self.sets()[j] by {
            if i < j {
                assert(self.sets()[i] != self.sets()[j]);
            } else {
                assert(self.sets()[j] != self.sets()[i]);
            }
        }
    }

    /// The number of sets that have an identifier.
    pub fn len(&self) -> (n: usize)
        requires
            self.wf(),
        ensures
            n == self.sets().len(),
            n <= i32::MAX,
    {
        self.states.len()
    }

    /// The set that has the identifier `id`.
    pub fn set_of(&self, id: dfa::State) -> (set: &BTreeSet<State>)
        requires
            self.wf(),
            1 <= id <= self.sets().len(),
        ensures
            set@ == self.sets()[id - 1],
    {
        &self.states[(id - 1) as usize]
    }

    /// The identifier of `set`, if it has one.
    pub fn find(&self, set: &BTreeSet<State>) -> (found: Option<dfa::State>)
        requires
            self.wf(),
        ensures
            match found {
                Some(id) => 1 <= id <= self.sets().len() && self.sets()[id - 1] == set@,
                None => !self.knows(set@),
            },
    {
        let mut i: usize = 0;
        while i < self.states.len()
            invariant
                0 <= i <= self.states.len(),
                self.wf(),
                forall|k: int| 0 <= k < i ==> #[trigger] self.sets()[k] != set@,
            decreases self.states.len() - i,
        {
            if sets_equal(&self.states[i], set) {
                return Some((i + 1) as dfa::State);
            }
            i += 1;
        }
        None
    }

    /// The identifier of `set`: the one it has, or else the next number,
    /// which it has from now on.
    pub fn to_dfa_state(&mut self, nfa_state_set: BTreeSet<State>) -> (id: dfa::State)
        requires
            old(self).wf(),
            old(self).knows(nfa_state_set@) || old(self).sets().len() < i32::MAX,
        ensures
            final(self).wf(),
            1 <= id <= final(self).sets().len(),
            final(self).sets()[id - 1] == nfa_state_set@,
            old(self).knows(nfa_state_set@) ==> final(self).sets() == old(self).sets(),
            !old(self).knows(nfa_state_set@) ==> final(self).sets() == old(self).sets().push(
                nfa_state_set@,
            ) && id == final(self).sets().len(),
    {
        match self.find(&nfa_state_set) {
            Some(id) => {
                proof {
                    assert(self.sets()[id - 1] == nfa_state_set@);
                }
                id
            },
            None => {
                let ghost before = self.sets();
                self.current += 1;
                self.states.push(nfa_state_set);
                proof {
                    assert(self.sets() =~= before.push(nfa_state_set@));
                    assert forall|i: int, j: int| 0 <= i < j < self.states@.len() implies self.sets()[i]
                        != self.sets()[j] by {
                        if j == before.len() {
                            assert(before[i] != nfa_state_set@);
                        } else {
                            assert(before[i] != before[j]);
                        }
                    }
                }
                self.current
            },
        }
    }

    /// The identifiers of the sets that hold `nfa_finish`.
    pub fn get_dfa_finishes(&self, nfa_finish: State) -> (finishes: BTreeSet<dfa::State>)
        requires
            self.wf(),
        ensures
            forall|id: dfa::State|
                finishes@.contains(id) <==> 1 <= id <= self.sets().len() && self.sets()[id
                    - 1].contains(nfa_finish),
    {
        let mut v: BTreeSet<dfa::State> = BTreeSet::new();
        let mut i: usize = 0;
        while i < self.states.len()
            invariant
                0 <= i <= self.states.len(),
                self.wf(),
                forall|id: dfa::State|
                    v@.contains(id) <==> 1 <= id <= i && self.sets()[id - 1].contains(nfa_finish),
            decreases self.states.len() - i,
        {
            if self.states[i].contains(&nfa_finish) {
                v.insert((i + 1) as dfa::State);
            }
            i += 1;
        }
        v
    }
}

/// Every symbol of `word` is one of `alphabet`.
pub open spec fn word_over(word: Seq<char>, alphabet: Seq<char>) -> bool {
    forall|i: int| 0 <= i < word.len() ==> alphabet.contains(#[trigger] word[i])
}

/// Each of `sets` is the set of states in which `nfa` can be after the
/// word at the same place of `words`, a word over `alphabet`.
pub open spec fn sets_witnessed(
    nfa: NfaView,
    alphabet: Seq<char>,
    sets: Seq<Set<State>>,
    words: Seq<Seq<char>>,
) -> bool {
    &&& words.len() == sets.len()
    &&& forall|i: int|
        0 <= i < sets.len() ==> word_over(#[trigger] words[i], alphabet) && sets[i]
            == nfa.states_after(words[i])
}

/// The rule joins two identifiers in use with a symbol of `alphabet`, and
/// the set of its target is where the symbol leads from the set of its
/// source.
pub open spec fn rule_sound(
    nfa: NfaView,
    alphabet: Seq<char>,
    sets: Seq<Set<State>>,
    r: dfa::Rule,
) -> bool {
    &&& 1 <= r.from <= sets.len()
    &&& 1 <= r.to <= sets.len()
    &&& alphabet.contains(r.alphabet)
    &&& sets[r.to - 1] == nfa.spec_dfa_edge(sets[r.from - 1], r.alphabet)
}

/// Every one of `rules` is sound.
pub open spec fn rules_sound(
    nfa: NfaView,
    alphabet: Seq<char>,
    sets: Seq<Set<State>>,
    rules: Seq<dfa::Rule>,
) -> bool {
    forall|k: int| 0 <= k < rules.len() ==> rule_sound(nfa, alphabet, sets, #[trigger] rules[k])
}

/// There is a rule that leaves `q` with the symbol `a`.
pub open spec fn covered(rules: Seq<dfa::Rule>, q: int, a: char) -> bool {
    first_match(rules, q as dfa::State, a) is Some
}

/// The first `done` identifiers have a rule for every symbol of
/// `alphabet`, and the next one for the first `partial` symbols.
pub open spec fn rules_complete(
    alphabet: Seq<char>,
    rules: Seq<dfa::Rule>,
    done: int,
    partial: int,
) -> bool {
    forall|q: int, j: int|
        0 <= j < alphabet.len() && (1 <= q <= done || (q == done + 1 && j < partial))
            ==> #[trigger] covered(rules, q, alphabet[j])
}

/// The word at place `i` of `words` leads from 1 to `i + 1`.
pub open spec fn words_reach(rules: Seq<dfa::Rule>, words: Seq<Seq<char>>) -> bool {
    forall|i: int|
        0 <= i < words.len() ==> run_rules(rules, 1, #[trigger] words[i]) == Ok::<
            dfa::State,
            dfa::NonTotalTransitionError,
        >((i + 1) as dfa::State)
}

/// The sets at different places differ.
pub open spec fn sets_distinct(sets: Seq<Set<State>>) -> bool {
    forall|i: int, j: int|
        0 <= i < sets.len() && 0 <= j < sets.len() && i != j ==> #[trigger] sets[i]
            != #[trigger] sets[j]
}

/// One more rule at the end changes no match that was found.
pub proof fn lemma_match_kept(rules: Seq<dfa::Rule>, r: dfa::Rule, q: dfa::State, a: char)
    ensures
        first_match(rules, q, a) is Some ==> first_match(rules.push(r), q, a) == first_match(
            rules,
            q,
            a,
        ),
        first_match(rules, q, a) is None ==> first_match(rules.push(r), q, a) == if r.from == q
            && r.alphabet == a {
            Some(r.to)
        } else {
            None
        },
{
    assert(rules.push(r).drop_last() =~= rules);
}

/// One more rule at the end changes no run that came to its end.
pub proof fn lemma_run_kept(
    rules: Seq<dfa::Rule>,
    r: dfa::Rule,
    q: dfa::State,
    word: Seq<char>,
)
    requires
        run_rules(rules, q, word) is Ok,
    ensures
        run_rules(rules.push(r), q, word) == run_rules(rules, q, word),
    decreases word.len(),
{
    if word.len() > 0 {
        lemma_run_kept(rules, r, q, word.drop_last());
        let p = run_rules(rules, q, word.drop_last())->Ok_0;
        lemma_match_kept(rules, r, p, word.last());
    }
}

/// Sound rules whose sets differ are deterministic.
pub proof fn lemma_sound_deterministic(
    nfa: NfaView,
    alphabet: Seq<char>,
    sets: Seq<Set<State>>,
    rules: Seq<dfa::Rule>,
)
    requires
        rules_sound(nfa, alphabet, sets, rules),
        sets_distinct(sets),
    ensures
        dfa::deterministic_rules(rules),
{
    assert forall|i: int, j: int|
        0 <= i < rules.len() && 0 <= j < rules.len() && rules[i].from == rules[j].from
            && rules[i].alphabet == rules[j].alphabet implies rules[i].to == rules[j].to by {
        assert(rule_sound(nfa, alphabet, sets, rules[i]));
        assert(rule_sound(nfa, alphabet, sets, rules[j]));
        if rules[i].to != rules[j].to {
            assert(sets[rules[i].to - 1] != sets[rules[j].to - 1]);
        }
    }
}

/// When every identifier has its rules, the run on a word over the
/// alphabet ends, and in the identifier of the set of states in which the
/// automaton can be after the word.
pub proof fn lemma_explored_run(
    nfa: NfaView,
    alphabet: Seq<char>,
    sets: Seq<Set<State>>,
    rules: Seq<dfa::Rule>,
    word: Seq<char>,
) -> (q: dfa::State)
    requires
        sets.len() >= 1,
        sets.len() <= i32::MAX,
        sets[0] == nfa.spec_closure(set![nfa.start]),
        rules_sound(nfa, alphabet, sets, rules),
        rules_complete(alphabet, rules, sets.len() as int, 0),
        word_over(word, alphabet),
    ensures
        run_rules(rules, 1, word) == Ok::<dfa::State, dfa::NonTotalTransitionError>(q),
        1 <= q <= sets.len(),
        sets[q - 1] == nfa.states_after(word),
    decreases word.len(),
{
    if word.len() == 0 {
        1
    } else {
        let p = lemma_explored_run(nfa, alphabet, sets, rules, word.drop_last());
        let a = word.last();
        assert(alphabet.contains(word[word.len() - 1]));
        let j = choose|j: int| 0 <= j < alphabet.len() && alphabet[j] == a;
        assert(covered(rules, p as int, alphabet[j]));
        dfa::lemma_first_match_is_rule(rules, p, a);
        let to = first_match(rules, p, a)->0;
        let k = lemma_rule_index(rules, p, a, to);
        assert(rule_sound(nfa, alphabet, sets, rules[k]));
        to
    }
}

/// The place of a rule that is among the rules.
pub proof fn lemma_rule_index(rules: Seq<dfa::Rule>, q: dfa::State, a: char, to: dfa::State) -> (k:
    int)
    requires
        rules.contains(dfa::Rule { from: q, alphabet: a, to }),
    ensures
        0 <= k < rules.len(),
        rules[k].from == q,
        rules[k].alphabet == a,
        rules[k].to == to,
{
    let r = dfa::Rule { from: q, alphabet: a, to };
    choose|k: int| 0 <= k < rules.len() && rules[k] == r
}

/// `x` is at least 0 and less than `n`.
pub open spec fn in_range(n: int, x: int) -> bool {
    0 <= x < n
}

/// Among more numbers than `n`, each of them at least 0 and less than `n`,
/// two are the same.
pub proof fn lemma_pigeonhole(numbers: Seq<int>, n: int) -> (pair: (int, int))
    requires
        0 <= n < numbers.len(),
        forall|i: int| 0 <= i < numbers.len() ==> in_range(n, #[trigger] numbers[i]),
    ensures
        0 <= pair.0 < pair.1 < numbers.len(),
        numbers[pair.0] == numbers[pair.1],
    decreases n,
{
    if n == 0 {
        assert(in_range(n, numbers[0]));
        (0, 0)
    } else {
        let last = numbers.len() - 1;
        if exists|i: int| 0 <= i < last && numbers[i] == numbers[last] {
            let i = choose|i: int| 0 <= i < last && numbers[i] == numbers[last];
            (i, last)
        } else {
            // The other numbers are renamed so that none of them is `n - 1`:
            // what was `n - 1` takes the name of the last number.
            let v = numbers[last];
            let rest = Seq::new(
                last as nat,
                |i: int|
                    if numbers[i] == n - 1 {
                        v
                    } else {
                        numbers[i]
                    },
            );
            assert(in_range(n, numbers[last]));
            assert forall|i: int| 0 <= i < rest.len() implies in_range(n - 1, #[trigger] rest[i]) by {
                assert(in_range(n, numbers[i]));
                assert(numbers[i] != v);
            }
            let (i, j) = lemma_pigeonhole(rest, n - 1);
            assert(numbers[i] != v && numbers[j] != v);
            (i, j)
        }
    }
}

/// Whether `rule` is one of `rules`.
fn rule_known(rules: &Vec<dfa::Rule>, rule: dfa::Rule) -> (known: bool)
    ensures
        known == rules@.contains(rule),
{
    let mut i: usize = 0;
    while i < rules.len()
        invariant
            0 <= i <= rules.len(),
            forall|k: int| 0 <= k < i ==> rules@[k] != rule,
        decreases rules.len() - i,
    {
        let r = rules[i];
        if r.from == rule.from && r.alphabet == rule.alphabet && r.to == rule.to {
            return true;
        }
        i += 1;
    }
    false
}

/// What the exploration has found so far: the sets, each with a word that
/// leads to it, and the rules between them, all of them for the first
/// `done` sets and for the first `partial` symbols of the next.
pub open spec fn explored(
    nfa: NfaView,
    alphabet: Seq<char>,
    sets: Seq<Set<State>>,
    words: Seq<Seq<char>>,
    rules: Seq<dfa::Rule>,
    done: int,
    partial: int,
) -> bool {
    &&& 1 <= sets.len() <= i32::MAX
    &&& sets[0] == nfa.spec_closure(set![nfa.start])
    &&& sets_distinct(sets)
    &&& sets_witnessed(nfa, alphabet, sets, words)
    &&& rules_sound(nfa, alphabet, sets, rules)
    &&& rules_complete(alphabet, rules, done, partial)
    &&& words_reach(rules, words)
    &&& rules.no_duplicates()
}

impl NfaView {
    /// The words are over `alphabet`, and no two of them lead the automaton
    /// to the same set of states.
    pub open spec fn distinct_after(&self, alphabet: Seq<char>, words: Seq<Seq<char>>) -> bool {
        &&& forall|i: int| 0 <= i < words.len() ==> word_over(#[trigger] words[i], alphabet)
        &&& forall|i: int, j: int|
            0 <= i < j < words.len() ==> self.states_after(#[trigger] words[i])
                != self.states_after(#[trigger] words[j])
    }

    /// The words over `alphabet` lead the automaton to more than `limit`
    /// sets of states.
    pub open spec fn reaches_more_sets_than(&self, alphabet: Seq<char>, limit: int) -> bool {
        exists|words: Seq<Seq<char>>|
            words.len() > limit && #[trigger] self.distinct_after(alphabet, words)
    }

    /// `d` is the automaton of the subset construction: its states stand
    /// for the sets of states in which this automaton can be after a word
    /// over `alphabet`, one state for each set.
    pub open spec fn determinized_by(&self, alphabet: Seq<char>, d: &Dfa) -> bool {
        &&& d.start == 1
        &&& d.deterministic()
        &&& d.rules@.no_duplicates()
        &&& d.total_over(alphabet)
        &&& forall|k: int| 0 <= k < d.rules@.len() ==> alphabet.contains((#[trigger] d.rules@[k]).alphabet)
        &&& forall|word: Seq<char>|
            word_over(word, alphabet) ==> #[trigger] d.spec_run(word) is Ok && d.accepts(word)
                == self.accepts(word)
        &&& forall|v: Seq<char>, w: Seq<char>|
            word_over(v, alphabet) && word_over(w, alphabet) ==> (#[trigger] d.spec_run(v)
                == #[trigger] d.spec_run(w) <==> self.states_after(v) == self.states_after(w))
        &&& forall|q: dfa::State| #[trigger]
            d.is_state(q) ==> exists|word: Seq<char>|
                word_over(word, alphabet) && #[trigger] d.spec_run(word) == Ok::<
                    dfa::State,
                    dfa::NonTotalTransitionError,
                >(q)
        &&& forall|p: dfa::State, q: dfa::State|
            1 <= p <= q && #[trigger] d.is_state(q) ==> #[trigger] d.is_state(p)
        &&& forall|q: dfa::State| #[trigger] d.is_state(q) ==> 1 <= q
    }
}

impl Nfa {
    /// The subset construction. The sets of states in which the automaton
    /// can be after a word over `alphabets` are explored breadth first from
    /// the closure of the start, and numbered from 1 as they are found.
    /// Fails where there are more such sets than identifiers.
    pub fn to_dfa(&self, alphabets: &[char]) -> (r: Result<Dfa, StateLimitError>)
        ensures
            match r {
                Ok(d) => self@.determinized_by(alphabets@, &d) && !self@.reaches_more_sets_than(
                    alphabets@,
                    i32::MAX as int,
                ),
                Err(_) => self@.reaches_more_sets_than(alphabets@, i32::MAX as int),
            },
    {
        let ghost alphabet = alphabets@;
        let mut provider = DfaStateProvider::default();
        let start_set = self.closure_(self.start);
        let start = provider.to_dfa_state(start_set);
        let mut rules: Vec<dfa::Rule> = Vec::new();
        let ghost mut words: Seq<Seq<char>> = seq![Seq::<char>::empty()];
        let mut next: usize = 0;
        proof {
            provider.lemma_distinct();
            assert(provider.sets() =~= seq![self@.spec_closure(set![self.start])]);
        }
        while next < provider.len()
            invariant
                0 <= next <= provider.sets().len(),
                provider.wf(),
                alphabet == alphabets@,
                start == 1,
                explored(self@, alphabet, provider.sets(), words, rules@, next as int, 0),
            decreases i32::MAX - next,
        {
            let from = (next + 1) as dfa::State;
            let set = provider.set_of(from).clone();
            let mut k: usize = 0;
            while k < alphabets.len()
                invariant
                    0 <= k <= alphabets.len(),
                    0 <= next < provider.sets().len(),
                    from == next + 1,
                    provider.wf(),
                    alphabet == alphabets@,
                    set@ == provider.sets()[next as int],
                    explored(
                        self@,
                        alphabet,
                        provider.sets(),
                        words,
                        rules@,
                        next as int,
                        k as int,
                    ),
                decreases alphabets.len() - k,
            {
                let c = scalar(alphabets[k]);
                let target = self.dfa_edge(&set, c);
                let ghost sets = provider.sets();
                let ghost earlier = rules@;
                let ghost word = words[next as int].push(c);
                proof {
                    assert(alphabet[k as int] == c);
                    assert(alphabet.contains(c));
                    assert(word.drop_last() =~= words[next as int]);
                    assert(self@.states_after(word) == target@);
                    assert(word_over(word, alphabet)) by {
                        assert forall|i: int| 0 <= i < word.len() implies alphabet.contains(
                            #[trigger] word[i],
                        ) by {
                            if i < word.len() - 1 {
                                assert(word[i] == words[next as int][i]);
                            }
                        }
                    }
                    if covered(earlier, from as int, c) {
                        dfa::lemma_first_match_is_rule(earlier, from, c);
                        let to = first_match(earlier, from, c)->0;
                        let i = lemma_rule_index(earlier, from, c, to);
                        assert(rule_sound(self@, alphabet, sets, earlier[i]));
                        assert(provider.knows(target@));
                    }
                }
                let to = match provider.find(&target) {
                    Some(id) => id,
                    None => {
                        if provider.len() == i32::MAX as usize {
                            proof {
                                let more = words.push(word);
                                assert forall|i: int, j: int|
                                    0 <= i < j < more.len() implies self@.states_after(
                                    #[trigger] more[i],
                                ) != self@.states_after(#[trigger] more[j]) by {
                                    if j < words.len() {
                                        assert(sets[i] != sets[j]);
                                    } else {
                                        assert(sets[i] != target@);
                                    }
                                }
                                assert(self@.distinct_after(alphabet, more));
                            }
                            return Err(StateLimitError {});
                        }
                        let id = provider.to_dfa_state(target);
                        proof {
                            words = words.push(word);
                            provider.lemma_distinct();
                            assert forall|i: int| 0 <= i < earlier.len() implies rule_sound(
                                self@,
                                alphabet,
                                provider.sets(),
                                #[trigger] earlier[i],
                            ) by {
                                assert(rule_sound(self@, alphabet, sets, earlier[i]));
                            }
                        }
                        id
                    },
                };
                let rule = dfa::Rule { from, alphabet: c, to };
                proof {
                    assert(rule_sound(self@, alphabet, provider.sets(), rule));
                }
                if !rule_known(&rules, rule) {
                    rules.push(rule);
                    proof {
                        assert forall|i: int| 0 <= i < rules@.len() implies rule_sound(
                            self@,
                            alphabet,
                            provider.sets(),
                            #[trigger] rules@[i],
                        ) by {
                            if i < earlier.len() {
                                assert(rule_sound(self@, alphabet, provider.sets(), earlier[i]));
                            }
                        }
                        assert forall|i: int| 0 <= i < words.len() implies run_rules(
                            rules@,
                            1,
                            #[trigger] words[i],
                        ) == Ok::<dfa::State, dfa::NonTotalTransitionError>(
                            (i + 1) as dfa::State,
                        ) by {
                            if i < sets.len() {
                                lemma_run_kept(earlier, rule, 1, words[i]);
                            } else {
                                lemma_run_kept(earlier, rule, 1, words[next as int]);
                                lemma_match_kept(earlier, rule, from, c);
                            }
                        }
                        assert forall|q: int, j: int|
                            0 <= j < alphabet.len() && (1 <= q <= next || (q == next + 1 && j < k
                                + 1)) implies #[trigger] covered(rules@, q, alphabet[j]) by {
                            lemma_match_kept(earlier, rule, q as dfa::State, alphabet[j]);
                            if !(q == next + 1 && j == k) {
                                assert(covered(earlier, q, alphabet[j]));
                            }
                        }
                        assert(rules@.no_duplicates()) by {
                            assert forall|i: int, j: int|
                                0 <= i < rules@.len() && 0 <= j < rules@.len() && i
                                    != j implies rules@[i] != rules@[j] by {
                                if i < earlier.len() && j < earlier.len() {
                                    assert(earlier[i] != earlier[j]);
                                } else if i < earlier.len() {
                                    assert(earlier.contains(earlier[i]));
                                } else {
                                    assert(earlier.contains(earlier[j]));
                                }
                            }
                        }
                    }
                } else {
                    proof {
                        dfa::lemma_first_match_is_rule(earlier, from, c);
                        assert(covered(earlier, from as int, c));
                        assert forall|q: int, j: int|
                            0 <= j < alphabet.len() && (1 <= q <= next || (q == next + 1 && j < k
                                + 1)) implies #[trigger] covered(rules@, q, alphabet[j]) by {
                            if !(q == next + 1 && j == k) {
                                assert(covered(earlier, q, alphabet[j]));
                            }
                        }
                    }
                }
                k += 1;
            }
            proof {
                assert forall|q: int, j: int|
                    0 <= j < alphabet.len() && (1 <= q <= next + 1 || (q == next + 1 + 1 && j
                        < 0)) implies #[trigger] covered(rules@, q, alphabet[j]) by {
                    if q == next + 1 {
                        assert(covered(rules@, q, alphabet[j]));
                    }
                }
            }
            next += 1;
        }
        let finish_states = provider.get_dfa_finishes(self.finish);
        let d = Dfa { start, finish_states, rules };
        proof {
            self@.lemma_determinized(alphabet, provider.sets(), words, &d);
        }
        Ok(d)
    }
}

impl NfaView {
    /// The automaton made of a finished exploration is that of the subset
    /// construction, and there are no more sets than it has states.
    pub proof fn lemma_determinized(
        &self,
        alphabet: Seq<char>,
        sets: Seq<Set<State>>,
        words: Seq<Seq<char>>,
        d: &Dfa,
    )
        requires
            explored(*self, alphabet, sets, words, d.rules@, sets.len() as int, 0),
            d.start == 1,
            forall|id: dfa::State|
                d.finish_states@.contains(id) <==> 1 <= id <= sets.len() && sets[id - 1].contains(
                    self.finish,
                ),
        ensures
            self.determinized_by(alphabet, d),
            !self.reaches_more_sets_than(alphabet, i32::MAX as int),
    {
        let rules = d.rules@;
        lemma_sound_deterministic(*self, alphabet, sets, rules);
        assert forall|k: int| 0 <= k < rules.len() implies alphabet.contains(
            (#[trigger] rules[k]).alphabet,
        ) by {
            assert(rule_sound(*self, alphabet, sets, rules[k]));
        }
        assert forall|word: Seq<char>| word_over(word, alphabet) implies #[trigger] d.spec_run(
            word,
        ) is Ok && d.accepts(word) == self.accepts(word) by {
            let q = lemma_explored_run(*self, alphabet, sets, rules, word);
        }
        assert forall|v: Seq<char>, w: Seq<char>|
            word_over(v, alphabet) && word_over(w, alphabet) implies (#[trigger] d.spec_run(v)
            == #[trigger] d.spec_run(w) <==> self.states_after(v) == self.states_after(w)) by {
            let p = lemma_explored_run(*self, alphabet, sets, rules, v);
            let q = lemma_explored_run(*self, alphabet, sets, rules, w);
            if p != q {
                assert(sets[p - 1] != sets[q - 1]);
            }
        }
        assert forall|q: dfa::State| #[trigger] d.is_state(q) implies 1 <= q <= sets.len() by {
            if q != d.start && !d.finish_states@.contains(q) {
                let k = choose|k: int|
                    0 <= k < rules.len() && ((#[trigger] rules[k]).from == q || rules[k].to == q);
                assert(rule_sound(*self, alphabet, sets, rules[k]));
            }
        }
        assert forall|q: dfa::State| #[trigger] d.is_state(q) implies exists|word: Seq<char>|
            word_over(word, alphabet) && #[trigger] d.spec_run(word) == Ok::<
                dfa::State,
                dfa::NonTotalTransitionError,
            >(q) by {
            let word = words[q - 1];
            assert(word_over(word, alphabet) && d.spec_run(word) == Ok::<
                dfa::State,
                dfa::NonTotalTransitionError,
            >(q));
        }
        assert forall|p: dfa::State, q: dfa::State|
            1 <= p <= q && #[trigger] d.is_state(q) implies #[trigger] d.is_state(p) by {
            let word = words[p - 1];
            assert(run_rules(rules, 1, word) == Ok::<dfa::State, dfa::NonTotalTransitionError>(p));
            if word.len() > 0 {
                let from = run_rules(rules, 1, word.drop_last())->Ok_0;
                dfa::lemma_first_match_is_rule(rules, from, word.last());
                let k = lemma_rule_index(rules, from, word.last(), p);
            }
        }
        assert forall|q: dfa::State, a: char|
            d.is_state(q) && alphabet.contains(a) implies #[trigger] d.spec_step(q, a) is Some by {
            let j = choose|j: int| 0 <= j < alphabet.len() && alphabet[j] == a;
            assert(covered(rules, q as int, alphabet[j]));
        }
        if self.reaches_more_sets_than(alphabet, i32::MAX as int) {
            let many = choose|many: Seq<Seq<char>>|
                many.len() > i32::MAX as int && #[trigger] self.distinct_after(alphabet, many);
            let numbers = Seq::new(many.len(), |i: int| run_rules(rules, 1, many[i])->Ok_0 - 1);
            assert forall|i: int| 0 <= i < numbers.len() implies in_range(
                sets.len() as int,
                #[trigger] numbers[i],
            ) by {
                let q = lemma_explored_run(*self, alphabet, sets, rules, many[i]);
            }
            let (i, j) = lemma_pigeonhole(numbers, sets.len() as int);
            let p = lemma_explored_run(*self, alphabet, sets, rules, many[i]);
            let q = lemma_explored_run(*self, alphabet, sets, rules, many[j]);
            assert(self.states_after(many[i]) == self.states_after(many[j]));
        }
    }
}

} // verus!
