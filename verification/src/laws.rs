//! What holds of the automata of this library, whatever their states are
//! called.
use vstd::prelude::*;
use crate::compiles_to;
use crate::dfa::{Dfa, State};
use crate::nfa::NfaView;
use crate::subset::word_over;
use crate::table::{table_start_is, TableView};

verus! {

/// A run of an automaton whose rules read symbols of `alphabet` only
/// does not come to its end on a word with another symbol.
pub proof fn lemma_run_needs_alphabet(d: &Dfa, alphabet: Seq<char>, q: State, word: Seq<char>)
    requires
        forall|k: int| 0 <= k < d.rules@.len() ==> alphabet.contains((#[trigger] d.rules@[k]).alphabet),
        !word_over(word, alphabet),
    ensures
        d.spec_run_from(q, word) is Err,
    decreases word.len(),
{
    if word.len() > 0 {
        if word_over(word.drop_last(), alphabet) {
            assert(!alphabet.contains(word.last())) by {
                if alphabet.contains(word.last()) {
                    assert forall|i: int| 0 <= i < word.len() implies alphabet.contains(
                        #[trigger] word[i],
                    ) by {
                        if i < word.len() - 1 {
                            assert(word.drop_last()[i] == word[i]);
                        }
                    }
                }
            }
            if d.spec_run_from(q, word.drop_last()) is Ok {
                let p = d.spec_run_from(q, word.drop_last())->Ok_0;
                crate::dfa::lemma_first_match_is_rule(d.rules@, p, word.last());
                if d.spec_step(p, word.last()) is Some {
                    let to = d.spec_step(p, word.last())->0;
                    let k = crate::subset::lemma_rule_index(d.rules@, p, word.last(), to);
                    assert(alphabet.contains(d.rules@[k].alphabet));
                }
            }
        } else {
            lemma_run_needs_alphabet(d, alphabet, q, word.drop_last());
        }
    }
}

/// Compiling is deterministic in what matters: two automata compiled from
/// one text accept the same words, although their states may be numbered
/// differently.
pub proof fn lemma_compile_deterministic(text: Seq<char>, d1: &Dfa, d2: &Dfa, word: Seq<char>)
    requires
        compiles_to(text, d1),
        compiles_to(text, d2),
    ensures
        d1.accepts(word) == d2.accepts(word),
{
    let e = crate::parser::spec_parse(text)->Ok_0;
    let nfa = e.automaton(0);
    if word_over(word, e.alphabets()) {
        assert(d1.spec_run(word) is Ok && d1.accepts(word) == nfa.accepts(word));
        assert(d2.spec_run(word) is Ok && d2.accepts(word) == nfa.accepts(word));
    } else {
        lemma_run_needs_alphabet(d1, e.alphabets(), d1.start, word);
        lemma_run_needs_alphabet(d2, e.alphabets(), d2.start, word);
    }
}

/// The compiled automaton decides the expression: it accepts a word
/// exactly when the expression that the text stands for matches it.
pub proof fn lemma_compile_decides(text: Seq<char>, d: &Dfa, word: Seq<char>)
    requires
        compiles_to(text, d),
    ensures
        d.accepts(word) == crate::parser::spec_parse(text)->Ok_0.matches(word),
{
    let e = crate::parser::spec_parse(text)->Ok_0;
    crate::parser::lemma_expr_plain(text, 0);
    if word_over(word, e.alphabets()) {
        e.lemma_plain_words(word);
        e.lemma_automaton_decides(0, word);
        assert(d.spec_run(word) is Ok && d.accepts(word) == e.automaton(0).accepts(word));
    } else {
        lemma_run_needs_alphabet(d, e.alphabets(), d.start, word);
        if e.matches(word) {
            e.lemma_matches_symbols(word);
        }
    }
}

/// The automaton of the subset construction is total: it is deterministic,
/// holds no rule twice, and each of its states has a rule for every symbol
/// of the alphabet, so that every state has exactly one rule for each.
pub proof fn lemma_determinized_total(nfa: NfaView, alphabet: Seq<char>, d: &Dfa, q: State, a: char)
    requires
        nfa.determinized_by(alphabet, d),
        d.is_state(q),
        alphabet.contains(a),
    ensures
        exists|to: State| d.has_rule(q, a, to),
        forall|to1: State, to2: State| d.has_rule(q, a, to1) && d.has_rule(q, a, to2) ==> to1 == to2,
        d.rules@.no_duplicates(),
{
    crate::dfa::lemma_deterministic_match(d.rules@, q, a);
    assert(d.spec_step(q, a) is Some);
    let to = d.spec_step(q, a)->0;
    assert(d.has_rule(q, a, to));
}

/// The automaton of the subset construction over an alphabet that is not
/// empty can be minimized: it is deterministic, and its start and its
/// accepting states have outgoing rules, so that minimizing keeps the words
/// it accepts.
pub proof fn lemma_determinized_minimizes(nfa: NfaView, alphabet: Seq<char>, d: &Dfa)
    requires
        nfa.determinized_by(alphabet, d),
        alphabet.len() > 0,
    ensures
        d.deterministic(),
        d.is_source(d.start),
        d.finish_in_sources(),
{
    let a = alphabet[0];
    assert(alphabet.contains(a));
    assert forall|q: State| d.is_state(q) implies d.is_source(q) by {
        assert(d.spec_step(q, a) is Some);
        crate::dfa::lemma_first_match_is_rule(d.rules@, q, a);
        let to = d.spec_step(q, a)->0;
        let k = crate::subset::lemma_rule_index(d.rules@, q, a, to);
        assert(d.rules@[k].from == q);
    }
    assert(d.is_state(d.start));
    assert forall|q: State| d.finish_states@.contains(q) implies d.is_source(q) by {
        assert(d.is_state(q));
    }
}

/// An automaton compiled from an expression with a symbol is ready to be
/// minimized: minimizing it does not fail for want of a start, and keeps
/// the words it accepts.
pub proof fn lemma_compiled_minimizes(text: Seq<char>, d: &Dfa)
    requires
        compiles_to(text, d),
        crate::parser::spec_parse(text)->Ok_0.alphabets().len() > 0,
    ensures
        d.deterministic(),
        d.is_source(d.start),
        d.finish_in_sources(),
{
    let e = crate::parser::spec_parse(text)->Ok_0;
    lemma_determinized_minimizes(e.automaton(0), e.alphabets(), d);
}

/// Going to the table and back changes nothing that can be seen: for a
/// deterministic automaton whose start and accepting states have outgoing
/// rules, the table has one start, and the automaton of the table has the
/// same start and accepting states, takes the same steps, and so makes the
/// same runs and accepts the same words.
pub proof fn lemma_table_round_trip(d: &Dfa, t: TableView, back: &Dfa, word: Seq<char>)
    requires
        d.deterministic(),
        d.is_source(d.start),
        d.finish_in_sources(),
        d.is_table_of(t),
        back.is_automaton_of(t),
    ensures
        table_start_is(t, d.start),
        back.start == d.start,
        back.finish_states@ == d.finish_states@,
        forall|q: State, a: char| back.spec_step(q, a) == d.spec_step(q, a),
        forall|q: State, a: char, to: State| back.has_rule(q, a, to) == d.has_rule(q, a, to),
        back.spec_run(word) == d.spec_run(word),
        back.accepts(word) == d.accepts(word),
{
    d.lemma_steps_of_table(t);
    d.lemma_table_entries(t);
    assert(crate::table::table_is_start(t, d.start));
    assert(back.finish_states@ =~= d.finish_states@) by {
        assert forall|q: State| back.finish_states@.contains(q) <==> d.finish_states@.contains(
            q,
        ) by {
            assert(back.finish_states@.contains(q) <==> crate::table::table_is_finish(t, q));
            if d.finish_states@.contains(q) {
                assert(d.is_source(q));
            }
        }
    }
    assert forall|q: State, a: char| back.spec_step(q, a) == d.spec_step(q, a) by {
        assert(back.spec_step(q, a) == crate::table::table_step(t, q, a));
        assert(d.spec_step(q, a) == crate::table::table_step(t, q, a));
    }
    assert forall|q: State, a: char, to: State| back.has_rule(q, a, to) == d.has_rule(q, a, to) by {
        assert(back.has_rule(q, a, to) <==> crate::table::table_has_entry(t, q, a, to));
        crate::dfa::lemma_deterministic_match(d.rules@, q, a);
        if d.has_rule(q, a, to) {
            assert(d.spec_step(q, a) == Some(to));
            assert(crate::table::table_step(t, q, a) == Some(to));
            assert(t.contains_key(q));
            assert(crate::table::row_sorted(t[q].2@));
            crate::table::lemma_row_target_sorted(t[q].2@, a);
        }
    }
    back.lemma_run_by_table(t, back.start, word);
    d.lemma_run_by_table(t, d.start, word);
}

} // verus!
