//! Regular expressions compiled to finite automata.
//!
//! A regular expression is parsed into a [`regexpr::RegExpr`], turned into a
//! non-deterministic automaton by Thompson's construction, made deterministic
//! by the subset construction, and reduced by merging states that behave alike.
use vstd::prelude::*;

pub mod collections;
pub mod dfa;
pub mod language;
pub mod laws;
pub mod minimize;
pub mod nfa;
pub mod parser;
pub mod regexpr;
pub mod subset;
pub mod table;

use crate::dfa::Dfa;
use crate::nfa::GlobalEnv;
use crate::parser::{parse_expr_until_end, spec_parse, ParseError};
use crate::regexpr::RegExprView;

verus! {

/// Why a text could not be compiled.
#[derive(Debug, Clone, Copy, PartialEq, Eq, Structural)]
pub enum CompileError {
    /// The text is no regular expression.
    Parse(ParseError),
    /// The automaton of the expression needs more states than there are
    /// identifiers.
    StateLimit,
}

/// `d` is the deterministic automaton of the expression `e`: that of the
/// subset construction, over the symbols of `e`, on the automaton that
/// Thompson's construction builds for `e` with the states from 1.
pub open spec fn automaton_of(e: RegExprView, d: &Dfa) -> bool {
    e.automaton(0).determinized_by(e.alphabets(), d)
}

/// The automaton of the subset construction on the automaton of `e` would
/// have more states than there are identifiers.
pub open spec fn automaton_too_large(e: RegExprView) -> bool {
    e.automaton(0).reaches_more_sets_than(e.alphabets(), i32::MAX as int)
}

/// `d` is the deterministic automaton of the regular expression that
/// `text` stands for.
pub open spec fn compiles_to(text: Seq<char>, d: &Dfa) -> bool {
    spec_parse(text) matches Ok(e) && e.state_count() <= i32::MAX && !automaton_too_large(e)
        && automaton_of(e, d)
}

/// Compiles the text of a regular expression to a deterministic automaton:
/// the text is parsed, the expression turned into an automaton by Thompson's
/// construction, and the result made deterministic over the symbols of the
/// expression. The automaton accepts the words that the expression matches,
/// and no others.
pub fn str_to_dfa(s: &str) -> (r: Result<Dfa, CompileError>)
    ensures
        match r {
            Ok(d) => compiles_to(s@, &d) && forall|word: Seq<char>|
                d.accepts(word) == (#[trigger] spec_parse(s@)->Ok_0.matches(word)),
            Err(CompileError::Parse(e)) => spec_parse(s@) == Err::<RegExprView, ParseError>(e),
            Err(CompileError::StateLimit) => spec_parse(s@) matches Ok(e) && (e.state_count()
                > i32::MAX || automaton_too_large(e)),
        },
{
    let regex = match parse_expr_until_end(s) {
        Ok(regex) => regex,
        Err(e) => {
            return Err(CompileError::Parse(e));
        },
    };
    if regex.states_left(i32::MAX).is_none() {
        return Err(CompileError::StateLimit);
    }
    let mut env = GlobalEnv::default();
    let nfa = regex.to_nfa(&mut env);
    let alphabets = regex.get_alphabets();
    match nfa.to_dfa(alphabets.as_slice()) {
        Ok(d) => {
            proof {
                assert forall|word: Seq<char>|
                    d.accepts(word) == (#[trigger] spec_parse(s@)->Ok_0.matches(word)) by {
                    crate::laws::lemma_compile_decides(s@, &d, word);
                }
            }
            Ok(d)
        },
        Err(_) => Err(CompileError::StateLimit),
    }
}

} // verus!
