use regend::dfa::{Dfa, NonTotalTransitionError};
use regend::nfa::GlobalEnv;
use regend::parser::{parse_expr_until_end, ParseError};
use regend::regexpr::RegExpr;
use regend::{str_to_dfa, CompileError};

fn accepts(dfa: &Dfa, word: &str) -> bool {
    match dfa.run(word) {
        Ok((_, accepted)) => accepted,
        Err(_) => false,
    }
}

#[test]
fn union_of_two_symbols() {
    let dfa = str_to_dfa("0|1").unwrap();
    assert!(accepts(&dfa, "0"));
    assert!(accepts(&dfa, "1"));
    assert!(!accepts(&dfa, ""));
    assert!(!accepts(&dfa, "00"));
    assert!(!accepts(&dfa, "10"));
}

#[test]
fn star_of_a_union_accepts_every_word_over_its_symbols() {
    let dfa = str_to_dfa("(0|1)*").unwrap();
    for word in ["", "0", "1", "00", "01", "10", "11", "0110100111"] {
        assert!(accepts(&dfa, word), "{word:?}");
    }
    for word in ["2", "0a", "10 ", "x"] {
        assert!(!accepts(&dfa, word), "{word:?}");
    }
}

#[test]
fn a_symbol_outside_the_alphabet_stops_the_run() {
    let dfa = str_to_dfa("(0|1)*").unwrap();
    let start = dfa.start;
    assert_eq!(dfa.run("2"), Err(NonTotalTransitionError { state: start, symbol: '2' }));
}

#[test]
fn three_branches() {
    let dfa = str_to_dfa("11(11|0)*|(11|0)*11|(00|1)*00").unwrap();
    assert!(accepts(&dfa, "0000100"));
    assert!(accepts(&dfa, "11"));
    assert!(accepts(&dfa, "00"));
    assert!(accepts(&dfa, "1100"));
    assert!(accepts(&dfa, "011"));
    assert!(!accepts(&dfa, ""));
    assert!(!accepts(&dfa, "1"));
    assert!(!accepts(&dfa, "10"));
    assert!(!accepts(&dfa, "111"));
    assert!(!accepts(&dfa, "0110"));
}

#[test]
fn the_empty_string_mark_alone_accepts_the_empty_word_only() {
    let dfa = str_to_dfa("\u{3c6}").unwrap();
    assert!(accepts(&dfa, ""));
    assert!(!accepts(&dfa, "0"));
    assert!(!accepts(&dfa, "\u{3c6}"));
    assert!(dfa.rules.is_empty());
}

#[test]
fn minimizing_pairs_reduces_the_state_count() {
    let dfa = str_to_dfa("(00|11)*").unwrap();
    let before = dfa.to_table().len();
    let mut env = GlobalEnv::default();
    let minimal = dfa.minimize(&mut env).unwrap();
    let after = minimal.to_table().len();
    assert!(after < before, "{after} < {before}");
    for word in ["", "00", "11", "0011", "1100", "110011"] {
        assert!(accepts(&dfa, word), "{word:?}");
        assert!(accepts(&minimal, word), "{word:?}");
    }
    for word in ["0", "1", "01", "10", "001", "0010"] {
        assert!(!accepts(&dfa, word), "{word:?}");
        assert!(!accepts(&minimal, word), "{word:?}");
    }
}

#[test]
fn a_text_that_is_no_expression_is_refused() {
    assert_eq!(str_to_dfa("").err(), Some(CompileError::Parse(ParseError { position: 0 })));
    assert_eq!(str_to_dfa("  *").err(), Some(CompileError::Parse(ParseError { position: 2 })));
    assert_eq!(str_to_dfa("0|").err(), Some(CompileError::Parse(ParseError { position: 1 })));
    assert_eq!(str_to_dfa("(0").err(), Some(CompileError::Parse(ParseError { position: 0 })));
    assert_eq!(str_to_dfa("0)").err(), Some(CompileError::Parse(ParseError { position: 1 })));
    assert_eq!(str_to_dfa("0**").err(), Some(CompileError::Parse(ParseError { position: 2 })));
}

/// Whether the expression matches the word, tried out part by part.
fn matches(e: &RegExpr, w: &[char]) -> bool {
    match e {
        RegExpr::Empty => w.is_empty(),
        RegExpr::Char(c) => w.len() == 1 && w[0] == *c,
        RegExpr::Cat(v) => !v.is_empty() && matches_list(v, w),
        RegExpr::Or(v) => v.iter().any(|r| matches(r, w)),
        RegExpr::Repeat(r) => {
            w.is_empty() || (1..=w.len()).any(|k| matches(r, &w[..k]) && matches(e, &w[k..]))
        }
    }
}

fn matches_list(v: &[RegExpr], w: &[char]) -> bool {
    match v.split_last() {
        None => w.is_empty(),
        Some((last, first)) => {
            (0..=w.len()).any(|k| matches_list(first, &w[..k]) && matches(last, &w[k..]))
        }
    }
}

fn words(symbols: &[char], longest: usize) -> Vec<String> {
    let mut all = vec![String::new()];
    let mut last = vec![String::new()];
    for _ in 0..longest {
        let mut next = Vec::new();
        for w in &last {
            for c in symbols {
                let mut longer = w.clone();
                longer.push(*c);
                next.push(longer);
            }
        }
        all.extend(next.iter().cloned());
        last = next;
    }
    all
}

#[test]
fn the_automaton_accepts_what_the_expression_matches() {
    for text in [
        "0",
        "φ",
        "0|1",
        "01",
        "0*",
        "(0|1)*",
        "(00|11)*",
        "0*1*0*",
        "(0*1)*",
        "((0|φ)1*)*",
        "(0|1)*00(0|1)*",
        "(01|10)*(0|φ)",
        "11(11|0)*|(11|0)*11|(00|1)*00",
        "(0*)*",
        "0(φ|1)(φ|1)0",
    ] {
        let e = parse_expr_until_end(text).unwrap();
        let dfa = str_to_dfa(text).unwrap();
        for word in words(&['0', '1', '2'], 6) {
            let chars: Vec<char> = word.chars().collect();
            assert_eq!(accepts(&dfa, &word), matches(&e, &chars), "{text} {word:?}");
        }
    }
}
