use regend::dfa::{Dfa, MalformedTableError, NonTotalTransitionError, Row, Rule, Table};
use regend::str_to_dfa;
use std::collections::{BTreeMap, BTreeSet};

fn rule(from: i32, alphabet: char, to: i32) -> Rule {
    Rule { from, alphabet, to }
}

fn set(items: &[i32]) -> BTreeSet<i32> {
    items.iter().copied().collect()
}

fn sample() -> Dfa {
    Dfa {
        start: 1,
        finish_states: set(&[2]),
        rules: vec![
            rule(1, 'b', 1),
            rule(1, 'a', 2),
            rule(2, 'b', 3),
            rule(2, 'a', 2),
            rule(3, 'a', 3),
            rule(3, 'b', 3),
        ],
    }
}

fn sample_table() -> Table {
    let mut table: Table = BTreeMap::new();
    table.insert(1, (false, true, vec![('a', 2), ('b', 1)]));
    table.insert(2, (true, false, vec![('a', 2), ('b', 3)]));
    table.insert(3, (false, false, vec![('a', 3), ('b', 3)]));
    table
}

#[test]
fn run_gives_the_state_reached_and_the_verdict() {
    let dfa = sample();
    assert_eq!(dfa.run(""), Ok((1, false)));
    assert_eq!(dfa.run("a"), Ok((2, true)));
    assert_eq!(dfa.run("bbaa"), Ok((2, true)));
    assert_eq!(dfa.run("ab"), Ok((3, false)));
    assert_eq!(dfa.run("aba"), Ok((3, false)));
}

#[test]
fn run_stops_where_no_rule_fits() {
    let dfa = sample();
    assert_eq!(dfa.run("abc"), Err(NonTotalTransitionError { state: 3, symbol: 'c' }));
    assert_eq!(dfa.run("xa"), Err(NonTotalTransitionError { state: 1, symbol: 'x' }));
    let partial = Dfa { start: 1, finish_states: set(&[2]), rules: vec![rule(1, 'a', 2)] };
    assert_eq!(partial.run("a"), Ok((2, true)));
    assert_eq!(partial.run("aa"), Err(NonTotalTransitionError { state: 2, symbol: 'a' }));
}

#[test]
fn step_takes_the_first_rule_that_fits() {
    let dfa = sample();
    assert_eq!(dfa.step(1, 'a'), Some(2));
    assert_eq!(dfa.step(3, 'b'), Some(3));
    assert_eq!(dfa.step(1, 'c'), None);
    assert_eq!(dfa.step(4, 'a'), None);
    let twice = Dfa { start: 1, finish_states: set(&[]), rules: vec![rule(1, 'a', 5), rule(1, 'a', 2)] };
    assert_eq!(twice.step(1, 'a'), Some(5));
}

#[test]
fn the_table_has_a_sorted_row_for_each_state() {
    assert_eq!(sample().to_table(), sample_table());
}

#[test]
fn the_table_takes_the_last_of_two_rules_for_one_symbol() {
    let twice = Dfa {
        start: 1,
        finish_states: set(&[7]),
        rules: vec![rule(1, 'a', 5), rule(1, 'b', 1), rule(1, 'a', 2)],
    };
    let mut table: Table = BTreeMap::new();
    table.insert(1, (false, true, vec![('a', 2), ('b', 1)]));
    assert_eq!(twice.to_table(), table);
}

#[test]
fn the_automaton_of_a_table_has_its_entries_as_rules() {
    let dfa = Dfa::from_table(&sample_table()).unwrap();
    assert_eq!(
        dfa,
        Dfa {
            start: 1,
            finish_states: set(&[2]),
            rules: vec![
                rule(1, 'a', 2),
                rule(1, 'b', 1),
                rule(2, 'a', 2),
                rule(2, 'b', 3),
                rule(3, 'a', 3),
                rule(3, 'b', 3),
            ],
        }
    );
}

#[test]
fn a_table_without_a_start_is_refused() {
    let empty: Table = BTreeMap::new();
    assert_eq!(Dfa::from_table(&empty), Err(MalformedTableError::NoStart));
    let mut table = sample_table();
    table.insert(1, (false, false, vec![('a', 2)]));
    assert_eq!(Dfa::from_table(&table), Err(MalformedTableError::NoStart));
}

#[test]
fn a_table_with_two_starts_is_refused() {
    let mut table = sample_table();
    table.insert(3, (false, true, Row::new()));
    assert_eq!(Dfa::from_table(&table), Err(MalformedTableError::MultipleStart));
}

fn words(symbols: &[char], longest: usize) -> Vec<String> {
    let mut all = vec![String::new()];
    let mut last = vec![String::new()];
    for _ in 0..longest {
        let mut next = Vec::new();
        for w in &last {
            for c in symbols {
                let mut longer = w.clone();
                longer.push(*c);
                next.push(longer);
            }
        }
        all.extend(next.iter().cloned());
        last = next;
    }
    all
}

#[test]
fn to_the_table_and_back_changes_no_run() {
    for text in ["0|1", "(0|1)*", "(00|11)*", "11(11|0)*|(11|0)*11|(00|1)*00", "a(b|c)*|φ"] {
        let dfa = str_to_dfa(text).unwrap();
        let back = Dfa::from_table(&dfa.to_table()).unwrap();
        assert_eq!(back.start, dfa.start);
        assert_eq!(back.finish_states, dfa.finish_states);
        let mut a = dfa.rules.iter().map(|r| (r.from, r.alphabet, r.to)).collect::<Vec<_>>();
        let mut b = back.rules.iter().map(|r| (r.from, r.alphabet, r.to)).collect::<Vec<_>>();
        a.sort();
        b.sort();
        assert_eq!(a, b);
        for w in words(&['0', '1', 'a', 'b', 'c'], 4) {
            assert_eq!(back.run(&w), dfa.run(&w), "{text} {w:?}");
        }
    }
}

#[test]
fn compiling_twice_gives_the_same_verdicts() {
    for text in ["0|1", "(0|1)*", "(00|11)*", "11(11|0)*|(11|0)*11|(00|1)*00"] {
        let one = str_to_dfa(text).unwrap();
        let two = str_to_dfa(text).unwrap();
        for w in words(&['0', '1'], 7) {
            assert_eq!(one.run(&w).map(|r| r.1), two.run(&w).map(|r| r.1), "{text} {w:?}");
        }
    }
}
