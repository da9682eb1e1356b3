use regend::dfa::{Dfa, MalformedTableError, Rule, Table};
use regend::minimize::merge_groups;
use regend::nfa::GlobalEnv;
use regend::str_to_dfa;
use std::collections::{BTreeMap, BTreeSet};

fn rule(from: i32, alphabet: char, to: i32) -> Rule {
    Rule { from, alphabet, to }
}

fn set(items: &[i32]) -> BTreeSet<i32> {
    items.iter().copied().collect()
}

fn words(symbols: &[char], longest: usize) -> Vec<String> {
    let mut all = vec![String::new()];
    let mut last = vec![String::new()];
    for _ in 0..longest {
        let mut next = Vec::new();
        for w in &last {
            for c in symbols {
                let mut longer = w.clone();
                longer.push(*c);
                next.push(longer);
            }
        }
        all.extend(next.iter().cloned());
        last = next;
    }
    all
}

fn verdict(dfa: &Dfa, word: &str) -> bool {
    matches!(dfa.run(word), Ok((_, true)))
}

fn state_count(dfa: &Dfa) -> usize {
    dfa.to_table().len()
}

#[test]
fn merging_follows_the_groups() {
    // 2 and 3 accept and go to 4 with a; 1 is the start; 4 is a sink.
    let mut table: Table = BTreeMap::new();
    table.insert(1, (false, true, vec![('a', 2), ('b', 3)]));
    table.insert(2, (true, false, vec![('a', 4), ('b', 4)]));
    table.insert(3, (true, false, vec![('a', 4), ('b', 4)]));
    table.insert(4, (false, false, vec![('a', 4), ('b', 4)]));
    let groups = vec![vec![4], vec![2, 3], vec![1]];
    let mut env = GlobalEnv { current: 10 };
    let merged = merge_groups(&table, &groups, &mut env);
    let mut expected: Table = BTreeMap::new();
    expected.insert(1, (false, true, vec![('a', 11), ('b', 11)]));
    expected.insert(11, (true, false, vec![('a', 4), ('b', 4)]));
    expected.insert(4, (false, false, vec![('a', 4), ('b', 4)]));
    assert_eq!(merged, expected);
    assert_eq!(env.current, 11);
}

#[test]
fn a_merged_group_is_the_start_where_one_of_its_states_was() {
    let mut table: Table = BTreeMap::new();
    table.insert(1, (true, true, vec![('a', 2)]));
    table.insert(2, (true, false, vec![('a', 2)]));
    table.insert(3, (true, false, vec![('a', 2)]));
    // 2 and 3 have one signature; after they are merged, 1 has it too.
    let mut env = GlobalEnv { current: 3 };
    let merged = merge_groups(&table, &vec![vec![2, 3], vec![1]], &mut env);
    let mut expected: Table = BTreeMap::new();
    expected.insert(1, (true, true, vec![('a', 4)]));
    expected.insert(4, (true, false, vec![('a', 4)]));
    assert_eq!(merged, expected);
    let again = merge_groups(&merged, &vec![vec![4, 1]], &mut env);
    let mut expected: Table = BTreeMap::new();
    expected.insert(5, (true, true, vec![('a', 5)]));
    assert_eq!(again, expected);
    assert_eq!(env.current, 5);
}

#[test]
fn groups_of_one_state_change_nothing() {
    let mut table: Table = BTreeMap::new();
    table.insert(1, (false, true, vec![('a', 2)]));
    table.insert(2, (true, false, vec![('a', 1)]));
    let mut env = GlobalEnv { current: 2 };
    assert_eq!(merge_groups(&table, &vec![vec![2], vec![1]], &mut env), table);
    assert_eq!(env.current, 2);
}

#[test]
fn minimizing_merges_until_nothing_is_alike() {
    // 1 -a-> 2 -a-> 3 -a-> 4 -a-> 4, accepting 2, 3, 4: the three become one,
    // in two passes.
    let dfa = Dfa {
        start: 1,
        finish_states: set(&[2, 3, 4]),
        rules: vec![rule(1, 'a', 2), rule(2, 'a', 3), rule(3, 'a', 4), rule(4, 'a', 4)],
    };
    let mut env = GlobalEnv::default();
    let minimal = dfa.minimize(&mut env).unwrap();
    assert_eq!(state_count(&minimal), 2);
    assert_eq!(minimal.start, 1);
    assert_eq!(minimal.rules.len(), 2);
    let merged = minimal.rules[0].to;
    assert!(merged > 4);
    assert_eq!(minimal.rules, vec![rule(1, 'a', merged), rule(merged, 'a', merged)]);
    assert_eq!(minimal.finish_states, set(&[merged]));
    assert_eq!(env.current, merged);
}

#[test]
fn the_new_states_are_not_in_use() {
    let dfa = Dfa {
        start: 5,
        finish_states: set(&[6, 7]),
        rules: vec![rule(5, 'a', 6), rule(5, 'b', 7), rule(6, 'a', 9), rule(7, 'a', 9)],
    };
    let mut env = GlobalEnv { current: 5 };
    let minimal = dfa.minimize(&mut env).unwrap();
    assert_eq!(
        minimal,
        Dfa {
            start: 5,
            finish_states: set(&[10]),
            rules: vec![rule(5, 'a', 10), rule(5, 'b', 10), rule(10, 'a', 9)],
        }
    );
    assert_eq!(env.current, 10);
}

#[test]
fn an_automaton_whose_start_has_no_rule_is_refused() {
    let mut env = GlobalEnv { current: 3 };
    let dfa = str_to_dfa("φ").unwrap();
    assert_eq!(dfa.minimize(&mut env), Err(MalformedTableError::NoStart));
    assert_eq!(env.current, 3);
    let dfa = Dfa { start: 1, finish_states: set(&[]), rules: vec![rule(2, 'a', 2)] };
    assert_eq!(dfa.minimize(&mut env), Err(MalformedTableError::NoStart));
}

#[test]
fn minimizing_keeps_the_verdicts() {
    for text in [
        "0|1",
        "(0|1)*",
        "(00|11)*",
        "11(11|0)*|(11|0)*11|(00|1)*00",
        "(0|1)*00(0|1)*",
        "0*1*0*",
        "(01|10)*(0|φ)",
    ] {
        let dfa = str_to_dfa(text).unwrap();
        let mut env = GlobalEnv::default();
        let minimal = dfa.minimize(&mut env).unwrap();
        assert!(state_count(&minimal) <= state_count(&dfa));
        for w in words(&['0', '1'], 8) {
            assert_eq!(verdict(&minimal, &w), verdict(&dfa, &w), "{text} {w:?}");
        }
        assert_eq!(verdict(&minimal, "2"), verdict(&dfa, "2"));
    }
}

#[test]
fn minimizing_twice_keeps_the_state_count() {
    for text in ["0|1", "(0|1)*", "(00|11)*", "11(11|0)*|(11|0)*11|(00|1)*00", "0*1*0*"] {
        let dfa = str_to_dfa(text).unwrap();
        let mut env = GlobalEnv::default();
        let once = dfa.minimize(&mut env).unwrap();
        let used = env.current;
        let twice = once.minimize(&mut env).unwrap();
        assert_eq!(state_count(&twice), state_count(&once), "{text}");
        assert_eq!(twice, once, "{text}");
        assert_eq!(env.current, used);
    }
}

#[test]
fn the_known_state_counts() {
    let count = |text: &str| {
        let dfa = str_to_dfa(text).unwrap();
        let mut env = GlobalEnv::default();
        (state_count(&dfa), state_count(&dfa.minimize(&mut env).unwrap()))
    };
    // Each automaton has a state for the words that cannot be completed.
    assert_eq!(count("(0|1)*").1, 1);
    assert_eq!(count("0|1").1, 3);
    let (before, after) = count("(00|11)*");
    assert!(after < before);
    assert_eq!(after, 4);
}

#[test]
fn there_is_room_where_the_identifiers_are_small() {
    let dfa = str_to_dfa("(00|11)*").unwrap();
    assert!(dfa.can_minimize(0));
    assert!(dfa.can_minimize(i32::MAX - dfa.rules.len() as i32));
    assert!(!dfa.can_minimize(i32::MAX - dfa.rules.len() as i32 + 1));
    let high = Dfa { start: 1, finish_states: set(&[]), rules: vec![rule(1, 'a', i32::MAX)] };
    assert!(!high.can_minimize(0));
    let fits = Dfa { start: 1, finish_states: set(&[]), rules: vec![rule(1, 'a', i32::MAX - 1)] };
    assert!(fits.can_minimize(0));
    assert_eq!(state_count(&fits.minimize(&mut GlobalEnv::default()).unwrap()), 1);
}
