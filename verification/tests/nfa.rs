use regend::dfa;
use regend::dfa::Dfa;
use regend::nfa::{GlobalEnv, Nfa, Rule, EPSILON};
use regend::regexpr::RegExpr;
use regend::subset::DfaStateProvider;
use std::collections::BTreeSet;

fn eps(from: i32, to: i32) -> Rule {
    Rule { from, to, alphabet: EPSILON }
}

fn reads(from: i32, alphabet: char, to: i32) -> Rule {
    Rule { from, to, alphabet }
}

fn set(items: &[i32]) -> BTreeSet<i32> {
    items.iter().copied().collect()
}

fn sample() -> Nfa {
    // 1 -ε-> 2 -ε-> 3 -ε-> 1, 2 -a-> 4, 3 -a-> 5, 5 -ε-> 6, 4 -b-> 4
    Nfa {
        start: 1,
        finish: 6,
        rules: vec![
            eps(1, 2),
            eps(2, 3),
            eps(3, 1),
            reads(2, 'a', 4),
            reads(3, 'a', 5),
            eps(5, 6),
            reads(4, 'b', 4),
        ],
    }
}

#[test]
fn new_state_counts_up() {
    let mut env = GlobalEnv::default();
    assert_eq!(env.current, 0);
    assert_eq!(env.new_state(), 1);
    assert_eq!(env.new_state(), 2);
    assert_eq!(env.current, 2);
}

#[test]
fn edge_follows_one_rule() {
    let nfa = sample();
    assert_eq!(nfa.edge(1, EPSILON), set(&[2]));
    assert_eq!(nfa.edge(2, 'a'), set(&[4]));
    assert_eq!(nfa.edge(2, 'b'), set(&[]));
    assert_eq!(nfa.edge(9, 'a'), set(&[]));
    let two = Nfa { start: 1, finish: 2, rules: vec![reads(1, 'a', 2), reads(1, 'a', 3)] };
    assert_eq!(two.edge(1, 'a'), set(&[2, 3]));
}

#[test]
fn closure_follows_epsilon_rules_around_cycles() {
    let nfa = sample();
    assert_eq!(nfa.closure(&set(&[1])), set(&[1, 2, 3]));
    assert_eq!(nfa.closure(&set(&[5])), set(&[5, 6]));
    assert_eq!(nfa.closure(&set(&[4, 5])), set(&[4, 5, 6]));
    assert_eq!(nfa.closure(&set(&[])), set(&[]));
    assert_eq!(nfa.closure(&set(&[9])), set(&[9]));
    assert_eq!(nfa.closure_(3), set(&[1, 2, 3]));
    assert_eq!(nfa.closure_(6), set(&[6]));
}

#[test]
fn dfa_edge_reads_a_symbol_and_closes() {
    let nfa = sample();
    assert_eq!(nfa.dfa_edge(&set(&[1, 2, 3]), 'a'), set(&[4, 5, 6]));
    assert_eq!(nfa.dfa_edge(&set(&[4, 5, 6]), 'b'), set(&[4]));
    assert_eq!(nfa.dfa_edge(&set(&[4, 5, 6]), 'a'), set(&[]));
    assert_eq!(nfa.dfa_edge(&set(&[]), 'a'), set(&[]));
}

#[test]
fn the_provider_numbers_the_sets_as_they_come() {
    let mut provider = DfaStateProvider::default();
    assert_eq!(provider.len(), 0);
    assert_eq!(provider.find(&set(&[1])), None);
    assert_eq!(provider.to_dfa_state(set(&[1, 2])), 1);
    assert_eq!(provider.to_dfa_state(set(&[])), 2);
    assert_eq!(provider.to_dfa_state(set(&[2, 1])), 1);
    assert_eq!(provider.to_dfa_state(set(&[2])), 3);
    assert_eq!(provider.to_dfa_state(set(&[])), 2);
    assert_eq!(provider.len(), 3);
    assert_eq!(provider.find(&set(&[2])), Some(3));
    assert_eq!(provider.find(&set(&[3])), None);
    assert_eq!(provider.set_of(1), &set(&[1, 2]));
    assert_eq!(provider.get_dfa_finishes(2), set(&[1, 3]));
    assert_eq!(provider.get_dfa_finishes(1), set(&[1]));
    assert_eq!(provider.get_dfa_finishes(7), set(&[]));
}

#[test]
fn the_subset_construction_numbers_breadth_first() {
    let nfa = sample();
    let dfa = nfa.to_dfa(&['a', 'b']).unwrap();
    // 1 = {1,2,3}, 2 = {4,5,6}, 3 = {}, 4 = {4}
    let rule = |from, alphabet, to| dfa::Rule { from, alphabet, to };
    assert_eq!(
        dfa,
        Dfa {
            start: 1,
            finish_states: set(&[2]),
            rules: vec![
                rule(1, 'a', 2),
                rule(1, 'b', 3),
                rule(2, 'a', 3),
                rule(2, 'b', 4),
                rule(3, 'a', 3),
                rule(3, 'b', 3),
                rule(4, 'a', 3),
                rule(4, 'b', 4),
            ],
        }
    );
}

#[test]
fn a_symbol_named_twice_gives_each_rule_once() {
    let nfa = sample();
    assert_eq!(nfa.to_dfa(&['a', 'b', 'a', 'b', 'b']), nfa.to_dfa(&['a', 'b']));
}

#[test]
fn without_symbols_only_the_start_is_left() {
    let nfa = sample();
    let dfa = nfa.to_dfa(&[]).unwrap();
    assert_eq!(dfa, Dfa { start: 1, finish_states: set(&[]), rules: vec![] });
    let mut env = GlobalEnv::default();
    let empty = RegExpr::Empty.to_nfa(&mut env);
    let dfa = empty.to_dfa(&[]).unwrap();
    assert_eq!(dfa, Dfa { start: 1, finish_states: set(&[1]), rules: vec![] });
}

#[test]
fn every_state_has_one_rule_for_each_symbol() {
    let mut env = GlobalEnv::default();
    let e = regend::parser::parse_expr_until_end("(ab|c)*a|bc*").unwrap();
    let nfa = e.to_nfa(&mut env);
    let symbols = ['a', 'b', 'c'];
    let dfa = nfa.to_dfa(&e.get_alphabets()).unwrap();
    let mut states: BTreeSet<i32> = dfa.finish_states.clone();
    states.insert(dfa.start);
    for r in &dfa.rules {
        states.insert(r.from);
        states.insert(r.to);
    }
    assert_eq!(states, (1..=states.len() as i32).collect::<BTreeSet<i32>>());
    for q in &states {
        for a in symbols {
            let n = dfa.rules.iter().filter(|r| r.from == *q && r.alphabet == a).count();
            assert_eq!(n, 1, "state {q}, symbol {a}");
        }
    }
    assert_eq!(dfa.rules.len(), states.len() * symbols.len());
}

#[test]
fn a_concatenation_of_nothing_accepts_nothing() {
    let mut env = GlobalEnv::default();
    let e = RegExpr::Or(vec![RegExpr::Cat(vec![]), RegExpr::Char('a')]);
    let nfa = e.to_nfa(&mut env);
    let dfa = nfa.to_dfa(&e.get_alphabets()).unwrap();
    assert_eq!(dfa.run("").map(|r| r.1), Ok(false));
    assert_eq!(dfa.run("a").map(|r| r.1), Ok(true));
    assert_eq!(dfa.run("aa").map(|r| r.1), Ok(false));
}
