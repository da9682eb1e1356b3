use regend::nfa::{GlobalEnv, Nfa, Rule, EPSILON};
use regend::parser::parse_expr_until_end;
use regend::regexpr::{cat_char, RegExpr};

fn eps(from: i32, to: i32) -> Rule {
    Rule { from, to, alphabet: EPSILON }
}

fn reads(from: i32, alphabet: char, to: i32) -> Rule {
    Rule { from, to, alphabet }
}

#[test]
fn epsilon_is_the_greek_letter() {
    assert_eq!(EPSILON, 'ε');
}

#[test]
fn cat_char_makes_a_symbol_of_each_character() {
    assert_eq!(cat_char("ab"), RegExpr::Cat(vec![RegExpr::Char('a'), RegExpr::Char('b')]));
    assert_eq!(cat_char(""), RegExpr::Cat(vec![]));
    assert_eq!(cat_char("é*"), RegExpr::Cat(vec![RegExpr::Char('é'), RegExpr::Char('*')]));
}

#[test]
fn the_symbols_come_in_their_order_and_as_often_as_they_stand() {
    let e = parse_expr_until_end("0(1|0)*1φ").unwrap();
    assert_eq!(e.get_alphabets(), vec!['0', '1', '0', '1']);
    assert_eq!(RegExpr::Empty.get_alphabets(), Vec::<char>::new());
    assert_eq!(RegExpr::Repeat(Box::new(RegExpr::Char('x'))).get_alphabets(), vec!['x']);
}

#[test]
fn the_empty_expression_is_one_epsilon_rule() {
    let mut env = GlobalEnv::default();
    let nfa = RegExpr::Empty.to_nfa(&mut env);
    assert_eq!(nfa, Nfa { start: 1, finish: 2, rules: vec![eps(1, 2)] });
    assert_eq!(env.current, 2);
}

#[test]
fn a_symbol_is_one_rule() {
    let mut env = GlobalEnv { current: 7 };
    let nfa = RegExpr::Char('a').to_nfa(&mut env);
    assert_eq!(nfa, Nfa { start: 8, finish: 9, rules: vec![reads(8, 'a', 9)] });
    assert_eq!(env.current, 9);
}

#[test]
fn a_concatenation_chains_its_operands() {
    let mut env = GlobalEnv::default();
    let nfa = cat_char("ab").to_nfa(&mut env);
    assert_eq!(
        nfa,
        Nfa {
            start: 1,
            finish: 2,
            rules: vec![eps(1, 3), reads(3, 'a', 4), eps(4, 5), reads(5, 'b', 6), eps(6, 2)],
        }
    );
    assert_eq!(env.current, 6);
}

#[test]
fn a_concatenation_of_nothing_has_no_rule() {
    let mut env = GlobalEnv::default();
    let nfa = RegExpr::Cat(vec![]).to_nfa(&mut env);
    assert_eq!(nfa, Nfa { start: 1, finish: 2, rules: vec![] });
    assert_eq!(env.current, 2);
}

#[test]
fn an_alternation_joins_its_operands() {
    let mut env = GlobalEnv::default();
    let nfa = RegExpr::Or(vec![RegExpr::Char('a'), RegExpr::Char('b')]).to_nfa(&mut env);
    assert_eq!(
        nfa,
        Nfa {
            start: 1,
            finish: 2,
            rules: vec![
                eps(1, 3),
                eps(4, 2),
                reads(3, 'a', 4),
                eps(1, 5),
                eps(6, 2),
                reads(5, 'b', 6),
            ],
        }
    );
    assert_eq!(env.current, 6);
    let mut env = GlobalEnv::default();
    assert_eq!(RegExpr::Or(vec![]).to_nfa(&mut env), Nfa { start: 1, finish: 2, rules: vec![] });
}

#[test]
fn a_repetition_accepts_where_its_operand_does() {
    let mut env = GlobalEnv::default();
    let nfa = RegExpr::Repeat(Box::new(RegExpr::Char('a'))).to_nfa(&mut env);
    assert_eq!(
        nfa,
        Nfa { start: 1, finish: 3, rules: vec![reads(2, 'a', 3), eps(1, 3), eps(3, 2)] }
    );
    assert_eq!(env.current, 3);
}

#[test]
fn no_identifier_is_used_twice() {
    let e = parse_expr_until_end("(ab|c)*d|φ").unwrap();
    let mut env = GlobalEnv::default();
    let nfa = e.to_nfa(&mut env);
    let mut states: Vec<i32> = nfa.rules.iter().flat_map(|r| [r.from, r.to]).collect();
    states.push(nfa.start);
    states.push(nfa.finish);
    states.sort();
    states.dedup();
    assert_eq!(states, (1..=env.current).collect::<Vec<i32>>());
}

#[test]
fn states_left_counts_the_states() {
    let e = RegExpr::Repeat(Box::new(RegExpr::Char('a')));
    assert_eq!(e.states_left(3), Some(0));
    assert_eq!(e.states_left(10), Some(7));
    assert_eq!(e.states_left(2), None);
    assert_eq!(e.states_left(0), None);
    let e = parse_expr_until_end("(ab|c)*").unwrap();
    let mut env = GlobalEnv::default();
    e.to_nfa(&mut env);
    assert_eq!(e.states_left(i32::MAX), Some(i32::MAX - env.current));
    assert_eq!(e.states_left(env.current), Some(0));
    assert_eq!(e.states_left(env.current - 1), None);
    assert_eq!(RegExpr::Cat(vec![]).states_left(1), None);
    assert_eq!(RegExpr::Or(vec![]).states_left(2), Some(0));
}
