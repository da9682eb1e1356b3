use regend::parser::{parse_expr, parse_expr_until_end, ParseError, EMPTY_MARK};
use regend::regexpr::RegExpr;

fn symbol(c: char) -> RegExpr {
    RegExpr::Char(c)
}

#[test]
fn one_symbol_is_an_alternative_of_a_concatenation() {
    assert_eq!(parse_expr_until_end("a"), Ok(RegExpr::Or(vec![RegExpr::Cat(vec![symbol('a')])])));
}

#[test]
fn concatenation_binds_tighter_than_alternation_and_the_star_tightest() {
    assert_eq!(
        parse_expr_until_end("ab|c*"),
        Ok(RegExpr::Or(vec![
            RegExpr::Cat(vec![symbol('a'), symbol('b')]),
            RegExpr::Cat(vec![RegExpr::Repeat(Box::new(symbol('c')))]),
        ]))
    );
}

#[test]
fn brackets_hold_an_expression() {
    assert_eq!(
        parse_expr_until_end("(a|b)*c"),
        Ok(RegExpr::Or(vec![RegExpr::Cat(vec![
            RegExpr::Repeat(Box::new(RegExpr::Or(vec![
                RegExpr::Cat(vec![symbol('a')]),
                RegExpr::Cat(vec![symbol('b')]),
            ]))),
            symbol('c'),
        ])]))
    );
}

#[test]
fn spaces_mean_nothing() {
    let plain = parse_expr_until_end("(a|b)*c").unwrap();
    assert_eq!(parse_expr_until_end(" ( a\t|\nb ) *\r\n c  "), Ok(plain));
}

#[test]
fn the_empty_string_mark_is_an_expression() {
    assert_eq!(EMPTY_MARK, 'φ');
    assert_eq!(
        parse_expr_until_end("φ|a"),
        Ok(RegExpr::Or(vec![
            RegExpr::Cat(vec![RegExpr::Empty]),
            RegExpr::Cat(vec![symbol('a')]),
        ]))
    );
}

#[test]
fn every_letter_and_digit_of_ascii_is_a_symbol() {
    for c in ('0'..='9').chain('a'..='z').chain('A'..='Z') {
        let text = c.to_string();
        assert_eq!(
            parse_expr_until_end(&text),
            Ok(RegExpr::Or(vec![RegExpr::Cat(vec![symbol(c)])]))
        );
    }
    for text in ["_", "-", "é", "ε", "+", "?", "."] {
        assert_eq!(parse_expr_until_end(text), Err(ParseError { position: 0 }));
    }
}

#[test]
fn an_error_shows_where_reading_stopped() {
    assert_eq!(parse_expr_until_end(""), Err(ParseError { position: 0 }));
    assert_eq!(parse_expr_until_end("   "), Err(ParseError { position: 3 }));
    assert_eq!(parse_expr_until_end(" |a"), Err(ParseError { position: 1 }));
    assert_eq!(parse_expr_until_end("a|"), Err(ParseError { position: 1 }));
    assert_eq!(parse_expr_until_end("a |b| "), Err(ParseError { position: 4 }));
    assert_eq!(parse_expr_until_end("ab)"), Err(ParseError { position: 2 }));
    assert_eq!(parse_expr_until_end("a**"), Err(ParseError { position: 2 }));
    assert_eq!(parse_expr_until_end("(a"), Err(ParseError { position: 0 }));
    assert_eq!(parse_expr_until_end("a(b"), Err(ParseError { position: 1 }));
    assert_eq!(parse_expr_until_end("()"), Err(ParseError { position: 0 }));
    assert_eq!(parse_expr_until_end("φφ é"), Err(ParseError { position: 3 }));
}

#[test]
fn an_expression_at_the_start_leaves_the_rest() {
    let (rest, e) = parse_expr("ab)c").unwrap();
    assert_eq!(rest, ")c");
    assert_eq!(e, RegExpr::Or(vec![RegExpr::Cat(vec![symbol('a'), symbol('b')])]));
    let (rest, _) = parse_expr("φ  é!").unwrap();
    assert_eq!(rest, "é!");
    let (rest, _) = parse_expr("a|b").unwrap();
    assert_eq!(rest, "");
    assert_eq!(parse_expr("  *").err(), Some(ParseError { position: 2 }));
}
