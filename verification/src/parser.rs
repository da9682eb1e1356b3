//! The text form of regular expressions.
//!
//! ```txt
//! expr    := orterm ( '|' orterm )*
//! orterm  := catterm catterm*
//! catterm := repterm '*'?
//! repterm := '(' expr ')' | the empty-string mark | a letter or a digit
//! ```
//!
//! Blanks, tabs and line ends may stand before and after every symbol of the
//! text and mean nothing.
use vstd::prelude::*;
use vstd::string::*;
use crate::collections::scalar;
use crate::language::plain_list;
use crate::regexpr::{RegExpr, RegExprView};

verus! {

/// The mark that stands for the expression that matches the empty string
/// only: the Greek letter phi.
pub const EMPTY_MARK: char = '\u{3c6}';

/// The text is no regular expression. `position` counts the characters
/// before the place where reading stopped: what follows them is the part of
/// the text that could not be read.
#[derive(Debug, Clone, Copy, PartialEq, Eq, Structural)]
pub struct ParseError {
    pub position: usize,
}

/// A blank, a tab, a carriage return or a line feed.
pub open spec fn is_space(c: char) -> bool {
    c == ' ' || c == '\t' || c == '\r' || c == '\n'
}

/// A letter or a digit of ASCII.
pub open spec fn is_symbol(c: char) -> bool {
    ('0' <= c && c <= '9') || ('a' <= c && c <= 'z') || ('A' <= c && c <= 'Z')
}

/// The first place at or after `pos` that holds no space.
pub open spec fn skip_spaces(s: Seq<char>, pos: int) -> int
    decreases s.len() - pos,
{
    if 0 <= pos < s.len() && is_space(s[pos]) {
        skip_spaces(s, pos + 1)
    } else {
        pos
    }
}

/// Skipping spaces moves forward, and not beyond the end.
pub proof fn lemma_skip_spaces(s: Seq<char>, pos: int)
    requires
        0 <= pos <= s.len(),
    ensures
        pos <= skip_spaces(s, pos) <= s.len(),
        skip_spaces(s, pos) < s.len() ==> !is_space(s[skip_spaces(s, pos)]),
        skip_spaces(s, skip_spaces(s, pos)) == skip_spaces(s, pos),
    decreases s.len() - pos,
{
    if pos < s.len() && is_space(s[pos]) {
        lemma_skip_spaces(s, pos + 1);
    }
}

/// The place after the character `c` and the spaces around it, where `c`
/// is the first character at or after `pos` that is no space.
pub open spec fn spec_token(s: Seq<char>, pos: int, c: char) -> Option<int> {
    let p = skip_spaces(s, pos);
    if 0 <= p < s.len() && s[p] == c {
        Some(skip_spaces(s, p + 1))
    } else {
        None
    }
}

/// What was read from the text `s` at `pos`, if it was read from more than
/// nothing.
pub open spec fn progress(
    read: Option<(RegExprView, int)>,
    s: Seq<char>,
    pos: int,
) -> Option<(RegExprView, int)> {
    match read {
        Some((e, p)) => if 0 <= pos < p <= s.len() {
            read
        } else {
            None
        },
        None => None,
    }
}

/// `repterm`: an expression in brackets, the empty-string mark, or a
/// symbol.
pub open spec fn spec_repterm(s: Seq<char>, pos: int) -> Option<(RegExprView, int)>
    decreases s.len() - pos, 0int,
{
    if 0 <= pos <= s.len() {
        let p = skip_spaces(s, pos);
        proof {
            lemma_skip_spaces(s, pos);
        }
        if p >= s.len() {
            None
        } else if s[p] == '(' {
            match spec_expr(s, p + 1) {
                Some((e, q)) => match spec_token(s, q, ')') {
                    Some(end) => Some((e, end)),
                    None => None,
                },
                None => None,
            }
        } else if s[p] == EMPTY_MARK {
            Some((RegExprView::Empty, skip_spaces(s, p + 1)))
        } else if is_symbol(s[p]) {
            Some((RegExprView::Char(s[p]), skip_spaces(s, p + 1)))
        } else {
            None
        }
    } else {
        None
    }
}

/// `catterm`: a `repterm`, repeated where a star follows it.
pub open spec fn spec_catterm(s: Seq<char>, pos: int) -> Option<(RegExprView, int)>
    decreases s.len() - pos, 1int,
{
    match spec_repterm(s, pos) {
        Some((e, p)) => match spec_token(s, p, '*') {
            Some(end) => Some((RegExprView::Repeat(Box::new(e)), end)),
            None => Some((e, p)),
        },
        None => None,
    }
}

/// As many `catterm`s as can be read, one after the other.
pub open spec fn spec_catterms(s: Seq<char>, pos: int) -> (Seq<RegExprView>, int)
    decreases s.len() - pos, 2int,
{
    match progress(spec_catterm(s, pos), s, pos) {
        Some((e, p)) => {
            let (rest, end) = spec_catterms(s, p);
            (seq![e] + rest, end)
        },
        None => (Seq::empty(), pos),
    }
}

/// `orterm`: one `catterm` or more, concatenated.
pub open spec fn spec_orterm(s: Seq<char>, pos: int) -> Option<(RegExprView, int)>
    decreases s.len() - pos, 3int,
{
    match progress(spec_catterm(s, pos), s, pos) {
        Some((e, p)) => {
            let (rest, end) = spec_catterms(s, p);
            Some((RegExprView::Cat(seq![e] + rest), end))
        },
        None => None,
    }
}

/// As many `orterm`s as can be read, each behind a bar.
pub open spec fn spec_orterms(s: Seq<char>, pos: int) -> (Seq<RegExprView>, int)
    decreases s.len() - pos, 4int,
{
    if 0 <= pos <= s.len() {
        match spec_token(s, pos, '|') {
            Some(p) => {
                proof {
                    lemma_skip_spaces(s, pos);
                    lemma_skip_spaces(s, skip_spaces(s, pos) + 1);
                }
                match progress(spec_orterm(s, p), s, pos) {
                    Some((e, q)) => {
                        let (rest, end) = spec_orterms(s, q);
                        (seq![e] + rest, end)
                    },
                    None => (Seq::empty(), pos),
                }
            },
            None => (Seq::empty(), pos),
        }
    } else {
        (Seq::empty(), pos)
    }
}

/// `expr`: one `orterm` or more, as alternatives.
pub open spec fn spec_expr(s: Seq<char>, pos: int) -> Option<(RegExprView, int)>
    decreases s.len() - pos, 5int,
{
    match progress(spec_orterm(s, pos), s, pos) {
        Some((e, p)) => {
            let (rest, end) = spec_orterms(s, p);
            Some((RegExprView::Or(seq![e] + rest), end))
        },
        None => None,
    }
}

/// The expression that the whole text stands for. Where no expression can
/// be read, the error shows the first character that is no space; where
/// one was read and text is left, it shows the text that is left.
pub open spec fn spec_parse(s: Seq<char>) -> Result<RegExprView, ParseError> {
    match spec_expr(s, 0) {
        Some((e, end)) => if end == s.len() {
            Ok(e)
        } else {
            Err(ParseError { position: end as usize })
        },
        None => Err(ParseError { position: skip_spaces(s, 0) as usize }),
    }
}

/// A list whose expressions are all without the epsilon label is without
/// it.
pub proof fn lemma_all_plain(v: Seq<RegExprView>, n: int)
    requires
        0 <= n <= v.len(),
        forall|i: int| 0 <= i < v.len() ==> (#[trigger] v[i]).plain(),
    ensures
        plain_list(v, n),
    decreases n,
{
    if n > 0 {
        lemma_all_plain(v, n - 1);
    }
}

/// The grammar reads no expression with the epsilon label at a `repterm`.
pub proof fn lemma_repterm_plain(s: Seq<char>, pos: int)
    ensures
        spec_repterm(s, pos) matches Some((e, _)) ==> e.plain(),
    decreases s.len() - pos, 0int,
{
    if 0 <= pos <= s.len() {
        lemma_skip_spaces(s, pos);
        let p = skip_spaces(s, pos);
        if p < s.len() && s[p] == '(' {
            lemma_expr_plain(s, p + 1);
        }
    }
}

/// The grammar reads no expression with the epsilon label at a `catterm`.
pub proof fn lemma_catterm_plain(s: Seq<char>, pos: int)
    ensures
        spec_catterm(s, pos) matches Some((e, _)) ==> e.plain(),
    decreases s.len() - pos, 1int,
{
    lemma_repterm_plain(s, pos);
}

/// The grammar reads no expression with the epsilon label among
/// `catterm`s.
pub proof fn lemma_catterms_plain(s: Seq<char>, pos: int)
    ensures
        forall|i: int|
            0 <= i < spec_catterms(s, pos).0.len() ==> (#[trigger] spec_catterms(s, pos).0[i]).plain(),
    decreases s.len() - pos, 2int,
{
    lemma_catterm_plain(s, pos);
    if let Some((e, p)) = progress(spec_catterm(s, pos), s, pos) {
        lemma_catterms_plain(s, p);
        let rest = spec_catterms(s, p).0;
        assert forall|i: int| 0 <= i < (seq![e] + rest).len() implies (#[trigger] (seq![e]
            + rest)[i]).plain() by {
            if i > 0 {
                assert((seq![e] + rest)[i] == rest[i - 1]);
            }
        }
    }
}

/// The grammar reads no expression with the epsilon label at an `orterm`.
pub proof fn lemma_orterm_plain(s: Seq<char>, pos: int)
    ensures
        spec_orterm(s, pos) matches Some((e, _)) ==> e.plain(),
    decreases s.len() - pos, 3int,
{
    lemma_catterm_plain(s, pos);
    if let Some((e, p)) = progress(spec_catterm(s, pos), s, pos) {
        lemma_catterms_plain(s, p);
        let rest = spec_catterms(s, p).0;
        let all = seq![e] + rest;
        assert forall|i: int| 0 <= i < all.len() implies (#[trigger] all[i]).plain() by {
            if i > 0 {
                assert(all[i] == rest[i - 1]);
            }
        }
        lemma_all_plain(all, all.len() as int);
    }
}

/// The grammar reads no expression with the epsilon label among
/// `orterm`s.
pub proof fn lemma_orterms_plain(s: Seq<char>, pos: int)
    ensures
        forall|i: int|
            0 <= i < spec_orterms(s, pos).0.len() ==> (#[trigger] spec_orterms(s, pos).0[i]).plain(),
    decreases s.len() - pos, 4int,
{
    if 0 <= pos <= s.len() {
        if let Some(p) = spec_token(s, pos, '|') {
            lemma_skip_spaces(s, pos);
            lemma_skip_spaces(s, skip_spaces(s, pos) + 1);
            lemma_orterm_plain(s, p);
            if let Some((e, q)) = progress(spec_orterm(s, p), s, pos) {
                lemma_orterms_plain(s, q);
                let rest = spec_orterms(s, q).0;
                assert forall|i: int| 0 <= i < (seq![e] + rest).len() implies (#[trigger] (seq![e]
                    + rest)[i]).plain() by {
                    if i > 0 {
                        assert((seq![e] + rest)[i] == rest[i - 1]);
                    }
                }
            }
        }
    }
}

/// The grammar reads no expression with the epsilon label: its symbols
/// are letters and digits.
pub proof fn lemma_expr_plain(s: Seq<char>, pos: int)
    ensures
        spec_expr(s, pos) matches Some((e, _)) ==> e.plain(),
    decreases s.len() - pos, 5int,
{
    lemma_orterm_plain(s, pos);
    if let Some((e, p)) = progress(spec_orterm(s, pos), s, pos) {
        lemma_orterms_plain(s, p);
        let rest = spec_orterms(s, p).0;
        let all = seq![e] + rest;
        assert forall|i: int| 0 <= i < all.len() implies (#[trigger] all[i]).plain() by {
            if i > 0 {
                assert(all[i] == rest[i - 1]);
            }
        }
        lemma_all_plain(all, all.len() as int);
    }
}

/// What was read is what the grammar reads.
pub open spec fn read_as(read: Option<(RegExpr, usize)>, by_grammar: Option<(RegExprView, int)>) -> bool {
    match read {
        Some((e, p)) => by_grammar == Some((e@, p as int)),
        None => by_grammar is None,
    }
}

/// The views of the expressions of a list.
pub open spec fn views(items: Seq<RegExpr>) -> Seq<RegExprView> {
    Seq::new(items.len(), |i: int| items[i]@)
}

/// The characters of a text.
fn characters(input: &str) -> (chars: Vec<char>)
    ensures
        chars@ == input@,
{
    let mut chars: Vec<char> = Vec::new();
    for c in it: input.chars()
        invariant
            it.seq() == input@,
            chars@ == it.seq().take(it.index()),
            it.index() == it.seq().len() ==> chars@ == input@,
    {
        chars.push(c);
        proof {
            assert(it.seq().take(it.index() + 1) =~= it.seq().take(it.index()).push(c));
            assert(it.index() + 1 == it.seq().len() ==> it.seq().take(it.index() + 1)
                =~= it.seq());
        }
    }
    chars
}

/// Whether the character is a space.
fn space(c: char) -> (b: bool)
    ensures
        b == is_space(c),
{
    c == ' ' || c == '\t' || c == '\r' || c == '\n'
}

/// Whether the character is a letter or a digit of ASCII.
fn symbol(c: char) -> (b: bool)
    ensures
        b == is_symbol(c),
{
    (c >= '0' && c <= '9') || (c >= 'a' && c <= 'z') || (c >= 'A' && c <= 'Z')
}

/// The first place at or after `pos` that holds no space.
fn skip(chars: &Vec<char>, pos: usize) -> (p: usize)
    requires
        pos <= chars.len(),
    ensures
        p == skip_spaces(chars@, pos as int),
        pos <= p <= chars.len(),
{
    let mut p = pos;
    while p < chars.len() && space(chars[p])
        invariant
            pos <= p <= chars.len(),
            skip_spaces(chars@, pos as int) == skip_spaces(chars@, p as int),
        decreases chars.len() - p,
    {
        p += 1;
    }
    p
}

/// Reads the character `c` and the spaces around it.
fn token(chars: &Vec<char>, pos: usize, c: char) -> (end: Option<usize>)
    requires
        pos <= chars.len(),
    ensures
        match end {
            Some(p) => spec_token(chars@, pos as int, c) == Some(p as int) && pos < p
                <= chars.len(),
            None => spec_token(chars@, pos as int, c) is None,
        },
{
    let p = skip(chars, pos);
    if p < chars.len() && chars[p] == c {
        Some(skip(chars, p + 1))
    } else {
        None
    }
}

/// Reads a `repterm`.
fn parse_repterm(chars: &Vec<char>, pos: usize) -> (read: Option<(RegExpr, usize)>)
    requires
        pos <= chars.len(),
    ensures
        read_as(read, spec_repterm(chars@, pos as int)),
        read matches Some((_, p)) ==> pos < p <= chars.len(),
    decreases chars.len() - pos, 0int,
{
    let p = skip(chars, pos);
    if p >= chars.len() {
        return None;
    }
    let c = scalar(chars[p]);
    if c == '(' {
        match parse_expr_at(chars, p + 1) {
            Some((e, q)) => match token(chars, q, ')') {
                Some(end) => Some((e, end)),
                None => None,
            },
            None => None,
        }
    } else if c == EMPTY_MARK {
        Some((RegExpr::Empty, skip(chars, p + 1)))
    } else if symbol(c) {
        Some((RegExpr::Char(c), skip(chars, p + 1)))
    } else {
        None
    }
}

/// Reads a `catterm`.
fn parse_catterm(chars: &Vec<char>, pos: usize) -> (read: Option<(RegExpr, usize)>)
    requires
        pos <= chars.len(),
    ensures
        read_as(read, spec_catterm(chars@, pos as int)),
        read_as(read, progress(spec_catterm(chars@, pos as int), chars@, pos as int)),
        read matches Some((_, p)) ==> pos < p <= chars.len(),
    decreases chars.len() - pos, 1int,
{
    match parse_repterm(chars, pos) {
        Some((e, p)) => match token(chars, p, '*') {
            Some(end) => Some((RegExpr::Repeat(Box::new(e)), end)),
            None => Some((e, p)),
        },
        None => None,
    }
}

/// Reads an `orterm`.
fn parse_orterm(chars: &Vec<char>, pos: usize) -> (read: Option<(RegExpr, usize)>)
    requires
        pos <= chars.len(),
    ensures
        read_as(read, spec_orterm(chars@, pos as int)),
        read matches Some((_, p)) ==> pos < p <= chars.len(),
    decreases chars.len() - pos, 3int,
{
    match parse_catterm(chars, pos) {
        Some((first, p)) => {
            let ghost head = first@;
            let mut items: Vec<RegExpr> = Vec::new();
            items.push(first);
            let mut cur = p;
            let mut going = true;
            while going
                invariant
                    pos < p <= cur <= chars.len(),
                    items@.len() >= 1,
                    items@[0]@ == head,
                    spec_catterms(chars@, p as int) == (
                        views(items@).drop_first() + spec_catterms(chars@, cur as int).0,
                        spec_catterms(chars@, cur as int).1,
                    ),
                    !going ==> spec_catterms(chars@, cur as int) == (
                        Seq::<RegExprView>::empty(),
                        cur as int,
                    ),
                decreases
                        (if going {
                            chars.len() - cur + 1
                        } else {
                            0
                        }),
            {
                match parse_catterm(chars, cur) {
                    Some((e, q)) => {
                        let ghost before = views(items@);
                        let ghost view = e@;
                        items.push(e);
                        proof {
                            let rest = spec_catterms(chars@, q as int);
                            assert(views(items@) =~= before.push(view));
                            assert(views(items@).drop_first() + rest.0 =~= before.drop_first()
                                + (seq![view] + rest.0));
                        }
                        cur = q;
                    },
                    None => {
                        going = false;
                    },
                }
            }
            proof {
                let all = views(items@);
                assert(all.drop_first() + Seq::<RegExprView>::empty() =~= all.drop_first());
                assert(seq![head] + all.drop_first() =~= all);
                assert(RegExpr::Cat(items)@ == RegExprView::Cat(all)) by {
                    assert(RegExpr::Cat(items)@->Cat_0 =~= all);
                }
            }
            Some((RegExpr::Cat(items), cur))
        },
        None => None,
    }
}

/// Reads an `expr`.
fn parse_expr_at(chars: &Vec<char>, pos: usize) -> (read: Option<(RegExpr, usize)>)
    requires
        pos <= chars.len(),
    ensures
        read_as(read, spec_expr(chars@, pos as int)),
        read matches Some((_, p)) ==> pos < p <= chars.len(),
    decreases chars.len() - pos, 5int,
{
    match parse_orterm(chars, pos) {
        Some((first, p)) => {
            let ghost head = first@;
            let mut items: Vec<RegExpr> = Vec::new();
            items.push(first);
            let mut cur = p;
            let mut going = true;
            while going
                invariant
                    pos < p <= cur <= chars.len(),
                    items@.len() >= 1,
                    items@[0]@ == head,
                    spec_orterms(chars@, p as int) == (
                        views(items@).drop_first() + spec_orterms(chars@, cur as int).0,
                        spec_orterms(chars@, cur as int).1,
                    ),
                    !going ==> spec_orterms(chars@, cur as int) == (
                        Seq::<RegExprView>::empty(),
                        cur as int,
                    ),
                decreases
                        (if going {
                            chars.len() - cur + 1
                        } else {
                            0
                        }),
            {
                let next = match token(chars, cur, '|') {
                    Some(bar) => parse_orterm(chars, bar),
                    None => None,
                };
                match next {
                    Some((e, q)) => {
                        let ghost before = views(items@);
                        let ghost view = e@;
                        items.push(e);
                        proof {
                            let rest = spec_orterms(chars@, q as int);
                            assert(views(items@) =~= before.push(view));
                            assert(views(items@).drop_first() + rest.0 =~= before.drop_first()
                                + (seq![view] + rest.0));
                        }
                        cur = q;
                    },
                    None => {
                        going = false;
                    },
                }
            }
            proof {
                let all = views(items@);
                assert(all.drop_first() + Seq::<RegExprView>::empty() =~= all.drop_first());
                assert(seq![head] + all.drop_first() =~= all);
                assert(RegExpr::Or(items)@ == RegExprView::Or(all)) by {
                    assert(RegExpr::Or(items)@->Or_0 =~= all);
                }
            }
            Some((RegExpr::Or(items), cur))
        },
        None => None,
    }
}

/// Reads an expression from the start of the text. Gives the expression
/// and the text that is left behind it.
pub fn parse_expr(input: &str) -> (r: Result<(&str, RegExpr), ParseError>)
    ensures
        match r {
            Ok((rest, e)) => exists|end: int|
                0 <= end <= input@.len() && #[trigger] spec_expr(input@, 0) == Some((e@, end))
                    && rest@ == input@.subrange(end, input@.len() as int),
            Err(e) => spec_expr(input@, 0) is None && e.position == skip_spaces(input@, 0),
        },
{
    let chars = characters(input);
    match parse_expr_at(&chars, 0) {
        Some((e, end)) => {
            let rest = input.substring_char(end, chars.len());
            Ok((rest, e))
        },
        None => Err(ParseError { position: skip(&chars, 0) }),
    }
}

/// Reads the whole text as one expression.
pub fn parse_expr_until_end(input: &str) -> (r: Result<RegExpr, ParseError>)
    ensures
        match r {
            Ok(e) => spec_parse(input@) == Ok::<RegExprView, ParseError>(e@),
            Err(e) => spec_parse(input@) == Err::<RegExprView, ParseError>(e),
        },
{
    let chars = characters(input);
    match parse_expr_at(&chars, 0) {
        Some((e, end)) => {
            if end == chars.len() {
                Ok(e)
            } else {
                Err(ParseError { position: end })
            }
        },
        None => Err(ParseError { position: skip(&chars, 0) }),
    }
}

} // verus!
