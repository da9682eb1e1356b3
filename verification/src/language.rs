//! The words that an expression matches, and the proof that the automaton
//! built for it accepts exactly those.
use vstd::prelude::*;
use crate::nfa::{rule_in, NfaView, Rule, State, EPSILON};
use crate::regexpr::{
    cat_rules, eps_rule, list_alphabets, list_state_count, or_rules, RegExprView,
};
use crate::subset::word_over;

verus! {

/// `w` is made of parts that the first `n` expressions of `v` match, one
/// after the other.
pub open spec fn matches_list(v: Seq<RegExprView>, n: int, w: Seq<char>) -> bool
    decreases v, n,
{
    if 0 < n <= v.len() {
        exists|k: int|
            0 <= k <= w.len() && matches_list(v, n - 1, #[trigger] w.take(k)) && v[n - 1].matches(
                w.skip(k),
            )
    } else {
        w.len() == 0
    }
}

/// No symbol of the first `n` expressions of `v` is the epsilon label.
pub open spec fn plain_list(v: Seq<RegExprView>, n: int) -> bool
    decreases v, n,
{
    if 0 < n <= v.len() {
        plain_list(v, n - 1) && v[n - 1].plain()
    } else {
        true
    }
}

/// No symbol of the word is the epsilon label.
pub open spec fn plain_word(w: Seq<char>) -> bool {
    forall|i: int| 0 <= i < w.len() ==> #[trigger] w[i] != EPSILON
}

/// The word with the label of a rule read behind it: nothing more where
/// the label is epsilon.
pub open spec fn read(w: Seq<char>, label: char) -> Seq<char> {
    if label == EPSILON {
        w
    } else {
        w.push(label)
    }
}

impl RegExprView {
    /// The expression matches the word. A concatenation of nothing matches
    /// no word, and so does an alternation of nothing.
    pub open spec fn matches(self, w: Seq<char>) -> bool
        decreases self, w.len(),
    {
        match self {
            RegExprView::Empty => w.len() == 0,
            RegExprView::Char(c) => w.len() == 1 && w[0] == c,
            RegExprView::Cat(v) => v.len() > 0 && matches_list(v, v.len() as int, w),
            RegExprView::Or(v) => exists|i: int| 0 <= i < v.len() && (#[trigger] v[i]).matches(w),
            RegExprView::Repeat(r) => w.len() == 0 || exists|k: int|
                0 < k <= w.len() && r.matches(#[trigger] w.take(k)) && self.matches(w.skip(k)),
        }
    }

    /// No symbol of the expression is the epsilon label.
    pub open spec fn plain(self) -> bool
        decreases self, 0int,
    {
        match self {
            RegExprView::Empty => true,
            RegExprView::Char(c) => c != EPSILON,
            RegExprView::Cat(v) => plain_list(v, v.len() as int),
            RegExprView::Or(v) => plain_list(v, v.len() as int),
            RegExprView::Repeat(r) => r.plain(),
        }
    }

    /// The word `w` can lead the automaton of the expression, built when
    /// `base` was the last identifier issued, from its start to the state
    /// `x`: said by the parts of the expression, not by the rules.
    pub open spec fn leads_to(self, base: int, x: State, w: Seq<char>) -> bool
        decreases self,
    {
        match self {
            RegExprView::Empty => (x == base + 1 || x == base + 2) && w.len() == 0,
            RegExprView::Char(c) => (x == base + 1 && w.len() == 0) || (x == base + 2 && w.len()
                == 1 && w[0] == c),
            RegExprView::Cat(v) => (x == base + 1 && w.len() == 0) || (x == base + 2 && v.len() > 0
                && matches_list(v, v.len() as int, w)) || exists|i: int, k: int|
                0 <= i < v.len() && 0 <= k <= w.len() && matches_list(v, i, #[trigger] w.take(k))
                    && (#[trigger] v[i]).leads_to(
                    base + 2 + list_state_count(v, i),
                    x,
                    w.skip(k),
                ),
            RegExprView::Or(v) => (x == base + 1 && w.len() == 0) || (x == base + 2
                && self.matches(w)) || exists|i: int|
                0 <= i < v.len() && (#[trigger] v[i]).leads_to(
                    base + 2 + list_state_count(v, i),
                    x,
                    w,
                ),
            RegExprView::Repeat(r) => (x == base + 1 && w.len() == 0) || (x == r.nfa_finish(
                base + 1,
            ) && self.matches(w)) || exists|k: int|
                0 <= k <= w.len() && self.matches(#[trigger] w.take(k)) && r.leads_to(
                    base + 1,
                    x,
                    w.skip(k),
                ),
        }
    }
}

/// The rules of two lists put together are those of the one list and those
/// of the other.
pub proof fn lemma_rule_in_concat(a: Seq<Rule>, b: Seq<Rule>, p: State, c: char, q: State)
    ensures
        rule_in(a + b, p, c, q) == (rule_in(a, p, c, q) || rule_in(b, p, c, q)),
{
    let ab = a + b;
    if rule_in(a, p, c, q) {
        let k = choose|k: int|
            0 <= k < a.len() && (#[trigger] a[k]).from == p && a[k].alphabet == c && a[k].to == q;
        assert(ab[k].from == p);
    }
    if rule_in(b, p, c, q) {
        let k = choose|k: int|
            0 <= k < b.len() && (#[trigger] b[k]).from == p && b[k].alphabet == c && b[k].to == q;
        assert(ab[a.len() + k].from == p);
    }
    if rule_in(ab, p, c, q) {
        let k = choose|k: int|
            0 <= k < ab.len() && (#[trigger] ab[k]).from == p && ab[k].alphabet == c && ab[k].to
                == q;
        if k < a.len() {
            assert(a[k].from == p);
        } else {
            assert(b[k - a.len()].from == p);
        }
    }
}

/// A list of one rule holds that rule only.
pub proof fn lemma_rule_in_one(r: Rule, p: State, c: char, q: State)
    ensures
        rule_in(seq![r], p, c, q) == (r.from == p && r.alphabet == c && r.to == q),
{
    let one = seq![r];
    if r.from == p && r.alphabet == c && r.to == q {
        assert(one[0].from == p);
    }
}

/// A list of no rule holds none.
pub proof fn lemma_rule_in_none(p: State, c: char, q: State)
    ensures
        !rule_in(Seq::<Rule>::empty(), p, c, q),
{
}

/// The identifiers from `base + 1` to `base` and the number of states of
/// the expression are identifiers.
pub open spec fn fits(e: RegExprView, base: int) -> bool {
    i32::MIN <= base && base + e.state_count() <= i32::MAX
}

/// The last identifier issued before the automaton of operand `i` is
/// built.
pub open spec fn offset(v: Seq<RegExprView>, base: int, i: int) -> int {
    base + 2 + list_state_count(v, i)
}

/// The operands of an expression that fits fit where they are built, one
/// behind the other.
pub proof fn lemma_operand_fits(v: Seq<RegExprView>, base: int, i: int)
    requires
        i32::MIN <= base,
        base + 2 + list_state_count(v, v.len() as int) <= i32::MAX,
        0 <= i < v.len(),
    ensures
        fits(v[i], offset(v, base, i)),
        offset(v, base, i + 1) == offset(v, base, i) + v[i].state_count(),
        base + 2 <= offset(v, base, i),
        offset(v, base, i + 1) <= base + 2 + list_state_count(v, v.len() as int),
        v[i].state_count() >= 1,
{
    crate::regexpr::lemma_list_state_count_nonnegative(v, i);
    crate::regexpr::lemma_list_state_count_monotonic(v, i + 1, v.len() as int);
    v[i].lemma_state_count_positive();
}

/// Operands that are built later are built after more identifiers.
pub proof fn lemma_offsets_ordered(v: Seq<RegExprView>, base: int, i: int, j: int)
    requires
        0 <= i <= j <= v.len(),
    ensures
        offset(v, base, i) <= offset(v, base, j),
{
    crate::regexpr::lemma_list_state_count_monotonic(v, i, j);
}

/// The rule from `p` to `q` with the label `c` is the link into operand `k`
/// of a concatenation: from the start of the concatenation into the first
/// operand, and from the accepting state of each operand into the next.
pub open spec fn cat_link(v: Seq<RegExprView>, base: int, k: int, p: State, c: char, q: State) -> bool {
    &&& c == EPSILON
    &&& q == offset(v, base, k) + 1
    &&& p == if k == 0 {
        base + 1
    } else {
        v[k - 1].nfa_finish(offset(v, base, k - 1))
    }
}

/// The rule is the link into operand `k` of a concatenation, or a rule of
/// that operand.
pub open spec fn cat_rule_at(
    v: Seq<RegExprView>,
    base: int,
    k: int,
    p: State,
    c: char,
    q: State,
) -> bool {
    cat_link(v, base, k, p, c, q) || rule_in(v[k].nfa_rules(offset(v, base, k)), p, c, q)
}

/// The rule is one of the two links of operand `k` of an alternation: from
/// the start of the alternation into the operand, or from the accepting
/// state of the operand to that of the alternation.
pub open spec fn or_link(v: Seq<RegExprView>, base: int, k: int, p: State, c: char, q: State) -> bool {
    &&& c == EPSILON
    &&& (p == base + 1 && q == offset(v, base, k) + 1) || (p == v[k].nfa_finish(
        offset(v, base, k),
    ) && q == base + 2)
}

/// The rule is one of the links of operand `k` of an alternation, or a
/// rule of that operand.
pub open spec fn or_rule_at(
    v: Seq<RegExprView>,
    base: int,
    k: int,
    p: State,
    c: char,
    q: State,
) -> bool {
    or_link(v, base, k, p, c, q) || rule_in(v[k].nfa_rules(offset(v, base, k)), p, c, q)
}

impl RegExprView {
    /// The accepting state of the automaton is one of its states, and not
    /// its start.
    pub proof fn lemma_finish_range(self, base: int)
        ensures
            base + 1 < self.nfa_finish(base) <= base + self.state_count(),
        decreases self,
    {
        match self {
            RegExprView::Repeat(r) => {
                r.lemma_finish_range(base + 1);
            },
            RegExprView::Cat(v) => {
                crate::regexpr::lemma_list_state_count_nonnegative(v, v.len() as int);
            },
            RegExprView::Or(v) => {
                crate::regexpr::lemma_list_state_count_nonnegative(v, v.len() as int);
            },
            _ => {},
        }
    }
}

/// The rules that chain the first `n` operands of a concatenation are the
/// links into them and their own rules.
pub proof fn lemma_cat_rules(
    v: Seq<RegExprView>,
    base: int,
    n: int,
    p: State,
    c: char,
    q: State,
)
    requires
        0 <= n <= v.len(),
        i32::MIN <= base,
        base + 2 + list_state_count(v, v.len() as int) <= i32::MAX,
    ensures
        rule_in(cat_rules(v, base, n), p, c, q) <==> exists|k: int|
            0 <= k < n && #[trigger] cat_rule_at(v, base, k, p, c, q),
    decreases n,
{
    if n > 0 {
        lemma_cat_rules(v, base, n - 1, p, c, q);
        let b = offset(v, base, n - 1);
        let from = if n == 1 {
            base + 1
        } else {
            v[n - 2].nfa_finish(offset(v, base, n - 2))
        };
        let link = eps_rule(from, v[n - 1].nfa_start(b));
        let earlier = cat_rules(v, base, n - 1);
        let inner = v[n - 1].nfa_rules(b);
        lemma_rule_in_concat(earlier + seq![link], inner, p, c, q);
        lemma_rule_in_concat(earlier, seq![link], p, c, q);
        lemma_rule_in_one(link, p, c, q);
        lemma_operand_fits(v, base, n - 1);
        if n > 1 {
            lemma_operand_fits(v, base, n - 2);
            v[n - 2].lemma_finish_range(offset(v, base, n - 2));
        }
        assert(cat_rule_at(v, base, n - 1, p, c, q) == (rule_in(seq![link], p, c, q) || rule_in(
            inner,
            p,
            c,
            q,
        )));
        if rule_in(cat_rules(v, base, n), p, c, q) {
            if rule_in(earlier, p, c, q) {
                let k = choose|k: int| 0 <= k < n - 1 && #[trigger] cat_rule_at(v, base, k, p, c, q);
                assert(cat_rule_at(v, base, k, p, c, q));
            } else {
                assert(cat_rule_at(v, base, n - 1, p, c, q));
            }
        }
        if exists|k: int| 0 <= k < n && #[trigger] cat_rule_at(v, base, k, p, c, q) {
            let k = choose|k: int| 0 <= k < n && #[trigger] cat_rule_at(v, base, k, p, c, q);
            if k < n - 1 {
                assert(rule_in(earlier, p, c, q));
            }
        }
    }
}

/// The rules that join the first `n` operands of an alternation are their
/// links and their own rules.
pub proof fn lemma_or_rules(v: Seq<RegExprView>, base: int, n: int, p: State, c: char, q: State)
    requires
        0 <= n <= v.len(),
        i32::MIN <= base,
        base + 2 + list_state_count(v, v.len() as int) <= i32::MAX,
    ensures
        rule_in(or_rules(v, base, n), p, c, q) <==> exists|k: int|
            0 <= k < n && #[trigger] or_rule_at(v, base, k, p, c, q),
    decreases n,
{
    if n > 0 {
        lemma_or_rules(v, base, n - 1, p, c, q);
        let b = offset(v, base, n - 1);
        let into = eps_rule(base + 1, v[n - 1].nfa_start(b));
        let out = eps_rule(v[n - 1].nfa_finish(b), base + 2);
        let earlier = or_rules(v, base, n - 1);
        let inner = v[n - 1].nfa_rules(b);
        lemma_rule_in_concat(earlier + seq![into, out], inner, p, c, q);
        lemma_rule_in_concat(earlier, seq![into, out], p, c, q);
        assert(seq![into, out] =~= seq![into] + seq![out]);
        lemma_rule_in_concat(seq![into], seq![out], p, c, q);
        lemma_rule_in_one(into, p, c, q);
        lemma_rule_in_one(out, p, c, q);
        lemma_operand_fits(v, base, n - 1);
        v[n - 1].lemma_finish_range(b);
        assert(or_rule_at(v, base, n - 1, p, c, q) == (rule_in(seq![into, out], p, c, q)
            || rule_in(inner, p, c, q)));
        if rule_in(or_rules(v, base, n), p, c, q) {
            if rule_in(earlier, p, c, q) {
                let k = choose|k: int| 0 <= k < n - 1 && #[trigger] or_rule_at(v, base, k, p, c, q);
                assert(or_rule_at(v, base, k, p, c, q));
            } else {
                assert(or_rule_at(v, base, n - 1, p, c, q));
            }
        }
        if exists|k: int| 0 <= k < n && #[trigger] or_rule_at(v, base, k, p, c, q) {
            let k = choose|k: int| 0 <= k < n && #[trigger] or_rule_at(v, base, k, p, c, q);
            if k < n - 1 {
                assert(rule_in(earlier, p, c, q));
            }
        }
    }
}

impl RegExprView {
    /// Every rule of the automaton joins two of its states, and none leads
    /// to its start.
    pub proof fn lemma_rule_range(self, base: int, p: State, c: char, q: State)
        requires
            fits(self, base),
            rule_in(self.nfa_rules(base), p, c, q),
        ensures
            base < p <= base + self.state_count(),
            base + 1 < q <= base + self.state_count(),
        decreases self,
    {
        match self {
            RegExprView::Empty => {
                lemma_rule_in_one(eps_rule(base + 1, base + 2), p, c, q);
            },
            RegExprView::Char(a) => {
                lemma_rule_in_one(
                    Rule { from: (base + 1) as State, to: (base + 2) as State, alphabet: a },
                    p,
                    c,
                    q,
                );
            },
            RegExprView::Cat(v) => {
                let n = v.len() as int;
                crate::regexpr::lemma_list_state_count_nonnegative(v, n);
                if n > 0 {
                    lemma_operand_fits(v, base, n - 1);
                    v[n - 1].lemma_finish_range(offset(v, base, n - 1));
                    let last = eps_rule(v[n - 1].nfa_finish(offset(v, base, n - 1)), base + 2);
                    lemma_rule_in_concat(cat_rules(v, base, n), seq![last], p, c, q);
                    lemma_rule_in_one(last, p, c, q);
                    lemma_cat_rules(v, base, n, p, c, q);
                    if rule_in(cat_rules(v, base, n), p, c, q) {
                        let k = choose|k: int|
                            0 <= k < n && #[trigger] cat_rule_at(v, base, k, p, c, q);
                        lemma_operand_fits(v, base, k);
                        if rule_in(v[k].nfa_rules(offset(v, base, k)), p, c, q) {
                            v[k].lemma_rule_range(offset(v, base, k), p, c, q);
                        } else if k > 0 {
                            lemma_operand_fits(v, base, k - 1);
                            v[k - 1].lemma_finish_range(offset(v, base, k - 1));
                        }
                    }
                } else {
                    lemma_rule_in_none(p, c, q);
                }
            },
            RegExprView::Or(v) => {
                let n = v.len() as int;
                crate::regexpr::lemma_list_state_count_nonnegative(v, n);
                lemma_or_rules(v, base, n, p, c, q);
                let k = choose|k: int| 0 <= k < n && #[trigger] or_rule_at(v, base, k, p, c, q);
                lemma_operand_fits(v, base, k);
                v[k].lemma_finish_range(offset(v, base, k));
                if rule_in(v[k].nfa_rules(offset(v, base, k)), p, c, q) {
                    v[k].lemma_rule_range(offset(v, base, k), p, c, q);
                }
            },
            RegExprView::Repeat(r) => {
                r.lemma_finish_range(base + 1);
                r.lemma_state_count_positive();
                let first = eps_rule(base + 1, r.nfa_finish(base + 1));
                let second = eps_rule(r.nfa_finish(base + 1), r.nfa_start(base + 1));
                lemma_rule_in_concat(r.nfa_rules(base + 1), seq![first, second], p, c, q);
                assert(seq![first, second] =~= seq![first] + seq![second]);
                lemma_rule_in_concat(seq![first], seq![second], p, c, q);
                lemma_rule_in_one(first, p, c, q);
                lemma_rule_in_one(second, p, c, q);
                if rule_in(r.nfa_rules(base + 1), p, c, q) {
                    r.lemma_rule_range(base + 1, p, c, q);
                }
            },
        }
    }
}

/// Reading a label behind a word leaves the front of the word as it was.
pub proof fn lemma_read_split(w: Seq<char>, label: char, k: int)
    requires
        0 <= k <= w.len(),
    ensures
        read(w, label).take(k) == w.take(k),
        read(w, label).skip(k) == read(w.skip(k), label),
        k <= read(w, label).len(),
{
    assert(read(w, label).take(k) =~= w.take(k));
    assert(read(w, label).skip(k) =~= read(w.skip(k), label));
}

/// The first `i` operands match the front of the word, and the rest of
/// the word leads into operand `i`: so the word leads into the
/// concatenation.
pub proof fn lemma_cat_leads(
    v: Seq<RegExprView>,
    base: int,
    i: int,
    k: int,
    x: State,
    w: Seq<char>,
)
    requires
        0 <= i < v.len(),
        0 <= k <= w.len(),
        matches_list(v, i, w.take(k)),
        v[i].leads_to(offset(v, base, i), x, w.skip(k)),
    ensures
        RegExprView::Cat(v).leads_to(base, x, w),
{
    let e = RegExprView::Cat(v);
    assert(e->Cat_0 == v);
    assert(v[i].leads_to(base + 2 + list_state_count(v, i), x, w.skip(k)));
    assert(exists|i: int, k: int|
        0 <= i < v.len() && 0 <= k <= w.len() && matches_list(v, i, #[trigger] w.take(k))
            && (#[trigger] v[i]).leads_to(base + 2 + list_state_count(v, i), x, w.skip(k)));
    assert(e.leads_to(base, x, w)) by {
        reveal_with_fuel(RegExprView::leads_to, 2);
    }
}

/// The first `n` operands match the front of the word, and the next one
/// the rest: so the first `n + 1` match the word.
pub proof fn lemma_matches_list_next(v: Seq<RegExprView>, n: int, w: Seq<char>, k: int)
    requires
        0 <= n < v.len(),
        0 <= k <= w.len(),
        matches_list(v, n, w.take(k)),
        v[n].matches(w.skip(k)),
    ensures
        matches_list(v, n + 1, w),
{
}

impl RegExprView {
    /// The empty word leads to the start.
    pub proof fn lemma_leads_to_start(self, base: int, x: State)
        requires
            x == base + 1,
        ensures
            self.leads_to(base, x, Seq::<char>::empty()),
    {
    }

    /// A word leads to states of the automaton only.
    pub proof fn lemma_leads_range(self, base: int, x: State, w: Seq<char>)
        requires
            self.leads_to(base, x, w),
        ensures
            base < x <= base + self.state_count(),
        decreases self,
    {
        match self {
            RegExprView::Cat(v) => {
                crate::regexpr::lemma_list_state_count_nonnegative(v, v.len() as int);
                if !((x == base + 1 && w.len() == 0) || (x == base + 2 && v.len() > 0
                    && matches_list(v, v.len() as int, w))) {
                    let (i, k) = choose|i: int, k: int|
                        0 <= i < v.len() && 0 <= k <= w.len() && matches_list(
                            v,
                            i,
                            #[trigger] w.take(k),
                        ) && (#[trigger] v[i]).leads_to(
                            base + 2 + list_state_count(v, i),
                            x,
                            w.skip(k),
                        );
                    v[i].lemma_leads_range(offset(v, base, i), x, w.skip(k));
                    crate::regexpr::lemma_list_state_count_nonnegative(v, i);
                    crate::regexpr::lemma_list_state_count_monotonic(v, i + 1, v.len() as int);
                }
            },
            RegExprView::Or(v) => {
                crate::regexpr::lemma_list_state_count_nonnegative(v, v.len() as int);
                if !((x == base + 1 && w.len() == 0) || (x == base + 2 && self.matches(w))) {
                    let i = choose|i: int|
                        0 <= i < v.len() && (#[trigger] v[i]).leads_to(
                            base + 2 + list_state_count(v, i),
                            x,
                            w,
                        );
                    v[i].lemma_leads_range(offset(v, base, i), x, w);
                    crate::regexpr::lemma_list_state_count_nonnegative(v, i);
                    crate::regexpr::lemma_list_state_count_monotonic(v, i + 1, v.len() as int);
                }
            },
            RegExprView::Repeat(r) => {
                r.lemma_finish_range(base + 1);
                r.lemma_state_count_positive();
                if !((x == base + 1 && w.len() == 0) || (x == r.nfa_finish(base + 1)
                    && self.matches(w))) {
                    let k = choose|k: int|
                        0 <= k <= w.len() && self.matches(#[trigger] w.take(k)) && r.leads_to(
                            base + 1,
                            x,
                            w.skip(k),
                        );
                    r.lemma_leads_range(base + 1, x, w.skip(k));
                }
            },
            _ => {},
        }
    }

    /// A word that the repetition matches, and behind it a word that the
    /// repeated expression matches, is a word that the repetition matches.
    pub proof fn lemma_star_append(self, u: Seq<char>, v: Seq<char>)
        requires
            RegExprView::Repeat(Box::new(self)).matches(u),
            self.matches(v),
        ensures
            RegExprView::Repeat(Box::new(self)).matches(u + v),
        decreases u.len(),
    {
        let star = RegExprView::Repeat(Box::new(self));
        let w = u + v;
        if u.len() == 0 {
            assert(w =~= v);
            if v.len() > 0 {
                assert(v.take(v.len() as int) =~= v);
                assert(star.matches(v.skip(v.len() as int)));
            }
        } else {
            let k = choose|k: int|
                0 < k <= u.len() && self.matches(#[trigger] u.take(k)) && star.matches(u.skip(k));
            self.lemma_star_append(u.skip(k), v);
            assert(w.take(k) =~= u.take(k));
            assert(w.skip(k) =~= u.skip(k) + v);
        }
    }

    /// A word that leads to the accepting state is matched.
    pub proof fn lemma_sound_finish(self, base: int, x: State, w: Seq<char>)
        requires
            self.leads_to(base, x, w),
            x == self.nfa_finish(base),
        ensures
            self.matches(w),
        decreases self,
    {
        match self {
            RegExprView::Cat(v) => {
                if !(x == base + 2 && v.len() > 0 && matches_list(v, v.len() as int, w)) {
                    let (i, k) = choose|i: int, k: int|
                        0 <= i < v.len() && 0 <= k <= w.len() && matches_list(
                            v,
                            i,
                            #[trigger] w.take(k),
                        ) && (#[trigger] v[i]).leads_to(
                            base + 2 + list_state_count(v, i),
                            x,
                            w.skip(k),
                        );
                    v[i].lemma_leads_range(offset(v, base, i), x, w.skip(k));
                    crate::regexpr::lemma_list_state_count_nonnegative(v, i);
                }
            },
            RegExprView::Or(v) => {
                if !(x == base + 2 && self.matches(w)) {
                    let i = choose|i: int|
                        0 <= i < v.len() && (#[trigger] v[i]).leads_to(
                            base + 2 + list_state_count(v, i),
                            x,
                            w,
                        );
                    v[i].lemma_leads_range(offset(v, base, i), x, w);
                    crate::regexpr::lemma_list_state_count_nonnegative(v, i);
                }
            },
            RegExprView::Repeat(r) => {
                r.lemma_finish_range(base + 1);
                if !(x == r.nfa_finish(base + 1) && self.matches(w)) {
                    let k = choose|k: int|
                        0 <= k <= w.len() && self.matches(#[trigger] w.take(k)) && r.leads_to(
                            base + 1,
                            x,
                            w.skip(k),
                        );
                    r.lemma_sound_finish(base + 1, x, w.skip(k));
                    r.lemma_star_append(w.take(k), w.skip(k));
                    assert(w.take(k) + w.skip(k) =~= w);
                }
            },
            _ => {},
        }
    }

    /// A rule that leaves the accepting state leads to a state to which its
    /// label alone leads from the start.
    pub proof fn lemma_finish_out(self, base: int, x: State, c: char, y: State)
        requires
            fits(self, base),
            x == self.nfa_finish(base),
            rule_in(self.nfa_rules(base), x, c, y),
        ensures
            self.leads_to(base, y, read(Seq::<char>::empty(), c)),
        decreases self,
    {
        let none = Seq::<char>::empty();
        match self {
            RegExprView::Empty => {
                lemma_rule_in_one(eps_rule(base + 1, base + 2), x, c, y);
            },
            RegExprView::Char(a) => {
                lemma_rule_in_one(
                    Rule { from: (base + 1) as State, to: (base + 2) as State, alphabet: a },
                    x,
                    c,
                    y,
                );
            },
            RegExprView::Cat(v) => {
                let n = v.len() as int;
                crate::regexpr::lemma_list_state_count_nonnegative(v, n);
                if n > 0 {
                    lemma_operand_fits(v, base, n - 1);
                    v[n - 1].lemma_finish_range(offset(v, base, n - 1));
                    let last = eps_rule(v[n - 1].nfa_finish(offset(v, base, n - 1)), base + 2);
                    lemma_rule_in_concat(cat_rules(v, base, n), seq![last], x, c, y);
                    lemma_rule_in_one(last, x, c, y);
                    lemma_cat_rules(v, base, n, x, c, y);
                    if rule_in(cat_rules(v, base, n), x, c, y) {
                        let k = choose|k: int|
                            0 <= k < n && #[trigger] cat_rule_at(v, base, k, x, c, y);
                        lemma_operand_fits(v, base, k);
                        if rule_in(v[k].nfa_rules(offset(v, base, k)), x, c, y) {
                            v[k].lemma_rule_range(offset(v, base, k), x, c, y);
                        } else if k > 0 {
                            lemma_operand_fits(v, base, k - 1);
                            v[k - 1].lemma_finish_range(offset(v, base, k - 1));
                        }
                    }
                } else {
                    lemma_rule_in_none(x, c, y);
                }
            },
            RegExprView::Or(v) => {
                let n = v.len() as int;
                crate::regexpr::lemma_list_state_count_nonnegative(v, n);
                lemma_or_rules(v, base, n, x, c, y);
                let k = choose|k: int| 0 <= k < n && #[trigger] or_rule_at(v, base, k, x, c, y);
                lemma_operand_fits(v, base, k);
                v[k].lemma_finish_range(offset(v, base, k));
                if rule_in(v[k].nfa_rules(offset(v, base, k)), x, c, y) {
                    v[k].lemma_rule_range(offset(v, base, k), x, c, y);
                }
            },
            RegExprView::Repeat(r) => {
                r.lemma_finish_range(base + 1);
                r.lemma_state_count_positive();
                let first = eps_rule(base + 1, r.nfa_finish(base + 1));
                let second = eps_rule(r.nfa_finish(base + 1), r.nfa_start(base + 1));
                lemma_rule_in_concat(r.nfa_rules(base + 1), seq![first, second], x, c, y);
                assert(seq![first, second] =~= seq![first] + seq![second]);
                lemma_rule_in_concat(seq![first], seq![second], x, c, y);
                lemma_rule_in_one(first, x, c, y);
                lemma_rule_in_one(second, x, c, y);
                let after = read(none, c);
                assert(after.take(0) =~= none);
                assert(after.skip(0) =~= after);
                if rule_in(r.nfa_rules(base + 1), x, c, y) {
                    r.lemma_finish_out(base + 1, x, c, y);
                } else {
                    r.lemma_leads_to_start(base + 1, y);
                }
            },
        }
    }
}

/// A word that leads into an operand leads into the alternation.
pub proof fn lemma_or_leads(v: Seq<RegExprView>, base: int, i: int, x: State, w: Seq<char>)
    requires
        0 <= i < v.len(),
        v[i].leads_to(offset(v, base, i), x, w),
    ensures
        RegExprView::Or(v).leads_to(base, x, w),
{
    let e = RegExprView::Or(v);
    assert(e->Or_0 == v);
    assert(v[i].leads_to(base + 2 + list_state_count(v, i), x, w));
    assert(exists|i: int|
        0 <= i < v.len() && (#[trigger] v[i]).leads_to(base + 2 + list_state_count(v, i), x, w));
    assert(e.leads_to(base, x, w)) by {
        reveal_with_fuel(RegExprView::leads_to, 2);
    }
}

/// A word that an operand matches is matched by the alternation.
pub proof fn lemma_or_matches(v: Seq<RegExprView>, i: int, w: Seq<char>)
    requires
        0 <= i < v.len(),
        v[i].matches(w),
    ensures
        RegExprView::Or(v).matches(w),
{
    let e = RegExprView::Or(v);
    assert(e->Or_0 == v);
    assert(exists|i: int| 0 <= i < v.len() && (#[trigger] v[i]).matches(w));
    assert(e.matches(w)) by {
        reveal_with_fuel(RegExprView::matches, 2);
    }
}

impl RegExprView {
    /// The repetition matches the front of the word, and the rest of the
    /// word leads into the repeated expression: so the word leads into
    /// the repetition.
    pub proof fn lemma_repeat_leads(self, base: int, k: int, x: State, w: Seq<char>)
        requires
            0 <= k <= w.len(),
            RegExprView::Repeat(Box::new(self)).matches(w.take(k)),
            self.leads_to(base + 1, x, w.skip(k)),
        ensures
            RegExprView::Repeat(Box::new(self)).leads_to(base, x, w),
    {
        let e = RegExprView::Repeat(Box::new(self));
        assert(e.leads_to(base, x, w)) by {
            reveal_with_fuel(RegExprView::leads_to, 2);
        }
    }

    /// A word that leads to a state, read on along a rule from that state,
    /// leads to the target of the rule.
    pub proof fn lemma_step(self, base: int, x: State, c: char, y: State, w: Seq<char>)
        requires
            fits(self, base),
            self.plain(),
            self.leads_to(base, x, w),
            rule_in(self.nfa_rules(base), x, c, y),
        ensures
            self.leads_to(base, y, read(w, c)),
        decreases self,
    {
        let none = Seq::<char>::empty();
        match self {
            RegExprView::Empty => {
                lemma_rule_in_one(eps_rule(base + 1, base + 2), x, c, y);
            },
            RegExprView::Char(a) => {
                lemma_rule_in_one(
                    Rule { from: (base + 1) as State, to: (base + 2) as State, alphabet: a },
                    x,
                    c,
                    y,
                );
            },
            RegExprView::Cat(v) => {
                let n = v.len() as int;
                crate::regexpr::lemma_list_state_count_nonnegative(v, n);
                if n == 0 {
                    lemma_rule_in_none(x, c, y);
                } else {
                    lemma_cat_step(v, base, x, c, y, w);
                }
            },
            RegExprView::Or(v) => {
                lemma_or_step(v, base, x, c, y, w);
            },
            RegExprView::Repeat(r) => {
                r.lemma_finish_range(base + 1);
                r.lemma_state_count_positive();
                let first = eps_rule(base + 1, r.nfa_finish(base + 1));
                let second = eps_rule(r.nfa_finish(base + 1), r.nfa_start(base + 1));
                lemma_rule_in_concat(r.nfa_rules(base + 1), seq![first, second], x, c, y);
                assert(seq![first, second] =~= seq![first] + seq![second]);
                lemma_rule_in_concat(seq![first], seq![second], x, c, y);
                lemma_rule_in_one(first, x, c, y);
                lemma_rule_in_one(second, x, c, y);
                let inner = rule_in(r.nfa_rules(base + 1), x, c, y);
                let after = read(w, c);
                if inner {
                    r.lemma_rule_range(base + 1, x, c, y);
                }
                if x == base + 1 && w.len() == 0 {
                    // From the start there is the one rule to the accepting state.
                    assert(self.matches(after));
                } else if x == r.nfa_finish(base + 1) && self.matches(w) {
                    lemma_read_split(w, c, w.len() as int);
                    assert(w.take(w.len() as int) =~= w);
                    assert(w.skip(w.len() as int) =~= none);
                    if inner {
                        r.lemma_finish_out(base + 1, x, c, y);
                    } else {
                        r.lemma_leads_to_start(base + 1, y);
                    }
                    r.lemma_repeat_leads(base, w.len() as int, y, after);
                } else {
                    let k = choose|k: int|
                        0 <= k <= w.len() && self.matches(#[trigger] w.take(k)) && r.leads_to(
                            base + 1,
                            x,
                            w.skip(k),
                        );
                    r.lemma_leads_range(base + 1, x, w.skip(k));
                    lemma_read_split(w, c, k);
                    if inner {
                        r.lemma_step(base + 1, x, c, y, w.skip(k));
                        r.lemma_repeat_leads(base, k, y, after);
                    } else {
                        // The rule leads back from the accepting state to the start
                        // of the repeated expression.
                        r.lemma_sound_finish(base + 1, x, w.skip(k));
                        r.lemma_star_append(w.take(k), w.skip(k));
                        assert(w.take(k) + w.skip(k) =~= w);
                        assert(after =~= w);
                        assert(w.take(w.len() as int) =~= w);
                        assert(w.skip(w.len() as int) =~= none);
                        r.lemma_leads_to_start(base + 1, y);
                        r.lemma_repeat_leads(base, w.len() as int, y, after);
                    }
                }
            },
        }
    }
}

/// The operands of an expression without the epsilon label are without it.
pub proof fn lemma_plain_operand(v: Seq<RegExprView>, n: int, i: int)
    requires
        plain_list(v, n),
        0 <= i < n <= v.len(),
    ensures
        v[i].plain(),
    decreases n,
{
    if i < n - 1 {
        lemma_plain_operand(v, n - 1, i);
    }
}

/// A state of one operand is no state of another.
pub proof fn lemma_operands_apart(v: Seq<RegExprView>, base: int, i: int, j: int, x: State)
    requires
        0 <= i < v.len(),
        0 <= j < v.len(),
        offset(v, base, i) < x <= offset(v, base, i + 1),
        offset(v, base, j) < x <= offset(v, base, j + 1),
    ensures
        i == j,
{
    if i < j {
        lemma_offsets_ordered(v, base, i + 1, j);
    }
    if j < i {
        lemma_offsets_ordered(v, base, j + 1, i);
    }
}

/// The step along a rule in the automaton of a concatenation.
pub proof fn lemma_cat_step(
    v: Seq<RegExprView>,
    base: int,
    x: State,
    c: char,
    y: State,
    w: Seq<char>,
)
    requires
        v.len() > 0,
        fits(RegExprView::Cat(v), base),
        RegExprView::Cat(v).plain(),
        RegExprView::Cat(v).leads_to(base, x, w),
        rule_in(RegExprView::Cat(v).nfa_rules(base), x, c, y),
    ensures
        RegExprView::Cat(v).leads_to(base, y, read(w, c)),
    decreases v, 0int,
{
    let e = RegExprView::Cat(v);
    let n = v.len() as int;
    let none = Seq::<char>::empty();
    let after = read(w, c);
    crate::regexpr::lemma_list_state_count_nonnegative(v, n);
    lemma_operand_fits(v, base, n - 1);
    v[n - 1].lemma_finish_range(offset(v, base, n - 1));
    let last = eps_rule(v[n - 1].nfa_finish(offset(v, base, n - 1)), base + 2);
    lemma_rule_in_concat(cat_rules(v, base, n), seq![last], x, c, y);
    lemma_rule_in_one(last, x, c, y);
    lemma_cat_rules(v, base, n, x, c, y);
    let chained = rule_in(cat_rules(v, base, n), x, c, y);
    // The operand whose link or rule this is, where it is one.
    let j = choose|j: int| 0 <= j < n && #[trigger] cat_rule_at(v, base, j, x, c, y);
    let inner = chained && rule_in(v[j].nfa_rules(offset(v, base, j)), x, c, y);
    if chained {
        lemma_operand_fits(v, base, j);
        if inner {
            v[j].lemma_rule_range(offset(v, base, j), x, c, y);
        } else if j > 0 {
            lemma_operand_fits(v, base, j - 1);
            v[j - 1].lemma_finish_range(offset(v, base, j - 1));
        }
    }
    if x == base + 1 && w.len() == 0 {
        // The one rule from the start is the link into the first operand.
        assert(chained && !inner && j == 0);
        lemma_operand_fits(v, base, 0);
        v[0].lemma_leads_to_start(offset(v, base, 0), y);
        assert(after.take(0) =~= none);
        assert(after.skip(0) =~= none);
        lemma_cat_leads(v, base, 0, 0, y, after);
    } else if x == base + 2 {
        // No rule leaves the accepting state.
    } else {
        let (i, k) = choose|i: int, k: int|
            0 <= i < v.len() && 0 <= k <= w.len() && matches_list(v, i, #[trigger] w.take(k))
                && (#[trigger] v[i]).leads_to(base + 2 + list_state_count(v, i), x, w.skip(k));
        lemma_operand_fits(v, base, i);
        v[i].lemma_leads_range(offset(v, base, i), x, w.skip(k));
        lemma_read_split(w, c, k);
        if inner {
            lemma_operands_apart(v, base, i, j, x);
            lemma_plain_operand(v, n, i);
            v[i].lemma_step(offset(v, base, i), x, c, y, w.skip(k));
            lemma_cat_leads(v, base, i, k, y, after);
        } else {
            // The rule leaves the accepting state of operand `i`: what that
            // operand has read, it matches.
            if chained {
                lemma_operands_apart(v, base, i, j - 1, x);
            } else {
                lemma_operands_apart(v, base, i, n - 1, x);
            }
            v[i].lemma_sound_finish(offset(v, base, i), x, w.skip(k));
            lemma_matches_list_next(v, i, w, k);
            assert(after =~= w);
            if chained {
                lemma_operands_apart(v, base, i, j - 1, x);
                assert(w.take(w.len() as int) =~= w);
                assert(w.skip(w.len() as int) =~= none);
                v[j].lemma_leads_to_start(offset(v, base, j), y);
                lemma_cat_leads(v, base, j, w.len() as int, y, after);
            } else {
                lemma_operands_apart(v, base, i, n - 1, x);
            }
        }
    }
}

/// The step along a rule in the automaton of an alternation.
pub proof fn lemma_or_step(
    v: Seq<RegExprView>,
    base: int,
    x: State,
    c: char,
    y: State,
    w: Seq<char>,
)
    requires
        fits(RegExprView::Or(v), base),
        RegExprView::Or(v).plain(),
        RegExprView::Or(v).leads_to(base, x, w),
        rule_in(RegExprView::Or(v).nfa_rules(base), x, c, y),
    ensures
        RegExprView::Or(v).leads_to(base, y, read(w, c)),
    decreases v, 0int,
{
    let e = RegExprView::Or(v);
    let n = v.len() as int;
    let none = Seq::<char>::empty();
    let after = read(w, c);
    crate::regexpr::lemma_list_state_count_nonnegative(v, n);
    lemma_or_rules(v, base, n, x, c, y);
    let j = choose|j: int| 0 <= j < n && #[trigger] or_rule_at(v, base, j, x, c, y);
    let inner = rule_in(v[j].nfa_rules(offset(v, base, j)), x, c, y);
    lemma_operand_fits(v, base, j);
    v[j].lemma_finish_range(offset(v, base, j));
    if inner {
        v[j].lemma_rule_range(offset(v, base, j), x, c, y);
    }
    if x == base + 1 && w.len() == 0 {
        // The rules from the start lead into the operands.
        v[j].lemma_leads_to_start(offset(v, base, j), y);
        lemma_or_leads(v, base, j, y, after);
    } else if x == base + 2 {
        // No rule leaves the accepting state.
    } else {
        let i = choose|i: int|
            0 <= i < v.len() && (#[trigger] v[i]).leads_to(
                base + 2 + list_state_count(v, i),
                x,
                w,
            );
        lemma_operand_fits(v, base, i);
        v[i].lemma_leads_range(offset(v, base, i), x, w);
        lemma_operands_apart(v, base, i, j, x);
        if inner {
            lemma_plain_operand(v, n, i);
            v[i].lemma_step(offset(v, base, i), x, c, y, w);
            lemma_or_leads(v, base, i, y, after);
        } else {
            v[i].lemma_sound_finish(offset(v, base, i), x, w);
            lemma_or_matches(v, i, w);
            assert(after =~= w);
        }
    }
}

impl RegExprView {
    /// The states of an epsilon closure are led to by the word that leads
    /// to the states it is the closure of.
    pub proof fn lemma_closure_sound(self, base: int, from: Set<State>, w: Seq<char>, x: State)
        requires
            fits(self, base),
            self.plain(),
            forall|s: State| from.contains(s) ==> self.leads_to(base, s, w),
            self.automaton(base).spec_closure(from).contains(x),
        ensures
            self.leads_to(base, x, w),
    {
        let nfa = self.automaton(base);
        let s = choose|s: State| from.contains(s) && #[trigger] nfa.eps_reaches(s, x);
        let path = choose|path: Seq<State>| #[trigger]
            nfa.eps_path(path) && path.first() == s && path.last() == x;
        self.lemma_path_sound(base, path, w, path.len() - 1);
    }

    /// Along a path of epsilon rules the word that leads to its first
    /// state leads to every state of it.
    pub proof fn lemma_path_sound(self, base: int, path: Seq<State>, w: Seq<char>, i: int)
        requires
            fits(self, base),
            self.plain(),
            self.automaton(base).eps_path(path),
            self.leads_to(base, path.first(), w),
            0 <= i < path.len(),
        ensures
            self.leads_to(base, path[i], w),
        decreases i,
    {
        if i > 0 {
            self.lemma_path_sound(base, path, w, i - 1);
            assert(self.automaton(base).has_rule(path[i - 1], EPSILON, path[i - 1 + 1]));
            self.lemma_step(base, path[i - 1], EPSILON, path[i], w);
        }
    }

    /// The states in which the automaton can be after a word are led to
    /// by the word.
    pub proof fn lemma_after_sound(self, base: int, w: Seq<char>, x: State)
        requires
            fits(self, base),
            self.plain(),
            plain_word(w),
            self.automaton(base).states_after(w).contains(x),
        ensures
            self.leads_to(base, x, w),
        decreases w.len(),
    {
        let nfa = self.automaton(base);
        self.lemma_state_count_positive();
        if w.len() == 0 {
            let from = set![nfa.start];
            assert forall|s: State| from.contains(s) implies self.leads_to(base, s, w) by {
                self.lemma_leads_to_start(base, s);
                assert(w =~= Seq::<char>::empty());
            }
            self.lemma_closure_sound(base, from, w, x);
        } else {
            let before = w.drop_last();
            let c = w.last();
            let moved = nfa.spec_move(nfa.states_after(before), c);
            assert(nfa.states_after(w) == nfa.spec_closure(moved));
            assert forall|t: State| moved.contains(t) implies self.leads_to(base, t, w) by {
                let s = choose|s: State|
                    nfa.states_after(before).contains(s) && #[trigger] nfa.has_rule(s, c, t);
                assert(plain_word(before)) by {
                    assert forall|i: int| 0 <= i < before.len() implies #[trigger] before[i]
                        != EPSILON by {
                        assert(before[i] == w[i]);
                    }
                }
                self.lemma_after_sound(base, before, s);
                self.lemma_step(base, s, c, t, before);
                assert(c == w[w.len() - 1]);
                assert(read(before, c) =~= w);
            }
            self.lemma_closure_sound(base, moved, w, x);
        }
    }

    /// A word without the epsilon label that the automaton accepts is
    /// matched by the expression.
    pub proof fn lemma_accepted_is_matched(self, base: int, w: Seq<char>)
        requires
            fits(self, base),
            self.plain(),
            plain_word(w),
            self.automaton(base).accepts(w),
        ensures
            self.matches(w),
    {
        let nfa = self.automaton(base);
        self.lemma_finish_range(base);
        self.lemma_after_sound(base, w, nfa.finish);
        self.lemma_sound_finish(base, nfa.finish, w);
    }
}

/// Every rule of `small` is a rule of `large`.
pub open spec fn rules_within(small: NfaView, large: NfaView) -> bool {
    forall|p: State, c: char, q: State| #[trigger]
        small.has_rule(p, c, q) ==> large.has_rule(p, c, q)
}

impl NfaView {
    /// With more rules, more is reached by epsilon rules.
    pub proof fn lemma_closure_more_rules(&self, large: NfaView, from: Set<State>, x: State)
        requires
            rules_within(*self, large),
            self.spec_closure(from).contains(x),
        ensures
            large.spec_closure(from).contains(x),
    {
        let s = choose|s: State| from.contains(s) && #[trigger] self.eps_reaches(s, x);
        let path = choose|path: Seq<State>| #[trigger]
            self.eps_path(path) && path.first() == s && path.last() == x;
        assert(large.eps_path(path)) by {
            assert forall|i: int| 0 <= i < path.len() - 1 implies #[trigger] large.has_rule(
                path[i],
                EPSILON,
                path[i + 1],
            ) by {
                assert(self.has_rule(path[i], EPSILON, path[i + 1]));
            }
        }
        assert(large.eps_reaches(s, x));
    }

    /// From more states, more is reached by epsilon rules.
    pub proof fn lemma_closure_more_states(&self, from: Set<State>, more: Set<State>, x: State)
        requires
            from.subset_of(more),
            self.spec_closure(from).contains(x),
        ensures
            self.spec_closure(more).contains(x),
    {
        let s = choose|s: State| from.contains(s) && #[trigger] self.eps_reaches(s, x);
        assert(more.contains(s));
    }

    /// With more rules and from more states, more states are reached by a
    /// word.
    pub proof fn lemma_after_more(
        &self,
        large: NfaView,
        from: Set<State>,
        more: Set<State>,
        w: Seq<char>,
        x: State,
    )
        requires
            rules_within(*self, large),
            from.subset_of(more),
            self.after(from, w).contains(x),
        ensures
            large.after(more, w).contains(x),
        decreases w.len(),
    {
        if w.len() == 0 {
            self.lemma_closure_more_states(from, more, x);
            self.lemma_closure_more_rules(large, more, x);
        } else {
            let c = w.last();
            let small_moved = self.spec_move(self.after(from, w.drop_last()), c);
            let large_moved = large.spec_move(large.after(more, w.drop_last()), c);
            assert forall|t: State| small_moved.contains(t) implies large_moved.contains(t) by {
                let s = choose|s: State|
                    self.after(from, w.drop_last()).contains(s) && #[trigger] self.has_rule(
                        s,
                        c,
                        t,
                    );
                self.lemma_after_more(large, from, more, w.drop_last(), s);
                assert(large.has_rule(s, c, t));
            }
            self.lemma_closure_more_states(small_moved, large_moved, x);
            self.lemma_closure_more_rules(large, large_moved, x);
        }
    }

    /// The states after a word are closed under epsilon rules.
    pub proof fn lemma_after_closed(&self, from: Set<State>, w: Seq<char>, x: State, y: State)
        requires
            self.after(from, w).contains(x),
            self.has_rule(x, EPSILON, y),
        ensures
            self.after(from, w).contains(y),
    {
        if w.len() == 0 {
            self.lemma_closure_step(from, x, y);
        } else {
            self.lemma_closure_step(
                self.spec_move(self.after(from, w.drop_last()), w.last()),
                x,
                y,
            );
        }
    }

    /// A rule with a symbol leads from a state after a word to a state
    /// after the word and the symbol.
    pub proof fn lemma_after_step(
        &self,
        from: Set<State>,
        w: Seq<char>,
        x: State,
        c: char,
        y: State,
    )
        requires
            self.after(from, w).contains(x),
            self.has_rule(x, c, y),
        ensures
            self.after(from, w.push(c)).contains(y),
    {
        let longer = w.push(c);
        assert(longer.drop_last() =~= w);
        let moved = self.spec_move(self.after(from, w), c);
        assert(moved.contains(y));
        self.lemma_closure_bound(moved);
    }

    /// What is reached by a word from a state that is reached by another
    /// is reached by the one word behind the other.
    pub proof fn lemma_after_compose(
        &self,
        from: Set<State>,
        u: Seq<char>,
        q: State,
        v: Seq<char>,
        x: State,
    )
        requires
            self.after(from, u).contains(q),
            self.after(set![q], v).contains(x),
        ensures
            self.after(from, u + v).contains(x),
        decreases v.len(),
    {
        if v.len() == 0 {
            assert(u + v =~= u);
            let reached = self.after(from, u);
            assert forall|s: State, t: State|
                reached.contains(s) && #[trigger] self.has_rule(s, EPSILON, t) implies reached.contains(
                t,
            ) by {
                self.lemma_after_closed(from, u, s, t);
            }
            self.lemma_closed_holds_closure(set![q], reached);
        } else {
            let c = v.last();
            let w = u + v;
            assert(w.drop_last() =~= u + v.drop_last());
            assert(w.last() == c);
            let near = self.spec_move(self.after(set![q], v.drop_last()), c);
            let far = self.spec_move(self.after(from, w.drop_last()), c);
            assert forall|t: State| near.contains(t) implies far.contains(t) by {
                let s = choose|s: State|
                    self.after(set![q], v.drop_last()).contains(s) && #[trigger] self.has_rule(
                        s,
                        c,
                        t,
                    );
                self.lemma_after_compose(from, u, q, v.drop_last(), s);
            }
            self.lemma_closure_more_states(near, far, x);
        }
    }
}

/// The automaton of a concatenation holds the rules of its operands, the
/// links into them, and the link from the last of them to its accepting
/// state.
pub proof fn lemma_cat_holds(v: Seq<RegExprView>, base: int, k: int)
    requires
        fits(RegExprView::Cat(v), base),
        0 <= k < v.len(),
    ensures
        rules_within(v[k].automaton(offset(v, base, k)), RegExprView::Cat(v).automaton(base)),
        RegExprView::Cat(v).automaton(base).has_rule(
            (if k == 0 {
                base + 1
            } else {
                v[k - 1].nfa_finish(offset(v, base, k - 1))
            }) as State,
            EPSILON,
            (offset(v, base, k) + 1) as State,
        ),
        RegExprView::Cat(v).automaton(base).has_rule(
            v[v.len() - 1].nfa_finish(offset(v, base, v.len() - 1)) as State,
            EPSILON,
            (base + 2) as State,
        ),
{
    let whole = RegExprView::Cat(v).automaton(base);
    let n = v.len() as int;
    let sub = v[k].automaton(offset(v, base, k));
    crate::regexpr::lemma_list_state_count_nonnegative(v, n);
    lemma_operand_fits(v, base, n - 1);
    lemma_operand_fits(v, base, k);
    v[n - 1].lemma_finish_range(offset(v, base, n - 1));
    let last = eps_rule(v[n - 1].nfa_finish(offset(v, base, n - 1)), base + 2);
    assert forall|p: State, c: char, q: State| #[trigger] sub.has_rule(p, c, q) implies whole.has_rule(
        p,
        c,
        q,
    ) by {
        lemma_cat_rules(v, base, n, p, c, q);
        assert(cat_rule_at(v, base, k, p, c, q));
        lemma_rule_in_concat(cat_rules(v, base, n), seq![last], p, c, q);
    }
    let from = (if k == 0 {
        base + 1
    } else {
        v[k - 1].nfa_finish(offset(v, base, k - 1))
    }) as State;
    if k > 0 {
        lemma_operand_fits(v, base, k - 1);
        v[k - 1].lemma_finish_range(offset(v, base, k - 1));
    }
    let into = (offset(v, base, k) + 1) as State;
    lemma_cat_rules(v, base, n, from, EPSILON, into);
    assert(cat_rule_at(v, base, k, from, EPSILON, into));
    lemma_rule_in_concat(cat_rules(v, base, n), seq![last], from, EPSILON, into);
    lemma_rule_in_concat(cat_rules(v, base, n), seq![last], last.from, EPSILON, last.to);
    lemma_rule_in_one(last, last.from, EPSILON, last.to);
}

/// The automaton of an alternation holds the rules of its operands and
/// the links into them and out of them.
pub proof fn lemma_or_holds(v: Seq<RegExprView>, base: int, k: int)
    requires
        fits(RegExprView::Or(v), base),
        0 <= k < v.len(),
    ensures
        rules_within(v[k].automaton(offset(v, base, k)), RegExprView::Or(v).automaton(base)),
        RegExprView::Or(v).automaton(base).has_rule(
            (base + 1) as State,
            EPSILON,
            (offset(v, base, k) + 1) as State,
        ),
        RegExprView::Or(v).automaton(base).has_rule(
            v[k].nfa_finish(offset(v, base, k)) as State,
            EPSILON,
            (base + 2) as State,
        ),
{
    let whole = RegExprView::Or(v).automaton(base);
    let n = v.len() as int;
    let sub = v[k].automaton(offset(v, base, k));
    crate::regexpr::lemma_list_state_count_nonnegative(v, n);
    lemma_operand_fits(v, base, k);
    v[k].lemma_finish_range(offset(v, base, k));
    assert forall|p: State, c: char, q: State| #[trigger] sub.has_rule(p, c, q) implies whole.has_rule(
        p,
        c,
        q,
    ) by {
        lemma_or_rules(v, base, n, p, c, q);
        assert(or_rule_at(v, base, k, p, c, q));
    }
    let start = (base + 1) as State;
    let into = (offset(v, base, k) + 1) as State;
    let out = v[k].nfa_finish(offset(v, base, k)) as State;
    let finish = (base + 2) as State;
    lemma_or_rules(v, base, n, start, EPSILON, into);
    assert(or_rule_at(v, base, k, start, EPSILON, into));
    lemma_or_rules(v, base, n, out, EPSILON, finish);
    assert(or_rule_at(v, base, k, out, EPSILON, finish));
}

impl RegExprView {
    /// The automaton of a repetition holds the rules of the repeated
    /// expression, the rule from its start to the accepting state, and the
    /// rule from there back to the start of the repeated expression.
    pub proof fn lemma_repeat_holds(self, base: int)
        requires
            fits(RegExprView::Repeat(Box::new(self)), base),
        ensures
            rules_within(
                self.automaton(base + 1),
                RegExprView::Repeat(Box::new(self)).automaton(base),
            ),
            RegExprView::Repeat(Box::new(self)).automaton(base).has_rule(
                (base + 1) as State,
                EPSILON,
                self.nfa_finish(base + 1) as State,
            ),
            RegExprView::Repeat(Box::new(self)).automaton(base).has_rule(
                self.nfa_finish(base + 1) as State,
                EPSILON,
                (base + 2) as State,
            ),
    {
        let whole = RegExprView::Repeat(Box::new(self)).automaton(base);
        let sub = self.automaton(base + 1);
        self.lemma_finish_range(base + 1);
        self.lemma_state_count_positive();
        let first = eps_rule(base + 1, self.nfa_finish(base + 1));
        let second = eps_rule(self.nfa_finish(base + 1), self.nfa_start(base + 1));
        assert(seq![first, second] =~= seq![first] + seq![second]);
        assert forall|p: State, c: char, q: State| #[trigger] sub.has_rule(p, c, q) implies whole.has_rule(
            p,
            c,
            q,
        ) by {
            lemma_rule_in_concat(self.nfa_rules(base + 1), seq![first, second], p, c, q);
        }
        lemma_rule_in_concat(
            self.nfa_rules(base + 1),
            seq![first, second],
            first.from,
            EPSILON,
            first.to,
        );
        lemma_rule_in_concat(seq![first], seq![second], first.from, EPSILON, first.to);
        lemma_rule_in_one(first, first.from, EPSILON, first.to);
        lemma_rule_in_concat(
            self.nfa_rules(base + 1),
            seq![first, second],
            second.from,
            EPSILON,
            second.to,
        );
        lemma_rule_in_concat(seq![first], seq![second], second.from, EPSILON, second.to);
        lemma_rule_in_one(second, second.from, EPSILON, second.to);
    }

    /// The automaton accepts every word that the expression matches.
    pub proof fn lemma_matched_is_accepted(self, base: int, w: Seq<char>)
        requires
            fits(self, base),
            self.matches(w),
        ensures
            self.automaton(base).accepts(w),
        decreases self, w.len(), 1int,
    {
        let whole = self.automaton(base);
        let start = whole.start;
        let from = set![start];
        let none = Seq::<char>::empty();
        self.lemma_state_count_positive();
        self.lemma_finish_range(base);
        whole.lemma_reaches_itself(start);
        assert(whole.after(from, none).contains(start));
        match self {
            RegExprView::Empty => {
                lemma_rule_in_one(eps_rule(base + 1, base + 2), start, EPSILON, whole.finish);
                assert(w =~= none);
                whole.lemma_after_closed(from, none, start, whole.finish);
            },
            RegExprView::Char(c) => {
                lemma_rule_in_one(
                    Rule { from: (base + 1) as State, to: (base + 2) as State, alphabet: c },
                    start,
                    c,
                    whole.finish,
                );
                whole.lemma_after_step(from, none, start, c, whole.finish);
                assert(none.push(c) =~= w);
            },
            RegExprView::Cat(v) => {
                let n = v.len() as int;
                lemma_cat_complete(v, base, n, w);
                lemma_cat_holds(v, base, n - 1);
                let out = v[n - 1].nfa_finish(offset(v, base, n - 1)) as State;
                whole.lemma_after_closed(from, w, out, whole.finish);
            },
            RegExprView::Or(v) => {
                let i = choose|i: int| 0 <= i < v.len() && (#[trigger] v[i]).matches(w);
                let sub = v[i].automaton(offset(v, base, i));
                crate::regexpr::lemma_list_state_count_nonnegative(v, v.len() as int);
                lemma_operand_fits(v, base, i);
                lemma_or_holds(v, base, i);
                v[i].lemma_matched_is_accepted(offset(v, base, i), w);
                v[i].lemma_finish_range(offset(v, base, i));
                whole.lemma_after_closed(from, none, start, sub.start);
                sub.lemma_after_more(whole, set![sub.start], set![sub.start], w, sub.finish);
                whole.lemma_after_compose(from, none, sub.start, w, sub.finish);
                assert(none + w =~= w);
                whole.lemma_after_closed(from, w, sub.finish, whole.finish);
            },
            RegExprView::Repeat(r) => {
                r.lemma_repeat_holds(base);
                whole.lemma_after_closed(from, none, start, whole.finish);
                self.lemma_star_complete(base, from, none, w);
                assert(none + w =~= w);
            },
        }
    }

    /// Where the automaton of a repetition is in its accepting state after
    /// a word, it is so again after one more word that the repetition
    /// matches.
    pub proof fn lemma_star_complete(self, base: int, from: Set<State>, u: Seq<char>, w: Seq<char>)
        requires
            self is Repeat,
            fits(self, base),
            self.matches(w),
            self.automaton(base).after(from, u).contains(self.automaton(base).finish),
        ensures
            self.automaton(base).after(from, u + w).contains(self.automaton(base).finish),
        decreases self, w.len(), 0int,
    {
        let r = *self->Repeat_0;
        let whole = self.automaton(base);
        if w.len() == 0 {
            assert(u + w =~= u);
        } else {
            let k = choose|k: int|
                0 < k <= w.len() && r.matches(#[trigger] w.take(k)) && self.matches(w.skip(k));
            let sub = r.automaton(base + 1);
            r.lemma_repeat_holds(base);
            r.lemma_finish_range(base + 1);
            r.lemma_state_count_positive();
            whole.lemma_after_closed(from, u, whole.finish, sub.start);
            r.lemma_matched_is_accepted(base + 1, w.take(k));
            sub.lemma_after_more(whole, set![sub.start], set![sub.start], w.take(k), sub.finish);
            whole.lemma_after_compose(from, u, sub.start, w.take(k), sub.finish);
            self.lemma_star_complete(base, from, u + w.take(k), w.skip(k));
            assert(u + w.take(k) + w.skip(k) =~= u + w);
        }
    }
}

/// After a word that the first `n` operands of a concatenation match, its
/// automaton can be in the accepting state of the last of them.
pub proof fn lemma_cat_complete(v: Seq<RegExprView>, base: int, n: int, w: Seq<char>)
    requires
        fits(RegExprView::Cat(v), base),
        1 <= n <= v.len(),
        matches_list(v, n, w),
    ensures
        RegExprView::Cat(v).automaton(base).states_after(w).contains(
            v[n - 1].nfa_finish(offset(v, base, n - 1)) as State,
        ),
    decreases v, n,
{
    let whole = RegExprView::Cat(v).automaton(base);
    let start = whole.start;
    let from = set![start];
    let none = Seq::<char>::empty();
    let k = choose|k: int|
        0 <= k <= w.len() && matches_list(v, n - 1, #[trigger] w.take(k)) && v[n - 1].matches(
            w.skip(k),
        );
    let sub = v[n - 1].automaton(offset(v, base, n - 1));
    crate::regexpr::lemma_list_state_count_nonnegative(v, v.len() as int);
    lemma_operand_fits(v, base, n - 1);
    lemma_cat_holds(v, base, n - 1);
    v[n - 1].lemma_finish_range(offset(v, base, n - 1));
    // The automaton can be at the start of the last operand after the front
    // of the word.
    if n == 1 {
        assert(w.take(k) =~= none);
        whole.lemma_reaches_itself(start);
        assert(whole.after(from, none).contains(start));
        whole.lemma_after_closed(from, none, start, sub.start);
    } else {
        lemma_cat_complete(v, base, n - 1, w.take(k));
        lemma_operand_fits(v, base, n - 2);
        v[n - 2].lemma_finish_range(offset(v, base, n - 2));
        let out = v[n - 2].nfa_finish(offset(v, base, n - 2)) as State;
        whole.lemma_after_closed(from, w.take(k), out, sub.start);
    }
    v[n - 1].lemma_matched_is_accepted(offset(v, base, n - 1), w.skip(k));
    sub.lemma_after_more(whole, set![sub.start], set![sub.start], w.skip(k), sub.finish);
    whole.lemma_after_compose(from, w.take(k), sub.start, w.skip(k), sub.finish);
    assert(w.take(k) + w.skip(k) =~= w);
}

impl RegExprView {
    /// Thompson's construction is right: the automaton of an expression
    /// without the epsilon label accepts a word without it exactly when the
    /// expression matches the word.
    pub proof fn lemma_automaton_decides(self, base: int, w: Seq<char>)
        requires
            fits(self, base),
            self.plain(),
            plain_word(w),
        ensures
            self.automaton(base).accepts(w) == self.matches(w),
    {
        if self.matches(w) {
            self.lemma_matched_is_accepted(base, w);
        }
        if self.automaton(base).accepts(w) {
            self.lemma_accepted_is_matched(base, w);
        }
    }

    /// A word that the expression matches is made of its symbols.
    pub proof fn lemma_matches_symbols(self, w: Seq<char>)
        requires
            self.matches(w),
        ensures
            word_over(w, self.alphabets()),
        decreases self, w.len(),
    {
        match self {
            RegExprView::Empty => {},
            RegExprView::Char(c) => {
                assert(self.alphabets()[0] == c);
            },
            RegExprView::Cat(v) => {
                lemma_matches_list_symbols(v, v.len() as int, w);
            },
            RegExprView::Or(v) => {
                let i = choose|i: int| 0 <= i < v.len() && (#[trigger] v[i]).matches(w);
                v[i].lemma_matches_symbols(w);
                lemma_list_alphabets_holds(v, v.len() as int, i);
                let all = list_alphabets(v, v.len() as int);
                assert(self.alphabets() == all);
                assert forall|c: char| v[i].alphabets().contains(c) implies all.contains(c) by {}
                lemma_word_over_more(w, v[i].alphabets(), all);
            },
            RegExprView::Repeat(r) => {
                if w.len() > 0 {
                    let k = choose|k: int|
                        0 < k <= w.len() && r.matches(#[trigger] w.take(k)) && self.matches(
                            w.skip(k),
                        );
                    r.lemma_matches_symbols(w.take(k));
                    self.lemma_matches_symbols(w.skip(k));
                    lemma_word_over_parts(w, k, self.alphabets());
                }
            },
        }
    }

    /// The epsilon label is no symbol of an expression without it.
    pub proof fn lemma_plain_symbols(self, i: int)
        requires
            self.plain(),
            0 <= i < self.alphabets().len(),
        ensures
            self.alphabets()[i] != EPSILON,
        decreases self,
    {
        match self {
            RegExprView::Cat(v) => {
                lemma_plain_list_symbols(v, v.len() as int, i);
            },
            RegExprView::Or(v) => {
                lemma_plain_list_symbols(v, v.len() as int, i);
            },
            RegExprView::Repeat(r) => {
                r.lemma_plain_symbols(i);
            },
            _ => {},
        }
    }

    /// A word made of the symbols of an expression without the epsilon
    /// label is without it.
    pub proof fn lemma_plain_words(self, w: Seq<char>)
        requires
            self.plain(),
            word_over(w, self.alphabets()),
        ensures
            plain_word(w),
    {
        assert forall|i: int| 0 <= i < w.len() implies #[trigger] w[i] != EPSILON by {
            assert(self.alphabets().contains(w[i]));
            let j = choose|j: int| 0 <= j < self.alphabets().len() && self.alphabets()[j] == w[i];
            self.lemma_plain_symbols(j);
        }
    }
}

/// The epsilon label is no symbol of the first `n` expressions of a list
/// without it.
pub proof fn lemma_plain_list_symbols(v: Seq<RegExprView>, n: int, i: int)
    requires
        plain_list(v, n),
        0 <= n <= v.len(),
        0 <= i < list_alphabets(v, n).len(),
    ensures
        list_alphabets(v, n)[i] != EPSILON,
    decreases v, n,
{
    if n > 0 {
        let earlier = list_alphabets(v, n - 1);
        if i < earlier.len() {
            lemma_plain_list_symbols(v, n - 1, i);
        } else {
            v[n - 1].lemma_plain_symbols(i - earlier.len());
        }
    }
}

/// The symbols of the first `n` expressions of a list hold those of each
/// of them.
pub proof fn lemma_list_alphabets_holds(v: Seq<RegExprView>, n: int, i: int)
    requires
        0 <= i < n <= v.len(),
    ensures
        forall|c: char| v[i].alphabets().contains(c) ==> list_alphabets(v, n).contains(c),
        i < n - 1 ==> forall|c: char|
            list_alphabets(v, n - 1).contains(c) ==> list_alphabets(v, n).contains(c),
    decreases n,
{
    let earlier = list_alphabets(v, n - 1);
    let last = v[n - 1].alphabets();
    let all = list_alphabets(v, n);
    assert forall|c: char| earlier.contains(c) implies all.contains(c) by {
        let j = choose|j: int| 0 <= j < earlier.len() && earlier[j] == c;
        assert(all[j] == c);
    }
    assert forall|c: char| last.contains(c) implies all.contains(c) by {
        let j = choose|j: int| 0 <= j < last.len() && last[j] == c;
        assert(all[earlier.len() + j] == c);
    }
    if i < n - 1 {
        lemma_list_alphabets_holds(v, n - 1, i);
    }
}

/// A word over some symbols is a word over more symbols.
pub proof fn lemma_word_over_more(w: Seq<char>, few: Seq<char>, more: Seq<char>)
    requires
        word_over(w, few),
        forall|c: char| few.contains(c) ==> more.contains(c),
    ensures
        word_over(w, more),
{
    assert forall|i: int| 0 <= i < w.len() implies more.contains(#[trigger] w[i]) by {
        assert(few.contains(w[i]));
    }
}

/// A word whose two parts are over an alphabet is over it.
pub proof fn lemma_word_over_parts(w: Seq<char>, k: int, alphabet: Seq<char>)
    requires
        0 <= k <= w.len(),
        word_over(w.take(k), alphabet),
        word_over(w.skip(k), alphabet),
    ensures
        word_over(w, alphabet),
{
    assert forall|i: int| 0 <= i < w.len() implies alphabet.contains(#[trigger] w[i]) by {
        if i < k {
            assert(w.take(k)[i] == w[i]);
        } else {
            assert(w.skip(k)[i - k] == w[i]);
        }
    }
}

/// A word that the first `n` expressions of a list match, one after the
/// other, is made of their symbols.
pub proof fn lemma_matches_list_symbols(v: Seq<RegExprView>, n: int, w: Seq<char>)
    requires
        0 <= n <= v.len(),
        matches_list(v, n, w),
    ensures
        word_over(w, list_alphabets(v, n)),
    decreases v, n,
{
    if n > 0 {
        let k = choose|k: int|
            0 <= k <= w.len() && matches_list(v, n - 1, #[trigger] w.take(k)) && v[n - 1].matches(
                w.skip(k),
            );
        lemma_matches_list_symbols(v, n - 1, w.take(k));
        v[n - 1].lemma_matches_symbols(w.skip(k));
        lemma_list_alphabets_holds(v, n, n - 1);
        let all = list_alphabets(v, n);
        let earlier = list_alphabets(v, n - 1);
        assert forall|c: char| earlier.contains(c) implies all.contains(c) by {
            let j = choose|j: int| 0 <= j < earlier.len() && earlier[j] == c;
            assert(all[j] == c);
        }
        lemma_word_over_more(w.take(k), earlier, all);
        lemma_word_over_more(w.skip(k), v[n - 1].alphabets(), all);
        lemma_word_over_parts(w, k, all);
    }
}

} // verus!
