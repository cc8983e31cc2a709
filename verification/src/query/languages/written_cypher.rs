//! What queries mean that are written down in the Cypher-like language, and that the
//! simple language understands them alike.

use crate::float::Float64;
use crate::float_display::magnitude_text;
use crate::float_laws::{law_double_reads_back, lemma_double_text, lemma_run_ends};
use crate::float_text::is_digit;
use crate::model::edge::EdgeView;
use crate::model::error::GraphErrorView;
use crate::model::node::NodeView;
use crate::model::value::ValueView;
use crate::number_text::{law_integer_reads_back, lemma_numeral, rest_of};
use crate::query::ast::{
    CommandView, ComparisonOp, ConditionView, EdgeFilterView, LabelConditionView, NodeFilterView,
    WeightCondition,
};
use crate::query::comparison_laws::law_integers_are_finite;
use crate::query::languages::agreement::{
    is_name, is_plain_char, is_plain_text, lemma_capitals, lemma_keywords, lemma_single,
    lemma_small_name, lemma_word_token,
};
use crate::query::languages::cypher_lite;
use crate::query::languages::cypher_lite::CypherLiteLanguage;
use crate::query::languages::cypher_tokens::{
    in_word, is_node_ref, lemma_token_advances, pair_token, quote_end, single_token,
    token_at, tokens_from, tokens_of, word_token, TokenView,
};
use crate::query::languages::simple::{any_edge, any_node, SimpleQueryLanguage};
use crate::query::languages::written_simple::{
    chain_words, edge_filter, law_count_asks_for_a_number, lemma_any_case, lemma_edge_filter,
    lemma_match_commands, lemma_node_filter, match_words, node_filter, spaced, Clause,
};
use crate::query::port::QueryLanguagePort;
use crate::unicode::{ascii_lower, is_ascii_text, is_letter, is_space, same_word, upper};
use vstd::prelude::*;

verus! {

// ------------------------------------------------------------------------ tokens

/// The tokens from a position on, after those in `acc`.
#[verifier::opaque]
spec fn tokens_behind(s: Seq<char>, i: int, acc: Seq<TokenView>) -> Result<
    Seq<TokenView>,
    Seq<char>,
> {
    tokens_from(s, i, acc)
}

/// Whether a text stands in another at a position.
spec fn stands_at(s: Seq<char>, i: int, w: Seq<char>) -> bool {
    0 <= i && i + w.len() <= s.len() && s.subrange(i, i + w.len()) == w
}

/// Whether a word of letters stands at a position and ends there.
spec fn word_stands_at(s: Seq<char>, i: int, w: Seq<char>) -> bool {
    &&& stands_at(s, i, w)
    &&& w.len() > 0
    &&& is_letter(w[0]) || w[0] == '_'
    &&& !is_space(w[0])
    &&& forall|k: int| 0 <= k < w.len() ==> in_word(#[trigger] w[k])
    &&& i + w.len() < s.len() ==> !in_word(s[i + w.len()])
}

proof fn lemma_within(s: Seq<char>, i: int, w: Seq<char>, a: int, b: int)
    requires
        stands_at(s, i, w),
        0 <= a <= b <= w.len(),
    ensures
        stands_at(s, i + a, w.subrange(a, b)),
{
    assert(s.subrange(i + a, i + b) =~= s.subrange(i, i + w.len()).subrange(a, b));
}

proof fn lemma_step_word(s: Seq<char>, i: int, w: Seq<char>, t: TokenView, acc: Seq<TokenView>)
    requires
        word_stands_at(s, i, w),
        word_token(w, upper(w)) == Ok::<TokenView, Seq<char>>(t),
    ensures
        tokens_behind(s, i, acc) == tokens_behind(s, i + w.len(), acc.push(t)),
{
    reveal(tokens_behind);
    let j = i + w.len();
    assert(s.subrange(i, j)[0] == w[0]);
    assert forall|k: int| i <= k < j implies in_word(#[trigger] s[k]) by {
        assert(s.subrange(i, j)[k - i] == w[k - i]);
    }
    lemma_word_token(s, i, j, acc);
}

proof fn lemma_step_space(s: Seq<char>, i: int, acc: Seq<TokenView>)
    requires
        0 <= i < s.len(),
        s[i] == ' ',
    ensures
        tokens_behind(s, i, acc) == tokens_behind(s, i + 1, acc),
{
    reveal(tokens_behind);
    assert(is_space(' '));
}

proof fn lemma_step_mark(s: Seq<char>, i: int, acc: Seq<TokenView>)
    requires
        0 <= i < s.len(),
        single_token(s[i]) is Some,
        i + 1 < s.len() ==> pair_token(s[i], s[i + 1]) is None,
    ensures
        tokens_behind(s, i, acc) == tokens_behind(s, i + 1, acc.push(single_token(s[i])->0)),
{
    reveal(tokens_behind);
    lemma_single(s, i, acc);
}

proof fn lemma_step_arrow(s: Seq<char>, i: int, acc: Seq<TokenView>)
    requires
        0 <= i,
        i + 1 < s.len(),
        s[i] == '-',
        s[i + 1] == '>',
    ensures
        tokens_behind(s, i, acc) == tokens_behind(s, i + 2, acc.push(TokenView::Arrow)),
{
    reveal(tokens_behind);
    lemma_token_advances(s, i);
    assert(token_at(s, i) == Ok::<(TokenView, int), Seq<char>>((TokenView::Arrow, i + 2)));
}

proof fn lemma_tokens_start(s: Seq<char>)
    ensures
        tokens_of(s) == tokens_behind(s, 0, Seq::empty()),
{
    reveal(tokens_behind);
}

proof fn lemma_tokens_end(s: Seq<char>, acc: Seq<TokenView>)
    ensures
        tokens_behind(s, s.len() as int, acc) == Ok::<Seq<TokenView>, Seq<char>>(acc),
{
    reveal(tokens_behind);
}

/// A character of a text that stands in another.
proof fn lemma_char_at(s: Seq<char>, i: int, w: Seq<char>, x: int)
    requires
        stands_at(s, i, w),
        0 <= x < w.len(),
    ensures
        s[i + x] == w[x],
{
    assert(s.subrange(i, i + w.len())[x] == w[x]);
}

/// The token of an operator.
pub open spec fn sign_token(op: ComparisonOp) -> TokenView {
    match op {
        ComparisonOp::Eq => TokenView::Eq,
        ComparisonOp::NotEq => TokenView::NotEq,
        ComparisonOp::Lt => TokenView::Lt,
        ComparisonOp::LtEq => TokenView::LtEq,
        ComparisonOp::Gt => TokenView::Gt,
        ComparisonOp::GtEq => TokenView::GtEq,
    }
}

proof fn lemma_step_sign(s: Seq<char>, i: int, op: ComparisonOp, acc: Seq<TokenView>)
    requires
        stands_at(s, i, op.text()),
        i + op.text().len() < s.len(),
        s[i + op.text().len()] == ' ',
    ensures
        tokens_behind(s, i, acc) == tokens_behind(s, i + op.text().len(), acc.push(sign_token(op))),
{
    reveal(tokens_behind);
    reveal_strlit("=");
    reveal_strlit("!=");
    reveal_strlit("<");
    reveal_strlit("<=");
    reveal_strlit(">");
    reveal_strlit(">=");
    let w = op.text();
    assert(s.subrange(i, i + w.len())[0] == w[0]);
    if w.len() == 2 {
        assert(s.subrange(i, i + w.len())[1] == w[1]);
    }
    lemma_token_advances(s, i);
}

/// Whether a value can be written down: a truth value, an integer that is not below zero,
/// a text without a quote, or a number that is not below zero and needs a point.
pub open spec fn has_cypher_literal(v: ValueView) -> bool {
    match v {
        ValueView::Null => false,
        ValueView::Boolean(_) => true,
        ValueView::Integer(i) => i >= 0,
        ValueView::Float(x) => x.finite() && !x.negative() && v.text().contains('.'),
        ValueView::Text(s) => !s.contains('"'),
    }
}

/// The token of a literal.
pub open spec fn literal_token(v: ValueView) -> TokenView {
    match v {
        ValueView::Null => TokenView::Comma,
        ValueView::Boolean(b) => TokenView::BoolLit(b),
        ValueView::Integer(i) => TokenView::IntLit(i),
        ValueView::Float(x) => TokenView::FloatLit(x),
        ValueView::Text(s) => TokenView::StringLit(s),
    }
}

proof fn lemma_quote_end(s: Seq<char>, i: int, j: int)
    requires
        0 <= i <= j < s.len(),
        forall|k: int| i <= k < j ==> #[trigger] s[k] != '"',
        s[j] == '"',
    ensures
        quote_end(s, i) == j,
    decreases j - i,
{
    if i < j {
        lemma_quote_end(s, i + 1, j);
    }
}

proof fn lemma_truth_word(b: bool)
    ensures
        ({
            let w = ValueView::Boolean(b).text();
            &&& w.len() > 0
            &&& is_letter(w[0])
            &&& !is_space(w[0])
            &&& forall|k: int| 0 <= k < w.len() ==> in_word(#[trigger] w[k])
            &&& word_token(w, upper(w)) == Ok::<TokenView, Seq<char>>(TokenView::BoolLit(b))
        }),
{
    reveal_strlit("true");
    reveal_strlit("false");
    reveal_strlit("TRUE");
    reveal_strlit("FALSE");
    assert(is_ascii_text("true"@));
    assert(is_ascii_text("false"@));
    assert(upper("true"@) =~= "TRUE"@);
    assert(upper("false"@) =~= "FALSE"@);
    assert("TRUE"@[0] != "FALSE"@[0]);
}

/// A literal of any kind is read as one token that holds its value.
#[verifier::rlimit(50)]
proof fn lemma_step_literal(s: Seq<char>, i: int, v: ValueView, acc: Seq<TokenView>)
    requires
        stands_at(s, i, v.text()),
        has_cypher_literal(v),
        i + v.text().len() < s.len() ==> s[i + v.text().len()] == ' ',
    ensures
        tokens_behind(s, i, acc) == tokens_behind(s, i + v.text().len(), acc.push(literal_token(v))),
{
    reveal(tokens_behind);
    let w = v.text();
    let j = i + w.len();
    assert forall|k: int| i <= k < j implies #[trigger] s[k] == w[k - i] by {
        assert(s.subrange(i, j)[k - i] == w[k - i]);
    }
    match v {
        ValueView::Boolean(b) => {
            lemma_truth_word(b);
            lemma_step_word(s, i, w, TokenView::BoolLit(b), acc);
        },
        ValueView::Text(t) => {
            reveal_strlit("\"");
            assert(s[i] == '"' && s[j - 1] == '"');
            assert forall|k: int| i + 1 <= k < j - 1 implies #[trigger] s[k] != '"' by {
                assert(s[k] == t[k - i - 1]);
            }
            lemma_quote_end(s, i + 1, j - 1);
            assert(s.subrange(i + 1, j - 1) =~= t);
            lemma_token_advances(s, i);
        },
        ValueView::Integer(n) => {
            lemma_numeral(n as nat);
            law_integer_reads_back(n);
            assert forall|k: int| i <= k < j implies is_digit(#[trigger] s[k]) by {
                assert(is_digit(w[k - i]));
            }
            lemma_run_ends(s, i, j);
            assert(is_digit(s[i]));
            assert(s.subrange(i, j) == w);
            lemma_token_advances(s, i);
        },
        ValueView::Float(x) => {
            let point = lemma_double_text(x);
            law_double_reads_back(x);
            assert(w == magnitude_text(x.magnitude()));
            let d = choose|d: int| 0 <= d < w.len() && w[d] == '.';
            assert(d == point) by {
                if d != point {
                    assert(is_digit(w[d]));
                }
            }
            assert forall|k: int| i <= k < i + point implies is_digit(#[trigger] s[k]) by {
                assert(is_digit(w[k - i]));
            }
            assert forall|k: int| i + point + 1 <= k < j implies is_digit(#[trigger] s[k]) by {
                assert(is_digit(w[k - i]));
            }
            assert(s[i + point] == '.');
            lemma_run_ends(s, i, i + point);
            lemma_run_ends(s, i + point + 1, j);
            assert(is_digit(w[0]));
            assert(s[i] == w[0]);
            assert(s.subrange(i, j) == w);
            lemma_token_advances(s, i);
        },
        ValueView::Null => {},
    }
}

/// A literal that is written down is read as its value.
pub proof fn law_cypher_literals_read_back(v: ValueView)
    requires
        has_cypher_literal(v),
    ensures
        tokens_of(v.text()) matches Ok(ts) && ts.len() == 1 && cypher_lite::read_value(ts, 0)
            == Ok::<(ValueView, int), Seq<char>>((v, 1)),
{
    reveal(tokens_behind);
    let w = v.text();
    assert(w.subrange(0, w.len() as int) =~= w);
    lemma_step_literal(w, 0, v, Seq::empty());
}

// -------------------------------------------------------------------- conditions

/// A condition on a property of what a variable stands for.
pub open spec fn condition_text(var: char, c: ConditionView) -> Seq<char> {
    seq![var] + "."@ + c.key + " "@ + c.op.text() + " "@ + c.value.text()
}

/// Conditions with `AND` between them.
pub open spec fn chain_text(var: char, cs: Seq<ConditionView>) -> Seq<char>
    decreases cs.len(),
{
    if cs.len() == 0 {
        Seq::empty()
    } else if cs.len() == 1 {
        condition_text(var, cs[0])
    } else {
        chain_text(var, cs.drop_last()) + " AND "@ + condition_text(var, cs.last())
    }
}

/// Whether a condition can be written down.
pub open spec fn is_writable(c: ConditionView) -> bool {
    is_name(c.key) && has_cypher_literal(c.value)
}

spec fn condition_tokens(var: char, c: ConditionView) -> Seq<TokenView> {
    seq![
        TokenView::Ident(seq![var]),
        TokenView::Dot,
        TokenView::Ident(c.key),
        sign_token(c.op),
        literal_token(c.value),
    ]
}

spec fn chain_tokens(var: char, cs: Seq<ConditionView>) -> Seq<TokenView>
    decreases cs.len(),
{
    if cs.len() == 0 {
        Seq::empty()
    } else if cs.len() == 1 {
        condition_tokens(var, cs[0])
    } else {
        chain_tokens(var, cs.drop_last()) + seq![TokenView::Keyword("AND"@)] + condition_tokens(
            var,
            cs.last(),
        )
    }
}

#[verifier::rlimit(50)]
proof fn lemma_condition_tokens(
    s: Seq<char>,
    i: int,
    var: char,
    c: ConditionView,
    acc: Seq<TokenView>,
)
    requires
        var == 'n' || var == 'r',
        is_writable(c),
        stands_at(s, i, condition_text(var, c)),
        i + condition_text(var, c).len() < s.len(),
        s[i + condition_text(var, c).len()] == ' ',
    ensures
        tokens_behind(s, i, acc) == tokens_behind(
            s,
            i + condition_text(var, c).len(),
            acc + condition_tokens(var, c),
        ),
{
    reveal_strlit(".");
    reveal_strlit(" ");
    let w = condition_text(var, c);
    let k = c.key.len() as int;
    let o = c.op.text().len() as int;
    let v = c.value.text().len() as int;
    assert(w.len() == 4 + k + o + v);
    lemma_char_at(s, i, w, 1);
    lemma_char_at(s, i, w, 2);
    lemma_char_at(s, i, w, 2 + k);
    lemma_char_at(s, i, w, 3 + k + o);
    lemma_small_name();
    lemma_within(s, i, w, 0, 1);
    assert(w.subrange(0, 1) =~= seq![var]);
    assert(w[1] == '.');
    lemma_step_word(s, i, seq![var], TokenView::Ident(seq![var]), acc);
    let t1 = acc.push(TokenView::Ident(seq![var]));
    assert(w[2] == c.key[0]);
    lemma_step_mark(s, i + 1, t1);
    let t2 = t1.push(TokenView::Dot);
    lemma_within(s, i, w, 2, 2 + k);
    assert(w.subrange(2, 2 + k) =~= c.key);
    assert(w[2 + k] == ' ');
    lemma_step_word(s, i + 2, c.key, TokenView::Ident(c.key), t2);
    let t3 = t2.push(TokenView::Ident(c.key));
    lemma_step_space(s, i + 2 + k, t3);
    lemma_within(s, i, w, 3 + k, 3 + k + o);
    assert(w.subrange(3 + k, 3 + k + o) =~= c.op.text());
    assert(w[3 + k + o] == ' ');
    lemma_step_sign(s, i + 3 + k, c.op, t3);
    let t4 = t3.push(sign_token(c.op));
    lemma_step_space(s, i + 3 + k + o, t4);
    lemma_within(s, i, w, 4 + k + o, 4 + k + o + v);
    assert(w.subrange(4 + k + o, 4 + k + o + v) =~= c.value.text());
    lemma_step_literal(s, i + 4 + k + o, c.value, t4);
    assert(t4.push(literal_token(c.value)) =~= acc + condition_tokens(var, c));
}

#[verifier::rlimit(50)]
proof fn lemma_chain_tokens(
    s: Seq<char>,
    i: int,
    var: char,
    cs: Seq<ConditionView>,
    acc: Seq<TokenView>,
)
    requires
        var == 'n' || var == 'r',
        cs.len() > 0,
        forall|k: int| 0 <= k < cs.len() ==> is_writable(#[trigger] cs[k]),
        stands_at(s, i, chain_text(var, cs)),
        i + chain_text(var, cs).len() < s.len(),
        s[i + chain_text(var, cs).len()] == ' ',
    ensures
        tokens_behind(s, i, acc) == tokens_behind(
            s,
            i + chain_text(var, cs).len(),
            acc + chain_tokens(var, cs),
        ),
    decreases cs.len(),
{
    if cs.len() == 1 {
        lemma_condition_tokens(s, i, var, cs[0], acc);
    } else {
        reveal_strlit(" AND ");
        reveal_strlit("AND");
        let rest = cs.drop_last();
        let c = cs.last();
        let w = chain_text(var, cs);
        let a = chain_text(var, rest).len() as int;
        let b = condition_text(var, c).len() as int;
        assert(w.len() == a + 5 + b);
        lemma_char_at(s, i, w, a);
        lemma_char_at(s, i, w, a + 4);
        assert forall|k: int| 0 <= k < rest.len() implies is_writable(#[trigger] rest[k]) by {
            assert(rest[k] == cs[k]);
        }
        assert(is_writable(cs[cs.len() - 1]));
        lemma_within(s, i, w, 0, a);
        assert(w.subrange(0, a) =~= chain_text(var, rest));
        assert(w[a] == ' ');
        lemma_chain_tokens(s, i, var, rest, acc);
        let t1 = acc + chain_tokens(var, rest);
        lemma_step_space(s, i + a, t1);
        lemma_within(s, i, w, a + 1, a + 4);
        assert(w.subrange(a + 1, a + 4) =~= "AND"@);
        assert(w[a + 4] == ' ');
        lemma_capitals("AND"@);
        lemma_condition_keywords();
        lemma_step_word(s, i + a + 1, "AND"@, TokenView::Keyword("AND"@), t1);
        let t2 = t1.push(TokenView::Keyword("AND"@));
        lemma_step_space(s, i + a + 4, t2);
        lemma_within(s, i, w, a + 5, a + 5 + b);
        assert(w.subrange(a + 5, a + 5 + b) =~= condition_text(var, c));
        lemma_condition_tokens(s, i + a + 5, var, c, t2);
        assert(t2 + condition_tokens(var, c) =~= acc + chain_tokens(var, cs));
    }
}

proof fn lemma_condition_keywords()
    ensures
        word_token("AND"@, "AND"@) == Ok::<TokenView, Seq<char>>(TokenView::Keyword("AND"@)),
        word_token("WHERE"@, "WHERE"@) == Ok::<TokenView, Seq<char>>(TokenView::Keyword("WHERE"@)),
{
    reveal_strlit("AND");
    reveal_strlit("WHERE");
    reveal_strlit("TRUE");
    reveal_strlit("FALSE");
    assert("WHERE"@[0] != "FALSE"@[0]);
}

proof fn lemma_chain_places(var: char, cs: Seq<ConditionView>)
    requires
        cs.len() > 0,
    ensures
        chain_tokens(var, cs).len() == 6 * cs.len() - 1,
        forall|i: int|
            0 <= i < cs.len() ==> {
                &&& chain_tokens(var, cs)[6 * i + 1] == TokenView::Dot
                &&& chain_tokens(var, cs)[6 * i + 2] == TokenView::Ident((#[trigger] cs[i]).key)
                &&& chain_tokens(var, cs)[6 * i + 3] == sign_token(cs[i].op)
                &&& chain_tokens(var, cs)[6 * i + 4] == literal_token(cs[i].value)
                &&& i < cs.len() - 1 ==> chain_tokens(var, cs)[6 * i + 5] == TokenView::Keyword(
                    "AND"@,
                )
            },
    decreases cs.len(),
{
    if cs.len() > 1 {
        let rest = cs.drop_last();
        lemma_chain_places(var, rest);
        let a = chain_tokens(var, rest);
        let all = chain_tokens(var, cs);
        assert(all.len() == a.len() + 6);
        assert forall|i: int| 0 <= i < cs.len() implies {
            &&& all[6 * i + 1] == TokenView::Dot
            &&& all[6 * i + 2] == TokenView::Ident((#[trigger] cs[i]).key)
            &&& all[6 * i + 3] == sign_token(cs[i].op)
            &&& all[6 * i + 4] == literal_token(cs[i].value)
            &&& i < cs.len() - 1 ==> all[6 * i + 5] == TokenView::Keyword("AND"@)
        } by {
            if i < rest.len() {
                assert(rest[i] == cs[i]);
                assert(all[6 * i + 1] == a[6 * i + 1]);
                assert(all[6 * i + 2] == a[6 * i + 2]);
                assert(all[6 * i + 3] == a[6 * i + 3]);
                assert(all[6 * i + 4] == a[6 * i + 4]);
                if i < rest.len() - 1 {
                    assert(all[6 * i + 5] == a[6 * i + 5]);
                } else {
                    assert(all[6 * i + 5] == TokenView::Keyword("AND"@));
                }
            }
        }
    }
}

/// What a condition on edges is about: their weight if it bears that name, else a
/// property.
pub open spec fn edge_clause(c: ConditionView) -> Clause {
    if same_word(c.key, "weight"@) {
        Clause::Weight(
            WeightCondition {
                op: c.op,
                value: match c.value {
                    ValueView::Integer(i) => Float64::of_int(i as int),
                    ValueView::Float(x) => x,
                    _ => Float64::of_bits(0),
                },
            },
        )
    } else {
        Clause::Property(c)
    }
}

/// Conditions on nodes.
pub open spec fn node_clauses(cs: Seq<ConditionView>) -> Seq<Clause> {
    cs.map_values(|c: ConditionView| Clause::Property(c))
}

/// Conditions on edges.
pub open spec fn edge_clauses(cs: Seq<ConditionView>) -> Seq<Clause> {
    cs.map_values(|c: ConditionView| edge_clause(c))
}

/// Whether conditions stand in tokens from a position on, with `RETURN` behind them.
spec fn conditions_from(ts: Seq<TokenView>, p: int, cs: Seq<ConditionView>) -> bool {
    &&& 0 <= p
    &&& p + 6 * cs.len() <= ts.len()
    &&& forall|i: int|
        0 <= i < cs.len() ==> {
            &&& ts[p + 6 * i + 1] == TokenView::Dot
            &&& ts[p + 6 * i + 2] == TokenView::Ident((#[trigger] cs[i]).key)
            &&& ts[p + 6 * i + 3] == sign_token(cs[i].op)
            &&& ts[p + 6 * i + 4] == literal_token(cs[i].value)
            &&& ts[p + 6 * i + 5] == TokenView::Keyword(
                if i < cs.len() - 1 {
                    "AND"@
                } else {
                    "RETURN"@
                },
            )
        }
    &&& forall|i: int| 0 <= i < cs.len() ==> is_writable(#[trigger] cs[i])
}

proof fn lemma_condition_read(ts: Seq<TokenView>, p: int, cs: Seq<ConditionView>, i: int)
    requires
        conditions_from(ts, p, cs),
        0 <= i < cs.len(),
    ensures
        cypher_lite::read_condition(ts, p + 6 * i) == Ok::<(ConditionView, int), Seq<char>>(
            (cs[i], p + 6 * i + 5),
        ),
{
    let q = p + 6 * i;
    let c = cs[i];
    assert(is_writable(c));
    assert(cypher_lite::read_op(ts, q + 3) == Ok::<(ComparisonOp, int), Seq<char>>((c.op, q + 4)));
    assert(cypher_lite::read_value(ts, q + 4) == Ok::<(ValueView, int), Seq<char>>(
        (c.value, q + 5),
    ));
}

proof fn lemma_node_conditions(
    ts: Seq<TokenView>,
    p: int,
    cs: Seq<ConditionView>,
    i: int,
    f: NodeFilterView,
)
    requires
        conditions_from(ts, p, cs),
        0 <= i < cs.len(),
    ensures
        cypher_lite::node_conditions(ts, p + 6 * i, f) == Ok::<(NodeFilterView, int), Seq<char>>(
            (node_filter(f, node_clauses(cs), i), p + 6 * cs.len() - 1),
        ),
    decreases cs.len() - i,
{
    reveal_strlit("AND");
    reveal_strlit("RETURN");
    assert("AND"@.len() != "RETURN"@.len());
    lemma_condition_read(ts, p, cs, i);
    let g = f.and_property(cs[i]);
    assert(node_clauses(cs)[i] == Clause::Property(cs[i]));
    reveal_with_fuel(cypher_lite::node_conditions, 2);
    reveal_with_fuel(node_filter, 2);
    if i < cs.len() - 1 {
        lemma_node_conditions(ts, p, cs, i + 1, g);
    }
}

/// Whether a condition on a weight compares it with a number.
pub open spec fn weighs_numbers(c: ConditionView) -> bool {
    same_word(c.key, "weight"@) ==> c.value is Integer || c.value is Float
}

proof fn lemma_edge_conditions(
    ts: Seq<TokenView>,
    p: int,
    cs: Seq<ConditionView>,
    i: int,
    f: EdgeFilterView,
)
    requires
        conditions_from(ts, p, cs),
        0 <= i < cs.len(),
        forall|k: int| 0 <= k < cs.len() ==> weighs_numbers(#[trigger] cs[k]),
    ensures
        cypher_lite::edge_conditions(ts, p + 6 * i, f) == Ok::<(EdgeFilterView, int), Seq<char>>(
            (edge_filter(f, edge_clauses(cs), i), p + 6 * cs.len() - 1),
        ),
    decreases cs.len() - i,
{
    reveal_strlit("AND");
    reveal_strlit("RETURN");
    assert("AND"@.len() != "RETURN"@.len());
    lemma_condition_read(ts, p, cs, i);
    let c = cs[i];
    assert(weighs_numbers(c));
    let g = match edge_clause(c) {
        Clause::Weight(w) => f.and_weight(w),
        _ => f.and_property(c),
    };
    assert(edge_clauses(cs)[i] == edge_clause(c));
    assert(cypher_lite::with_edge_condition(f, c) == Ok::<EdgeFilterView, Seq<char>>(g));
    reveal_with_fuel(cypher_lite::edge_conditions, 2);
    reveal_with_fuel(edge_filter, 2);
    if i < cs.len() - 1 {
        lemma_edge_conditions(ts, p, cs, i + 1, g);
    }
}

// ----------------------------------------------------------------- whole queries

/// A query for the nodes with a label that meet conditions.
pub open spec fn node_query(l: Seq<char>, cs: Seq<ConditionView>) -> Seq<char> {
    "MATCH (n:"@ + l + ") WHERE "@ + chain_text('n', cs) + " RETURN n"@
}

/// A query for the edges with a label that meet conditions.
pub open spec fn edge_query(l: Seq<char>, cs: Seq<ConditionView>) -> Seq<char> {
    "MATCH ()-[r:"@ + l + "]->() WHERE "@ + chain_text('r', cs) + " RETURN r"@
}

spec fn node_head(l: Seq<char>) -> Seq<TokenView> {
    seq![
        TokenView::Keyword("MATCH"@),
        TokenView::LParen,
        TokenView::Ident(seq!['n']),
        TokenView::Colon,
        TokenView::Ident(l),
        TokenView::RParen,
        TokenView::Keyword("WHERE"@),
    ]
}

spec fn edge_head(l: Seq<char>) -> Seq<TokenView> {
    seq![
        TokenView::Keyword("MATCH"@),
        TokenView::LParen,
        TokenView::RParen,
        TokenView::Dash,
        TokenView::LBracket,
        TokenView::Ident(seq!['r']),
        TokenView::Colon,
        TokenView::Ident(l),
        TokenView::RBracket,
        TokenView::Arrow,
        TokenView::LParen,
        TokenView::RParen,
        TokenView::Keyword("WHERE"@),
    ]
}

spec fn query_end(var: char) -> Seq<TokenView> {
    seq![TokenView::Keyword("RETURN"@), TokenView::Ident(seq![var])]
}

#[verifier::rlimit(50)]
proof fn lemma_node_head(s: Seq<char>, l: Seq<char>)
    requires
        is_name(l),
        stands_at(s, 0, "MATCH (n:"@ + l + ") WHERE "@),
    ensures
        tokens_of(s) == tokens_behind(s, 17 + l.len() as int, node_head(l)),
{
    reveal_strlit("MATCH (n:");
    reveal_strlit(") WHERE ");
    reveal_strlit("MATCH");
    reveal_strlit("WHERE");
    let n = l.len() as int;
    let w = "MATCH (n:"@ + l + ") WHERE "@;
    assert(w.len() == 17 + n);
    assert forall|x: int| 0 <= x < w.len() implies #[trigger] w[x] == s[x] by {
        assert(s.subrange(0, w.len() as int)[x] == w[x]);
    }
    lemma_capitals("MATCH"@);
    lemma_capitals("WHERE"@);
    lemma_keywords();
    lemma_condition_keywords();
    lemma_small_name();
    let none = Seq::<TokenView>::empty();
    lemma_tokens_start(s);
    lemma_within(s, 0, w, 0, 5);
    assert(w.subrange(0, 5) =~= "MATCH"@);
    assert(w[5] == ' ' && w[6] == '(' && w[7] == 'n' && w[8] == ':');
    lemma_step_word(s, 0, "MATCH"@, TokenView::Keyword("MATCH"@), none);
    let t1 = none.push(TokenView::Keyword("MATCH"@));
    lemma_step_space(s, 5, t1);
    lemma_step_mark(s, 6, t1);
    let t2 = t1.push(TokenView::LParen);
    lemma_within(s, 0, w, 7, 8);
    assert(w.subrange(7, 8) =~= seq!['n']);
    lemma_step_word(s, 7, seq!['n'], TokenView::Ident(seq!['n']), t2);
    let t3 = t2.push(TokenView::Ident(seq!['n']));
    lemma_step_mark(s, 8, t3);
    let t4 = t3.push(TokenView::Colon);
    lemma_within(s, 0, w, 9, 9 + n);
    assert(w.subrange(9, 9 + n) =~= l);
    assert(w[9 + n] == ')' && w[10 + n] == ' ');
    lemma_step_word(s, 9, l, TokenView::Ident(l), t4);
    let t5 = t4.push(TokenView::Ident(l));
    lemma_step_mark(s, 9 + n, t5);
    let t6 = t5.push(TokenView::RParen);
    lemma_step_space(s, 10 + n, t6);
    lemma_within(s, 0, w, 11 + n, 16 + n);
    assert(w.subrange(11 + n, 16 + n) =~= "WHERE"@);
    assert(w[16 + n] == ' ');
    lemma_step_word(s, 11 + n, "WHERE"@, TokenView::Keyword("WHERE"@), t6);
    let t7 = t6.push(TokenView::Keyword("WHERE"@));
    lemma_step_space(s, 16 + n, t7);
    assert(t7 =~= node_head(l));
}

#[verifier::rlimit(50)]
proof fn lemma_edge_head(s: Seq<char>, l: Seq<char>)
    requires
        is_name(l),
        stands_at(s, 0, "MATCH ()-[r:"@ + l + "]->() WHERE "@),
    ensures
        tokens_of(s) == tokens_behind(s, 24 + l.len() as int, edge_head(l)),
{
    reveal_strlit("MATCH ()-[r:");
    reveal_strlit("]->() WHERE ");
    reveal_strlit("MATCH");
    let n = l.len() as int;
    let w = "MATCH ()-[r:"@ + l + "]->() WHERE "@;
    assert(w.len() == 24 + n);
    assert forall|x: int| 0 <= x < w.len() implies #[trigger] w[x] == s[x] by {
        assert(s.subrange(0, w.len() as int)[x] == w[x]);
    }
    lemma_capitals("MATCH"@);
    lemma_keywords();
    lemma_small_name();
    let none = Seq::<TokenView>::empty();
    lemma_tokens_start(s);
    lemma_within(s, 0, w, 0, 5);
    assert(w.subrange(0, 5) =~= "MATCH"@);
    assert(w[5] == ' ' && w[6] == '(' && w[7] == ')' && w[8] == '-' && w[9] == '[' && w[10] == 'r'
        && w[11] == ':');
    lemma_step_word(s, 0, "MATCH"@, TokenView::Keyword("MATCH"@), none);
    let t1 = none.push(TokenView::Keyword("MATCH"@));
    lemma_step_space(s, 5, t1);
    lemma_step_mark(s, 6, t1);
    let t2 = t1.push(TokenView::LParen);
    lemma_step_mark(s, 7, t2);
    let t3 = t2.push(TokenView::RParen);
    lemma_step_mark(s, 8, t3);
    let t4 = t3.push(TokenView::Dash);
    lemma_step_mark(s, 9, t4);
    let t5 = t4.push(TokenView::LBracket);
    lemma_within(s, 0, w, 10, 11);
    assert(w.subrange(10, 11) =~= seq!['r']);
    lemma_step_word(s, 10, seq!['r'], TokenView::Ident(seq!['r']), t5);
    let t6 = t5.push(TokenView::Ident(seq!['r']));
    assert(w[12] == l[0]);
    lemma_step_mark(s, 11, t6);
    let t7 = t6.push(TokenView::Colon);
    lemma_within(s, 0, w, 12, 12 + n);
    assert(w.subrange(12, 12 + n) =~= l);
    assert(w[12 + n] == ']');
    lemma_step_word(s, 12, l, TokenView::Ident(l), t7);
    let t8 = t7.push(TokenView::Ident(l));
    assert(t8 =~= edge_head(l).take(8));
    lemma_edge_head_end(s, l);
}

#[verifier::rlimit(50)]
proof fn lemma_edge_head_end(s: Seq<char>, l: Seq<char>)
    requires
        stands_at(s, 0, "MATCH ()-[r:"@ + l + "]->() WHERE "@),
    ensures
        tokens_behind(s, 12 + l.len() as int, edge_head(l).take(8)) == tokens_behind(
            s,
            24 + l.len() as int,
            edge_head(l),
        ),
{
    reveal_strlit("MATCH ()-[r:");
    reveal_strlit("]->() WHERE ");
    reveal_strlit("WHERE");
    let n = l.len() as int;
    let w = "MATCH ()-[r:"@ + l + "]->() WHERE "@;
    assert(w.len() == 24 + n);
    assert forall|x: int| 0 <= x < w.len() implies #[trigger] w[x] == s[x] by {
        assert(s.subrange(0, w.len() as int)[x] == w[x]);
    }
    lemma_capitals("WHERE"@);
    lemma_condition_keywords();
    let t8 = edge_head(l).take(8);
    assert(w[12 + n] == ']' && w[13 + n] == '-' && w[14 + n] == '>' && w[15 + n] == '(' && w[16 + n]
        == ')' && w[17 + n] == ' ');
    lemma_step_mark(s, 12 + n, t8);
    let t9 = t8.push(TokenView::RBracket);
    lemma_step_arrow(s, 13 + n, t9);
    let t10 = t9.push(TokenView::Arrow);
    lemma_step_mark(s, 15 + n, t10);
    let t11 = t10.push(TokenView::LParen);
    lemma_step_mark(s, 16 + n, t11);
    let t12 = t11.push(TokenView::RParen);
    lemma_step_space(s, 17 + n, t12);
    lemma_within(s, 0, w, 18 + n, 23 + n);
    assert(w.subrange(18 + n, 23 + n) =~= "WHERE"@);
    assert(w[23 + n] == ' ');
    lemma_step_word(s, 18 + n, "WHERE"@, TokenView::Keyword("WHERE"@), t12);
    let t13 = t12.push(TokenView::Keyword("WHERE"@));
    lemma_step_space(s, 23 + n, t13);
    assert(t13 =~= edge_head(l));
}

#[verifier::rlimit(50)]
proof fn lemma_query_end(s: Seq<char>, i: int, var: char, acc: Seq<TokenView>)
    requires
        var == 'n' || var == 'r',
        0 <= i,
        s.len() == i + 9,
        s.skip(i) == " RETURN "@ + seq![var],
    ensures
        tokens_behind(s, i, acc) == Ok::<Seq<TokenView>, Seq<char>>(acc + query_end(var)),
{
    reveal_strlit(" RETURN ");
    reveal_strlit("RETURN");
    let w = " RETURN "@ + seq![var];
    assert forall|x: int| 0 <= x < w.len() implies #[trigger] w[x] == s[i + x] by {
        assert(s.skip(i)[x] == w[x]);
    }
    assert(s.subrange(i, i + 9) =~= w);
    lemma_capitals("RETURN"@);
    lemma_keywords();
    lemma_small_name();
    assert(w[0] == ' ' && w[7] == ' ');
    lemma_step_space(s, i, acc);
    lemma_within(s, i, w, 1, 7);
    assert(w.subrange(1, 7) =~= "RETURN"@);
    lemma_step_word(s, i + 1, "RETURN"@, TokenView::Keyword("RETURN"@), acc);
    let t1 = acc.push(TokenView::Keyword("RETURN"@));
    lemma_step_space(s, i + 7, t1);
    lemma_within(s, i, w, 8, 9);
    assert(w.subrange(8, 9) =~= seq![var]);
    lemma_step_word(s, i + 8, seq![var], TokenView::Ident(seq![var]), t1);
    lemma_tokens_end(s, t1.push(TokenView::Ident(seq![var])));
    assert(t1.push(TokenView::Ident(seq![var])) =~= acc + query_end(var));
}

#[verifier::rlimit(50)]
proof fn lemma_node_query_tokens(l: Seq<char>, cs: Seq<ConditionView>)
    requires
        is_name(l),
        cs.len() > 0,
        forall|i: int| 0 <= i < cs.len() ==> is_writable(#[trigger] cs[i]),
    ensures
        tokens_of(node_query(l, cs)) == Ok::<Seq<TokenView>, Seq<char>>(
            node_head(l) + chain_tokens('n', cs) + query_end('n'),
        ),
{
    reveal(tokens_behind);
    reveal_strlit("MATCH (n:");
    reveal_strlit(") WHERE ");
    reveal_strlit(" RETURN n");
    reveal_strlit(" RETURN ");
    let s = node_query(l, cs);
    let head = "MATCH (n:"@ + l + ") WHERE "@;
    let chain = chain_text('n', cs);
    let a = head.len() as int;
    let b = chain.len() as int;
    assert(a == 17 + l.len());
    assert(s.len() == a + b + 9);
    assert(s.subrange(0, a) =~= head);
    assert(s.subrange(a, a + b) =~= chain);
    assert(s.skip(a + b) =~= " RETURN "@ + seq!['n']);
    assert(s.skip(a + b)[0] == ' ');
    lemma_node_head(s, l);
    lemma_chain_tokens(s, a, 'n', cs, node_head(l));
    lemma_query_end(s, a + b, 'n', node_head(l) + chain_tokens('n', cs));
}

#[verifier::rlimit(50)]
proof fn lemma_edge_query_tokens(l: Seq<char>, cs: Seq<ConditionView>)
    requires
        is_name(l),
        cs.len() > 0,
        forall|i: int| 0 <= i < cs.len() ==> is_writable(#[trigger] cs[i]),
    ensures
        tokens_of(edge_query(l, cs)) == Ok::<Seq<TokenView>, Seq<char>>(
            edge_head(l) + chain_tokens('r', cs) + query_end('r'),
        ),
{
    reveal(tokens_behind);
    reveal_strlit("MATCH ()-[r:");
    reveal_strlit("]->() WHERE ");
    reveal_strlit(" RETURN r");
    reveal_strlit(" RETURN ");
    let s = edge_query(l, cs);
    let head = "MATCH ()-[r:"@ + l + "]->() WHERE "@;
    let chain = chain_text('r', cs);
    let a = head.len() as int;
    let b = chain.len() as int;
    assert(a == 24 + l.len());
    assert(s.len() == a + b + 9);
    assert(s.subrange(0, a) =~= head);
    assert(s.subrange(a, a + b) =~= chain);
    assert(s.skip(a + b) =~= " RETURN "@ + seq!['r']);
    assert(s.skip(a + b)[0] == ' ');
    lemma_edge_head(s, l);
    lemma_chain_tokens(s, a, 'r', cs, edge_head(l));
    lemma_query_end(s, a + b, 'r', edge_head(l) + chain_tokens('r', cs));
}

#[verifier::rlimit(50)]
proof fn lemma_conditions_placed(
    head: Seq<TokenView>,
    var: char,
    cs: Seq<ConditionView>,
    ts: Seq<TokenView>,
)
    requires
        cs.len() > 0,
        forall|i: int| 0 <= i < cs.len() ==> is_writable(#[trigger] cs[i]),
        ts == head + chain_tokens(var, cs) + query_end(var),
    ensures
        conditions_from(ts, head.len() as int, cs),
{
    lemma_chain_places(var, cs);
    let chain = chain_tokens(var, cs);
    let p = head.len() as int;
    assert forall|k: int| 0 <= k < chain.len() implies #[trigger] ts[p + k] == chain[k] by {}
    assert(ts[p + chain.len()] == TokenView::Keyword("RETURN"@));
    assert forall|i: int| 0 <= i < cs.len() implies {
        &&& ts[p + 6 * i + 1] == TokenView::Dot
        &&& ts[p + 6 * i + 2] == TokenView::Ident((#[trigger] cs[i]).key)
        &&& ts[p + 6 * i + 3] == sign_token(cs[i].op)
        &&& ts[p + 6 * i + 4] == literal_token(cs[i].value)
        &&& ts[p + 6 * i + 5] == TokenView::Keyword(
            if i < cs.len() - 1 {
                "AND"@
            } else {
                "RETURN"@
            },
        )
    } by {
        assert(ts[p + (6 * i + 1)] == chain[6 * i + 1]);
        assert(ts[p + (6 * i + 2)] == chain[6 * i + 2]);
        assert(ts[p + (6 * i + 3)] == chain[6 * i + 3]);
        assert(ts[p + (6 * i + 4)] == chain[6 * i + 4]);
        if i < cs.len() - 1 {
            assert(ts[p + (6 * i + 5)] == chain[6 * i + 5]);
        }
    }
}

#[verifier::rlimit(50)]
proof fn lemma_node_command(l: Seq<char>, cs: Seq<ConditionView>)
    requires
        cs.len() > 0,
        forall|i: int| 0 <= i < cs.len() ==> is_writable(#[trigger] cs[i]),
    ensures
        cypher_lite::command_of(node_head(l) + chain_tokens('n', cs) + query_end('n')) == Ok::<
            CommandView,
            Seq<char>,
        >(
            CommandView::MatchNodes(
                node_filter(NodeFilterView { label: Some(l), ..any_node() }, node_clauses(cs), 0),
            ),
        ),
{
    reveal_strlit("WHERE");
    reveal_strlit("RETURN");
    let ts = node_head(l) + chain_tokens('n', cs) + query_end('n');
    let f = NodeFilterView { label: Some(l), ..any_node() };
    lemma_conditions_placed(node_head(l), 'n', cs, ts);
    assert(ts.take(7) =~= node_head(l));
    assert(forall|k: int| 0 <= k < 7 ==> #[trigger] ts[k] == node_head(l)[k]);
    reveal_with_fuel(cypher_lite::is_relationship, 8);
    assert(!cypher_lite::is_relationship(ts, 1, 0, false));
    assert(cypher_lite::read_label(ts, 3, "expected label after ':'"@) == Ok::<
        (Option<Seq<char>>, int),
        Seq<char>,
    >((Some(l), 5)));
    assert(cypher_lite::read_node_pattern(ts, 1) == Ok::<(Option<Seq<char>>, int), Seq<char>>(
        (Some(l), 6),
    ));
    lemma_node_conditions(ts, 7, cs, 0, f);
    let last = cs.len() - 1;
    assert(ts[7 + 6 * last + 5] == TokenView::Keyword("RETURN"@)) by {
        assert(cs[last] == cs[last]);
    }
    assert(cypher_lite::expect_kw(ts, (6 + 6 * cs.len()) as int, "RETURN"@) is Ok);
}

#[verifier::rlimit(50)]
proof fn lemma_edge_command(l: Seq<char>, cs: Seq<ConditionView>)
    requires
        cs.len() > 0,
        forall|i: int| 0 <= i < cs.len() ==> is_writable(#[trigger] cs[i]),
        forall|i: int| 0 <= i < cs.len() ==> weighs_numbers(#[trigger] cs[i]),
    ensures
        cypher_lite::command_of(edge_head(l) + chain_tokens('r', cs) + query_end('r')) == Ok::<
            CommandView,
            Seq<char>,
        >(
            CommandView::MatchEdges(
                edge_filter(EdgeFilterView { label: Some(l), ..any_edge() }, edge_clauses(cs), 0),
            ),
        ),
{
    reveal_strlit("WHERE");
    reveal_strlit("RETURN");
    let ts = edge_head(l) + chain_tokens('r', cs) + query_end('r');
    let f = EdgeFilterView { label: Some(l), ..any_edge() };
    lemma_conditions_placed(edge_head(l), 'r', cs, ts);
    assert(forall|k: int| 0 <= k < 13 ==> #[trigger] ts[k] == edge_head(l)[k]);
    reveal_with_fuel(cypher_lite::is_relationship, 5);
    assert(cypher_lite::is_relationship(ts, 1, 0, false));
    assert(cypher_lite::read_node_pattern(ts, 1) == Ok::<(Option<Seq<char>>, int), Seq<char>>(
        (None, 3),
    ));
    assert(cypher_lite::read_rel_pattern(ts, 5) == Ok::<(Option<Seq<char>>, int), Seq<char>>(
        (Some(l), 8),
    ));
    assert(cypher_lite::read_node_pattern(ts, 10) == Ok::<(Option<Seq<char>>, int), Seq<char>>(
        (None, 12),
    ));
    assert(cypher_lite::read_relationship(ts, 1) == Ok::<(Option<Seq<char>>, int), Seq<char>>(
        (Some(l), 12),
    ));
    lemma_edge_conditions(ts, 13, cs, 0, f);
    let last = cs.len() - 1;
    assert(ts[13 + 6 * last + 5] == TokenView::Keyword("RETURN"@)) by {
        assert(cs[last] == cs[last]);
    }
    assert(cypher_lite::expect_kw(ts, (12 + 6 * cs.len()) as int, "RETURN"@) is Ok);
}

/// Whether a node meets a condition.
pub open spec fn node_meets(c: ConditionView, n: NodeView) -> bool {
    n.properties.contains_key(c.key) && c.op.holds_values(n.properties[c.key], c.value)
}

/// Whether an edge meets a condition, on its weight if that is named, else on a
/// property.
pub open spec fn edge_meets(c: ConditionView, e: EdgeView) -> bool {
    if same_word(c.key, "weight"@) {
        c.op.holds_values(ValueView::Float(e.weight), c.value)
    } else {
        e.properties.contains_key(c.key) && c.op.holds_values(e.properties[c.key], c.value)
    }
}

/// A query for nodes with a label and conditions, of which there may be any number, asks
/// for the nodes with that label that meet every condition.
pub proof fn law_cypher_node_query_means_its_conditions(l: Seq<char>, cs: Seq<ConditionView>)
    requires
        is_name(l),
        cs.len() > 0,
        forall|i: int| 0 <= i < cs.len() ==> is_writable(#[trigger] cs[i]),
    ensures
        CypherLiteLanguage.command(node_query(l, cs)) matches Ok(CommandView::MatchNodes(f))
            && forall|n: NodeView| #[trigger]
            f.accepts(n) <==> n.label == l && forall|i: int|
                0 <= i < cs.len() ==> node_meets(#[trigger] cs[i], n),
{
    lemma_node_query_tokens(l, cs);
    lemma_node_command(l, cs);
    let start = NodeFilterView { label: Some(l), ..any_node() };
    let clauses = node_clauses(cs);
    let f = node_filter(start, clauses, 0);
    assert forall|n: NodeView| #[trigger] f.accepts(n) <==> n.label == l && forall|i: int|
        0 <= i < cs.len() ==> node_meets(#[trigger] cs[i], n) by {
        lemma_node_filter(start, clauses, 0, n);
        assert(forall|i: int|
            0 <= i < cs.len() ==> #[trigger] clauses[i] == Clause::Property(cs[i]));
        if f.accepts(n) {
            assert forall|i: int| 0 <= i < cs.len() implies node_meets(#[trigger] cs[i], n) by {
                assert(clauses[i].met_by_node(n));
            }
        }
    }
}

/// A query for edges with a label and conditions, of which there may be any number, asks
/// for the edges with that label that meet every condition.
pub proof fn law_cypher_edge_query_means_its_conditions(l: Seq<char>, cs: Seq<ConditionView>)
    requires
        is_name(l),
        cs.len() > 0,
        forall|i: int| 0 <= i < cs.len() ==> is_writable(#[trigger] cs[i]),
        forall|i: int| 0 <= i < cs.len() ==> weighs_numbers(#[trigger] cs[i]),
    ensures
        CypherLiteLanguage.command(edge_query(l, cs)) matches Ok(CommandView::MatchEdges(f))
            && forall|e: EdgeView| #[trigger]
            f.accepts(e) <==> e.label == l && forall|i: int|
                0 <= i < cs.len() ==> edge_meets(#[trigger] cs[i], e),
{
    lemma_edge_query_tokens(l, cs);
    lemma_edge_command(l, cs);
    let start = EdgeFilterView { label: Some(l), ..any_edge() };
    let clauses = edge_clauses(cs);
    let f = edge_filter(start, clauses, 0);
    assert forall|e: EdgeView| #[trigger] f.accepts(e) <==> e.label == l && forall|i: int|
        0 <= i < cs.len() ==> edge_meets(#[trigger] cs[i], e) by {
        lemma_edge_filter(start, clauses, 0, e);
        assert forall|i: int| 0 <= i < cs.len() implies #[trigger] clauses[i] == edge_clause(cs[i])
            && clauses[i].met_by_edge(e) == edge_meets(cs[i], e) by {
            assert(weighs_numbers(cs[i]));
        }
        if f.accepts(e) {
            assert forall|i: int| 0 <= i < cs.len() implies edge_meets(#[trigger] cs[i], e) by {
                assert(clauses[i].met_by_edge(e));
            }
        }
    }
}

proof fn lemma_filters_shift(
    f: NodeFilterView,
    g: EdgeFilterView,
    first: Clause,
    cs: Seq<Clause>,
    i: int,
)
    requires
        0 <= i <= cs.len(),
    ensures
        node_filter(f, seq![first] + cs, i + 1) == node_filter(f, cs, i),
        edge_filter(g, seq![first] + cs, i + 1) == edge_filter(g, cs, i),
    decreases cs.len() - i,
{
    if i < cs.len() {
        let all = seq![first] + cs;
        assert(all[i + 1] == cs[i]);
        let f2 = match cs[i] {
            Clause::Label(l) => f.and_label(l),
            Clause::Property(q) => f.and_property(q),
            Clause::Weight(_) => f,
        };
        let g2 = match cs[i] {
            Clause::Label(l) => g.and_label(l),
            Clause::Property(q) => g.and_property(q),
            Clause::Weight(w) => g.and_weight(w),
        };
        lemma_filters_shift(f2, g2, first, cs, i + 1);
    }
}

/// The condition that a label is the given one.
pub open spec fn labelled(l: Seq<char>) -> Clause {
    Clause::Label(LabelConditionView { op: ComparisonOp::Eq, value: l })
}

proof fn lemma_name_is_plain(k: Seq<char>)
    requires
        is_name(k),
    ensures
        is_plain_text(k),
        !k.contains('"'),
{
    assert forall|i: int| 0 <= i < k.len() implies is_plain_char(#[trigger] k[i]) && k[i]
        != '"' by {
        assert(in_word(k[i]));
    }
}

/// Both languages understand conditions on nodes alike, for every operator and every
/// number of conditions.
pub proof fn law_languages_agree_on_conditions(l: Seq<char>, cs: Seq<ConditionView>)
    requires
        is_name(l),
        cs.len() > 0,
        forall|i: int| 0 <= i < cs.len() ==> is_writable(#[trigger] cs[i]),
    ensures
        CypherLiteLanguage.command(node_query(l, cs)) is Ok,
        CypherLiteLanguage.command(node_query(l, cs)) == SimpleQueryLanguage.command(
            spaced(match_words("NODE"@, seq![labelled(l)] + node_clauses(cs))),
        ),
{
    lemma_node_query_tokens(l, cs);
    lemma_node_command(l, cs);
    let clauses = node_clauses(cs);
    let all = seq![labelled(l)] + clauses;
    lemma_name_is_plain(l);
    assert forall|i: int| 0 <= i < all.len() implies (#[trigger] all[i]).writable() && !(
    all[i] is Weight) by {
        if i > 0 {
            assert(all[i] == Clause::Property(cs[i - 1]));
            assert(is_writable(cs[i - 1]));
            lemma_name_is_plain(cs[i - 1].key);
        }
    }
    lemma_match_commands(all);
    let start = any_node().and_label(LabelConditionView { op: ComparisonOp::Eq, value: l });
    lemma_filters_shift(start, any_edge(), labelled(l), clauses, 0);
    assert(all[0] == labelled(l));
    reveal_with_fuel(node_filter, 2);
    assert(node_filter(any_node(), all, 0) == node_filter(start, all, 1));
}

/// A query for nodes with a label and one condition is read as exactly that label and that
/// condition, with its property, its operator and its value, in both languages.
pub proof fn law_one_condition_is_read(
    l: Seq<char>,
    key: Seq<char>,
    op: ComparisonOp,
    value: ValueView,
)
    requires
        is_name(l),
        is_name(key),
        has_cypher_literal(value),
    ensures
        CypherLiteLanguage.command(
            "MATCH (n:"@ + l + ") WHERE n."@ + key + " "@ + op.text() + " "@ + value.text()
                + " RETURN n"@,
        ) == Ok::<CommandView, GraphErrorView>(
            CommandView::MatchNodes(
                NodeFilterView {
                    label: Some(l),
                    label_conditions: Seq::empty(),
                    conditions: seq![ConditionView { key, op, value }],
                },
            ),
        ),
        SimpleQueryLanguage.command(
            "MATCH NODE WHERE label = \""@ + l + "\" AND props."@ + key + " "@ + op.text() + " "@
                + value.text(),
        ) == Ok::<CommandView, GraphErrorView>(
            CommandView::MatchNodes(
                NodeFilterView {
                    label: Some(l),
                    label_conditions: Seq::empty(),
                    conditions: seq![ConditionView { key, op, value }],
                },
            ),
        ),
{
    let c = ConditionView { key, op, value };
    let cs = seq![c];
    let f = NodeFilterView {
        label: Some(l),
        label_conditions: Seq::empty(),
        conditions: seq![c],
    };
    lemma_node_query_tokens(l, cs);
    lemma_node_command(l, cs);
    law_languages_agree_on_conditions(l, cs);
    let clauses = node_clauses(cs);
    assert(clauses[0] == Clause::Property(c));
    let start = NodeFilterView { label: Some(l), ..any_node() };
    reveal_with_fuel(node_filter, 3);
    assert(start.and_property(c).conditions =~= seq![c]);
    assert(node_filter(start, clauses, 0) == f);
    lemma_one_condition_texts(l, c);
}

#[verifier::rlimit(50)]
proof fn lemma_one_condition_texts(l: Seq<char>, c: ConditionView)
    ensures
        node_query(l, seq![c]) == "MATCH (n:"@ + l + ") WHERE n."@ + c.key + " "@ + c.op.text()
            + " "@ + c.value.text() + " RETURN n"@,
        spaced(match_words("NODE"@, seq![labelled(l)] + node_clauses(seq![c])))
            == "MATCH NODE WHERE label = \""@ + l + "\" AND props."@ + c.key + " "@ + c.op.text()
            + " "@ + c.value.text(),
{
    reveal_strlit(") WHERE ");
    reveal_strlit(") WHERE n.");
    reveal_strlit(".");
    reveal_strlit(" ");
    reveal_strlit("MATCH");
    reveal_strlit("NODE");
    reveal_strlit("WHERE");
    reveal_strlit("label");
    reveal_strlit("AND");
    reveal_strlit("props.");
    reveal_strlit("=");
    reveal_strlit("\"");
    reveal_strlit("MATCH NODE WHERE label = \"");
    reveal_strlit("\" AND props.");
    assert(node_query(l, seq![c]) =~= "MATCH (n:"@ + l + ") WHERE n."@ + c.key + " "@ + c.op.text()
        + " "@ + c.value.text() + " RETURN n"@);
    let all = seq![labelled(l)] + node_clauses(seq![c]);
    assert(all.drop_last() =~= seq![labelled(l)]);
    assert(all.last() == Clause::Property(c));
    let quoted = ValueView::Text(l).text();
    let prop = "props."@ + c.key;
    reveal_with_fuel(chain_words, 2);
    let w = match_words("NODE"@, all);
    let v = seq![
        "MATCH"@,
        "NODE"@,
        "WHERE"@,
        "label"@,
        "="@,
        quoted,
        "AND"@,
        prop,
        c.op.text(),
        c.value.text(),
    ];
    assert(w =~= v);
    lemma_spaced_push(v.take(1), v[1]);
    lemma_spaced_push(v.take(2), v[2]);
    lemma_spaced_push(v.take(3), v[3]);
    lemma_spaced_push(v.take(4), v[4]);
    lemma_spaced_push(v.take(5), v[5]);
    lemma_spaced_push(v.take(6), v[6]);
    lemma_spaced_push(v.take(7), v[7]);
    lemma_spaced_push(v.take(8), v[8]);
    lemma_spaced_push(v.take(9), v[9]);
    assert(v.take(1).push(v[1]) =~= v.take(2));
    assert(v.take(2).push(v[2]) =~= v.take(3));
    assert(v.take(3).push(v[3]) =~= v.take(4));
    assert(v.take(4).push(v[4]) =~= v.take(5));
    assert(v.take(5).push(v[5]) =~= v.take(6));
    assert(v.take(6).push(v[6]) =~= v.take(7));
    assert(v.take(7).push(v[7]) =~= v.take(8));
    assert(v.take(8).push(v[8]) =~= v.take(9));
    assert(v.take(9).push(v[9]) =~= v);
    let head = "MATCH"@ + " "@ + "NODE"@ + " "@ + "WHERE"@ + " "@ + "label"@ + " "@ + "="@ + " "@;
    assert(head + "\""@ =~= "MATCH NODE WHERE label = \""@);
    assert(spaced(v.take(5)) + " "@ == head);
    let mid = "\""@ + " "@ + "AND"@ + " "@ + "props."@;
    assert(mid =~= "\" AND props."@);
    assert(spaced(v.take(8)) =~= head + "\""@ + l + mid + c.key);
}

proof fn lemma_spaced_push(ws: Seq<Seq<char>>, w: Seq<char>)
    requires
        ws.len() > 0,
    ensures
        spaced(ws.push(w)) == spaced(ws) + " "@ + w,
{
    assert(ws.push(w).drop_last() =~= ws);
}

/// Both languages understand conditions on edges alike, on the weight and on properties,
/// for every operator and every number of conditions.
pub proof fn law_languages_agree_on_edge_conditions(l: Seq<char>, cs: Seq<ConditionView>)
    requires
        is_name(l),
        cs.len() > 0,
        forall|i: int| 0 <= i < cs.len() ==> is_writable(#[trigger] cs[i]),
        forall|i: int| 0 <= i < cs.len() ==> weighs_numbers(#[trigger] cs[i]),
    ensures
        CypherLiteLanguage.command(edge_query(l, cs)) is Ok,
        CypherLiteLanguage.command(edge_query(l, cs)) == SimpleQueryLanguage.command(
            spaced(match_words("EDGE"@, seq![labelled(l)] + edge_clauses(cs))),
        ),
{
    lemma_edge_query_tokens(l, cs);
    lemma_edge_command(l, cs);
    let clauses = edge_clauses(cs);
    let all = seq![labelled(l)] + clauses;
    lemma_name_is_plain(l);
    assert forall|i: int| 0 <= i < all.len() implies (#[trigger] all[i]).writable() by {
        if i > 0 {
            let c = cs[i - 1];
            assert(all[i] == edge_clause(c));
            assert(is_writable(c) && weighs_numbers(c));
            lemma_name_is_plain(c.key);
            if let ValueView::Integer(n) = c.value {
                law_integers_are_finite(n);
            }
        }
    }
    lemma_match_commands(all);
    let start = any_edge().and_label(LabelConditionView { op: ComparisonOp::Eq, value: l });
    lemma_filters_shift(any_node(), start, labelled(l), clauses, 0);
    assert(all[0] == labelled(l));
    reveal_with_fuel(edge_filter, 2);
    assert(edge_filter(any_edge(), all, 0) == edge_filter(start, all, 1));
}

/// A count asks for the number of nodes or of edges, with its keywords in any case of
/// letters, and both languages understand it alike.
pub proof fn law_languages_agree_on_counts(count: Seq<char>, what: Seq<char>)
    requires
        same_word(count, "COUNT"@),
        same_word(what, "NODES"@) || same_word(what, "EDGES"@),
    ensures
        CypherLiteLanguage.command(spaced(seq![count, what])) == SimpleQueryLanguage.command(
            spaced(seq![count, what]),
        ),
        CypherLiteLanguage.command(spaced(seq![count, what])) is Ok,
{
    law_count_asks_for_a_number(count, what);
    let kw = if same_word(what, "NODES"@) {
        "NODES"@
    } else {
        "EDGES"@
    };
    lemma_count_tokens(count, what, kw);
    lemma_count_command(kw);
    lemma_count_words(what);
}

proof fn lemma_count_words(what: Seq<char>)
    ensures
        !(same_word(what, "NODES"@) && same_word(what, "EDGES"@)),
        "NODES"@.len() == 5,
        "EDGES"@.len() == 5,
        "COUNT"@.len() == 5,
{
    reveal_strlit("NODES");
    reveal_strlit("EDGES");
    reveal_strlit("COUNT");
    if same_word(what, "NODES"@) && same_word(what, "EDGES"@) {
        assert(ascii_lower(what[0]) == ascii_lower("NODES"@[0]));
        assert(ascii_lower(what[0]) == ascii_lower("EDGES"@[0]));
    }
}

spec fn count_tokens(kw: Seq<char>) -> Seq<TokenView> {
    seq![TokenView::Keyword("COUNT"@), TokenView::Keyword(kw)]
}

proof fn lemma_count_command(kw: Seq<char>)
    requires
        kw == "NODES"@ || kw == "EDGES"@,
    ensures
        cypher_lite::command_of(count_tokens(kw)) == Ok::<CommandView, Seq<char>>(
            if kw == "NODES"@ {
                CommandView::CountNodes
            } else {
                CommandView::CountEdges
            },
        ),
{
    reveal_strlit("MATCH");
    reveal_strlit("TRAVERSE");
    reveal_strlit("PATH");
    reveal_strlit("COUNT");
    reveal_strlit("NODES");
    reveal_strlit("EDGES");
    assert("NODES"@[0] == 'N' && "EDGES"@[0] == 'E');
    assert("COUNT"@[0] == 'C' && "MATCH"@[0] == 'M' && "TRAVERSE"@[0] == 'T' && "PATH"@[0] == 'P');
}

#[verifier::rlimit(50)]
proof fn lemma_count_tokens(count: Seq<char>, what: Seq<char>, kw: Seq<char>)
    requires
        same_word(count, "COUNT"@),
        same_word(what, kw),
        kw == "NODES"@ || kw == "EDGES"@,
    ensures
        tokens_of(spaced(seq![count, what])) == Ok::<Seq<TokenView>, Seq<char>>(count_tokens(kw)),
{
    reveal_strlit(" ");
    lemma_count_words(what);
    lemma_keyword_word(count, "COUNT"@);
    lemma_keyword_word(what, kw);
    let s = spaced(seq![count, what]);
    assert(seq![count, what].drop_last() =~= seq![count]);
    reveal_with_fuel(spaced, 2);
    assert(s =~= count + " "@ + what);
    assert(s.subrange(0, 5) =~= count);
    assert(s.subrange(6, 11) =~= what);
    assert(s[5] == ' ');
    let none = Seq::<TokenView>::empty();
    lemma_tokens_start(s);
    lemma_step_word(s, 0, count, TokenView::Keyword("COUNT"@), none);
    let t1 = none.push(TokenView::Keyword("COUNT"@));
    lemma_step_space(s, 5, t1);
    lemma_step_word(s, 6, what, TokenView::Keyword(kw), t1);
    let ts = t1.push(TokenView::Keyword(kw));
    lemma_tokens_end(s, ts);
    assert(ts =~= count_tokens(kw));
}

proof fn lemma_keyword_word(w: Seq<char>, kw: Seq<char>)
    requires
        same_word(w, kw),
        kw.len() == 5,
        kw == "COUNT"@ || kw == "NODES"@ || kw == "EDGES"@,
    ensures
        w.len() == 5,
        is_letter(w[0]),
        !is_space(w[0]),
        forall|k: int| 0 <= k < w.len() ==> in_word(#[trigger] w[k]),
        word_token(w, upper(w)) == Ok::<TokenView, Seq<char>>(TokenView::Keyword(kw)),
{
    reveal_strlit("COUNT");
    reveal_strlit("NODES");
    reveal_strlit("EDGES");
    reveal_strlit("TRUE");
    reveal_strlit("FALSE");
    lemma_any_case(w, kw);
    assert("TRUE"@.len() == 4 && "FALSE"@[0] == 'F');
    assert forall|k: int| 0 <= k < w.len() implies is_letter(#[trigger] w[k]) && in_word(w[k])
        && !is_space(w[k]) && !is_digit(w[k]) by {
        assert(upper(w)[k] == kw[k]);
        assert('A' <= kw[k] && kw[k] <= 'Z');
        lemma_letter(w, kw, k);
    }
    assert(!is_node_ref(w)) by {
        let rest = rest_of(w);
        assert(rest[0] == w[1]);
    }
}

proof fn lemma_letter(w: Seq<char>, kw: Seq<char>, k: int)
    requires
        same_word(w, kw),
        0 <= k < w.len(),
        'A' <= kw[k] && kw[k] <= 'Z',
    ensures
        ('A' <= w[k] && w[k] <= 'Z') || ('a' <= w[k] && w[k] <= 'z'),
{
    assert(ascii_lower(w[k]) == ascii_lower(kw[k]));
    assert(ascii_lower(kw[k]) as u32 == kw[k] as u32 + 32);
}

/// A token is read as an operator only where it is that of its sign, and as a value only
/// where it is a literal that holds it; a weight is compared with numbers only.
pub proof fn law_only_signs_and_literals_are_read(
    ts: Seq<TokenView>,
    p: int,
    f: EdgeFilterView,
    c: ConditionView,
)
    ensures
        cypher_lite::read_op(ts, p) matches Ok((op, q)) ==> 0 <= p < ts.len() && q == p + 1 && ts[p]
            == sign_token(op),
        cypher_lite::read_value(ts, p) matches Ok((v, q)) ==> 0 <= p < ts.len() && q == p + 1
            && ts[p] == literal_token(v) && !(v is Null),
        cypher_lite::with_edge_condition(f, c) is Ok <==> weighs_numbers(c),
{
}

/// A query is understood only where its first word is one of the four commands.
pub proof fn law_only_commands_are_understood(text: Seq<char>)
    requires
        CypherLiteLanguage.command(text) is Ok,
    ensures
        tokens_of(text) matches Ok(ts) && ts.len() > 0 && (ts[0] == TokenView::Keyword("MATCH"@)
            || ts[0] == TokenView::Keyword("TRAVERSE"@) || ts[0] == TokenView::Keyword("PATH"@)
            || ts[0] == TokenView::Keyword("COUNT"@)),
{
}

// ------------------------------------------------------------- without a label

/// A query for nodes that meet conditions, whatever their label.
pub open spec fn any_node_query(cs: Seq<ConditionView>) -> Seq<char> {
    "MATCH (n) WHERE "@ + chain_text('n', cs) + " RETURN n"@
}

/// A query for edges that meet conditions, whatever their label.
pub open spec fn any_edge_query(cs: Seq<ConditionView>) -> Seq<char> {
    "MATCH ()-[r]->() WHERE "@ + chain_text('r', cs) + " RETURN r"@
}

spec fn any_node_head() -> Seq<TokenView> {
    seq![
        TokenView::Keyword("MATCH"@),
        TokenView::LParen,
        TokenView::Ident(seq!['n']),
        TokenView::RParen,
    ]
}

spec fn any_edge_head() -> Seq<TokenView> {
    seq![
        TokenView::Keyword("MATCH"@),
        TokenView::LParen,
        TokenView::RParen,
        TokenView::Dash,
        TokenView::LBracket,
        TokenView::Ident(seq!['r']),
        TokenView::RBracket,
        TokenView::Arrow,
        TokenView::LParen,
        TokenView::RParen,
    ]
}

#[verifier::rlimit(50)]
proof fn lemma_any_node_head(s: Seq<char>)
    requires
        stands_at(s, 0, "MATCH (n) "@),
    ensures
        tokens_of(s) == tokens_behind(s, 9, any_node_head()),
{
    reveal_strlit("MATCH (n) ");
    reveal_strlit("MATCH");
    let w = "MATCH (n) "@;
    lemma_capitals("MATCH"@);
    lemma_keywords();
    lemma_small_name();
    let none = Seq::<TokenView>::empty();
    lemma_tokens_start(s);
    lemma_within(s, 0, w, 0, 5);
    assert(w.subrange(0, 5) =~= "MATCH"@);
    lemma_char_at(s, 0, w, 5);
    lemma_char_at(s, 0, w, 6);
    lemma_char_at(s, 0, w, 7);
    lemma_char_at(s, 0, w, 8);
    lemma_char_at(s, 0, w, 9);
    lemma_step_word(s, 0, "MATCH"@, TokenView::Keyword("MATCH"@), none);
    let t1 = none.push(TokenView::Keyword("MATCH"@));
    lemma_step_space(s, 5, t1);
    lemma_step_mark(s, 6, t1);
    let t2 = t1.push(TokenView::LParen);
    lemma_within(s, 0, w, 7, 8);
    assert(w.subrange(7, 8) =~= seq!['n']);
    lemma_step_word(s, 7, seq!['n'], TokenView::Ident(seq!['n']), t2);
    let t3 = t2.push(TokenView::Ident(seq!['n']));
    lemma_step_mark(s, 8, t3);
    assert(t3.push(TokenView::RParen) =~= any_node_head());
}

#[verifier::rlimit(50)]
proof fn lemma_any_edge_head(s: Seq<char>)
    requires
        stands_at(s, 0, "MATCH ()-[r]->() "@),
    ensures
        tokens_of(s) == tokens_behind(s, 16, any_edge_head()),
{
    reveal_strlit("MATCH ()-[r]->() ");
    reveal_strlit("MATCH");
    let w = "MATCH ()-[r]->() "@;
    lemma_capitals("MATCH"@);
    lemma_keywords();
    lemma_small_name();
    let none = Seq::<TokenView>::empty();
    lemma_tokens_start(s);
    lemma_within(s, 0, w, 0, 5);
    assert(w.subrange(0, 5) =~= "MATCH"@);
    assert forall|x: int| 0 <= x < 17 implies #[trigger] s[x] == w[x] by {
        lemma_char_at(s, 0, w, x);
    }
    assert(w[5] == ' ' && w[6] == '(' && w[7] == ')' && w[8] == '-' && w[9] == '[' && w[10] == 'r'
        && w[11] == ']' && w[12] == '-' && w[13] == '>' && w[14] == '(' && w[15] == ')' && w[16]
        == ' ');
    lemma_step_word(s, 0, "MATCH"@, TokenView::Keyword("MATCH"@), none);
    let t1 = none.push(TokenView::Keyword("MATCH"@));
    lemma_step_space(s, 5, t1);
    lemma_step_mark(s, 6, t1);
    let t2 = t1.push(TokenView::LParen);
    lemma_step_mark(s, 7, t2);
    let t3 = t2.push(TokenView::RParen);
    lemma_step_mark(s, 8, t3);
    let t4 = t3.push(TokenView::Dash);
    lemma_step_mark(s, 9, t4);
    let t5 = t4.push(TokenView::LBracket);
    lemma_within(s, 0, w, 10, 11);
    assert(w.subrange(10, 11) =~= seq!['r']);
    lemma_step_word(s, 10, seq!['r'], TokenView::Ident(seq!['r']), t5);
    let t6 = t5.push(TokenView::Ident(seq!['r']));
    lemma_step_mark(s, 11, t6);
    let t7 = t6.push(TokenView::RBracket);
    lemma_step_arrow(s, 12, t7);
    let t8 = t7.push(TokenView::Arrow);
    lemma_step_mark(s, 14, t8);
    let t9 = t8.push(TokenView::LParen);
    lemma_step_mark(s, 15, t9);
    assert(t9.push(TokenView::RParen) =~= any_edge_head());
}

proof fn lemma_where(s: Seq<char>, i: int, acc: Seq<TokenView>)
    requires
        stands_at(s, i, " WHERE "@),
    ensures
        tokens_behind(s, i, acc) == tokens_behind(s, i + 7, acc.push(TokenView::Keyword("WHERE"@))),
{
    reveal_strlit(" WHERE ");
    reveal_strlit("WHERE");
    let w = " WHERE "@;
    lemma_char_at(s, i, w, 0);
    lemma_char_at(s, i, w, 6);
    lemma_capitals("WHERE"@);
    lemma_condition_keywords();
    lemma_step_space(s, i, acc);
    lemma_within(s, i, w, 1, 6);
    assert(w.subrange(1, 6) =~= "WHERE"@);
    lemma_step_word(s, i + 1, "WHERE"@, TokenView::Keyword("WHERE"@), acc);
    lemma_step_space(s, i + 6, acc.push(TokenView::Keyword("WHERE"@)));
}

#[verifier::rlimit(50)]
proof fn lemma_any_node_tokens(cs: Seq<ConditionView>)
    requires
        cs.len() > 0,
        forall|i: int| 0 <= i < cs.len() ==> is_writable(#[trigger] cs[i]),
    ensures
        tokens_of(any_node_query(cs)) == Ok::<Seq<TokenView>, Seq<char>>(
            any_node_head().push(TokenView::Keyword("WHERE"@)) + chain_tokens('n', cs) + query_end(
                'n',
            ),
        ),
{
    reveal_strlit("MATCH (n) WHERE ");
    reveal_strlit("MATCH (n) ");
    reveal_strlit(" WHERE ");
    reveal_strlit(" RETURN n");
    reveal_strlit(" RETURN ");
    let s = any_node_query(cs);
    let chain = chain_text('n', cs);
    let b = chain.len() as int;
    assert(s.len() == 16 + b + 9);
    assert(s.subrange(0, 10) =~= "MATCH (n) "@);
    assert(s.subrange(9, 16) =~= " WHERE "@);
    assert(s.subrange(16, 16 + b) =~= chain);
    assert(s.skip(16 + b) =~= " RETURN "@ + seq!['n']);
    assert(s.skip(16 + b)[0] == ' ');
    lemma_any_node_head(s);
    lemma_where(s, 9, any_node_head());
    let head = any_node_head().push(TokenView::Keyword("WHERE"@));
    lemma_chain_tokens(s, 16, 'n', cs, head);
    lemma_query_end(s, 16 + b, 'n', head + chain_tokens('n', cs));
}

#[verifier::rlimit(50)]
proof fn lemma_any_edge_tokens(cs: Seq<ConditionView>)
    requires
        cs.len() > 0,
        forall|i: int| 0 <= i < cs.len() ==> is_writable(#[trigger] cs[i]),
    ensures
        tokens_of(any_edge_query(cs)) == Ok::<Seq<TokenView>, Seq<char>>(
            any_edge_head().push(TokenView::Keyword("WHERE"@)) + chain_tokens('r', cs) + query_end(
                'r',
            ),
        ),
{
    reveal_strlit("MATCH ()-[r]->() WHERE ");
    reveal_strlit("MATCH ()-[r]->() ");
    reveal_strlit(" WHERE ");
    reveal_strlit(" RETURN r");
    reveal_strlit(" RETURN ");
    let s = any_edge_query(cs);
    let chain = chain_text('r', cs);
    let b = chain.len() as int;
    assert(s.len() == 23 + b + 9);
    assert(s.subrange(0, 17) =~= "MATCH ()-[r]->() "@);
    assert(s.subrange(16, 23) =~= " WHERE "@);
    assert(s.subrange(23, 23 + b) =~= chain);
    assert(s.skip(23 + b) =~= " RETURN "@ + seq!['r']);
    assert(s.skip(23 + b)[0] == ' ');
    lemma_any_edge_head(s);
    lemma_where(s, 16, any_edge_head());
    let head = any_edge_head().push(TokenView::Keyword("WHERE"@));
    lemma_chain_tokens(s, 23, 'r', cs, head);
    lemma_query_end(s, 23 + b, 'r', head + chain_tokens('r', cs));
}

#[verifier::rlimit(50)]
proof fn lemma_any_node_command(cs: Seq<ConditionView>)
    requires
        cs.len() > 0,
        forall|i: int| 0 <= i < cs.len() ==> is_writable(#[trigger] cs[i]),
    ensures
        cypher_lite::command_of(
            any_node_head().push(TokenView::Keyword("WHERE"@)) + chain_tokens('n', cs) + query_end(
                'n',
            ),
        ) == Ok::<CommandView, Seq<char>>(
            CommandView::MatchNodes(node_filter(any_node(), node_clauses(cs), 0)),
        ),
{
    reveal_strlit("WHERE");
    reveal_strlit("RETURN");
    let head = any_node_head().push(TokenView::Keyword("WHERE"@));
    let ts = head + chain_tokens('n', cs) + query_end('n');
    lemma_conditions_placed(head, 'n', cs, ts);
    assert(forall|k: int| 0 <= k < 5 ==> #[trigger] ts[k] == head[k]);
    reveal_with_fuel(cypher_lite::is_relationship, 6);
    assert(!cypher_lite::is_relationship(ts, 1, 0, false));
    assert(cypher_lite::read_node_pattern(ts, 1) == Ok::<(Option<Seq<char>>, int), Seq<char>>(
        (None, 4),
    ));
    lemma_node_conditions(ts, 5, cs, 0, any_node());
    let last = cs.len() - 1;
    assert(ts[5 + 6 * last + 5] == TokenView::Keyword("RETURN"@)) by {
        assert(cs[last] == cs[last]);
    }
    assert(cypher_lite::expect_kw(ts, (4 + 6 * cs.len()) as int, "RETURN"@) is Ok);
}

#[verifier::rlimit(50)]
proof fn lemma_any_edge_command(cs: Seq<ConditionView>)
    requires
        cs.len() > 0,
        forall|i: int| 0 <= i < cs.len() ==> is_writable(#[trigger] cs[i]),
        forall|i: int| 0 <= i < cs.len() ==> weighs_numbers(#[trigger] cs[i]),
    ensures
        cypher_lite::command_of(
            any_edge_head().push(TokenView::Keyword("WHERE"@)) + chain_tokens('r', cs) + query_end(
                'r',
            ),
        ) == Ok::<CommandView, Seq<char>>(
            CommandView::MatchEdges(edge_filter(any_edge(), edge_clauses(cs), 0)),
        ),
{
    reveal_strlit("WHERE");
    reveal_strlit("RETURN");
    let head = any_edge_head().push(TokenView::Keyword("WHERE"@));
    let ts = head + chain_tokens('r', cs) + query_end('r');
    lemma_conditions_placed(head, 'r', cs, ts);
    assert(forall|k: int| 0 <= k < 11 ==> #[trigger] ts[k] == head[k]);
    reveal_with_fuel(cypher_lite::is_relationship, 5);
    assert(cypher_lite::is_relationship(ts, 1, 0, false));
    assert(cypher_lite::read_node_pattern(ts, 1) == Ok::<(Option<Seq<char>>, int), Seq<char>>(
        (None, 3),
    ));
    assert(cypher_lite::read_rel_pattern(ts, 5) == Ok::<(Option<Seq<char>>, int), Seq<char>>(
        (None, 6),
    ));
    assert(cypher_lite::read_node_pattern(ts, 8) == Ok::<(Option<Seq<char>>, int), Seq<char>>(
        (None, 10),
    ));
    assert(cypher_lite::read_relationship(ts, 1) == Ok::<(Option<Seq<char>>, int), Seq<char>>(
        (None, 10),
    ));
    lemma_edge_conditions(ts, 11, cs, 0, any_edge());
    let last = cs.len() - 1;
    assert(ts[11 + 6 * last + 5] == TokenView::Keyword("RETURN"@)) by {
        assert(cs[last] == cs[last]);
    }
    assert(cypher_lite::expect_kw(ts, (10 + 6 * cs.len()) as int, "RETURN"@) is Ok);
}

/// A query with conditions and without a label asks for whatever meets the conditions, in
/// both languages alike.
pub proof fn law_languages_agree_without_labels(cs: Seq<ConditionView>)
    requires
        cs.len() > 0,
        forall|i: int| 0 <= i < cs.len() ==> is_writable(#[trigger] cs[i]),
    ensures
        CypherLiteLanguage.command(any_node_query(cs)) matches Ok(CommandView::MatchNodes(f))
            && forall|n: NodeView| #[trigger]
            f.accepts(n) <==> forall|i: int|
                0 <= i < cs.len() ==> node_meets(#[trigger] cs[i], n),
        CypherLiteLanguage.command(any_node_query(cs)) == SimpleQueryLanguage.command(
            spaced(match_words("NODE"@, node_clauses(cs))),
        ),
{
    lemma_any_node_tokens(cs);
    lemma_any_node_command(cs);
    let clauses = node_clauses(cs);
    assert forall|i: int| 0 <= i < clauses.len() implies (#[trigger] clauses[i]).writable() && !(
    clauses[i] is Weight) by {
        assert(clauses[i] == Clause::Property(cs[i]));
        assert(is_writable(cs[i]));
        lemma_name_is_plain(cs[i].key);
    }
    lemma_match_commands(clauses);
    let f = node_filter(any_node(), clauses, 0);
    assert forall|n: NodeView| #[trigger] f.accepts(n) <==> forall|i: int|
        0 <= i < cs.len() ==> node_meets(#[trigger] cs[i], n) by {
        lemma_node_filter(any_node(), clauses, 0, n);
        assert(forall|i: int|
            0 <= i < cs.len() ==> #[trigger] clauses[i] == Clause::Property(cs[i]));
        if f.accepts(n) {
            assert forall|i: int| 0 <= i < cs.len() implies node_meets(#[trigger] cs[i], n) by {
                assert(clauses[i].met_by_node(n));
            }
        }
    }
}

/// A query for edges with conditions and without a label asks for whatever edge meets the
/// conditions, whatever its label.
pub proof fn law_edge_query_without_label(cs: Seq<ConditionView>)
    requires
        cs.len() > 0,
        forall|i: int| 0 <= i < cs.len() ==> is_writable(#[trigger] cs[i]),
        forall|i: int| 0 <= i < cs.len() ==> weighs_numbers(#[trigger] cs[i]),
    ensures
        CypherLiteLanguage.command(any_edge_query(cs)) matches Ok(CommandView::MatchEdges(f))
            && forall|e: EdgeView| #[trigger]
            f.accepts(e) <==> forall|i: int|
                0 <= i < cs.len() ==> edge_meets(#[trigger] cs[i], e),
{
    lemma_any_edge_tokens(cs);
    lemma_any_edge_command(cs);
    let clauses = edge_clauses(cs);
    let f = edge_filter(any_edge(), clauses, 0);
    assert forall|e: EdgeView| #[trigger] f.accepts(e) <==> forall|i: int|
        0 <= i < cs.len() ==> edge_meets(#[trigger] cs[i], e) by {
        lemma_edge_filter(any_edge(), clauses, 0, e);
        assert forall|i: int| 0 <= i < cs.len() implies #[trigger] clauses[i] == edge_clause(cs[i])
            && clauses[i].met_by_edge(e) == edge_meets(cs[i], e) by {
            assert(weighs_numbers(cs[i]));
        }
        if f.accepts(e) {
            assert forall|i: int| 0 <= i < cs.len() implies edge_meets(#[trigger] cs[i], e) by {
                assert(clauses[i].met_by_edge(e));
            }
        }
    }
}

/// A pattern without a label and without conditions asks for all nodes, or for all edges.
pub proof fn law_bare_patterns_ask_for_all()
    ensures
        CypherLiteLanguage.command("MATCH (n) RETURN n"@) matches Ok(CommandView::MatchNodes(f))
            && forall|n: NodeView| #[trigger] f.accepts(n),
        CypherLiteLanguage.command("MATCH ()-[r]->() RETURN r"@) matches Ok(
            CommandView::MatchEdges(f),
        ) && forall|e: EdgeView| #[trigger] f.accepts(e),
{
    lemma_bare_tokens();
    lemma_bare_commands();
}

#[verifier::rlimit(50)]
proof fn lemma_bare_tokens()
    ensures
        tokens_of("MATCH (n) RETURN n"@) == Ok::<Seq<TokenView>, Seq<char>>(
            any_node_head() + query_end('n'),
        ),
        tokens_of("MATCH ()-[r]->() RETURN r"@) == Ok::<Seq<TokenView>, Seq<char>>(
            any_edge_head() + query_end('r'),
        ),
{
    reveal_strlit("MATCH (n) RETURN n");
    reveal_strlit("MATCH (n) ");
    reveal_strlit("MATCH ()-[r]->() RETURN r");
    reveal_strlit("MATCH ()-[r]->() ");
    reveal_strlit(" RETURN ");
    let s = "MATCH (n) RETURN n"@;
    assert(s.subrange(0, 10) =~= "MATCH (n) "@);
    assert(s.skip(9) =~= " RETURN "@ + seq!['n']);
    lemma_any_node_head(s);
    lemma_query_end(s, 9, 'n', any_node_head());
    let t = "MATCH ()-[r]->() RETURN r"@;
    assert(t.subrange(0, 17) =~= "MATCH ()-[r]->() "@);
    assert(t.skip(16) =~= " RETURN "@ + seq!['r']);
    lemma_any_edge_head(t);
    lemma_query_end(t, 16, 'r', any_edge_head());
}

#[verifier::rlimit(50)]
proof fn lemma_bare_commands()
    ensures
        cypher_lite::command_of(any_node_head() + query_end('n')) == Ok::<CommandView, Seq<char>>(
            CommandView::MatchNodes(any_node()),
        ),
        cypher_lite::command_of(any_edge_head() + query_end('r')) == Ok::<CommandView, Seq<char>>(
            CommandView::MatchEdges(any_edge()),
        ),
{
    reveal_strlit("WHERE");
    reveal_strlit("RETURN");
    assert("WHERE"@.len() != "RETURN"@.len());
    let x = any_node_head() + query_end('n');
    let y = any_edge_head() + query_end('r');
    assert(forall|k: int| 0 <= k < 4 ==> #[trigger] x[k] == any_node_head()[k]);
    assert(x[4] == TokenView::Keyword("RETURN"@));
    assert(forall|k: int| 0 <= k < 10 ==> #[trigger] y[k] == any_edge_head()[k]);
    assert(y[10] == TokenView::Keyword("RETURN"@));
    reveal_with_fuel(cypher_lite::is_relationship, 6);
    assert(!cypher_lite::is_relationship(x, 1, 0, false));
    assert(cypher_lite::is_relationship(y, 1, 0, false));
    assert(cypher_lite::read_node_pattern(x, 1) == Ok::<(Option<Seq<char>>, int), Seq<char>>(
        (None, 4),
    ));
    assert(cypher_lite::read_node_pattern(y, 1) == Ok::<(Option<Seq<char>>, int), Seq<char>>(
        (None, 3),
    ));
    assert(cypher_lite::read_rel_pattern(y, 5) == Ok::<(Option<Seq<char>>, int), Seq<char>>(
        (None, 6),
    ));
    assert(cypher_lite::read_node_pattern(y, 8) == Ok::<(Option<Seq<char>>, int), Seq<char>>(
        (None, 10),
    ));
    assert(cypher_lite::read_relationship(y, 1) == Ok::<(Option<Seq<char>>, int), Seq<char>>(
        (None, 10),
    ));
    assert(NodeFilterView { label: None, ..any_node() } == any_node());
    assert(EdgeFilterView { label: None, ..any_edge() } == any_edge());
}

} // verus!
