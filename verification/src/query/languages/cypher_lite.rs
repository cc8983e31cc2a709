//! A query language in the manner of Cypher.
//!
//! ```text
//! query           = match_clause | traverse_clause | path_clause | count_clause
//!
//! match_clause    = "MATCH" pattern ["WHERE" where_expr] "RETURN" return_list
//! pattern         = node_pat ["-[" rel_pat "]->" node_pat]
//! node_pat        = "(" [var] [":" label] ")"
//! rel_pat         = [var] [":" label]
//! where_expr      = where_cond {"AND" where_cond}
//! where_cond      = var "." prop op value_lit
//!
//! traverse_clause = "TRAVERSE" ("BFS"|"DFS") "FROM" node_ref
//! path_clause     = "PATH" "FROM" node_ref "TO" node_ref
//! count_clause    = "COUNT" ("NODES"|"EDGES")
//! ```
//!
//! Keywords are read in either case. What follows a complete command is ignored.

use crate::float::Float64;
use crate::model::error::{GraphError, GraphErrorView};
use crate::model::node_id::NodeId;
use crate::model::value::{Value, ValueView};
use crate::ports::query_context::DatabaseContext;
use crate::query::ast::{
    option_text, CommandView, ComparisonOp, ConditionView, EdgeFilter, EdgeFilterView, NodeFilter,
    NodeFilterView, PropertyCondition, QueryCommand, TraversalKind, WeightCondition,
};
use crate::query::executor::execute;
use crate::query::languages::cypher_tokens::{
    lex, lex_error_view, token_views, tokens_of, Token, TokenView,
};
use crate::query::languages::simple::{any_edge, any_node, lemma_push_condition};
use crate::query::port::QueryLanguagePort;
use crate::query::result::QueryResult;
use crate::text::{concat2, concat3, same_text};
use crate::unicode::{eq_ignore_case, same_word};
use vstd::prelude::*;
use vstd::string::StringExecFns;

verus! {

/// The outcome of reading a part of a query: what was read and the position of
/// the next token, or a message.
pub type Step<T> = Result<(T, int), Seq<char>>;

/// The error with a message.
pub open spec fn error_view(message: Seq<char>) -> GraphErrorView {
    GraphErrorView::DeserializationError("[CypherLite] "@ + message)
}

/// Whether a result is the given outcome.
pub open spec fn outcome<T: View>(r: Result<(T, usize), GraphError>, s: Step<T::V>) -> bool {
    match (r, s) {
        (Ok((v, p)), Ok((w, q))) => v@ == w && p == q,
        (Err(e), Err(m)) => e@ == error_view(m),
        _ => false,
    }
}

/// The token at a position.
pub open spec fn at(ts: Seq<TokenView>, p: int) -> Option<TokenView> {
    if 0 <= p < ts.len() {
        Some(ts[p])
    } else {
        None
    }
}

/// Whether a keyword stands at a position.
pub open spec fn keyword_at(ts: Seq<TokenView>, p: int, kw: Seq<char>) -> bool {
    at(ts, p) == Some(TokenView::Keyword(kw))
}

/// An optional token as shown in messages.
pub open spec fn shown_option(o: Option<TokenView>) -> Seq<char> {
    match o {
        Some(t) => "Some("@ + t.shown() + ")"@,
        None => "None"@,
    }
}

/// A keyword that must stand here.
pub open spec fn expect_kw(ts: Seq<TokenView>, p: int, kw: Seq<char>) -> Result<int, Seq<char>> {
    match at(ts, p) {
        Some(t) => if t == TokenView::Keyword(kw) {
            Ok(p + 1)
        } else {
            Err("expected keyword '"@ + kw + "', got "@ + t.shown())
        },
        None => Err("expected keyword '"@ + kw + "' but reached end of input"@),
    }
}

/// A token that must stand here.
pub open spec fn expect_tok(ts: Seq<TokenView>, p: int, want: TokenView) -> Result<int, Seq<char>> {
    match at(ts, p) {
        Some(t) => if t == want {
            Ok(p + 1)
        } else {
            Err("expected "@ + want.shown() + ", got "@ + t.shown())
        },
        None => Err("expected "@ + want.shown() + " but reached end of input"@),
    }
}

/// The dash between a node and a relationship.
pub open spec fn expect_dash_at(ts: Seq<TokenView>, p: int) -> Result<int, Seq<char>> {
    if at(ts, p) == Some(TokenView::Dash) {
        Ok(p + 1)
    } else {
        Err("expected '-', got "@ + shown_option(at(ts, p)))
    }
}

/// An operator.
pub open spec fn read_op(ts: Seq<TokenView>, p: int) -> Step<ComparisonOp> {
    match at(ts, p) {
        Some(TokenView::Eq) => Ok((ComparisonOp::Eq, p + 1)),
        Some(TokenView::NotEq) => Ok((ComparisonOp::NotEq, p + 1)),
        Some(TokenView::Lt) => Ok((ComparisonOp::Lt, p + 1)),
        Some(TokenView::LtEq) => Ok((ComparisonOp::LtEq, p + 1)),
        Some(TokenView::Gt) => Ok((ComparisonOp::Gt, p + 1)),
        Some(TokenView::GtEq) => Ok((ComparisonOp::GtEq, p + 1)),
        other => Err("expected comparison operator, got "@ + shown_option(other)),
    }
}

/// A value.
pub open spec fn read_value(ts: Seq<TokenView>, p: int) -> Step<ValueView> {
    match at(ts, p) {
        Some(TokenView::StringLit(s)) => Ok((ValueView::Text(s), p + 1)),
        Some(TokenView::IntLit(i)) => Ok((ValueView::Integer(i), p + 1)),
        Some(TokenView::FloatLit(x)) => Ok((ValueView::Float(x), p + 1)),
        Some(TokenView::BoolLit(b)) => Ok((ValueView::Boolean(b), p + 1)),
        other => Err("expected a value literal, got "@ + shown_option(other)),
    }
}

/// A reference to a node.
pub open spec fn read_node_ref(ts: Seq<TokenView>, p: int) -> Step<NodeId> {
    match at(ts, p) {
        Some(TokenView::NodeRef(n)) => Ok((NodeId(n), p + 1)),
        other => Err("expected a node reference (e.g. N0), got "@ + shown_option(other)),
    }
}

/// A name.
pub open spec fn read_ident(ts: Seq<TokenView>, p: int) -> Step<Seq<char>> {
    match at(ts, p) {
        Some(TokenView::Ident(s)) => Ok((s, p + 1)),
        other => Err("expected identifier, got "@ + shown_option(other)),
    }
}

/// The position behind a variable, for which any token passes.
pub open spec fn skip_variable(ts: Seq<TokenView>, p: int) -> Result<int, Seq<char>> {
    match at(ts, p) {
        Some(_) => Ok(p + 1),
        None => Err("expected variable name"@),
    }
}

/// The position behind a name, if there is one.
pub open spec fn skip_ident(ts: Seq<TokenView>, p: int) -> int {
    if at(ts, p) matches Some(TokenView::Ident(_)) {
        p + 1
    } else {
        p
    }
}

/// A label behind a colon, if there is one.
pub open spec fn read_label(ts: Seq<TokenView>, p: int, what: Seq<char>) -> Step<Option<Seq<char>>> {
    if at(ts, p) == Some(TokenView::Colon) {
        match at(ts, p + 1) {
            Some(TokenView::Ident(l)) => Ok((Some(l), p + 2)),
            _ => Err(what),
        }
    } else {
        Ok((None, p))
    }
}

/// A node pattern `(var:label)`, of which the label counts.
pub open spec fn read_node_pattern(ts: Seq<TokenView>, p: int) -> Step<Option<Seq<char>>> {
    match expect_tok(ts, p, TokenView::LParen) {
        Err(m) => Err(m),
        Ok(q) => match read_label(ts, skip_ident(ts, q), "expected label after ':'"@) {
            Err(m) => Err(m),
            Ok((label, n)) => match expect_tok(ts, n, TokenView::RParen) {
                Err(m) => Err(m),
                Ok(e) => Ok((label, e)),
            },
        },
    }
}

/// What stands within the brackets of a relationship, of which the label counts.
pub open spec fn read_rel_pattern(ts: Seq<TokenView>, p: int) -> Step<Option<Seq<char>>> {
    read_label(ts, skip_ident(ts, p), "expected relationship label after ':'"@)
}

/// A condition `var.name op value`.
pub open spec fn read_condition(ts: Seq<TokenView>, p: int) -> Step<ConditionView> {
    match skip_variable(ts, p) {
        Err(m) => Err(m),
        Ok(a) => match expect_tok(ts, a, TokenView::Dot) {
            Err(m) => Err(m),
            Ok(b) => match read_ident(ts, b) {
                Err(m) => Err(m),
                Ok((key, c)) => match read_op(ts, c) {
                    Err(m) => Err(m),
                    Ok((op, d)) => match read_value(ts, d) {
                        Err(m) => Err(m),
                        Ok((value, e)) => Ok((ConditionView { key, op, value }, e)),
                    },
                },
            },
        },
    }
}

/// Conditions on nodes with `AND` between them.
pub open spec fn node_conditions(ts: Seq<TokenView>, p: int, f: NodeFilterView) -> Step<
    NodeFilterView,
>
    decreases ts.len() - p,
{
    match read_condition(ts, p) {
        Err(m) => Err(m),
        Ok((c, q)) => {
            let g = f.and_property(c);
            if keyword_at(ts, q, "AND"@) {
                node_conditions(ts, q + 1, g)
            } else {
                Ok((g, q))
            }
        },
    }
}

/// An edge filter with one condition more. A condition on `weight` is one on the
/// edge's weight and needs a number.
pub open spec fn with_edge_condition(f: EdgeFilterView, c: ConditionView) -> Result<
    EdgeFilterView,
    Seq<char>,
> {
    if same_word(c.key, "weight"@) {
        match c.value {
            ValueView::Float(value) => Ok(f.and_weight(WeightCondition { op: c.op, value })),
            ValueView::Integer(i) => Ok(
                f.and_weight(WeightCondition { op: c.op, value: Float64::of_int(i as int) }),
            ),
            _ => Err("weight must be a number"@),
        }
    } else {
        Ok(f.and_property(c))
    }
}

/// Conditions on edges with `AND` between them.
pub open spec fn edge_conditions(ts: Seq<TokenView>, p: int, f: EdgeFilterView) -> Step<
    EdgeFilterView,
>
    decreases ts.len() - p,
{
    match read_condition(ts, p) {
        Err(m) => Err(m),
        Ok((c, q)) => match with_edge_condition(f, c) {
            Err(m) => Err(m),
            Ok(g) => if keyword_at(ts, q, "AND"@) {
                edge_conditions(ts, q + 1, g)
            } else {
                Ok((g, q))
            },
        },
    }
}

/// Whether a dash follows a closed parenthesis before `WHERE` and `RETURN`.
pub open spec fn is_relationship(ts: Seq<TokenView>, p: int, depth: int, closed: bool) -> bool
    decreases ts.len() - p,
{
    match at(ts, p) {
        None => false,
        Some(TokenView::LParen) => is_relationship(ts, p + 1, depth + 1, closed),
        Some(TokenView::RParen) => is_relationship(ts, p + 1, depth - 1, closed || depth == 1),
        Some(TokenView::Dash) => closed || is_relationship(ts, p + 1, depth, closed),
        Some(TokenView::Keyword(k)) => k != "WHERE"@ && k != "RETURN"@ && is_relationship(
            ts,
            p + 1,
            depth,
            closed,
        ),
        Some(_) => is_relationship(ts, p + 1, depth, closed),
    }
}

/// A node pattern with its conditions, up to `RETURN`.
pub open spec fn read_node_match(ts: Seq<TokenView>, p: int) -> Result<CommandView, Seq<char>> {
    match read_node_pattern(ts, p) {
        Err(m) => Err(m),
        Ok((label, q)) => {
            let f = NodeFilterView { label, ..any_node() };
            let filtered = if keyword_at(ts, q, "WHERE"@) {
                node_conditions(ts, q + 1, f)
            } else {
                Ok((f, q))
            };
            match filtered {
                Err(m) => Err(m),
                Ok((g, n)) => match expect_kw(ts, n, "RETURN"@) {
                    Err(m) => Err(m),
                    Ok(_) => Ok(CommandView::MatchNodes(g)),
                },
            }
        },
    }
}

/// The relationship between two node patterns, and the position behind both.
pub open spec fn read_relationship(ts: Seq<TokenView>, p: int) -> Step<Option<Seq<char>>> {
    match read_node_pattern(ts, p) {
        Err(m) => Err(m),
        Ok((_, a)) => match expect_dash_at(ts, a) {
            Err(m) => Err(m),
            Ok(b) => match expect_tok(ts, b, TokenView::LBracket) {
                Err(m) => Err(m),
                Ok(c) => match read_rel_pattern(ts, c) {
                    Err(m) => Err(m),
                    Ok((label, d)) => match expect_tok(ts, d, TokenView::RBracket) {
                        Err(m) => Err(m),
                        Ok(e) => match expect_tok(ts, e, TokenView::Arrow) {
                            Err(m) => Err(m),
                            Ok(g) => match read_node_pattern(ts, g) {
                                Err(m) => Err(m),
                                Ok((_, h)) => Ok((label, h)),
                            },
                        },
                    },
                },
            },
        },
    }
}

/// A relationship pattern with its conditions, up to `RETURN`.
pub open spec fn read_rel_match(ts: Seq<TokenView>, p: int) -> Result<CommandView, Seq<char>> {
    match read_relationship(ts, p) {
        Err(m) => Err(m),
        Ok((label, q)) => {
            let f = EdgeFilterView { label, ..any_edge() };
            let filtered = if keyword_at(ts, q, "WHERE"@) {
                edge_conditions(ts, q + 1, f)
            } else {
                Ok((f, q))
            };
            match filtered {
                Err(m) => Err(m),
                Ok((g, n)) => match expect_kw(ts, n, "RETURN"@) {
                    Err(m) => Err(m),
                    Ok(_) => Ok(CommandView::MatchEdges(g)),
                },
            }
        },
    }
}

/// What follows `MATCH`.
pub open spec fn read_match(ts: Seq<TokenView>, p: int) -> Result<CommandView, Seq<char>> {
    if is_relationship(ts, p, 0, false) {
        read_rel_match(ts, p)
    } else {
        read_node_match(ts, p)
    }
}

/// What follows `TRAVERSE`.
pub open spec fn read_traverse(ts: Seq<TokenView>, p: int) -> Result<CommandView, Seq<char>> {
    let kind = if keyword_at(ts, p, "BFS"@) {
        Some(TraversalKind::Bfs)
    } else if keyword_at(ts, p, "DFS"@) {
        Some(TraversalKind::Dfs)
    } else {
        None
    };
    match kind {
        None => Err("expected BFS or DFS, got "@ + shown_option(at(ts, p))),
        Some(kind) => match expect_kw(ts, p + 1, "FROM"@) {
            Err(m) => Err(m),
            Ok(q) => match read_node_ref(ts, q) {
                Err(m) => Err(m),
                Ok((start, _)) => Ok(CommandView::Traverse { kind, start }),
            },
        },
    }
}

/// What follows `PATH`.
pub open spec fn read_path(ts: Seq<TokenView>, p: int) -> Result<CommandView, Seq<char>> {
    match expect_kw(ts, p, "FROM"@) {
        Err(m) => Err(m),
        Ok(q) => match read_node_ref(ts, q) {
            Err(m) => Err(m),
            Ok((start, n)) => match expect_kw(ts, n, "TO"@) {
                Err(m) => Err(m),
                Ok(t) => match read_node_ref(ts, t) {
                    Err(m) => Err(m),
                    Ok((goal, _)) => Ok(CommandView::ShortestPath { start, goal }),
                },
            },
        },
    }
}

/// What follows `COUNT`.
pub open spec fn read_count(ts: Seq<TokenView>, p: int) -> Result<CommandView, Seq<char>> {
    if keyword_at(ts, p, "NODES"@) {
        Ok(CommandView::CountNodes)
    } else if keyword_at(ts, p, "EDGES"@) {
        Ok(CommandView::CountEdges)
    } else {
        Err("expected NODES or EDGES after COUNT, got "@ + shown_option(at(ts, p)))
    }
}

/// The command that tokens make up.
pub open spec fn command_of(ts: Seq<TokenView>) -> Result<CommandView, Seq<char>> {
    if keyword_at(ts, 0, "MATCH"@) {
        read_match(ts, 1)
    } else if keyword_at(ts, 0, "TRAVERSE"@) {
        read_traverse(ts, 1)
    } else if keyword_at(ts, 0, "PATH"@) {
        read_path(ts, 1)
    } else if keyword_at(ts, 0, "COUNT"@) {
        read_count(ts, 1)
    } else {
        match at(ts, 0) {
            Some(t) => Err(
                "expected MATCH, TRAVERSE, PATH, or COUNT at start of query, got "@ + t.shown(),
            ),
            None => Err("empty query"@),
        }
    }
}

// ---------------------------------------------------------------------- reading

fn parse_error(message: &str) -> (r: GraphError)
    ensures
        r@ == error_view(message@),
{
    GraphError::DeserializationError(concat2("[CypherLite] ", message))
}

fn is_kw(ts: &Vec<Token>, p: usize, kw: &str) -> (r: bool)
    ensures
        r == keyword_at(token_views(ts@), p as int, kw@),
{
    if p >= ts.len() {
        return false;
    }
    match &ts[p] {
        Token::Keyword(k) => same_text(k.as_str(), kw),
        _ => false,
    }
}

fn show_option(ts: &Vec<Token>, p: usize) -> (r: String)
    ensures
        r@ == shown_option(at(token_views(ts@), p as int)),
{
    if p >= ts.len() {
        return String::from_str("None");
    }
    concat3("Some(", ts[p].show().as_str(), ")")
}

fn expect_keyword(ts: &Vec<Token>, p: usize, kw: &str) -> (r: Result<usize, GraphError>)
    ensures
        match (r, expect_kw(token_views(ts@), p as int, kw@)) {
            (Ok(q), Ok(n)) => q == n && q <= ts.len(),
            (Err(e), Err(m)) => e@ == error_view(m),
            _ => false,
        },
{
    if p >= ts.len() {
        return Err(
            parse_error(concat3("expected keyword '", kw, "' but reached end of input").as_str()),
        );
    }
    if is_kw(ts, p, kw) {
        Ok(p + 1)
    } else {
        let mut m = concat3("expected keyword '", kw, "', got ");
        m.append(ts[p].show().as_str());
        Err(parse_error(m.as_str()))
    }
}

/// A token of punctuation.
#[derive(Clone, Copy)]
enum Mark {
    LParen,
    RParen,
    LBracket,
    RBracket,
    Dot,
    Arrow,
}

spec fn mark_view(m: Mark) -> TokenView {
    match m {
        Mark::LParen => TokenView::LParen,
        Mark::RParen => TokenView::RParen,
        Mark::LBracket => TokenView::LBracket,
        Mark::RBracket => TokenView::RBracket,
        Mark::Dot => TokenView::Dot,
        Mark::Arrow => TokenView::Arrow,
    }
}

fn is_mark(t: &Token, m: Mark) -> (r: bool)
    ensures
        r == (t@ == mark_view(m)),
{
    match (t, m) {
        (Token::LParen, Mark::LParen) => true,
        (Token::RParen, Mark::RParen) => true,
        (Token::LBracket, Mark::LBracket) => true,
        (Token::RBracket, Mark::RBracket) => true,
        (Token::Dot, Mark::Dot) => true,
        (Token::Arrow, Mark::Arrow) => true,
        _ => false,
    }
}

fn mark_text(m: Mark) -> (r: String)
    ensures
        r@ == mark_view(m).shown(),
{
    match m {
        Mark::LParen => String::from_str("LParen"),
        Mark::RParen => String::from_str("RParen"),
        Mark::LBracket => String::from_str("LBracket"),
        Mark::RBracket => String::from_str("RBracket"),
        Mark::Dot => String::from_str("Dot"),
        Mark::Arrow => String::from_str("Arrow"),
    }
}

fn expect_token(ts: &Vec<Token>, p: usize, want: Mark) -> (r: Result<usize, GraphError>)
    ensures
        match (r, expect_tok(token_views(ts@), p as int, mark_view(want))) {
            (Ok(q), Ok(n)) => q == n && q <= ts.len(),
            (Err(e), Err(m)) => e@ == error_view(m),
            _ => false,
        },
{
    let name = mark_text(want);
    if p >= ts.len() {
        return Err(
            parse_error(
                concat3("expected ", name.as_str(), " but reached end of input").as_str(),
            ),
        );
    }
    if is_mark(&ts[p], want) {
        Ok(p + 1)
    } else {
        let mut m = concat3("expected ", name.as_str(), ", got ");
        m.append(ts[p].show().as_str());
        Err(parse_error(m.as_str()))
    }
}

fn expect_dash(ts: &Vec<Token>, p: usize) -> (r: Result<usize, GraphError>)
    ensures
        match (r, expect_dash_at(token_views(ts@), p as int)) {
            (Ok(q), Ok(n)) => q == n && q <= ts.len(),
            (Err(e), Err(m)) => e@ == error_view(m),
            _ => false,
        },
{
    let found = if p < ts.len() {
        match &ts[p] {
            Token::Dash => true,
            _ => false,
        }
    } else {
        false
    };
    if found {
        Ok(p + 1)
    } else {
        Err(parse_error(concat2("expected '-', got ", show_option(ts, p).as_str()).as_str()))
    }
}

fn parse_op(ts: &Vec<Token>, p: usize) -> (r: Result<(ComparisonOp, usize), GraphError>)
    ensures
        outcome(r, read_op(token_views(ts@), p as int)),
        r matches Ok((_, q)) ==> q <= ts.len(),
{
    if p < ts.len() {
        match &ts[p] {
            Token::Eq => {
                return Ok((ComparisonOp::Eq, p + 1));
            },
            Token::NotEq => {
                return Ok((ComparisonOp::NotEq, p + 1));
            },
            Token::Lt => {
                return Ok((ComparisonOp::Lt, p + 1));
            },
            Token::LtEq => {
                return Ok((ComparisonOp::LtEq, p + 1));
            },
            Token::Gt => {
                return Ok((ComparisonOp::Gt, p + 1));
            },
            Token::GtEq => {
                return Ok((ComparisonOp::GtEq, p + 1));
            },
            _ => {},
        }
    }
    Err(
        parse_error(
            concat2("expected comparison operator, got ", show_option(ts, p).as_str()).as_str(),
        ),
    )
}

fn parse_value_lit(ts: &Vec<Token>, p: usize) -> (r: Result<(Value, usize), GraphError>)
    ensures
        outcome(r, read_value(token_views(ts@), p as int)),
        r matches Ok((_, q)) ==> q <= ts.len(),
{
    if p < ts.len() {
        match &ts[p] {
            Token::StringLit(s) => {
                return Ok((Value::Text(s.clone()), p + 1));
            },
            Token::IntLit(i) => {
                return Ok((Value::Integer(*i), p + 1));
            },
            Token::FloatLit(x) => {
                return Ok((Value::Float(*x), p + 1));
            },
            Token::BoolLit(b) => {
                return Ok((Value::Boolean(*b), p + 1));
            },
            _ => {},
        }
    }
    Err(
        parse_error(
            concat2("expected a value literal, got ", show_option(ts, p).as_str()).as_str(),
        ),
    )
}

fn parse_node_ref(ts: &Vec<Token>, p: usize) -> (r: Result<(NodeId, usize), GraphError>)
    ensures
        outcome(r, read_node_ref(token_views(ts@), p as int)),
        r matches Ok((_, q)) ==> q <= ts.len(),
{
    if p < ts.len() {
        match &ts[p] {
            Token::NodeRef(n) => {
                return Ok((NodeId(*n), p + 1));
            },
            _ => {},
        }
    }
    Err(
        parse_error(
            concat2(
                "expected a node reference (e.g. N0), got ",
                show_option(ts, p).as_str(),
            ).as_str(),
        ),
    )
}

fn consume_ident(ts: &Vec<Token>, p: usize) -> (r: Result<(String, usize), GraphError>)
    ensures
        outcome(r, read_ident(token_views(ts@), p as int)),
        r matches Ok((_, q)) ==> q <= ts.len(),
{
    if p < ts.len() {
        match &ts[p] {
            Token::Ident(s) => {
                return Ok((s.clone(), p + 1));
            },
            _ => {},
        }
    }
    Err(
        parse_error(concat2("expected identifier, got ", show_option(ts, p).as_str()).as_str()),
    )
}

fn consume_ident_or_any(ts: &Vec<Token>, p: usize) -> (r: Result<usize, GraphError>)
    ensures
        match (r, skip_variable(token_views(ts@), p as int)) {
            (Ok(q), Ok(n)) => q == n && q <= ts.len(),
            (Err(e), Err(m)) => e@ == error_view(m),
            _ => false,
        },
{
    if p < ts.len() {
        Ok(p + 1)
    } else {
        Err(parse_error("expected variable name"))
    }
}

fn skip_name(ts: &Vec<Token>, p: usize) -> (r: usize)
    requires
        p <= ts.len(),
    ensures
        r == skip_ident(token_views(ts@), p as int),
        r <= ts.len(),
{
    if p < ts.len() {
        match &ts[p] {
            Token::Ident(_) => p + 1,
            _ => p,
        }
    } else {
        p
    }
}

/// Whether a result is the given label and position, or error.
pub open spec fn label_outcome(
    r: Result<(Option<String>, usize), GraphError>,
    s: Step<Option<Seq<char>>>,
) -> bool {
    match (r, s) {
        (Ok((v, p)), Ok((w, q))) => option_text(v) == w && p == q,
        (Err(e), Err(m)) => e@ == error_view(m),
        _ => false,
    }
}

fn parse_label(ts: &Vec<Token>, p: usize, what: &str) -> (r: Result<
    (Option<String>, usize),
    GraphError,
>)
    requires
        p <= ts.len(),
    ensures
        label_outcome(r, read_label(token_views(ts@), p as int, what@)),
        r matches Ok((_, q)) ==> q <= ts.len(),
{
    let colon = if p < ts.len() {
        match &ts[p] {
            Token::Colon => true,
            _ => false,
        }
    } else {
        false
    };
    if !colon {
        return Ok((None, p));
    }
    if p + 1 < ts.len() {
        match &ts[p + 1] {
            Token::Ident(l) => {
                return Ok((Some(l.clone()), p + 2));
            },
            _ => {},
        }
    }
    Err(parse_error(what))
}

fn parse_node_pattern(ts: &Vec<Token>, p: usize) -> (r: Result<
    (Option<String>, usize),
    GraphError,
>)
    ensures
        label_outcome(r, read_node_pattern(token_views(ts@), p as int)),
        r matches Ok((_, q)) ==> q <= ts.len(),
{
    let q: usize = match expect_token(ts, p, Mark::LParen) {
        Ok(n) => n,
        Err(e) => {
            return Err(e);
        },
    };
    let name: usize = skip_name(ts, q);
    match parse_label(ts, name, "expected label after ':'") {
        Err(e) => Err(e),
        Ok((label, n)) => match expect_token(ts, n, Mark::RParen) {
            Err(e) => Err(e),
            Ok(end) => Ok((label, end)),
        },
    }
}

fn parse_rel_pattern(ts: &Vec<Token>, p: usize) -> (r: Result<(Option<String>, usize), GraphError>)
    requires
        p <= ts.len(),
    ensures
        label_outcome(r, read_rel_pattern(token_views(ts@), p as int)),
        r matches Ok((_, q)) ==> q <= ts.len(),
{
    let name: usize = skip_name(ts, p);
    parse_label(ts, name, "expected relationship label after ':'")
}

fn parse_condition(ts: &Vec<Token>, p: usize) -> (r: Result<(PropertyCondition, usize), GraphError>)
    ensures
        outcome(r, read_condition(token_views(ts@), p as int)),
        r matches Ok((_, q)) ==> p < q <= ts.len(),
{
    let a: usize = match consume_ident_or_any(ts, p) {
        Ok(n) => n,
        Err(e) => {
            return Err(e);
        },
    };
    let b: usize = match expect_token(ts, a, Mark::Dot) {
        Ok(n) => n,
        Err(e) => {
            return Err(e);
        },
    };
    match consume_ident(ts, b) {
        Err(e) => Err(e),
        Ok((key, c)) => match parse_op(ts, c) {
            Err(e) => Err(e),
            Ok((op, d)) => match parse_value_lit(ts, d) {
                Err(e) => Err(e),
                Ok((value, end)) => Ok((PropertyCondition { key, op, value }, end)),
            },
        },
    }
}

fn apply_node_where_conditions(ts: &Vec<Token>, p: usize, filter: NodeFilter) -> (r: Result<
    (NodeFilter, usize),
    GraphError,
>)
    ensures
        outcome(r, node_conditions(token_views(ts@), p as int, filter@)),
        r matches Ok((_, q)) ==> q <= ts.len(),
{
    let ghost first = filter@;
    let ghost goal = node_conditions(token_views(ts@), p as int, first);
    let mut rest = filter;
    let mut pos: usize = p;
    loop
        invariant
            first == filter@,
            goal == node_conditions(token_views(ts@), p as int, first),
            goal == node_conditions(token_views(ts@), pos as int, rest@),
        decreases ts.len() - pos,
    {
        match parse_condition(ts, pos) {
            Err(e) => {
                return Err(e);
            },
            Ok((c, q)) => {
                proof {
                    lemma_push_condition(rest.property_conditions@, c);
                }
                rest.property_conditions.push(c);
                if !is_kw(ts, q, "AND") {
                    return Ok((rest, q));
                }
                pos = q + 1;
            },
        }
    }
}

fn add_edge_condition(filter: EdgeFilter, c: PropertyCondition) -> (r: Result<
    EdgeFilter,
    GraphError,
>)
    ensures
        match (r, with_edge_condition(filter@, c@)) {
            (Ok(f), Ok(v)) => f@ == v,
            (Err(e), Err(m)) => e@ == error_view(m),
            _ => false,
        },
{
    let mut filter = filter;
    if eq_ignore_case(c.key.as_str(), "weight") {
        let value = match &c.value {
            Value::Float(x) => *x,
            Value::Integer(i) => Float64::from_i64(*i),
            _ => {
                return Err(parse_error("weight must be a number"));
            },
        };
        filter.add_weight_condition(WeightCondition { op: c.op, value });
    } else {
        proof {
            lemma_push_condition(filter.property_conditions@, c);
        }
        filter.property_conditions.push(c);
    }
    Ok(filter)
}

fn apply_edge_where_conditions(ts: &Vec<Token>, p: usize, filter: EdgeFilter) -> (r: Result<
    (EdgeFilter, usize),
    GraphError,
>)
    ensures
        outcome(r, edge_conditions(token_views(ts@), p as int, filter@)),
        r matches Ok((_, q)) ==> q <= ts.len(),
{
    let ghost first = filter@;
    let ghost goal = edge_conditions(token_views(ts@), p as int, first);
    let mut rest = filter;
    let mut pos: usize = p;
    loop
        invariant
            first == filter@,
            goal == edge_conditions(token_views(ts@), p as int, first),
            goal == edge_conditions(token_views(ts@), pos as int, rest@),
        decreases ts.len() - pos,
    {
        match parse_condition(ts, pos) {
            Err(e) => {
                return Err(e);
            },
            Ok((c, q)) => match add_edge_condition(rest, c) {
                Err(e) => {
                    return Err(e);
                },
                Ok(f) => {
                    if !is_kw(ts, q, "AND") {
                        return Ok((f, q));
                    }
                    rest = f;
                    pos = q + 1;
                },
            },
        }
    }
}

fn is_relationship_pattern(ts: &Vec<Token>, p: usize) -> (r: bool)
    ensures
        r == is_relationship(token_views(ts@), p as int, 0, false),
{
    let ghost views = token_views(ts@);
    let mut depth: i128 = 0;
    let mut closed = false;
    let mut i: usize = p;
    while i < ts.len()
        invariant
            views == token_views(ts@),
            p <= i,
            i <= ts.len() || i == p,
            -(i - p) <= depth <= i - p,
            is_relationship(views, p as int, 0, false) == is_relationship(
                views,
                i as int,
                depth as int,
                closed,
            ),
        decreases ts.len() - i,
    {
        assert(views[i as int] == ts[i as int]@);
        match &ts[i] {
            Token::LParen => {
                depth = depth + 1;
            },
            Token::RParen => {
                depth = depth - 1;
                if depth == 0 {
                    closed = true;
                }
            },
            Token::Dash => {
                if closed {
                    return true;
                }
            },
            Token::Keyword(k) => {
                if same_text(k.as_str(), "WHERE") || same_text(k.as_str(), "RETURN") {
                    return false;
                }
            },
            _ => {},
        }
        i += 1;
    }
    false
}

/// Whether a result is the given command or error.
pub open spec fn command_outcome(
    r: Result<QueryCommand, GraphError>,
    s: Result<CommandView, Seq<char>>,
) -> bool {
    match (r, s) {
        (Ok(c), Ok(v)) => c@ == v,
        (Err(e), Err(m)) => e@ == error_view(m),
        _ => false,
    }
}

fn parse_node_match(ts: &Vec<Token>, p: usize) -> (r: Result<QueryCommand, GraphError>)
    ensures
        command_outcome(r, read_node_match(token_views(ts@), p as int)),
{
    match parse_node_pattern(ts, p) {
        Err(e) => Err(e),
        Ok((label, q)) => {
            let mut filter = NodeFilter::default();
            filter.label = label;
            let mut pos: usize = q;
            if is_kw(ts, q, "WHERE") {
                match apply_node_where_conditions(ts, q + 1, filter) {
                    Err(e) => {
                        return Err(e);
                    },
                    Ok((f, n)) => {
                        filter = f;
                        pos = n;
                    },
                }
            }
            match expect_keyword(ts, pos, "RETURN") {
                Err(e) => Err(e),
                Ok(_) => Ok(QueryCommand::MatchNodes(filter)),
            }
        },
    }
}

fn parse_relationship(ts: &Vec<Token>, p: usize) -> (r: Result<
    (Option<String>, usize),
    GraphError,
>)
    ensures
        label_outcome(r, read_relationship(token_views(ts@), p as int)),
        r matches Ok((_, q)) ==> q <= ts.len(),
{
    let a: usize = match parse_node_pattern(ts, p) {
        Ok((_, n)) => n,
        Err(e) => {
            return Err(e);
        },
    };
    let b: usize = match expect_dash(ts, a) {
        Ok(n) => n,
        Err(e) => {
            return Err(e);
        },
    };
    let c: usize = match expect_token(ts, b, Mark::LBracket) {
        Ok(n) => n,
        Err(e) => {
            return Err(e);
        },
    };
    let (label, d) = match parse_rel_pattern(ts, c) {
        Ok(found) => found,
        Err(e) => {
            return Err(e);
        },
    };
    let f: usize = match expect_token(ts, d, Mark::RBracket) {
        Ok(n) => n,
        Err(e) => {
            return Err(e);
        },
    };
    let g: usize = match expect_token(ts, f, Mark::Arrow) {
        Ok(n) => n,
        Err(e) => {
            return Err(e);
        },
    };
    match parse_node_pattern(ts, g) {
        Ok((_, h)) => Ok((label, h)),
        Err(e) => Err(e),
    }
}

fn parse_rel_match(ts: &Vec<Token>, p: usize) -> (r: Result<QueryCommand, GraphError>)
    ensures
        command_outcome(r, read_rel_match(token_views(ts@), p as int)),
{
    match parse_relationship(ts, p) {
        Err(e) => Err(e),
        Ok((label, q)) => {
            let mut filter = EdgeFilter::default();
            filter.label = label;
            let mut pos: usize = q;
            if is_kw(ts, q, "WHERE") {
                match apply_edge_where_conditions(ts, q + 1, filter) {
                    Err(e) => {
                        return Err(e);
                    },
                    Ok((f, n)) => {
                        filter = f;
                        pos = n;
                    },
                }
            }
            match expect_keyword(ts, pos, "RETURN") {
                Err(e) => Err(e),
                Ok(_) => Ok(QueryCommand::MatchEdges(filter)),
            }
        },
    }
}

fn parse_match(ts: &Vec<Token>, p: usize) -> (r: Result<QueryCommand, GraphError>)
    ensures
        command_outcome(r, read_match(token_views(ts@), p as int)),
{
    if is_relationship_pattern(ts, p) {
        parse_rel_match(ts, p)
    } else {
        parse_node_match(ts, p)
    }
}

fn parse_traverse(ts: &Vec<Token>, p: usize) -> (r: Result<QueryCommand, GraphError>)
    ensures
        command_outcome(r, read_traverse(token_views(ts@), p as int)),
{
    let kind = if is_kw(ts, p, "BFS") {
        TraversalKind::Bfs
    } else if is_kw(ts, p, "DFS") {
        TraversalKind::Dfs
    } else {
        return Err(
            parse_error(concat2("expected BFS or DFS, got ", show_option(ts, p).as_str()).as_str()),
        );
    };
    assert(token_views(ts@).len() == ts.len());
    match expect_keyword(ts, p + 1, "FROM") {
        Err(e) => Err(e),
        Ok(q) => match parse_node_ref(ts, q) {
            Err(e) => Err(e),
            Ok((start, _)) => Ok(QueryCommand::Traverse { kind, start }),
        },
    }
}

fn parse_path(ts: &Vec<Token>, p: usize) -> (r: Result<QueryCommand, GraphError>)
    ensures
        command_outcome(r, read_path(token_views(ts@), p as int)),
{
    match expect_keyword(ts, p, "FROM") {
        Err(e) => Err(e),
        Ok(q) => match parse_node_ref(ts, q) {
            Err(e) => Err(e),
            Ok((start, n)) => match expect_keyword(ts, n, "TO") {
                Err(e) => Err(e),
                Ok(t) => match parse_node_ref(ts, t) {
                    Err(e) => Err(e),
                    Ok((goal, _)) => Ok(QueryCommand::ShortestPath { start, goal }),
                },
            },
        },
    }
}

fn parse_count(ts: &Vec<Token>, p: usize) -> (r: Result<QueryCommand, GraphError>)
    ensures
        command_outcome(r, read_count(token_views(ts@), p as int)),
{
    if is_kw(ts, p, "NODES") {
        Ok(QueryCommand::CountNodes)
    } else if is_kw(ts, p, "EDGES") {
        Ok(QueryCommand::CountEdges)
    } else {
        Err(
            parse_error(
                concat2(
                    "expected NODES or EDGES after COUNT, got ",
                    show_option(ts, p).as_str(),
                ).as_str(),
            ),
        )
    }
}

/// Reads the command that tokens make up.
pub fn parse_tokens(ts: &Vec<Token>) -> (r: Result<QueryCommand, GraphError>)
    ensures
        command_outcome(r, command_of(token_views(ts@))),
{
    if is_kw(ts, 0, "MATCH") {
        parse_match(ts, 1)
    } else if is_kw(ts, 0, "TRAVERSE") {
        parse_traverse(ts, 1)
    } else if is_kw(ts, 0, "PATH") {
        parse_path(ts, 1)
    } else if is_kw(ts, 0, "COUNT") {
        parse_count(ts, 1)
    } else if ts.len() > 0 {
        Err(
            parse_error(
                concat2(
                    "expected MATCH, TRAVERSE, PATH, or COUNT at start of query, got ",
                    ts[0].show().as_str(),
                ).as_str(),
            ),
        )
    } else {
        Err(parse_error("empty query"))
    }
}

/// The Cypher-like language.
pub struct CypherLiteLanguage;

impl CypherLiteLanguage {
    /// Reads a query. What the lexer finds wrong is reported as its error.
    pub fn parse_only(input: &str) -> (r: Result<QueryCommand, GraphError>)
        ensures
            match tokens_of(input@) {
                Ok(ts) => command_outcome(r, command_of(ts)),
                Err(m) => r matches Err(e) && e@ == lex_error_view(m),
            },
    {
        match lex(input) {
            Ok(ts) => parse_tokens(&ts),
            Err(e) => Err(e),
        }
    }
}

impl QueryLanguagePort for CypherLiteLanguage {
    open spec fn name(&self) -> Seq<char> {
        "CypherLite"@
    }

    open spec fn command(&self, query: Seq<char>) -> Result<CommandView, GraphErrorView> {
        match tokens_of(query) {
            Ok(ts) => match command_of(ts) {
                Ok(c) => Ok(c),
                Err(m) => Err(error_view(m)),
            },
            Err(m) => Err(lex_error_view(m)),
        }
    }

    fn language_name(&self) -> (r: &str) {
        "CypherLite"
    }

    fn read_command(&self, query: &str) -> (r: Result<QueryCommand, GraphError>) {
        CypherLiteLanguage::parse_only(query)
    }

    fn execute<C: DatabaseContext>(&self, query: &str, context: &mut C) -> (r: Result<
        QueryResult,
        GraphError,
    >) {
        proof {
            context.lemma_no_read();
        }
        match CypherLiteLanguage::parse_only(query) {
            Ok(command) => execute(command, context),
            Err(e) => Err(e),
        }
    }
}

} // verus!
