//! The simple query language: commands made of keywords.
//!
//! ```text
//! query        = match_cmd | get_cmd | traverse_cmd | path_cmd | count_cmd
//!
//! match_cmd    = "MATCH" ("NODE" | "EDGE") ["WHERE" filter_chain]
//! get_cmd      = "GET"   ("NODE" node_ref | "EDGE" edge_ref)
//! traverse_cmd = "TRAVERSE" ("BFS" | "DFS") "FROM" node_ref
//! path_cmd     = "PATH" "FROM" node_ref "TO" node_ref
//! count_cmd    = "COUNT" ("NODES" | "EDGES")
//!
//! filter_chain = condition {"AND" condition}
//! condition    = "label"  op  string_lit
//!              | "weight" op  number_lit
//!              | "props." ident op value_lit
//! op           = "=" | "!=" | "<" | "<=" | ">" | ">="
//! node_ref     = "N" digits        edge_ref = "E" digits
//! ```
//!
//! Keywords are read in either case. What follows a complete command is ignored.

use crate::float_text::{digits_value, float_of_text, parse_float};
use crate::model::edge_id::EdgeId;
use crate::model::error::{GraphError, GraphErrorView};
use crate::model::node_id::NodeId;
use crate::model::value::{Value, ValueView};
use crate::number_text::{
    all_digits, lemma_numeral, parse_i64, read_number, rest_of, signed_of_text,
};
use crate::query::ast::{
    condition_views, CommandView, ComparisonOp, ConditionView, EdgeFilter, EdgeFilterView,
    LabelCondition, LabelConditionView, NodeFilter, NodeFilterView, PropertyCondition,
    QueryCommand, TraversalKind, WeightCondition,
};
use crate::ports::query_context::DatabaseContext;
use crate::query::executor::execute;
use crate::query::languages::simple_tokens::{
    query_words, read_words, word_views, Word, WordView,
};
use crate::query::port::QueryLanguagePort;
use crate::query::result::QueryResult;
use crate::text::{chars_of, concat2, concat3, concat5, decimal, same_text};
use crate::unicode::{eq_ignore_case, same_word};
use vstd::prelude::*;
use vstd::string::StringExecFns;

verus! {

/// The outcome of reading a part of a query: what was read and the position of
/// the next word, or a message.
pub type Step<T> = Result<(T, int), Seq<char>>;

/// Whether a result is the given outcome.
pub open spec fn outcome<T: View>(r: Result<(T, usize), GraphError>, s: Step<T::V>) -> bool {
    match (r, s) {
        (Ok((v, p)), Ok((w, q))) => v@ == w && p == q,
        (Err(e), Err(m)) => e@ == error_view(m),
        _ => false,
    }
}

/// The error with a message.
pub open spec fn error_view(message: Seq<char>) -> GraphErrorView {
    GraphErrorView::DeserializationError("[SimpleQuery] "@ + message)
}

/// The word at a position.
pub open spec fn word_at(ws: Seq<WordView>, p: int) -> Option<WordView> {
    if 0 <= p < ws.len() {
        Some(ws[p])
    } else {
        None
    }
}

/// Whether a keyword stands at a position.
pub open spec fn keyword_at(ws: Seq<WordView>, p: int, kw: Seq<char>) -> bool {
    word_at(ws, p) matches Some(w) && same_word(w.text, kw)
}

/// A keyword that must stand here.
pub open spec fn expect_word(ws: Seq<WordView>, p: int, kw: Seq<char>) -> Result<int, Seq<char>> {
    match word_at(ws, p) {
        Some(w) => if same_word(w.text, kw) {
            Ok(p + 1)
        } else {
            Err("expected '"@ + kw + "' but got '"@ + w.text + "'"@)
        },
        None => Err("expected '"@ + kw + "' but reached end of input"@),
    }
}

/// The next word in upper case.
pub open spec fn next_upper(ws: Seq<WordView>, p: int) -> Step<Seq<char>> {
    match word_at(ws, p) {
        Some(w) => Ok((w.upper, p + 1)),
        None => Err("unexpected end of input"@),
    }
}

/// An operator.
pub open spec fn read_op(ws: Seq<WordView>, p: int) -> Step<ComparisonOp> {
    match word_at(ws, p) {
        None => Err("expected comparison operator"@),
        Some(w) => if w.text == "="@ {
            Ok((ComparisonOp::Eq, p + 1))
        } else if w.text == "!="@ {
            Ok((ComparisonOp::NotEq, p + 1))
        } else if w.text == "<"@ {
            Ok((ComparisonOp::Lt, p + 1))
        } else if w.text == "<="@ {
            Ok((ComparisonOp::LtEq, p + 1))
        } else if w.text == ">"@ {
            Ok((ComparisonOp::Gt, p + 1))
        } else if w.text == ">="@ {
            Ok((ComparisonOp::GtEq, p + 1))
        } else {
            Err("unknown operator '"@ + w.text + "'"@)
        },
    }
}

/// Whether a word stands in double quotes.
pub open spec fn in_quotes(t: Seq<char>) -> bool {
    t.len() >= 2 && t[0] == '"' && t.last() == '"'
}

/// What stands between the quotes.
pub open spec fn unquoted(t: Seq<char>) -> Seq<char> {
    t.subrange(1, t.len() - 1)
}

/// A quoted string.
pub open spec fn read_string(ws: Seq<WordView>, p: int) -> Step<Seq<char>> {
    match word_at(ws, p) {
        None => Err("expected string literal"@),
        Some(w) => if in_quotes(w.text) {
            Ok((unquoted(w.text), p + 1))
        } else {
            Err("expected a quoted string, got '"@ + w.text + "'"@)
        },
    }
}

/// The value that a word denotes: a quoted string, a truth value, null, a number
/// with a point, or an integer.
pub open spec fn value_of_word(t: Seq<char>) -> Result<ValueView, Seq<char>> {
    if t.len() > 0 && t[0] == '"' {
        if in_quotes(t) {
            Ok(ValueView::Text(unquoted(t)))
        } else {
            Err("unterminated string literal: "@ + t)
        }
    } else if same_word(t, "true"@) {
        Ok(ValueView::Boolean(true))
    } else if same_word(t, "false"@) {
        Ok(ValueView::Boolean(false))
    } else if same_word(t, "null"@) {
        Ok(ValueView::Null)
    } else if t.contains('.') {
        match float_of_text(t) {
            Some(x) => Ok(ValueView::Float(x)),
            None => Err("invalid float '"@ + t + "'"@),
        }
    } else {
        match signed_of_text(t) {
            Some(i) => Ok(ValueView::Integer(i)),
            None => Err("invalid number '"@ + t + "'"@),
        }
    }
}

/// A value.
pub open spec fn read_value(ws: Seq<WordView>, p: int) -> Step<ValueView> {
    match word_at(ws, p) {
        None => Err("expected a value"@),
        Some(w) => match value_of_word(w.text) {
            Ok(v) => Ok((v, p + 1)),
            Err(m) => Err(m),
        },
    }
}

/// The number behind a leading letter: digits alone, within 64 bits.
pub open spec fn reference(t: Seq<char>, letter: char) -> Option<u64> {
    if t.len() > 0 && t[0] == letter && all_digits(rest_of(t)) && digits_value(rest_of(t))
        <= u64::MAX {
        Some(digits_value(rest_of(t)) as u64)
    } else {
        None
    }
}

/// A reference to a node.
pub open spec fn read_node_ref(ws: Seq<WordView>, p: int) -> Step<NodeId> {
    match word_at(ws, p) {
        None => Err("expected node reference (e.g. N0)"@),
        Some(w) => match reference(w.text, 'N') {
            Some(n) => Ok((NodeId(n), p + 1)),
            None => Err(
                "'"@ + w.text + "' is not a valid node reference — expected N<number>"@,
            ),
        },
    }
}

/// A reference to an edge.
pub open spec fn read_edge_ref(ws: Seq<WordView>, p: int) -> Step<EdgeId> {
    match word_at(ws, p) {
        None => Err("expected edge reference (e.g. E0)"@),
        Some(w) => match reference(w.text, 'E') {
            Some(n) => Ok((EdgeId(n), p + 1)),
            None => Err(
                "'"@ + w.text + "' is not a valid edge reference — expected E<number>"@,
            ),
        },
    }
}

/// Whether a word names a property: `props.` in either case and the name.
pub open spec fn names_property(t: Seq<char>) -> bool {
    t.len() >= 6 && same_word(t.take(6), "props."@)
}

/// The name of the property.
pub open spec fn property_name(t: Seq<char>) -> Seq<char> {
    t.skip(6)
}

/// A condition on the label: an operator and a string.
pub open spec fn read_label(ws: Seq<WordView>, p: int) -> Step<LabelConditionView> {
    match read_op(ws, p) {
        Err(m) => Err(m),
        Ok((op, q)) => match read_string(ws, q) {
            Err(m) => Err(m),
            Ok((value, n)) => Ok((LabelConditionView { op, value }, n)),
        },
    }
}

/// A condition on the given property: an operator and a value.
pub open spec fn read_property(ws: Seq<WordView>, p: int, key: Seq<char>) -> Step<ConditionView> {
    match read_op(ws, p) {
        Err(m) => Err(m),
        Ok((op, q)) => match read_value(ws, q) {
            Err(m) => Err(m),
            Ok((value, n)) => Ok((ConditionView { key, op, value }, n)),
        },
    }
}

/// A condition on the weight: an operator and a number.
pub open spec fn read_weight(ws: Seq<WordView>, p: int) -> Step<WeightCondition> {
    match read_op(ws, p) {
        Err(m) => Err(m),
        Ok((op, q)) => match word_at(ws, q) {
            None => Err("expected number after weight op"@),
            Some(w) => match float_of_text(w.text) {
                Some(value) => Ok((WeightCondition { op, value }, q + 1)),
                None => Err("'"@ + w.text + "' is not a number"@),
            },
        },
    }
}

/// One condition on nodes, added to a filter.
pub open spec fn node_condition(ws: Seq<WordView>, p: int, f: NodeFilterView) -> Step<
    NodeFilterView,
> {
    match word_at(ws, p) {
        None => Err("expected condition field"@),
        Some(w) => if same_word(w.text, "label"@) {
            match read_label(ws, p + 1) {
                Err(m) => Err(m),
                Ok((c, q)) => Ok((f.and_label(c), q)),
            }
        } else if names_property(w.text) {
            match read_property(ws, p + 1, property_name(w.text)) {
                Err(m) => Err(m),
                Ok((c, q)) => Ok((f.and_property(c), q)),
            }
        } else {
            Err(
                "unknown node filter field '"@ + w.text
                    + "' — use 'label' or 'props.<key>'"@,
            )
        },
    }
}

/// One condition on edges, added to a filter.
pub open spec fn edge_condition(ws: Seq<WordView>, p: int, f: EdgeFilterView) -> Step<
    EdgeFilterView,
> {
    match word_at(ws, p) {
        None => Err("expected condition field"@),
        Some(w) => if same_word(w.text, "label"@) {
            match read_label(ws, p + 1) {
                Err(m) => Err(m),
                Ok((c, q)) => Ok((f.and_label(c), q)),
            }
        } else if same_word(w.text, "weight"@) {
            match read_weight(ws, p + 1) {
                Err(m) => Err(m),
                Ok((weight, q)) => Ok((f.and_weight(weight), q)),
            }
        } else if names_property(w.text) {
            match read_property(ws, p + 1, property_name(w.text)) {
                Err(m) => Err(m),
                Ok((c, q)) => Ok((f.and_property(c), q)),
            }
        } else {
            Err(
                "unknown edge filter field '"@ + w.text
                    + "' — use 'label', 'weight', or 'props.<key>'"@,
            )
        },
    }
}

/// Conditions on nodes with `AND` between them.
pub open spec fn node_chain(ws: Seq<WordView>, p: int, f: NodeFilterView) -> Step<NodeFilterView>
    decreases ws.len() - p,
{
    match node_condition(ws, p, f) {
        Err(m) => Err(m),
        Ok((g, q)) => if keyword_at(ws, q, "AND"@) {
            node_chain(ws, q + 1, g)
        } else {
            Ok((g, q))
        },
    }
}

/// Conditions on edges with `AND` between them.
pub open spec fn edge_chain(ws: Seq<WordView>, p: int, f: EdgeFilterView) -> Step<EdgeFilterView>
    decreases ws.len() - p,
{
    match edge_condition(ws, p, f) {
        Err(m) => Err(m),
        Ok((g, q)) => if keyword_at(ws, q, "AND"@) {
            edge_chain(ws, q + 1, g)
        } else {
            Ok((g, q))
        },
    }
}

/// The filter that lets every node pass.
pub open spec fn any_node() -> NodeFilterView {
    NodeFilterView { label: None, label_conditions: Seq::empty(), conditions: Seq::empty() }
}

/// The filter that lets every edge pass.
pub open spec fn any_edge() -> EdgeFilterView {
    EdgeFilterView {
        label: None,
        label_conditions: Seq::empty(),
        weight: None,
        further_weights: Seq::empty(),
        conditions: Seq::empty(),
    }
}

/// What follows `MATCH`.
pub open spec fn read_match(ws: Seq<WordView>, p: int) -> Result<CommandView, Seq<char>> {
    match next_upper(ws, p) {
        Err(m) => Err(m),
        Ok((kind, q)) => if kind == "NODE"@ {
            if keyword_at(ws, q, "WHERE"@) {
                match node_chain(ws, q + 1, any_node()) {
                    Ok((f, _)) => Ok(CommandView::MatchNodes(f)),
                    Err(m) => Err(m),
                }
            } else {
                Ok(CommandView::MatchNodes(any_node()))
            }
        } else if kind == "EDGE"@ {
            if keyword_at(ws, q, "WHERE"@) {
                match edge_chain(ws, q + 1, any_edge()) {
                    Ok((f, _)) => Ok(CommandView::MatchEdges(f)),
                    Err(m) => Err(m),
                }
            } else {
                Ok(CommandView::MatchEdges(any_edge()))
            }
        } else {
            Err("expected NODE or EDGE after MATCH, got '"@ + kind + "'"@)
        },
    }
}

/// What follows `GET`.
pub open spec fn read_get(ws: Seq<WordView>, p: int) -> Result<CommandView, Seq<char>> {
    match next_upper(ws, p) {
        Err(m) => Err(m),
        Ok((kind, q)) => if kind == "NODE"@ {
            match read_node_ref(ws, q) {
                Ok((id, _)) => Ok(CommandView::GetNode(id)),
                Err(m) => Err(m),
            }
        } else if kind == "EDGE"@ {
            match read_edge_ref(ws, q) {
                Ok((id, _)) => Ok(CommandView::GetEdge(id)),
                Err(m) => Err(m),
            }
        } else {
            Err("expected NODE or EDGE after GET, got '"@ + kind + "'"@)
        },
    }
}

/// What follows the kind of a traversal.
pub open spec fn read_start(ws: Seq<WordView>, p: int, kind: TraversalKind) -> Result<
    CommandView,
    Seq<char>,
> {
    match expect_word(ws, p, "FROM"@) {
        Err(m) => Err(m),
        Ok(q) => match read_node_ref(ws, q) {
            Ok((start, _)) => Ok(CommandView::Traverse { kind, start }),
            Err(m) => Err(m),
        },
    }
}

/// What follows `TRAVERSE`.
pub open spec fn read_traverse(ws: Seq<WordView>, p: int) -> Result<CommandView, Seq<char>> {
    match next_upper(ws, p) {
        Err(m) => Err(m),
        Ok((algo, q)) => if algo == "BFS"@ {
            read_start(ws, q, TraversalKind::Bfs)
        } else if algo == "DFS"@ {
            read_start(ws, q, TraversalKind::Dfs)
        } else {
            Err("expected BFS or DFS, got '"@ + algo + "'"@)
        },
    }
}

/// What follows `PATH`.
pub open spec fn read_path(ws: Seq<WordView>, p: int) -> Result<CommandView, Seq<char>> {
    match expect_word(ws, p, "FROM"@) {
        Err(m) => Err(m),
        Ok(q) => match read_node_ref(ws, q) {
            Err(m) => Err(m),
            Ok((start, n)) => match expect_word(ws, n, "TO"@) {
                Err(m) => Err(m),
                Ok(t) => match read_node_ref(ws, t) {
                    Err(m) => Err(m),
                    Ok((goal, _)) => Ok(CommandView::ShortestPath { start, goal }),
                },
            },
        },
    }
}

/// What follows `COUNT`.
pub open spec fn read_count(ws: Seq<WordView>, p: int) -> Result<CommandView, Seq<char>> {
    match next_upper(ws, p) {
        Err(m) => Err(m),
        Ok((what, _)) => if what == "NODES"@ {
            Ok(CommandView::CountNodes)
        } else if what == "EDGES"@ {
            Ok(CommandView::CountEdges)
        } else {
            Err("expected NODES or EDGES after COUNT, got '"@ + what + "'"@)
        },
    }
}

/// The command that words make up.
pub open spec fn command_of(ws: Seq<WordView>) -> Result<CommandView, Seq<char>> {
    match next_upper(ws, 0) {
        Err(m) => Err(m),
        Ok((kw, p)) => if kw == "MATCH"@ {
            read_match(ws, p)
        } else if kw == "GET"@ {
            read_get(ws, p)
        } else if kw == "TRAVERSE"@ {
            read_traverse(ws, p)
        } else if kw == "PATH"@ {
            read_path(ws, p)
        } else if kw == "COUNT"@ {
            read_count(ws, p)
        } else {
            Err(
                "unknown command '"@ + kw
                    + "' — expected MATCH, GET, TRAVERSE, PATH, or COUNT"@,
            )
        },
    }
}

// ---------------------------------------------------------------------- reading

fn parse_error(message: &str) -> (r: GraphError)
    ensures
        r@ == error_view(message@),
{
    GraphError::DeserializationError(concat2("[SimpleQuery] ", message))
}

fn peek_keyword(ws: &Vec<Word>, p: usize, kw: &str) -> (r: bool)
    ensures
        r == keyword_at(word_views(ws@), p as int, kw@),
{
    p < ws.len() && eq_ignore_case(ws[p].text.as_str(), kw)
}

fn expect(ws: &Vec<Word>, p: usize, kw: &str) -> (r: Result<usize, GraphError>)
    ensures
        match (r, expect_word(word_views(ws@), p as int, kw@)) {
            (Ok(q), Ok(n)) => q == n && q <= ws.len(),
            (Err(e), Err(m)) => e@ == error_view(m),
            _ => false,
        },
{
    if p >= ws.len() {
        return Err(parse_error(concat3("expected '", kw, "' but reached end of input").as_str()));
    }
    if eq_ignore_case(ws[p].text.as_str(), kw) {
        Ok(p + 1)
    } else {
        Err(
            parse_error(
                concat5("expected '", kw, "' but got '", ws[p].text.as_str(), "'").as_str(),
            ),
        )
    }
}

fn keyword(ws: &Vec<Word>, p: usize) -> (r: Result<(String, usize), GraphError>)
    ensures
        outcome(r, next_upper(word_views(ws@), p as int)),
        r matches Ok((_, q)) ==> q <= ws.len(),
{
    if p >= ws.len() {
        return Err(parse_error("unexpected end of input"));
    }
    Ok((ws[p].upper.clone(), p + 1))
}

fn parse_op(ws: &Vec<Word>, p: usize) -> (r: Result<(ComparisonOp, usize), GraphError>)
    ensures
        outcome(r, read_op(word_views(ws@), p as int)),
        r matches Ok((_, q)) ==> q <= ws.len(),
{
    if p >= ws.len() {
        return Err(parse_error("expected comparison operator"));
    }
    let t = ws[p].text.as_str();
    let op = if same_text(t, "=") {
        ComparisonOp::Eq
    } else if same_text(t, "!=") {
        ComparisonOp::NotEq
    } else if same_text(t, "<") {
        ComparisonOp::Lt
    } else if same_text(t, "<=") {
        ComparisonOp::LtEq
    } else if same_text(t, ">") {
        ComparisonOp::Gt
    } else if same_text(t, ">=") {
        ComparisonOp::GtEq
    } else {
        return Err(parse_error(concat3("unknown operator '", t, "'").as_str()));
    };
    Ok((op, p + 1))
}

/// The characters from `start` to `end` as a string.
pub fn slice_of(s: &Vec<char>, start: usize, end: usize) -> (r: String)
    requires
        start <= end <= s.len(),
    ensures
        r@ == s@.subrange(start as int, end as int),
{
    let mut out = String::new();
    let mut i: usize = start;
    while i < end
        invariant
            start <= i <= end <= s.len(),
            out@ =~= s@.subrange(start as int, i as int),
        decreases end - i,
    {
        out.push(s[i]);
        i += 1;
    }
    out
}

fn strip_quotes(t: &str) -> (r: Option<String>)
    ensures
        match r {
            Some(s) => in_quotes(t@) && s@ == unquoted(t@),
            None => !in_quotes(t@),
        },
{
    let s = chars_of(t);
    let n: usize = s.len();
    if n >= 2 && s[0] == '"' && s[n - 1] == '"' {
        Some(slice_of(&s, 1, n - 1))
    } else {
        None
    }
}

fn parse_string_lit(ws: &Vec<Word>, p: usize) -> (r: Result<(String, usize), GraphError>)
    ensures
        outcome(r, read_string(word_views(ws@), p as int)),
        r matches Ok((_, q)) ==> q <= ws.len(),
{
    if p >= ws.len() {
        return Err(parse_error("expected string literal"));
    }
    let t = ws[p].text.as_str();
    match strip_quotes(t) {
        Some(s) => Ok((s, p + 1)),
        None => Err(parse_error(concat3("expected a quoted string, got '", t, "'").as_str())),
    }
}

fn has_char(s: &Vec<char>, c: char) -> (r: bool)
    ensures
        r == s@.contains(c),
{
    let mut i: usize = 0;
    while i < s.len()
        invariant
            i <= s.len(),
            forall|j: int| 0 <= j < i ==> s@[j] != c,
        decreases s.len() - i,
    {
        if s[i] == c {
            return true;
        }
        i += 1;
    }
    false
}

fn parse_word_value(t: &str) -> (r: Result<Value, GraphError>)
    ensures
        match (r, value_of_word(t@)) {
            (Ok(v), Ok(w)) => v@ == w,
            (Err(e), Err(m)) => e@ == error_view(m),
            _ => false,
        },
{
    let s = chars_of(t);
    if s.len() > 0 && s[0] == '"' {
        return match strip_quotes(t) {
            Some(inner) => Ok(Value::Text(inner)),
            None => Err(parse_error(concat2("unterminated string literal: ", t).as_str())),
        };
    }
    if eq_ignore_case(t, "true") {
        return Ok(Value::Boolean(true));
    }
    if eq_ignore_case(t, "false") {
        return Ok(Value::Boolean(false));
    }
    if eq_ignore_case(t, "null") {
        return Ok(Value::Null);
    }
    if has_char(&s, '.') {
        return match parse_float(t) {
            Some(x) => Ok(Value::Float(x)),
            None => Err(parse_error(concat3("invalid float '", t, "'").as_str())),
        };
    }
    match parse_i64(t) {
        Some(i) => Ok(Value::Integer(i)),
        None => Err(parse_error(concat3("invalid number '", t, "'").as_str())),
    }
}

fn parse_value_lit(ws: &Vec<Word>, p: usize) -> (r: Result<(Value, usize), GraphError>)
    ensures
        outcome(r, read_value(word_views(ws@), p as int)),
        r matches Ok((_, q)) ==> q <= ws.len(),
{
    if p >= ws.len() {
        return Err(parse_error("expected a value"));
    }
    match parse_word_value(ws[p].text.as_str()) {
        Ok(v) => Ok((v, p + 1)),
        Err(e) => Err(e),
    }
}

/// The number behind a leading letter, in digits alone.
pub fn parse_reference(t: &str, letter: char) -> (r: Option<u64>)
    ensures
        r == reference(t@, letter),
{
    let s = chars_of(t);
    if s.len() == 0 || s[0] != letter {
        return None;
    }
    read_number(&s, 1)
}

fn parse_node_ref(ws: &Vec<Word>, p: usize) -> (r: Result<(NodeId, usize), GraphError>)
    ensures
        outcome(r, read_node_ref(word_views(ws@), p as int)),
        r matches Ok((_, q)) ==> q <= ws.len(),
{
    if p >= ws.len() {
        return Err(parse_error("expected node reference (e.g. N0)"));
    }
    let t = ws[p].text.as_str();
    match parse_reference(t, 'N') {
        Some(n) => Ok((NodeId(n), p + 1)),
        None => Err(
            parse_error(
                concat3("'", t, "' is not a valid node reference — expected N<number>").as_str(),
            ),
        ),
    }
}

fn parse_edge_ref(ws: &Vec<Word>, p: usize) -> (r: Result<(EdgeId, usize), GraphError>)
    ensures
        outcome(r, read_edge_ref(word_views(ws@), p as int)),
        r matches Ok((_, q)) ==> q <= ws.len(),
{
    if p >= ws.len() {
        return Err(parse_error("expected edge reference (e.g. E0)"));
    }
    let t = ws[p].text.as_str();
    match parse_reference(t, 'E') {
        Some(n) => Ok((EdgeId(n), p + 1)),
        None => Err(
            parse_error(
                concat3("'", t, "' is not a valid edge reference — expected E<number>").as_str(),
            ),
        ),
    }
}

/// The name of the property that a word names.
fn property_key(t: &str) -> (r: Option<String>)
    ensures
        match r {
            Some(k) => names_property(t@) && k@ == property_name(t@),
            None => !names_property(t@),
        },
{
    let s = chars_of(t);
    let n: usize = s.len();
    if n < 6 {
        return None;
    }
    let head = slice_of(&s, 0, 6);
    assert(head@ =~= t@.take(6));
    if eq_ignore_case(head.as_str(), "props.") {
        let name = slice_of(&s, 6, n);
        assert(name@ =~= t@.skip(6));
        Some(name)
    } else {
        None
    }
}

fn parse_label(ws: &Vec<Word>, p: usize) -> (r: Result<(LabelCondition, usize), GraphError>)
    ensures
        outcome(r, read_label(word_views(ws@), p as int)),
        r matches Ok((_, q)) ==> q <= ws.len(),
{
    match parse_op(ws, p) {
        Err(e) => Err(e),
        Ok((op, q)) => match parse_string_lit(ws, q) {
            Err(e) => Err(e),
            Ok((value, n)) => Ok((LabelCondition { op, value }, n)),
        },
    }
}

fn parse_property(ws: &Vec<Word>, p: usize, key: String) -> (r: Result<
    (PropertyCondition, usize),
    GraphError,
>)
    ensures
        outcome(r, read_property(word_views(ws@), p as int, key@)),
        r matches Ok((_, q)) ==> q <= ws.len(),
{
    match parse_op(ws, p) {
        Err(e) => Err(e),
        Ok((op, q)) => match parse_value_lit(ws, q) {
            Err(e) => Err(e),
            Ok((value, n)) => Ok((PropertyCondition { key, op, value }, n)),
        },
    }
}

fn parse_weight(ws: &Vec<Word>, p: usize) -> (r: Result<(WeightCondition, usize), GraphError>)
    ensures
        match (r, read_weight(word_views(ws@), p as int)) {
            (Ok((v, q)), Ok((w, n))) => v == w && q == n && q <= ws.len(),
            (Err(e), Err(m)) => e@ == error_view(m),
            _ => false,
        },
{
    match parse_op(ws, p) {
        Err(e) => Err(e),
        Ok((op, q)) => {
            if q >= ws.len() {
                return Err(parse_error("expected number after weight op"));
            }
            let t = ws[q].text.as_str();
            match parse_float(t) {
                Some(value) => Ok((WeightCondition { op, value }, q + 1)),
                None => Err(parse_error(concat3("'", t, "' is not a number").as_str())),
            }
        },
    }
}

pub proof fn lemma_push_condition(s: Seq<PropertyCondition>, c: PropertyCondition)
    ensures
        condition_views(s.push(c)) == condition_views(s).push(c@),
{
    assert(condition_views(s.push(c)) =~= condition_views(s).push(c@));
}

fn apply_node_condition(ws: &Vec<Word>, p: usize, filter: NodeFilter) -> (r: Result<
    (NodeFilter, usize),
    GraphError,
>)
    ensures
        outcome(r, node_condition(word_views(ws@), p as int, filter@)),
        r matches Ok((_, q)) ==> p < q <= ws.len(),
{
    if p >= ws.len() {
        return Err(parse_error("expected condition field"));
    }
    let mut filter = filter;
    let t = ws[p].text.as_str();
    if eq_ignore_case(t, "label") {
        match parse_label(ws, p + 1) {
            Err(e) => Err(e),
            Ok((c, q)) => {
                filter.add_label_condition(c);
                Ok((filter, q))
            },
        }
    } else {
        match property_key(t) {
            Some(key) => match parse_property(ws, p + 1, key) {
                Err(e) => Err(e),
                Ok((c, q)) => {
                    proof {
                        lemma_push_condition(filter.property_conditions@, c);
                    }
                    filter.property_conditions.push(c);
                    Ok((filter, q))
                },
            },
            None => Err(
                parse_error(
                    concat3(
                        "unknown node filter field '",
                        t,
                        "' — use 'label' or 'props.<key>'",
                    ).as_str(),
                ),
            ),
        }
    }
}

fn apply_edge_condition(ws: &Vec<Word>, p: usize, filter: EdgeFilter) -> (r: Result<
    (EdgeFilter, usize),
    GraphError,
>)
    ensures
        outcome(r, edge_condition(word_views(ws@), p as int, filter@)),
        r matches Ok((_, q)) ==> p < q <= ws.len(),
{
    if p >= ws.len() {
        return Err(parse_error("expected condition field"));
    }
    let mut filter = filter;
    let t = ws[p].text.as_str();
    if eq_ignore_case(t, "label") {
        match parse_label(ws, p + 1) {
            Err(e) => Err(e),
            Ok((c, q)) => {
                filter.add_label_condition(c);
                Ok((filter, q))
            },
        }
    } else if eq_ignore_case(t, "weight") {
        match parse_weight(ws, p + 1) {
            Err(e) => Err(e),
            Ok((weight, q)) => {
                filter.add_weight_condition(weight);
                Ok((filter, q))
            },
        }
    } else {
        match property_key(t) {
            Some(key) => match parse_property(ws, p + 1, key) {
                Err(e) => Err(e),
                Ok((c, q)) => {
                    proof {
                        lemma_push_condition(filter.property_conditions@, c);
                    }
                    filter.property_conditions.push(c);
                    Ok((filter, q))
                },
            },
            None => Err(
                parse_error(
                    concat3(
                        "unknown edge filter field '",
                        t,
                        "' — use 'label', 'weight', or 'props.<key>'",
                    ).as_str(),
                ),
            ),
        }
    }
}

fn parse_node_filter_chain(ws: &Vec<Word>, p: usize) -> (r: Result<NodeFilter, GraphError>)
    ensures
        match (r, node_chain(word_views(ws@), p as int, any_node())) {
            (Ok(f), Ok((g, _))) => f@ == g,
            (Err(e), Err(m)) => e@ == error_view(m),
            _ => false,
        },
{
    let ghost goal = node_chain(word_views(ws@), p as int, any_node());
    let mut filter = NodeFilter::default();
    let mut pos: usize = p;
    loop
        invariant
            goal == node_chain(word_views(ws@), p as int, any_node()),
            goal == node_chain(word_views(ws@), pos as int, filter@),
        decreases ws.len() - pos,
    {
        match apply_node_condition(ws, pos, filter) {
            Err(e) => {
                return Err(e);
            },
            Ok((f, q)) => {
                if !peek_keyword(ws, q, "AND") {
                    return Ok(f);
                }
                filter = f;
                pos = q + 1;
            },
        }
    }
}

fn parse_edge_filter_chain(ws: &Vec<Word>, p: usize) -> (r: Result<EdgeFilter, GraphError>)
    ensures
        match (r, edge_chain(word_views(ws@), p as int, any_edge())) {
            (Ok(f), Ok((g, _))) => f@ == g,
            (Err(e), Err(m)) => e@ == error_view(m),
            _ => false,
        },
{
    let ghost goal = edge_chain(word_views(ws@), p as int, any_edge());
    let mut filter = EdgeFilter::default();
    let mut pos: usize = p;
    loop
        invariant
            goal == edge_chain(word_views(ws@), p as int, any_edge()),
            goal == edge_chain(word_views(ws@), pos as int, filter@),
        decreases ws.len() - pos,
    {
        match apply_edge_condition(ws, pos, filter) {
            Err(e) => {
                return Err(e);
            },
            Ok((f, q)) => {
                if !peek_keyword(ws, q, "AND") {
                    return Ok(f);
                }
                filter = f;
                pos = q + 1;
            },
        }
    }
}

/// Whether a result is the given command or error.
pub open spec fn command_outcome(
    r: Result<QueryCommand, GraphError>,
    s: Result<CommandView, Seq<char>>,
) -> bool {
    match (r, s) {
        (Ok(c), Ok(v)) => c@ == v,
        (Err(e), Err(m)) => e@ == error_view(m),
        _ => false,
    }
}

fn parse_match(ws: &Vec<Word>, p: usize) -> (r: Result<QueryCommand, GraphError>)
    ensures
        command_outcome(r, read_match(word_views(ws@), p as int)),
{
    match keyword(ws, p) {
        Err(e) => Err(e),
        Ok((kind, q)) => if same_text(kind.as_str(), "NODE") {
            if peek_keyword(ws, q, "WHERE") {
                match parse_node_filter_chain(ws, q + 1) {
                    Ok(f) => Ok(QueryCommand::MatchNodes(f)),
                    Err(e) => Err(e),
                }
            } else {
                Ok(QueryCommand::MatchNodes(NodeFilter::default()))
            }
        } else if same_text(kind.as_str(), "EDGE") {
            if peek_keyword(ws, q, "WHERE") {
                match parse_edge_filter_chain(ws, q + 1) {
                    Ok(f) => Ok(QueryCommand::MatchEdges(f)),
                    Err(e) => Err(e),
                }
            } else {
                Ok(QueryCommand::MatchEdges(EdgeFilter::default()))
            }
        } else {
            Err(
                parse_error(
                    concat3(
                        "expected NODE or EDGE after MATCH, got '",
                        kind.as_str(),
                        "'",
                    ).as_str(),
                ),
            )
        },
    }
}

fn parse_get(ws: &Vec<Word>, p: usize) -> (r: Result<QueryCommand, GraphError>)
    ensures
        command_outcome(r, read_get(word_views(ws@), p as int)),
{
    match keyword(ws, p) {
        Err(e) => Err(e),
        Ok((kind, q)) => if same_text(kind.as_str(), "NODE") {
            match parse_node_ref(ws, q) {
                Ok((id, _)) => Ok(QueryCommand::GetNode(id)),
                Err(e) => Err(e),
            }
        } else if same_text(kind.as_str(), "EDGE") {
            match parse_edge_ref(ws, q) {
                Ok((id, _)) => Ok(QueryCommand::GetEdge(id)),
                Err(e) => Err(e),
            }
        } else {
            Err(
                parse_error(
                    concat3("expected NODE or EDGE after GET, got '", kind.as_str(), "'").as_str(),
                ),
            )
        },
    }
}

fn parse_start(ws: &Vec<Word>, p: usize, kind: TraversalKind) -> (r: Result<
    QueryCommand,
    GraphError,
>)
    ensures
        command_outcome(r, read_start(word_views(ws@), p as int, kind)),
{
    match expect(ws, p, "FROM") {
        Err(e) => Err(e),
        Ok(q) => match parse_node_ref(ws, q) {
            Ok((start, _)) => Ok(QueryCommand::Traverse { kind, start }),
            Err(e) => Err(e),
        },
    }
}

fn parse_traverse(ws: &Vec<Word>, p: usize) -> (r: Result<QueryCommand, GraphError>)
    ensures
        command_outcome(r, read_traverse(word_views(ws@), p as int)),
{
    match keyword(ws, p) {
        Err(e) => Err(e),
        Ok((algo, q)) => if same_text(algo.as_str(), "BFS") {
            parse_start(ws, q, TraversalKind::Bfs)
        } else if same_text(algo.as_str(), "DFS") {
            parse_start(ws, q, TraversalKind::Dfs)
        } else {
            Err(parse_error(concat3("expected BFS or DFS, got '", algo.as_str(), "'").as_str()))
        },
    }
}

fn parse_path(ws: &Vec<Word>, p: usize) -> (r: Result<QueryCommand, GraphError>)
    ensures
        command_outcome(r, read_path(word_views(ws@), p as int)),
{
    match expect(ws, p, "FROM") {
        Err(e) => Err(e),
        Ok(q) => match parse_node_ref(ws, q) {
            Err(e) => Err(e),
            Ok((start, n)) => match expect(ws, n, "TO") {
                Err(e) => Err(e),
                Ok(t) => match parse_node_ref(ws, t) {
                    Err(e) => Err(e),
                    Ok((goal, _)) => Ok(QueryCommand::ShortestPath { start, goal }),
                },
            },
        },
    }
}

fn parse_count(ws: &Vec<Word>, p: usize) -> (r: Result<QueryCommand, GraphError>)
    ensures
        command_outcome(r, read_count(word_views(ws@), p as int)),
{
    match keyword(ws, p) {
        Err(e) => Err(e),
        Ok((what, _)) => if same_text(what.as_str(), "NODES") {
            Ok(QueryCommand::CountNodes)
        } else if same_text(what.as_str(), "EDGES") {
            Ok(QueryCommand::CountEdges)
        } else {
            Err(
                parse_error(
                    concat3(
                        "expected NODES or EDGES after COUNT, got '",
                        what.as_str(),
                        "'",
                    ).as_str(),
                ),
            )
        },
    }
}

/// Reads the command that words make up.
pub fn parse_words(ws: &Vec<Word>) -> (r: Result<QueryCommand, GraphError>)
    ensures
        command_outcome(r, command_of(word_views(ws@))),
{
    match keyword(ws, 0) {
        Err(e) => Err(e),
        Ok((kw, p)) => if same_text(kw.as_str(), "MATCH") {
            parse_match(ws, p)
        } else if same_text(kw.as_str(), "GET") {
            parse_get(ws, p)
        } else if same_text(kw.as_str(), "TRAVERSE") {
            parse_traverse(ws, p)
        } else if same_text(kw.as_str(), "PATH") {
            parse_path(ws, p)
        } else if same_text(kw.as_str(), "COUNT") {
            parse_count(ws, p)
        } else {
            Err(
                parse_error(
                    concat3(
                        "unknown command '",
                        kw.as_str(),
                        "' — expected MATCH, GET, TRAVERSE, PATH, or COUNT",
                    ).as_str(),
                ),
            )
        },
    }
}

/// Reads a query of the simple language.
pub fn parse(query: &str) -> (r: Result<QueryCommand, GraphError>)
    ensures
        command_outcome(r, command_of(query_words(query@))),
{
    let words = read_words(query);
    parse_words(&words)
}

/// The text of an identifier refers to what it identifies.
pub proof fn law_identifiers_read_back(node: NodeId, edge: EdgeId)
    ensures
        reference(node.text(), 'N') == Some(node.0),
        reference(edge.text(), 'E') == Some(edge.0),
{
    reveal_strlit("N");
    reveal_strlit("E");
    lemma_numeral(node.0 as nat);
    lemma_numeral(edge.0 as nat);
    assert(rest_of(node.text()) =~= decimal(node.0 as nat));
    assert(rest_of(edge.text()) =~= decimal(edge.0 as nat));
}

/// The simple query language.
pub struct SimpleQueryLanguage;

impl QueryLanguagePort for SimpleQueryLanguage {
    open spec fn name(&self) -> Seq<char> {
        "SimpleQuery"@
    }

    open spec fn command(&self, query: Seq<char>) -> Result<CommandView, GraphErrorView> {
        match command_of(query_words(query)) {
            Ok(c) => Ok(c),
            Err(m) => Err(error_view(m)),
        }
    }

    fn language_name(&self) -> (r: &str) {
        "SimpleQuery"
    }

    fn read_command(&self, query: &str) -> (r: Result<QueryCommand, GraphError>) {
        parse(query)
    }

    fn execute<C: DatabaseContext>(&self, query: &str, context: &mut C) -> (r: Result<
        QueryResult,
        GraphError,
    >) {
        proof {
            context.lemma_no_read();
        }
        match parse(query) {
            Ok(command) => execute(command, context),
            Err(e) => Err(e),
        }
    }
}

} // verus!
