//! The tokens of a query in the Cypher-like language.

use crate::float::Float64;
use crate::float_format::{debug_text, float_to_debug};
use crate::float_text::{digits_end, digits_value, float_of_text, is_digit, parse_float};
use crate::model::error::{GraphError, GraphErrorView};
use crate::number_text::{all_digits, parse_i64, read_number, rest_of, signed_of_text};
use crate::query::languages::simple::slice_of;
use crate::text::{
    chars_of, concat2, concat3, decimal, i128_to_text, int_text, same_text, u64_to_text,
};
use crate::unicode::{
    is_letter, is_letter_or_digit, is_space, quoted, to_quoted, to_upper, upper,
};
use vstd::prelude::*;
use vstd::string::StringExecFns;

verus! {

/// A token.
#[derive(Debug)]
pub enum Token {
    /// A keyword, in upper case.
    Keyword(String),
    /// A name.
    Ident(String),
    /// A reference to a node, such as `N42`.
    NodeRef(u64),
    StringLit(String),
    IntLit(i64),
    FloatLit(Float64),
    BoolLit(bool),
    Eq,
    NotEq,
    Lt,
    LtEq,
    Gt,
    GtEq,
    LParen,
    RParen,
    LBracket,
    RBracket,
    Colon,
    Dot,
    Comma,
    Dash,
    Arrow,
}

/// What a token holds.
pub enum TokenView {
    Keyword(Seq<char>),
    Ident(Seq<char>),
    NodeRef(u64),
    StringLit(Seq<char>),
    IntLit(i64),
    FloatLit(Float64),
    BoolLit(bool),
    Eq,
    NotEq,
    Lt,
    LtEq,
    Gt,
    GtEq,
    LParen,
    RParen,
    LBracket,
    RBracket,
    Colon,
    Dot,
    Comma,
    Dash,
    Arrow,
}

impl View for Token {
    type V = TokenView;

    open spec fn view(&self) -> TokenView {
        match *self {
            Token::Keyword(s) => TokenView::Keyword(s@),
            Token::Ident(s) => TokenView::Ident(s@),
            Token::NodeRef(n) => TokenView::NodeRef(n),
            Token::StringLit(s) => TokenView::StringLit(s@),
            Token::IntLit(i) => TokenView::IntLit(i),
            Token::FloatLit(x) => TokenView::FloatLit(x),
            Token::BoolLit(b) => TokenView::BoolLit(b),
            Token::Eq => TokenView::Eq,
            Token::NotEq => TokenView::NotEq,
            Token::Lt => TokenView::Lt,
            Token::LtEq => TokenView::LtEq,
            Token::Gt => TokenView::Gt,
            Token::GtEq => TokenView::GtEq,
            Token::LParen => TokenView::LParen,
            Token::RParen => TokenView::RParen,
            Token::LBracket => TokenView::LBracket,
            Token::RBracket => TokenView::RBracket,
            Token::Colon => TokenView::Colon,
            Token::Dot => TokenView::Dot,
            Token::Comma => TokenView::Comma,
            Token::Dash => TokenView::Dash,
            Token::Arrow => TokenView::Arrow,
        }
    }
}

impl TokenView {
    /// The token as shown in messages.
    pub open spec fn shown(self) -> Seq<char> {
        match self {
            TokenView::Keyword(s) => "Keyword("@ + quoted(s) + ")"@,
            TokenView::Ident(s) => "Ident("@ + quoted(s) + ")"@,
            TokenView::NodeRef(n) => "NodeRef("@ + decimal(n as nat) + ")"@,
            TokenView::StringLit(s) => "StringLit("@ + quoted(s) + ")"@,
            TokenView::IntLit(i) => "IntLit("@ + int_text(i as int) + ")"@,
            TokenView::FloatLit(x) => "FloatLit("@ + debug_text(x) + ")"@,
            TokenView::BoolLit(b) => if b {
                "BoolLit(true)"@
            } else {
                "BoolLit(false)"@
            },
            TokenView::Eq => "Eq"@,
            TokenView::NotEq => "NotEq"@,
            TokenView::Lt => "Lt"@,
            TokenView::LtEq => "LtEq"@,
            TokenView::Gt => "Gt"@,
            TokenView::GtEq => "GtEq"@,
            TokenView::LParen => "LParen"@,
            TokenView::RParen => "RParen"@,
            TokenView::LBracket => "LBracket"@,
            TokenView::RBracket => "RBracket"@,
            TokenView::Colon => "Colon"@,
            TokenView::Dot => "Dot"@,
            TokenView::Comma => "Comma"@,
            TokenView::Dash => "Dash"@,
            TokenView::Arrow => "Arrow"@,
        }
    }
}

impl Token {
    /// The token as shown in messages.
    pub fn show(&self) -> (r: String)
        ensures
            r@ == self@.shown(),
    {
        match self {
            Token::Keyword(s) => concat3("Keyword(", to_quoted(s.as_str()).as_str(), ")"),
            Token::Ident(s) => concat3("Ident(", to_quoted(s.as_str()).as_str(), ")"),
            Token::NodeRef(n) => concat3("NodeRef(", u64_to_text(*n).as_str(), ")"),
            Token::StringLit(s) => concat3("StringLit(", to_quoted(s.as_str()).as_str(), ")"),
            Token::IntLit(i) => concat3("IntLit(", i128_to_text(*i as i128).as_str(), ")"),
            Token::FloatLit(x) => concat3("FloatLit(", float_to_debug(*x).as_str(), ")"),
            Token::BoolLit(b) => if *b {
                String::from_str("BoolLit(true)")
            } else {
                String::from_str("BoolLit(false)")
            },
            Token::Eq => String::from_str("Eq"),
            Token::NotEq => String::from_str("NotEq"),
            Token::Lt => String::from_str("Lt"),
            Token::LtEq => String::from_str("LtEq"),
            Token::Gt => String::from_str("Gt"),
            Token::GtEq => String::from_str("GtEq"),
            Token::LParen => String::from_str("LParen"),
            Token::RParen => String::from_str("RParen"),
            Token::LBracket => String::from_str("LBracket"),
            Token::RBracket => String::from_str("RBracket"),
            Token::Colon => String::from_str("Colon"),
            Token::Dot => String::from_str("Dot"),
            Token::Comma => String::from_str("Comma"),
            Token::Dash => String::from_str("Dash"),
            Token::Arrow => String::from_str("Arrow"),
        }
    }
}

/// The keywords of the language.
pub open spec fn is_keyword(w: Seq<char>) -> bool {
    w == "MATCH"@ || w == "WHERE"@ || w == "RETURN"@ || w == "AND"@ || w == "TRAVERSE"@ || w
        == "PATH"@ || w == "FROM"@ || w == "TO"@ || w == "COUNT"@ || w == "NODES"@ || w == "EDGES"@
        || w == "BFS"@ || w == "DFS"@
}

/// The first position at or after `i` with a double quote, or the end.
pub open spec fn quote_end(s: Seq<char>, i: int) -> int
    decreases s.len() - i,
{
    if i < 0 || i >= s.len() || s[i] == '"' {
        i
    } else {
        quote_end(s, i + 1)
    }
}

/// Whether a character can be part of a word.
pub open spec fn in_word(c: char) -> bool {
    is_letter_or_digit(c) || c == '_'
}

/// The first position at or after `i` that is not part of a word.
pub open spec fn word_end(s: Seq<char>, i: int) -> int
    decreases s.len() - i,
{
    if i < 0 || i >= s.len() || !in_word(s[i]) {
        i
    } else {
        word_end(s, i + 1)
    }
}

/// The token of two characters, if they make one up.
pub open spec fn pair_token(a: char, b: char) -> Option<TokenView> {
    if a == '!' && b == '=' {
        Some(TokenView::NotEq)
    } else if a == '<' && b == '=' {
        Some(TokenView::LtEq)
    } else if a == '>' && b == '=' {
        Some(TokenView::GtEq)
    } else if a == '-' && b == '>' {
        Some(TokenView::Arrow)
    } else {
        None
    }
}

/// The token of one character, if it makes one up.
pub open spec fn single_token(c: char) -> Option<TokenView> {
    if c == '(' {
        Some(TokenView::LParen)
    } else if c == ')' {
        Some(TokenView::RParen)
    } else if c == '[' {
        Some(TokenView::LBracket)
    } else if c == ']' {
        Some(TokenView::RBracket)
    } else if c == ':' {
        Some(TokenView::Colon)
    } else if c == '.' {
        Some(TokenView::Dot)
    } else if c == ',' {
        Some(TokenView::Comma)
    } else if c == '-' {
        Some(TokenView::Dash)
    } else if c == '=' {
        Some(TokenView::Eq)
    } else if c == '<' {
        Some(TokenView::Lt)
    } else if c == '>' {
        Some(TokenView::Gt)
    } else {
        None
    }
}

/// The number that starts at `i`: digits, and digits after a point if there is
/// one.
pub open spec fn number_token(s: Seq<char>, i: int) -> Result<(TokenView, int), Seq<char>> {
    let e = digits_end(s, i);
    if e < s.len() && s[e] == '.' {
        let f = digits_end(s, e + 1);
        let text = s.subrange(i, f);
        match float_of_text(text) {
            Some(x) => Ok((TokenView::FloatLit(x), f)),
            None => Err("invalid float '"@ + text + "'"@),
        }
    } else {
        let text = s.subrange(i, e);
        match signed_of_text(text) {
            Some(n) => Ok((TokenView::IntLit(n), e)),
            None => Err("invalid integer '"@ + text + "'"@),
        }
    }
}

/// Whether a word is a reference to a node: `N` and digits.
pub open spec fn is_node_ref(w: Seq<char>) -> bool {
    w.len() > 1 && w[0] == 'N' && all_digits(rest_of(w))
}

/// The token that a word makes up, given its upper case.
pub open spec fn word_token(w: Seq<char>, up: Seq<char>) -> Result<TokenView, Seq<char>> {
    if is_node_ref(w) {
        if digits_value(rest_of(w)) <= u64::MAX {
            Ok(TokenView::NodeRef(digits_value(rest_of(w)) as u64))
        } else {
            Err("node reference '"@ + w + "' is out of range"@)
        }
    } else if up == "TRUE"@ {
        Ok(TokenView::BoolLit(true))
    } else if up == "FALSE"@ {
        Ok(TokenView::BoolLit(false))
    } else if is_keyword(up) {
        Ok(TokenView::Keyword(up))
    } else {
        Ok(TokenView::Ident(w))
    }
}

/// The token that starts at `i`, where no white space stands, and the position
/// behind it.
pub open spec fn token_at(s: Seq<char>, i: int) -> Result<(TokenView, int), Seq<char>> {
    let c = s[i];
    if c == '"' {
        let e = quote_end(s, i + 1);
        if e >= s.len() {
            Err("unterminated string literal"@)
        } else {
            Ok((TokenView::StringLit(s.subrange(i + 1, e)), e + 1))
        }
    } else if i + 1 < s.len() && pair_token(c, s[i + 1]) is Some {
        Ok((pair_token(c, s[i + 1])->0, i + 2))
    } else if single_token(c) is Some {
        Ok((single_token(c)->0, i + 1))
    } else if is_digit(c) {
        number_token(s, i)
    } else if is_letter(c) || c == '_' {
        let e = word_end(s, i);
        let w = s.subrange(i, e);
        match word_token(w, upper(w)) {
            Ok(t) => Ok((t, e)),
            Err(m) => Err(m),
        }
    } else {
        Err("unexpected character '"@ + seq![c] + "'"@)
    }
}

proof fn lemma_ends(s: Seq<char>, i: int)
    requires
        0 <= i <= s.len(),
    ensures
        i <= quote_end(s, i) <= s.len(),
        i <= word_end(s, i) <= s.len(),
        i <= digits_end(s, i) <= s.len(),
    decreases s.len() - i,
{
    if i < s.len() {
        lemma_ends(s, i + 1);
    }
}

/// A token takes at least one character.
pub proof fn lemma_token_advances(s: Seq<char>, i: int)
    requires
        0 <= i < s.len(),
    ensures
        token_at(s, i) matches Ok((_, q)) ==> i < q <= s.len(),
{
    lemma_ends(s, i + 1);
    let e = digits_end(s, i);
    if is_digit(s[i]) && e < s.len() {
        lemma_ends(s, e + 1);
    }
}

/// The tokens from `i` on, after those in `acc`.
pub open spec fn tokens_from(s: Seq<char>, i: int, acc: Seq<TokenView>) -> Result<
    Seq<TokenView>,
    Seq<char>,
>
    decreases s.len() - i,
{
    if i < 0 || i >= s.len() {
        Ok(acc)
    } else if is_space(s[i]) {
        tokens_from(s, i + 1, acc)
    } else {
        proof {
            lemma_token_advances(s, i);
        }
        match token_at(s, i) {
            Ok((t, q)) => tokens_from(s, q, acc.push(t)),
            Err(m) => Err(m),
        }
    }
}

/// The tokens of a query, or what is wrong with it.
pub open spec fn tokens_of(s: Seq<char>) -> Result<Seq<TokenView>, Seq<char>> {
    tokens_from(s, 0, Seq::empty())
}

/// What tokens hold.
pub open spec fn token_views(s: Seq<Token>) -> Seq<TokenView> {
    s.map_values(|t: Token| t@)
}

/// The error of the lexer with a message.
pub open spec fn lex_error_view(message: Seq<char>) -> GraphErrorView {
    GraphErrorView::DeserializationError("[CypherLite lexer] "@ + message)
}

fn lex_error(message: &str) -> (r: GraphError)
    ensures
        r@ == lex_error_view(message@),
{
    GraphError::DeserializationError(concat2("[CypherLite lexer] ", message))
}

fn find_quote(s: &Vec<char>, start: usize) -> (r: usize)
    requires
        start <= s.len(),
    ensures
        r == quote_end(s@, start as int),
        start <= r <= s.len(),
{
    let mut i: usize = start;
    while i < s.len() && s[i] != '"'
        invariant
            start <= i <= s.len(),
            quote_end(s@, start as int) == quote_end(s@, i as int),
        decreases s.len() - i,
    {
        i += 1;
    }
    i
}

fn find_word_end(s: &Vec<char>, start: usize) -> (r: usize)
    requires
        start <= s.len(),
    ensures
        r == word_end(s@, start as int),
        start <= r <= s.len(),
{
    let mut i: usize = start;
    while i < s.len() && (s[i].is_alphanumeric() || s[i] == '_')
        invariant
            start <= i <= s.len(),
            word_end(s@, start as int) == word_end(s@, i as int),
        decreases s.len() - i,
    {
        i += 1;
    }
    i
}

fn find_number_end(s: &Vec<char>, start: usize) -> (r: usize)
    requires
        start <= s.len(),
    ensures
        r == digits_end(s@, start as int),
        start <= r <= s.len(),
{
    let mut i: usize = start;
    while i < s.len() && '0' <= s[i] && s[i] <= '9'
        invariant
            start <= i <= s.len(),
            digits_end(s@, start as int) == digits_end(s@, i as int),
        decreases s.len() - i,
    {
        i += 1;
    }
    i
}

/// What an optional token holds.
pub open spec fn option_token(o: Option<Token>) -> Option<TokenView> {
    match o {
        Some(t) => Some(t@),
        None => None,
    }
}

fn lex_pair(a: char, b: char) -> (r: Option<Token>)
    ensures
        option_token(r) == pair_token(a, b),
{
    if a == '!' && b == '=' {
        Some(Token::NotEq)
    } else if a == '<' && b == '=' {
        Some(Token::LtEq)
    } else if a == '>' && b == '=' {
        Some(Token::GtEq)
    } else if a == '-' && b == '>' {
        Some(Token::Arrow)
    } else {
        None
    }
}

fn lex_single(c: char) -> (r: Option<Token>)
    ensures
        option_token(r) == single_token(c),
{
    if c == '(' {
        Some(Token::LParen)
    } else if c == ')' {
        Some(Token::RParen)
    } else if c == '[' {
        Some(Token::LBracket)
    } else if c == ']' {
        Some(Token::RBracket)
    } else if c == ':' {
        Some(Token::Colon)
    } else if c == '.' {
        Some(Token::Dot)
    } else if c == ',' {
        Some(Token::Comma)
    } else if c == '-' {
        Some(Token::Dash)
    } else if c == '=' {
        Some(Token::Eq)
    } else if c == '<' {
        Some(Token::Lt)
    } else if c == '>' {
        Some(Token::Gt)
    } else {
        None
    }
}

/// Whether a result is the given token and position, or error.
pub open spec fn token_outcome(
    r: Result<(Token, usize), GraphError>,
    s: Result<(TokenView, int), Seq<char>>,
) -> bool {
    match (r, s) {
        (Ok((t, p)), Ok((v, q))) => t@ == v && p == q,
        (Err(e), Err(m)) => e@ == lex_error_view(m),
        _ => false,
    }
}

fn lex_number(s: &Vec<char>, i: usize) -> (r: Result<(Token, usize), GraphError>)
    requires
        i < s.len(),
    ensures
        token_outcome(r, number_token(s@, i as int)),
{
    let e: usize = find_number_end(s, i);
    if e < s.len() && s[e] == '.' {
        let f: usize = find_number_end(s, e + 1);
        let text = slice_of(s, i, f);
        match parse_float(text.as_str()) {
            Some(x) => Ok((Token::FloatLit(x), f)),
            None => Err(lex_error(concat3("invalid float '", text.as_str(), "'").as_str())),
        }
    } else {
        let text = slice_of(s, i, e);
        match parse_i64(text.as_str()) {
            Some(n) => Ok((Token::IntLit(n), e)),
            None => Err(lex_error(concat3("invalid integer '", text.as_str(), "'").as_str())),
        }
    }
}

fn is_keyword_text(w: &str) -> (r: bool)
    ensures
        r == is_keyword(w@),
{
    same_text(w, "MATCH") || same_text(w, "WHERE") || same_text(w, "RETURN") || same_text(w, "AND")
        || same_text(w, "TRAVERSE") || same_text(w, "PATH") || same_text(w, "FROM") || same_text(
        w,
        "TO",
    ) || same_text(w, "COUNT") || same_text(w, "NODES") || same_text(w, "EDGES") || same_text(
        w,
        "BFS",
    ) || same_text(w, "DFS")
}

fn all_digit_chars(s: &Vec<char>, start: usize) -> (r: bool)
    requires
        start < s.len(),
    ensures
        r == all_digits(s@.subrange(start as int, s.len() as int)),
{
    let ghost tail = s@.subrange(start as int, s.len() as int);
    let mut i: usize = start;
    while i < s.len()
        invariant
            start <= i <= s.len(),
            tail == s@.subrange(start as int, s.len() as int),
            forall|j: int| 0 <= j < i - start ==> is_digit(#[trigger] tail[j]),
        decreases s.len() - i,
    {
        assert(tail[i - start] == s@[i as int]);
        if !('0' <= s[i] && s[i] <= '9') {
            return false;
        }
        i += 1;
    }
    true
}

/// Reads the token that a word makes up, given its upper case.
pub fn lex_word(word: String, up: String) -> (r: Result<Token, GraphError>)
    ensures
        match (r, word_token(word@, up@)) {
            (Ok(t), Ok(v)) => t@ == v,
            (Err(e), Err(m)) => e@ == lex_error_view(m),
            _ => false,
        },
{
    let s = chars_of(word.as_str());
    if s.len() > 1 && s[0] == 'N' && all_digit_chars(&s, 1) {
        return match read_number(&s, 1) {
            Some(n) => Ok(Token::NodeRef(n)),
            None => Err(
                lex_error(concat3("node reference '", word.as_str(), "' is out of range").as_str()),
            ),
        };
    }
    if same_text(up.as_str(), "TRUE") {
        Ok(Token::BoolLit(true))
    } else if same_text(up.as_str(), "FALSE") {
        Ok(Token::BoolLit(false))
    } else if is_keyword_text(up.as_str()) {
        Ok(Token::Keyword(up))
    } else {
        Ok(Token::Ident(word))
    }
}

fn char_text(c: char) -> (r: String)
    ensures
        r@ == seq![c],
{
    let mut s = String::new();
    s.push(c);
    assert(s@ =~= seq![c]);
    s
}

fn lex_token(s: &Vec<char>, i: usize) -> (r: Result<(Token, usize), GraphError>)
    requires
        i < s.len(),
    ensures
        token_outcome(r, token_at(s@, i as int)),
{
    let c = s[i];
    if c == '"' {
        let e: usize = find_quote(s, i + 1);
        if e >= s.len() {
            return Err(lex_error("unterminated string literal"));
        }
        return Ok((Token::StringLit(slice_of(s, i + 1, e)), e + 1));
    }
    if i + 1 < s.len() {
        match lex_pair(c, s[i + 1]) {
            Some(t) => {
                return Ok((t, i + 2));
            },
            None => {},
        }
    }
    match lex_single(c) {
        Some(t) => {
            return Ok((t, i + 1));
        },
        None => {},
    }
    if '0' <= c && c <= '9' {
        return lex_number(s, i);
    }
    if c.is_alphabetic() || c == '_' {
        let e: usize = find_word_end(s, i);
        let word = slice_of(s, i, e);
        let up = to_upper(word.as_str());
        return match lex_word(word, up) {
            Ok(t) => Ok((t, e)),
            Err(e) => Err(e),
        };
    }
    Err(lex_error(concat3("unexpected character '", char_text(c).as_str(), "'").as_str()))
}

/// Parts a query into tokens.
pub fn lex(input: &str) -> (r: Result<Vec<Token>, GraphError>)
    ensures
        match (r, tokens_of(input@)) {
            (Ok(ts), Ok(v)) => token_views(ts@) == v,
            (Err(e), Err(m)) => e@ == lex_error_view(m),
            _ => false,
        },
{
    let chars = chars_of(input);
    let mut pos: usize = 0;
    let mut tokens: Vec<Token> = Vec::new();
    assert(token_views(tokens@) =~= Seq::empty());
    while pos < chars.len()
        invariant
            pos <= chars.len(),
            chars@ == input@,
            tokens_of(input@) == tokens_from(chars@, pos as int, token_views(tokens@)),
        decreases chars.len() - pos,
    {
        if chars[pos].is_whitespace() {
            pos = pos + 1;
            continue;
        }
        proof {
            lemma_token_advances(chars@, pos as int);
        }
        let ghost before = tokens@;
        match lex_token(&chars, pos) {
            Ok((t, q)) => {
                let ghost v = t@;
                tokens.push(t);
                assert(token_views(tokens@) =~= token_views(before).push(v));
                pos = q;
            },
            Err(e) => {
                return Err(e);
            },
        }
    }
    Ok(tokens)
}

} // verus!
