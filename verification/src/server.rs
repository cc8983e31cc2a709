//! The line protocol through which the database is served.
//!
//! A client sends one line for each request: a query, which the name of a
//! language and a colon may precede, or a command that starts with a colon. The
//! answer is `OK` or `ERR`, then the text of the result or of the error, then a
//! line that marks the end.

use crate::database::layered::LayeredGraphDatabase;
use crate::layout::{after, strip, trim, trimmed};
use crate::model::error::{GraphError, GraphErrorView};
use crate::ports::cache::CachePort;
use crate::ports::engine::GraphEnginePort;
use crate::ports::storage::StoragePort;
use crate::query::languages::cypher_lite::CypherLiteLanguage;
use crate::query::languages::simple::SimpleQueryLanguage;
use crate::query::result::QueryResult;
use crate::text::{concat2, concat3, same_text};
use crate::unicode::{eq_ignore_case, lower, same_word, to_lower};
use vstd::prelude::*;
use vstd::string::StringExecFns;

verus! {

/// The query language of a session.
#[derive(Clone, Copy, Debug, PartialEq, Eq, Structural)]
pub enum Lang {
    Simple,
    Cypher,
}

impl Lang {
    /// The name of the language.
    pub open spec fn text(self) -> Seq<char> {
        match self {
            Lang::Simple => "simple"@,
            Lang::Cypher => "cypher"@,
        }
    }

    /// The name of the language.
    pub fn name(self) -> (r: &'static str)
        ensures
            r@ == self.text(),
    {
        match self {
            Lang::Simple => "simple",
            Lang::Cypher => "cypher",
        }
    }
}

impl Default for Lang {
    fn default() -> (r: Lang)
        ensures
            r == Lang::Simple,
    {
        Lang::Simple
    }
}

/// The language and the query of a line. A prefix chooses the language.
pub open spec fn prefixed(line: Seq<char>, default: Lang) -> (Lang, Seq<char>) {
    match after(line, "simple:"@) {
        Some(rest) => (Lang::Simple, trimmed(rest)),
        None => match after(line, "cypher:"@) {
            Some(rest) => (Lang::Cypher, trimmed(rest)),
            None => (default, line),
        },
    }
}

/// Reads an optional language prefix. Gives the language and the query.
pub fn parse_lang_prefix(line: &str, default: Lang) -> (r: (Lang, String))
    ensures
        (r.0, r.1@) == prefixed(line@, default),
{
    match strip(line, "simple:") {
        Some(rest) => (Lang::Simple, trim(rest.as_str())),
        None => match strip(line, "cypher:") {
            Some(rest) => (Lang::Cypher, trim(rest.as_str())),
            None => (default, String::from_str(line)),
        },
    }
}

/// The language that a line switches to, if it is a command that does so.
pub open spec fn switch_of(line: Seq<char>) -> Option<Lang> {
    let l = lower(line);
    if l == ":lang simple"@ || l == ":use simple"@ {
        Some(Lang::Simple)
    } else if l == ":lang cypher"@ || l == ":use cypher"@ {
        Some(Lang::Cypher)
    } else {
        None
    }
}

/// The language that a line switches to, if it is a command that does so.
pub fn parse_lang_switch(line: &str) -> (r: Option<Lang>)
    ensures
        r == switch_of(line@),
{
    let l = to_lower(line);
    if same_text(l.as_str(), ":lang simple") || same_text(l.as_str(), ":use simple") {
        Some(Lang::Simple)
    } else if same_text(l.as_str(), ":lang cypher") || same_text(l.as_str(), ":use cypher") {
        Some(Lang::Cypher)
    } else {
        None
    }
}

/// The line that marks the end of an answer.
pub open spec fn end_mark() -> Seq<char> {
    "---END---"@
}

/// An answer as it is sent: its lines, then the end mark.
pub open spec fn framed(body: Seq<char>) -> Seq<char> {
    body + "\n"@ + end_mark() + "\n"@
}

/// Every answer ends with the end mark on a line of its own.
pub proof fn law_answers_end_with_mark(body: Seq<char>)
    ensures
        framed(body).len() == body.len() + 11,
        framed(body).take(body.len() as int) == body,
        framed(body).skip(body.len() as int) == "\n---END---\n"@,
{
    reveal_strlit("\n");
    reveal_strlit("---END---");
    reveal_strlit("\n---END---\n");
    assert(framed(body).take(body.len() as int) =~= body);
    assert(framed(body).skip(body.len() as int) =~= "\n---END---\n"@);
}

fn frame(body: &str) -> (r: String)
    ensures
        r@ == framed(body@),
{
    let mut s = concat2(body, "\n");
    s.append("---END---");
    s.append("\n");
    s
}

/// The answer to a query with the given outcome.
pub open spec fn outcome_text(r: Result<QueryResult, GraphErrorView>) -> Seq<char> {
    match r {
        Ok(result) => "OK\n"@ + result.text(),
        Err(e) => "ERR\n"@ + e.message(),
    }
}

/// The outcome of a query in terms of what an error says.
pub open spec fn outcome(r: Result<QueryResult, GraphError>) -> Result<
    QueryResult,
    GraphErrorView,
> {
    match r {
        Ok(result) => Ok(result),
        Err(e) => Err(e@),
    }
}

/// The answer to a query with the given outcome.
pub fn answer(r: &Result<QueryResult, GraphError>) -> (text: String)
    ensures
        text@ == outcome_text(outcome(*r)),
{
    match r {
        Ok(result) => concat2("OK\n", result.display().as_str()),
        Err(e) => concat2("ERR\n", e.display().as_str()),
    }
}

/// What a line asks of a session.
pub enum Request {
    /// Nothing: the line is blank.
    Blank,
    /// To end the session.
    Quit,
    /// To use another language from now on.
    Switch(Lang),
    /// To run a query in a language.
    Query(Lang, String),
}

/// What a line asks of a session.
pub enum RequestView {
    Blank,
    Quit,
    Switch(Lang),
    Query(Lang, Seq<char>),
}

impl View for Request {
    type V = RequestView;

    open spec fn view(&self) -> RequestView {
        match *self {
            Request::Blank => RequestView::Blank,
            Request::Quit => RequestView::Quit,
            Request::Switch(l) => RequestView::Switch(l),
            Request::Query(l, q) => RequestView::Query(l, q@),
        }
    }
}

/// What a line asks of a session whose language is the given one.
pub open spec fn request_of(raw: Seq<char>, current: Lang) -> RequestView {
    let line = trimmed(raw);
    if line.len() == 0 {
        RequestView::Blank
    } else if same_word(line, ":quit"@) || same_word(line, ":exit"@) {
        RequestView::Quit
    } else {
        match switch_of(line) {
            Some(l) => RequestView::Switch(l),
            None => {
                let p = prefixed(line, current);
                RequestView::Query(p.0, p.1)
            },
        }
    }
}

/// Reads what a line asks of a session.
pub fn read_request(raw: &str, current: Lang) -> (r: Request)
    ensures
        r@ == request_of(raw@, current),
{
    let line = trim(raw);
    if crate::text::chars_of(line.as_str()).len() == 0 {
        return Request::Blank;
    }
    if eq_ignore_case(line.as_str(), ":quit") || eq_ignore_case(line.as_str(), ":exit") {
        return Request::Quit;
    }
    match parse_lang_switch(line.as_str()) {
        Some(l) => Request::Switch(l),
        None => {
            let (l, q) = parse_lang_prefix(line.as_str(), current);
            Request::Query(l, q)
        },
    }
}

/// What is sent back for a line.
pub enum Reply {
    /// Nothing.
    Silent,
    /// A text, after which the session goes on.
    Said(String),
    /// A text, after which the session ends.
    Closing(String),
}

/// Whether the outcome of a query is right in a language.
pub open spec fn answers_in<S: StoragePort, C: CachePort, E: GraphEnginePort>(
    db: &LayeredGraphDatabase<S, C, E>,
    lang: Lang,
    query: Seq<char>,
    r: Result<QueryResult, GraphErrorView>,
) -> bool {
    match lang {
        Lang::Simple => db.answers_query(&SimpleQueryLanguage, query, r),
        Lang::Cypher => db.answers_query(&CypherLiteLanguage, query, r),
    }
}

/// Whether a text is the answer to a query: that of a right outcome.
pub open spec fn is_answer<S: StoragePort, C: CachePort, E: GraphEnginePort>(
    db: &LayeredGraphDatabase<S, C, E>,
    lang: Lang,
    query: Seq<char>,
    text: Seq<char>,
) -> bool {
    exists|o: Result<QueryResult, GraphErrorView>| #[trigger]
        answers_in(db, lang, query, o) && text == framed(outcome_text(o))
}

/// Runs a query in one of the languages.
pub fn run_query<S: StoragePort, C: CachePort, E: GraphEnginePort>(
    db: &mut LayeredGraphDatabase<S, C, E>,
    lang: Lang,
    query: &str,
) -> (r: Result<QueryResult, GraphError>)
    requires
        old(db).well_formed(),
    ensures
        final(db).well_formed(),
        final(db).same_layers(old(db)),
        final(db).has_counted_query(old(db)),
        old(db).coherent() ==> final(db).coherent(),
        answers_in(old(db), lang, query@, outcome(r)),
{
    match lang {
        Lang::Simple => db.execute_query(&SimpleQueryLanguage, query),
        Lang::Cypher => db.execute_query(&CypherLiteLanguage, query),
    }
}

/// A session of a client.
pub struct Session {
    lang: Lang,
}

impl Session {
    /// The language of the session.
    pub closed spec fn current(&self) -> Lang {
        self.lang
    }

    /// A session in the default language.
    pub fn new() -> (r: Session)
        ensures
            r.current() == Lang::Simple,
    {
        Session { lang: Lang::default() }
    }

    /// The language of the session.
    pub fn lang(&self) -> (r: Lang)
        ensures
            r == self.current(),
    {
        self.lang
    }

    /// The greeting at the start of a session.
    pub fn greeting(&self) -> (r: String)
        ensures
            r@ == framed(
                "# AdGraphDb  |  language: "@ + self.current().text()
                    + "  |  :quit to disconnect  |  :lang simple|cypher"@,
            ),
    {
        let s = concat3(
            "# AdGraphDb  |  language: ",
            self.lang.name(),
            "  |  :quit to disconnect  |  :lang simple|cypher",
        );
        frame(s.as_str())
    }

    /// Answers a line.
    pub fn respond<S: StoragePort, C: CachePort, E: GraphEnginePort>(
        &mut self,
        db: &mut LayeredGraphDatabase<S, C, E>,
        raw: &str,
    ) -> (r: Reply)
        requires
            old(db).well_formed(),
        ensures
            final(db).well_formed(),
            final(db).same_layers(old(db)),
            old(db).coherent() ==> final(db).coherent(),
            match request_of(raw@, old(self).current()) {
                RequestView::Blank => r is Silent && final(self).current() == old(self).current()
                    && *final(db) == *old(db),
                RequestView::Quit => {
                    &&& r matches Reply::Closing(t) && t@ == framed("OK\nBye!"@)
                    &&& final(self).current() == old(self).current()
                    &&& *final(db) == *old(db)
                },
                RequestView::Switch(l) => {
                    &&& r matches Reply::Said(t) && t@ == framed(
                        "OK\nLanguage switched to "@ + l.text(),
                    )
                    &&& final(self).current() == l
                    &&& *final(db) == *old(db)
                },
                RequestView::Query(l, q) => {
                    &&& final(self).current() == old(self).current()
                    &&& final(db).has_counted_query(old(db))
                    &&& r matches Reply::Said(t) && is_answer(old(db), l, q, t@)
                },
            },
    {
        match read_request(raw, self.lang) {
            Request::Blank => Reply::Silent,
            Request::Quit => Reply::Closing(frame("OK\nBye!")),
            Request::Switch(l) => {
                self.lang = l;
                Reply::Said(
                    frame(concat2("OK\nLanguage switched to ", l.name()).as_str()),
                )
            },
            Request::Query(l, q) => {
                let result = run_query(db, l, q.as_str());
                let text = frame(answer(&result).as_str());
                assert(is_answer(old(db), l, q@, text@)) by {
                    assert(answers_in(old(db), l, q@, outcome(result)));
                }
                Reply::Said(text)
            },
        }
    }
}

/// A database together with the address that it is served at.
pub struct GraphServer<S: StoragePort, C: CachePort, E: GraphEnginePort> {
    db: LayeredGraphDatabase<S, C, E>,
    addr: String,
}

impl<S: StoragePort, C: CachePort, E: GraphEnginePort> GraphServer<S, C, E> {
    /// The database.
    pub closed spec fn database(&self) -> LayeredGraphDatabase<S, C, E> {
        self.db
    }

    /// The address.
    pub closed spec fn address(&self) -> Seq<char> {
        self.addr@
    }

    /// Serves a database at an address.
    pub fn new(db: LayeredGraphDatabase<S, C, E>, addr: String) -> (r: Self)
        ensures
            r.database() == db,
            r.address() == addr@,
    {
        GraphServer { db, addr }
    }

    /// The address that the database is served at.
    pub fn addr(&self) -> (r: &str)
        ensures
            r@ == self.address(),
    {
        self.addr.as_str()
    }

    /// The database.
    pub fn db(&self) -> (r: &LayeredGraphDatabase<S, C, E>)
        ensures
            *r == self.database(),
    {
        &self.db
    }

    /// Answers a line of a session. See `Session::respond`.
    pub fn respond(&mut self, session: &mut Session, raw: &str) -> (r: Reply)
        requires
            old(self).database().well_formed(),
        ensures
            final(self).database().well_formed(),
            final(self).database().same_layers(&old(self).database()),
            final(self).address() == old(self).address(),
            old(self).database().coherent() ==> final(self).database().coherent(),
            match request_of(raw@, old(session).current()) {
                RequestView::Blank => {
                    &&& r is Silent
                    &&& final(session).current() == old(session).current()
                    &&& final(self).database() == old(self).database()
                },
                RequestView::Quit => {
                    &&& r matches Reply::Closing(t) && t@ == framed("OK\nBye!"@)
                    &&& final(session).current() == old(session).current()
                    &&& final(self).database() == old(self).database()
                },
                RequestView::Switch(l) => {
                    &&& r matches Reply::Said(t) && t@ == framed(
                        "OK\nLanguage switched to "@ + l.text(),
                    )
                    &&& final(session).current() == l
                    &&& final(self).database() == old(self).database()
                },
                RequestView::Query(l, q) => {
                    &&& final(session).current() == old(session).current()
                    &&& final(self).database().has_counted_query(&old(self).database())
                    &&& r matches Reply::Said(t) && is_answer(&old(self).database(), l, q, t@)
                },
            },
    {
        session.respond(&mut self.db, raw)
    }
}

} // verus!
