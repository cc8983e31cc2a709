//! The console's side of the line protocol.

use crate::console::commands::{
    help_topic, local_text, read_remote_command, remote_command, run_local, strip_all, topic_of,
    without_prefix, MetaCommand, MetaView,
};
use crate::console::embedded::{says, MetaOutcome};
use crate::console::state::ReplState;
use crate::layout::{trim, trimmed};
use crate::server::{end_mark, parse_lang_prefix, prefixed, Lang};
use crate::text::{concat3, same_text};
use vstd::prelude::*;
use vstd::string::StringExecFns;

verus! {

/// A query as it is sent: its language stands before it.
pub open spec fn wire_text(line: Seq<char>, default: Lang) -> Seq<char> {
    let p = prefixed(line, default);
    p.0.text() + ":"@ + p.1
}

/// A query as it is sent.
pub fn wire_query(line: &str, default: Lang) -> (r: String)
    ensures
        r@ == wire_text(line@, default),
{
    let (lang, query) = parse_lang_prefix(line, default);
    concat3(lang.name(), ":", query.as_str())
}

/// An answer without its status.
pub open spec fn body_of(answer: Seq<char>) -> Seq<char> {
    without_prefix(without_prefix(answer, "OK\n"@), "ERR\n"@)
}

/// The answer without its status.
pub fn answer_body(answer: &str) -> (r: String)
    ensures
        r@ == body_of(answer@),
{
    let without_ok = strip_all(answer, "OK\n");
    strip_all(without_ok.as_str(), "ERR\n")
}

/// Whether what is done about a command is right where the database is not at hand.
pub open spec fn right_local_outcome(c: MetaView, state: &ReplState, r: MetaOutcome) -> bool {
    match c {
        MetaView::NotMeta => r is NotMeta,
        MetaView::Clear => r is Clear,
        MetaView::Help => r is Help,
        MetaView::HelpTopic(t) => r matches MetaOutcome::Topic(x) && x@ == topic_of(t),
        MetaView::BadLimit => says(r, Seq::empty()),
        _ => match local_text(c, state) {
            Some(t) => says(r, t),
            None => false,
        },
    }
}

/// Carries out a command that needs no server, if the line is one.
pub fn handle_meta_remote_local(line: &str, state: &mut ReplState) -> (r: MetaOutcome)
    ensures
        right_local_outcome(remote_command(line@), old(state), r),
        final(state).lang == match remote_command(line@) {
            MetaView::Use(l) => l,
            _ => old(state).lang,
        },
        final(state).show_timing == match remote_command(line@) {
            MetaView::SetTiming(on) => on,
            _ => old(state).show_timing,
        },
        final(state).result_limit == match remote_command(line@) {
            MetaView::SetLimit(n) => n,
            _ => old(state).result_limit,
        },
        final(state).lines() == old(state).lines(),
{
    let command = read_remote_command(line);
    if let Some(text) = run_local(&command, state) {
        return MetaOutcome::Text(text);
    }
    match command {
        MetaCommand::Clear => MetaOutcome::Clear,
        MetaCommand::Help => MetaOutcome::Help,
        MetaCommand::HelpTopic(t) => MetaOutcome::Topic(help_topic(t.as_str())),
        MetaCommand::BadLimit => {
            let nothing = String::new();
            assert(nothing@ =~= Seq::empty());
            MetaOutcome::Text(nothing)
        },
        _ => MetaOutcome::NotMeta,
    }
}

/// Lines with a line break between each two.
pub open spec fn joined(s: Seq<Seq<char>>) -> Seq<char>
    decreases s.len(),
{
    if s.len() == 0 {
        Seq::empty()
    } else if s.len() == 1 {
        s[0]
    } else {
        joined(s.drop_last()) + "\n"@ + s.last()
    }
}

/// Whether a line ends an answer.
pub open spec fn ends_answer(line: Seq<char>) -> bool {
    trimmed(line) == end_mark()
}

/// An answer that is being read line by line.
pub struct Incoming {
    parts: Vec<String>,
}

impl Incoming {
    /// The lines that have been read.
    pub closed spec fn lines(&self) -> Seq<Seq<char>> {
        self.parts@.map_values(|s: String| s@)
    }

    /// An answer of which nothing has been read.
    pub fn new() -> (r: Incoming)
        ensures
            r.lines() == Seq::<Seq<char>>::empty(),
    {
        let r = Incoming { parts: Vec::new() };
        assert(r.lines() =~= Seq::empty());
        r
    }

    /// Takes the next line. Gives whether it ends the answer.
    pub fn take_line(&mut self, line: String) -> (r: bool)
        ensures
            r == ends_answer(line@),
            final(self).lines() == if ends_answer(line@) {
                old(self).lines()
            } else {
                old(self).lines().push(line@)
            },
    {
        let t = trim(line.as_str());
        if same_text(t.as_str(), "---END---") {
            return true;
        }
        self.parts.push(line);
        assert(self.lines() =~= old(self).lines().push(line@));
        false
    }

    /// The answer as far as it has been read.
    pub fn text(&self) -> (r: String)
        ensures
            r@ == joined(self.lines()),
    {
        let ghost all = self.lines();
        if self.parts.len() == 0 {
            let none = String::new();
            assert(none@ =~= Seq::empty());
            return none;
        }
        let mut out = self.parts[0].clone();
        let mut i: usize = 1;
        assert(all.take(1)[0] == self.parts@[0]@);
        while i < self.parts.len()
            invariant
                1 <= i <= self.parts.len(),
                all == self.lines(),
                out@ == joined(all.take(i as int)),
            decreases self.parts.len() - i,
        {
            proof {
                assert(all.take(i + 1).drop_last() =~= all.take(i as int));
                assert(all.take(i + 1).last() == self.parts@[i as int]@);
            }
            out.append("\n");
            out.append(self.parts[i].as_str());
            i += 1;
        }
        assert(all.take(i as int) =~= all);
        out
    }
}

/// The server reads a query that was sent as it was written, in its language,
/// whatever language the session has.
pub proof fn law_wire_keeps_language(query: Seq<char>, lang: Lang, other: Lang)
    requires
        trimmed(query) == query,
    ensures
        prefixed(lang.text() + ":"@ + query, other) == (lang, query),
{
    reveal_strlit("simple:");
    reveal_strlit("cypher:");
    reveal_strlit("simple");
    reveal_strlit("cypher");
    reveal_strlit(":");
    let line = lang.text() + ":"@ + query;
    assert(line.skip(7) =~= query);
    match lang {
        Lang::Simple => {
            assert(line.take(7) =~= "simple:"@);
        },
        Lang::Cypher => {
            assert(line.take(7) =~= "cypher:"@);
            assert(line.take(7)[0] != "simple:"@[0]);
        },
    }
}

} // verus!
