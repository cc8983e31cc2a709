//! The commands of the console. They start with a colon; any other line is a query.

use crate::console::arguments::{parse_size, size_of_text};
use crate::console::state::{first_shown, history_lines, ReplState};
use crate::float_display::push_chars;
use crate::layout::{after, begins, strip, trim, trimmed};
use crate::server::Lang;
use crate::text::{chars_of, concat3, decimal, same_text, u64_to_text};
use crate::unicode::{lower, to_lower};
use vstd::prelude::*;
use vstd::string::StringExecFns;

verus! {

/// A command of the console.
#[derive(Debug)]
pub enum MetaCommand {
    /// Use a language from now on.
    Use(Lang),
    ShowLang,
    /// Show the number of nodes.
    Nodes,
    /// Show the number of edges.
    Edges,
    Labels,
    Schema,
    Metrics,
    Compact,
    /// Load the sample graph.
    Seed,
    ShowTiming,
    SetTiming(bool),
    ShowLimit,
    SetLimit(usize),
    /// A limit that is no number.
    BadLimit,
    /// Show the plan for a query, which is not run.
    Explain(String),
    History,
    /// Run the lines of a file.
    Run(String),
    /// Clear the screen.
    Clear,
    Help,
    HelpTopic(String),
    /// None of the commands: the line is a query.
    NotMeta,
}

/// What a command of the console says.
pub enum MetaView {
    Use(Lang),
    ShowLang,
    Nodes,
    Edges,
    Labels,
    Schema,
    Metrics,
    Compact,
    Seed,
    ShowTiming,
    SetTiming(bool),
    ShowLimit,
    SetLimit(usize),
    BadLimit,
    Explain(Seq<char>),
    History,
    Run(Seq<char>),
    Clear,
    Help,
    HelpTopic(Seq<char>),
    NotMeta,
}

impl View for MetaCommand {
    type V = MetaView;

    open spec fn view(&self) -> MetaView {
        match *self {
            MetaCommand::Use(l) => MetaView::Use(l),
            MetaCommand::ShowLang => MetaView::ShowLang,
            MetaCommand::Nodes => MetaView::Nodes,
            MetaCommand::Edges => MetaView::Edges,
            MetaCommand::Labels => MetaView::Labels,
            MetaCommand::Schema => MetaView::Schema,
            MetaCommand::Metrics => MetaView::Metrics,
            MetaCommand::Compact => MetaView::Compact,
            MetaCommand::Seed => MetaView::Seed,
            MetaCommand::ShowTiming => MetaView::ShowTiming,
            MetaCommand::SetTiming(on) => MetaView::SetTiming(on),
            MetaCommand::ShowLimit => MetaView::ShowLimit,
            MetaCommand::SetLimit(n) => MetaView::SetLimit(n),
            MetaCommand::BadLimit => MetaView::BadLimit,
            MetaCommand::Explain(q) => MetaView::Explain(q@),
            MetaCommand::History => MetaView::History,
            MetaCommand::Run(p) => MetaView::Run(p@),
            MetaCommand::Clear => MetaView::Clear,
            MetaCommand::Help => MetaView::Help,
            MetaCommand::HelpTopic(t) => MetaView::HelpTopic(t@),
            MetaCommand::NotMeta => MetaView::NotMeta,
        }
    }
}

/// The argument of a command that is followed by a space or a tabulator.
pub open spec fn argument(
    line: Seq<char>,
    with_space: Seq<char>,
    with_tab: Seq<char>,
) -> Option<Seq<char>> {
    match after(line, with_space) {
        Some(rest) => Some(trimmed(rest)),
        None => match after(line, with_tab) {
            Some(rest) => Some(trimmed(rest)),
            None => None,
        },
    }
}

fn read_argument(line: &str, with_space: &str, with_tab: &str) -> (r: Option<String>)
    ensures
        match r {
            Some(a) => argument(line@, with_space@, with_tab@) == Some(a@),
            None => argument(line@, with_space@, with_tab@) is None,
        },
{
    match strip(line, with_space) {
        Some(rest) => Some(trim(rest.as_str())),
        None => match strip(line, with_tab) {
            Some(rest) => Some(trim(rest.as_str())),
            None => None,
        },
    }
}

/// The commands that are one fixed word or two, in any case of letters, and are
/// the same in every mode.
pub open spec fn fixed_command(l: Seq<char>) -> Option<MetaView> {
    if l == ":use simple"@ || l == ":lang simple"@ {
        Some(MetaView::Use(Lang::Simple))
    } else if l == ":use cypher"@ || l == ":lang cypher"@ {
        Some(MetaView::Use(Lang::Cypher))
    } else if l == ":lang"@ {
        Some(MetaView::ShowLang)
    } else if l == ":time"@ {
        Some(MetaView::ShowTiming)
    } else if l == ":time on"@ {
        Some(MetaView::SetTiming(true))
    } else if l == ":time off"@ {
        Some(MetaView::SetTiming(false))
    } else if l == ":history"@ {
        Some(MetaView::History)
    } else if l == ":clear"@ || l == ":cls"@ {
        Some(MetaView::Clear)
    } else if l == ":help"@ {
        Some(MetaView::Help)
    } else {
        None
    }
}

/// The fixed commands that need the database.
pub open spec fn database_command(l: Seq<char>) -> Option<MetaView> {
    if l == ":nodes"@ {
        Some(MetaView::Nodes)
    } else if l == ":edges"@ {
        Some(MetaView::Edges)
    } else if l == ":labels"@ {
        Some(MetaView::Labels)
    } else if l == ":schema"@ {
        Some(MetaView::Schema)
    } else if l == ":stats"@ || l == ":metrics"@ {
        Some(MetaView::Metrics)
    } else if l == ":compact"@ {
        Some(MetaView::Compact)
    } else if l == ":seed"@ {
        Some(MetaView::Seed)
    } else if l == ":limit"@ {
        Some(MetaView::ShowLimit)
    } else {
        None
    }
}

/// The command of a line where the database is at hand.
pub open spec fn embedded_command(line: Seq<char>) -> MetaView {
    let l = trimmed(lower(line));
    match fixed_command(l) {
        Some(c) => c,
        None => match database_command(l) {
            Some(c) => c,
            None => match after(l, ":limit "@) {
                Some(n) => match size_of_text(trimmed(n)) {
                    Some(k) => MetaView::SetLimit(k),
                    None => MetaView::BadLimit,
                },
                None => match argument(line, ":explain "@, ":explain\t"@) {
                    Some(q) => MetaView::Explain(q),
                    None => match argument(line, ":run "@, ":run\t"@) {
                        Some(p) => MetaView::Run(p),
                        None => match argument(line, ":help "@, ":help\t"@) {
                            Some(t) => MetaView::HelpTopic(t),
                            None => MetaView::NotMeta,
                        },
                    },
                },
            },
        },
    }
}

fn read_fixed(l: &str) -> (r: Option<MetaCommand>)
    ensures
        match r {
            Some(c) => fixed_command(l@) == Some(c@),
            None => fixed_command(l@) is None,
        },
{
    if same_text(l, ":use simple") || same_text(l, ":lang simple") {
        Some(MetaCommand::Use(Lang::Simple))
    } else if same_text(l, ":use cypher") || same_text(l, ":lang cypher") {
        Some(MetaCommand::Use(Lang::Cypher))
    } else if same_text(l, ":lang") {
        Some(MetaCommand::ShowLang)
    } else if same_text(l, ":time") {
        Some(MetaCommand::ShowTiming)
    } else if same_text(l, ":time on") {
        Some(MetaCommand::SetTiming(true))
    } else if same_text(l, ":time off") {
        Some(MetaCommand::SetTiming(false))
    } else if same_text(l, ":history") {
        Some(MetaCommand::History)
    } else if same_text(l, ":clear") || same_text(l, ":cls") {
        Some(MetaCommand::Clear)
    } else if same_text(l, ":help") {
        Some(MetaCommand::Help)
    } else {
        None
    }
}

fn read_database(l: &str) -> (r: Option<MetaCommand>)
    ensures
        match r {
            Some(c) => database_command(l@) == Some(c@),
            None => database_command(l@) is None,
        },
{
    if same_text(l, ":nodes") {
        Some(MetaCommand::Nodes)
    } else if same_text(l, ":edges") {
        Some(MetaCommand::Edges)
    } else if same_text(l, ":labels") {
        Some(MetaCommand::Labels)
    } else if same_text(l, ":schema") {
        Some(MetaCommand::Schema)
    } else if same_text(l, ":stats") || same_text(l, ":metrics") {
        Some(MetaCommand::Metrics)
    } else if same_text(l, ":compact") {
        Some(MetaCommand::Compact)
    } else if same_text(l, ":seed") {
        Some(MetaCommand::Seed)
    } else if same_text(l, ":limit") {
        Some(MetaCommand::ShowLimit)
    } else {
        None
    }
}

/// Reads the command of a line where the database is at hand.
pub fn read_embedded_command(line: &str) -> (r: MetaCommand)
    ensures
        r@ == embedded_command(line@),
{
    let lowered = to_lower(line);
    let l = trim(lowered.as_str());
    if let Some(c) = read_fixed(l.as_str()) {
        return c;
    }
    if let Some(c) = read_database(l.as_str()) {
        return c;
    }
    if let Some(n) = strip(l.as_str(), ":limit ") {
        let n = trim(n.as_str());
        return match parse_size(n.as_str()) {
            Some(k) => MetaCommand::SetLimit(k),
            None => MetaCommand::BadLimit,
        };
    }
    if let Some(q) = read_argument(line, ":explain ", ":explain\t") {
        return MetaCommand::Explain(q);
    }
    if let Some(p) = read_argument(line, ":run ", ":run\t") {
        return MetaCommand::Run(p);
    }
    if let Some(t) = read_argument(line, ":help ", ":help\t") {
        return MetaCommand::HelpTopic(t);
    }
    MetaCommand::NotMeta
}

/// A text without a prefix, however often it stands at the start.
pub open spec fn without_prefix(s: Seq<char>, prefix: Seq<char>) -> Seq<char>
    decreases s.len(),
{
    if prefix.len() > 0 && begins(s, prefix) {
        without_prefix(s.skip(prefix.len() as int), prefix)
    } else {
        s
    }
}

/// Removes a prefix from a text, however often it stands at the start.
pub fn strip_all(s: &str, prefix: &str) -> (r: String)
    ensures
        r@ == without_prefix(s@, prefix@),
{
    let n: usize = chars_of(prefix).len();
    let mut rest = String::from_str(s);
    if n == 0 {
        return rest;
    }
    let ghost mut left = s@.len();
    loop
        invariant_except_break
            n == prefix@.len(),
            n > 0,
            left == rest@.len(),
            without_prefix(s@, prefix@) == without_prefix(rest@, prefix@),
        ensures
            rest@ == without_prefix(s@, prefix@),
        decreases left,
    {
        match strip(rest.as_str(), prefix) {
            Some(shorter) => {
                rest = shorter;
                proof {
                    left = rest@.len();
                }
            },
            None => {
                break;
            },
        }
    }
    rest
}

/// The characters of a text behind the first few.
pub open spec fn behind(s: Seq<char>, n: int) -> Seq<char> {
    if s.len() < n {
        Seq::empty()
    } else {
        s.skip(n)
    }
}

fn rest_behind(s: &str, n: usize) -> (r: String)
    ensures
        r@ == behind(s@, n as int),
{
    let chars = chars_of(s);
    let mut out = String::new();
    if chars.len() >= n {
        push_chars(&mut out, &chars, n, chars.len());
        assert(out@ =~= s@.skip(n as int));
    }
    assert(out@ =~= behind(s@, n as int));
    out
}

/// The command of a line that can be carried out without the database: one to a
/// remote server would be sent there otherwise.
pub open spec fn remote_command(line: Seq<char>) -> MetaView {
    let l = trimmed(lower(line));
    match fixed_command(l) {
        Some(c) => c,
        None => if begins(l, ":help "@) {
            MetaView::HelpTopic(behind(line, 6))
        } else if begins(l, ":limit"@) {
            let n = trimmed(without_prefix(l, ":limit"@));
            if n.len() == 0 {
                MetaView::ShowLimit
            } else {
                match size_of_text(n) {
                    Some(k) => MetaView::SetLimit(k),
                    None => MetaView::BadLimit,
                }
            }
        } else {
            MetaView::NotMeta
        },
    }
}

/// Reads the command of a line that can be carried out without the database.
pub fn read_remote_command(line: &str) -> (r: MetaCommand)
    ensures
        r@ == remote_command(line@),
{
    let lowered = to_lower(line);
    let l = trim(lowered.as_str());
    if let Some(c) = read_fixed(l.as_str()) {
        return c;
    }
    if strip(l.as_str(), ":help ").is_some() {
        return MetaCommand::HelpTopic(rest_behind(line, 6));
    }
    if strip(l.as_str(), ":limit").is_some() {
        let n = trim(strip_all(l.as_str(), ":limit").as_str());
        if chars_of(n.as_str()).len() == 0 {
            return MetaCommand::ShowLimit;
        }
        return match parse_size(n.as_str()) {
            Some(k) => MetaCommand::SetLimit(k),
            None => MetaCommand::BadLimit,
        };
    }
    MetaCommand::NotMeta
}

/// Whether a line ends the console.
pub open spec fn is_quit(line: Seq<char>) -> bool {
    lower(line) == ":quit"@ || lower(line) == ":exit"@
}

/// Whether a line ends the console.
pub fn handle_quit(line: &str) -> (r: bool)
    ensures
        r == is_quit(line@),
{
    let l = to_lower(line);
    same_text(l.as_str(), ":quit") || same_text(l.as_str(), ":exit")
}

/// A limit in words.
pub open spec fn limit_text(n: usize) -> Seq<char> {
    "Result limit: "@ + (if n == 0 {
        "unlimited"@
    } else {
        decimal(n as nat)
    }) + "\n"@
}

fn show_limit(n: usize) -> (r: String)
    ensures
        r@ == limit_text(n),
{
    if n == 0 {
        concat3("Result limit: ", "unlimited", "\n")
    } else {
        concat3("Result limit: ", u64_to_text(n as u64).as_str(), "\n")
    }
}

/// Whether the timing is shown, in words.
pub open spec fn timing_text(on: bool) -> Seq<char> {
    if on {
        "Timing: on\n"@
    } else {
        "Timing: off\n"@
    }
}

fn show_timing(on: bool) -> (r: String)
    ensures
        r@ == timing_text(on),
{
    if on {
        String::from_str("Timing: on\n")
    } else {
        String::from_str("Timing: off\n")
    }
}

/// What the console says when it takes up a language.
pub open spec fn language_text(l: Lang) -> Seq<char> {
    match l {
        Lang::Simple => "Language: SimpleQuery\n"@,
        Lang::Cypher => "Language: CypherLite\n"@,
    }
}

/// What a command that concerns only the console says, if it is one.
pub open spec fn local_text(c: MetaView, state: &ReplState) -> Option<Seq<char>> {
    match c {
        MetaView::Use(l) => Some(language_text(l)),
        MetaView::ShowLang => Some("Language: "@ + state.lang.text() + "\n"@),
        MetaView::ShowTiming => Some(timing_text(state.show_timing)),
        MetaView::SetTiming(on) => Some(timing_text(on)),
        MetaView::ShowLimit => Some(limit_text(state.result_limit)),
        MetaView::SetLimit(n) => Some(limit_text(n)),
        MetaView::History => Some(
            history_lines(
                state.lines(),
                first_shown(state.lines().len()) as int,
                state.lines().len() as int,
            ),
        ),
        _ => None,
    }
}

/// Carries out a command that concerns only the console, if it is one, and gives
/// what it says.
pub fn run_local(command: &MetaCommand, state: &mut ReplState) -> (r: Option<String>)
    ensures
        match r {
            Some(t) => local_text(command@, old(state)) == Some(t@),
            None => local_text(command@, old(state)) is None,
        },
        final(state).lang == match command@ {
            MetaView::Use(l) => l,
            _ => old(state).lang,
        },
        final(state).show_timing == match command@ {
            MetaView::SetTiming(on) => on,
            _ => old(state).show_timing,
        },
        final(state).result_limit == match command@ {
            MetaView::SetLimit(n) => n,
            _ => old(state).result_limit,
        },
        final(state).lines() == old(state).lines(),
{
    match command {
        MetaCommand::Use(l) => {
            state.lang = *l;
            match l {
                Lang::Simple => Some(String::from_str("Language: SimpleQuery\n")),
                Lang::Cypher => Some(String::from_str("Language: CypherLite\n")),
            }
        },
        MetaCommand::ShowLang => Some(concat3("Language: ", state.lang.name(), "\n")),
        MetaCommand::ShowTiming => Some(show_timing(state.show_timing)),
        MetaCommand::SetTiming(on) => {
            state.show_timing = *on;
            Some(show_timing(*on))
        },
        MetaCommand::ShowLimit => Some(show_limit(state.result_limit)),
        MetaCommand::SetLimit(n) => {
            state.result_limit = *n;
            Some(show_limit(*n))
        },
        MetaCommand::History => Some(state.show_history()),
        _ => None,
    }
}

/// A topic of the help.
#[derive(Debug)]
pub enum HelpTopic {
    Queries,
    Meta,
    Examples,
    Bfs,
    Dijkstra,
    Transactions,
    Runbook,
    /// A topic that there is no help on.
    Unknown(String),
}

/// What a topic of the help says.
pub enum HelpTopicView {
    Queries,
    Meta,
    Examples,
    Bfs,
    Dijkstra,
    Transactions,
    Runbook,
    Unknown(Seq<char>),
}

impl View for HelpTopic {
    type V = HelpTopicView;

    open spec fn view(&self) -> HelpTopicView {
        match *self {
            HelpTopic::Queries => HelpTopicView::Queries,
            HelpTopic::Meta => HelpTopicView::Meta,
            HelpTopic::Examples => HelpTopicView::Examples,
            HelpTopic::Bfs => HelpTopicView::Bfs,
            HelpTopic::Dijkstra => HelpTopicView::Dijkstra,
            HelpTopic::Transactions => HelpTopicView::Transactions,
            HelpTopic::Runbook => HelpTopicView::Runbook,
            HelpTopic::Unknown(t) => HelpTopicView::Unknown(t@),
        }
    }
}

/// The topic that a word names, in any case of letters.
pub open spec fn topic_of(word: Seq<char>) -> HelpTopicView {
    let t = lower(word);
    if t == "queries"@ || t == "query"@ || t == "dsl"@ {
        HelpTopicView::Queries
    } else if t == "meta"@ || t == "commands"@ {
        HelpTopicView::Meta
    } else if t == "examples"@ || t == "example"@ {
        HelpTopicView::Examples
    } else if t == "bfs"@ {
        HelpTopicView::Bfs
    } else if t == "dijkstra"@ || t == "path"@ || t == "shortest"@ {
        HelpTopicView::Dijkstra
    } else if t == "transactions"@ || t == "txn"@ {
        HelpTopicView::Transactions
    } else if t == "runbook"@ || t == "bench"@ {
        HelpTopicView::Runbook
    } else {
        HelpTopicView::Unknown(t)
    }
}

/// The topic that a word names.
pub fn help_topic(word: &str) -> (r: HelpTopic)
    ensures
        r@ == topic_of(word@),
{
    let t = to_lower(word);
    let s = t.as_str();
    if same_text(s, "queries") || same_text(s, "query") || same_text(s, "dsl") {
        HelpTopic::Queries
    } else if same_text(s, "meta") || same_text(s, "commands") {
        HelpTopic::Meta
    } else if same_text(s, "examples") || same_text(s, "example") {
        HelpTopic::Examples
    } else if same_text(s, "bfs") {
        HelpTopic::Bfs
    } else if same_text(s, "dijkstra") || same_text(s, "path") || same_text(s, "shortest") {
        HelpTopic::Dijkstra
    } else if same_text(s, "transactions") || same_text(s, "txn") {
        HelpTopic::Transactions
    } else if same_text(s, "runbook") || same_text(s, "bench") {
        HelpTopic::Runbook
    } else {
        HelpTopic::Unknown(t)
    }
}

/// Whether a line of a file is to be run: it is neither blank nor a comment.
pub open spec fn is_script_line(raw: Seq<char>) -> bool {
    trimmed(raw).len() > 0 && trimmed(raw)[0] != '#'
}

/// The line of a file that is to be run, without the white space around it.
pub fn script_line(raw: &str) -> (r: Option<String>)
    ensures
        match r {
            Some(line) => is_script_line(raw@) && line@ == trimmed(raw@),
            None => !is_script_line(raw@),
        },
{
    let line = trim(raw);
    let chars = chars_of(line.as_str());
    if chars.len() == 0 || chars[0] == '#' {
        None
    } else {
        Some(line)
    }
}

} // verus!
