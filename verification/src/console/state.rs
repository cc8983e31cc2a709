//! What the console remembers between lines.

use crate::layout::{align_right, right_aligned};
use crate::server::Lang;
use crate::text::{concat3, decimal, same_text, u64_to_text};
use vstd::prelude::*;
use vstd::string::StringExecFns;

verus! {

/// How many lines are remembered.
pub const HISTORY_CAPACITY: usize = 100;

/// How many remembered lines are shown.
pub const HISTORY_SHOWN: usize = 20;

/// What the console remembers between lines.
pub struct ReplState {
    /// The language of queries.
    pub lang: Lang,
    /// Whether the time of a query is shown.
    pub show_timing: bool,
    /// How many results are shown; zero means all.
    pub result_limit: usize,
    /// The remembered lines, from the oldest on.
    pub history: Vec<String>,
}

/// The remembered lines after one more. A blank line and one that repeats the last
/// are not remembered; the oldest goes when there are too many.
pub open spec fn remembered(history: Seq<Seq<char>>, line: Seq<char>) -> Seq<Seq<char>> {
    if line.len() == 0 || (history.len() > 0 && history.last() == line) {
        history
    } else if history.len() >= HISTORY_CAPACITY {
        history.push(line).skip(1)
    } else {
        history.push(line)
    }
}

/// The number of the first remembered line that is shown.
pub open spec fn first_shown(n: nat) -> nat {
    if n > HISTORY_SHOWN {
        (n - HISTORY_SHOWN) as nat
    } else {
        0
    }
}

/// Remembered lines from one up to another, each with its number.
pub open spec fn history_lines(s: Seq<Seq<char>>, from: int, to: int) -> Seq<char>
    decreases to - from,
{
    if to <= from {
        Seq::empty()
    } else {
        history_lines(s, from, to - 1) + "  "@ + right_aligned(decimal(to as nat), 3) + "  "@ + s[to
            - 1] + "\n"@
    }
}

impl ReplState {
    /// The remembered lines, from the oldest on.
    pub open spec fn lines(&self) -> Seq<Seq<char>> {
        self.history@.map_values(|s: String| s@)
    }

    /// The state at the start.
    pub fn new() -> (r: ReplState)
        ensures
            r.lang == Lang::Simple,
            r.show_timing,
            r.result_limit == 50,
            r.lines() == Seq::<Seq<char>>::empty(),
    {
        let r = ReplState {
            lang: Lang::Simple,
            show_timing: true,
            result_limit: 50,
            history: Vec::new(),
        };
        assert(r.lines() =~= Seq::empty());
        r
    }

    /// Remembers a line.
    pub fn record(&mut self, line: &str)
        ensures
            final(self).lines() == remembered(old(self).lines(), line@),
            final(self).lang == old(self).lang,
            final(self).show_timing == old(self).show_timing,
            final(self).result_limit == old(self).result_limit,
    {
        let n: usize = self.history.len();
        if crate::text::chars_of(line).len() == 0 {
            return;
        }
        if n > 0 && same_text(self.history[n - 1].as_str(), line) {
            assert(self.lines().last() == line@);
            return;
        }
        assert(n > 0 ==> self.lines().last() == self.history@[n - 1]@);
        self.history.push(String::from_str(line));
        assert(self.lines() =~= old(self).lines().push(line@));
        if self.history.len() > HISTORY_CAPACITY {
            let ghost before = self.lines();
            let _ = self.history.remove(0);
            assert(self.lines() =~= before.skip(1));
        }
    }

    /// The prompt.
    pub fn prompt(&self) -> (r: String)
        ensures
            r@ == "db("@ + self.lang.text() + ")> "@,
    {
        concat3("db(", self.lang.name(), ")> ")
    }

    /// The last remembered lines with their numbers.
    pub fn show_history(&self) -> (r: String)
        ensures
            r@ == history_lines(
                self.lines(),
                first_shown(self.lines().len()) as int,
                self.lines().len() as int,
            ),
    {
        let n: usize = self.history.len();
        let start: usize = if n > HISTORY_SHOWN {
            n - HISTORY_SHOWN
        } else {
            0
        };
        let mut out = String::new();
        let mut i: usize = start;
        assert(out@ =~= Seq::empty());
        while i < n
            invariant
                start <= i <= n,
                n == self.history.len(),
                out@ == history_lines(self.lines(), start as int, i as int),
            decreases n - i,
        {
            assert(self.lines()[i as int] == self.history@[i as int]@);
            out.append("  ");
            out.append(align_right(u64_to_text(i as u64 + 1).as_str(), 3).as_str());
            out.append("  ");
            out.append(self.history[i].as_str());
            out.append("\n");
            i += 1;
        }
        out
    }
}

/// At most so many lines are remembered, and the newest is the last line that was
/// entered, unless that was blank.
pub proof fn law_history_is_bounded(history: Seq<Seq<char>>, line: Seq<char>)
    requires
        history.len() <= HISTORY_CAPACITY,
    ensures
        remembered(history, line).len() <= HISTORY_CAPACITY,
        line.len() > 0 ==> remembered(history, line).last() == line,
{
}

} // verus!
