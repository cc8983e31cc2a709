//! Options of the command line.

use crate::collections::string_map::StringMap;
use crate::float_display::push_chars;
use crate::layout::begins;
use crate::number_text::{parse_u64, unsigned_of_text};
use crate::text::chars_of;
use vstd::prelude::*;
use vstd::string::StringExecFns;

verus! {

/// A text without the dashes at its start.
pub open spec fn without_dashes(s: Seq<char>) -> Seq<char>
    decreases s.len(),
{
    if s.len() > 0 && s[0] == '-' {
        without_dashes(s.skip(1))
    } else {
        s
    }
}

/// The options that words of the command line set, on top of others. A word names
/// an option; the next word is its value, unless that starts with a dash.
pub open spec fn options_on(
    m: Map<Seq<char>, Seq<char>>,
    words: Seq<Seq<char>>,
) -> Map<Seq<char>, Seq<char>>
    decreases words.len(),
{
    if words.len() == 0 {
        m
    } else {
        let key = without_dashes(words[0]);
        if words.len() > 1 && !begins(words[1], "-"@) {
            options_on(m.insert(key, words[1]), words.skip(2))
        } else {
            options_on(m.insert(key, "true"@), words.skip(1))
        }
    }
}

/// The texts of words.
pub open spec fn word_texts(s: Seq<String>) -> Seq<Seq<char>> {
    s.map_values(|w: String| w@)
}

fn option_name(word: &str) -> (r: String)
    ensures
        r@ == without_dashes(word@),
{
    let chars = chars_of(word);
    let ghost all = word@;
    let mut i: usize = 0;
    assert(all.skip(0) =~= all);
    while i < chars.len() && chars[i] == '-'
        invariant
            i <= chars.len(),
            chars@ == all,
            without_dashes(all) == without_dashes(all.skip(i as int)),
        decreases chars.len() - i,
    {
        proof {
            assert(all.skip(i as int)[0] == all[i as int]);
            assert(all.skip(i as int).skip(1) =~= all.skip(i + 1));
        }
        i += 1;
    }
    proof {
        if i < chars.len() {
            assert(all.skip(i as int)[0] == all[i as int]);
        }
        assert(without_dashes(all) == all.skip(i as int));
    }
    let mut out = String::new();
    push_chars(&mut out, &chars, i, chars.len());
    assert(out@ =~= all.skip(i as int));
    out
}

fn starts_with_dash(word: &str) -> (r: bool)
    ensures
        r == begins(word@, "-"@),
{
    proof {
        reveal_strlit("-");
    }
    let chars = chars_of(word);
    let r = chars.len() > 0 && chars[0] == '-';
    proof {
        if r {
            assert(word@.take(1) =~= "-"@);
        } else if word@.len() > 0 {
            assert(word@.take(1)[0] != "-"@[0]);
        }
    }
    r
}

/// Reads the options of the command line.
pub fn parse_kv_args(args: &Vec<String>) -> (r: StringMap<String>)
    ensures
        r@ == options_on(Map::empty(), word_texts(args@)),
{
    let ghost all = word_texts(args@);
    let mut map: StringMap<String> = StringMap::new();
    let mut i: usize = 0;
    assert(all.skip(0) =~= all);
    while i < args.len()
        invariant
            i <= args.len(),
            all == word_texts(args@),
            options_on(Map::empty(), all) == options_on(map@, all.skip(i as int)),
        decreases args.len() - i,
    {
        let key = option_name(args[i].as_str());
        let ghost rest = all.skip(i as int);
        proof {
            assert(rest[0] == args[i as int]@);
            assert(rest.skip(1) =~= all.skip(i + 1));
        }
        if i + 1 < args.len() && !starts_with_dash(args[i + 1].as_str()) {
            proof {
                assert(rest[1] == args[i + 1]@);
                assert(rest.skip(2) =~= all.skip(i + 2));
            }
            map.insert(key, args[i + 1].clone());
            i += 2;
        } else {
            proof {
                if i + 1 < args.len() {
                    assert(rest[1] == args[i + 1]@);
                }
            }
            map.insert(key, String::from_str("true"));
            i += 1;
        }
    }
    map
}

/// The value of an option, or a default.
pub open spec fn option_or(
    m: Map<Seq<char>, Seq<char>>,
    key: Seq<char>,
    default: Seq<char>,
) -> Seq<char> {
    if m.contains_key(key) {
        m[key]
    } else {
        default
    }
}

/// The number that a text stands for, if it fits a machine word.
pub open spec fn size_of_text(s: Seq<char>) -> Option<usize> {
    match unsigned_of_text(s) {
        Some(n) => if n <= usize::MAX {
            Some(n as usize)
        } else {
            None
        },
        None => None,
    }
}

/// Reads a number that fits a machine word.
pub fn parse_size(s: &str) -> (r: Option<usize>)
    ensures
        r == size_of_text(s@),
{
    match parse_u64(s) {
        Some(n) => if n <= usize::MAX as u64 {
            Some(n as usize)
        } else {
            None
        },
        None => None,
    }
}

/// The number that an option gives, or a default where it gives none.
pub open spec fn size_or(m: Map<Seq<char>, Seq<char>>, key: Seq<char>, default: usize) -> usize {
    if m.contains_key(key) {
        match size_of_text(m[key]) {
            Some(n) => n,
            None => default,
        }
    } else {
        default
    }
}

/// The value of an option, or a default.
pub fn text_option(opts: &StringMap<String>, key: &str, default: &str) -> (r: String)
    ensures
        r@ == option_or(opts@, key@, default@),
{
    match opts.get(key) {
        Some(v) => v.clone(),
        None => String::from_str(default),
    }
}

/// The number that an option gives, or a default where it gives none.
pub fn size_option(opts: &StringMap<String>, key: &str, default: usize) -> (r: usize)
    ensures
        r == size_or(opts@, key@, default),
{
    match opts.get(key) {
        Some(v) => match parse_size(v.as_str()) {
            Some(n) => n,
            None => default,
        },
        None => default,
    }
}

/// Whether a word asks for help.
pub open spec fn is_help(word: Seq<char>) -> bool {
    word == "--help"@ || word == "-h"@
}

/// Whether one of the words asks for help.
pub fn asks_for_help(args: &Vec<String>) -> (r: bool)
    ensures
        r == exists|i: int| 0 <= i < args@.len() && is_help(#[trigger] args@[i]@),
{
    let mut i: usize = 0;
    while i < args.len()
        invariant
            i <= args.len(),
            forall|j: int| 0 <= j < i ==> !is_help(#[trigger] args@[j]@),
        decreases args.len() - i,
    {
        if crate::text::same_text(args[i].as_str(), "--help") || crate::text::same_text(
            args[i].as_str(),
            "-h",
        ) {
            assert(is_help(args@[i as int]@));
            return true;
        }
        i += 1;
    }
    false
}

/// The format of a storage file.
#[derive(Clone, Copy, Debug, PartialEq, Eq, Structural)]
pub enum StorageFormat {
    Json,
    Binary,
}

/// The format that a word names. Whatever is not binary is JSON.
pub open spec fn format_named(word: Seq<char>) -> StorageFormat {
    if word == "bin"@ || word == "binary"@ {
        StorageFormat::Binary
    } else {
        StorageFormat::Json
    }
}

/// The options under which a database is opened from the command line.
pub struct OpenOptions {
    pub format: StorageFormat,
    /// How many nodes the cache holds; zero means no cache.
    pub cached_nodes: usize,
    /// How many edges the cache holds.
    pub cached_edges: usize,
}

/// The options under which a database is opened from the command line.
pub open spec fn open_options(m: Map<Seq<char>, Seq<char>>) -> OpenOptions {
    let n = size_or(m, "cache"@, 512);
    OpenOptions {
        format: format_named(option_or(m, "format"@, "json"@)),
        cached_nodes: n,
        cached_edges: (2 * n) as usize,
    }
}

/// Reads the options under which a database is opened. The cache must not be too
/// large for its edges to be counted.
pub fn read_open_options(opts: &StringMap<String>) -> (r: OpenOptions)
    requires
        2 * size_or(opts@, "cache"@, 512) <= usize::MAX,
    ensures
        r == open_options(opts@),
{
    let word = text_option(opts, "format", "json");
    let format = if crate::text::same_text(word.as_str(), "bin") || crate::text::same_text(
        word.as_str(),
        "binary",
    ) {
        StorageFormat::Binary
    } else {
        StorageFormat::Json
    };
    let n: usize = size_option(opts, "cache", 512);
    OpenOptions { format, cached_nodes: n, cached_edges: n * 2 }
}

} // verus!
