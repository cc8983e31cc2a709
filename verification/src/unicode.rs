//! Character classes, letter case and quoting, as far as they go beyond ASCII.
//!
//! What holds of ASCII is stated in full. For other characters the answer is
//! that of the Unicode tables in the standard library, and is only named.

use vstd::prelude::*;

verus! {

/// Whether a character is in the ASCII range.
pub open spec fn is_ascii_char(c: char) -> bool {
    (c as u32) < 128
}

/// Whether a text consists of ASCII characters.
pub open spec fn is_ascii_text(s: Seq<char>) -> bool {
    forall|i: int| 0 <= i < s.len() ==> is_ascii_char(#[trigger] s[i])
}

/// Whether the Unicode tables call a character white space.
pub uninterp spec fn unicode_whitespace(c: char) -> bool;

/// Whether the Unicode tables call a character alphabetic.
pub uninterp spec fn unicode_alphabetic(c: char) -> bool;

/// Whether the Unicode tables call a character alphabetic or numeric.
pub uninterp spec fn unicode_alphanumeric(c: char) -> bool;

/// The upper case of a text by the Unicode tables.
pub uninterp spec fn unicode_uppercase(s: Seq<char>) -> Seq<char>;

/// The lower case of a text by the Unicode tables.
pub uninterp spec fn unicode_lowercase(s: Seq<char>) -> Seq<char>;

/// A text in quotes with its special characters escaped.
pub uninterp spec fn escaped_text(s: Seq<char>) -> Seq<char>;

/// Whether a character is white space.
pub open spec fn is_space(c: char) -> bool {
    if is_ascii_char(c) {
        c == ' ' || (9 <= c as u32 && c as u32 <= 13)
    } else {
        unicode_whitespace(c)
    }
}

/// Whether a character is an ASCII letter.
pub open spec fn is_ascii_letter(c: char) -> bool {
    ('a' <= c && c <= 'z') || ('A' <= c && c <= 'Z')
}

/// Whether a character is an ASCII digit.
pub open spec fn is_ascii_digit(c: char) -> bool {
    '0' <= c && c <= '9'
}

/// Whether a character is alphabetic.
pub open spec fn is_letter(c: char) -> bool {
    if is_ascii_char(c) {
        is_ascii_letter(c)
    } else {
        unicode_alphabetic(c)
    }
}

/// Whether a character is alphabetic or numeric.
pub open spec fn is_letter_or_digit(c: char) -> bool {
    if is_ascii_char(c) {
        is_ascii_letter(c) || is_ascii_digit(c)
    } else {
        unicode_alphabetic(c) || unicode_alphanumeric(c)
    }
}

/// The upper case of an ASCII letter; other characters stay.
pub open spec fn ascii_upper(c: char) -> char {
    if 'a' <= c && c <= 'z' {
        ((c as u8 - 32) as u8) as char
    } else {
        c
    }
}

/// The lower case of an ASCII letter; other characters stay.
pub open spec fn ascii_lower(c: char) -> char {
    if 'A' <= c && c <= 'Z' {
        ((c as u8 + 32) as u8) as char
    } else {
        c
    }
}

/// The upper case of a text.
pub open spec fn upper(s: Seq<char>) -> Seq<char> {
    if is_ascii_text(s) {
        s.map_values(|c: char| ascii_upper(c))
    } else {
        unicode_uppercase(s)
    }
}

/// The lower case of a text.
pub open spec fn lower(s: Seq<char>) -> Seq<char> {
    if is_ascii_text(s) {
        s.map_values(|c: char| ascii_lower(c))
    } else {
        unicode_lowercase(s)
    }
}

/// Whether a character needs no escape between quotes: a printable ASCII
/// character other than the quote and the backslash.
pub open spec fn is_plain(c: char) -> bool {
    32 <= c as u32 && c as u32 <= 126 && c != '"' && c != '\\'
}

/// A text in double quotes, as shown for inspection.
pub open spec fn quoted(s: Seq<char>) -> Seq<char> {
    if forall|i: int| 0 <= i < s.len() ==> is_plain(#[trigger] s[i]) {
        seq!['"'] + s + seq!['"']
    } else {
        escaped_text(s)
    }
}

/// `char::is_whitespace` tells whether a character has the Unicode property
/// `White_Space`. In ASCII these are the space and the characters 9 to 13.
pub assume_specification[ char::is_whitespace ](c: char) -> (r: bool)
    ensures
        r == if is_ascii_char(c) {
            c == ' ' || (9 <= c as u32 && c as u32 <= 13)
        } else {
            unicode_whitespace(c)
        },
;

/// `char::is_alphabetic` tells whether a character has the Unicode property
/// `Alphabetic`. In ASCII these are the letters.
pub assume_specification[ char::is_alphabetic ](c: char) -> (r: bool)
    ensures
        r == if is_ascii_char(c) {
            is_ascii_letter(c)
        } else {
            unicode_alphabetic(c)
        },
;

/// `char::is_alphanumeric` tells whether a character is alphabetic or numeric:
/// every alphabetic character is one. In ASCII these are the letters and the
/// digits.
pub assume_specification[ char::is_alphanumeric ](c: char) -> (r: bool)
    ensures
        r == if is_ascii_char(c) {
            is_ascii_letter(c) || is_ascii_digit(c)
        } else {
            unicode_alphabetic(c) || unicode_alphanumeric(c)
        },
;

/// `str::to_uppercase` gives the upper case of a text by the Unicode tables. In
/// ASCII the letters `a` to `z` become `A` to `Z` and nothing else changes.
#[verifier::external_body]
fn std_uppercase(s: &str) -> (r: String)
    ensures
        r@ == if is_ascii_text(s@) {
            s@.map_values(|c: char| ascii_upper(c))
        } else {
            unicode_uppercase(s@)
        },
{
    s.to_uppercase()
}

/// `str::to_lowercase` gives the lower case of a text by the Unicode tables. In
/// ASCII the letters `A` to `Z` become `a` to `z` and nothing else changes.
#[verifier::external_body]
fn std_lowercase(s: &str) -> (r: String)
    ensures
        r@ == if is_ascii_text(s@) {
            s@.map_values(|c: char| ascii_lower(c))
        } else {
            unicode_lowercase(s@)
        },
{
    s.to_lowercase()
}

/// The `Debug` form of a `str` is the text between double quotes, with quotes,
/// backslashes and characters that are not printable escaped. Which characters
/// beyond ASCII are escaped, and how, depends on the text alone.
#[verifier::external_body]
fn std_debug(s: &str) -> (r: String)
    ensures
        r@ == if forall|i: int| 0 <= i < s@.len() ==> is_plain(#[trigger] s@[i]) {
            seq!['"'] + s@ + seq!['"']
        } else {
            escaped_text(s@)
        },
{
    format!("{:?}", s)
}

/// The upper case of a text.
pub fn to_upper(s: &str) -> (r: String)
    ensures
        r@ == upper(s@),
{
    std_uppercase(s)
}

/// The lower case of a text.
pub fn to_lower(s: &str) -> (r: String)
    ensures
        r@ == lower(s@),
{
    std_lowercase(s)
}

/// A text in double quotes, as shown for inspection.
pub fn to_quoted(s: &str) -> (r: String)
    ensures
        r@ == quoted(s@),
{
    std_debug(s)
}

/// Whether two texts are the same but for the case of ASCII letters.
pub open spec fn same_word(a: Seq<char>, b: Seq<char>) -> bool {
    a.len() == b.len() && forall|i: int|
        0 <= i < a.len() ==> ascii_lower(#[trigger] a[i]) == ascii_lower(b[i])
}

fn lower_char(c: char) -> (r: char)
    ensures
        r == ascii_lower(c),
{
    if 'A' <= c && c <= 'Z' {
        (c as u8 + 32) as char
    } else {
        c
    }
}

/// Whether two texts are the same but for the case of ASCII letters.
pub fn eq_ignore_case(a: &str, b: &str) -> (r: bool)
    ensures
        r == same_word(a@, b@),
{
    let x = crate::text::chars_of(a);
    let y = crate::text::chars_of(b);
    if x.len() != y.len() {
        return false;
    }
    let mut i: usize = 0;
    while i < x.len()
        invariant
            i <= x.len(),
            x.len() == y.len(),
            x@ == a@,
            y@ == b@,
            forall|j: int| 0 <= j < i ==> ascii_lower(#[trigger] x@[j]) == ascii_lower(y@[j]),
        decreases x.len() - i,
    {
        if lower_char(x[i]) != lower_char(y[i]) {
            assert(ascii_lower(x@[i as int]) != ascii_lower(y@[i as int]));
            return false;
        }
        i += 1;
    }
    true
}

/// Upper and lower case undo each other on letters, each changes letters of the other case
/// only, and a letter and its other case are never the same.
pub proof fn law_letter_cases(c: char)
    ensures
        'a' <= c && c <= 'z' ==> 'A' <= ascii_upper(c) && ascii_upper(c) <= 'Z' && ascii_lower(
            ascii_upper(c),
        ) == c && ascii_lower(c) == c,
        'A' <= c && c <= 'Z' ==> 'a' <= ascii_lower(c) && ascii_lower(c) <= 'z' && ascii_upper(
            ascii_lower(c),
        ) == c && ascii_upper(c) == c,
        !is_ascii_letter(c) ==> ascii_upper(c) == c && ascii_lower(c) == c,
{
}

/// The words that are the same but for the case of letters are the same in both orders,
/// and every text is the same as its own upper and lower case.
pub proof fn law_same_words(a: Seq<char>, b: Seq<char>)
    ensures
        same_word(a, b) == same_word(b, a),
        is_ascii_text(a) ==> same_word(a, upper(a)),
        is_ascii_text(a) ==> same_word(a, lower(a)),
        is_ascii_text(a) && is_ascii_text(b) ==> same_word(a, b) == (lower(a) == lower(b)),
{
    if same_word(a, b) {
        assert forall|i: int| 0 <= i < b.len() implies ascii_lower(#[trigger] b[i]) == ascii_lower(
            a[i],
        ) by {
            assert(ascii_lower(a[i]) == ascii_lower(b[i]));
        }
    }
    if same_word(b, a) {
        assert forall|i: int| 0 <= i < a.len() implies ascii_lower(#[trigger] a[i]) == ascii_lower(
            b[i],
        ) by {
            assert(ascii_lower(b[i]) == ascii_lower(a[i]));
        }
    }
    if is_ascii_text(a) {
        assert forall|i: int| 0 <= i < a.len() implies ascii_lower(#[trigger] a[i]) == ascii_lower(
            upper(a)[i],
        ) && ascii_lower(a[i]) == ascii_lower(lower(a)[i]) by {
            law_letter_cases(a[i]);
            assert(upper(a)[i] == ascii_upper(a[i]));
            assert(lower(a)[i] == ascii_lower(a[i]));
            law_letter_cases(ascii_lower(a[i]));
        }
        if is_ascii_text(b) {
            if same_word(a, b) {
                assert(lower(a) =~= lower(b)) by {
                    assert forall|i: int| 0 <= i < a.len() implies lower(a)[i] == lower(b)[i] by {
                        assert(ascii_lower(a[i]) == ascii_lower(b[i]));
                    }
                }
            }
            if lower(a) == lower(b) {
                assert(a.len() == lower(a).len() && b.len() == lower(b).len());
                assert forall|i: int| 0 <= i < a.len() implies ascii_lower(#[trigger] a[i])
                    == ascii_lower(b[i]) by {
                    assert(lower(a)[i] == ascii_lower(a[i]));
                    assert(lower(b)[i] == ascii_lower(b[i]));
                }
            }
        }
    }
}

/// Among ASCII characters the space, the tabulators, the line breaks and the form feed are
/// white space; letters are alphabetic, letters and digits alphanumeric, and no character
/// is both white space and alphanumeric.
pub proof fn law_character_classes(c: char)
    requires
        is_ascii_char(c),
    ensures
        is_space(c) <==> c == ' ' || c == '\t' || c == '\n' || c == '\r' || c == '\u{b}' || c
            == '\u{c}',
        is_letter(c) <==> 'a' <= ascii_lower(c) && ascii_lower(c) <= 'z',
        is_letter_or_digit(c) <==> is_letter(c) || ('0' <= c && c <= '9'),
        !(is_space(c) && is_letter_or_digit(c)),
{
}

} // verus!
