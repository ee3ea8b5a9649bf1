//! Lists of texts as JSON.
use vstd::prelude::*;

use crate::text;

verus! {

/// A digit of base 16.
pub open spec fn hex_char(d: u32) -> char {
    if d < 10 {
        ('0' as u32 + d) as char
    } else {
        ('a' as u32 + d - 10) as char
    }
}

/// A character as it stands in a JSON string.
pub open spec fn escaped(c: char) -> Seq<char> {
    if c == '"' || c == '\\' {
        seq!['\\', c]
    } else if c == '\u{8}' {
        seq!['\\', 'b']
    } else if c == '\t' {
        seq!['\\', 't']
    } else if c == '\n' {
        seq!['\\', 'n']
    } else if c == '\u{c}' {
        seq!['\\', 'f']
    } else if c == '\r' {
        seq!['\\', 'r']
    } else if ' ' > c {
        seq!['\\', 'u', '0', '0', hex_char(c as u32 / 16), hex_char(c as u32 % 16)]
    } else {
        seq![c]
    }
}

/// The first `k` characters of a text, as they stand in a JSON string.
pub open spec fn escaped_text(s: Seq<char>, k: int) -> Seq<char>
    decreases k,
{
    if k <= 0 {
        Seq::empty()
    } else {
        escaped_text(s, k - 1) + escaped(s[k - 1])
    }
}

/// A text as a JSON string.
pub open spec fn json_string(s: Seq<char>) -> Seq<char> {
    seq!['"'] + escaped_text(s, s.len() as int) + seq!['"']
}

/// The first `k` texts as JSON strings, with commas between them.
pub open spec fn json_items(list: Seq<Seq<char>>, k: int) -> Seq<char>
    decreases k,
{
    if k <= 0 {
        Seq::empty()
    } else if k == 1 {
        json_string(list[0])
    } else {
        json_items(list, k - 1) + seq![','] + json_string(list[k - 1])
    }
}

/// A list of texts as a JSON array of strings.
pub open spec fn json_list(list: Seq<Seq<char>>) -> Seq<char> {
    seq!['['] + json_items(list, list.len() as int) + seq![']']
}

/// The list of texts that a JSON text holds; `None` if it holds no array of
/// strings.
pub uninterp spec fn list_in(json: Seq<char>) -> Option<Seq<Seq<char>>>;

/// Writes a list of texts as JSON.
///
/// Trusted: `serde_json::to_string` on a `Vec<String>` does not fail and gives an
/// array of strings without blanks between them. In a string the quote and the
/// backslash have a backslash before them, and control characters below the
/// blank are written as `\b`, `\t`, `\n`, `\f`, `\r` or `\u00..`; all other
/// characters stand for themselves. `serde_json::from_str` reads it back.
#[verifier::external_body]
fn to_json(list: &Vec<String>) -> (res: Option<String>)
    ensures
        match res {
            Some(s) => s@ == json_list(text::texts(list@)) && list_in(s@) == Some(
                text::texts(list@),
            ),
            None => false,
        },
{
    serde_json::to_string(list).ok()
}

/// Reads a list of texts from JSON.
///
/// Trusted: whether `serde_json::from_str` finds a `Vec<String>` in a text, and
/// which, depends on the characters of the text alone. Nothing is said of the
/// grammar.
#[verifier::external_body]
fn from_json(json: &str) -> (res: Option<Vec<String>>)
    ensures
        match res {
            Some(list) => list_in(json@) == Some(text::texts(list@)),
            None => list_in(json@) is None,
        },
{
    serde_json::from_str::<Vec<String>>(json).ok()
}

/// A list of texts as a JSON array of strings. Reading it gives the list again.
pub fn write_list(list: &Vec<String>) -> (res: String)
    ensures
        res@ == json_list(text::texts(list@)),
        list_in(res@) == Some(text::texts(list@)),
{
    match to_json(list) {
        Some(s) => s,
        None => String::new(),
    }
}

/// The list, or an empty one if there is none.
pub open spec fn or_empty(list: Option<Seq<Seq<char>>>) -> Seq<Seq<char>> {
    match list {
        Some(l) => l,
        None => Seq::empty(),
    }
}

/// The list, or an empty one if there is none.
pub fn list_or_empty(list: Option<Vec<String>>) -> (res: Vec<String>)
    ensures
        match list {
            Some(l) => res == l,
            None => res@.len() == 0,
        },
{
    match list {
        Some(l) => l,
        None => Vec::new(),
    }
}

/// The list of texts that a JSON text holds, or an empty one if it holds none.
pub fn read_list(json: &str) -> (res: Vec<String>)
    ensures
        text::texts(res@) == or_empty(list_in(json@)),
{
    let res = list_or_empty(from_json(json));
    assert(list_in(json@) is None ==> text::texts(res@) =~= Seq::<Seq<char>>::empty());
    res
}

} // verus!
