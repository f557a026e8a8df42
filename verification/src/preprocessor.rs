//! Token-level filtering applied between the tokenizer and the counter:
//! drops a reserved end-of-text marker and pure Roman-numeral spellings,
//! and maps the pronoun "I" and its contractions to their fixed
//! capitalized forms.
use vstd::prelude::*;

use crate::strings::{lower_seq, str_eq, string_lower};

verus! {

pub open spec fn is_roman_char(c: char) -> bool {
    c == 'i' || c == 'v' || c == 'x' || c == 'l' || c == 'c' || c == 'd' || c == 'm'
}

/// A non-empty string spelled with lower-case Roman numeral letters only.
pub open spec fn is_roman_numeral_seq(s: Seq<char>) -> bool {
    s.len() > 0 && forall|j: int| 0 <= j < s.len() ==> is_roman_char(s[j])
}

/// The reserved end-of-text marker; tokens equal to it are dropped.
pub open spec fn end_marker() -> Seq<char> {
    "<|endoftext|>"@
}

/// The fixed capitalized spellings of the pronoun "I" and its
/// contractions, looked up by exact token spelling.
pub open spec fn case_exception(t: Seq<char>) -> Option<Seq<char>> {
    if t == "i"@ {
        Some("I"@)
    } else if t == "i'm"@ {
        Some("I'm"@)
    } else if t == "i've"@ {
        Some("I've"@)
    } else if t == "i'd"@ {
        Some("I'd"@)
    } else if t == "i'll"@ {
        Some("I'll"@)
    } else {
        None
    }
}

/// What preprocessing does with one token: `None` drops it.
pub open spec fn preprocess_tok(t: Seq<char>) -> Option<Seq<char>> {
    let l = lower_seq(t);
    if l == end_marker() {
        None
    } else if l != "i"@ && is_roman_numeral_seq(l) {
        None
    } else {
        match case_exception(t) {
            Some(d) => Some(d),
            None => Some(t),
        }
    }
}

pub open spec fn preprocess_spec(ts: Seq<Seq<char>>) -> Seq<Seq<char>> {
    ts.filter_map(|t: Seq<char>| preprocess_tok(t))
}

fn is_roman_char_exec(c: char) -> (r: bool)
    ensures
        r == is_roman_char(c),
{
    c == 'i' || c == 'v' || c == 'x' || c == 'l' || c == 'c' || c == 'd' || c == 'm'
}

pub(crate) fn is_roman_numeral_exec(s: &str) -> (r: bool)
    ensures
        r == is_roman_numeral_seq(s@),
{
    let n = s.unicode_len();
    if n == 0 {
        return false;
    }
    let mut i: usize = 0;
    while i < n
        invariant
            i <= n,
            n == s@.len(),
            forall|j: int| 0 <= j < i ==> is_roman_char(s@[j]),
        decreases n - i,
    {
        if !is_roman_char_exec(s.get_char(i)) {
            return false;
        }
        i = i + 1;
    }
    true
}

pub(crate) fn case_exception_exec(t: &String) -> (r: Option<String>)
    ensures
        match r {
            Some(d) => case_exception(t@) == Some(d@),
            None => case_exception(t@) is None,
        },
{
    if str_eq(t.as_str(), "i") {
        Some(String::from_str("I"))
    } else if str_eq(t.as_str(), "i'm") {
        Some(String::from_str("I'm"))
    } else if str_eq(t.as_str(), "i've") {
        Some(String::from_str("I've"))
    } else if str_eq(t.as_str(), "i'd") {
        Some(String::from_str("I'd"))
    } else if str_eq(t.as_str(), "i'll") {
        Some(String::from_str("I'll"))
    } else {
        None
    }
}

/// Applies preprocessing to one token; `None` means the token is dropped.
fn preprocess_tok_exec(t: &String) -> (r: Option<String>)
    ensures
        match r {
            Some(d) => preprocess_tok(t@) == Some(d@),
            None => preprocess_tok(t@) is None,
        },
{
    let l = string_lower(t);
    if str_eq(l.as_str(), "<|endoftext|>") {
        return None;
    }
    if !str_eq(l.as_str(), "i") && is_roman_numeral_exec(l.as_str()) {
        return None;
    }
    match case_exception_exec(t) {
        Some(d) => Some(d),
        None => Some(t.clone()),
    }
}

/// Filters a token list: drops the end-of-text marker and Roman-numeral
/// spellings (except "i" itself), and applies the pronoun case
/// exceptions.  Order is preserved and nothing else changes.
pub fn preprocess(tokens: Vec<String>) -> (r: Vec<String>)
    ensures
        r.deep_view() == preprocess_spec(tokens.deep_view()),
        r@.len() <= tokens@.len(),
{
    let mut out: Vec<String> = Vec::new();
    let mut i: usize = 0;
    while i < tokens.len()
        invariant
            i <= tokens@.len(),
            out.deep_view() == preprocess_spec(tokens.deep_view().take(i as int)),
            out@.len() <= i,
        decreases tokens@.len() - i,
    {
        let ghost before = out.deep_view();
        let ghost pre = tokens.deep_view().take(i as int);
        proof {
            assert(tokens.deep_view().take(i + 1).drop_last() =~= pre);
            assert(tokens.deep_view().take(i + 1).last() == tokens.deep_view()[i as int]);
        }
        match preprocess_tok_exec(&tokens[i]) {
            Some(d) => {
                out.push(d);
                assert(out.deep_view() =~= before + seq![
                    preprocess_tok(tokens.deep_view()[i as int]).unwrap(),
                ]);
            },
            None => {},
        }
        i = i + 1;
    }
    proof {
        assert(tokens.deep_view().take(tokens@.len() as int) =~= tokens.deep_view());
    }
    out
}

} // verus!
