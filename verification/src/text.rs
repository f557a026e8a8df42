//! A single-surface, stateless tokenizer and normalizer: one pass that
//! tokenizes a line, lower-cases every word, applies a fixed-case
//! allowlist, and filters digits, Roman numerals and the end-of-text
//! marker.  Unlike the stateful [`crate::canon::Canonicalizer`], the rules
//! here do not depend on what was seen earlier in the document.
use vstd::prelude::*;

use crate::canon::{assoc_get, map_lookup};
use crate::preprocessor::{end_marker, is_roman_numeral_seq};
use crate::strings::lower_seq;
use crate::tokenizer::{
    clean_word, clean_word_exec, is_word_char, normalize_apostrophe, normalize_apostrophe_exec,
};

verus! {

/// Configuration for the normalizer: which punctuation characters are
/// kept as standalone tokens, and which lower-case spellings carry a
/// fixed display case.
pub struct NormalizerConfig {
    pub punctuation: Vec<char>,
    pub case_allowlist: Vec<(String, String)>,
}

/// The default fixed-case entries: the pronoun "I" and its contractions.
pub open spec fn default_allowlist() -> Seq<(Seq<char>, Seq<char>)> {
    seq![
        ("i"@, "I"@),
        ("i'm"@, "I'm"@),
        ("i've"@, "I've"@),
        ("i'd"@, "I'd"@),
        ("i'll"@, "I'll"@),
    ]
}

impl NormalizerConfig {
    /// A configuration with the given punctuation set and the default
    /// case allowlist.
    pub fn new(punctuation: Vec<char>) -> (r: NormalizerConfig)
        ensures
            r.punctuation@ == punctuation@,
            r.case_allowlist.deep_view() == default_allowlist(),
    {
        let mut allow: Vec<(String, String)> = Vec::new();
        allow.push((String::from_str("i"), String::from_str("I")));
        allow.push((String::from_str("i'm"), String::from_str("I'm")));
        allow.push((String::from_str("i've"), String::from_str("I've")));
        allow.push((String::from_str("i'd"), String::from_str("I'd")));
        allow.push((String::from_str("i'll"), String::from_str("I'll")));
        let r = NormalizerConfig { punctuation, case_allowlist: allow };
        assert(r.case_allowlist.deep_view() =~= default_allowlist());
        r
    }
}

/// What the normalizer makes of one flushed word candidate: the shared
/// apostrophe cleanup, then the digit, marker and Roman numeral filters,
/// then the allowlist case or plain lower case.  `None` drops the word.
pub open spec fn norm_word(allow: Seq<(Seq<char>, Seq<char>)>, w: Seq<char>) -> Option<Seq<char>> {
    match clean_word(w) {
        None => None,
        Some(v) => {
            let l = lower_seq(v);
            if l == end_marker() {
                None
            } else if l != "i"@ && is_roman_numeral_seq(l) {
                None
            } else {
                match map_lookup(allow, l) {
                    Some(d) => Some(d),
                    None => Some(l),
                }
            }
        },
    }
}

pub open spec fn norm_flush(
    allow: Seq<(Seq<char>, Seq<char>)>,
    acc: Seq<Seq<char>>,
    cur: Seq<char>,
) -> Seq<Seq<char>> {
    if cur.len() == 0 {
        acc
    } else {
        match norm_word(allow, cur) {
            Some(w) => acc.push(w),
            None => acc,
        }
    }
}

/// One step of the normalizing scan.  Punctuation tokens are emitted as
/// they stand; only word candidates go through [`norm_word`].
pub open spec fn norm_step(
    punct: Seq<char>,
    allow: Seq<(Seq<char>, Seq<char>)>,
    st: (Seq<Seq<char>>, Seq<char>),
    c0: char,
) -> (Seq<Seq<char>>, Seq<char>) {
    let c = normalize_apostrophe(c0);
    if punct.contains(c) {
        (norm_flush(allow, st.0, st.1).push(seq![c]), Seq::<char>::empty())
    } else if is_word_char(c) {
        (st.0, st.1.push(c))
    } else {
        (norm_flush(allow, st.0, st.1), Seq::<char>::empty())
    }
}

pub open spec fn norm_scan(
    line: Seq<char>,
    punct: Seq<char>,
    allow: Seq<(Seq<char>, Seq<char>)>,
) -> (Seq<Seq<char>>, Seq<char>) {
    line.fold_left(
        (Seq::<Seq<char>>::empty(), Seq::<char>::empty()),
        |st: (Seq<Seq<char>>, Seq<char>), c: char| norm_step(punct, allow, st, c),
    )
}

/// The normalized tokens of one line.
pub open spec fn normalize_line_spec(
    line: Seq<char>,
    punct: Seq<char>,
    allow: Seq<(Seq<char>, Seq<char>)>,
) -> Seq<Seq<char>> {
    let st = norm_scan(line, punct, allow);
    norm_flush(allow, st.0, st.1)
}

/// Stateless tokenizer plus normalizer over a fixed configuration.
pub struct Normalizer {
    config: NormalizerConfig,
}

impl Normalizer {
    pub closed spec fn punct(&self) -> Seq<char> {
        self.config.punctuation@
    }

    pub closed spec fn allow(&self) -> Seq<(Seq<char>, Seq<char>)> {
        self.config.case_allowlist.deep_view()
    }

    pub fn new(config: NormalizerConfig) -> (r: Normalizer)
        ensures
            r.punct() == config.punctuation@,
            r.allow() == config.case_allowlist.deep_view(),
    {
        Normalizer { config }
    }

    /// Tokenizes and normalizes one line in a single pass.
    pub fn normalize_line(&self, line: &str) -> (tokens: Vec<String>)
        ensures
            tokens.deep_view() == normalize_line_spec(line@, self.punct(), self.allow()),
    {
        let cs = crate::strings::str_chars(line);
        let mut tokens: Vec<String> = Vec::new();
        let mut cur: Vec<char> = Vec::new();
        let mut i: usize = 0;
        while i < cs.len()
            invariant
                i <= cs@.len(),
                cs@ == line@,
                (tokens.deep_view(), cur@) == norm_scan(
                    line@.take(i as int),
                    self.punct(),
                    self.allow(),
                ),
            decreases cs@.len() - i,
        {
            proof {
                assert(line@.take(i + 1).drop_last() =~= line@.take(i as int));
                assert(line@.take(i + 1).last() == line@[i as int]);
            }
            let c = normalize_apostrophe_exec(cs[i]);
            if contains_char_pub(&self.config.punctuation, c) {
                self.flush_norm(&mut tokens, &mut cur);
                let mut one: Vec<char> = Vec::new();
                one.push(c);
                let ghost before = tokens.deep_view();
                let s = crate::strings::chars_to_string(&one);
                tokens.push(s);
                assert(tokens.deep_view() =~= before.push(seq![c]));
            } else if crate::strings::is_ascii_letter_exec(c) || c == '\'' {
                cur.push(c);
            } else {
                self.flush_norm(&mut tokens, &mut cur);
            }
            i = i + 1;
        }
        proof {
            assert(line@.take(cs@.len() as int) =~= line@);
        }
        self.flush_norm(&mut tokens, &mut cur);
        tokens
    }

    fn flush_norm(&self, tokens: &mut Vec<String>, cur: &mut Vec<char>)
        ensures
            final(tokens).deep_view() == norm_flush(self.allow(), old(tokens).deep_view(), old(cur)@),
            final(cur)@ == Seq::<char>::empty(),
    {
        if cur.len() > 0 {
            match self.norm_word_exec(cur) {
                Some(s) => {
                    let ghost before = tokens.deep_view();
                    let ghost sv = s@;
                    tokens.push(s);
                    assert(tokens.deep_view() =~= before.push(sv));
                },
                None => {},
            }
            cur.clear();
            assert(cur@ =~= Seq::<char>::empty());
        } else {
            assert(cur@ =~= Seq::<char>::empty());
        }
    }

    fn norm_word_exec(&self, w: &Vec<char>) -> (r: Option<String>)
        ensures
            match r {
                Some(s) => norm_word(self.allow(), w@) == Some(s@),
                None => norm_word(self.allow(), w@) is None,
            },
    {
        match clean_word_exec(w) {
            None => None,
            Some(v) => {
                let s = crate::strings::chars_to_string(&v);
                let l = crate::strings::string_lower(&s);
                if crate::strings::str_eq(l.as_str(), "<|endoftext|>") {
                    return None;
                }
                if !crate::strings::str_eq(l.as_str(), "i")
                    && crate::preprocessor::is_roman_numeral_exec(l.as_str()) {
                    return None;
                }
                match assoc_get(&self.config.case_allowlist, &l) {
                    Some(d) => Some(d),
                    None => Some(l),
                }
            },
        }
    }
}

fn contains_char_pub(cs: &Vec<char>, c: char) -> (r: bool)
    ensures
        r == cs@.contains(c),
{
    let mut i: usize = 0;
    while i < cs.len()
        invariant
            i <= cs@.len(),
            forall|j: int| 0 <= j < i ==> cs@[j] != c,
        decreases cs@.len() - i,
    {
        if cs[i] == c {
            return true;
        }
        i = i + 1;
    }
    false
}

} // verus!
