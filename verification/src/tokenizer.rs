//! Splits a line of prose into word and punctuation tokens.
//!
//! The scan walks the line character by character, accumulating runs of
//! ASCII letters and apostrophes into candidate words.  A configured
//! punctuation character flushes the current candidate and is emitted as a
//! one-character token of its own; any other character only flushes.
//! Flushed candidates are cleaned: opening-quote apostrophes are stripped
//! from the front, closing-quote apostrophes from the back unless the word
//! ends in a recognized contraction or possessive suffix, and candidates
//! that end up empty or digit-initial are dropped.  Capitalization is
//! preserved; case handling happens downstream.
use vstd::prelude::*;

use crate::strings::{
    is_ascii_digit, is_ascii_digit_exec, is_ascii_letter, is_ascii_letter_exec, lower_char_exec,
    lower_seq, chars_to_string, str_chars,
};

verus! {

/// Curly apostrophe variants are folded to the ASCII apostrophe before
/// classification.
pub open spec fn normalize_apostrophe(c: char) -> char {
    if c == '\u{2018}' || c == '\u{2019}' || c == '\u{2032}' {
        '\''
    } else {
        c
    }
}

pub fn normalize_apostrophe_exec(c: char) -> (r: char)
    ensures
        r == normalize_apostrophe(c),
{
    if c == '\u{2018}' || c == '\u{2019}' || c == '\u{2032}' {
        '\''
    } else {
        c
    }
}

/// Characters that may belong to a word candidate.
pub open spec fn is_word_char(c: char) -> bool {
    is_ascii_letter(c) || c == '\''
}

pub open spec fn ends_with(s: Seq<char>, suffix: Seq<char>) -> bool {
    suffix.len() <= s.len() && s.skip(s.len() - suffix.len()) == suffix
}

/// A word ending in an apostrophe keeps it when, viewed case-insensitively,
/// it ends in a contraction or possessive suffix: plural possessives
/// (`birds'`) and the informal droppings of spoken prose (`goin'`, `an'`,
/// `o'`, `'n'`).  Suffixes that end in a letter (`'s`, `n't`, `'ll`, `'ve`,
/// `'re`, `'d`, `'m`) can never be the ending of such a word, so only the
/// apostrophe-final ones decide here.
pub open spec fn keeps_trailing_apostrophe(w: Seq<char>) -> bool {
    let l = lower_seq(w);
    ends_with(l, "s'"@) || ends_with(l, "in'"@) || ends_with(l, "an'"@) || ends_with(l, "o'"@)
        || ends_with(l, "n'"@)
}

pub open spec fn strip_leading_apostrophes(w: Seq<char>) -> Seq<char>
    decreases w.len(),
{
    if w.len() > 0 && w[0] == '\'' {
        strip_leading_apostrophes(w.drop_first())
    } else {
        w
    }
}

pub open spec fn strip_trailing_apostrophes(w: Seq<char>) -> Seq<char>
    decreases w.len(),
{
    if w.len() > 0 && w.last() == '\'' && !keeps_trailing_apostrophe(w) {
        strip_trailing_apostrophes(w.drop_last())
    } else {
        w
    }
}

/// Cleanup applied to a flushed word candidate; `None` drops the token.
pub open spec fn clean_word(w: Seq<char>) -> Option<Seq<char>> {
    let stripped = strip_trailing_apostrophes(strip_leading_apostrophes(w));
    if stripped.len() == 0 {
        None
    } else if is_ascii_digit(stripped[0]) {
        None
    } else {
        Some(stripped)
    }
}

/// Appends the cleaned current candidate, if any, to the token list.
pub open spec fn flush_word(acc: Seq<Seq<char>>, cur: Seq<char>) -> Seq<Seq<char>> {
    if cur.len() == 0 {
        acc
    } else {
        match clean_word(cur) {
            Some(w) => acc.push(w),
            None => acc,
        }
    }
}

/// One step of the scan: the state is the tokens emitted so far and the
/// current word candidate.
pub open spec fn tokenize_step(
    punct: Seq<char>,
    st: (Seq<Seq<char>>, Seq<char>),
    c0: char,
) -> (Seq<Seq<char>>, Seq<char>) {
    let c = normalize_apostrophe(c0);
    if punct.contains(c) {
        (flush_word(st.0, st.1).push(seq![c]), Seq::<char>::empty())
    } else if is_word_char(c) {
        (st.0, st.1.push(c))
    } else {
        (flush_word(st.0, st.1), Seq::<char>::empty())
    }
}

pub open spec fn tokenize_scan(line: Seq<char>, punct: Seq<char>) -> (Seq<Seq<char>>, Seq<char>) {
    line.fold_left(
        (Seq::<Seq<char>>::empty(), Seq::<char>::empty()),
        |st: (Seq<Seq<char>>, Seq<char>), c: char| tokenize_step(punct, st, c),
    )
}

/// The tokens of a line, in order of appearance.
pub open spec fn tokenize_spec(line: Seq<char>, punct: Seq<char>) -> Seq<Seq<char>> {
    let st = tokenize_scan(line, punct);
    flush_word(st.0, st.1)
}

fn contains_char(cs: &Vec<char>, c: char) -> (r: bool)
    ensures
        r == cs@.contains(c),
{
    let mut i: usize = 0;
    while i < cs.len()
        invariant
            i <= cs@.len(),
            forall|j: int| 0 <= j < i ==> cs@[j] != c,
        decreases cs@.len() - i,
    {
        if cs[i] == c {
            return true;
        }
        i = i + 1;
    }
    false
}

fn ends_with_chars(s: &Vec<char>, suffix: &Vec<char>) -> (r: bool)
    ensures
        r == ends_with(s@, suffix@),
{
    let n = s.len();
    let m = suffix.len();
    if m > n {
        return false;
    }
    let mut i: usize = 0;
    while i < m
        invariant
            i <= m,
            m <= n,
            n == s@.len(),
            m == suffix@.len(),
            forall|j: int| 0 <= j < i ==> s@[n - m + j] == suffix@[j],
        decreases m - i,
    {
        if s[n - m + i] != suffix[i] {
            assert(s@.skip(n - m)[i as int] != suffix@[i as int]);
            return false;
        }
        i = i + 1;
    }
    assert(s@.skip(n - m) =~= suffix@);
    true
}

fn keeps_trailing_apostrophe_exec(w: &Vec<char>) -> (r: bool)
    ensures
        r == keeps_trailing_apostrophe(w@),
{
    let mut l: Vec<char> = Vec::new();
    let mut i: usize = 0;
    while i < w.len()
        invariant
            i <= w@.len(),
            l@ == lower_seq(w@.take(i as int)),
        decreases w@.len() - i,
    {
        l.push(lower_char_exec(w[i]));
        i = i + 1;
        assert(l@ =~= lower_seq(w@.take(i as int)));
    }
    assert(l@ =~= lower_seq(w@));
    ends_with_chars(&l, &str_chars("s'")) || ends_with_chars(&l, &str_chars("in'"))
        || ends_with_chars(&l, &str_chars("an'")) || ends_with_chars(&l, &str_chars("o'"))
        || ends_with_chars(&l, &str_chars("n'"))
}

proof fn lemma_strip_leading_indexed(w: Seq<char>, k: int)
    requires
        0 <= k <= w.len(),
        forall|j: int| 0 <= j < k ==> w[j] == '\'',
        k == w.len() || w[k] != '\'',
    ensures
        strip_leading_apostrophes(w) == w.skip(k),
    decreases k,
{
    if k == 0 {
        assert(w.skip(0) =~= w);
    } else {
        assert(w[0] == '\'');
        assert(forall|j: int| 0 <= j < k - 1 ==> w.drop_first()[j] == '\'');
        lemma_strip_leading_indexed(w.drop_first(), k - 1);
        assert(w.drop_first().skip(k - 1) =~= w.skip(k));
    }
}

pub(crate) fn clean_word_exec(w: &Vec<char>) -> (r: Option<Vec<char>>)
    ensures
        match r {
            Some(v) => clean_word(w@) == Some(v@),
            None => clean_word(w@) is None,
        },
{
    let n = w.len();
    let mut lo: usize = 0;
    while lo < n && w[lo] == '\''
        invariant
            lo <= n,
            n == w@.len(),
            forall|j: int| 0 <= j < lo ==> w@[j] == '\'',
        decreases n - lo,
    {
        lo = lo + 1;
    }
    proof {
        lemma_strip_leading_indexed(w@, lo as int);
    }
    let mut v: Vec<char> = Vec::new();
    let mut i: usize = lo;
    while i < n
        invariant
            lo <= i <= n,
            n == w@.len(),
            v@ =~= w@.subrange(lo as int, i as int),
        decreases n - i,
    {
        v.push(w[i]);
        i = i + 1;
        assert(v@ =~= w@.subrange(lo as int, i as int));
    }
    assert(v@ =~= w@.skip(lo as int));
    loop
        invariant_except_break
            strip_trailing_apostrophes(w@.skip(lo as int)) == strip_trailing_apostrophes(v@),
        ensures
            strip_trailing_apostrophes(w@.skip(lo as int)) == v@,
        decreases v@.len(),
    {
        if v.len() == 0 {
            break;
        }
        let last = v[v.len() - 1];
        if last != '\'' {
            break;
        }
        if keeps_trailing_apostrophe_exec(&v) {
            break;
        }
        let ghost before = v@;
        let _ = v.pop();
        assert(v@ =~= before.drop_last());
    }
    if v.len() == 0 {
        return None;
    }
    if is_ascii_digit_exec(v[0]) {
        return None;
    }
    Some(v)
}

/// Splits one line into word and punctuation tokens, keeping original
/// capitalization.  The caller supplies the set of punctuation characters
/// that are preserved as standalone tokens; everything else that is not a
/// letter or apostrophe merely separates words.  Emits at most one token
/// per character of input.
pub fn tokenize(line: &str, punctuation: &Vec<char>) -> (tokens: Vec<String>)
    ensures
        tokens.deep_view() == tokenize_spec(line@, punctuation@),
        tokens@.len() <= line@.len(),
{
    let cs = str_chars(line);
    let mut tokens: Vec<String> = Vec::new();
    let mut cur: Vec<char> = Vec::new();
    let mut i: usize = 0;
    while i < cs.len()
        invariant
            i <= cs@.len(),
            cs@ == line@,
            (tokens.deep_view(), cur@) == tokenize_scan(line@.take(i as int), punctuation@),
            tokens@.len() + cur@.len() <= i,
        decreases cs@.len() - i,
    {
        let ghost st0 = tokenize_scan(line@.take(i as int), punctuation@);
        proof {
            assert(line@.take(i + 1).drop_last() =~= line@.take(i as int));
            assert(line@.take(i + 1).last() == line@[i as int]);
        }
        let c = normalize_apostrophe_exec(cs[i]);
        if contains_char(punctuation, c) {
            flush_exec(&mut tokens, &mut cur);
            let mut one: Vec<char> = Vec::new();
            one.push(c);
            let ghost before = tokens.deep_view();
            let s = chars_to_string(&one);
            tokens.push(s);
            assert(tokens.deep_view() =~= before.push(seq![c]));
        } else if is_ascii_letter_exec(c) || c == '\'' {
            cur.push(c);
        } else {
            flush_exec(&mut tokens, &mut cur);
        }
        i = i + 1;
    }
    proof {
        assert(line@.take(cs@.len() as int) =~= line@);
    }
    flush_exec(&mut tokens, &mut cur);
    tokens
}

/// Flushes the current candidate into the token list and clears it.
fn flush_exec(tokens: &mut Vec<String>, cur: &mut Vec<char>)
    ensures
        final(tokens).deep_view() == flush_word(old(tokens).deep_view(), old(cur)@),
        final(cur)@ == Seq::<char>::empty(),
        final(tokens)@.len() <= old(tokens)@.len() + (if old(cur)@.len() == 0 {
            0int
        } else {
            1int
        }),
{
    if cur.len() > 0 {
        match clean_word_exec(cur) {
            Some(v) => {
                let ghost before = tokens.deep_view();
                let s = chars_to_string(&v);
                tokens.push(s);
                assert(tokens.deep_view() =~= before.push(v@));
            },
            None => {},
        }
        cur.clear();
        assert(cur@ =~= Seq::<char>::empty());
    } else {
        assert(cur@ =~= Seq::<char>::empty());
    }
}

} // verus!
