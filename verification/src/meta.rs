//! Document metadata and the derived presentation strings: the model
//! type name ("bigram", "trigram", ...) and the per-book subtitles.
use vstd::prelude::*;

use crate::counter::{stats_model, ProcessingStats};
use crate::entries::clone_string_vec;
use crate::strings::{dec_str, usize_to_string};

verus! {

/// Metadata of the processed document, combined from its front matter
/// and the run's configuration.
#[derive(Debug, PartialEq)]
pub struct Metadata {
    /// Title of the document
    pub title: String,
    /// Author of the document
    pub author: String,
    /// URL related to the document
    pub url: String,
    /// Size of n-gram used for processing
    pub n: usize,
    /// Subtitle for the booklet
    pub subtitle: String,
    /// Version of the tool that built the model
    pub version: String,
    /// Summary statistics for the processed text
    pub stats: Option<ProcessingStats>,
}

/// The views of all metadata fields, for contracts.
pub open spec fn metadata_model(m: Metadata) -> (
    Seq<char>,
    Seq<char>,
    Seq<char>,
    int,
    Seq<char>,
    Seq<char>,
    Option<(int, int, int, Option<(Seq<Seq<char>>, Seq<char>, int)>, Option<(Seq<Seq<char>>, int)>)>,
) {
    (
        m.title@,
        m.author@,
        m.url@,
        m.n as int,
        m.subtitle@,
        m.version@,
        match m.stats {
            Some(s) => Some(stats_model(s)),
            None => None,
        },
    )
}

/// The name of an n-gram model of the given order.
pub open spec fn model_type_spec(n: int) -> Seq<char> {
    if n == 1 {
        "unigram"@
    } else if n == 2 {
        "bigram"@
    } else if n == 3 {
        "trigram"@
    } else {
        dec_str(n) + "-gram"@
    }
}

/// Helper function to get the model type string (e.g., "bigram",
/// "trigram", or "4-gram").
pub fn model_type_str(n: usize) -> (r: String)
    ensures
        r@ == model_type_spec(n as int),
{
    if n == 1 {
        String::from_str("unigram")
    } else if n == 2 {
        String::from_str("bigram")
    } else if n == 3 {
        String::from_str("trigram")
    } else {
        usize_to_string(n).concat("-gram")
    }
}

/// The standard subtitle for a single-volume model.
pub open spec fn subtitle_spec(n: int) -> Seq<char> {
    "A "@ + model_type_spec(n) + " language model"@
}

pub fn subtitle_str(n: usize) -> (r: String)
    ensures
        r@ == subtitle_spec(n as int),
{
    let t = model_type_str(n);
    String::from_str("A ").concat(t.as_str()).concat(" language model")
}

/// ASCII hyphens replaced by en dashes, as book ranges are displayed.
pub open spec fn endash_spec(s: Seq<char>) -> Seq<char> {
    s.map_values(|c: char| if c == '-' { '\u{2013}' } else { c })
}

fn endash(s: &str) -> (r: String)
    ensures
        r@ == endash_spec(s@),
{
    let cs = crate::strings::str_chars(s);
    let mut out: Vec<char> = Vec::new();
    let mut i: usize = 0;
    while i < cs.len()
        invariant
            i <= cs@.len(),
            cs@ == s@,
            out@ == endash_spec(s@.take(i as int)),
        decreases cs@.len() - i,
    {
        let c = cs[i];
        if c == '-' {
            out.push('\u{2013}');
        } else {
            out.push(c);
        }
        i = i + 1;
        assert(out@ =~= endash_spec(s@.take(i as int)));
    }
    assert(out@ =~= endash_spec(s@));
    crate::strings::chars_to_string(&out)
}

/// The subtitle of one volume of a multi-book model.
pub open spec fn book_subtitle_spec(n: int, range: Seq<char>, index: int, total: int) -> Seq<char> {
    "A "@ + model_type_spec(n) + " language model: "@ + endash_spec(range) + " (Book "@ + dec_str(
        index + 1,
    ) + " of "@ + dec_str(total) + ")"@
}

/// A copy of summary statistics, field by field.
pub fn clone_stats(s: &ProcessingStats) -> (r: ProcessingStats)
    ensures
        stats_model(r) == stats_model(*s),
{
    ProcessingStats {
        total_tokens: s.total_tokens,
        unique_ngrams: s.unique_ngrams,
        total_ngram_occurrences: s.total_ngram_occurrences,
        most_common_ngram: match &s.most_common_ngram {
            Some(t) => Some((clone_string_vec(&t.0), t.1.clone(), t.2)),
            None => None,
        },
        most_popular_prefix: match &s.most_popular_prefix {
            Some(t) => Some((clone_string_vec(&t.0), t.1)),
            None => None,
        },
    }
}

/// Metadata for one volume of a multi-book run: the same document
/// fields, with the subtitle extended by the volume's letter range and
/// position, the range's hyphen shown as an en dash.
pub fn multi_book_metadata(base: &Metadata, range: &str, index: usize, total_books: usize) -> (r:
    Metadata)
    requires
        index < usize::MAX,
    ensures
        r.title@ == base.title@,
        r.author@ == base.author@,
        r.url@ == base.url@,
        r.n == base.n,
        r.version@ == base.version@,
        r.subtitle@ == book_subtitle_spec(
            base.n as int,
            range@,
            index as int,
            total_books as int,
        ),
        metadata_model(r).6 == metadata_model(*base).6,
{
    let t = model_type_str(base.n);
    let subtitle = String::from_str("A ").concat(t.as_str()).concat(" language model: ").concat(
        endash(range).as_str(),
    ).concat(" (Book ").concat(usize_to_string(index + 1).as_str()).concat(" of ").concat(
        usize_to_string(total_books).as_str(),
    ).concat(")");
    Metadata {
        title: base.title.clone(),
        author: base.author.clone(),
        url: base.url.clone(),
        n: base.n,
        subtitle,
        version: base.version.clone(),
        stats: match &base.stats {
            Some(s) => Some(clone_stats(s)),
            None => None,
        },
    }
}

} // verus!
