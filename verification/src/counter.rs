//! The n-gram counter: a sliding window over the canonicalized token
//! stream accumulates a prefix-to-follower count table, together with
//! running statistics.  The table is an association list in insertion
//! order; its mathematical model is a sequence of (prefix, followers)
//! pairs with integer counts.
use vstd::prelude::*;

use crate::canon::{canon_step, resolve_spec, Canonicalizer};
use crate::entries::{
    clone_string_vec, entries_model, entry_lt_fn, fol_lt_fn, fol_view, lemma_sort_contains,
    sort_by_ins, sort_entries, sort_followers, sorted_leq, WordFollowEntry,
};
use crate::meta::Metadata;
use crate::preprocessor::{preprocess, preprocess_spec};
use crate::strings::str_eq;
use crate::tokenizer::{tokenize, tokenize_spec};

verus! {

// ---------------------------------------------------------------------
// Association-list operations on follower lists and tables
// ---------------------------------------------------------------------

pub open spec fn fol_lookup(fl: Seq<(Seq<char>, int)>, f: Seq<char>) -> Option<int>
    decreases fl.len(),
{
    if fl.len() == 0 {
        None
    } else if fl[0].0 == f {
        Some(fl[0].1)
    } else {
        fol_lookup(fl.drop_first(), f)
    }
}

pub open spec fn fol_set(fl: Seq<(Seq<char>, int)>, f: Seq<char>, c: int) -> Seq<(Seq<char>, int)>
    decreases fl.len(),
{
    if fl.len() == 0 {
        seq![(f, c)]
    } else if fl[0].0 == f {
        seq![(f, c)] + fl.drop_first()
    } else {
        seq![fl[0]] + fol_set(fl.drop_first(), f, c)
    }
}

/// Adds `c` to the count of follower `f`, creating it if absent.
pub open spec fn fol_bump(fl: Seq<(Seq<char>, int)>, f: Seq<char>, c: int) -> Seq<
    (Seq<char>, int),
> {
    match fol_lookup(fl, f) {
        None => fl.push((f, c)),
        Some(c0) => fol_set(fl, f, c0 + c),
    }
}

pub open spec fn tbl_lookup(
    t: Seq<(Seq<Seq<char>>, Seq<(Seq<char>, int)>)>,
    p: Seq<Seq<char>>,
) -> Option<Seq<(Seq<char>, int)>>
    decreases t.len(),
{
    if t.len() == 0 {
        None
    } else if t[0].0 == p {
        Some(t[0].1)
    } else {
        tbl_lookup(t.drop_first(), p)
    }
}

pub open spec fn tbl_set(
    t: Seq<(Seq<Seq<char>>, Seq<(Seq<char>, int)>)>,
    p: Seq<Seq<char>>,
    fl: Seq<(Seq<char>, int)>,
) -> Seq<(Seq<Seq<char>>, Seq<(Seq<char>, int)>)>
    decreases t.len(),
{
    if t.len() == 0 {
        seq![(p, fl)]
    } else if t[0].0 == p {
        seq![(p, fl)] + t.drop_first()
    } else {
        seq![t[0]] + tbl_set(t.drop_first(), p, fl)
    }
}

/// Adds `c` to the count of `(p, f)`, creating prefix and follower
/// entries as needed.
pub open spec fn tbl_bump(
    t: Seq<(Seq<Seq<char>>, Seq<(Seq<char>, int)>)>,
    p: Seq<Seq<char>>,
    f: Seq<char>,
    c: int,
) -> Seq<(Seq<Seq<char>>, Seq<(Seq<char>, int)>)> {
    match tbl_lookup(t, p) {
        None => t.push((p, seq![(f, c)])),
        Some(fl) => tbl_set(t, p, fol_bump(fl, f, c)),
    }
}

/// Total of all follower counts in one follower list.
pub open spec fn fol_sum(fl: Seq<(Seq<char>, int)>) -> int
    decreases fl.len(),
{
    if fl.len() == 0 {
        0int
    } else {
        fol_sum(fl.drop_last()) + fl.last().1
    }
}

/// Total of all counts in the whole table.
pub open spec fn tbl_sum(t: Seq<(Seq<Seq<char>>, Seq<(Seq<char>, int)>)>) -> int
    decreases t.len(),
{
    if t.len() == 0 {
        0int
    } else {
        tbl_sum(t.drop_last()) + fol_sum(t.last().1)
    }
}

/// All counts at least `lo`.
pub open spec fn fol_counts_at_least(fl: Seq<(Seq<char>, int)>, lo: int) -> bool {
    forall|i: int| 0 <= i < fl.len() ==> (#[trigger] fl[i]).1 >= lo
}

pub open spec fn tbl_counts_at_least(
    t: Seq<(Seq<Seq<char>>, Seq<(Seq<char>, int)>)>,
    lo: int,
) -> bool {
    forall|i: int| 0 <= i < t.len() ==> fol_counts_at_least((#[trigger] t[i]).1, lo)
}

/// Keys unique at both levels.
pub open spec fn fol_keys_unique(fl: Seq<(Seq<char>, int)>) -> bool {
    forall|i: int, j: int| 0 <= i < j < fl.len() ==> fl[i].0 != fl[j].0
}

pub open spec fn tbl_keys_unique(t: Seq<(Seq<Seq<char>>, Seq<(Seq<char>, int)>)>) -> bool {
    &&& forall|i: int, j: int| 0 <= i < j < t.len() ==> t[i].0 != t[j].0
    &&& forall|i: int| 0 <= i < t.len() ==> fol_keys_unique((#[trigger] t[i]).1)
}

// ---------------------------------------------------------------------
// Sum lemmas
// ---------------------------------------------------------------------

pub proof fn lemma_fol_sum_nonneg(fl: Seq<(Seq<char>, int)>)
    requires
        fol_counts_at_least(fl, 0),
    ensures
        fol_sum(fl) >= 0,
    decreases fl.len(),
{
    if fl.len() > 0 {
        assert(fol_counts_at_least(fl.drop_last(), 0));
        lemma_fol_sum_nonneg(fl.drop_last());
    }
}

pub proof fn lemma_fol_count_le_sum(fl: Seq<(Seq<char>, int)>, j: int)
    requires
        fol_counts_at_least(fl, 0),
        0 <= j < fl.len(),
    ensures
        fl[j].1 <= fol_sum(fl),
    decreases fl.len(),
{
    if j == fl.len() - 1 {
        assert(fol_counts_at_least(fl.drop_last(), 0));
        lemma_fol_sum_nonneg(fl.drop_last());
    } else {
        assert(fol_counts_at_least(fl.drop_last(), 0));
        lemma_fol_count_le_sum(fl.drop_last(), j);
    }
}

pub proof fn lemma_tbl_sum_nonneg(t: Seq<(Seq<Seq<char>>, Seq<(Seq<char>, int)>)>)
    requires
        tbl_counts_at_least(t, 0),
    ensures
        tbl_sum(t) >= 0,
    decreases t.len(),
{
    if t.len() > 0 {
        assert(tbl_counts_at_least(t.drop_last(), 0));
        lemma_tbl_sum_nonneg(t.drop_last());
        lemma_fol_sum_nonneg(t.last().1);
    }
}

pub proof fn lemma_fol_sum_split(fl: Seq<(Seq<char>, int)>, k: int)
    requires
        0 <= k <= fl.len(),
    ensures
        fol_sum(fl) == fol_sum(fl.take(k)) + fol_sum(fl.skip(k)),
    decreases fl.len(),
{
    if k == fl.len() {
        assert(fl.take(k) =~= fl);
        assert(fol_sum(fl.skip(k)) == 0);
    } else {
        lemma_fol_sum_split(fl.drop_last(), k);
        assert(fl.drop_last().take(k) =~= fl.take(k));
        assert(fl.drop_last().skip(k) =~= fl.skip(k).drop_last());
        assert(fl.skip(k).last() == fl.last());
    }
}

pub proof fn lemma_tbl_sum_split(t: Seq<(Seq<Seq<char>>, Seq<(Seq<char>, int)>)>, k: int)
    requires
        0 <= k <= t.len(),
    ensures
        tbl_sum(t) == tbl_sum(t.take(k)) + tbl_sum(t.skip(k)),
    decreases t.len(),
{
    if k == t.len() {
        assert(t.take(k) =~= t);
        assert(tbl_sum(t.skip(k)) == 0);
    } else {
        lemma_tbl_sum_split(t.drop_last(), k);
        assert(t.drop_last().take(k) =~= t.take(k));
        assert(t.drop_last().skip(k) =~= t.skip(k).drop_last());
        assert(t.skip(k).last() == t.last());
    }
}

pub proof fn lemma_fol_sum_update(fl: Seq<(Seq<char>, int)>, j: int, pair: (Seq<char>, int))
    requires
        0 <= j < fl.len(),
    ensures
        fol_sum(fl.update(j, pair)) == fol_sum(fl) - fl[j].1 + pair.1,
    decreases fl.len(),
{
    if j == fl.len() - 1 {
        assert(fl.update(j, pair).drop_last() =~= fl.drop_last());
        assert(fl.update(j, pair).last() == pair);
    } else {
        assert(fl.update(j, pair).drop_last() =~= fl.drop_last().update(j, pair));
        assert(fl.update(j, pair).last() == fl.last());
        lemma_fol_sum_update(fl.drop_last(), j, pair);
    }
}

pub proof fn lemma_fol_sum_singleton(pr: (Seq<char>, int))
    ensures
        fol_sum(seq![pr]) == pr.1,
{
    let e = Seq::<(Seq<char>, int)>::empty();
    lemma_fol_sum_push(e, pr);
    assert(e.push(pr) =~= seq![pr]);
}

pub proof fn lemma_tbl_sum_singleton(e: (Seq<Seq<char>>, Seq<(Seq<char>, int)>))
    ensures
        tbl_sum(seq![e]) == fol_sum(e.1),
{
    let emp = Seq::<(Seq<Seq<char>>, Seq<(Seq<char>, int)>)>::empty();
    lemma_tbl_sum_push(emp, e);
    assert(emp.push(e) =~= seq![e]);
}

pub proof fn lemma_fol_sum_push(fl: Seq<(Seq<char>, int)>, pair: (Seq<char>, int))
    ensures
        fol_sum(fl.push(pair)) == fol_sum(fl) + pair.1,
{
    assert(fl.push(pair).drop_last() =~= fl);
    assert(fl.push(pair).last() == pair);
}

pub proof fn lemma_tbl_sum_update(
    t: Seq<(Seq<Seq<char>>, Seq<(Seq<char>, int)>)>,
    i: int,
    e: (Seq<Seq<char>>, Seq<(Seq<char>, int)>),
)
    requires
        0 <= i < t.len(),
    ensures
        tbl_sum(t.update(i, e)) == tbl_sum(t) - fol_sum(t[i].1) + fol_sum(e.1),
    decreases t.len(),
{
    if i == t.len() - 1 {
        assert(t.update(i, e).drop_last() =~= t.drop_last());
        assert(t.update(i, e).last() == e);
    } else {
        assert(t.update(i, e).drop_last() =~= t.drop_last().update(i, e));
        assert(t.update(i, e).last() == t.last());
        lemma_tbl_sum_update(t.drop_last(), i, e);
    }
}

pub proof fn lemma_tbl_sum_push(
    t: Seq<(Seq<Seq<char>>, Seq<(Seq<char>, int)>)>,
    e: (Seq<Seq<char>>, Seq<(Seq<char>, int)>),
)
    ensures
        tbl_sum(t.push(e)) == tbl_sum(t) + fol_sum(e.1),
{
    assert(t.push(e).drop_last() =~= t);
    assert(t.push(e).last() == e);
}

// ---------------------------------------------------------------------
// Indexed characterizations, for the executable table
// ---------------------------------------------------------------------

pub proof fn lemma_fol_lookup_indexed(fl: Seq<(Seq<char>, int)>, f: Seq<char>, j: int)
    requires
        0 <= j < fl.len(),
        fl[j].0 == f,
        forall|k: int| 0 <= k < j ==> fl[k].0 != f,
    ensures
        fol_lookup(fl, f) == Some(fl[j].1),
    decreases j,
{
    if j > 0 {
        assert(forall|k: int| 0 <= k < j - 1 ==> fl.drop_first()[k].0 != f);
        lemma_fol_lookup_indexed(fl.drop_first(), f, j - 1);
    }
}

pub proof fn lemma_fol_lookup_absent(fl: Seq<(Seq<char>, int)>, f: Seq<char>)
    requires
        forall|k: int| 0 <= k < fl.len() ==> fl[k].0 != f,
    ensures
        fol_lookup(fl, f) is None,
    decreases fl.len(),
{
    if fl.len() > 0 {
        assert(forall|k: int| 0 <= k < fl.drop_first().len() ==> fl.drop_first()[k].0 != f);
        lemma_fol_lookup_absent(fl.drop_first(), f);
    }
}

pub proof fn lemma_fol_set_indexed(fl: Seq<(Seq<char>, int)>, f: Seq<char>, c: int, j: int)
    requires
        0 <= j < fl.len(),
        fl[j].0 == f,
        forall|k: int| 0 <= k < j ==> fl[k].0 != f,
    ensures
        fol_set(fl, f, c) == fl.update(j, (f, c)),
    decreases j,
{
    if j == 0 {
        assert(fol_set(fl, f, c) =~= fl.update(0, (f, c)));
    } else {
        assert(forall|k: int| 0 <= k < j - 1 ==> fl.drop_first()[k].0 != f);
        lemma_fol_set_indexed(fl.drop_first(), f, c, j - 1);
        assert(seq![fl[0]] + fl.drop_first().update(j - 1, (f, c)) =~= fl.update(j, (f, c)));
    }
}

pub proof fn lemma_tbl_lookup_indexed(
    t: Seq<(Seq<Seq<char>>, Seq<(Seq<char>, int)>)>,
    p: Seq<Seq<char>>,
    i: int,
)
    requires
        0 <= i < t.len(),
        t[i].0 == p,
        forall|k: int| 0 <= k < i ==> t[k].0 != p,
    ensures
        tbl_lookup(t, p) == Some(t[i].1),
    decreases i,
{
    if i > 0 {
        assert(forall|k: int| 0 <= k < i - 1 ==> t.drop_first()[k].0 != p);
        lemma_tbl_lookup_indexed(t.drop_first(), p, i - 1);
    }
}

pub proof fn lemma_tbl_lookup_absent(
    t: Seq<(Seq<Seq<char>>, Seq<(Seq<char>, int)>)>,
    p: Seq<Seq<char>>,
)
    requires
        forall|k: int| 0 <= k < t.len() ==> t[k].0 != p,
    ensures
        tbl_lookup(t, p) is None,
    decreases t.len(),
{
    if t.len() > 0 {
        assert(forall|k: int| 0 <= k < t.drop_first().len() ==> t.drop_first()[k].0 != p);
        lemma_tbl_lookup_absent(t.drop_first(), p);
    }
}

pub proof fn lemma_tbl_set_indexed(
    t: Seq<(Seq<Seq<char>>, Seq<(Seq<char>, int)>)>,
    p: Seq<Seq<char>>,
    fl: Seq<(Seq<char>, int)>,
    i: int,
)
    requires
        0 <= i < t.len(),
        t[i].0 == p,
        forall|k: int| 0 <= k < i ==> t[k].0 != p,
    ensures
        tbl_set(t, p, fl) == t.update(i, (p, fl)),
    decreases i,
{
    if i == 0 {
        assert(tbl_set(t, p, fl) =~= t.update(0, (p, fl)));
    } else {
        assert(forall|k: int| 0 <= k < i - 1 ==> t.drop_first()[k].0 != p);
        lemma_tbl_set_indexed(t.drop_first(), p, fl, i - 1);
        assert(seq![t[0]] + t.drop_first().update(i - 1, (p, fl)) =~= t.update(i, (p, fl)));
    }
}

// ---------------------------------------------------------------------
// The view of the executable table
// ---------------------------------------------------------------------

/// The model of the executable table: prefixes as token sequences,
/// counts widened to `int`.
pub open spec fn tbl_view(t: Seq<(Seq<Seq<char>>, Seq<(Seq<char>, usize)>)>) -> Seq<
    (Seq<Seq<char>>, Seq<(Seq<char>, int)>),
> {
    t.map_values(|e: (Seq<Seq<char>>, Seq<(Seq<char>, usize)>)| (e.0, fol_view(e.1)))
}

// ---------------------------------------------------------------------
// Summary statistics
// ---------------------------------------------------------------------

/// Summary statistics for processed text.
#[derive(Debug, PartialEq)]
pub struct ProcessingStats {
    /// Total number of tokens in the text
    pub total_tokens: usize,
    /// Total number of unique n-gram prefixes found
    pub unique_ngrams: usize,
    /// Total number of n-gram occurrences
    pub total_ngram_occurrences: usize,
    /// Most common n-gram prefix and its most common follower
    pub most_common_ngram: Option<(Vec<String>, String, usize)>,
    /// Prefix with the most cumulative followers
    pub most_popular_prefix: Option<(Vec<String>, usize)>,
}

/// The views of all statistics fields, for contracts.
pub open spec fn stats_model(s: ProcessingStats) -> (
    int,
    int,
    int,
    Option<(Seq<Seq<char>>, Seq<char>, int)>,
    Option<(Seq<Seq<char>>, int)>,
) {
    (
        s.total_tokens as int,
        s.unique_ngrams as int,
        s.total_ngram_occurrences as int,
        match s.most_common_ngram {
            Some(t) => Some((t.0.deep_view(), t.1@, t.2 as int)),
            None => None,
        },
        match s.most_popular_prefix {
            Some(t) => Some((t.0.deep_view(), t.1 as int)),
            None => None,
        },
    )
}

/// The view of a stored most-common-n-gram triple.
pub open spec fn mc_view(b: Option<(Vec<String>, String, usize)>) -> Option<
    (Seq<Seq<char>>, Seq<char>, int),
> {
    match b {
        Some(t) => Some((t.0.deep_view(), t.1@, t.2 as int)),
        None => None,
    }
}

/// The view of a stored most-popular-prefix pair.
pub open spec fn mp_view(b: Option<(Vec<String>, usize)>) -> Option<(Seq<Seq<char>>, int)> {
    match b {
        Some(t) => Some((t.0.deep_view(), t.1 as int)),
        None => None,
    }
}

pub open spec fn pair_best_count(b: Option<(Seq<Seq<char>>, Seq<char>, int)>) -> int {
    match b {
        None => 0int,
        Some(t) => t.2,
    }
}

/// Scanning one prefix's followers for a new strictly larger count; on
/// ties the earlier find wins.
pub open spec fn scan_followers(
    b: Option<(Seq<Seq<char>>, Seq<char>, int)>,
    p: Seq<Seq<char>>,
    fl: Seq<(Seq<char>, int)>,
) -> Option<(Seq<Seq<char>>, Seq<char>, int)> {
    fl.fold_left(
        b,
        |bb: Option<(Seq<Seq<char>>, Seq<char>, int)>, pr: (Seq<char>, int)|
            if pr.1 > pair_best_count(bb) {
                Some((p, pr.0, pr.1))
            } else {
                bb
            },
    )
}

/// The (prefix, follower, count) triple with the largest count, walking
/// the table in order; `None` only for an empty table.
pub open spec fn best_pair(t: Seq<(Seq<Seq<char>>, Seq<(Seq<char>, int)>)>) -> Option<
    (Seq<Seq<char>>, Seq<char>, int),
> {
    t.fold_left(
        None::<(Seq<Seq<char>>, Seq<char>, int)>,
        |b: Option<(Seq<Seq<char>>, Seq<char>, int)>, e: (Seq<Seq<char>>, Seq<(Seq<char>, int)>)|
            scan_followers(b, e.0, e.1),
    )
}

pub open spec fn prefix_best_count(b: Option<(Seq<Seq<char>>, int)>) -> int {
    match b {
        None => 0int,
        Some(t) => t.1,
    }
}

/// The prefix with the largest summed follower count, walking the table
/// in order; `None` only when no prefix has a positive total.
pub open spec fn best_prefix(t: Seq<(Seq<Seq<char>>, Seq<(Seq<char>, int)>)>) -> Option<
    (Seq<Seq<char>>, int),
> {
    t.fold_left(
        None::<(Seq<Seq<char>>, int)>,
        |b: Option<(Seq<Seq<char>>, int)>, e: (Seq<Seq<char>>, Seq<(Seq<char>, int)>)|
            if fol_sum(e.1) > prefix_best_count(b) {
                Some((e.0, fol_sum(e.1)))
            } else {
                b
            },
    )
}

proof fn lemma_scan_followers_max(
    b: Option<(Seq<Seq<char>>, Seq<char>, int)>,
    p: Seq<Seq<char>>,
    fl: Seq<(Seq<char>, int)>,
)
    ensures
        pair_best_count(scan_followers(b, p, fl)) >= pair_best_count(b),
        forall|j: int|
            0 <= j < fl.len() ==> (#[trigger] fl[j]).1 <= pair_best_count(scan_followers(b, p, fl)),
        scan_followers(b, p, fl) == b || exists|j: int|
            0 <= j < fl.len() && scan_followers(b, p, fl) == Some(
                (p, (#[trigger] fl[j]).0, fl[j].1),
            ),
    decreases fl.len(),
{
    if fl.len() > 0 {
        lemma_scan_followers_max(b, p, fl.drop_last());
        assert(fl.drop_last().fold_left(
            b,
            |bb: Option<(Seq<Seq<char>>, Seq<char>, int)>, pr: (Seq<char>, int)|
                if pr.1 > pair_best_count(bb) {
                    Some((p, pr.0, pr.1))
                } else {
                    bb
                },
        ) == scan_followers(b, p, fl.drop_last()));
        assert(forall|j: int| 0 <= j < fl.len() - 1 ==> fl[j] == fl.drop_last()[j]);
        assert(fl.last() == fl[fl.len() - 1]);
    }
}

/// The most-common-n-gram fold finds a true pair of the table with a
/// count no pair exceeds.
pub proof fn lemma_best_pair_max(t: Seq<(Seq<Seq<char>>, Seq<(Seq<char>, int)>)>)
    ensures
        forall|i: int, j: int|
            0 <= i < t.len() && 0 <= j < t[i].1.len() ==> (#[trigger] t[i].1[j]).1
                <= pair_best_count(best_pair(t)),
        best_pair(t) is Some ==> exists|i: int, j: int|
            0 <= i < t.len() && 0 <= j < t[i].1.len() && best_pair(t) == Some(
                (t[i].0, (#[trigger] t[i].1[j]).0, t[i].1[j].1),
            ),
    decreases t.len(),
{
    if t.len() > 0 {
        lemma_best_pair_max(t.drop_last());
        assert(t.drop_last().fold_left(
            None::<(Seq<Seq<char>>, Seq<char>, int)>,
            |b: Option<(Seq<Seq<char>>, Seq<char>, int)>, e: (
                Seq<Seq<char>>,
                Seq<(Seq<char>, int)>,
            )| scan_followers(b, e.0, e.1),
        ) == best_pair(t.drop_last()));
        let prev = best_pair(t.drop_last());
        let last = t.last();
        lemma_scan_followers_max(prev, last.0, last.1);
        assert(best_pair(t) == scan_followers(prev, last.0, last.1));
        assert(forall|i: int| 0 <= i < t.len() - 1 ==> t[i] == t.drop_last()[i]);
        assert(t.last() == t[t.len() - 1]);
        if best_pair(t) is Some {
            if best_pair(t) == prev {
                assert(prev is Some);
            }
        }
    }
}

/// The most-popular-prefix fold finds a true prefix of the table whose
/// summed follower count no prefix exceeds.
pub proof fn lemma_best_prefix_max(t: Seq<(Seq<Seq<char>>, Seq<(Seq<char>, int)>)>)
    ensures
        forall|i: int|
            0 <= i < t.len() ==> fol_sum((#[trigger] t[i]).1) <= prefix_best_count(best_prefix(t)),
        best_prefix(t) is Some ==> exists|i: int|
            0 <= i < t.len() && best_prefix(t) == Some(((#[trigger] t[i]).0, fol_sum(t[i].1))),
    decreases t.len(),
{
    if t.len() > 0 {
        lemma_best_prefix_max(t.drop_last());
        assert(t.drop_last().fold_left(
            None::<(Seq<Seq<char>>, int)>,
            |b: Option<(Seq<Seq<char>>, int)>, e: (Seq<Seq<char>>, Seq<(Seq<char>, int)>)|
                if fol_sum(e.1) > prefix_best_count(b) {
                    Some((e.0, fol_sum(e.1)))
                } else {
                    b
                },
        ) == best_prefix(t.drop_last()));
        assert(forall|i: int| 0 <= i < t.len() - 1 ==> t[i] == t.drop_last()[i]);
        assert(t.last() == t[t.len() - 1]);
    }
}

// ---------------------------------------------------------------------
// The counter model and its step function
// ---------------------------------------------------------------------

/// The mathematical state of a counter.
pub ghost struct CounterModel {
    /// n-gram order; prefixes have n - 1 tokens
    pub n: int,
    /// punctuation characters preserved as tokens
    pub punct: Seq<char>,
    /// the case canonicalizer's map
    pub canon: Seq<(Seq<char>, Seq<char>)>,
    /// the sliding window, oldest first
    pub window: Seq<Seq<char>>,
    /// the prefix-to-follower count table, in insertion order
    pub table: Seq<(Seq<Seq<char>>, Seq<(Seq<char>, int)>)>,
    /// number of tokens consumed
    pub total_tokens: int,
    /// number of (prefix, follower) observations recorded
    pub total_occ: int,
}

/// Consuming one already-preprocessed token: canonicalize it, record an
/// observation if the window is full, then slide the window.
pub open spec fn counter_step(m: CounterModel, tok: Seq<char>) -> CounterModel {
    let step = canon_step(m.canon, tok);
    let canon2 = step.0;
    let w = step.1;
    if m.window.len() == m.n - 1 {
        CounterModel {
            canon: canon2,
            window: m.window.drop_first().push(w),
            table: tbl_bump(m.table, m.window, w, 1),
            total_tokens: m.total_tokens + 1,
            total_occ: m.total_occ + 1,
            ..m
        }
    } else {
        CounterModel {
            canon: canon2,
            window: m.window.push(w),
            total_tokens: m.total_tokens + 1,
            ..m
        }
    }
}

/// Consuming a whole token sequence, in order.
pub open spec fn counter_fold(m: CounterModel, ts: Seq<Seq<char>>) -> CounterModel {
    ts.fold_left(m, |acc: CounterModel, t: Seq<char>| counter_step(acc, t))
}

// ---------------------------------------------------------------------
// Final resolution and merging, for get_entries
// ---------------------------------------------------------------------

/// A prefix with every word resolved through the finished case map.
pub open spec fn resolve_prefix_spec(
    canon: Seq<(Seq<char>, Seq<char>)>,
    p: Seq<Seq<char>>,
) -> Seq<Seq<char>> {
    p.map_values(|w: Seq<char>| resolve_spec(canon, w))
}

/// Adds one stored prefix's followers into the merged table, each
/// follower name resolved through the finished case map.
pub open spec fn merge_followers(
    canon: Seq<(Seq<char>, Seq<char>)>,
    acc: Seq<(Seq<Seq<char>>, Seq<(Seq<char>, int)>)>,
    p: Seq<Seq<char>>,
    fl: Seq<(Seq<char>, int)>,
) -> Seq<(Seq<Seq<char>>, Seq<(Seq<char>, int)>)> {
    fl.fold_left(
        acc,
        |a: Seq<(Seq<Seq<char>>, Seq<(Seq<char>, int)>)>, pr: (Seq<char>, int)|
            tbl_bump(a, p, resolve_spec(canon, pr.0), pr.1),
    )
}

/// The whole table re-keyed through the finished case map, counts of
/// colliding prefixes and followers summed, in first-appearance order.
pub open spec fn merge_table(
    canon: Seq<(Seq<char>, Seq<char>)>,
    t: Seq<(Seq<Seq<char>>, Seq<(Seq<char>, int)>)>,
) -> Seq<(Seq<Seq<char>>, Seq<(Seq<char>, int)>)> {
    t.fold_left(
        Seq::<(Seq<Seq<char>>, Seq<(Seq<char>, int)>)>::empty(),
        |a: Seq<(Seq<Seq<char>>, Seq<(Seq<char>, int)>)>, e: (
            Seq<Seq<char>>,
            Seq<(Seq<char>, int)>,
        )| merge_followers(canon, a, resolve_prefix_spec(canon, e.0), e.1),
    )
}

/// What `get_entries` returns, as a function of the counter's state
/// alone: the merged, re-resolved table, followers sorted by descending
/// count with a case-insensitive alphabetical tie-break, entries sorted
/// by case-insensitive prefix order.
pub open spec fn entries_of(m: CounterModel) -> Seq<(Seq<Seq<char>>, Seq<(Seq<char>, int)>)> {
    sort_by_ins(
        entry_lt_fn(),
        merge_table(m.canon, m.table).map_values(
            |e: (Seq<Seq<char>>, Seq<(Seq<char>, int)>)| (e.0, sort_by_ins(fol_lt_fn(), e.1)),
        ),
    )
}

/// A word occurs somewhere in a follower list.
pub open spec fn word_in_fol(fl: Seq<(Seq<char>, int)>, w: Seq<char>) -> bool {
    exists|j: int| 0 <= j < fl.len() && (#[trigger] fl[j]).0 == w
}

/// A word occurs somewhere in an entry list, as a prefix word or a
/// follower name.
pub open spec fn word_in_table(
    t: Seq<(Seq<Seq<char>>, Seq<(Seq<char>, int)>)>,
    w: Seq<char>,
) -> bool {
    exists|i: int|
        0 <= i < t.len() && ((#[trigger] t[i]).0.contains(w) || word_in_fol(t[i].1, w))
}

/// A word is in the image of final resolution through the given map.
pub open spec fn is_resolved_word(canon: Seq<(Seq<char>, Seq<char>)>, w: Seq<char>) -> bool {
    exists|x: Seq<char>| #[trigger] resolve_spec(canon, x) == w
}

proof fn lemma_fol_set_words(fl: Seq<(Seq<char>, int)>, f: Seq<char>, c: int, w: Seq<char>)
    requires
        word_in_fol(fol_set(fl, f, c), w),
    ensures
        w == f || word_in_fol(fl, w),
    decreases fl.len(),
{
    let r = fol_set(fl, f, c);
    if fl.len() == 0 {
        assert(r == seq![(f, c)]);
        assert(r[choose|j: int| 0 <= j < r.len() && r[j].0 == w] == (f, c));
    } else if fl[0].0 == f {
        let j = choose|j: int| 0 <= j < r.len() && r[j].0 == w;
        if j == 0 {
        } else {
            assert(r[j] == fl.drop_first()[j - 1]);
            assert(fl[j] == fl.drop_first()[j - 1]);
        }
    } else {
        let j = choose|j: int| 0 <= j < r.len() && r[j].0 == w;
        if j == 0 {
            assert(fl[0].0 == w);
        } else {
            assert(r[j] == fol_set(fl.drop_first(), f, c)[j - 1]);
            assert(word_in_fol(fol_set(fl.drop_first(), f, c), w));
            lemma_fol_set_words(fl.drop_first(), f, c, w);
            if word_in_fol(fl.drop_first(), w) {
                let k = choose|k: int|
                    0 <= k < fl.drop_first().len() && fl.drop_first()[k].0 == w;
                assert(fl[k + 1].0 == w);
            }
        }
    }
}

proof fn lemma_fol_bump_words(fl: Seq<(Seq<char>, int)>, f: Seq<char>, c: int, w: Seq<char>)
    requires
        word_in_fol(fol_bump(fl, f, c), w),
    ensures
        w == f || word_in_fol(fl, w),
{
    match fol_lookup(fl, f) {
        None => {
            let r = fl.push((f, c));
            let j = choose|j: int| 0 <= j < r.len() && r[j].0 == w;
            if j < fl.len() {
                assert(fl[j].0 == w);
            }
        },
        Some(c0) => {
            lemma_fol_set_words(fl, f, c0 + c, w);
        },
    }
}

proof fn lemma_tbl_lookup_member(
    t: Seq<(Seq<Seq<char>>, Seq<(Seq<char>, int)>)>,
    p: Seq<Seq<char>>,
)
    requires
        tbl_lookup(t, p) is Some,
    ensures
        exists|i: int|
            0 <= i < t.len() && (#[trigger] t[i]).0 == p && t[i].1 == tbl_lookup(t, p).unwrap(),
    decreases t.len(),
{
    if t.len() > 0 {
        if t[0].0 == p {
        } else {
            lemma_tbl_lookup_member(t.drop_first(), p);
            let i = choose|i: int|
                0 <= i < t.drop_first().len() && (#[trigger] t.drop_first()[i]).0 == p
                    && t.drop_first()[i].1 == tbl_lookup(t.drop_first(), p).unwrap();
            assert(t[i + 1] == t.drop_first()[i]);
        }
    }
}

proof fn lemma_tbl_set_words(
    t: Seq<(Seq<Seq<char>>, Seq<(Seq<char>, int)>)>,
    p: Seq<Seq<char>>,
    fl: Seq<(Seq<char>, int)>,
    w: Seq<char>,
)
    requires
        word_in_table(tbl_set(t, p, fl), w),
    ensures
        word_in_table(t, w) || p.contains(w) || word_in_fol(fl, w),
    decreases t.len(),
{
    let r = tbl_set(t, p, fl);
    if t.len() == 0 {
        assert(r == seq![(p, fl)]);
        assert(r[choose|i: int|
            0 <= i < r.len() && ((#[trigger] r[i]).0.contains(w) || word_in_fol(r[i].1, w))] == (
        p,
        fl,
        ));
    } else if t[0].0 == p {
        let i = choose|i: int|
            0 <= i < r.len() && ((#[trigger] r[i]).0.contains(w) || word_in_fol(r[i].1, w));
        if i == 0 {
        } else {
            assert(r[i] == t.drop_first()[i - 1]);
            assert(t[i] == t.drop_first()[i - 1]);
        }
    } else {
        let i = choose|i: int|
            0 <= i < r.len() && ((#[trigger] r[i]).0.contains(w) || word_in_fol(r[i].1, w));
        if i == 0 {
            assert(r[0] == t[0]);
        } else {
            assert(r[i] == tbl_set(t.drop_first(), p, fl)[i - 1]);
            assert(word_in_table(tbl_set(t.drop_first(), p, fl), w));
            lemma_tbl_set_words(t.drop_first(), p, fl, w);
            if word_in_table(t.drop_first(), w) {
                let k = choose|k: int|
                    0 <= k < t.drop_first().len() && ((#[trigger] t.drop_first()[k]).0.contains(w)
                        || word_in_fol(t.drop_first()[k].1, w));
                assert(t[k + 1] == t.drop_first()[k]);
            }
        }
    }
}

proof fn lemma_tbl_bump_words(
    t: Seq<(Seq<Seq<char>>, Seq<(Seq<char>, int)>)>,
    p: Seq<Seq<char>>,
    f: Seq<char>,
    c: int,
    w: Seq<char>,
)
    requires
        word_in_table(tbl_bump(t, p, f, c), w),
    ensures
        word_in_table(t, w) || p.contains(w) || w == f,
{
    match tbl_lookup(t, p) {
        None => {
            let r = t.push((p, seq![(f, c)]));
            let i = choose|i: int|
                0 <= i < r.len() && ((#[trigger] r[i]).0.contains(w) || word_in_fol(r[i].1, w));
            if i < t.len() {
                assert(t[i] == r[i]);
            } else {
                assert(r[i] == (p, seq![(f, c)]));
                if word_in_fol(seq![(f, c)], w) {
                    let j = choose|j: int|
                        0 <= j < seq![(f, c)].len() && seq![(f, c)][j].0 == w;
                    assert(seq![(f, c)][j] == (f, c));
                }
            }
        },
        Some(fl) => {
            lemma_tbl_set_words(t, p, fol_bump(fl, f, c), w);
            if word_in_fol(fol_bump(fl, f, c), w) {
                lemma_fol_bump_words(fl, f, c, w);
                if word_in_fol(fl, w) {
                    lemma_tbl_lookup_member(t, p);
                }
            }
        },
    }
}

proof fn lemma_merge_followers_words(
    canon: Seq<(Seq<char>, Seq<char>)>,
    acc: Seq<(Seq<Seq<char>>, Seq<(Seq<char>, int)>)>,
    p: Seq<Seq<char>>,
    fl: Seq<(Seq<char>, int)>,
    w: Seq<char>,
)
    requires
        forall|k: int| 0 <= k < p.len() ==> is_resolved_word(canon, #[trigger] p[k]),
        word_in_table(merge_followers(canon, acc, p, fl), w),
    ensures
        word_in_table(acc, w) || is_resolved_word(canon, w),
    decreases fl.len(),
{
    if fl.len() == 0 {
        assert(merge_followers(canon, acc, p, fl) == acc);
    } else {
        assert(merge_followers(canon, acc, p, fl) == tbl_bump(
            merge_followers(canon, acc, p, fl.drop_last()),
            p,
            resolve_spec(canon, fl.last().0),
            fl.last().1,
        ));
        lemma_tbl_bump_words(
            merge_followers(canon, acc, p, fl.drop_last()),
            p,
            resolve_spec(canon, fl.last().0),
            fl.last().1,
            w,
        );
        if word_in_table(merge_followers(canon, acc, p, fl.drop_last()), w) {
            lemma_merge_followers_words(canon, acc, p, fl.drop_last(), w);
        } else if p.contains(w) {
            let k = choose|k: int| 0 <= k < p.len() && p[k] == w;
            assert(is_resolved_word(canon, p[k]));
        } else {
            assert(resolve_spec(canon, fl.last().0) == w);
        }
    }
}

proof fn lemma_merge_table_words(
    canon: Seq<(Seq<char>, Seq<char>)>,
    t: Seq<(Seq<Seq<char>>, Seq<(Seq<char>, int)>)>,
    w: Seq<char>,
)
    requires
        word_in_table(merge_table(canon, t), w),
    ensures
        is_resolved_word(canon, w),
    decreases t.len(),
{
    if t.len() == 0 {
        assert(merge_table(canon, t).len() == 0);
    } else {
        let prev = merge_table(canon, t.drop_last());
        let e = t.last();
        let p = resolve_prefix_spec(canon, e.0);
        assert(merge_table(canon, t) == merge_followers(canon, prev, p, e.1));
        assert(forall|k: int| 0 <= k < p.len() ==> is_resolved_word(canon, #[trigger] p[k])) by {
            assert(forall|k: int|
                0 <= k < p.len() ==> #[trigger] p[k] == resolve_spec(canon, e.0[k]));
        }
        lemma_merge_followers_words(canon, prev, p, e.1, w);
        if word_in_table(prev, w) {
            lemma_merge_table_words(canon, t.drop_last(), w);
        }
    }
}

proof fn lemma_entries_of_words(m: CounterModel, w: Seq<char>)
    requires
        word_in_table(entries_of(m), w),
    ensures
        is_resolved_word(m.canon, w),
{
    let mt = merge_table(m.canon, m.table);
    let mapped = mt.map_values(
        |e: (Seq<Seq<char>>, Seq<(Seq<char>, int)>)| (e.0, sort_by_ins(fol_lt_fn(), e.1)),
    );
    let sorted = entries_of(m);
    let i = choose|i: int|
        0 <= i < sorted.len() && ((#[trigger] sorted[i]).0.contains(w) || word_in_fol(
            sorted[i].1,
            w,
        ));
    let e = sorted[i];
    assert(sorted.contains(e));
    lemma_sort_contains(entry_lt_fn(), mapped, e);
    let k = choose|k: int| 0 <= k < mapped.len() && mapped[k] == e;
    assert(mapped[k] == (mt[k].0, sort_by_ins(fol_lt_fn(), mt[k].1)));
    assert(e.0 == mt[k].0);
    assert(e.1 == sort_by_ins(fol_lt_fn(), mt[k].1));
    if e.0.contains(w) {
        let q = choose|q: int| 0 <= q < e.0.len() && e.0[q] == w;
        assert(mt[k].0.contains(w));
        assert(word_in_table(mt, w));
    } else {
        let j = choose|j: int| 0 <= j < e.1.len() && (#[trigger] e.1[j]).0 == w;
        let pair = e.1[j];
        assert(e.1.contains(pair));
        lemma_sort_contains(fol_lt_fn(), mt[k].1, pair);
        let j2 = choose|j2: int| 0 <= j2 < mt[k].1.len() && mt[k].1[j2] == pair;
        assert(word_in_fol(mt[k].1, w));
        assert(word_in_table(mt, w));
    }
    lemma_merge_table_words(m.canon, m.table, w);
}

/// Case convergence, end to end: starting from a fresh case map, if a
/// non-pronoun word appears with two distinct capitalizations anywhere
/// in the consumed token stream, then every occurrence of that word in
/// the final entry output — as a prefix word or as a follower name — is
/// the all-lower-case spelling.
pub proof fn lemma_case_convergence_in_output(
    m: CounterModel,
    ts: Seq<Seq<char>>,
    i: int,
    j: int,
    w: Seq<char>,
)
    requires
        m.canon.len() == 0,
        0 <= i < j < ts.len(),
        crate::strings::lower_seq(ts[i]) == crate::strings::lower_seq(ts[j]),
        ts[i] != ts[j],
        crate::preprocessor::case_exception(crate::strings::lower_seq(ts[i])) is None,
        word_in_table(entries_of(counter_fold(m, ts)), w),
        crate::strings::lower_seq(w) == crate::strings::lower_seq(ts[i]),
    ensures
        w == crate::strings::lower_seq(ts[i]),
{
    let l = crate::strings::lower_seq(ts[i]);
    let m2 = counter_fold(m, ts);
    lemma_counter_fold_canon(m, ts);
    crate::canon::lemma_case_convergence(m.canon, ts, i, j, ts[i]);
    assert(crate::canon::map_lookup(m2.canon, l) == Some(l));
    assert(crate::canon::canon_map_ok(m.canon));
    crate::canon::lemma_canon_fold_ok(m.canon, ts);
    lemma_entries_of_words(m2, w);
    let x = choose|x: Seq<char>| resolve_spec(m2.canon, x) == w;
    crate::canon::lemma_resolved_word_converged(m2.canon, x, l);
}

/// Pronoun override, end to end: starting from a fresh case map, every
/// occurrence in the final entry output of a word whose lower case is
/// "i" or one of its contraction forms carries the fixed capitalized
/// spelling, whatever was consumed and however it was capitalized.
pub proof fn lemma_pronoun_override_in_output(m: CounterModel, ts: Seq<Seq<char>>, w: Seq<char>)
    requires
        m.canon.len() == 0,
        word_in_table(entries_of(counter_fold(m, ts)), w),
        crate::preprocessor::case_exception(crate::strings::lower_seq(w)) is Some,
    ensures
        w == crate::preprocessor::case_exception(crate::strings::lower_seq(w)).unwrap(),
{
    let l = crate::strings::lower_seq(w);
    let m2 = counter_fold(m, ts);
    lemma_counter_fold_canon(m, ts);
    assert(crate::canon::canon_map_ok(m.canon));
    assert(crate::canon::no_pronoun_keys(m.canon));
    crate::canon::lemma_canon_fold_ok(m.canon, ts);
    crate::canon::lemma_canon_fold_no_pronoun(m.canon, ts);
    lemma_entries_of_words(m2, w);
    let x = choose|x: Seq<char>| resolve_spec(m2.canon, x) == w;
    crate::canon::lemma_resolved_word_pronoun(m2.canon, x, l);
}

/// The case map a counter ends up with is exactly the canonicalizer
/// fold of the tokens it consumed: counting does not interfere with
/// case tracking.  Together with
/// [`crate::canon::lemma_case_convergence`] this carries the case
/// convergence guarantee to the whole counter: any word seen with two
/// distinct spellings resolves to lower case in `get_entries` output.
pub proof fn lemma_counter_fold_canon(m: CounterModel, ts: Seq<Seq<char>>)
    ensures
        counter_fold(m, ts).canon == crate::canon::canon_fold(m.canon, ts),
    decreases ts.len(),
{
    if ts.len() > 0 {
        lemma_counter_fold_canon(m, ts.drop_last());
        assert(counter_fold(m, ts) == counter_step(counter_fold(m, ts.drop_last()), ts.last()));
        assert(crate::canon::canon_fold(m.canon, ts) == canon_step(
            crate::canon::canon_fold(m.canon, ts.drop_last()),
            ts.last(),
        ).0);
    }
}

/// Sliding-window completeness for bigrams: from a fresh counter of
/// order 2, consuming the already-filtered tokens `[a, b, c]` (all in
/// canonical lower case, none a pronoun form) records exactly two
/// observations: one of `b` following `a` and one of `c` following `b`.
pub proof fn lemma_sliding_window_bigram(m0: CounterModel, a: Seq<char>, b: Seq<char>, c: Seq<char>)
    requires
        m0.n == 2,
        m0.window.len() == 0,
        m0.table.len() == 0,
        m0.canon.len() == 0,
        crate::strings::lower_seq(a) == a,
        crate::preprocessor::case_exception(a) is None,
        crate::strings::lower_seq(b) == b,
        crate::preprocessor::case_exception(b) is None,
        crate::strings::lower_seq(c) == c,
        crate::preprocessor::case_exception(c) is None,
        a != b,
    ensures
        counter_fold(m0, seq![a, b, c]).total_occ == m0.total_occ + 2,
        counter_fold(m0, seq![a, b, c]).total_tokens == m0.total_tokens + 3,
        counter_fold(m0, seq![a, b, c]).table == seq![
            (seq![a], seq![(b, 1int)]),
            (seq![b], seq![(c, 1int)]),
        ],
{
    let ts = seq![a, b, c];
    let emptyc = Seq::<(Seq<char>, Seq<char>)>::empty();
    let emptyt = Seq::<(Seq<Seq<char>>, Seq<(Seq<char>, int)>)>::empty();
    // unroll the fold
    assert(counter_fold(m0, Seq::<Seq<char>>::empty()) == m0);
    assert(seq![a].drop_last() =~= Seq::<Seq<char>>::empty());
    assert(seq![a].last() == a);
    assert(counter_fold(m0, seq![a]) == counter_step(m0, a));
    assert(seq![a, b].drop_last() =~= seq![a]);
    assert(seq![a, b].last() == b);
    assert(counter_fold(m0, seq![a, b]) == counter_step(counter_step(m0, a), b));
    assert(ts.drop_last() =~= seq![a, b]);
    assert(ts.last() == c);
    assert(counter_fold(m0, ts) == counter_step(counter_step(counter_step(m0, a), b), c));
    // first step: the window is cold, a only enters it
    assert(m0.canon =~= emptyc);
    assert(m0.table =~= emptyt);
    assert(crate::canon::map_lookup(m0.canon, a) is None);
    let m1 = counter_step(m0, a);
    assert(crate::canon::canon_step(m0.canon, a).1 == a);
    assert(m1.canon == crate::canon::map_set(emptyc, a, a));
    assert(m1.canon =~= seq![(a, a)]);
    assert(m0.window.len() != m0.n - 1);
    assert(m1.window =~= m0.window.push(a));
    assert(m1.window =~= seq![a]);
    assert(m1.table == m0.table);
    assert(m1.total_occ == m0.total_occ);
    // second step: window [a] is warm, records (a -> b)
    assert(seq![(a, a)].drop_first() =~= emptyc);
    assert(crate::canon::map_lookup(emptyc, b) is None);
    assert(crate::canon::map_lookup(m1.canon, b) is None);
    let m2 = counter_step(m1, b);
    assert(crate::canon::canon_step(m1.canon, b).1 == b);
    assert(m2.canon == crate::canon::map_set(m1.canon, b, b));
    assert(crate::canon::map_set(emptyc, b, b) =~= seq![(b, b)]);
    assert(m2.canon =~= seq![(a, a), (b, b)]);
    assert(m1.window.len() == m1.n - 1);
    assert(tbl_lookup(m1.table, m1.window) is None);
    assert(m2.table == m1.table.push((m1.window, seq![(b, 1int)])));
    assert(m2.table =~= seq![(seq![a], seq![(b, 1int)])]);
    assert(m2.total_occ == m0.total_occ + 1);
    assert(m2.window =~= m1.window.drop_first().push(b));
    assert(m2.window =~= seq![b]);
    // third step: window [b] records (b -> c); canonicalization leaves
    // the lower-case c unchanged whatever the map now holds
    assert(seq![(a, a), (b, b)].drop_first() =~= seq![(b, b)]);
    assert(seq![(b, b)].drop_first() =~= emptyc);
    assert(crate::canon::map_lookup(emptyc, c) is None);
    let m3 = counter_step(m2, c);
    assert(crate::canon::canon_step(m2.canon, c).1 == c) by {
        if c == a {
            assert(crate::canon::map_lookup(m2.canon, c) == Some(a));
        } else if c == b {
            assert(crate::canon::map_lookup(seq![(b, b)], c) == Some(b));
            assert(crate::canon::map_lookup(m2.canon, c) == Some(b));
        } else {
            assert(crate::canon::map_lookup(seq![(b, b)], c) is None);
            assert(crate::canon::map_lookup(m2.canon, c) is None);
        }
    }
    assert(m2.window.len() == m2.n - 1);
    assert(seq![a][0] == a);
    assert(seq![b][0] == b);
    assert(seq![a] != seq![b]) by {
        if seq![a] == seq![b] {
            assert(seq![a][0] == seq![b][0]);
        }
    }
    assert(m2.table.drop_first() =~= emptyt);
    assert(tbl_lookup(emptyt, m2.window) is None);
    assert(tbl_lookup(m2.table, m2.window) is None) by {
        assert(m2.table[0].0 == seq![a]);
        assert(m2.window == seq![b]);
    }
    assert(m3.table == m2.table.push((m2.window, seq![(c, 1int)])));
    assert(m3.table =~= seq![(seq![a], seq![(b, 1int)]), (seq![b], seq![(c, 1int)])]);
    assert(m3.total_occ == m0.total_occ + 2);
}

// ---------------------------------------------------------------------
// Executable helpers
// ---------------------------------------------------------------------

/// Equality of two token vectors, element by element.
pub fn string_vec_eq(a: &Vec<String>, b: &Vec<String>) -> (r: bool)
    ensures
        r == (a.deep_view() == b.deep_view()),
{
    if a.len() != b.len() {
        proof {
            assert(a.deep_view().len() == a@.len());
            assert(b.deep_view().len() == b@.len());
        }
        return false;
    }
    let mut i: usize = 0;
    while i < a.len()
        invariant
            i <= a@.len(),
            a@.len() == b@.len(),
            a.deep_view().len() == a@.len(),
            b.deep_view().len() == b@.len(),
            forall|j: int| 0 <= j < i ==> a.deep_view()[j] == b.deep_view()[j],
        decreases a@.len() - i,
    {
        if !str_eq(a[i].as_str(), b[i].as_str()) {
            proof {
                assert(a.deep_view()[i as int] == a@[i as int]@);
                assert(b.deep_view()[i as int] == b@[i as int]@);
            }
            return false;
        }
        proof {
            assert(a.deep_view()[i as int] == a@[i as int]@);
            assert(b.deep_view()[i as int] == b@[i as int]@);
        }
        i = i + 1;
    }
    proof {
        assert(a.deep_view() =~= b.deep_view());
    }
    true
}

fn find_prefix(map: &Vec<(Vec<String>, Vec<(String, usize)>)>, p: &Vec<String>) -> (r: Option<
    usize,
>)
    ensures
        match r {
            Some(i) => i < map@.len() && tbl_view(map.deep_view())[i as int].0 == p.deep_view()
                && forall|k: int| 0 <= k < i ==> tbl_view(map.deep_view())[k].0 != p.deep_view(),
            None => forall|k: int|
                0 <= k < map@.len() ==> tbl_view(map.deep_view())[k].0 != p.deep_view(),
        },
{
    let mut i: usize = 0;
    while i < map.len()
        invariant
            i <= map@.len(),
            tbl_view(map.deep_view()).len() == map@.len(),
            forall|k: int| 0 <= k < i ==> tbl_view(map.deep_view())[k].0 != p.deep_view(),
        decreases map@.len() - i,
    {
        if string_vec_eq(&map[i].0, p) {
            return Some(i);
        }
        i = i + 1;
    }
    None
}

fn find_follower(fl: &Vec<(String, usize)>, f: &String) -> (r: Option<usize>)
    ensures
        match r {
            Some(j) => j < fl@.len() && fol_view(fl.deep_view())[j as int].0 == f@ && forall|k: int|
                0 <= k < j ==> fol_view(fl.deep_view())[k].0 != f@,
            None => forall|k: int|
                0 <= k < fl@.len() ==> fol_view(fl.deep_view())[k].0 != f@,
        },
{
    let mut j: usize = 0;
    while j < fl.len()
        invariant
            j <= fl@.len(),
            fol_view(fl.deep_view()).len() == fl@.len(),
            forall|k: int| 0 <= k < j ==> fol_view(fl.deep_view())[k].0 != f@,
        decreases fl@.len() - j,
    {
        if str_eq(fl[j].0.as_str(), f.as_str()) {
            return Some(j);
        }
        j = j + 1;
    }
    None
}

/// Adds `c` to the count of `(prefix, f)` in the executable table.
fn tbl_bump_exec(
    map: &mut Vec<(Vec<String>, Vec<(String, usize)>)>,
    prefix: Vec<String>,
    f: &String,
    c: usize,
)
    requires
        c >= 1,
        tbl_counts_at_least(tbl_view(old(map).deep_view()), 0),
        tbl_sum(tbl_view(old(map).deep_view())) + c <= usize::MAX,
    ensures
        tbl_view(final(map).deep_view()) == tbl_bump(
            tbl_view(old(map).deep_view()),
            prefix.deep_view(),
            f@,
            c as int,
        ),
        tbl_sum(tbl_view(final(map).deep_view())) == tbl_sum(tbl_view(old(map).deep_view()))
            + c,
        tbl_keys_unique(tbl_view(old(map).deep_view())) ==> tbl_keys_unique(
            tbl_view(final(map).deep_view()),
        ),
        tbl_counts_at_least(tbl_view(old(map).deep_view()), 1) ==> tbl_counts_at_least(
            tbl_view(final(map).deep_view()),
            1,
        ),
{
    let ghost tv = tbl_view(map.deep_view());
    let ghost pv = prefix.deep_view();
    match find_prefix(map, &prefix) {
        None => {
            proof {
                lemma_tbl_lookup_absent(tv, pv);
            }
            let mut fl: Vec<(String, usize)> = Vec::new();
            fl.push((f.clone(), c));
            assert(fol_view(fl.deep_view()) =~= seq![(f@, c as int)]);
            map.push((prefix, fl));
            proof {
                assert(tbl_view(map.deep_view()) =~= tv.push((pv, seq![(f@, c as int)])));
                lemma_fol_sum_singleton((f@, c as int));
                lemma_tbl_sum_push(tv, (pv, seq![(f@, c as int)]));
            }
        },
        Some(i) => {
            proof {
                lemma_tbl_lookup_indexed(tv, pv, i as int);
            }
            let ghost flv = tv[i as int].1;
            let mut e = map.remove(i);
            assert(e.deep_view() == map.deep_view().insert(i as int, e.deep_view())[i as int]);
            let ghost shrunk = map.deep_view();
            match find_follower(&e.1, f) {
                None => {
                    proof {
                        lemma_fol_lookup_absent(flv, f@);
                        lemma_fol_sum_push(flv, (f@, c as int));
                    }
                    e.1.push((f.clone(), c));
                    assert(fol_view(e.1.deep_view()) =~= flv.push((f@, c as int)));
                },
                Some(j) => {
                    let cnt = e.1[j].1;
                    proof {
                        assert(fol_counts_at_least(flv, 0));
                        lemma_fol_count_le_sum(flv, j as int);
                        // the entry's total is bounded by the table's total
                        lemma_tbl_sum_split(tv, i as int);
                        lemma_tbl_sum_split(tv.skip(i as int), 1);
                        assert(tv.skip(i as int).take(1) =~= seq![tv[i as int]]);
                        lemma_tbl_sum_singleton(tv[i as int]);
                        assert(tbl_sum(seq![tv[i as int]]) == fol_sum(flv));
                        assert(tbl_counts_at_least(tv.take(i as int), 0)) by {
                            assert(forall|k: int|
                                0 <= k < i ==> tv.take(i as int)[k] == tv[k]);
                        }
                        assert(tbl_counts_at_least(tv.skip(i as int).skip(1), 0)) by {
                            assert(forall|k: int|
                                0 <= k < tv.skip(i as int).skip(1).len() ==> tv.skip(
                                    i as int,
                                ).skip(1)[k] == tv[k + i + 1]);
                        }
                        lemma_tbl_sum_nonneg(tv.take(i as int));
                        lemma_tbl_sum_nonneg(tv.skip(i as int).skip(1));
                        assert(fol_sum(flv) <= tbl_sum(tv));
                        assert(cnt + c <= usize::MAX);
                        lemma_fol_lookup_indexed(flv, f@, j as int);
                        lemma_fol_set_indexed(flv, f@, cnt + c, j as int);
                        lemma_fol_sum_update(flv, j as int, (f@, cnt + c));
                    }
                    e.1.set(j, (f.clone(), cnt + c));
                    assert(fol_view(e.1.deep_view()) =~= flv.update(j as int, (f@, cnt as int + c)));
                },
            }
            let ghost new_fl = fol_view(e.1.deep_view());
            proof {
                assert(new_fl == fol_bump(flv, f@, c as int));
                lemma_tbl_set_indexed(tv, pv, new_fl, i as int);
                lemma_tbl_sum_update(tv, i as int, (pv, new_fl));
            }
            let ghost epv = e.0.deep_view();
            map.insert(i, e);
            proof {
                assert(epv == pv);
                assert(tbl_view(map.deep_view()) =~= tv.update(i as int, (pv, new_fl)));
            }
        },
    }
}

// ---------------------------------------------------------------------
// The counter itself
// ---------------------------------------------------------------------

/// A counter for tracking n-gram occurrences in text.
#[derive(Debug)]
pub struct NGramCounter {
    /// Mapping of n-gram prefixes to their following words and counts
    prefix_map: Vec<(Vec<String>, Vec<(String, usize)>)>,
    /// Size of n-gram (e.g., 2 for bigrams, 3 for trigrams)
    n: usize,
    /// Statistics gathered during processing
    stats: ProcessingStats,
    /// Sliding window of the last n - 1 canonicalized tokens
    window: Vec<String>,
    /// Metadata from the front matter of the processed document
    metadata: Option<Metadata>,
    /// Punctuation characters preserved as standalone tokens
    punctuation: Vec<char>,
    /// The document-wide case canonicalizer
    canon: Canonicalizer,
}

impl View for NGramCounter {
    type V = CounterModel;

    closed spec fn view(&self) -> CounterModel {
        CounterModel {
            n: self.n as int,
            punct: self.punctuation@,
            canon: self.canon@,
            window: self.window.deep_view(),
            table: tbl_view(self.prefix_map.deep_view()),
            total_tokens: self.stats.total_tokens as int,
            total_occ: self.stats.total_ngram_occurrences as int,
        }
    }
}

impl NGramCounter {
    /// The counter's structural invariant: a sensible n-gram order, a
    /// window that never exceeds n - 1 tokens, unique keys, positive
    /// counts that sum to the recorded number of observations, and no
    /// more observations than tokens.
    pub closed spec fn wf(&self) -> bool {
        &&& self@.n >= 2
        &&& self.canon.wf()
        &&& self@.window.len() <= self@.n - 1
        &&& tbl_keys_unique(self@.table)
        &&& tbl_counts_at_least(self@.table, 1)
        &&& tbl_sum(self@.table) == self@.total_occ
        &&& 0 <= self@.total_occ <= self@.total_tokens
    }

    /// The stored metadata, for contracts.
    pub closed spec fn metadata_spec(&self) -> Option<Metadata> {
        self.metadata
    }

    /// The stored statistics, for contracts.
    pub closed spec fn stats_spec(&self) -> ProcessingStats {
        self.stats
    }

    /// Creates a new counter for the given n-gram size and punctuation
    /// set.  An order below 2 is clamped to 2: an n-gram model needs at
    /// least one token of prefix.
    pub fn new(n: usize, punctuation: Vec<char>) -> (r: NGramCounter)
        ensures
            r.wf(),
            r@.n == if n < 2 {
                2int
            } else {
                n as int
            },
            r@.punct == punctuation@,
            r@.canon == Seq::<(Seq<char>, Seq<char>)>::empty(),
            r@.window == Seq::<Seq<char>>::empty(),
            r@.table == Seq::<(Seq<Seq<char>>, Seq<(Seq<char>, int)>)>::empty(),
            r@.total_tokens == 0,
            r@.total_occ == 0,
            r.metadata_spec() is None,
            stats_model(r.stats_spec()) == (
                0int,
                0int,
                0int,
                None::<(Seq<Seq<char>>, Seq<char>, int)>,
                None::<(Seq<Seq<char>>, int)>,
            ),
    {
        let n2: usize = if n < 2 {
            2
        } else {
            n
        };
        let r = NGramCounter {
            prefix_map: Vec::new(),
            n: n2,
            stats: ProcessingStats {
                total_tokens: 0,
                unique_ngrams: 0,
                total_ngram_occurrences: 0,
                most_common_ngram: None,
                most_popular_prefix: None,
            },
            window: Vec::new(),
            metadata: None,
            punctuation,
            canon: Canonicalizer::new(),
        };
        proof {
            assert(r@.window =~= Seq::<Seq<char>>::empty());
            assert(r@.table =~= Seq::<(Seq<Seq<char>>, Seq<(Seq<char>, int)>)>::empty());
        }
        r
    }

    /// Stores the document metadata; everything else is untouched.
    pub fn set_metadata(&mut self, m: Metadata)
        ensures
            final(self)@ == old(self)@,
            old(self).wf() ==> final(self).wf(),
            final(self).metadata_spec() == Some(m),
            final(self).stats_spec() == old(self).stats_spec(),
    {
        self.metadata = Some(m);
    }

    /// The statistics collected during processing.
    pub fn get_stats(&self) -> (r: &ProcessingStats)
        ensures
            *r == self.stats_spec(),
    {
        &self.stats
    }

    /// The metadata from the front matter, if any was stored.
    pub fn get_metadata(&self) -> (r: Option<&Metadata>)
        ensures
            match r {
                Some(m) => self.metadata_spec() == Some(*m),
                None => self.metadata_spec() is None,
            },
    {
        match &self.metadata {
            Some(m) => Some(m),
            None => None,
        }
    }

    /// Processes a single line of text: tokenize, preprocess,
    /// canonicalize, and slide the window over the resulting tokens,
    /// recording one (prefix, follower) observation per token once the
    /// window is warm.  The whole effect on the counter's state is the
    /// fold of [`counter_step`] over the line's preprocessed tokens.
    pub fn process_line(&mut self, line: &str)
        requires
            old(self).wf(),
            old(self)@.total_tokens + line@.len() <= usize::MAX,
        ensures
            final(self).wf(),
            final(self)@ == counter_fold(
                old(self)@,
                preprocess_spec(tokenize_spec(line@, old(self)@.punct)),
            ),
            final(self).metadata_spec() == old(self).metadata_spec(),
            final(self).stats_spec().most_common_ngram == old(self).stats_spec().most_common_ngram,
            final(self).stats_spec().most_popular_prefix == old(
                self,
            ).stats_spec().most_popular_prefix,
            final(self).stats_spec().unique_ngrams == old(self).stats_spec().unique_ngrams,
    {
        let toks = tokenize(line, &self.punctuation);
        let words = preprocess(toks);
        let ghost ws = preprocess_spec(tokenize_spec(line@, old(self)@.punct));
        assert(words.deep_view() == ws);
        assert(ws.len() <= line@.len());
        let ghost m0 = old(self)@;
        let mut j: usize = 0;
        while j < words.len()
            invariant
                j <= words@.len(),
                words.deep_view() == ws,
                words.deep_view().len() == words@.len(),
                ws.len() <= line@.len(),
                m0.total_tokens + line@.len() <= usize::MAX,
                self.wf(),
                self@ == counter_fold(m0, ws.take(j as int)),
                self@.total_tokens == m0.total_tokens + j,
                self@.n == m0.n,
                self@.punct == m0.punct,
                self.metadata_spec() == old(self).metadata_spec(),
                self.stats_spec().most_common_ngram == old(self).stats_spec().most_common_ngram,
                self.stats_spec().most_popular_prefix == old(
                    self,
                ).stats_spec().most_popular_prefix,
                self.stats_spec().unique_ngrams == old(self).stats_spec().unique_ngrams,
            decreases words@.len() - j,
        {
            let ghost mj = self@;
            proof {
                assert(ws.take(j + 1).drop_last() =~= ws.take(j as int));
                assert(ws.take(j + 1).last() == ws[j as int]);
            }
            let w = self.canon.canonicalize(&words[j]);
            assert((self.canon@, w@) == canon_step(mj.canon, ws[j as int]));
            self.stats.total_tokens = self.stats.total_tokens + 1;
            let full = self.window.len() == self.n - 1;
            if full {
                let prefix = crate::entries::clone_string_vec(&self.window);
                assert(prefix.deep_view() =~= mj.window);
                proof {
                    lemma_tbl_sum_nonneg(mj.table);
                }
                tbl_bump_exec(&mut self.prefix_map, prefix, &w, 1);
                self.stats.total_ngram_occurrences = self.stats.total_ngram_occurrences + 1;
                let _ = self.window.remove(0);
                self.window.push(w);
                proof {
                    assert(self.window.deep_view() =~= mj.window.drop_first().push(
                        canon_step(mj.canon, ws[j as int]).1,
                    ));
                }
            } else {
                self.window.push(w);
                proof {
                    assert(self.window.deep_view() =~= mj.window.push(
                        canon_step(mj.canon, ws[j as int]).1,
                    ));
                }
            }
            proof {
                assert(self@ == counter_step(mj, ws[j as int]));
            }
            j = j + 1;
        }
        proof {
            assert(ws.take(words@.len() as int) =~= ws);
        }
    }

    /// Derives the summary statistics from the accumulated table: the
    /// number of distinct prefixes, the (prefix, follower) pair with
    /// the largest count, and the prefix with the largest summed
    /// follower count.  Ties are broken deterministically in favour of
    /// the earlier entry in insertion order.  The table itself and the
    /// running totals are untouched.
    pub fn calculate_statistics(&mut self)
        requires
            old(self).wf(),
        ensures
            final(self).wf(),
            final(self)@ == old(self)@,
            final(self).metadata_spec() == old(self).metadata_spec(),
            final(self).stats_spec().total_tokens == old(self).stats_spec().total_tokens,
            final(self).stats_spec().total_ngram_occurrences == old(
                self,
            ).stats_spec().total_ngram_occurrences,
            mc_view(final(self).stats_spec().most_common_ngram) == best_pair(old(self)@.table),
            mp_view(final(self).stats_spec().most_popular_prefix) == best_prefix(
                old(self)@.table,
            ),
            final(self).stats_spec().unique_ngrams == old(self)@.table.len(),
    {
        let ghost tv = self@.table;
        let ghost bcl = |b: Option<(Seq<Seq<char>>, Seq<char>, int)>, e: (
            Seq<Seq<char>>,
            Seq<(Seq<char>, int)>,
        )| scan_followers(b, e.0, e.1);
        let ghost pcl = |b: Option<(Seq<Seq<char>>, int)>, e: (
            Seq<Seq<char>>,
            Seq<(Seq<char>, int)>,
        )|
            if fol_sum(e.1) > prefix_best_count(b) {
                Some((e.0, fol_sum(e.1)))
            } else {
                b
            };
        let mut best: Option<(Vec<String>, String, usize)> = None;
        let mut bestp: Option<(Vec<String>, usize)> = None;
        proof {
            assert(tv.take(0) =~= Seq::<(Seq<Seq<char>>, Seq<(Seq<char>, int)>)>::empty());
        }
        let mut i: usize = 0;
        while i < self.prefix_map.len()
            invariant
                self.wf(),
                tv == self@.table,
                i <= tv.len(),
                tv.len() == self.prefix_map@.len(),
                bcl == (|b: Option<(Seq<Seq<char>>, Seq<char>, int)>, e: (
                    Seq<Seq<char>>,
                    Seq<(Seq<char>, int)>,
                )| scan_followers(b, e.0, e.1)),
                pcl == (|b: Option<(Seq<Seq<char>>, int)>, e: (
                    Seq<Seq<char>>,
                    Seq<(Seq<char>, int)>,
                )|
                    if fol_sum(e.1) > prefix_best_count(b) {
                        Some((e.0, fol_sum(e.1)))
                    } else {
                        b
                    }),
                mc_view(best) == tv.take(i as int).fold_left(
                    None::<(Seq<Seq<char>>, Seq<char>, int)>,
                    bcl,
                ),
                mp_view(bestp) == tv.take(i as int).fold_left(None::<(Seq<Seq<char>>, int)>, pcl),
            decreases tv.len() - i,
        {
            let ghost b0 = mc_view(best);
            let ghost flv = tv[i as int].1;
            let ghost pv = tv[i as int].0;
            proof {
                assert(pv == self.prefix_map[i as int].0.deep_view());
                assert(fol_view(self.prefix_map[i as int].1.deep_view()) == flv);
                assert(flv.take(0) =~= Seq::<(Seq<char>, int)>::empty());
            }
            let nfl = self.prefix_map[i].1.len();
            let mut s: usize = 0;
            let mut j: usize = 0;
            while j < nfl
                invariant
                    self.wf(),
                    tv == self@.table,
                    i < tv.len(),
                    tv.len() == self.prefix_map@.len(),
                    nfl == self.prefix_map@[i as int].1@.len(),
                    pv == tv[i as int].0,
                    flv == tv[i as int].1,
                    flv.len() == nfl,
                    fol_view(self.prefix_map@[i as int].1.deep_view()) == flv,
                    pv == self.prefix_map@[i as int].0.deep_view(),
                    j <= nfl,
                    s as int == fol_sum(flv.take(j as int)),
                    mc_view(best) == scan_followers(b0, pv, flv.take(j as int)),
                    bcl == (|b: Option<(Seq<Seq<char>>, Seq<char>, int)>, e: (
                        Seq<Seq<char>>,
                        Seq<(Seq<char>, int)>,
                    )| scan_followers(b, e.0, e.1)),
                decreases nfl - j,
            {
                let c = self.prefix_map[i].1[j].1;
                proof {
                    assert(flv[j as int] == (
                        self.prefix_map[i as int].1[j as int].0@,
                        c as int,
                    ));
                    assert(flv.take(j + 1).drop_last() =~= flv.take(j as int));
                    assert(flv.take(j + 1).last() == flv[j as int]);
                    // the running sum stays within the table's total
                    lemma_fol_sum_split(flv, j + 1);
                    assert(fol_counts_at_least(flv, 1));
                    assert(fol_counts_at_least(flv.skip(j + 1), 0)) by {
                        assert(forall|k: int|
                            0 <= k < flv.skip(j + 1).len() ==> #[trigger] flv.skip(j + 1)[k]
                                == flv[k + j + 1]);
                    }
                    lemma_fol_sum_nonneg(flv.skip(j + 1));
                    lemma_tbl_sum_split(tv, i + 1);
                    assert(tv.take(i + 1).drop_last() =~= tv.take(i as int));
                    assert(tv.take(i + 1).last() == tv[i as int]);
                    assert(tbl_counts_at_least(tv.take(i as int), 0)) by {
                        assert(forall|k: int|
                            0 <= k < i ==> #[trigger] tv.take(i as int)[k] == tv[k]);
                    }
                    assert(tbl_counts_at_least(tv.skip(i + 1), 0)) by {
                        assert(forall|k: int|
                            0 <= k < tv.skip(i + 1).len() ==> #[trigger] tv.skip(i + 1)[k] == tv[k
                                + i + 1]);
                    }
                    lemma_tbl_sum_nonneg(tv.take(i as int));
                    lemma_tbl_sum_nonneg(tv.skip(i + 1));
                    assert(fol_sum(flv.take(j + 1)) <= tbl_sum(tv));
                    assert(tbl_sum(tv) == self@.total_occ);
                }
                s = s + c;
                let cur: usize = match &best {
                    None => 0,
                    Some(t) => t.2,
                };
                assert(cur as int == pair_best_count(mc_view(best)));
                if c > cur {
                    let word = self.prefix_map[i].1[j].0.clone();
                    let pfx = clone_string_vec(&self.prefix_map[i].0);
                    best = Some((pfx, word, c));
                }
                j = j + 1;
            }
            proof {
                assert(flv.take(nfl as int) =~= flv);
                assert(tv.take(i + 1).drop_last() =~= tv.take(i as int));
                assert(tv.take(i + 1).last() == tv[i as int]);
                assert(mc_view(best) == tv.take(i + 1).fold_left(
                    None::<(Seq<Seq<char>>, Seq<char>, int)>,
                    bcl,
                ));
            }
            let curp: usize = match &bestp {
                None => 0,
                Some(t) => t.1,
            };
            assert(curp as int == prefix_best_count(mp_view(bestp)));
            if s > curp {
                let pfx = clone_string_vec(&self.prefix_map[i].0);
                bestp = Some((pfx, s));
            }
            proof {
                assert(mp_view(bestp) == tv.take(i + 1).fold_left(
                    None::<(Seq<Seq<char>>, int)>,
                    pcl,
                ));
            }
            i = i + 1;
        }
        proof {
            assert(tv.take(tv.len() as int) =~= tv);
        }
        let unique = self.prefix_map.len();
        self.stats.most_common_ngram = best;
        self.stats.most_popular_prefix = bestp;
        self.stats.unique_ngrams = unique;
    }

    /// The results as a sorted list of entries.  Every stored prefix and
    /// follower word is re-resolved through the finished case map, so
    /// the output shows one consistent spelling per word no matter when
    /// a case ambiguity appeared; colliding entries are merged by
    /// summing their counts.  The result is a function of the counter's
    /// state alone, so calling this twice on an unmodified counter
    /// yields identical output.
    pub fn get_entries(&self) -> (r: Vec<WordFollowEntry>)
        requires
            self.wf(),
        ensures
            entries_model(r@) == entries_of(self@),
            sorted_leq(entry_lt_fn(), entries_model(r@)),
            forall|k: int|
                0 <= k < r@.len() ==> sorted_leq(fol_lt_fn(), (#[trigger] entries_model(r@)[k]).1),
    {
        let ghost cn = self@.canon;
        let ghost tv = self@.table;
        let ghost ecl = |a: Seq<(Seq<Seq<char>>, Seq<(Seq<char>, int)>)>, e: (
            Seq<Seq<char>>,
            Seq<(Seq<char>, int)>,
        )| merge_followers(cn, a, resolve_prefix_spec(cn, e.0), e.1);
        let mut merged: Vec<(Vec<String>, Vec<(String, usize)>)> = Vec::new();
        proof {
            assert(tbl_view(merged.deep_view()) =~= Seq::<
                (Seq<Seq<char>>, Seq<(Seq<char>, int)>),
            >::empty());
            assert(tv.take(0) =~= Seq::<(Seq<Seq<char>>, Seq<(Seq<char>, int)>)>::empty());
        }
        let mut i: usize = 0;
        while i < self.prefix_map.len()
            invariant
                self.wf(),
                cn == self@.canon,
                tv == self@.table,
                i <= tv.len(),
                tv.len() == self.prefix_map@.len(),
                ecl == (|a: Seq<(Seq<Seq<char>>, Seq<(Seq<char>, int)>)>, e: (
                    Seq<Seq<char>>,
                    Seq<(Seq<char>, int)>,
                )| merge_followers(cn, a, resolve_prefix_spec(cn, e.0), e.1)),
                tbl_view(merged.deep_view()) == tv.take(i as int).fold_left(
                    Seq::<(Seq<Seq<char>>, Seq<(Seq<char>, int)>)>::empty(),
                    ecl,
                ),
                tbl_counts_at_least(tbl_view(merged.deep_view()), 0),
                tbl_sum(tbl_view(merged.deep_view())) == tbl_sum(tv.take(i as int)),
            decreases tv.len() - i,
        {
            let ghost acc0 = tbl_view(merged.deep_view());
            let rp = resolve_prefix_exec(&self.canon, &self.prefix_map[i].0);
            let ghost rpv = rp.deep_view();
            proof {
                assert(tv[i as int].0 == self.prefix_map[i as int].0.deep_view());
                assert(rpv == resolve_prefix_spec(cn, tv[i as int].0));
                assert(fol_view(self.prefix_map[i as int].1.deep_view()) == tv[i as int].1);
            }
            let ghost flv = tv[i as int].1;
            let nfl = self.prefix_map[i].1.len();
            proof {
                assert(flv.len() == nfl);
                assert(flv.take(0) =~= Seq::<(Seq<char>, int)>::empty());
            }
            let mut j: usize = 0;
            while j < nfl
                invariant
                    self.wf(),
                    cn == self@.canon,
                    tv == self@.table,
                    i < tv.len(),
                    tv.len() == self.prefix_map@.len(),
                    nfl == self.prefix_map@[i as int].1@.len(),
                    flv == tv[i as int].1,
                    flv.len() == nfl,
                    fol_view(self.prefix_map@[i as int].1.deep_view()) == flv,
                    j <= nfl,
                    rpv == rp.deep_view(),
                    rpv == resolve_prefix_spec(cn, tv[i as int].0),
                    tbl_view(merged.deep_view()) == merge_followers(
                        cn,
                        acc0,
                        rpv,
                        flv.take(j as int),
                    ),
                    tbl_counts_at_least(tbl_view(merged.deep_view()), 0),
                    tbl_sum(tbl_view(merged.deep_view())) == tbl_sum(tv.take(i as int)) + fol_sum(
                        flv.take(j as int),
                    ),
                decreases nfl - j,
            {
                let rf = self.canon.resolve(&self.prefix_map[i].1[j].0);
                let c = self.prefix_map[i].1[j].1;
                proof {
                    assert(flv[j as int] == (self.prefix_map[i as int].1[j as int].0@, c as int));
                    assert(rf@ == resolve_spec(cn, flv[j as int].0));
                    // the running total stays within the table's total
                    assert(flv.take(j + 1).drop_last() =~= flv.take(j as int));
                    assert(flv.take(j + 1).last() == flv[j as int]);
                    assert(fol_counts_at_least(flv, 1));
                    assert(c >= 1);
                    lemma_fol_sum_split(flv, j + 1);
                    assert(fol_counts_at_least(flv.skip(j + 1), 0)) by {
                        assert(forall|k: int|
                            0 <= k < flv.skip(j + 1).len() ==> #[trigger] flv.skip(j + 1)[k]
                                == flv[k + j + 1]);
                    }
                    lemma_fol_sum_nonneg(flv.skip(j + 1));
                    lemma_tbl_sum_split(tv, i + 1);
                    assert(tv.take(i + 1).drop_last() =~= tv.take(i as int));
                    assert(tv.take(i + 1).last() == tv[i as int]);
                    assert(tbl_counts_at_least(tv.skip(i + 1), 0)) by {
                        assert(forall|k: int|
                            0 <= k < tv.skip(i + 1).len() ==> #[trigger] tv.skip(i + 1)[k] == tv[k
                                + i + 1]);
                    }
                    lemma_tbl_sum_nonneg(tv.skip(i + 1));
                    assert(tbl_sum(tbl_view(merged.deep_view())) + c <= tbl_sum(tv));
                    assert(tbl_sum(tv) == self@.total_occ);
                }
                let p2 = clone_string_vec(&rp);
                assert(p2.deep_view() =~= rpv);
                tbl_bump_exec(&mut merged, p2, &rf, c);
                j = j + 1;
            }
            proof {
                assert(flv.take(nfl as int) =~= flv);
                assert(tv.take(i + 1).drop_last() =~= tv.take(i as int));
                assert(tv.take(i + 1).last() == tv[i as int]);
                assert(tbl_view(merged.deep_view()) == ecl(acc0, tv[i as int]));
            }
            i = i + 1;
        }
        proof {
            assert(tv.take(tv.len() as int) =~= tv);
            assert(tbl_view(merged.deep_view()) == merge_table(cn, tv));
        }
        let ghost mt = merge_table(cn, tv);
        let ghost mapped = mt.map_values(
            |e: (Seq<Seq<char>>, Seq<(Seq<char>, int)>)| (e.0, sort_by_ins(fol_lt_fn(), e.1)),
        );
        let mut out: Vec<WordFollowEntry> = Vec::new();
        proof {
            assert(entries_model(out@) =~= mapped.take(0));
        }
        let mut k: usize = 0;
        while k < merged.len()
            invariant
                k <= merged@.len(),
                tbl_view(merged.deep_view()) == mt,
                mt.len() == merged@.len(),
                mapped == mt.map_values(
                    |e: (Seq<Seq<char>>, Seq<(Seq<char>, int)>)| (e.0, sort_by_ins(
                        fol_lt_fn(),
                        e.1,
                    )),
                ),
                entries_model(out@) == mapped.take(k as int),
                forall|q: int|
                    0 <= q < out@.len() ==> sorted_leq(
                        fol_lt_fn(),
                        (#[trigger] entries_model(out@)[q]).1,
                    ),
            decreases merged@.len() - k,
        {
            let ghost before = entries_model(out@);
            let pfx = clone_string_vec(&merged[k].0);
            let fls = sort_followers(&merged[k].1);
            let e = WordFollowEntry { prefix: pfx, followers: fls };
            proof {
                assert(fol_view(merged[k as int].1.deep_view()) == mt[k as int].1);
                assert(e.model() == mapped[k as int]);
            }
            out.push(e);
            proof {
                assert(entries_model(out@) =~= before.push(mapped[k as int]));
                assert(entries_model(out@) =~= mapped.take(k + 1));
            }
            k = k + 1;
        }
        proof {
            assert(mapped.take(mapped.len() as int) =~= mapped);
        }
        let r = sort_entries(&out);
        proof {
            assert(entries_model(r@) == entries_of(self@));
            assert forall|q: int| 0 <= q < r@.len() implies sorted_leq(
                fol_lt_fn(),
                (#[trigger] entries_model(r@)[q]).1,
            ) by {
                let y = entries_model(r@)[q];
                assert(entries_model(r@).contains(y));
                lemma_sort_contains(entry_lt_fn(), entries_model(out@), y);
                let w = choose|w: int|
                    0 <= w < entries_model(out@).len() && entries_model(out@)[w] == y;
                assert(sorted_leq(fol_lt_fn(), entries_model(out@)[w].1));
            }
        }
        r
    }
}

/// The words of a prefix, each resolved through the finished case map.
fn resolve_prefix_exec(canon: &Canonicalizer, p: &Vec<String>) -> (r: Vec<String>)
    ensures
        r.deep_view() == resolve_prefix_spec(canon@, p.deep_view()),
{
    let mut r: Vec<String> = Vec::new();
    let mut i: usize = 0;
    while i < p.len()
        invariant
            i <= p@.len(),
            p.deep_view().len() == p@.len(),
            r.deep_view() == resolve_prefix_spec(canon@, p.deep_view().take(i as int)),
        decreases p@.len() - i,
    {
        let w = canon.resolve(&p[i]);
        let ghost before = r.deep_view();
        let ghost wv = w@;
        r.push(w);
        proof {
            assert(r.deep_view() =~= before.push(wv));
            assert(wv == resolve_spec(canon@, p.deep_view()[i as int]));
            assert(r.deep_view() =~= resolve_prefix_spec(canon@, p.deep_view().take(i + 1)));
        }
        i = i + 1;
    }
    proof {
        assert(p.deep_view().take(p@.len() as int) =~= p.deep_view());
    }
    r
}

} // verus!
