//! Partitioning the sorted entry list into a requested number of
//! roughly equal-weight contiguous books, labeled by their letter range.
use vstd::prelude::*;

use crate::counter::{fol_counts_at_least, fol_sum, lemma_fol_sum_nonneg};
use crate::entries::{clone_entry, entries_model, WordFollowEntry};
use crate::strings::{str_eq, upper_char, upper_char_exec};

verus! {

/// An entry's weight for balancing: its summed follower counts, floored
/// at 1 so that empty entries still take space.
pub open spec fn entry_weight_spec(e: (Seq<Seq<char>>, Seq<(Seq<char>, int)>)) -> int {
    let s = fol_sum(e.1);
    if s < 1 {
        1int
    } else {
        s
    }
}

/// The total weight of an entry list.
pub open spec fn wsum(es: Seq<(Seq<Seq<char>>, Seq<(Seq<char>, int)>)>) -> int
    decreases es.len(),
{
    if es.len() == 0 {
        0int
    } else {
        wsum(es.drop_last()) + entry_weight_spec(es.last())
    }
}

pub proof fn lemma_wsum_split(es: Seq<(Seq<Seq<char>>, Seq<(Seq<char>, int)>)>, k: int)
    requires
        0 <= k <= es.len(),
    ensures
        wsum(es) == wsum(es.take(k)) + wsum(es.skip(k)),
    decreases es.len(),
{
    if k == es.len() {
        assert(es.take(k) =~= es);
        assert(wsum(es.skip(k)) == 0);
    } else {
        lemma_wsum_split(es.drop_last(), k);
        assert(es.drop_last().take(k) =~= es.take(k));
        assert(es.drop_last().skip(k) =~= es.skip(k).drop_last());
        assert(es.skip(k).last() == es.last());
    }
}

pub proof fn lemma_wsum_push(
    es: Seq<(Seq<Seq<char>>, Seq<(Seq<char>, int)>)>,
    e: (Seq<Seq<char>>, Seq<(Seq<char>, int)>),
)
    ensures
        wsum(es.push(e)) == wsum(es) + entry_weight_spec(e),
{
    assert(es.push(e).drop_last() =~= es);
    assert(es.push(e).last() == e);
}

pub proof fn lemma_wsum_singleton(e: (Seq<Seq<char>>, Seq<(Seq<char>, int)>))
    ensures
        wsum(seq![e]) == entry_weight_spec(e),
{
    let emp = Seq::<(Seq<Seq<char>>, Seq<(Seq<char>, int)>)>::empty();
    lemma_wsum_push(emp, e);
    assert(emp.push(e) =~= seq![e]);
}

pub proof fn lemma_wsum_nonneg(es: Seq<(Seq<Seq<char>>, Seq<(Seq<char>, int)>)>)
    ensures
        wsum(es) >= 0,
    decreases es.len(),
{
    if es.len() > 0 {
        lemma_wsum_nonneg(es.drop_last());
        if fol_sum(es.last().1) < 1 {
        } else {
        }
    }
}

/// The greedy boundary walk: accumulate weight from `start`; close the
/// current book after the entry that brings the accumulated weight up to
/// the per-book target, as long as at least one more book is still owed;
/// flush the remainder into a final book.
pub open spec fn greedy_books(
    es: Seq<(Seq<Seq<char>>, Seq<(Seq<char>, int)>)>,
    total: int,
    nb: int,
    start: int,
    idx: int,
    run: int,
    done: int,
) -> Seq<Seq<(Seq<Seq<char>>, Seq<(Seq<char>, int)>)>>
    decreases es.len() - idx,
{
    if idx < 0 || idx >= es.len() {
        if start < es.len() {
            seq![es.subrange(start, es.len() as int)]
        } else {
            Seq::empty()
        }
    } else {
        let run2 = run + entry_weight_spec(es[idx]);
        if run2 * nb >= total && done + 1 < nb {
            seq![es.subrange(start, idx + 1)] + greedy_books(es, total, nb, idx + 1, idx + 1, 0, done + 1)
        } else {
            greedy_books(es, total, nb, start, idx + 1, run2, done)
        }
    }
}

/// The book partition of an entry list: everything in one book when one
/// book is asked for or there is nothing to split, the greedy walk
/// otherwise.
pub open spec fn split_books_spec(
    es: Seq<(Seq<Seq<char>>, Seq<(Seq<char>, int)>)>,
    nb: int,
) -> Seq<Seq<(Seq<Seq<char>>, Seq<(Seq<char>, int)>)>> {
    if nb <= 1 || es.len() == 0 {
        seq![es]
    } else {
        greedy_books(es, wsum(es), nb, 0, 0, 0, 0)
    }
}

/// The display letter of an entry: the upper-cased first character of
/// its first prefix word, or "?" when there is none.
pub open spec fn letter_of(e: (Seq<Seq<char>>, Seq<(Seq<char>, int)>)) -> Seq<char> {
    if e.0.len() == 0 || e.0[0].len() == 0 {
        "?"@
    } else {
        seq![upper_char(e.0[0][0])]
    }
}

/// A book's display label: a single letter when first and last entries
/// share one, a "X-Y" range otherwise; empty for an empty book.
pub open spec fn book_label(book: Seq<(Seq<Seq<char>>, Seq<(Seq<char>, int)>)>) -> Seq<char> {
    if book.len() == 0 {
        Seq::<char>::empty()
    } else {
        let a = letter_of(book[0]);
        let b = letter_of(book.last());
        if a == b {
            a
        } else {
            a + "-"@ + b
        }
    }
}

/// Concatenation of all books' entries, in order.
pub open spec fn flatten_books(
    bs: Seq<Seq<(Seq<Seq<char>>, Seq<(Seq<char>, int)>)>>,
) -> Seq<(Seq<Seq<char>>, Seq<(Seq<char>, int)>)>
    decreases bs.len(),
{
    if bs.len() == 0 {
        Seq::empty()
    } else {
        bs[0] + flatten_books(bs.drop_first())
    }
}

proof fn lemma_greedy_partition(
    es: Seq<(Seq<Seq<char>>, Seq<(Seq<char>, int)>)>,
    total: int,
    nb: int,
    start: int,
    idx: int,
    run: int,
    done: int,
)
    requires
        0 <= start <= idx <= es.len(),
    ensures
        flatten_books(greedy_books(es, total, nb, start, idx, run, done)) == es.skip(start),
    decreases es.len() - idx,
{
    if idx >= es.len() {
        if start < es.len() {
            let b = seq![es.subrange(start, es.len() as int)];
            assert(b.drop_first() =~= Seq::<Seq<(Seq<Seq<char>>, Seq<(Seq<char>, int)>)>>::empty());
            assert(flatten_books(b.drop_first()) =~= Seq::<
                (Seq<Seq<char>>, Seq<(Seq<char>, int)>),
            >::empty());
            assert(flatten_books(b) =~= es.skip(start));
        } else {
            assert(es.skip(start) =~= Seq::<(Seq<Seq<char>>, Seq<(Seq<char>, int)>)>::empty());
        }
    } else {
        let run2 = run + entry_weight_spec(es[idx]);
        if run2 * nb >= total && done + 1 < nb {
            lemma_greedy_partition(es, total, nb, idx + 1, idx + 1, 0, done + 1);
            let r = seq![es.subrange(start, idx + 1)] + greedy_books(
                es,
                total,
                nb,
                idx + 1,
                idx + 1,
                0,
                done + 1,
            );
            assert(r.drop_first() =~= greedy_books(es, total, nb, idx + 1, idx + 1, 0, done + 1));
            assert(r[0] == es.subrange(start, idx + 1));
            assert(es.subrange(start, idx + 1) + es.skip(idx + 1) =~= es.skip(start));
        } else {
            lemma_greedy_partition(es, total, nb, start, idx + 1, run2, done);
        }
    }
}

/// Book partition completeness: every entry belongs to exactly one
/// book, and concatenating the books in order reconstructs the original
/// entry list, for any requested book count.
pub proof fn lemma_split_books_partition(
    es: Seq<(Seq<Seq<char>>, Seq<(Seq<char>, int)>)>,
    nb: int,
)
    ensures
        flatten_books(split_books_spec(es, nb)) == es,
{
    if nb <= 1 || es.len() == 0 {
        let b = seq![es];
        assert(b.drop_first() =~= Seq::<Seq<(Seq<Seq<char>>, Seq<(Seq<char>, int)>)>>::empty());
        assert(flatten_books(b.drop_first()) =~= Seq::<
            (Seq<Seq<char>>, Seq<(Seq<char>, int)>),
        >::empty());
        assert(flatten_books(b) =~= es);
    } else {
        lemma_greedy_partition(es, wsum(es), nb, 0, 0, 0, 0);
        assert(es.skip(0) =~= es);
    }
}

/// An entry's balancing weight.
fn entry_weight(e: &WordFollowEntry) -> (w: usize)
    requires
        fol_sum(e.model().1) <= usize::MAX,
    ensures
        w as int == entry_weight_spec(e.model()),
{
    let ghost flv = e.model().1;
    proof {
        assert(fol_counts_at_least(flv, 0));
    }
    let mut s: usize = 0;
    let mut i: usize = 0;
    proof {
        assert(flv.take(0) =~= Seq::<(Seq<char>, int)>::empty());
    }
    while i < e.followers.len()
        invariant
            i <= e.followers@.len(),
            flv == e.model().1,
            flv.len() == e.followers@.len(),
            fol_sum(flv) <= usize::MAX,
            fol_counts_at_least(flv, 0),
            s as int == fol_sum(flv.take(i as int)),
        decreases e.followers@.len() - i,
    {
        proof {
            assert(flv[i as int] == (e.followers[i as int].0@, e.followers[i as int].1 as int));
            assert(flv.take(i + 1).drop_last() =~= flv.take(i as int));
            assert(flv.take(i + 1).last() == flv[i as int]);
            crate::counter::lemma_fol_sum_split(flv, i + 1);
            assert(fol_counts_at_least(flv.skip(i + 1), 0)) by {
                assert(forall|k: int|
                    0 <= k < flv.skip(i + 1).len() ==> #[trigger] flv.skip(i + 1)[k] == flv[k + i
                        + 1]);
            }
            lemma_fol_sum_nonneg(flv.skip(i + 1));
        }
        s = s + e.followers[i].1;
        i = i + 1;
    }
    proof {
        assert(flv.take(flv.len() as int) =~= flv);
    }
    if s < 1 {
        1
    } else {
        s
    }
}

/// The display letter of an entry.
fn letter_exec(e: &WordFollowEntry) -> (r: String)
    ensures
        r@ == letter_of(e.model()),
{
    if e.prefix.len() == 0 {
        let r = String::from_str("?");
        return r;
    }
    let w = &e.prefix[0];
    let n = w.as_str().unicode_len();
    if n == 0 {
        assert(e.model().0[0].len() == 0);
        return String::from_str("?");
    }
    let c = upper_char_exec(w.as_str().get_char(0));
    let mut one: Vec<char> = Vec::new();
    one.push(c);
    let r = crate::strings::chars_to_string(&one);
    proof {
        assert(e.model().0[0] == w@);
        assert(r@ =~= seq![upper_char(w@[0])]);
    }
    r
}

/// Copies of the entries in `[start, end)`.
fn clone_entries_range(entries: &Vec<WordFollowEntry>, start: usize, end: usize) -> (r: Vec<
    WordFollowEntry,
>)
    requires
        start <= end <= entries@.len(),
    ensures
        entries_model(r@) == entries_model(entries@).subrange(start as int, end as int),
        r@.len() == end - start,
{
    let mut r: Vec<WordFollowEntry> = Vec::new();
    let mut i: usize = start;
    proof {
        assert(entries_model(r@) =~= entries_model(entries@).subrange(
            start as int,
            start as int,
        ));
    }
    while i < end
        invariant
            start <= i <= end <= entries@.len(),
            r@.len() == i - start,
            entries_model(r@) == entries_model(entries@).subrange(start as int, i as int),
        decreases end - i,
    {
        let ghost before = entries_model(r@);
        let e = clone_entry(&entries[i]);
        proof {
            assert(e.model() == entries@[i as int].model());
            assert(entries_model(entries@)[i as int] == entries@[i as int].model());
        }
        r.push(e);
        proof {
            assert(entries_model(r@) =~= before.push(entries@[i as int].model()));
            assert(entries_model(r@) =~= entries_model(entries@).subrange(
                start as int,
                i + 1,
            ));
        }
        i = i + 1;
    }
    r
}

/// The label of one finished book, from its first and last entries.
fn book_label_exec(book: &Vec<WordFollowEntry>) -> (r: String)
    requires
        book@.len() > 0,
    ensures
        r@ == book_label(entries_model(book@)),
{
    let a = letter_exec(&book[0]);
    let b = letter_exec(&book[book.len() - 1]);
    proof {
        assert(entries_model(book@)[0] == book@[0].model());
        assert(entries_model(book@).last() == book@[book@.len() - 1].model());
    }
    if str_eq(a.as_str(), b.as_str()) {
        a
    } else {
        a.concat("-").concat(b.as_str())
    }
}

/// Splits the sorted entry list into the requested number of books of
/// roughly equal total weight, without ever splitting an entry.  With a
/// book count of one, or nothing to split, everything lands in a single
/// unlabeled book.  Concatenating the books in order reconstructs the
/// input exactly ([`lemma_split_books_partition`]).
pub fn split_entries_into_books(entries: &Vec<WordFollowEntry>, num_books: usize) -> (r: Vec<
    (String, Vec<WordFollowEntry>),
>)
    requires
        wsum(entries_model(entries@)) <= usize::MAX,
    ensures
        ({
            let spec_books = split_books_spec(entries_model(entries@), num_books as int);
            &&& r@.len() == spec_books.len()
            &&& forall|k: int|
                0 <= k < r@.len() ==> entries_model((#[trigger] r@[k]).1@) == spec_books[k]
            &&& forall|k: int|
                0 <= k < r@.len() ==> (#[trigger] r@[k]).0@ == if num_books <= 1
                    || entries@.len() == 0 {
                    Seq::<char>::empty()
                } else {
                    book_label(spec_books[k])
                }
        }),
{
    let ghost em = entries_model(entries@);
    if num_books <= 1 || entries.len() == 0 {
        let all = clone_entries_range(entries, 0, entries.len());
        proof {
            assert(em.subrange(0, em.len() as int) =~= em);
        }
        let mut r: Vec<(String, Vec<WordFollowEntry>)> = Vec::new();
        r.push((String::new(), all));
        proof {
            assert(split_books_spec(em, num_books as int) == seq![em]);
            assert(r@.len() == 1);
        }
        return r;
    }
    // total weight
    let ghost ws = em;
    let mut total: usize = 0;
    let mut i: usize = 0;
    proof {
        assert(em.take(0) =~= Seq::<(Seq<Seq<char>>, Seq<(Seq<char>, int)>)>::empty());
    }
    while i < entries.len()
        invariant
            i <= entries@.len(),
            em == entries_model(entries@),
            em.len() == entries@.len(),
            wsum(em) <= usize::MAX,
            total as int == wsum(em.take(i as int)),
        decreases entries@.len() - i,
    {
        proof {
            assert(em[i as int] == entries@[i as int].model());
            lemma_wsum_split(em, i + 1);
            assert(em.take(i + 1).drop_last() =~= em.take(i as int));
            assert(em.take(i + 1).last() == em[i as int]);
            lemma_wsum_nonneg(em.skip(i + 1));
            lemma_wsum_nonneg(em.take(i as int));
            assert(fol_counts_at_least(em[i as int].1, 0));
            lemma_fol_sum_nonneg(em[i as int].1);
        }
        let w = entry_weight(&entries[i]);
        total = total + w;
        i = i + 1;
    }
    proof {
        assert(em.take(em.len() as int) =~= em);
    }
    // greedy walk
    let mut books: Vec<(String, Vec<WordFollowEntry>)> = Vec::new();
    let mut start: usize = 0;
    let mut run: usize = 0;
    let mut idx: usize = 0;
    let ghost nb = num_books as int;
    proof {
        assert(books@.map_values(|b: (String, Vec<WordFollowEntry>)| entries_model(b.1@)) =~= Seq::<
            Seq<(Seq<Seq<char>>, Seq<(Seq<char>, int)>)>,
        >::empty());
    }
    while idx < entries.len()
        invariant
            start <= idx <= entries@.len(),
            em == entries_model(entries@),
            em.len() == entries@.len(),
            wsum(em) <= usize::MAX,
            total as int == wsum(em),
            nb == num_books as int,
            nb >= 2,
            run as int >= 0,
            run as int == wsum(em.subrange(start as int, idx as int)),
            books@.len() < nb,
            greedy_books(em, total as int, nb, 0, 0, 0, 0) == books@.map_values(
                |b: (String, Vec<WordFollowEntry>)| entries_model(b.1@),
            ) + greedy_books(
                em,
                total as int,
                nb,
                start as int,
                idx as int,
                run as int,
                books@.len() as int,
            ),
            forall|k: int|
                0 <= k < books@.len() ==> entries_model((#[trigger] books@[k]).1@).len() > 0,
            forall|k: int|
                0 <= k < books@.len() ==> (#[trigger] books@[k]).0@ == book_label(
                    entries_model(books@[k].1@),
                ),
        decreases entries@.len() - idx,
    {
        proof {
            assert(em[idx as int] == entries@[idx as int].model());
            // the step's weight addition stays in bounds
            lemma_wsum_split(em, idx as int);
            lemma_wsum_split(em.skip(idx as int), 1);
            assert(em.skip(idx as int).take(1) =~= seq![em[idx as int]]);
            lemma_wsum_singleton(em[idx as int]);
            assert(wsum(seq![em[idx as int]]) == entry_weight_spec(em[idx as int]));
            assert(em.skip(idx as int).skip(1) =~= em.skip(idx + 1));
            lemma_wsum_nonneg(em.skip(idx + 1));
            lemma_wsum_nonneg(em.take(idx as int));
            // the running weight is part of the prefix weight
            lemma_wsum_split(em.take(idx as int), start as int);
            assert(em.take(idx as int).take(start as int) =~= em.take(start as int));
            assert(em.take(idx as int).skip(start as int) =~= em.subrange(
                start as int,
                idx as int,
            ));
            lemma_wsum_nonneg(em.take(start as int));
            assert(run + entry_weight_spec(em[idx as int]) <= total as int);
            assert(fol_counts_at_least(em[idx as int].1, 0));
            lemma_fol_sum_nonneg(em[idx as int].1);
        }
        let w = entry_weight(&entries[idx]);
        let run2: usize = run + w;
        proof {
            assert(em.subrange(start as int, idx + 1).drop_last() =~= em.subrange(
                start as int,
                idx as int,
            ));
            assert(em.subrange(start as int, idx + 1).last() == em[idx as int]);
            assert(run2 as int == wsum(em.subrange(start as int, idx + 1)));
        }
        proof {
            assert((run2 as u128) * (num_books as u128) <= (u64::MAX as u128) * (u64::MAX
                as u128)) by (nonlinear_arith)
                requires
                    run2 as u128 <= u64::MAX as u128,
                    num_books as u128 <= u64::MAX as u128,
            ;
        }
        let close = (run2 as u128) * (num_books as u128) >= (total as u128) && books.len() + 1
            < num_books;
        if close {
            let bvec = clone_entries_range(entries, start, idx + 1);
            let label = book_label_exec(&bvec);
            let ghost before = books@.map_values(
                |b: (String, Vec<WordFollowEntry>)| entries_model(b.1@),
            );
            books.push((label, bvec));
            proof {
                assert(books@.map_values(
                    |b: (String, Vec<WordFollowEntry>)| entries_model(b.1@),
                ) =~= before.push(em.subrange(start as int, idx + 1)));
                assert(before + (seq![em.subrange(start as int, idx + 1)] + greedy_books(
                    em,
                    total as int,
                    nb,
                    idx + 1,
                    idx + 1,
                    0,
                    before.len() as int + 1,
                )) =~= (before.push(em.subrange(start as int, idx + 1))) + greedy_books(
                    em,
                    total as int,
                    nb,
                    idx + 1,
                    idx + 1,
                    0,
                    before.len() as int + 1,
                ));
            }
            start = idx + 1;
            run = 0;
            proof {
                assert(em.subrange(start as int, start as int) =~= Seq::<
                    (Seq<Seq<char>>, Seq<(Seq<char>, int)>),
                >::empty());
            }
        } else {
            run = run2;
        }
        idx = idx + 1;
    }
    if start < entries.len() {
        let bvec = clone_entries_range(entries, start, entries.len());
        let label = book_label_exec(&bvec);
        let ghost before = books@.map_values(
            |b: (String, Vec<WordFollowEntry>)| entries_model(b.1@),
        );
        books.push((label, bvec));
        proof {
            assert(books@.map_values(|b: (String, Vec<WordFollowEntry>)| entries_model(b.1@)) =~=
                before.push(em.subrange(start as int, em.len() as int)));
            assert(before + seq![em.subrange(start as int, em.len() as int)] =~= before.push(
                em.subrange(start as int, em.len() as int),
            ));
        }
    } else {
        proof {
            assert(books@.map_values(|b: (String, Vec<WordFollowEntry>)| entries_model(b.1@))
                + Seq::<Seq<(Seq<Seq<char>>, Seq<(Seq<char>, int)>)>>::empty() =~= books@.map_values(
                |b: (String, Vec<WordFollowEntry>)| entries_model(b.1@),
            ));
        }
    }
    proof {
        let bm = books@.map_values(|b: (String, Vec<WordFollowEntry>)| entries_model(b.1@));
        assert(split_books_spec(em, nb) == bm);
        assert(forall|k: int|
            0 <= k < books@.len() ==> entries_model((#[trigger] books@[k]).1@) == bm[k]);
    }
    books
}

} // verus!