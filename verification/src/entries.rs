//! The externally visible follow-table entries, the orders they are
//! sorted by, and a verified insertion sort used to produce them.
use vstd::prelude::*;

use crate::strings::{cmp3, lemma_cmp3_antisym, lemma_cmp3_trans, lemma_cmp3_zero, lower_seq};

verus! {

/// An n-gram prefix: an ordered sequence of tokens.
#[derive(Debug, PartialEq, Eq, Hash, Clone)]
pub struct NGramPrefix(pub Vec<String>);

/// One entry of the follow table: a prefix and its followers with their
/// occurrence counts, in descending-count order.
#[derive(Debug, PartialEq, Clone)]
pub struct WordFollowEntry {
    pub prefix: Vec<String>,
    pub followers: Vec<(String, usize)>,
}

impl WordFollowEntry {
    /// The entry as mathematical data: token sequences and integer counts.
    pub open spec fn model(&self) -> (Seq<Seq<char>>, Seq<(Seq<char>, int)>) {
        (self.prefix.deep_view(), fol_view(self.followers.deep_view()))
    }
}

/// A copy of a string vector, element by element.
pub fn clone_string_vec(v: &Vec<String>) -> (r: Vec<String>)
    ensures
        r@ == v@,
{
    let mut r: Vec<String> = Vec::new();
    let mut i: usize = 0;
    while i < v.len()
        invariant
            i <= v@.len(),
            r@ == v@.take(i as int),
        decreases v@.len() - i,
    {
        r.push(v[i].clone());
        i = i + 1;
        assert(r@ =~= v@.take(i as int));
    }
    assert(r@ =~= v@);
    r
}

/// A copy of a follower list, element by element.
pub fn clone_followers(v: &Vec<(String, usize)>) -> (r: Vec<(String, usize)>)
    ensures
        r@ == v@,
{
    let mut r: Vec<(String, usize)> = Vec::new();
    let mut i: usize = 0;
    while i < v.len()
        invariant
            i <= v@.len(),
            r@ == v@.take(i as int),
        decreases v@.len() - i,
    {
        r.push((v[i].0.clone(), v[i].1));
        assert((v[i as int].0, v[i as int].1) == v@[i as int]);
        i = i + 1;
        assert(r@ =~= v@.take(i as int));
    }
    assert(r@ =~= v@);
    r
}

/// A copy of an entry; equal to the original in all its contents.
pub fn clone_entry(e: &WordFollowEntry) -> (r: WordFollowEntry)
    ensures
        r.prefix@ == e.prefix@,
        r.followers@ == e.followers@,
        r.model() == e.model(),
{
    WordFollowEntry { prefix: clone_string_vec(&e.prefix), followers: clone_followers(&e.followers) }
}

/// Follower lists with counts widened to `int`.
pub open spec fn fol_view(s: Seq<(Seq<char>, usize)>) -> Seq<(Seq<char>, int)> {
    s.map_values(|p: (Seq<char>, usize)| (p.0, p.1 as int))
}

/// Strict order on followers: larger count first; on equal counts,
/// case-insensitively smaller word first.
pub open spec fn fol_lt(a: (Seq<char>, int), b: (Seq<char>, int)) -> bool {
    a.1 > b.1 || (a.1 == b.1 && cmp3(lower_seq(a.0), lower_seq(b.0)) < 0)
}

/// Three-way case-insensitive order on prefixes: word by word, with a
/// shorter prefix before any longer one it is a leading sequence of.
pub open spec fn prefix_cmp(a: Seq<Seq<char>>, b: Seq<Seq<char>>) -> int
    decreases a.len(),
{
    if a.len() == 0 && b.len() == 0 {
        0int
    } else if a.len() == 0 {
        -1int
    } else if b.len() == 0 {
        1int
    } else {
        let c = cmp3(lower_seq(a[0]), lower_seq(b[0]));
        if c != 0 {
            c
        } else {
            prefix_cmp(a.drop_first(), b.drop_first())
        }
    }
}

/// Strict order on entries: by prefix alone.
pub open spec fn entry_lt(a: (Seq<Seq<char>>, Seq<(Seq<char>, int)>), b: (Seq<Seq<char>>, Seq<(Seq<char>, int)>)) -> bool {
    prefix_cmp(a.0, b.0) < 0
}

pub proof fn lemma_prefix_cmp_antisym(a: Seq<Seq<char>>, b: Seq<Seq<char>>)
    ensures
        prefix_cmp(a, b) == -prefix_cmp(b, a),
    decreases a.len(),
{
    if a.len() > 0 && b.len() > 0 {
        lemma_cmp3_antisym(lower_seq(a[0]), lower_seq(b[0]));
        if cmp3(lower_seq(a[0]), lower_seq(b[0])) == 0 {
            lemma_prefix_cmp_antisym(a.drop_first(), b.drop_first());
        }
    }
}

pub proof fn lemma_prefix_cmp_trans(a: Seq<Seq<char>>, b: Seq<Seq<char>>, c: Seq<Seq<char>>)
    requires
        prefix_cmp(a, b) <= 0,
        prefix_cmp(b, c) <= 0,
    ensures
        prefix_cmp(a, c) <= 0,
        prefix_cmp(a, b) < 0 || prefix_cmp(b, c) < 0 ==> prefix_cmp(a, c) < 0,
    decreases a.len() + b.len() + c.len(),
{
    if a.len() == 0 {
        if c.len() == 0 {
            assert(b.len() == 0);
        }
    } else {
        assert(b.len() > 0);
        assert(c.len() > 0);
        let ab = cmp3(lower_seq(a[0]), lower_seq(b[0]));
        let bc = cmp3(lower_seq(b[0]), lower_seq(c[0]));
        lemma_cmp3_zero(lower_seq(a[0]), lower_seq(b[0]));
        lemma_cmp3_zero(lower_seq(b[0]), lower_seq(c[0]));
        lemma_cmp3_trans(lower_seq(a[0]), lower_seq(b[0]), lower_seq(c[0]));
        if ab == 0 && bc == 0 {
            assert(lower_seq(a[0]) == lower_seq(b[0]));
            assert(cmp3(lower_seq(a[0]), lower_seq(c[0])) == 0);
            lemma_prefix_cmp_trans(a.drop_first(), b.drop_first(), c.drop_first());
        } else if ab == 0 {
            assert(lower_seq(a[0]) == lower_seq(b[0]));
            assert(cmp3(lower_seq(a[0]), lower_seq(c[0])) == bc);
        } else if bc == 0 {
            assert(lower_seq(b[0]) == lower_seq(c[0]));
            assert(cmp3(lower_seq(a[0]), lower_seq(c[0])) == ab);
        } else {
            assert(cmp3(lower_seq(a[0]), lower_seq(c[0])) < 0);
        }
    }
}

/// The follower order as a function value, for sort specifications.
pub open spec fn fol_lt_fn() -> spec_fn((Seq<char>, int), (Seq<char>, int)) -> bool {
    |a: (Seq<char>, int), b: (Seq<char>, int)| fol_lt(a, b)
}

/// The entry order as a function value, for sort specifications.
pub open spec fn entry_lt_fn() -> spec_fn(
    (Seq<Seq<char>>, Seq<(Seq<char>, int)>),
    (Seq<Seq<char>>, Seq<(Seq<char>, int)>),
) -> bool {
    |a: (Seq<Seq<char>>, Seq<(Seq<char>, int)>), b: (Seq<Seq<char>>, Seq<(Seq<char>, int)>)|
        entry_lt(a, b)
}

/// Insertion of `x` into `s` before the first element it must strictly
/// precede.
pub open spec fn insort<T>(lt: spec_fn(T, T) -> bool, x: T, s: Seq<T>) -> Seq<T>
    decreases s.len(),
{
    if s.len() == 0 {
        seq![x]
    } else if lt(x, s[0]) {
        seq![x] + s
    } else {
        seq![s[0]] + insort(lt, x, s.drop_first())
    }
}

/// Stable insertion sort: elements are inserted in input order.
pub open spec fn sort_by_ins<T>(lt: spec_fn(T, T) -> bool, s: Seq<T>) -> Seq<T>
    decreases s.len(),
{
    if s.len() == 0 {
        Seq::<T>::empty()
    } else {
        insort(lt, s.last(), sort_by_ins(lt, s.drop_last()))
    }
}

/// Non-decreasing with respect to the strict order `lt`.
pub open spec fn sorted_leq<T>(lt: spec_fn(T, T) -> bool, s: Seq<T>) -> bool {
    forall|i: int, j: int| 0 <= i < j < s.len() ==> !lt(s[j], s[i])
}

/// Inserting at the position found by a left-to-right scan is `insort`.
pub proof fn lemma_insort_at<T>(lt: spec_fn(T, T) -> bool, x: T, s: Seq<T>, idx: int)
    requires
        0 <= idx <= s.len(),
        forall|j: int| 0 <= j < idx ==> !lt(x, s[j]),
        idx < s.len() ==> lt(x, s[idx]),
    ensures
        insort(lt, x, s) == s.insert(idx, x),
    decreases idx,
{
    if idx == 0 {
        if s.len() == 0 {
            assert(insort(lt, x, s) =~= s.insert(0, x));
        } else {
            assert(lt(x, s[0]));
            assert(seq![x] + s =~= s.insert(0, x));
        }
    } else {
        assert(!lt(x, s[0]));
        assert(forall|j: int| 0 <= j < idx - 1 ==> !lt(x, s.drop_first()[j]));
        assert(idx - 1 < s.drop_first().len() ==> lt(x, s.drop_first()[idx - 1]));
        lemma_insort_at(lt, x, s.drop_first(), idx - 1);
        assert(seq![s[0]] + s.drop_first().insert(idx - 1, x) =~= s.insert(idx, x));
    }
}

/// Inserting at the scanned position keeps the list sorted, provided the
/// strict order is asymmetric and its complement is transitive.
pub proof fn lemma_insert_at_sorted<T>(lt: spec_fn(T, T) -> bool, x: T, s: Seq<T>, idx: int)
    requires
        0 <= idx <= s.len(),
        forall|j: int| 0 <= j < idx ==> !lt(x, s[j]),
        idx < s.len() ==> lt(x, s[idx]),
        sorted_leq(lt, s),
        forall|a: T, b: T| #[trigger] lt(a, b) ==> !lt(b, a),
        forall|a: T, b: T, c: T| #![trigger lt(b, a), lt(c, b)] !lt(b, a) && !lt(c, b) ==> !lt(c, a),
    ensures
        sorted_leq(lt, s.insert(idx, x)),
{
    let r = s.insert(idx, x);
    assert forall|i: int, j: int| 0 <= i < j < r.len() implies !lt(r[j], r[i]) by {
        if i == idx {
            // r[i] == x, r[j] is an old element at position j - 1 >= idx
            assert(r[j] == s[j - 1]);
            if idx < s.len() {
                assert(lt(x, s[idx]));
                assert(!lt(s[idx], x));
                if j - 1 > idx {
                    assert(!lt(s[j - 1], s[idx]));
                }
            }
        } else if j == idx {
            // r[j] == x, r[i] is an old element at position i < idx
            assert(r[i] == s[i]);
            assert(!lt(x, s[i]));
        } else {
            let i0 = if i < idx { i } else { i - 1 };
            let j0 = if j < idx { j } else { j - 1 };
            assert(r[i] == s[i0]);
            assert(r[j] == s[j0]);
            assert(!lt(s[j0], s[i0]));
        }
    }
}

/// The follower order is asymmetric and its complement is transitive.
pub proof fn lemma_fol_order()
    ensures
        forall|a: (Seq<char>, int), b: (Seq<char>, int)| #[trigger] fol_lt(a, b) ==> !fol_lt(b, a),
        forall|a: (Seq<char>, int), b: (Seq<char>, int), c: (Seq<char>, int)|
            #![trigger fol_lt(b, a), fol_lt(c, b)]
            !fol_lt(b, a) && !fol_lt(c, b) ==> !fol_lt(c, a),
{
    assert forall|a: (Seq<char>, int), b: (Seq<char>, int)| #[trigger] fol_lt(a, b) implies !fol_lt(
        b,
        a,
    ) by {
        lemma_cmp3_antisym(lower_seq(a.0), lower_seq(b.0));
    }
    assert forall|a: (Seq<char>, int), b: (Seq<char>, int), c: (Seq<char>, int)|
        !fol_lt(b, a) && !fol_lt(c, b) implies !fol_lt(c, a) by {
        if fol_lt(c, a) {
            lemma_cmp3_antisym(lower_seq(a.0), lower_seq(b.0));
            lemma_cmp3_antisym(lower_seq(b.0), lower_seq(c.0));
            lemma_cmp3_antisym(lower_seq(a.0), lower_seq(c.0));
            lemma_cmp3_zero(lower_seq(a.0), lower_seq(b.0));
            lemma_cmp3_zero(lower_seq(b.0), lower_seq(c.0));
            if a.1 == b.1 && b.1 == c.1 {
                lemma_cmp3_trans(lower_seq(a.0), lower_seq(b.0), lower_seq(c.0));
            }
        }
    }
}

/// The entry order is asymmetric and its complement is transitive.
pub proof fn lemma_entry_order()
    ensures
        forall|a: (Seq<Seq<char>>, Seq<(Seq<char>, int)>), b: (Seq<Seq<char>>, Seq<(Seq<char>, int)>)|
            #[trigger] entry_lt(a, b) ==> !entry_lt(b, a),
        forall|
            a: (Seq<Seq<char>>, Seq<(Seq<char>, int)>),
            b: (Seq<Seq<char>>, Seq<(Seq<char>, int)>),
            c: (Seq<Seq<char>>, Seq<(Seq<char>, int)>),
        |
            #![trigger entry_lt(b, a), entry_lt(c, b)]
            !entry_lt(b, a) && !entry_lt(c, b) ==> !entry_lt(c, a),
{
    assert forall|
        a: (Seq<Seq<char>>, Seq<(Seq<char>, int)>),
        b: (Seq<Seq<char>>, Seq<(Seq<char>, int)>),
    | #[trigger] entry_lt(a, b) implies !entry_lt(b, a) by {
        lemma_prefix_cmp_antisym(a.0, b.0);
    }
    assert forall|
        a: (Seq<Seq<char>>, Seq<(Seq<char>, int)>),
        b: (Seq<Seq<char>>, Seq<(Seq<char>, int)>),
        c: (Seq<Seq<char>>, Seq<(Seq<char>, int)>),
    | !entry_lt(b, a) && !entry_lt(c, b) implies !entry_lt(c, a) by {
        if entry_lt(c, a) {
            lemma_prefix_cmp_antisym(a.0, b.0);
            lemma_prefix_cmp_antisym(b.0, c.0);
            lemma_prefix_cmp_antisym(a.0, c.0);
            lemma_prefix_cmp_trans(a.0, b.0, c.0);
        }
    }
}

/// Case-insensitive comparison of two follower pairs, as the follower
/// sort needs it.
fn fol_lt_exec(a: &(String, usize), b: &(String, usize)) -> (r: bool)
    ensures
        r == fol_lt((a.0@, a.1 as int), (b.0@, b.1 as int)),
{
    if a.1 > b.1 {
        true
    } else if a.1 == b.1 {
        crate::strings::cmp_ci(a.0.as_str(), b.0.as_str()) < 0
    } else {
        false
    }
}

proof fn lemma_prefix_cmp_skip(a: Seq<Seq<char>>, b: Seq<Seq<char>>, k: int)
    requires
        0 <= k <= a.len(),
        k <= b.len(),
        forall|j: int| 0 <= j < k ==> lower_seq(a[j]) == lower_seq(b[j]),
    ensures
        prefix_cmp(a, b) == prefix_cmp(a.skip(k), b.skip(k)),
    decreases k,
{
    if k > 0 {
        assert(a.len() > 0 && b.len() > 0);
        assert(lower_seq(a[0]) == lower_seq(b[0]));
        lemma_cmp3_zero(lower_seq(a[0]), lower_seq(b[0]));
        assert(forall|j: int|
            0 <= j < k - 1 ==> lower_seq(a.drop_first()[j]) == lower_seq(b.drop_first()[j]));
        lemma_prefix_cmp_skip(a.drop_first(), b.drop_first(), k - 1);
        assert(a.drop_first().skip(k - 1) =~= a.skip(k));
        assert(b.drop_first().skip(k - 1) =~= b.skip(k));
    } else {
        assert(a.skip(0) =~= a);
        assert(b.skip(0) =~= b);
    }
}

/// Case-insensitive three-way comparison of two prefixes, word by word,
/// shorter first on a shared lead.
pub fn prefix_cmp_exec(a: &Vec<String>, b: &Vec<String>) -> (r: i32)
    ensures
        r == prefix_cmp(a.deep_view(), b.deep_view()),
{
    let na = a.len();
    let nb = b.len();
    let mut i: usize = 0;
    loop
        invariant
            i <= na,
            i <= nb,
            na == a@.len(),
            nb == b@.len(),
            a.deep_view().len() == na,
            b.deep_view().len() == nb,
            forall|j: int|
                0 <= j < i ==> lower_seq(a.deep_view()[j]) == lower_seq(b.deep_view()[j]),
        decreases na - i,
    {
        proof {
            lemma_prefix_cmp_skip(a.deep_view(), b.deep_view(), i as int);
        }
        if i >= na && i >= nb {
            return 0;
        }
        if i >= na {
            return -1;
        }
        if i >= nb {
            return 1;
        }
        let c = crate::strings::cmp_ci(a[i].as_str(), b[i].as_str());
        if c != 0 {
            proof {
                assert(a.deep_view().skip(i as int)[0] == a.deep_view()[i as int]);
                assert(b.deep_view().skip(i as int)[0] == b.deep_view()[i as int]);
            }
            return c;
        }
        proof {
            lemma_cmp3_zero(lower_seq(a.deep_view()[i as int]), lower_seq(b.deep_view()[i as int]));
        }
        i = i + 1;
    }
}

/// Sorts a follower list by descending count, ties broken
/// case-insensitively alphabetically; stable, so the result is exactly
/// the insertion sort of the input.
pub fn sort_followers(v: &Vec<(String, usize)>) -> (r: Vec<(String, usize)>)
    ensures
        fol_view(r.deep_view()) == sort_by_ins(fol_lt_fn(), fol_view(v.deep_view())),
        sorted_leq(fol_lt_fn(), fol_view(r.deep_view())),
{
    let ghost lt = fol_lt_fn();
    let mut r: Vec<(String, usize)> = Vec::new();
    let mut i: usize = 0;
    proof {
        assert(fol_view(v.deep_view().take(0)) =~= Seq::<(Seq<char>, int)>::empty());
        assert(fol_view(r.deep_view()) =~= Seq::<(Seq<char>, int)>::empty());
    }
    while i < v.len()
        invariant
            i <= v@.len(),
            v.deep_view().len() == v@.len(),
            r@.len() == i,
            fol_view(r.deep_view()) == sort_by_ins(lt, fol_view(v.deep_view().take(i as int))),
            sorted_leq(lt, fol_view(r.deep_view())),
            lt == fol_lt_fn(),
        decreases v@.len() - i,
    {
        let x = (v[i].0.clone(), v[i].1);
        let ghost xm = (x.0@, x.1 as int);
        let ghost rv = fol_view(r.deep_view());
        let mut pos: usize = 0;
        loop
            invariant_except_break
                pos <= r@.len(),
                rv == fol_view(r.deep_view()),
                rv.len() == r@.len(),
                forall|j: int| 0 <= j < pos ==> !lt(xm, rv[j]),
                xm == (x.0@, x.1 as int),
                lt == fol_lt_fn(),
            ensures
                pos <= rv.len(),
                forall|j: int| 0 <= j < pos ==> !lt(xm, rv[j]),
                pos < rv.len() ==> lt(xm, rv[pos as int]),
            decreases r@.len() - pos,
        {
            if pos >= r.len() {
                break;
            }
            if fol_lt_exec(&x, &r[pos]) {
                assert(lt(xm, rv[pos as int]));
                break;
            }
            pos = pos + 1;
        }
        proof {
            lemma_insort_at(lt, xm, rv, pos as int);
            lemma_fol_order();
            lemma_insert_at_sorted(lt, xm, rv, pos as int);
        }
        r.insert(pos, x);
        proof {
            assert(fol_view(r.deep_view()) =~= rv.insert(pos as int, xm));
            assert(fol_view(v.deep_view().take(i + 1)).drop_last() =~= fol_view(
                v.deep_view().take(i as int),
            ));
            assert(fol_view(v.deep_view().take(i + 1)).last() == xm);
        }
        i = i + 1;
    }
    proof {
        assert(v.deep_view().take(v@.len() as int) =~= v.deep_view());
    }
    r
}

/// Sorts entries by case-insensitive prefix order; stable, so the result
/// is exactly the insertion sort of the input.
pub fn sort_entries(v: &Vec<WordFollowEntry>) -> (r: Vec<WordFollowEntry>)
    ensures
        entries_model(r@) == sort_by_ins(entry_lt_fn(), entries_model(v@)),
        sorted_leq(entry_lt_fn(), entries_model(r@)),
{
    let ghost lt = entry_lt_fn();
    let mut r: Vec<WordFollowEntry> = Vec::new();
    let mut i: usize = 0;
    proof {
        assert(entries_model(v@.take(0)) =~= Seq::<(Seq<Seq<char>>, Seq<(Seq<char>, int)>)>::empty());
        assert(entries_model(r@) =~= Seq::<(Seq<Seq<char>>, Seq<(Seq<char>, int)>)>::empty());
    }
    while i < v.len()
        invariant
            i <= v@.len(),
            r@.len() == i,
            entries_model(r@) == sort_by_ins(lt, entries_model(v@.take(i as int))),
            sorted_leq(lt, entries_model(r@)),
            lt == entry_lt_fn(),
        decreases v@.len() - i,
    {
        let x = clone_entry(&v[i]);
        assert(x.model() == v@[i as int].model());
        let ghost xm = x.model();
        let ghost rv = entries_model(r@);
        let mut pos: usize = 0;
        loop
            invariant_except_break
                pos <= r@.len(),
                rv == entries_model(r@),
                rv.len() == r@.len(),
                forall|j: int| 0 <= j < pos ==> !lt(xm, rv[j]),
                xm == x.model(),
                lt == entry_lt_fn(),
            ensures
                pos <= rv.len(),
                forall|j: int| 0 <= j < pos ==> !lt(xm, rv[j]),
                pos < rv.len() ==> lt(xm, rv[pos as int]),
            decreases r@.len() - pos,
        {
            if pos >= r.len() {
                break;
            }
            if prefix_cmp_exec(&x.prefix, &r[pos].prefix) < 0 {
                assert(lt(xm, rv[pos as int]));
                break;
            }
            pos = pos + 1;
        }
        proof {
            lemma_insort_at(lt, xm, rv, pos as int);
            lemma_entry_order();
            lemma_insert_at_sorted(lt, xm, rv, pos as int);
        }
        r.insert(pos, x);
        proof {
            assert(entries_model(r@) =~= rv.insert(pos as int, xm));
            assert(entries_model(v@.take(i + 1)).drop_last() =~= entries_model(
                v@.take(i as int),
            ));
            assert(entries_model(v@.take(i + 1)).last() == xm);
        }
        i = i + 1;
    }
    proof {
        assert(v@.take(v@.len() as int) =~= v@);
    }
    r
}

/// The entries of a list, as mathematical data.
pub open spec fn entries_model(s: Seq<WordFollowEntry>) -> Seq<
    (Seq<Seq<char>>, Seq<(Seq<char>, int)>),
> {
    s.map_values(|e: WordFollowEntry| e.model())
}

/// Everything in an insertion is the inserted element or was there before.
pub proof fn lemma_insort_contains<T>(lt: spec_fn(T, T) -> bool, x: T, s: Seq<T>, y: T)
    requires
        insort(lt, x, s).contains(y),
    ensures
        y == x || s.contains(y),
    decreases s.len(),
{
    if s.len() == 0 {
    } else if lt(x, s[0]) {
        let r = seq![x] + s;
        let i = choose|i: int| 0 <= i < r.len() && r[i] == y;
        if i > 0 {
            assert(s[i - 1] == y);
        }
    } else {
        let r = seq![s[0]] + insort(lt, x, s.drop_first());
        let i = choose|i: int| 0 <= i < r.len() && r[i] == y;
        if i == 0 {
            assert(s[0] == y);
        } else {
            assert(insort(lt, x, s.drop_first()).contains(y)) by {
                assert(insort(lt, x, s.drop_first())[i - 1] == y);
            }
            lemma_insort_contains(lt, x, s.drop_first(), y);
            if s.drop_first().contains(y) {
                let j = choose|j: int| 0 <= j < s.drop_first().len() && s.drop_first()[j] == y;
                assert(s[j + 1] == y);
            }
        }
    }
}

/// Everything in the sorted sequence was in the input.
pub proof fn lemma_sort_contains<T>(lt: spec_fn(T, T) -> bool, s: Seq<T>, y: T)
    requires
        sort_by_ins(lt, s).contains(y),
    ensures
        s.contains(y),
    decreases s.len(),
{
    if s.len() > 0 {
        lemma_insort_contains(lt, s.last(), sort_by_ins(lt, s.drop_last()), y);
        if y == s.last() {
            assert(s[s.len() - 1] == y);
        } else {
            lemma_sort_contains(lt, s.drop_last(), y);
            let j = choose|j: int| 0 <= j < s.drop_last().len() && s.drop_last()[j] == y;
            assert(s[j] == y);
        }
    }
}

} // verus!
