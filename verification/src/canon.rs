//! Stateful case canonicalization across a whole document.
//!
//! The canonicalizer maintains a map from lower-case spelling to chosen
//! display spelling.  The first spelling observed for a word becomes its
//! canonical form; as soon as a second, different spelling appears, the
//! entry is pinned to the all-lower-case spelling for the rest of the run.
//! The pronoun "I" and its contractions are always rendered in their
//! fixed capitalized forms, overriding this rule.  Because earlier
//! occurrences may have been recorded before an ambiguity was detected,
//! output passes re-resolve every stored token through the finished map
//! with [`Canonicalizer::resolve`].
use vstd::prelude::*;

use crate::preprocessor::{case_exception, case_exception_exec};
use crate::strings::{lemma_lower_idempotent, lower_seq, str_eq, string_lower};

verus! {

/// Association-list lookup: the value of the first entry whose key is `k`.
pub open spec fn map_lookup(m: Seq<(Seq<char>, Seq<char>)>, k: Seq<char>) -> Option<Seq<char>>
    decreases m.len(),
{
    if m.len() == 0 {
        None
    } else if m[0].0 == k {
        Some(m[0].1)
    } else {
        map_lookup(m.drop_first(), k)
    }
}

/// Association-list update: replaces the entry for `k` in place, or
/// appends a new entry at the end when `k` is absent.
pub open spec fn map_set(
    m: Seq<(Seq<char>, Seq<char>)>,
    k: Seq<char>,
    v: Seq<char>,
) -> Seq<(Seq<char>, Seq<char>)>
    decreases m.len(),
{
    if m.len() == 0 {
        seq![(k, v)]
    } else if m[0].0 == k {
        seq![(k, v)] + m.drop_first()
    } else {
        seq![m[0]] + map_set(m.drop_first(), k, v)
    }
}

pub proof fn lemma_map_set_lookup(
    m: Seq<(Seq<char>, Seq<char>)>,
    k: Seq<char>,
    v: Seq<char>,
    k2: Seq<char>,
)
    ensures
        map_lookup(map_set(m, k, v), k2) == if k2 == k {
            Some(v)
        } else {
            map_lookup(m, k2)
        },
    decreases m.len(),
{
    if m.len() == 0 {
        assert(map_set(m, k, v) == seq![(k, v)]);
        assert(map_set(m, k, v).drop_first() =~= Seq::<(Seq<char>, Seq<char>)>::empty());
    } else if m[0].0 == k {
        let r = map_set(m, k, v);
        assert(r == seq![(k, v)] + m.drop_first());
        assert(r[0] == (k, v));
        assert(r.drop_first() =~= m.drop_first());
    } else {
        let r = map_set(m, k, v);
        assert(r == seq![m[0]] + map_set(m.drop_first(), k, v));
        assert(r[0] == m[0]);
        assert(r.drop_first() =~= map_set(m.drop_first(), k, v));
        lemma_map_set_lookup(m.drop_first(), k, v, k2);
    }
}

/// One canonicalization step: returns the updated map and the token as it
/// is recorded.
pub open spec fn canon_step(m: Seq<(Seq<char>, Seq<char>)>, t: Seq<char>) -> (
    Seq<(Seq<char>, Seq<char>)>,
    Seq<char>,
) {
    let l = lower_seq(t);
    match case_exception(l) {
        Some(d) => (m, d),
        None => match map_lookup(m, l) {
            None => (map_set(m, l, t), t),
            Some(v) => if v == t {
                (m, t)
            } else {
                (map_set(m, l, l), l)
            },
        },
    }
}

/// The map after canonicalizing a whole token sequence in order.
pub open spec fn canon_fold(m: Seq<(Seq<char>, Seq<char>)>, ts: Seq<Seq<char>>) -> Seq<
    (Seq<char>, Seq<char>),
> {
    ts.fold_left(m, |acc: Seq<(Seq<char>, Seq<char>)>, t: Seq<char>| canon_step(acc, t).0)
}

/// Final resolution of a token through the finished map: the pronoun
/// override first, then the recorded canonical spelling, then the token
/// itself if its word was never recorded.
pub open spec fn resolve_spec(m: Seq<(Seq<char>, Seq<char>)>, t: Seq<char>) -> Seq<char> {
    let l = lower_seq(t);
    match case_exception(l) {
        Some(d) => d,
        None => match map_lookup(m, l) {
            Some(v) => v,
            None => t,
        },
    }
}

/// The stateful case canonicalizer; one instance lives for a whole run.
#[derive(Debug)]
pub struct Canonicalizer {
    map: Vec<(String, String)>,
}

impl View for Canonicalizer {
    type V = Seq<(Seq<char>, Seq<char>)>;

    closed spec fn view(&self) -> Seq<(Seq<char>, Seq<char>)> {
        self.map.deep_view()
    }
}

impl Canonicalizer {
    /// Keys are distinct lower-case spellings, and every recorded display
    /// spelling lowers to its key.
    pub open spec fn wf(&self) -> bool {
        &&& forall|i: int, j: int| 0 <= i < j < self@.len() ==> self@[i].0 != self@[j].0
        &&& forall|i: int| 0 <= i < self@.len() ==> lower_seq(#[trigger] self@[i].0) == self@[i].0
        &&& forall|i: int|
            0 <= i < self@.len() ==> lower_seq(#[trigger] self@[i].1) == self@[i].0
    }

    pub fn new() -> (r: Canonicalizer)
        ensures
            r.wf(),
            r@ == Seq::<(Seq<char>, Seq<char>)>::empty(),
    {
        let r = Canonicalizer { map: Vec::new() };
        assert(r@ =~= Seq::<(Seq<char>, Seq<char>)>::empty());
        r
    }

    fn find(&self, k: &String) -> (r: Option<usize>)
        ensures
            match r {
                Some(i) => i < self@.len() && self@[i as int].0 == k@ && map_lookup(self@, k@)
                    == Some(self@[i as int].1),
                None => map_lookup(self@, k@) is None && forall|j: int|
                    0 <= j < self@.len() ==> self@[j].0 != k@,
            },
    {
        let mut i: usize = 0;
        while i < self.map.len()
            invariant
                i <= self@.len(),
                self@.len() == self.map@.len(),
                forall|j: int| 0 <= j < i ==> self@[j].0 != k@,
            decreases self@.len() - i,
        {
            if str_eq(self.map[i].0.as_str(), k.as_str()) {
                proof {
                    lemma_map_lookup_indexed(self@, k@, i as int);
                }
                return Some(i);
            }
            i = i + 1;
        }
        proof {
            lemma_map_lookup_absent(self@, k@);
        }
        None
    }

    /// Canonicalizes one token during the streaming pass, updating the
    /// map as the case rules demand, and returns the recorded spelling.
    pub fn canonicalize(&mut self, token: &String) -> (r: String)
        requires
            old(self).wf(),
        ensures
            final(self).wf(),
            (final(self)@, r@) == canon_step(old(self)@, token@),
    {
        let l = string_lower(token);
        match case_exception_exec(&l) {
            Some(d) => {
                return d;
            },
            None => {},
        }
        let ghost m0 = self@;
        match self.find(&l) {
            None => {
                let ghost before = self@;
                self.map.push((l.clone(), token.clone()));
                proof {
                    lemma_lower_idempotent(token@);
                    lemma_map_set_absent(before, l@, token@);
                    assert(self@ =~= before.push((l@, token@)));
                    assert(self@ == map_set(before, l@, token@));
                    lemma_map_set_wf_push(before, l@, token@);
                }
                token.clone()
            },
            Some(i) => {
                if str_eq(self.map[i].1.as_str(), token.as_str()) {
                    token.clone()
                } else {
                    let ghost before = self@;
                    self.map.set(i, (l.clone(), l.clone()));
                    proof {
                        lemma_lower_idempotent(token@);
                        lemma_map_set_indexed(before, l@, l@, i as int);
                        assert(self@ =~= before.update(i as int, (l@, l@)));
                        assert(self@ == map_set(before, l@, l@));
                        lemma_map_set_wf_update(before, l@, l@, i as int);
                    }
                    l
                }
            },
        }
    }

    /// Resolves one token through the finished map, without changing it.
    pub fn resolve(&self, token: &String) -> (r: String)
        ensures
            r@ == resolve_spec(self@, token@),
    {
        let l = string_lower(token);
        match case_exception_exec(&l) {
            Some(d) => {
                return d;
            },
            None => {},
        }
        match self.find(&l) {
            Some(i) => self.map[i].1.clone(),
            None => token.clone(),
        }
    }
}

/// Association-list lookup over a vector of string pairs.
pub fn assoc_get(list: &Vec<(String, String)>, k: &String) -> (r: Option<String>)
    ensures
        match r {
            Some(v) => map_lookup(list.deep_view(), k@) == Some(v@),
            None => map_lookup(list.deep_view(), k@) is None,
        },
{
    let mut i: usize = 0;
    while i < list.len()
        invariant
            i <= list@.len(),
            list.deep_view().len() == list@.len(),
            forall|j: int| 0 <= j < i ==> list.deep_view()[j].0 != k@,
        decreases list@.len() - i,
    {
        if str_eq(list[i].0.as_str(), k.as_str()) {
            proof {
                lemma_map_lookup_indexed(list.deep_view(), k@, i as int);
            }
            return Some(list[i].1.clone());
        }
        i = i + 1;
    }
    proof {
        lemma_map_lookup_absent(list.deep_view(), k@);
    }
    None
}

proof fn lemma_map_lookup_indexed(m: Seq<(Seq<char>, Seq<char>)>, k: Seq<char>, i: int)
    requires
        0 <= i < m.len(),
        m[i].0 == k,
        forall|j: int| 0 <= j < i ==> m[j].0 != k,
    ensures
        map_lookup(m, k) == Some(m[i].1),
    decreases i,
{
    if i > 0 {
        assert(forall|j: int| 0 <= j < i - 1 ==> m.drop_first()[j].0 != k);
        lemma_map_lookup_indexed(m.drop_first(), k, i - 1);
    }
}

proof fn lemma_map_lookup_absent(m: Seq<(Seq<char>, Seq<char>)>, k: Seq<char>)
    requires
        forall|j: int| 0 <= j < m.len() ==> m[j].0 != k,
    ensures
        map_lookup(m, k) is None,
    decreases m.len(),
{
    if m.len() > 0 {
        assert(forall|j: int| 0 <= j < m.drop_first().len() ==> m.drop_first()[j].0 != k);
        lemma_map_lookup_absent(m.drop_first(), k);
    }
}

/// When `k` is absent, `map_set` appends at the end.
proof fn lemma_map_set_absent(m: Seq<(Seq<char>, Seq<char>)>, k: Seq<char>, v: Seq<char>)
    requires
        forall|j: int| 0 <= j < m.len() ==> m[j].0 != k,
    ensures
        map_set(m, k, v) == m.push((k, v)),
    decreases m.len(),
{
    if m.len() == 0 {
        assert(map_set(m, k, v) =~= m.push((k, v)));
    } else {
        assert(forall|j: int| 0 <= j < m.drop_first().len() ==> m.drop_first()[j].0 != k);
        lemma_map_set_absent(m.drop_first(), k, v);
        assert(seq![m[0]] + m.drop_first().push((k, v)) =~= m.push((k, v)));
    }
}

/// When `k` sits at index `i`, `map_set` updates that index in place.
proof fn lemma_map_set_indexed(m: Seq<(Seq<char>, Seq<char>)>, k: Seq<char>, v: Seq<char>, i: int)
    requires
        0 <= i < m.len(),
        m[i].0 == k,
        forall|j: int| 0 <= j < i ==> m[j].0 != k,
    ensures
        map_set(m, k, v) == m.update(i, (k, v)),
    decreases i,
{
    if i == 0 {
        assert(map_set(m, k, v) =~= m.update(0, (k, v)));
    } else {
        assert(forall|j: int| 0 <= j < i - 1 ==> m.drop_first()[j].0 != k);
        lemma_map_set_indexed(m.drop_first(), k, v, i - 1);
        assert(seq![m[0]] + m.drop_first().update(i - 1, (k, v)) =~= m.update(i, (k, v)));
    }
}

proof fn lemma_map_set_wf_push(m: Seq<(Seq<char>, Seq<char>)>, k: Seq<char>, v: Seq<char>)
    requires
        forall|i: int, j: int| 0 <= i < j < m.len() ==> m[i].0 != m[j].0,
        forall|i: int| 0 <= i < m.len() ==> lower_seq(#[trigger] m[i].0) == m[i].0,
        forall|i: int| 0 <= i < m.len() ==> lower_seq(#[trigger] m[i].1) == m[i].0,
        forall|j: int| 0 <= j < m.len() ==> m[j].0 != k,
        lower_seq(k) == k,
        lower_seq(v) == k,
    ensures
        forall|i: int, j: int|
            0 <= i < j < m.push((k, v)).len() ==> m.push((k, v))[i].0 != m.push((k, v))[j].0,
        forall|i: int|
            0 <= i < m.push((k, v)).len() ==> lower_seq(#[trigger] m.push((k, v))[i].0) == m.push(
                (k, v),
            )[i].0,
        forall|i: int|
            0 <= i < m.push((k, v)).len() ==> lower_seq(#[trigger] m.push((k, v))[i].1) == m.push(
                (k, v),
            )[i].0,
{
}

proof fn lemma_map_set_wf_update(
    m: Seq<(Seq<char>, Seq<char>)>,
    k: Seq<char>,
    v: Seq<char>,
    idx: int,
)
    requires
        forall|i: int, j: int| 0 <= i < j < m.len() ==> m[i].0 != m[j].0,
        forall|i: int| 0 <= i < m.len() ==> lower_seq(#[trigger] m[i].0) == m[i].0,
        forall|i: int| 0 <= i < m.len() ==> lower_seq(#[trigger] m[i].1) == m[i].0,
        0 <= idx < m.len(),
        m[idx].0 == k,
        lower_seq(v) == k,
    ensures
        forall|i: int, j: int|
            0 <= i < j < m.update(idx, (k, v)).len() ==> m.update(idx, (k, v))[i].0 != m.update(
                idx,
                (k, v),
            )[j].0,
        forall|i: int|
            0 <= i < m.update(idx, (k, v)).len() ==> lower_seq(
                #[trigger] m.update(idx, (k, v))[i].0,
            ) == m.update(idx, (k, v))[i].0,
        forall|i: int|
            0 <= i < m.update(idx, (k, v)).len() ==> lower_seq(
                #[trigger] m.update(idx, (k, v))[i].1,
            ) == m.update(idx, (k, v))[i].0,
{
}

/// The pronoun "I" and its contractions are always rendered in their
/// fixed capitalized forms, whatever the map holds and however the token
/// is capitalized: canonicalization leaves the map untouched and both
/// canonicalization and final resolution return the fixed spelling.
pub proof fn lemma_pronoun_override(m: Seq<(Seq<char>, Seq<char>)>, t: Seq<char>)
    requires
        case_exception(lower_seq(t)) is Some,
    ensures
        canon_step(m, t) == (m, case_exception(lower_seq(t)).unwrap()),
        resolve_spec(m, t) == case_exception(lower_seq(t)).unwrap(),
{
}

/// A canonicalization step touches no key but the lower case of its token.
proof fn lemma_step_other(m: Seq<(Seq<char>, Seq<char>)>, t: Seq<char>, l: Seq<char>)
    requires
        l != lower_seq(t),
    ensures
        map_lookup(canon_step(m, t).0, l) == map_lookup(m, l),
{
    let lt = lower_seq(t);
    match case_exception(lt) {
        Some(_) => {},
        None => match map_lookup(m, lt) {
            None => {
                lemma_map_set_lookup(m, lt, t, l);
            },
            Some(v) => {
                if v != t {
                    lemma_map_set_lookup(m, lt, lt, l);
                }
            },
        },
    }
}

/// Once a word is pinned to its lower-case spelling, it stays pinned.
proof fn lemma_pin_step(m: Seq<(Seq<char>, Seq<char>)>, t: Seq<char>, l: Seq<char>)
    requires
        map_lookup(m, l) == Some(l),
    ensures
        map_lookup(canon_step(m, t).0, l) == Some(l),
{
    let lt = lower_seq(t);
    if lt != l {
        lemma_step_other(m, t, l);
    } else {
        match case_exception(lt) {
            Some(_) => {},
            None => {
                if l != t {
                    lemma_map_set_lookup(m, lt, lt, l);
                }
            },
        }
    }
}

proof fn lemma_pin_fold(m: Seq<(Seq<char>, Seq<char>)>, ts: Seq<Seq<char>>, l: Seq<char>)
    requires
        map_lookup(m, l) == Some(l),
    ensures
        map_lookup(canon_fold(m, ts), l) == Some(l),
    decreases ts.len(),
{
    if ts.len() > 0 {
        lemma_pin_fold(m, ts.drop_last(), l);
        lemma_pin_step(canon_fold(m, ts.drop_last()), ts.last(), l);
    }
}

/// After a non-pronoun token is canonicalized, its word's entry is either
/// that very spelling or the pinned lower-case spelling; later steps keep
/// it within that pair.
proof fn lemma_stay_in_pair(
    m: Seq<(Seq<char>, Seq<char>)>,
    ts: Seq<Seq<char>>,
    l: Seq<char>,
    w: Seq<char>,
)
    requires
        map_lookup(m, l) == Some(w) || map_lookup(m, l) == Some(l),
    ensures
        map_lookup(canon_fold(m, ts), l) == Some(w) || map_lookup(canon_fold(m, ts), l) == Some(l),
    decreases ts.len(),
{
    if ts.len() > 0 {
        lemma_stay_in_pair(m, ts.drop_last(), l, w);
        let m2 = canon_fold(m, ts.drop_last());
        let t = ts.last();
        let lt = lower_seq(t);
        if lt != l {
            lemma_step_other(m2, t, l);
        } else {
            match case_exception(lt) {
                Some(_) => {},
                None => {
                    match map_lookup(m2, lt) {
                        None => {},
                        Some(v) => {
                            if v != t {
                                lemma_map_set_lookup(m2, lt, lt, l);
                            }
                        },
                    }
                },
            }
        }
    }
}

/// Case convergence: if a non-pronoun word appears with two distinct
/// capitalizations anywhere in the processed token sequence, then after
/// the whole sequence is canonicalized, every spelling of that word
/// resolves to the all-lower-case spelling.
pub proof fn lemma_case_convergence(
    m0: Seq<(Seq<char>, Seq<char>)>,
    ts: Seq<Seq<char>>,
    i: int,
    j: int,
    t: Seq<char>,
)
    requires
        0 <= i < j < ts.len(),
        lower_seq(ts[i]) == lower_seq(ts[j]),
        ts[i] != ts[j],
        case_exception(lower_seq(ts[i])) is None,
        lower_seq(t) == lower_seq(ts[i]),
    ensures
        resolve_spec(canon_fold(m0, ts), t) == lower_seq(ts[i]),
        map_lookup(canon_fold(m0, ts), lower_seq(ts[i])) == Some(lower_seq(ts[i])),
{
    let l = lower_seq(ts[i]);
    // state after the occurrence at i
    let m1 = canon_fold(m0, ts.take(i + 1));
    assert(ts.take(i + 1).drop_last() =~= ts.take(i));
    assert(ts.take(i + 1).last() == ts[i]);
    assert(m1 == canon_step(canon_fold(m0, ts.take(i)), ts[i]).0);
    let mi = canon_fold(m0, ts.take(i));
    match map_lookup(mi, l) {
        None => {
            lemma_map_set_lookup(mi, l, ts[i], l);
        },
        Some(v) => {
            if v != ts[i] {
                lemma_map_set_lookup(mi, l, l, l);
            }
        },
    }
    assert(map_lookup(m1, l) == Some(ts[i]) || map_lookup(m1, l) == Some(l));
    // it stays that spelling or pinned until just before j
    let mid = ts.subrange(i + 1, j);
    let m2 = canon_fold(m1, mid);
    lemma_stay_in_pair(m1, mid, l, ts[i]);
    lemma_canon_fold_concat(m0, ts.take(i + 1), mid);
    assert(ts.take(i + 1) + mid =~= ts.take(j));
    assert(m2 == canon_fold(m0, ts.take(j)));
    // the occurrence at j forces the pin
    let m3 = canon_step(m2, ts[j]).0;
    match map_lookup(m2, l) {
        None => {},
        Some(u) => {
            if u == ts[j] {
                assert(u != ts[i]);
                assert(u == l);
            } else {
                lemma_map_set_lookup(m2, l, l, l);
            }
        },
    }
    assert(map_lookup(m3, l) == Some(l));
    // and the pin survives to the end of the run
    assert(ts.take(j + 1).drop_last() =~= ts.take(j));
    assert(ts.take(j + 1).last() == ts[j]);
    assert(m3 == canon_fold(m0, ts.take(j + 1)));
    lemma_pin_fold(m3, ts.skip(j + 1), l);
    lemma_canon_fold_concat(m0, ts.take(j + 1), ts.skip(j + 1));
    assert(ts.take(j + 1) + ts.skip(j + 1) =~= ts);
    assert(map_lookup(canon_fold(m0, ts), l) == Some(l));
}

/// The structural facts every reachable case map satisfies: keys are
/// lower-case spellings and every stored value lowers to its key.
pub open spec fn canon_map_ok(m: Seq<(Seq<char>, Seq<char>)>) -> bool {
    &&& forall|i: int| 0 <= i < m.len() ==> lower_seq(#[trigger] m[i].0) == m[i].0
    &&& forall|i: int| 0 <= i < m.len() ==> lower_seq(#[trigger] m[i].1) == m[i].0
}

proof fn lemma_map_set_ok(m: Seq<(Seq<char>, Seq<char>)>, k: Seq<char>, v: Seq<char>)
    requires
        canon_map_ok(m),
        lower_seq(k) == k,
        lower_seq(v) == k,
    ensures
        canon_map_ok(map_set(m, k, v)),
    decreases m.len(),
{
    if m.len() == 0 {
    } else if m[0].0 == k {
        let r = map_set(m, k, v);
        assert(forall|i: int| 1 <= i < r.len() ==> r[i] == m[i]);
    } else {
        assert(canon_map_ok(m.drop_first()));
        lemma_map_set_ok(m.drop_first(), k, v);
        let r = map_set(m, k, v);
        assert(r[0] == m[0]);
        assert(forall|i: int| 1 <= i < r.len() ==> r[i] == map_set(m.drop_first(), k, v)[i - 1]);
    }
}

/// The fixed pronoun spellings lower to their own lookup keys.
pub proof fn lemma_case_exception_lower(l: Seq<char>)
    requires
        case_exception(l) is Some,
    ensures
        lower_seq(case_exception(l).unwrap()) == l,
{
    reveal_strlit("i");
    reveal_strlit("I");
    reveal_strlit("i'm");
    reveal_strlit("I'm");
    reveal_strlit("i've");
    reveal_strlit("I've");
    reveal_strlit("i'd");
    reveal_strlit("I'd");
    reveal_strlit("i'll");
    reveal_strlit("I'll");
    if l == "i"@ {
        assert(lower_seq("I"@) =~= "i"@);
    } else if l == "i'm"@ {
        assert(lower_seq("I'm"@) =~= "i'm"@);
    } else if l == "i've"@ {
        assert(lower_seq("I've"@) =~= "i've"@);
    } else if l == "i'd"@ {
        assert(lower_seq("I'd"@) =~= "i'd"@);
    } else {
        assert(l == "i'll"@);
        assert(lower_seq("I'll"@) =~= "i'll"@);
    }
}

proof fn lemma_canon_step_ok(m: Seq<(Seq<char>, Seq<char>)>, t: Seq<char>)
    requires
        canon_map_ok(m),
    ensures
        canon_map_ok(canon_step(m, t).0),
{
    let l = lower_seq(t);
    lemma_lower_idempotent(t);
    match case_exception(l) {
        Some(_) => {},
        None => match map_lookup(m, l) {
            None => {
                lemma_map_set_ok(m, l, t);
            },
            Some(v) => {
                if v != t {
                    lemma_map_set_ok(m, l, l);
                }
            },
        },
    }
}

/// Every reachable case map satisfies the structural facts.
pub proof fn lemma_canon_fold_ok(m: Seq<(Seq<char>, Seq<char>)>, ts: Seq<Seq<char>>)
    requires
        canon_map_ok(m),
    ensures
        canon_map_ok(canon_fold(m, ts)),
    decreases ts.len(),
{
    if ts.len() > 0 {
        lemma_canon_fold_ok(m, ts.drop_last());
        lemma_canon_step_ok(canon_fold(m, ts.drop_last()), ts.last());
    }
}

/// A successful lookup returns a value that lowers to the key.
proof fn lemma_lookup_value_lower(m: Seq<(Seq<char>, Seq<char>)>, k: Seq<char>)
    requires
        canon_map_ok(m),
        map_lookup(m, k) is Some,
    ensures
        lower_seq(map_lookup(m, k).unwrap()) == k,
    decreases m.len(),
{
    if m.len() > 0 {
        if m[0].0 == k {
        } else {
            assert(canon_map_ok(m.drop_first()));
            lemma_lookup_value_lower(m.drop_first(), k);
        }
    }
}

/// Once a word is pinned to its lower-case spelling, final resolution
/// renders that spelling for every string of the word's case class,
/// whatever string the resolution is applied to.
pub proof fn lemma_resolved_word_converged(
    m: Seq<(Seq<char>, Seq<char>)>,
    x: Seq<char>,
    l: Seq<char>,
)
    requires
        canon_map_ok(m),
        map_lookup(m, l) == Some(l),
        case_exception(l) is None,
        lower_seq(resolve_spec(m, x)) == l,
    ensures
        resolve_spec(m, x) == l,
{
    let lx = lower_seq(x);
    let r = resolve_spec(m, x);
    match case_exception(lx) {
        Some(d) => {
            assert(r == d);
            lemma_case_exception_lower(lx);
            assert(lower_seq(d) == lx);
            assert(lx == l);
            assert(false);
        },
        None => match map_lookup(m, lx) {
            Some(v) => {
                assert(r == v);
                lemma_lookup_value_lower(m, lx);
                assert(lower_seq(v) == lx);
                assert(lx == l);
            },
            None => {
                assert(r == x);
                lemma_lower_idempotent(x);
                assert(lx == lower_seq(lx));
                assert(lx == l);
                assert(false);
            },
        },
    }
}

/// The map never holds an entry for the pronoun forms: they are handled
/// by the fixed override before the map is consulted.
pub open spec fn no_pronoun_keys(m: Seq<(Seq<char>, Seq<char>)>) -> bool {
    forall|i: int| 0 <= i < m.len() ==> case_exception((#[trigger] m[i]).0) is None
}

proof fn lemma_map_set_no_pronoun(m: Seq<(Seq<char>, Seq<char>)>, k: Seq<char>, v: Seq<char>)
    requires
        no_pronoun_keys(m),
        case_exception(k) is None,
    ensures
        no_pronoun_keys(map_set(m, k, v)),
    decreases m.len(),
{
    if m.len() == 0 {
    } else if m[0].0 == k {
        let r = map_set(m, k, v);
        assert(forall|i: int| 1 <= i < r.len() ==> r[i] == m[i]);
    } else {
        assert(no_pronoun_keys(m.drop_first()));
        lemma_map_set_no_pronoun(m.drop_first(), k, v);
        let r = map_set(m, k, v);
        assert(r[0] == m[0]);
        assert(forall|i: int| 1 <= i < r.len() ==> r[i] == map_set(m.drop_first(), k, v)[i - 1]);
    }
}

/// Every reachable case map is free of pronoun keys.
pub proof fn lemma_canon_fold_no_pronoun(m: Seq<(Seq<char>, Seq<char>)>, ts: Seq<Seq<char>>)
    requires
        no_pronoun_keys(m),
    ensures
        no_pronoun_keys(canon_fold(m, ts)),
    decreases ts.len(),
{
    if ts.len() > 0 {
        lemma_canon_fold_no_pronoun(m, ts.drop_last());
        let m2 = canon_fold(m, ts.drop_last());
        let t = ts.last();
        let l = lower_seq(t);
        match case_exception(l) {
            Some(_) => {},
            None => match map_lookup(m2, l) {
                None => {
                    lemma_map_set_no_pronoun(m2, l, t);
                },
                Some(v) => {
                    if v != t {
                        lemma_map_set_no_pronoun(m2, l, l);
                    }
                },
            },
        }
    }
}

proof fn lemma_lookup_key_member(m: Seq<(Seq<char>, Seq<char>)>, k: Seq<char>)
    requires
        map_lookup(m, k) is Some,
    ensures
        exists|i: int| 0 <= i < m.len() && (#[trigger] m[i]).0 == k,
    decreases m.len(),
{
    if m.len() > 0 {
        if m[0].0 == k {
        } else {
            lemma_lookup_key_member(m.drop_first(), k);
            let i = choose|i: int|
                0 <= i < m.drop_first().len() && (#[trigger] m.drop_first()[i]).0 == k;
            assert(m[i + 1] == m.drop_first()[i]);
        }
    }
}

/// Final resolution renders the fixed capitalized spelling for every
/// string of a pronoun's case class, whatever string the resolution is
/// applied to and whatever the map holds.
pub proof fn lemma_resolved_word_pronoun(
    m: Seq<(Seq<char>, Seq<char>)>,
    x: Seq<char>,
    l: Seq<char>,
)
    requires
        canon_map_ok(m),
        no_pronoun_keys(m),
        case_exception(l) is Some,
        lower_seq(resolve_spec(m, x)) == l,
    ensures
        resolve_spec(m, x) == case_exception(l).unwrap(),
{
    let lx = lower_seq(x);
    let r = resolve_spec(m, x);
    match case_exception(lx) {
        Some(d) => {
            assert(r == d);
            lemma_case_exception_lower(lx);
            assert(lower_seq(d) == lx);
            assert(lx == l);
        },
        None => match map_lookup(m, lx) {
            Some(v) => {
                assert(r == v);
                lemma_lookup_value_lower(m, lx);
                assert(lx == l);
                lemma_lookup_key_member(m, lx);
                assert(false);
            },
            None => {
                assert(r == x);
                assert(lx == l);
                assert(false);
            },
        },
    }
}

/// Folding over a concatenation is folding over each part in turn.
proof fn lemma_canon_fold_concat(
    m: Seq<(Seq<char>, Seq<char>)>,
    a: Seq<Seq<char>>,
    b: Seq<Seq<char>>,
)
    ensures
        canon_fold(m, a + b) == canon_fold(canon_fold(m, a), b),
    decreases b.len(),
{
    if b.len() == 0 {
        assert(a + b =~= a);
    } else {
        assert((a + b).drop_last() =~= a + b.drop_last());
        assert((a + b).last() == b.last());
        lemma_canon_fold_concat(m, a, b.drop_last());
    }
}

} // verus!
