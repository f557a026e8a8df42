//! Turning one follow-table entry into dice-ready output: cumulative
//! counts, the primary d-scaling onto `[1, D]`, the digit-range fallback
//! onto `[0, 10^k - 1]`, and a raw mode that keeps exact counts.
use vstd::prelude::*;

use crate::counter::{fol_sum, lemma_fol_sum_nonneg, lemma_fol_sum_split, fol_counts_at_least};
use crate::entries::{fol_view, WordFollowEntry};
use crate::strings::num_digits;

verus! {

/// Ten to the `k`, for non-negative `k`.
pub open spec fn pow10(k: int) -> int
    decreases k,
{
    if k <= 0 {
        1int
    } else {
        10 * pow10(k - 1)
    }
}

pub proof fn lemma_pow10_pos(k: int)
    ensures
        pow10(k) >= 1,
    decreases k,
{
    if k > 0 {
        lemma_pow10_pos(k - 1);
    }
}

/// Every non-negative integer is below ten to its digit count.
pub proof fn lemma_below_pow10(n: int)
    requires
        n >= 0,
    ensures
        n < pow10(num_digits(n)),
    decreases n,
{
    if n < 10 {
        assert(pow10(0) == 1);
        assert(pow10(1) == 10);
    } else {
        lemma_below_pow10(n / 10);
        assert(n == 10 * (n / 10) + n % 10);
        assert(n % 10 < 10);
        assert(n < 10 * (n / 10 + 1));
        assert(10 * (n / 10 + 1) <= 10 * pow10(num_digits(n / 10))) by (nonlinear_arith)
            requires
                n / 10 + 1 <= pow10(num_digits(n / 10)),
        ;
    }
}

pub proof fn lemma_pow10_monotone(a: int, b: int)
    requires
        a <= b,
    ensures
        pow10(a) <= pow10(b),
    decreases b,
{
    if b > 0 && a < b {
        lemma_pow10_monotone(a, b - 1);
        lemma_pow10_pos(b - 1);
    }
}

/// The ceiling of `a / b` for non-negative `a` and positive `b`.
pub open spec fn ceil_div(a: int, b: int) -> int {
    a / b + if a % b == 0 {
        0int
    } else {
        1int
    }
}

/// `a / b` rounded to the nearest integer, halves away from zero, for
/// non-negative `a` and positive `b`.
pub open spec fn round_div(a: int, b: int) -> int {
    if 2 * (a % b) >= b {
        a / b + 1
    } else {
        a / b
    }
}

/// The words of a prefix joined with single spaces.
pub open spec fn join_spec(ws: Seq<Seq<char>>) -> Seq<char>
    decreases ws.len(),
{
    if ws.len() == 0 {
        Seq::<char>::empty()
    } else if ws.len() == 1 {
        ws[0]
    } else {
        join_spec(ws.drop_last()) + " "@ + ws.last()
    }
}

/// The follower names of an entry, in stored order.
pub open spec fn names_of(fl: Seq<(Seq<char>, int)>) -> Seq<Seq<char>> {
    fl.map_values(|pr: (Seq<char>, int)| pr.0)
}

/// The running cumulative counts of an entry, in stored order; the last
/// one is the entry's total.
pub open spec fn cums_of(fl: Seq<(Seq<char>, int)>) -> Seq<int> {
    Seq::new(fl.len(), |i: int| fol_sum(fl.take(i + 1)))
}

/// Names and values paired back up, position by position.
pub open spec fn pair_up(names: Seq<Seq<char>>, vals: Seq<int>) -> Seq<(Seq<char>, int)> {
    Seq::new(names.len(), |i: int| (names[i], vals[i]))
}

/// One d-scaling value: the ceiling-scaled cumulative count, clamped to
/// at least 1, at least one more than the previous value, and at most d.
pub open spec fn dstep(c: int, total: int, d: int, prev: int) -> int {
    let a1 = if ceil_div(c * d, total) < 1 {
        1int
    } else {
        ceil_div(c * d, total)
    };
    let a2 = if a1 < prev + 1 {
        prev + 1
    } else {
        a1
    };
    if a2 > d {
        d
    } else {
        a2
    }
}

/// The d-scaled cumulative sequence, starting above `prev`: every value
/// clamped as `dstep` says, the last forced to exactly `d`; `None` when
/// strict growth cannot be kept, which flags the prefix as unscalable
/// under d-scaling.
pub open spec fn dscale_from(cums: Seq<int>, total: int, d: int, prev: int) -> Option<Seq<int>>
    decreases cums.len(),
{
    if cums.len() == 0 {
        Some(Seq::<int>::empty())
    } else if cums.len() == 1 {
        if prev < d {
            Some(seq![d])
        } else {
            None
        }
    } else {
        let v = dstep(cums[0], total, d, prev);
        if v <= prev {
            None
        } else {
            match dscale_from(cums.drop_first(), total, d, v) {
                Some(s) => Some(seq![v] + s),
                None => None,
            }
        }
    }
}

pub open spec fn dscale(cums: Seq<int>, total: int, d: int) -> Option<Seq<int>> {
    dscale_from(cums, total, d, 0)
}

/// When d-scaling succeeds, its output has one value per cumulative
/// count, every value lies strictly above `prev` and at most `d`, the
/// sequence is strictly increasing, and the last value is exactly `d`.
pub proof fn lemma_dscale_monotone(cums: Seq<int>, total: int, d: int, prev: int)
    requires
        dscale_from(cums, total, d, prev) is Some,
    ensures
        ({
            let s = dscale_from(cums, total, d, prev).unwrap();
            &&& s.len() == cums.len()
            &&& forall|i: int| 0 <= i < s.len() ==> prev < #[trigger] s[i] <= d
            &&& forall|i: int, j: int| 0 <= i < j < s.len() ==> s[i] < s[j]
            &&& s.len() > 0 ==> s.last() == d
        }),
    decreases cums.len(),
{
    if cums.len() == 0 {
    } else if cums.len() == 1 {
    } else {
        let v = dstep(cums[0], total, d, prev);
        lemma_dscale_monotone(cums.drop_first(), total, d, v);
        let rest = dscale_from(cums.drop_first(), total, d, v).unwrap();
        let s = dscale_from(cums, total, d, prev).unwrap();
        assert(s == seq![v] + rest);
        assert(s[0] == v);
        assert(forall|i: int| 1 <= i < s.len() ==> s[i] == rest[i - 1]);
        assert(s.last() == rest.last());
    }
}

/// The fallback target: the largest value with as many decimal digits
/// as the entry's total.
pub open spec fn digit_max(total: int) -> int {
    pow10(num_digits(total)) - 1
}

/// The digit-range-scaled cumulative values.
pub open spec fn mscale_vals(cums: Seq<int>, total: int, maxv: int) -> Seq<int> {
    cums.map_values(|c: int| round_div(c * maxv, total))
}

/// What scaling an entry produces: the joined prefix string, the
/// displayed total, and the follower names with their displayed
/// cumulative values.  A zero-total entry degenerates to total 0 with no
/// followers; raw mode keeps exact cumulative counts; d-scaling applies
/// when a die size is given and the entry has no more followers than
/// faces, with the digit-range fallback everywhere else and whenever
/// d-scaling cannot keep the values strictly increasing.
pub open spec fn scale_entry_spec(
    e: (Seq<Seq<char>>, Seq<(Seq<char>, int)>),
    scale_d: Option<u32>,
    raw: bool,
) -> (Seq<char>, int, Seq<(Seq<char>, int)>) {
    let joined = join_spec(e.0);
    let total = fol_sum(e.1);
    let names = names_of(e.1);
    let cums = cums_of(e.1);
    if total == 0 {
        (joined, 0int, Seq::<(Seq<char>, int)>::empty())
    } else if raw {
        (joined, total, pair_up(names, cums))
    } else {
        match scale_d {
            Some(d) => if e.1.len() <= d as int {
                match dscale(cums, total, d as int) {
                    Some(vals) => (joined, d as int, pair_up(names, vals)),
                    None => (joined, digit_max(total), pair_up(
                        names,
                        mscale_vals(cums, total, digit_max(total)),
                    )),
                }
            } else {
                (joined, digit_max(total), pair_up(
                    names,
                    mscale_vals(cums, total, digit_max(total)),
                ))
            },
            None => (joined, digit_max(total), pair_up(
                names,
                mscale_vals(cums, total, digit_max(total)),
            )),
        }
    }
}

/// One entry as it is written out: the joined prefix, the displayed
/// total, and one (follower, cumulative value) pair per follower.
#[derive(Debug, PartialEq, Clone)]
pub struct ScaledEntry {
    pub prefix: String,
    pub total: usize,
    pub followers: Vec<(String, usize)>,
}

impl ScaledEntry {
    /// The scaled entry as mathematical data.
    pub open spec fn model(&self) -> (Seq<char>, int, Seq<(Seq<char>, int)>) {
        (self.prefix@, self.total as int, fol_view(self.followers.deep_view()))
    }
}

/// The words of a prefix joined with single spaces.
pub fn join_words(words: &Vec<String>) -> (r: String)
    ensures
        r@ == join_spec(words.deep_view()),
{
    let ghost ws = words.deep_view();
    if words.len() == 0 {
        let r = String::new();
        assert(r@ =~= join_spec(ws));
        return r;
    }
    let mut r = words[0].clone();
    proof {
        assert(ws.take(1) =~= seq![ws[0]]);
        assert(join_spec(ws.take(1)) == ws[0]);
    }
    let mut i: usize = 1;
    while i < words.len()
        invariant
            1 <= i <= words@.len(),
            ws == words.deep_view(),
            ws.len() == words@.len(),
            r@ == join_spec(ws.take(i as int)),
        decreases words@.len() - i,
    {
        r.append(" ");
        r.append(words[i].as_str());
        proof {
            assert(ws.take(i + 1).drop_last() =~= ws.take(i as int));
            assert(ws.take(i + 1).last() == ws[i as int]);
        }
        i = i + 1;
    }
    proof {
        assert(ws.take(ws.len() as int) =~= ws);
    }
    r
}

/// A sequence of machine integers, as mathematical integers.
pub open spec fn usizes(s: Seq<usize>) -> Seq<int> {
    s.map_values(|x: usize| x as int)
}

/// A partial cumulative sum is bounded by the whole.
proof fn lemma_cum_le_total(fl: Seq<(Seq<char>, int)>, k: int)
    requires
        fol_counts_at_least(fl, 0),
        0 <= k <= fl.len(),
    ensures
        0 <= fol_sum(fl.take(k)) <= fol_sum(fl),
{
    lemma_fol_sum_split(fl, k);
    assert(fol_counts_at_least(fl.take(k), 0)) by {
        assert(forall|i: int| 0 <= i < k ==> #[trigger] fl.take(k)[i] == fl[i]);
    }
    assert(fol_counts_at_least(fl.skip(k), 0)) by {
        assert(forall|i: int|
            0 <= i < fl.skip(k).len() ==> #[trigger] fl.skip(k)[i] == fl[i + k]);
    }
    lemma_fol_sum_nonneg(fl.take(k));
    lemma_fol_sum_nonneg(fl.skip(k));
}

/// The follower names paired with their running cumulative counts.
pub fn cumulative(followers: &Vec<(String, usize)>) -> (r: Vec<(String, usize)>)
    requires
        fol_sum(fol_view(followers.deep_view())) <= usize::MAX,
    ensures
        fol_view(r.deep_view()) == pair_up(
            names_of(fol_view(followers.deep_view())),
            cums_of(fol_view(followers.deep_view())),
        ),
        r@.len() == followers@.len(),
{
    let ghost flv = fol_view(followers.deep_view());
    let mut r: Vec<(String, usize)> = Vec::new();
    let mut s: usize = 0;
    let mut i: usize = 0;
    proof {
        assert(flv.take(0) =~= Seq::<(Seq<char>, int)>::empty());
    }
    while i < followers.len()
        invariant
            i <= followers@.len(),
            flv == fol_view(followers.deep_view()),
            flv.len() == followers@.len(),
            fol_sum(flv) <= usize::MAX,
            s as int == fol_sum(flv.take(i as int)),
            r@.len() == i,
            fol_view(r.deep_view()) == pair_up(names_of(flv), cums_of(flv)).take(i as int),
        decreases followers@.len() - i,
    {
        let ghost before = fol_view(r.deep_view());
        let c = followers[i].1;
        proof {
            assert(flv[i as int] == (followers[i as int].0@, c as int));
            assert(flv.take(i + 1).drop_last() =~= flv.take(i as int));
            assert(flv.take(i + 1).last() == flv[i as int]);
            lemma_cum_le_total(flv, i + 1);
        }
        s = s + c;
        r.push((followers[i].0.clone(), s));
        proof {
            assert(fol_view(r.deep_view()) =~= before.push((flv[i as int].0, s as int)));
            assert(fol_view(r.deep_view()) =~= pair_up(names_of(flv), cums_of(flv)).take(i + 1));
        }
        i = i + 1;
    }
    proof {
        assert(pair_up(names_of(flv), cums_of(flv)).take(flv.len() as int) =~= pair_up(
            names_of(flv),
            cums_of(flv),
        ));
    }
    r
}

pub open spec fn opt_prepend(pre: Seq<int>, o: Option<Seq<int>>) -> Option<Seq<int>> {
    match o {
        Some(s) => Some(pre + s),
        None => None,
    }
}

/// The d-scaling pass over a cumulative sequence; `None` flags the
/// prefix as unscalable under d-scaling.
fn dscale_exec(cums: &Vec<usize>, total: usize, d: u32) -> (r: Option<Vec<usize>>)
    requires
        total >= 1,
    ensures
        match r {
            Some(v) => dscale(usizes(cums@), total as int, d as int) == Some(usizes(v@)),
            None => dscale(usizes(cums@), total as int, d as int) is None,
        },
{
    let ghost cv = usizes(cums@);
    let n = cums.len();
    if n == 0 {
        let r: Vec<usize> = Vec::new();
        proof {
            assert(usizes(r@) =~= Seq::<int>::empty());
            assert(dscale(cv, total as int, d as int) == Some(Seq::<int>::empty()));
        }
        return Some(r);
    }
    let mut out: Vec<usize> = Vec::new();
    let mut prev: usize = 0;
    let mut i: usize = 0;
    proof {
        assert(cv.skip(0) =~= cv);
        assert(usizes(out@) =~= Seq::<int>::empty());
        assert(opt_prepend(Seq::<int>::empty(), dscale_from(cv, total as int, d as int, 0))
            == dscale_from(cv, total as int, d as int, 0));
    }
    while i < n
        invariant
            i <= n,
            n == cums@.len(),
            cv == usizes(cums@),
            cv.len() == n,
            total >= 1,
            out@.len() == i,
            prev as int <= d as int,
            dscale(cv, total as int, d as int) == opt_prepend(
                usizes(out@),
                dscale_from(cv.skip(i as int), total as int, d as int, prev as int),
            ),
        decreases n - i,
    {
        let ghost rest = cv.skip(i as int);
        proof {
            assert(rest[0] == cv[i as int]);
            assert(rest.len() == n - i);
            assert(rest.drop_first() =~= cv.skip(i + 1));
        }
        if i == n - 1 {
            if prev >= d as usize {
                proof {
                    assert(dscale_from(rest, total as int, d as int, prev as int) is None);
                }
                return None;
            }
            let ghost before = usizes(out@);
            out.push(d as usize);
            proof {
                assert(usizes(out@) =~= before.push(d as int));
                assert(dscale_from(rest, total as int, d as int, prev as int) == Some(
                    seq![d as int],
                ));
                assert(before + seq![d as int] =~= usizes(out@));
                assert(dscale(cv, total as int, d as int) == Some(usizes(out@)));
            }
            return Some(out);
        }
        let c = cums[i];
        proof {
            assert((c as u128) * (d as u128) <= (usize::MAX as u128) * (u32::MAX as u128))
                by (nonlinear_arith)
                requires
                    c <= usize::MAX,
                    d <= u32::MAX,
            ;
        }
        let prod: u128 = (c as u128) * (d as u128);
        let q: u128 = prod / (total as u128);
        let rem: u128 = prod % (total as u128);
        let ceil: u128 = if rem == 0 {
            q
        } else {
            q + 1
        };
        proof {
            assert(ceil as int == ceil_div(c as int * d as int, total as int));
        }
        let a1: u128 = if ceil < 1 {
            1
        } else {
            ceil
        };
        let a2: u128 = if a1 < (prev as u128) + 1 {
            (prev as u128) + 1
        } else {
            a1
        };
        let v128: u128 = if a2 > (d as u128) {
            d as u128
        } else {
            a2
        };
        let v: usize = v128 as usize;
        proof {
            assert(v as int == dstep(cv[i as int], total as int, d as int, prev as int));
        }
        if v <= prev {
            proof {
                assert(dscale_from(rest, total as int, d as int, prev as int) is None);
            }
            return None;
        }
        let ghost before = usizes(out@);
        out.push(v);
        proof {
            assert(usizes(out@) =~= before.push(v as int));
            assert(before.push(v as int) =~= before + seq![v as int]);
            assert(dscale(cv, total as int, d as int) == opt_prepend(
                usizes(out@),
                dscale_from(cv.skip(i + 1), total as int, d as int, v as int),
            )) by {
                match dscale_from(cv.skip(i + 1), total as int, d as int, v as int) {
                    Some(s) => {
                        assert(before + (seq![v as int] + s) =~= usizes(out@) + s);
                    },
                    None => {},
                }
            }
        }
        prev = v;
        i = i + 1;
    }
    proof {
        assert(cv.skip(n as int) =~= Seq::<int>::empty());
        assert(usizes(out@) + Seq::<int>::empty() =~= usizes(out@));
    }
    Some(out)
}

/// One digit-range-scaled value.
fn round_scaled(c: usize, total: usize, m: usize) -> (v: usize)
    requires
        1 <= total,
        c <= total,
    ensures
        v as int == round_div(c as int * m as int, total as int),
        v <= m,
{
    proof {
        assert((c as u128) * (m as u128) <= (u64::MAX as u128) * (u64::MAX as u128))
            by (nonlinear_arith)
            requires
                c <= u64::MAX,
                m <= u64::MAX,
        ;
    }
    let prod: u128 = (c as u128) * (m as u128);
    let q: u128 = prod / (total as u128);
    let rem: u128 = prod % (total as u128);
    proof {
        assert(q <= m as u128 && (q == m as u128 ==> rem == 0)) by (nonlinear_arith)
            requires
                prod == (c as u128) * (m as u128),
                q == prod / (total as u128),
                rem == prod % (total as u128),
                c <= total,
                total >= 1,
        ;
    }
    let v128: u128 = if 2 * rem >= total as u128 {
        q + 1
    } else {
        q
    };
    v128 as usize
}

/// The digit count of a positive integer is no larger than the integer.
proof fn lemma_num_digits_le_self(n: int)
    requires
        n >= 1,
    ensures
        1 <= num_digits(n) <= n,
    decreases n,
{
    if n >= 10 {
        lemma_num_digits_le_self(n / 10);
    }
}

/// The digit-range fallback applied to already-computed cumulative
/// pairs: target maximum `10^k - 1` for `k` the digit count of the
/// total, every cumulative count rounded onto that range.
fn digit_scale(prefix: String, cums: &Vec<(String, usize)>, total: usize) -> (r: ScaledEntry)
    requires
        total >= 1,
        digit_max(total as int) < usize::MAX,
        forall|k: int| 0 <= k < cums@.len() ==> (#[trigger] cums@[k]).1 <= total,
    ensures
        r.model() == (
            prefix@,
            digit_max(total as int),
            fol_view(cums.deep_view()).map_values(
                |pr: (Seq<char>, int)|
                    (pr.0, round_div(pr.1 * digit_max(total as int), total as int)),
            ),
        ),
{
    let ghost cdv = fol_view(cums.deep_view());
    // count the decimal digits of the total
    let mut kdig: usize = 1;
    let mut tmp: usize = total;
    proof {
        lemma_num_digits_le_self(total as int);
    }
    while tmp >= 10
        invariant
            tmp >= 1,
            kdig >= 1,
            num_digits(total as int) == kdig - 1 + num_digits(tmp as int),
            num_digits(total as int) <= total,
        decreases tmp,
    {
        proof {
            assert(num_digits(tmp as int) == 1 + num_digits(tmp as int / 10));
            lemma_num_digits_le_self(tmp as int / 10);
            assert(num_digits(tmp as int) >= 2);
            assert(kdig + 1 <= num_digits(total as int));
        }
        tmp = tmp / 10;
        kdig = kdig + 1;
    }
    proof {
        lemma_num_digits_le_self(tmp as int);
        assert(num_digits(tmp as int) == 1);
        assert(kdig as int == num_digits(total as int));
    }
    // ten to the digit count
    let mut pw: usize = 1;
    let mut t: usize = 0;
    while t < kdig
        invariant
            t <= kdig,
            kdig as int == num_digits(total as int),
            pw as int == pow10(t as int),
            digit_max(total as int) < usize::MAX,
        decreases kdig - t,
    {
        proof {
            lemma_pow10_monotone(t as int + 1, kdig as int);
            lemma_pow10_pos(t as int);
        }
        pw = pw * 10;
        t = t + 1;
    }
    proof {
        lemma_pow10_pos(kdig as int);
    }
    let m: usize = pw - 1;
    assert(m as int == digit_max(total as int));
    let mut fl: Vec<(String, usize)> = Vec::new();
    let mut i: usize = 0;
    let ghost target = cdv.map_values(
        |pr: (Seq<char>, int)| (pr.0, round_div(pr.1 * digit_max(total as int), total as int)),
    );
    proof {
        assert(fol_view(fl.deep_view()) =~= target.take(0));
    }
    while i < cums.len()
        invariant
            i <= cums@.len(),
            cdv == fol_view(cums.deep_view()),
            cdv.len() == cums@.len(),
            total >= 1,
            m as int == digit_max(total as int),
            forall|k: int| 0 <= k < cums@.len() ==> (#[trigger] cums@[k]).1 <= total,
            target == cdv.map_values(
                |pr: (Seq<char>, int)|
                    (pr.0, round_div(pr.1 * digit_max(total as int), total as int)),
            ),
            fol_view(fl.deep_view()) == target.take(i as int),
        decreases cums@.len() - i,
    {
        let ghost before = fol_view(fl.deep_view());
        let c = cums[i].1;
        assert(cdv[i as int] == (cums[i as int].0@, c as int));
        let v = round_scaled(c, total, m);
        fl.push((cums[i].0.clone(), v));
        proof {
            assert(fol_view(fl.deep_view()) =~= before.push((cdv[i as int].0, v as int)));
            assert(fol_view(fl.deep_view()) =~= target.take(i + 1));
        }
        i = i + 1;
    }
    proof {
        assert(target.take(target.len() as int) =~= target);
    }
    ScaledEntry { prefix, total: m, followers: fl }
}

/// Converts one entry to its output row under the chosen strategy.  The
/// whole behaviour is `scale_entry_spec` of the entry's data.
pub fn scale_entry(entry: &WordFollowEntry, scale_d: Option<u32>, raw: bool) -> (r: ScaledEntry)
    requires
        digit_max(fol_sum(entry.model().1)) < usize::MAX,
    ensures
        r.model() == scale_entry_spec(entry.model(), scale_d, raw),
{
    let ghost em = entry.model();
    let ghost flv = em.1;
    proof {
        assert(fol_counts_at_least(flv, 0));
        lemma_fol_sum_nonneg(flv);
        lemma_below_pow10(fol_sum(flv));
        assert(fol_sum(flv) <= digit_max(fol_sum(flv)));
    }
    let prefix = join_words(&entry.prefix);
    assert(prefix@ == join_spec(em.0));
    let cums = cumulative(&entry.followers);
    let ghost cdv = fol_view(cums.deep_view());
    let total: usize = if cums.len() == 0 {
        0
    } else {
        cums[cums.len() - 1].1
    };
    proof {
        if cums@.len() == 0 {
            assert(flv.len() == 0);
            assert(total as int == fol_sum(flv));
        } else {
            assert(cdv[cdv.len() - 1].1 == cums_of(flv)[flv.len() - 1]);
            assert(flv.take(flv.len() as int) =~= flv);
            assert(total as int == fol_sum(flv));
        }
    }
    if total == 0 {
        let r = ScaledEntry { prefix, total: 0, followers: Vec::new() };
        proof {
            assert(fol_view(r.followers.deep_view()) =~= Seq::<(Seq<char>, int)>::empty());
        }
        return r;
    }
    if raw {
        return ScaledEntry { prefix, total, followers: cums };
    }
    proof {
        assert(forall|k: int| 0 <= k < cums@.len() ==> (#[trigger] cums@[k]).1 <= total) by {
            assert forall|k: int| 0 <= k < cums@.len() implies (#[trigger] cums@[k]).1
                <= total by {
                assert(cdv[k] == (cums@[k].0@, cums@[k].1 as int));
                assert(cdv[k].1 == cums_of(flv)[k]);
                lemma_cum_le_total(flv, k + 1);
            }
        }
        assert(cdv =~= pair_up(names_of(flv), cums_of(flv)));
    }
    let mut dtarget: Option<u32> = None;
    match scale_d {
        Some(d) => {
            if entry.followers.len() <= d as usize {
                dtarget = Some(d);
            }
        },
        None => {},
    }
    match dtarget {
        Some(d) => {
            let mut cvec: Vec<usize> = Vec::new();
            let mut i: usize = 0;
            proof {
                assert(usizes(cvec@) =~= cums_of(flv).take(0));
            }
            while i < cums.len()
                invariant
                    i <= cums@.len(),
                    cdv == fol_view(cums.deep_view()),
                    cdv.len() == cums@.len(),
                    cdv == pair_up(names_of(flv), cums_of(flv)),
                    cums_of(flv).len() == cums@.len(),
                    cvec@.len() == i,
                    usizes(cvec@) == cums_of(flv).take(i as int),
                decreases cums@.len() - i,
            {
                let ghost before = usizes(cvec@);
                cvec.push(cums[i].1);
                proof {
                    assert(cdv[i as int] == (cums@[i as int].0@, cums@[i as int].1 as int));
                    assert(usizes(cvec@) =~= before.push(cums@[i as int].1 as int));
                    assert(usizes(cvec@) =~= cums_of(flv).take(i + 1));
                }
                i = i + 1;
            }
            proof {
                assert(cums_of(flv).take(cums_of(flv).len() as int) =~= cums_of(flv));
            }
            match dscale_exec(&cvec, total, d) {
                Some(vals) => {
                    proof {
                        lemma_dscale_monotone(cums_of(flv), total as int, d as int, 0);
                        assert(usizes(vals@).len() == cums_of(flv).len());
                    }
                    let mut fl2: Vec<(String, usize)> = Vec::new();
                    let ghost target = pair_up(names_of(flv), usizes(vals@));
                    proof {
                        assert(fol_view(fl2.deep_view()) =~= target.take(0));
                    }
                    let mut k: usize = 0;
                    while k < cums.len()
                        invariant
                            k <= cums@.len(),
                            cdv == fol_view(cums.deep_view()),
                            cdv.len() == cums@.len(),
                            cdv == pair_up(names_of(flv), cums_of(flv)),
                            names_of(flv).len() == cums@.len(),
                            vals@.len() == cums@.len(),
                            target == pair_up(names_of(flv), usizes(vals@)),
                            fol_view(fl2.deep_view()) == target.take(k as int),
                        decreases cums@.len() - k,
                    {
                        let ghost before = fol_view(fl2.deep_view());
                        fl2.push((cums[k].0.clone(), vals[k]));
                        proof {
                            assert(cdv[k as int] == (cums@[k as int].0@, cums@[k as int].1 as int));
                            assert(fol_view(fl2.deep_view()) =~= before.push(
                                (names_of(flv)[k as int], vals@[k as int] as int),
                            ));
                            assert(fol_view(fl2.deep_view()) =~= target.take(k + 1));
                        }
                        k = k + 1;
                    }
                    proof {
                        assert(target.take(target.len() as int) =~= target);
                    }
                    ScaledEntry { prefix, total: d as usize, followers: fl2 }
                },
                None => {
                    let r = digit_scale(prefix, &cums, total);
                    proof {
                        assert(r.model().2 =~= pair_up(
                            names_of(flv),
                            mscale_vals(cums_of(flv), total as int, digit_max(total as int)),
                        ));
                    }
                    r
                },
            }
        },
        None => {
            let r = digit_scale(prefix, &cums, total);
            proof {
                assert(r.model().2 =~= pair_up(
                    names_of(flv),
                    mscale_vals(cums_of(flv), total as int, digit_max(total as int)),
                ));
            }
            r
        },
    }
}

/// Converts a whole entry list, entry by entry.
pub fn scale_entries(entries: &Vec<WordFollowEntry>, scale_d: Option<u32>, raw: bool) -> (r: Vec<
    ScaledEntry,
>)
    requires
        forall|i: int|
            0 <= i < entries@.len() ==> digit_max(
                fol_sum((#[trigger] entries@[i]).model().1),
            ) < usize::MAX,
    ensures
        r@.len() == entries@.len(),
        forall|i: int|
            0 <= i < entries@.len() ==> (#[trigger] r@[i]).model() == scale_entry_spec(
                entries@[i].model(),
                scale_d,
                raw,
            ),
{
    let mut r: Vec<ScaledEntry> = Vec::new();
    let mut i: usize = 0;
    while i < entries.len()
        invariant
            i <= entries@.len(),
            r@.len() == i,
            forall|i0: int|
                0 <= i0 < entries@.len() ==> digit_max(
                    fol_sum((#[trigger] entries@[i0]).model().1),
                ) < usize::MAX,
            forall|i0: int|
                0 <= i0 < i ==> (#[trigger] r@[i0]).model() == scale_entry_spec(
                    entries@[i0].model(),
                    scale_d,
                    raw,
                ),
        decreases entries@.len() - i,
    {
        let s = scale_entry(&entries[i], scale_d, raw);
        r.push(s);
        i = i + 1;
    }
    r
}

/// With more unique followers than die faces the primary strategy does
/// not apply: the entry falls back to digit-range scaling, with total
/// `10^k - 1`.
pub proof fn lemma_fallback_on_small_die(
    e: (Seq<Seq<char>>, Seq<(Seq<char>, int)>),
    d: u32,
)
    requires
        fol_sum(e.1) > 0,
        e.1.len() > d as int,
    ensures
        scale_entry_spec(e, Some(d), false).1 == digit_max(fol_sum(e.1)),
        scale_entry_spec(e, Some(d), false).2 == pair_up(
            names_of(e.1),
            mscale_vals(cums_of(e.1), fol_sum(e.1), digit_max(fol_sum(e.1))),
        ),
{
}

/// When d-scaling succeeds for an entry, the displayed cumulative
/// values are strictly increasing and the last one is exactly the
/// requested die size, which is also the displayed total.
pub proof fn lemma_d_scaling_monotone(e: (Seq<Seq<char>>, Seq<(Seq<char>, int)>), d: u32)
    requires
        fol_sum(e.1) > 0,
        e.1.len() <= d as int,
        dscale(cums_of(e.1), fol_sum(e.1), d as int) is Some,
    ensures
        ({
            let r = scale_entry_spec(e, Some(d), false);
            &&& r.1 == d as int
            &&& r.2.len() == e.1.len()
            &&& forall|i: int, j: int| 0 <= i < j < r.2.len() ==> r.2[i].1 < r.2[j].1
            &&& forall|i: int| 0 <= i < r.2.len() ==> 1 <= #[trigger] r.2[i].1 <= d as int
            &&& r.2.len() > 0 ==> r.2.last().1 == d as int
        }),
{
    lemma_dscale_monotone(cums_of(e.1), fol_sum(e.1), d as int, 0);
    let vals = dscale(cums_of(e.1), fol_sum(e.1), d as int).unwrap();
    let r = scale_entry_spec(e, Some(d), false);
    assert(r.2 == pair_up(names_of(e.1), vals));
    assert(forall|i: int| 0 <= i < r.2.len() ==> (#[trigger] r.2[i]).1 == vals[i]);
}

} // verus!
