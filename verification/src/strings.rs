//! Character and string primitives shared by the whole crate: ASCII case
//! folding, lexicographic comparison, and decimal rendering of integers.
use vstd::prelude::*;

verus! {

/// ASCII lower-casing of a single character; everything outside 'A'..='Z'
/// is left unchanged.  Tokens produced by this crate hold only ASCII
/// letters, apostrophes and configured punctuation, so this folding agrees
/// with Unicode lower-casing on every string the pipeline produces.
pub open spec fn lower_char(c: char) -> char {
    if 'A' <= c && c <= 'Z' {
        ((c as u8) + 32) as char
    } else {
        c
    }
}

/// Case folding of a whole string, character by character.
pub open spec fn lower_seq(s: Seq<char>) -> Seq<char> {
    s.map_values(|c: char| lower_char(c))
}

pub proof fn lemma_lower_char_idempotent(c: char)
    ensures
        lower_char(lower_char(c)) == lower_char(c),
{
}

pub proof fn lemma_lower_idempotent(s: Seq<char>)
    ensures
        lower_seq(lower_seq(s)) == lower_seq(s),
{
    assert forall|i: int| 0 <= i < s.len() implies lower_seq(lower_seq(s))[i] == lower_seq(s)[i] by {
        lemma_lower_char_idempotent(s[i]);
    }
    assert(lower_seq(lower_seq(s)) =~= lower_seq(s));
}

pub fn lower_char_exec(c: char) -> (r: char)
    ensures
        r == lower_char(c),
{
    if 'A' <= c && c <= 'Z' {
        ((c as u8) + 32) as char
    } else {
        c
    }
}

pub open spec fn is_ascii_letter(c: char) -> bool {
    ('a' <= c && c <= 'z') || ('A' <= c && c <= 'Z')
}

pub open spec fn is_ascii_digit(c: char) -> bool {
    '0' <= c && c <= '9'
}

pub fn is_ascii_letter_exec(c: char) -> (r: bool)
    ensures
        r == is_ascii_letter(c),
{
    ('a' <= c && c <= 'z') || ('A' <= c && c <= 'Z')
}

pub fn is_ascii_digit_exec(c: char) -> (r: bool)
    ensures
        r == is_ascii_digit(c),
{
    '0' <= c && c <= '9'
}

/// Relies on std's `String: FromIterator<char>`: collecting characters
/// yields the string with exactly those characters in order.
#[verifier::external_body]
pub fn chars_to_string(cs: &Vec<char>) -> (s: String)
    ensures
        s@ == cs@,
{
    cs.iter().collect()
}

/// The characters of a string slice, as a vector.
pub fn str_chars(s: &str) -> (r: Vec<char>)
    ensures
        r@ == s@,
{
    let n = s.unicode_len();
    let mut r: Vec<char> = Vec::new();
    let mut i: usize = 0;
    while i < n
        invariant
            i <= n,
            n == s@.len(),
            r@ == s@.take(i as int),
        decreases n - i,
    {
        let c = s.get_char(i);
        r.push(c);
        i = i + 1;
        assert(r@ =~= s@.take(i as int));
    }
    assert(r@ =~= s@);
    r
}

/// ASCII upper-casing of a single character.
pub open spec fn upper_char(c: char) -> char {
    if 'a' <= c && c <= 'z' {
        ((c as u8) - 32) as char
    } else {
        c
    }
}

pub fn upper_char_exec(c: char) -> (r: char)
    ensures
        r == upper_char(c),
{
    if 'a' <= c && c <= 'z' {
        ((c as u8) - 32) as char
    } else {
        c
    }
}

/// Lower-cased copy of a string.
pub fn string_lower(s: &String) -> (r: String)
    ensures
        r@ == lower_seq(s@),
{
    let cs = str_chars(s.as_str());
    let mut out: Vec<char> = Vec::new();
    let mut i: usize = 0;
    while i < cs.len()
        invariant
            i <= cs@.len(),
            cs@ == s@,
            out@ == lower_seq(s@.take(i as int)),
        decreases cs@.len() - i,
    {
        out.push(lower_char_exec(cs[i]));
        i = i + 1;
        assert(out@ =~= lower_seq(s@.take(i as int)));
    }
    assert(out@ =~= lower_seq(s@));
    chars_to_string(&out)
}

/// Equality of two string slices, decided character by character.
pub fn str_eq(a: &str, b: &str) -> (r: bool)
    ensures
        r == (a@ == b@),
{
    let na = a.unicode_len();
    let nb = b.unicode_len();
    if na != nb {
        assert(a@ != b@);
        return false;
    }
    let mut i: usize = 0;
    while i < na
        invariant
            i <= na,
            na == a@.len(),
            na == b@.len(),
            forall|j: int| 0 <= j < i ==> a@[j] == b@[j],
        decreases na - i,
    {
        if a.get_char(i) != b.get_char(i) {
            return false;
        }
        i = i + 1;
    }
    assert(a@ =~= b@);
    true
}

/// Three-way lexicographic comparison of two character sequences by
/// code point, with a proper prefix ordering before its extensions.
/// The result is -1, 0 or 1.
pub open spec fn cmp3(a: Seq<char>, b: Seq<char>) -> int
    decreases a.len(),
{
    if a.len() == 0 && b.len() == 0 {
        0int
    } else if a.len() == 0 {
        -1int
    } else if b.len() == 0 {
        1int
    } else if a[0] < b[0] {
        -1int
    } else if b[0] < a[0] {
        1int
    } else {
        cmp3(a.drop_first(), b.drop_first())
    }
}

pub proof fn lemma_cmp3_zero(a: Seq<char>, b: Seq<char>)
    ensures
        cmp3(a, b) == 0 <==> a == b,
    decreases a.len(),
{
    if a.len() == 0 && b.len() == 0 {
        assert(a =~= b);
    } else if a.len() > 0 && b.len() > 0 && a[0] == b[0] {
        lemma_cmp3_zero(a.drop_first(), b.drop_first());
        if cmp3(a, b) == 0 {
            assert(a.drop_first() == b.drop_first());
            assert(a =~= seq![a[0]] + a.drop_first());
            assert(b =~= seq![b[0]] + b.drop_first());
        }
        if a == b {
            assert(a.drop_first() =~= b.drop_first());
        }
    }
}

pub proof fn lemma_cmp3_antisym(a: Seq<char>, b: Seq<char>)
    ensures
        cmp3(a, b) == -cmp3(b, a),
    decreases a.len(),
{
    if a.len() > 0 && b.len() > 0 && a[0] == b[0] {
        lemma_cmp3_antisym(a.drop_first(), b.drop_first());
    }
}

pub proof fn lemma_cmp3_trans(a: Seq<char>, b: Seq<char>, c: Seq<char>)
    requires
        cmp3(a, b) <= 0,
        cmp3(b, c) <= 0,
    ensures
        cmp3(a, c) <= 0,
        cmp3(a, b) < 0 || cmp3(b, c) < 0 ==> cmp3(a, c) < 0,
    decreases a.len() + b.len() + c.len(),
{
    lemma_cmp3_zero(a, b);
    lemma_cmp3_zero(b, c);
    if cmp3(a, b) == 0 {
        assert(a == b);
    } else if cmp3(b, c) == 0 {
        assert(b == c);
    } else {
        if a.len() == 0 {
        } else {
            assert(b.len() > 0);
            assert(c.len() > 0);
            if a[0] < b[0] {
                if b[0] < c[0] {
                } else {
                    assert(b[0] == c[0]);
                }
            } else {
                assert(a[0] == b[0]);
                if b[0] < c[0] {
                } else {
                    assert(b[0] == c[0]);
                    lemma_cmp3_trans(a.drop_first(), b.drop_first(), c.drop_first());
                }
            }
        }
    }
}

/// Shifting off a shared prefix does not change the comparison.
pub proof fn lemma_cmp3_skip(a: Seq<char>, b: Seq<char>, k: int)
    requires
        0 <= k <= a.len(),
        k <= b.len(),
        forall|j: int| 0 <= j < k ==> a[j] == b[j],
    ensures
        cmp3(a, b) == cmp3(a.skip(k), b.skip(k)),
    decreases k,
{
    if k > 0 {
        assert(a.len() > 0 && b.len() > 0 && a[0] == b[0]);
        assert(forall|j: int| 0 <= j < k - 1 ==> a.drop_first()[j] == b.drop_first()[j]);
        lemma_cmp3_skip(a.drop_first(), b.drop_first(), k - 1);
        assert(a.drop_first().skip(k - 1) =~= a.skip(k));
        assert(b.drop_first().skip(k - 1) =~= b.skip(k));
    } else {
        assert(a.skip(0) =~= a);
        assert(b.skip(0) =~= b);
    }
}

/// Case-insensitive three-way comparison of two strings.
pub fn cmp_ci(a: &str, b: &str) -> (r: i32)
    ensures
        r == cmp3(lower_seq(a@), lower_seq(b@)),
{
    let na = a.unicode_len();
    let nb = b.unicode_len();
    let ghost la = lower_seq(a@);
    let ghost lb = lower_seq(b@);
    let mut i: usize = 0;
    loop
        invariant
            i <= na,
            i <= nb,
            na == a@.len(),
            nb == b@.len(),
            la == lower_seq(a@),
            lb == lower_seq(b@),
            forall|j: int| 0 <= j < i ==> la[j] == lb[j],
        decreases na - i,
    {
        proof {
            lemma_cmp3_skip(la, lb, i as int);
        }
        if i >= na && i >= nb {
            return 0;
        }
        if i >= na {
            return -1;
        }
        if i >= nb {
            return 1;
        }
        let ca = lower_char_exec(a.get_char(i));
        let cb = lower_char_exec(b.get_char(i));
        if ca < cb {
            return -1;
        }
        if cb < ca {
            return 1;
        }
        i = i + 1;
    }
}

/// The character for a decimal digit.
pub open spec fn digit_char(d: int) -> char {
    (('0' as u8) + d) as char
}

/// The decimal rendering of a non-negative integer, most significant
/// digit first, as produced by std's integer formatting.
pub open spec fn dec_str(n: int) -> Seq<char>
    decreases n,
{
    if n < 10 {
        seq![digit_char(if n >= 0 { n } else { 0 })]
    } else {
        dec_str(n / 10).push(digit_char(n % 10))
    }
}

/// Number of decimal digits of a non-negative integer.
pub open spec fn num_digits(n: int) -> int
    decreases n,
{
    if n < 10 {
        1int
    } else {
        1 + num_digits(n / 10)
    }
}

pub proof fn lemma_dec_str_len(n: int)
    requires
        n >= 0,
    ensures
        dec_str(n).len() == num_digits(n),
    decreases n,
{
    if n >= 10 {
        lemma_dec_str_len(n / 10);
    }
}

/// The decimal rendering of an integer.
pub fn usize_to_string(n: usize) -> (s: String)
    ensures
        s@ == dec_str(n as int),
{
    let mut digits: Vec<char> = Vec::new();
    let mut m: usize = n;
    loop
        invariant_except_break
            dec_str(n as int) == dec_str(m as int) + digits@.reverse(),
        ensures
            dec_str(n as int) == digits@.reverse(),
        decreases m,
    {
        let d: usize = m % 10;
        let c = (('0' as u8) + (d as u8)) as char;
        let ghost prev = digits@;
        digits.push(c);
        assert(digits@.reverse() =~= seq![digit_char(d as int)] + prev.reverse());
        if m < 10 {
            assert(dec_str(m as int) == seq![digit_char(d as int)]);
            assert(dec_str(n as int) =~= digits@.reverse());
            break;
        }
        assert(dec_str(m as int) == dec_str(m as int / 10).push(digit_char(m as int % 10)));
        assert(dec_str(m as int / 10).push(digit_char(d as int)) =~= dec_str(m as int / 10) + seq![
            digit_char(d as int),
        ]);
        m = m / 10;
    }
    let mut out: Vec<char> = Vec::new();
    let mut i: usize = digits.len();
    while i > 0
        invariant
            i <= digits@.len(),
            out@ =~= digits@.skip(i as int).reverse(),
        decreases i,
    {
        i = i - 1;
        out.push(digits[i]);
        assert(out@ =~= digits@.skip(i as int).reverse());
    }
    assert(out@ =~= digits@.reverse());
    chars_to_string(&out)
}

/// ASCII whitespace.
pub open spec fn is_space(c: char) -> bool {
    c == ' ' || c == '\t' || c == '\r' || c == '\n' || c == '\u{b}' || c == '\u{c}'
}

pub open spec fn trim_start_spec(s: Seq<char>) -> Seq<char>
    decreases s.len(),
{
    if s.len() > 0 && is_space(s[0]) {
        trim_start_spec(s.drop_first())
    } else {
        s
    }
}

pub open spec fn trim_end_spec(s: Seq<char>) -> Seq<char>
    decreases s.len(),
{
    if s.len() > 0 && is_space(s.last()) {
        trim_end_spec(s.drop_last())
    } else {
        s
    }
}

/// Whitespace trimmed from both ends, as `str::trim` does for ASCII text.
pub open spec fn trim_spec(s: Seq<char>) -> Seq<char> {
    trim_end_spec(trim_start_spec(s))
}

pub fn is_space_exec(c: char) -> (r: bool)
    ensures
        r == is_space(c),
{
    c == ' ' || c == '\t' || c == '\r' || c == '\n' || c == '\u{b}' || c == '\u{c}'
}

proof fn lemma_trim_start_indexed(s: Seq<char>, k: int)
    requires
        0 <= k <= s.len(),
        forall|j: int| 0 <= j < k ==> is_space(s[j]),
        k == s.len() || !is_space(s[k]),
    ensures
        trim_start_spec(s) == s.skip(k),
    decreases k,
{
    if k == 0 {
        assert(s.skip(0) =~= s);
    } else {
        assert(is_space(s[0]));
        assert(forall|j: int| 0 <= j < k - 1 ==> is_space(s.drop_first()[j]));
        lemma_trim_start_indexed(s.drop_first(), k - 1);
        assert(s.drop_first().skip(k - 1) =~= s.skip(k));
    }
}

proof fn lemma_trim_end_indexed(s: Seq<char>, k: int)
    requires
        0 <= k <= s.len(),
        forall|j: int| k <= j < s.len() ==> is_space(s[j]),
        k == 0 || !is_space(s[k - 1]),
    ensures
        trim_end_spec(s) == s.take(k),
    decreases s.len() - k,
{
    if k == s.len() {
        assert(s.take(k) =~= s);
    } else {
        assert(is_space(s.last()));
        assert(forall|j: int| k <= j < s.drop_last().len() ==> is_space(s.drop_last()[j]));
        lemma_trim_end_indexed(s.drop_last(), k);
        assert(s.drop_last().take(k) =~= s.take(k));
    }
}

/// The characters of a string with surrounding whitespace removed.
pub fn trim_chars(cs: &Vec<char>) -> (r: Vec<char>)
    ensures
        r@ == trim_spec(cs@),
{
    let n = cs.len();
    let mut lo: usize = 0;
    while lo < n && is_space_exec(cs[lo])
        invariant
            lo <= n,
            n == cs@.len(),
            forall|j: int| 0 <= j < lo ==> is_space(cs@[j]),
        decreases n - lo,
    {
        lo = lo + 1;
    }
    proof {
        lemma_trim_start_indexed(cs@, lo as int);
    }
    let mut hi: usize = n;
    while hi > lo && is_space_exec(cs[hi - 1])
        invariant
            lo <= hi <= n,
            n == cs@.len(),
            forall|j: int| hi <= j < n ==> is_space(cs@[j]),
        decreases hi,
    {
        hi = hi - 1;
    }
    let ghost mid = cs@.skip(lo as int);
    proof {
        assert(forall|j: int| hi - lo <= j < mid.len() ==> is_space(mid[j]));
        if hi > lo {
            assert(mid[hi - lo - 1] == cs@[hi - 1]);
        }
        lemma_trim_end_indexed(mid, hi - lo);
    }
    let mut r: Vec<char> = Vec::new();
    let mut i: usize = lo;
    while i < hi
        invariant
            lo <= i <= hi <= n,
            n == cs@.len(),
            r@ =~= cs@.subrange(lo as int, i as int),
        decreases hi - i,
    {
        r.push(cs[i]);
        i = i + 1;
        assert(r@ =~= cs@.subrange(lo as int, i as int));
    }
    assert(r@ =~= mid.take(hi - lo));
    r
}

} // verus!
