//! Natural (human) ordering over strings.
//!
//! Two strings are compared character by character; when both sides stand on
//! an ASCII digit, the maximal digit runs are compared as unsigned integers
//! (so `"page2"` sorts before `"page10"`); other characters are compared
//! case-insensitively (ASCII case only).  When that pass ends with both
//! strings exhausted, a case-insensitive full comparison and then a raw
//! comparison break the tie, which makes the order total.

use vstd::prelude::*;
use core::cmp::Ordering;
use vstd::arithmetic::power::pow;

use crate::chars::chars_of;

verus! {

/// Whether `c` is an ASCII digit `'0'..='9'`.
pub open spec fn is_digit_char(c: char) -> bool {
    48 <= c as u32 && c as u32 <= 57
}

/// The numeric value of an ASCII digit.
pub open spec fn digit_val(c: char) -> nat
    recommends
        is_digit_char(c),
{
    (c as u32 - 48) as nat
}

/// The code point of `c`, with ASCII upper-case letters lowered.
pub open spec fn lower_code(c: char) -> u32 {
    if 65 <= c as u32 && c as u32 <= 90 {
        (c as u32 + 32) as u32
    } else {
        c as u32
    }
}

/// The code point used by the comparison: lowered or raw.
pub open spec fn code_of(c: char, lowered: bool) -> u32 {
    if lowered {
        lower_code(c)
    } else {
        c as u32
    }
}

/// The opposite comparison result.
pub open spec fn flip_ordering(o: Ordering) -> Ordering {
    match o {
        Ordering::Less => Ordering::Greater,
        Ordering::Equal => Ordering::Equal,
        Ordering::Greater => Ordering::Less,
    }
}

/// Three-way comparison of two mathematical integers.
pub open spec fn cmp_int(x: int, y: int) -> Ordering {
    if x < y {
        Ordering::Less
    } else if x == y {
        Ordering::Equal
    } else {
        Ordering::Greater
    }
}

/// `o1`, refined by `o2` when `o1` is a tie.
pub open spec fn then_ordering(o1: Ordering, o2: Ordering) -> Ordering {
    if o1 == Ordering::Equal {
        o2
    } else {
        o1
    }
}

/// Length of the maximal prefix of `s` made of ASCII digits.
pub open spec fn digit_run_len(s: Seq<char>) -> nat
    decreases s.len(),
{
    if s.len() == 0 || !is_digit_char(s[0]) {
        0
    } else {
        (1 + digit_run_len(s.drop_first())) as nat
    }
}

/// The unsigned integer denoted by a sequence of ASCII digits.
pub open spec fn digits_value(s: Seq<char>) -> nat
    decreases s.len(),
{
    if s.len() == 0 {
        0
    } else {
        digits_value(s.drop_last()) * 10 + digit_val(s.last())
    }
}

/// The character-by-character pass: digit runs numerically, other characters
/// case-insensitively.  Returns `Equal` exactly when both strings run out at
/// the same step.
pub open spec fn natural_cmp_core(a: Seq<char>, b: Seq<char>) -> Ordering
    decreases a.len() + b.len(),
    via natural_cmp_core_dec
{
    if a.len() == 0 && b.len() == 0 {
        Ordering::Equal
    } else if a.len() == 0 {
        Ordering::Less
    } else if b.len() == 0 {
        Ordering::Greater
    } else if is_digit_char(a[0]) && is_digit_char(b[0]) {
        let ra = digit_run_len(a);
        let rb = digit_run_len(b);
        let va = digits_value(a.take(ra as int));
        let vb = digits_value(b.take(rb as int));
        if va != vb {
            cmp_int(va as int, vb as int)
        } else {
            natural_cmp_core(a.skip(ra as int), b.skip(rb as int))
        }
    } else if lower_code(a[0]) != lower_code(b[0]) {
        cmp_int(lower_code(a[0]) as int, lower_code(b[0]) as int)
    } else {
        natural_cmp_core(a.drop_first(), b.drop_first())
    }
}

#[via_fn]
proof fn natural_cmp_core_dec(a: Seq<char>, b: Seq<char>) {
    lemma_digit_run_len_le(a);
    lemma_digit_run_len_le(b);
}

/// Plain lexicographic comparison by code point, lowered or raw; a strict
/// prefix sorts first.
pub open spec fn lex_cmp(a: Seq<char>, b: Seq<char>, lowered: bool) -> Ordering
    decreases a.len() + b.len(),
{
    if a.len() == 0 && b.len() == 0 {
        Ordering::Equal
    } else if a.len() == 0 {
        Ordering::Less
    } else if b.len() == 0 {
        Ordering::Greater
    } else if code_of(a[0], lowered) != code_of(b[0], lowered) {
        cmp_int(code_of(a[0], lowered) as int, code_of(b[0], lowered) as int)
    } else {
        lex_cmp(a.drop_first(), b.drop_first(), lowered)
    }
}

/// The full natural order: the main pass, then a case-insensitive and
/// finally a case-sensitive tie-break.
#[verifier::opaque]
pub open spec fn natural_cmp_spec(a: Seq<char>, b: Seq<char>) -> Ordering {
    then_ordering(natural_cmp_core(a, b), then_ordering(lex_cmp(a, b, true), lex_cmp(a, b, false)))
}

proof fn lemma_digit_run_len_le(s: Seq<char>)
    ensures
        digit_run_len(s) <= s.len(),
    decreases s.len(),
{
    if s.len() > 0 && is_digit_char(s[0]) {
        lemma_digit_run_len_le(s.drop_first());
    }
}

/// A position with the run's properties is the run length.
proof fn lemma_digit_run_len_is(s: Seq<char>, p: int)
    requires
        0 <= p <= s.len(),
        forall|k: int| 0 <= k < p ==> is_digit_char(#[trigger] s[k]),
        p < s.len() ==> !is_digit_char(s[p]),
    ensures
        digit_run_len(s) == p,
    decreases s.len(),
{
    if p == 0 {
    } else {
        assert(is_digit_char(s[0]));
        lemma_digit_run_len_is(s.drop_first(), p - 1);
    }
}

/// Prepending zeros does not change a run's value: all-zero runs denote 0.
proof fn lemma_zeros_value(z: Seq<char>)
    requires
        forall|k: int| 0 <= k < z.len() ==> #[trigger] z[k] == '0',
    ensures
        digits_value(z) == 0,
    decreases z.len(),
{
    if z.len() > 0 {
        lemma_zeros_value(z.drop_last());
        assert(z.last() == '0');
        assert(digit_val('0') == 0);
    }
}

/// Prepending zeros does not change a run's value.
proof fn lemma_zeros_prefix_value(z: Seq<char>, t: Seq<char>)
    requires
        forall|k: int| 0 <= k < z.len() ==> #[trigger] z[k] == '0',
    ensures
        digits_value(z + t) == digits_value(t),
    decreases t.len(),
{
    if t.len() == 0 {
        assert(z + t =~= z);
        lemma_zeros_value(z);
    } else {
        assert((z + t).drop_last() =~= z + t.drop_last());
        assert((z + t).last() == t.last());
        lemma_zeros_prefix_value(z, t.drop_last());
    }
}

/// A run of `n` digits denotes a value below `10^n`.
proof fn lemma_value_upper(s: Seq<char>)
    requires
        forall|k: int| 0 <= k < s.len() ==> is_digit_char(#[trigger] s[k]),
    ensures
        digits_value(s) < pow(10, s.len() as nat),
    decreases s.len(),
{
    reveal(pow);
    if s.len() > 0 {
        lemma_value_upper(s.drop_last());
        assert(pow(10, s.len() as nat) == 10 * pow(10, (s.len() - 1) as nat));
        assert(digit_val(s.last()) <= 9);
    } else {
        assert(pow(10, 0) == 1);
    }
}

/// A run that starts with a nonzero digit denotes at least `10^(n-1)`.
proof fn lemma_value_lower(s: Seq<char>)
    requires
        s.len() > 0,
        forall|k: int| 0 <= k < s.len() ==> is_digit_char(#[trigger] s[k]),
        s[0] != '0',
    ensures
        digits_value(s) >= pow(10, (s.len() - 1) as nat),
    decreases s.len(),
{
    reveal(pow);
    assert(('0') as u32 == 48);
    if digit_val(s[0]) == 0 {
        vstd::utf8::char_u32_cast(s[0], 48);
        vstd::utf8::char_u32_cast('0', 48);
        assert(false);
    }
    if s.len() == 1 {
        assert(pow(10, 0) == 1);
        assert(digit_val(s[0]) >= 1);
        assert(digits_value(s) == digits_value(s.drop_last()) * 10 + digit_val(s.last()));
        assert(digits_value(s.drop_last()) == 0);
        assert(s.last() == s[0]);
    } else {
        lemma_value_lower(s.drop_last());
        assert(pow(10, (s.len() - 1) as nat) == 10 * pow(10, (s.len() - 2) as nat));
    }
}

/// Splitting off the leading digit: `value(s) = s[0] * 10^(n-1) + value(rest)`.
proof fn lemma_value_front(s: Seq<char>)
    requires
        s.len() > 0,
    ensures
        digits_value(s) == digit_val(s[0]) * pow(10, (s.len() - 1) as nat) + digits_value(
            s.drop_first(),
        ),
    decreases s.len(),
{
    reveal(pow);
    if s.len() == 1 {
        assert(s.drop_first() =~= Seq::<char>::empty());
        assert(s.drop_last() =~= Seq::<char>::empty());
        assert(pow(10, 0) == 1);
        assert(s.last() == s[0]);
    } else {
        lemma_value_front(s.drop_last());
        assert(s.drop_last()[0] == s[0]);
        assert(s.drop_last().drop_first() =~= s.drop_first().drop_last());
        assert(s.drop_first().last() == s.last());
        let p = pow(10, (s.len() - 2) as nat);
        assert(pow(10, (s.len() - 1) as nat) == 10 * p);
        let d0 = digit_val(s[0]);
        let mid = digits_value(s.drop_first().drop_last());
        assert(digits_value(s.drop_last()) == d0 * p + mid);
        assert(digits_value(s) == (d0 * p + mid) * 10 + digit_val(s.last()));
        assert((d0 * p + mid) * 10 == d0 * p * 10 + mid * 10) by (nonlinear_arith);
        assert(d0 * p * 10 == d0 * (10 * p)) by (nonlinear_arith);
        assert(digits_value(s.drop_first()) == mid * 10 + digit_val(s.last()));
    }
}

/// For equal-length digit runs, the first differing digit decides the value
/// comparison.
proof fn lemma_lex_value(s: Seq<char>, t: Seq<char>, k: int)
    requires
        s.len() == t.len(),
        forall|j: int| 0 <= j < s.len() ==> is_digit_char(#[trigger] s[j]),
        forall|j: int| 0 <= j < t.len() ==> is_digit_char(#[trigger] t[j]),
        0 <= k < s.len(),
        forall|j: int| 0 <= j < k ==> #[trigger] s[j] == t[j],
        digit_val(s[k]) < digit_val(t[k]),
    ensures
        digits_value(s) < digits_value(t),
    decreases k,
{
    reveal(pow);
    lemma_value_front(s);
    lemma_value_front(t);
    let p = pow(10, (s.len() - 1) as nat);
    vstd::arithmetic::power::lemma_pow_positive(10, (s.len() - 1) as nat);
    if k == 0 {
        lemma_value_upper(s.drop_first());
        lemma_value_upper(t.drop_first());
        assert(pow(10, (s.len() - 1) as nat) == pow(10, s.drop_first().len() as nat));
        assert(digit_val(s[0]) + 1 <= digit_val(t[0]));
        assert((digit_val(s[0]) + 1) * p == digit_val(s[0]) * p + p) by (nonlinear_arith);
        assert((digit_val(s[0]) + 1) * p <= digit_val(t[0]) * p) by (nonlinear_arith)
            requires
                digit_val(s[0]) + 1 <= digit_val(t[0]),
                p > 0,
        ;
    } else {
        assert(s[0] == t[0]);
        assert forall|j: int| 0 <= j < k - 1 implies #[trigger] s.drop_first()[j]
            == t.drop_first()[j] by {
            assert(s[j + 1] == t[j + 1]);
        }
        assert(s.drop_first()[k - 1] == s[k]);
        assert(t.drop_first()[k - 1] == t[k]);
        lemma_lex_value(s.drop_first(), t.drop_first(), k - 1);
    }
}

fn is_digit(c: char) -> (r: bool)
    ensures
        r == is_digit_char(c),
{
    let u = c as u32;
    48 <= u && u <= 57
}

fn lower_code_of(c: char) -> (r: u32)
    ensures
        r == lower_code(c),
{
    let u = c as u32;
    if 65 <= u && u <= 90 {
        u + 32
    } else {
        u
    }
}

fn cmp_u32(x: u32, y: u32) -> (r: Ordering)
    ensures
        r == cmp_int(x as int, y as int),
{
    if x < y {
        Ordering::Less
    } else if x == y {
        Ordering::Equal
    } else {
        Ordering::Greater
    }
}

/// One past the end of the digit run that starts at `start`.
#[verifier::loop_isolation(false)]
fn digit_run_end(v: &Vec<char>, start: usize) -> (e: usize)
    requires
        start <= v.len(),
    ensures
        start <= e <= v.len(),
        digit_run_len(v@.skip(start as int)) == e - start,
        forall|k: int| start <= k < e ==> is_digit_char(#[trigger] v@[k]),
{
    let mut e: usize = start;
    while e < v.len() && is_digit(v[e])
        invariant
            start <= e <= v.len(),
            forall|k: int| start <= k < e ==> is_digit_char(#[trigger] v@[k]),
        decreases v.len() - e,
    {
        e = e + 1;
    }
    proof {
        let s = v@.skip(start as int);
        assert forall|k: int| 0 <= k < e - start implies is_digit_char(#[trigger] s[k]) by {
            assert(s[k] == v@[start + k]);
        }
        if e < v.len() {
            assert(s[e - start] == v@[e as int]);
        }
        lemma_digit_run_len_is(s, e - start);
    }
    e
}

/// Compare two digit runs by their numeric values, without computing the
/// values: strip leading zeros, then compare by length and lexicographically.
#[verifier::loop_isolation(false)]
fn cmp_digit_runs(a: &Vec<char>, ia: usize, ea: usize, b: &Vec<char>, ib: usize, eb: usize) -> (r:
    Ordering)
    requires
        ia <= ea <= a.len(),
        ib <= eb <= b.len(),
        forall|k: int| ia <= k < ea ==> is_digit_char(#[trigger] a@[k]),
        forall|k: int| ib <= k < eb ==> is_digit_char(#[trigger] b@[k]),
    ensures
        r == cmp_int(
            digits_value(a@.subrange(ia as int, ea as int)) as int,
            digits_value(b@.subrange(ib as int, eb as int)) as int,
        ),
{
    proof {
        reveal(pow);
    }
    let mut za: usize = ia;
    while za < ea && a[za] as u32 == 48
        invariant
            ia <= za <= ea,
            forall|k: int| ia <= k < za ==> #[trigger] a@[k] as u32 == 48,
        decreases ea - za,
    {
        za = za + 1;
    }
    let mut zb: usize = ib;
    while zb < eb && b[zb] as u32 == 48
        invariant
            ib <= zb <= eb,
            forall|k: int| ib <= k < zb ==> #[trigger] b@[k] as u32 == 48,
        decreases eb - zb,
    {
        zb = zb + 1;
    }
    let ghost fa = a@.subrange(ia as int, ea as int);
    let ghost fb = b@.subrange(ib as int, eb as int);
    let ghost ta = a@.subrange(za as int, ea as int);
    let ghost tb = b@.subrange(zb as int, eb as int);
    proof {
        assert forall|k: int| ia <= k < za implies #[trigger] a@[k] == '0' by {
            vstd::utf8::char_u32_cast(a@[k], 48);
            vstd::utf8::char_u32_cast('0', 48);
        }
        assert forall|k: int| ib <= k < zb implies #[trigger] b@[k] == '0' by {
            vstd::utf8::char_u32_cast(b@[k], 48);
            vstd::utf8::char_u32_cast('0', 48);
        }
        let zza = a@.subrange(ia as int, za as int);
        assert(fa =~= zza + ta);
        lemma_zeros_prefix_value(zza, ta);
        let zzb = b@.subrange(ib as int, zb as int);
        assert(fb =~= zzb + tb);
        lemma_zeros_prefix_value(zzb, tb);
        assert forall|k: int| 0 <= k < ta.len() implies is_digit_char(#[trigger] ta[k]) by {
            assert(ta[k] == a@[za + k]);
        }
        assert forall|k: int| 0 <= k < tb.len() implies is_digit_char(#[trigger] tb[k]) by {
            assert(tb[k] == b@[zb + k]);
        }
    }
    let la = ea - za;
    let lb = eb - zb;
    if la < lb {
        proof {
            lemma_value_lower(tb);
            vstd::arithmetic::power::lemma_pow_positive(10, (lb - 1) as nat);
            if la > 0 {
                lemma_value_upper(ta);
                vstd::arithmetic::power::lemma_pow_increases(10, la as nat, (lb - 1) as nat);
            }
        }
        return Ordering::Less;
    }
    if la > lb {
        proof {
            lemma_value_lower(ta);
            vstd::arithmetic::power::lemma_pow_positive(10, (la - 1) as nat);
            if lb > 0 {
                lemma_value_upper(tb);
                vstd::arithmetic::power::lemma_pow_increases(10, lb as nat, (la - 1) as nat);
            }
        }
        return Ordering::Greater;
    }
    let mut k: usize = 0;
    while k < la
        invariant
            0 <= k <= la,
            la == ea - za,
            la == eb - zb,
            ia <= za <= ea <= a.len(),
            ib <= zb <= eb <= b.len(),
            ta == a@.subrange(za as int, ea as int),
            tb == b@.subrange(zb as int, eb as int),
            forall|j: int| 0 <= j < k ==> #[trigger] ta[j] == tb[j],
            forall|j: int| 0 <= j < ta.len() ==> is_digit_char(#[trigger] ta[j]),
            forall|j: int| 0 <= j < tb.len() ==> is_digit_char(#[trigger] tb[j]),
        decreases la - k,
    {
        let ca = a[za + k] as u32;
        let cb = b[zb + k] as u32;
        proof {
            assert(ta[k as int] == a@[za + k]);
            assert(tb[k as int] == b@[zb + k]);
        }
        if ca < cb {
            proof {
                lemma_lex_value(ta, tb, k as int);
            }
            return Ordering::Less;
        }
        if ca > cb {
            proof {
                lemma_lex_value(tb, ta, k as int);
            }
            return Ordering::Greater;
        }
        proof {
            vstd::utf8::char_u32_cast(a@[za + k], ca);
            vstd::utf8::char_u32_cast(b@[zb + k], cb);
        }
        k = k + 1;
    }
    proof {
        assert(ta =~= tb);
    }
    Ordering::Equal
}

/// The natural comparison over character vectors.
#[verifier::loop_isolation(false)]
pub fn natural_cmp_chars(a: &Vec<char>, b: &Vec<char>) -> (r: Ordering)
    ensures
        r == natural_cmp_spec(a@, b@),
{
    proof {
        reveal(natural_cmp_spec);
    }
    let mut i: usize = 0;
    let mut j: usize = 0;
    proof {
        assert(a@.skip(0) =~= a@);
        assert(b@.skip(0) =~= b@);
    }
    loop
        invariant
            i <= a.len(),
            j <= b.len(),
            natural_cmp_core(a@, b@) == natural_cmp_core(a@.skip(i as int), b@.skip(j as int)),
        decreases a.len() - i + b.len() - j,
    {
        let ghost sa = a@.skip(i as int);
        let ghost sb = b@.skip(j as int);
        if i == a.len() && j == b.len() {
            proof {
                assert(sa.len() == 0 && sb.len() == 0);
            }
            let l1 = lex_cmp_chars(a, b, true);
            if !matches!(l1, Ordering::Equal) {
                return l1;
            }
            return lex_cmp_chars(a, b, false);
        }
        if i == a.len() {
            proof {
                assert(sa.len() == 0 && sb.len() > 0);
            }
            return Ordering::Less;
        }
        if j == b.len() {
            return Ordering::Greater;
        }
        proof {
            assert(sa[0] == a@[i as int]);
            assert(sb[0] == b@[j as int]);
        }
        let da = is_digit(a[i]);
        let db = is_digit(b[j]);
        if da && db {
            let ea = digit_run_end(a, i);
            let eb = digit_run_end(b, j);
            proof {
                assert(sa.take((ea - i) as int) =~= a@.subrange(i as int, ea as int));
                assert(sb.take((eb - j) as int) =~= b@.subrange(j as int, eb as int));
            }
            let r = cmp_digit_runs(a, i, ea, b, j, eb);
            if !matches!(r, Ordering::Equal) {
                return r;
            }
            proof {
                assert(sa.skip((ea - i) as int) =~= a@.skip(ea as int));
                assert(sb.skip((eb - j) as int) =~= b@.skip(eb as int));
                assert(ea > i && eb > j);
            }
            i = ea;
            j = eb;
        } else {
            let ca = lower_code_of(a[i]);
            let cb = lower_code_of(b[j]);
            if ca != cb {
                return cmp_u32(ca, cb);
            }
            proof {
                assert(sa.drop_first() =~= a@.skip(i + 1));
                assert(sb.drop_first() =~= b@.skip(j + 1));
            }
            i = i + 1;
            j = j + 1;
        }
    }
}

#[verifier::loop_isolation(false)]
fn lex_cmp_chars(a: &Vec<char>, b: &Vec<char>, lowered: bool) -> (r: Ordering)
    ensures
        r == lex_cmp(a@, b@, lowered),
{
    let mut i: usize = 0;
    proof {
        assert(a@.skip(0) =~= a@);
        assert(b@.skip(0) =~= b@);
    }
    loop
        invariant
            i <= a.len(),
            i <= b.len(),
            lex_cmp(a@, b@, lowered) == lex_cmp(a@.skip(i as int), b@.skip(i as int), lowered),
        decreases a.len() - i,
    {
        let ghost sa = a@.skip(i as int);
        let ghost sb = b@.skip(i as int);
        if i == a.len() && i == b.len() {
            return Ordering::Equal;
        }
        if i == a.len() {
            return Ordering::Less;
        }
        if i == b.len() {
            return Ordering::Greater;
        }
        proof {
            assert(sa[0] == a@[i as int]);
            assert(sb[0] == b@[i as int]);
        }
        let ca = if lowered {
            lower_code_of(a[i])
        } else {
            a[i] as u32
        };
        let cb = if lowered {
            lower_code_of(b[i])
        } else {
            b[i] as u32
        };
        if ca != cb {
            return cmp_u32(ca, cb);
        }
        proof {
            assert(sa.drop_first() =~= a@.skip(i + 1));
            assert(sb.drop_first() =~= b@.skip(i + 1));
        }
        i = i + 1;
    }
}

/// The natural comparison of two strings: the order used for page files,
/// archive entries and candidate paths.
pub fn natural_cmp(a: &str, b: &str) -> (r: Ordering)
    ensures
        r == natural_cmp_spec(a@, b@),
{
    let av = chars_of(a);
    let bv = chars_of(b);
    natural_cmp_chars(&av, &bv)
}


proof fn lemma_core_antisym(a: Seq<char>, b: Seq<char>)
    ensures
        natural_cmp_core(a, b) == flip_ordering(natural_cmp_core(b, a)),
    decreases a.len() + b.len(),
{
    lemma_digit_run_len_le(a);
    lemma_digit_run_len_le(b);
    if a.len() == 0 && b.len() == 0 {
    } else if a.len() == 0 {
    } else if b.len() == 0 {
    } else if is_digit_char(a[0]) && is_digit_char(b[0]) {
        let ra = digit_run_len(a);
        let rb = digit_run_len(b);
        if digits_value(a.take(ra as int)) == digits_value(b.take(rb as int)) {
            lemma_core_antisym(a.skip(ra as int), b.skip(rb as int));
        }
    } else if lower_code(a[0]) != lower_code(b[0]) {
    } else {
        lemma_core_antisym(a.drop_first(), b.drop_first());
    }
}

proof fn lemma_lex_antisym(a: Seq<char>, b: Seq<char>, lowered: bool)
    ensures
        lex_cmp(a, b, lowered) == flip_ordering(lex_cmp(b, a, lowered)),
    decreases a.len() + b.len(),
{
    if a.len() > 0 && b.len() > 0 && code_of(a[0], lowered) == code_of(b[0], lowered) {
        lemma_lex_antisym(a.drop_first(), b.drop_first(), lowered);
    }
}

/// Law: the natural comparison is antisymmetric; swapping the arguments
/// flips the result.
pub proof fn lemma_natural_cmp_antisymmetric(a: Seq<char>, b: Seq<char>)
    ensures
        natural_cmp_spec(a, b) == flip_ordering(natural_cmp_spec(b, a)),
{
    reveal(natural_cmp_spec);
    lemma_core_antisym(a, b);
    lemma_lex_antisym(a, b, true);
    lemma_lex_antisym(a, b, false);
}

proof fn lemma_core_refl(a: Seq<char>)
    ensures
        natural_cmp_core(a, a) == Ordering::Equal,
    decreases a.len(),
{
    lemma_digit_run_len_le(a);
    if a.len() == 0 {
    } else if is_digit_char(a[0]) {
        let ra = digit_run_len(a);
        assert(ra >= 1);
        lemma_core_refl(a.skip(ra as int));
    } else {
        lemma_core_refl(a.drop_first());
    }
}

proof fn lemma_lex_refl(a: Seq<char>, lowered: bool)
    ensures
        lex_cmp(a, a, lowered) == Ordering::Equal,
    decreases a.len(),
{
    if a.len() > 0 {
        lemma_lex_refl(a.drop_first(), lowered);
    }
}

proof fn lemma_lex_equal_implies_eq(a: Seq<char>, b: Seq<char>)
    requires
        lex_cmp(a, b, false) == Ordering::Equal,
    ensures
        a == b,
    decreases a.len() + b.len(),
{
    if a.len() == 0 && b.len() == 0 {
        assert(a =~= b);
    } else if a.len() == 0 || b.len() == 0 {
    } else {
        assert(code_of(a[0], false) == code_of(b[0], false));
        vstd::utf8::char_u32_cast(a[0], a[0] as u32);
        vstd::utf8::char_u32_cast(b[0], b[0] as u32);
        assert(a[0] == b[0]);
        lemma_lex_equal_implies_eq(a.drop_first(), b.drop_first());
        assert forall|k: int| 0 <= k < a.len() implies a[k] == b[k] by {
            if k > 0 {
                assert(a.drop_first()[k - 1] == b.drop_first()[k - 1]);
            }
        }
        assert(a =~= b);
    }
}

/// A digit keeps its code under lowering; a non-digit never lowers into
/// the digit range.
proof fn lemma_lower_digit(ch: char)
    ensures
        is_digit_char(ch) ==> lower_code(ch) == ch as u32,
        !is_digit_char(ch) ==> !(48 <= lower_code(ch) <= 57),
{
}

/// The main pass respects chaining: two non-descending steps never
/// compose to a descending one.
#[verifier::rlimit(100)]
#[verifier::spinoff_prover]
proof fn lemma_core_trans_le(a: Seq<char>, b: Seq<char>, c: Seq<char>)
    requires
        natural_cmp_core(a, b) != Ordering::Greater,
        natural_cmp_core(b, c) != Ordering::Greater,
    ensures
        natural_cmp_core(a, c) != Ordering::Greater,
    decreases a.len() + b.len() + c.len(),
{
    lemma_digit_run_len_le(a);
    lemma_digit_run_len_le(b);
    lemma_digit_run_len_le(c);
    if a.len() == 0 {
    } else if c.len() == 0 {
        assert(b.len() == 0);
        assert(false);
    } else if b.len() == 0 {
        assert(false);
    } else {
        let da = is_digit_char(a[0]);
        let db = is_digit_char(b[0]);
        let dc = is_digit_char(c[0]);
        lemma_lower_digit(a[0]);
        lemma_lower_digit(b[0]);
        lemma_lower_digit(c[0]);
        if da && db && dc {
            let ra = digit_run_len(a);
            let rb = digit_run_len(b);
            let rc = digit_run_len(c);
            let va = digits_value(a.take(ra as int));
            let vb = digits_value(b.take(rb as int));
            let vc = digits_value(c.take(rc as int));
            assert(va <= vb);
            assert(vb <= vc);
            if va == vc {
                assert(va == vb && vb == vc);
                lemma_core_trans_le(a.skip(ra as int), b.skip(rb as int), c.skip(rc as int));
            }
        } else if da && db && !dc {
            assert(lower_code(b[0]) < lower_code(c[0]));
            assert(lower_code(c[0]) > 57);
            assert(lower_code(a[0]) <= 57);
        } else if !da && db {
            assert(lower_code(a[0]) != lower_code(b[0]));
            assert(lower_code(a[0]) < lower_code(b[0]));
            assert(lower_code(a[0]) < 48);
            if dc {
                assert(lower_code(c[0]) >= 48);
            } else {
                assert(lower_code(b[0]) <= 57);
                if lower_code(b[0]) == lower_code(c[0]) {
                } else {
                    assert(lower_code(b[0]) < lower_code(c[0]));
                }
                assert(lower_code(a[0]) < lower_code(c[0]));
            }
        } else if da && !db && dc {
            assert(lower_code(a[0]) < lower_code(b[0]));
            assert(lower_code(b[0]) > 57);
            assert(lower_code(b[0]) < lower_code(c[0]));
            assert(lower_code(c[0]) <= 57);
            assert(false);
        } else if da && !db && !dc {
            assert(lower_code(a[0]) < lower_code(b[0]));
            assert(lower_code(b[0]) <= lower_code(c[0]));
            assert(lower_code(a[0]) < lower_code(c[0]));
            assert(lower_code(a[0]) <= 57);
            assert(lower_code(c[0]) > 57);
        } else {
            assert(!da && !db);
            let la = lower_code(a[0]);
            let lb = lower_code(b[0]);
            let lc = lower_code(c[0]);
            assert(la <= lb);
            assert(lb <= lc);
            if la == lc {
                assert(la == lb && lb == lc);
                assert(!dc);
                lemma_core_trans_le(a.drop_first(), b.drop_first(), c.drop_first());
            }
        }
    }
}

/// Lexicographic comparison respects chaining too.
proof fn lemma_lex_trans_le(a: Seq<char>, b: Seq<char>, c: Seq<char>, lowered: bool)
    requires
        lex_cmp(a, b, lowered) != Ordering::Greater,
        lex_cmp(b, c, lowered) != Ordering::Greater,
    ensures
        lex_cmp(a, c, lowered) != Ordering::Greater,
    decreases a.len() + b.len() + c.len(),
{
    if a.len() == 0 {
    } else if c.len() == 0 {
        assert(b.len() == 0);
        assert(false);
    } else if b.len() == 0 {
        assert(false);
    } else {
        let ka = code_of(a[0], lowered);
        let kb = code_of(b[0], lowered);
        let kc = code_of(c[0], lowered);
        assert(ka <= kb);
        assert(kb <= kc);
        if ka == kc {
            assert(ka == kb && kb == kc);
            lemma_lex_trans_le(a.drop_first(), b.drop_first(), c.drop_first(), lowered);
        }
    }
}

/// Law: the natural order is transitive; with antisymmetry and the
/// equality law it is a total order on strings.
pub proof fn lemma_natural_cmp_transitive(a: Seq<char>, b: Seq<char>, c: Seq<char>)
    requires
        natural_cmp_spec(a, b) != Ordering::Greater,
        natural_cmp_spec(b, c) != Ordering::Greater,
    ensures
        natural_cmp_spec(a, c) != Ordering::Greater,
{
    reveal(natural_cmp_spec);
    let cab = natural_cmp_core(a, b);
    let cbc = natural_cmp_core(b, c);
    let cac = natural_cmp_core(a, c);
    assert(cab != Ordering::Greater);
    assert(cbc != Ordering::Greater);
    lemma_core_trans_le(a, b, c);
    if cac == Ordering::Equal {
        if cab == Ordering::Less {
            lemma_core_antisym(a, c);
            assert(natural_cmp_core(c, a) == Ordering::Equal);
            lemma_core_trans_le(b, c, a);
            lemma_core_antisym(a, b);
            assert(false);
        }
        if cbc == Ordering::Less {
            lemma_core_antisym(a, c);
            lemma_core_trans_le(c, a, b);
            lemma_core_antisym(b, c);
            assert(false);
        }
        assert(cab == Ordering::Equal && cbc == Ordering::Equal);
        let wab = lex_cmp(a, b, true);
        let wbc = lex_cmp(b, c, true);
        let wac = lex_cmp(a, c, true);
        assert(wab != Ordering::Greater);
        assert(wbc != Ordering::Greater);
        lemma_lex_trans_le(a, b, c, true);
        if wac == Ordering::Equal {
            if wab == Ordering::Less {
                lemma_lex_antisym(a, c, true);
                lemma_lex_trans_le(b, c, a, true);
                lemma_lex_antisym(a, b, true);
                assert(false);
            }
            if wbc == Ordering::Less {
                lemma_lex_antisym(a, c, true);
                lemma_lex_trans_le(c, a, b, true);
                lemma_lex_antisym(b, c, true);
                assert(false);
            }
            assert(lex_cmp(a, b, false) != Ordering::Greater);
            assert(lex_cmp(b, c, false) != Ordering::Greater);
            lemma_lex_trans_le(a, b, c, false);
        }
    }
}

/// Law: the natural comparison returns `Equal` exactly for identical
/// strings, so the order is total and deterministic.
pub proof fn lemma_natural_cmp_equal_iff(a: Seq<char>, b: Seq<char>)
    ensures
        (natural_cmp_spec(a, b) == Ordering::Equal) <==> (a == b),
{
    reveal(natural_cmp_spec);
    if a == b {
        lemma_core_refl(a);
        lemma_lex_refl(a, true);
        lemma_lex_refl(a, false);
    }
    if natural_cmp_spec(a, b) == Ordering::Equal {
        assert(lex_cmp(a, b, false) == Ordering::Equal);
        lemma_lex_equal_implies_eq(a, b);
    }
}

} // verus!
