//! Reading a komi the way a decimal float is read: an optional sign, digits
//! with an optional point, and an optional exponent, counted in hundredths
//! of a point with any further digits dropped.

use vstd::prelude::*;

use crate::text::{
    all_digits, digits_value, is_digit, leading_digits, lemma_digits_value_grows,
    lemma_digits_value_prefix, lemma_leading_digits, lemma_leading_digits_at, lemma_leading_stop,
};

verus! {

/// Ten to the power `k`.
pub open spec fn pow10(k: nat) -> nat
    decreases k,
{
    if k == 0 {
        1
    } else {
        10 * pow10((k - 1) as nat)
    }
}

/// `m` times ten to the power `k`, with the digits that a negative power
/// pushes past the point dropped.
pub open spec fn scaled(m: nat, k: int) -> nat {
    if k >= 0 {
        m * pow10(k as nat)
    } else {
        m / pow10((-k) as nat)
    }
}

/// The largest number of hundredths a komi of sign `neg` can hold.
pub open spec fn hundredths_limit(neg: bool) -> int {
    if neg {
        2147483648
    } else {
        2147483647
    }
}

/// The parts of a decimal float: whether it is negative, its digits with
/// the point taken out, and the power of ten they are scaled by. The text
/// is an optional sign, digits with an optional point and at least one
/// digit, then optionally `e` or `E`, an optional sign and one or more
/// digits; `None` for anything else.
pub open spec fn komi_parts(s: Seq<u8>) -> Option<(bool, Seq<u8>, int)> {
    let neg = s.len() > 0 && s[0] == 45;
    let ip = komi_whole(s);
    let fp = komi_fraction(s);
    if ip.len() + fp.len() == 0 {
        None
    } else {
        match exponent_of(komi_tail(s)) {
            None => None,
            Some(e) => Some((neg, ip + fp, e - fp.len())),
        }
    }
}

/// The text after an optional leading sign.
pub open spec fn komi_body(s: Seq<u8>) -> Seq<u8> {
    if s.len() > 0 && (s[0] == 43 || s[0] == 45) {
        s.drop_first()
    } else {
        s
    }
}

/// The digits before the point.
pub open spec fn komi_whole(s: Seq<u8>) -> Seq<u8> {
    komi_body(s).take(leading_digits(komi_body(s)) as int)
}

/// What follows the digits before the point.
pub open spec fn komi_after_whole(s: Seq<u8>) -> Seq<u8> {
    komi_body(s).skip(leading_digits(komi_body(s)) as int)
}

pub open spec fn komi_has_point(s: Seq<u8>) -> bool {
    komi_after_whole(s).len() > 0 && komi_after_whole(s)[0] == 46
}

/// The digits after the point, if there is one.
pub open spec fn komi_fraction(s: Seq<u8>) -> Seq<u8> {
    let a = komi_after_whole(s).drop_first();
    if komi_has_point(s) {
        a.take(leading_digits(a) as int)
    } else {
        Seq::empty()
    }
}

/// What follows the digits.
pub open spec fn komi_tail(s: Seq<u8>) -> Seq<u8> {
    let a = komi_after_whole(s).drop_first();
    if komi_has_point(s) {
        a.skip(leading_digits(a) as int)
    } else {
        komi_after_whole(s)
    }
}

/// The exponent that ends a decimal float: nothing (zero), or `e` or `E`,
/// an optional sign and one or more digits; `None` for anything else.
pub open spec fn exponent_of(tail: Seq<u8>) -> Option<int> {
    if tail.len() == 0 {
        Some(0)
    } else if tail[0] != 101 && tail[0] != 69 {
        None
    } else {
        let t = tail.drop_first();
        let eneg = t.len() > 0 && t[0] == 45;
        let esigned = t.len() > 0 && (t[0] == 43 || t[0] == 45);
        let ed = if esigned { t.drop_first() } else { t };
        if ed.len() == 0 || !all_digits(ed) {
            None
        } else {
            Some(if eneg { -(digits_value(ed) as int) } else { digits_value(ed) as int })
        }
    }
}

/// `s` read as a komi in hundredths of a point: a decimal float as
/// `komi_parts` describes it, with any digits beyond the hundredths
/// dropped; `None` for text of another form (`inf` and `nan` among them)
/// and for a value beyond what an `i32` of hundredths holds.
pub open spec fn parse_hundredths(s: Seq<u8>) -> Option<i32> {
    match komi_parts(s) {
        None => None,
        Some((neg, d, sc)) => {
            let h: int = scaled(digits_value(d), sc + 2) as int;
            if h > hundredths_limit(neg) {
                None
            } else {
                Some((if neg { -h } else { h }) as i32)
            }
        },
    }
}

// ------------------------------------------------------------------ powers

pub proof fn lemma_pow10_grows(a: nat, b: nat)
    requires
        a <= b,
    ensures
        1 <= pow10(a) <= pow10(b),
    decreases b,
{
    if b > 0 {
        if a <= b - 1 {
            lemma_pow10_grows(a, (b - 1) as nat);
        } else {
            lemma_pow10_grows(0, (b - 1) as nat);
        }
    }
}

proof fn lemma_pow10_eleven()
    ensures
        pow10(11) == 100_000_000_000,
{
    reveal_with_fuel(pow10, 12);
}

/// A nonzero number times at least eleven powers of ten exceeds every
/// komi.
proof fn lemma_too_big(m: nat, k: nat)
    requires
        m >= 1,
        k >= 11,
    ensures
        m * pow10(k) > 2147483648,
{
    lemma_pow10_grows(11, k);
    lemma_pow10_eleven();
    assert(m * pow10(k) >= pow10(k)) by (nonlinear_arith)
        requires
            m >= 1,
    ;
}

/// A run of `n` digits is below ten to the `n`.
pub proof fn lemma_digits_below(d: Seq<u8>)
    requires
        all_digits(d),
    ensures
        digits_value(d) < pow10(d.len()),
    decreases d.len(),
{
    if d.len() > 0 {
        assert(all_digits(d.drop_last()));
        lemma_digits_below(d.drop_last());
        let x = digits_value(d.drop_last());
        let p = pow10((d.len() - 1) as nat);
        assert(is_digit(d[d.len() - 1]));
        assert(x * 10 + (d.last() - 48) < 10 * p) by (nonlinear_arith)
            requires
                x < p,
                0 <= d.last() - 48 < 10,
        ;
    }
}

/// Dividing by ten to the `j` drops the last `j` digits.
pub proof fn lemma_digits_drop(d: Seq<u8>, j: nat)
    requires
        all_digits(d),
        j <= d.len(),
    ensures
        digits_value(d) / pow10(j) == digits_value(d.take(d.len() - j)),
    decreases j,
{
    if j == 0 {
        assert(d.take(d.len() as int) =~= d);
    } else {
        lemma_digits_drop(d, (j - 1) as nat);
        let t = d.take(d.len() - j + 1);
        assert(t.drop_last() =~= d.take(d.len() - j));
        assert(is_digit(t.last())) by {
            assert(t.last() == d[d.len() - j]);
        }
        let x = digits_value(d);
        let p = pow10((j - 1) as nat);
        lemma_pow10_grows(0, (j - 1) as nat);
        vstd::arithmetic::div_mod::lemma_div_denominator(x as int, p as int, 10);
        assert(p * 10 == pow10(j));
        let y = digits_value(t.drop_last());
        assert((y * 10 + (t.last() - 48)) / 10 == y) by (nonlinear_arith)
            requires
                0 <= t.last() - 48 < 10,
                y >= 0,
        ;
    }
}

/// The value of digits written one after the other.
pub proof fn lemma_digits_concat(a: Seq<u8>, b: Seq<u8>)
    ensures
        digits_value(a + b) == digits_value(a) * pow10(b.len()) + digits_value(b),
    decreases b.len(),
{
    if b.len() == 0 {
        assert(a + b =~= a);
        assert(pow10(0) == 1);
        assert(digits_value(b) == 0);
        assert(digits_value(a) * 1 == digits_value(a));
    } else {
        lemma_digits_concat(a, b.drop_last());
        assert((a + b).drop_last() =~= a + b.drop_last());
        assert((a + b).last() == b.last());
        let x = digits_value(a);
        let p = pow10((b.len() - 1) as nat);
        let y = digits_value(b.drop_last());
        let c = (b.last() - 48) as nat;
        assert(digits_value(a + b) == digits_value(a + b.drop_last()) * 10 + c);
        assert(digits_value(b) == y * 10 + c);
        assert(pow10(b.len()) == 10 * p);
        assert(digits_value(a + b.drop_last()) == x * p + y);
        assert((x * p + y) * 10 + c == x * (10 * p) + (y * 10 + c)) by (nonlinear_arith);
        assert(digits_value(a + b) == x * pow10(b.len()) + digits_value(b));
    }
}

// ----------------------------------------------------------------- reading

/// Where the run of digits that starts at `from` ends.
fn digits_end(s: &[u8], from: usize) -> (r: usize)
    requires
        from <= s@.len(),
    ensures
        from <= r <= s@.len(),
        r - from == leading_digits(s@.skip(from as int)),
        forall|k: int| from <= k < r ==> is_digit(#[trigger] s@[k]),
        r < s@.len() ==> !is_digit(s@[r as int]),
{
    let ghost t = s@.skip(from as int);
    proof {
        lemma_leading_digits(t);
    }
    let mut i = from;
    while i < s.len() && 48 <= s[i] && s[i] <= 57
        invariant
            from <= i <= s@.len(),
            t == s@.skip(from as int),
            i - from <= leading_digits(t),
            forall|k: int| from <= k < i ==> is_digit(#[trigger] s@[k]),
        decreases s@.len() - i,
    {
        proof {
            assert forall|k: int| 0 <= k < i - from implies is_digit(#[trigger] t[k]) by {
                assert(t[k] == s@[from + k]);
            }
            assert(t[i - from] == s@[i as int]);
            lemma_leading_digits_at(t, i - from);
        }
        i += 1;
    }
    proof {
        assert forall|k: int| 0 <= k < i - from implies is_digit(#[trigger] t[k]) by {
            assert(t[k] == s@[from + k]);
        }
        if i < s@.len() {
            assert(t[i - from] == s@[i as int]);
        }
        lemma_leading_stop(t, i - from);
    }
    i
}

/// The value of the first `m` digits of the mantissa, which lies in
/// `s[a..b]` followed by `s[c..e]`; `None` where it exceeds every komi.
fn mantissa_prefix(s: &[u8], a: usize, b: usize, c: usize, e: usize, m: usize, Ghost(d): Ghost<Seq<u8>>) -> (r: Option<u64>)
    requires
        a <= b <= s@.len(),
        c <= e <= s@.len(),
        d == s@.subrange(a as int, b as int) + s@.subrange(c as int, e as int),
        all_digits(d),
        m <= d.len(),
    ensures
        match r {
            Some(v) => v == digits_value(d.take(m as int)) && v <= 2147483648,
            None => digits_value(d.take(m as int)) > 2147483648,
        },
{
    let mut acc: u64 = 0;
    let mut t: usize = 0;
    assert(d.take(0) =~= Seq::<u8>::empty());
    while t < m
        invariant
            a <= b <= s@.len(),
            c <= e <= s@.len(),
            d == s@.subrange(a as int, b as int) + s@.subrange(c as int, e as int),
            all_digits(d),
            m <= d.len(),
            t <= m,
            acc == digits_value(d.take(t as int)),
            acc <= 2147483648,
        decreases m - t,
    {
        let x = if t < b - a { s[a + t] } else { s[c + (t - (b - a))] };
        assert(x == d[t as int]);
        proof {
            lemma_digits_value_prefix(d, t as int);
        }
        acc = acc * 10 + (x - 48) as u64;
        t += 1;
        if acc > 2147483648 {
            proof {
                let dm = d.take(m as int);
                assert(all_digits(dm));
                lemma_digits_value_grows(dm, t as int);
                assert(dm.take(t as int) =~= d.take(t as int));
            }
            return None;
        }
    }
    Some(acc)
}

/// `x`, or `c` where `x` reaches it.
pub open spec fn capped(x: nat, c: int) -> int {
    if x >= c {
        c
    } else {
        x as int
    }
}

/// The digits of an exponent, from `p` to the end, their value capped at
/// the length of the text plus 64; `None` where one is not a digit.
fn exponent_value(s: &[u8], p: usize) -> (r: Option<i128>)
    requires
        p <= s@.len(),
    ensures
        match r {
            None => !all_digits(s@.skip(p as int)),
            Some(v) => all_digits(s@.skip(p as int)) && v == capped(
                digits_value(s@.skip(p as int)),
                s@.len() + 64int,
            ),
        },
{
    let n = s.len();
    let cap: i128 = n as i128 + 64;
    let ghost ed = s@.skip(p as int);
    let mut ev: i128 = 0;
    let mut q = p;
    assert(s@.subrange(p as int, p as int) =~= Seq::<u8>::empty());
    while q < n
        invariant
            p <= q <= n,
            n == s@.len(),
            cap == n + 64,
            ed == s@.skip(p as int),
            forall|k: int| p <= k < q ==> is_digit(#[trigger] s@[k]),
            ev == capped(digits_value(s@.subrange(p as int, q as int)), cap as int),
        decreases n - q,
    {
        let x = s[q];
        if !(48 <= x && x <= 57) {
            assert(!all_digits(ed)) by {
                assert(ed[q - p] == x);
            }
            return None;
        }
        proof {
            let w = s@.subrange(p as int, q + 1);
            assert(w.drop_last() =~= s@.subrange(p as int, q as int));
            assert(w.last() == x);
        }
        if ev >= cap {
            ev = cap;
        } else {
            let y = ev * 10 + (x - 48) as i128;
            ev = if y > cap { cap } else { y };
        }
        q += 1;
    }
    assert(s@.subrange(p as int, n as int) =~= ed);
    assert(all_digits(ed)) by {
        assert forall|k: int| 0 <= k < ed.len() implies is_digit(#[trigger] ed[k]) by {
            assert(ed[k] == s@[p + k]);
        }
    }
    Some(ev)
}

/// The mantissa `d`, which lies in `s[a..b]` followed by `s[c..e]`,
/// shifted by `kt` places; `k` may stand for `kt` where the two give the
/// same answer: both too large, or both zero.
fn shifted(s: &[u8], a: usize, b: usize, c: usize, e: usize, k: i128, Ghost(d): Ghost<Seq<u8>>, Ghost(kt): Ghost<int>) -> (r: Option<u64>)
    requires
        a <= b <= c <= e <= s@.len(),
        d == s@.subrange(a as int, b as int) + s@.subrange(c as int, e as int),
        all_digits(d),
        d.len() > 0,
        -0x1_0000_0000_0000_0000_0000 < k < 0x1_0000_0000_0000_0000_0000,
        kt == k || (k >= 11 && kt >= k) || (k <= -(d.len() as int) && kt <= k),
    ensures
        match r {
            Some(h) => h == scaled(digits_value(d), kt) && h <= 2147483648,
            None => scaled(digits_value(d), kt) > 2147483648,
        },
{
    let dl = (b - a) + (e - c);
    let ghost big_m = digits_value(d);
    assert(d.take(dl as int) =~= d);
    if k >= 0 {
        assert(kt >= k);
        assert(scaled(big_m, kt) == big_m * pow10(kt as nat));
        match mantissa_prefix(s, a, b, c, e, dl, Ghost(d)) {
            None => {
                proof {
                    lemma_pow10_grows(0, kt as nat);
                    assert(big_m * pow10(kt as nat) >= big_m) by (nonlinear_arith)
                        requires
                            pow10(kt as nat) >= 1,
                    ;
                }
                None
            },
            Some(m) => {
                if m == 0 {
                    assert(big_m == 0);
                    assert(0 * pow10(kt as nat) == 0);
                    Some(0)
                } else {
                    let mut acc: u64 = m;
                    let mut kk: i128 = k;
                    assert(pow10(0) == 1);
                    assert(m * pow10(0) == m);
                    while kk > 0
                        invariant
                            0 <= kk <= k,
                            kt >= k,
                            kt == k || k >= 11,
                            m >= 1,
                            big_m == m,
                            big_m == digits_value(d),
                            scaled(big_m, kt) == big_m * pow10(kt as nat),
                            acc == m * pow10((k - kk) as nat),
                            acc <= 2147483648,
                        decreases kk,
                    {
                        acc = acc * 10;
                        kk = kk - 1;
                        assert(pow10((k - kk) as nat) == 10 * pow10((k - kk - 1) as nat));
                        assert(acc == m * pow10((k - kk) as nat)) by (nonlinear_arith)
                            requires
                                acc == (m * pow10((k - kk - 1) as nat)) * 10,
                                pow10((k - kk) as nat) == 10 * pow10((k - kk - 1) as nat),
                        ;
                        if acc > 2147483648 {
                            proof {
                                lemma_pow10_grows((k - kk) as nat, kt as nat);
                                assert(big_m * pow10(kt as nat) >= m * pow10((k - kk) as nat)) by (nonlinear_arith)
                                    requires
                                        big_m == m,
                                        pow10(kt as nat) >= pow10((k - kk) as nat),
                                ;
                            }
                            return None;
                        }
                    }
                    proof {
                        if kt != k {
                            lemma_too_big(m as nat, k as nat);
                        }
                    }
                    assert(kk == 0);
                    assert(kt == k);
                    assert(acc == scaled(big_m, kt));
                    Some(acc)
                }
            },
        }
    } else {
        let jj: i128 = -k;
        if jj >= dl as i128 {
            proof {
                lemma_digits_below(d);
                lemma_pow10_grows(dl as nat, (-kt) as nat);
                assert(dl == d.len());
                vstd::arithmetic::div_mod::lemma_basic_div(big_m as int, pow10((-kt) as nat) as int);
                assert(scaled(big_m, kt) == big_m / pow10((-kt) as nat));
            }
            Some(0)
        } else {
            assert(kt == k);
            proof {
                lemma_digits_drop(d, jj as nat);
                assert(scaled(big_m, kt) == big_m / pow10(jj as nat));
            }
            mantissa_prefix(s, a, b, c, e, dl - jj as usize, Ghost(d))
        }
    }
}

/// The exponent that starts at `f`, its size capped at the length of the
/// text plus 64 where it no longer matters; `None` where it is malformed.
fn read_exponent(s: &[u8], f: usize) -> (r: Option<i128>)
    requires
        f <= s@.len(),
    ensures
        match r {
            None => exponent_of(s@.skip(f as int)) is None,
            Some(v) => exponent_of(s@.skip(f as int)) matches Some(e) && (v == e || (v == s@.len() + 64 && e
                >= s@.len() + 64) || (v == -(s@.len() + 64) && e <= -(s@.len() + 64))) && -(s@.len() + 64) <= v
                <= s@.len() + 64,
        },
{
    let n = s.len();
    let ghost tail = s@.skip(f as int);
    if f >= n {
        return Some(0);
    }
    if s[f] != 101 && s[f] != 69 {
        return None;
    }
    let ghost t = tail.drop_first();
    assert(t =~= s@.skip(f + 1));
    let mut p = f + 1;
    let eneg = p < n && s[p] == 45;
    if p < n && (s[p] == 43 || s[p] == 45) {
        p += 1;
    }
    let ghost ed = if p > f + 1 { t.drop_first() } else { t };
    assert(ed =~= s@.skip(p as int));
    if p >= n {
        return None;
    }
    match exponent_value(s, p) {
        None => None,
        Some(v) => Some(if eneg { -v } else { v }),
    }
}

/// Where the parts of a decimal float lie: the whole digits in
/// `s[start..i1]`, the fraction digits in `s[f0..f1]`, the rest from `f1`.
fn mantissa_bounds(s: &[u8]) -> (r: (usize, usize, usize, usize))
    ensures
        r.0 <= r.1 <= r.2 <= r.3 <= s@.len(),
        s@.subrange(r.0 as int, r.1 as int) == komi_whole(s@),
        s@.subrange(r.2 as int, r.3 as int) == komi_fraction(s@),
        s@.skip(r.3 as int) == komi_tail(s@),
{
    let n = s.len();
    let signed = n > 0 && (s[0] == 43 || s[0] == 45);
    let start: usize = if signed { 1 } else { 0 };
    let ghost body = komi_body(s@);
    assert(body =~= s@.skip(start as int));
    let i1 = digits_end(s, start);
    assert(komi_whole(s@) =~= s@.subrange(start as int, i1 as int));
    let ghost r1 = komi_after_whole(s@);
    assert(r1 =~= s@.skip(i1 as int));
    let has_point = i1 < n && s[i1] == 46;
    assert(has_point == komi_has_point(s@));
    if has_point {
        let f0 = i1 + 1;
        let f1 = digits_end(s, f0);
        assert(r1.drop_first() =~= s@.skip(f0 as int));
        assert(komi_fraction(s@) =~= s@.subrange(f0 as int, f1 as int));
        assert(komi_tail(s@) =~= s@.skip(f1 as int));
        (start, i1, f0, f1)
    } else {
        assert(komi_fraction(s@) =~= s@.subrange(i1 as int, i1 as int));
        (start, i1, i1, i1)
    }
}

/// `s` read as a komi in hundredths of a point, as `parse_hundredths`
/// describes it.
#[verifier::spinoff_prover]
pub fn read_hundredths(s: &[u8]) -> (r: Option<i32>)
    ensures
        r == parse_hundredths(s@),
{
    let n = s.len();
    let neg = n > 0 && s[0] == 45;
    let (start, i1, f0, f1) = mantissa_bounds(s);
    let ghost ip = komi_whole(s@);
    let ghost fp = komi_fraction(s@);
    let ilen = i1 - start;
    let flen = f1 - f0;
    if ilen + flen == 0 {
        return None;
    }
    let ghost d = ip + fp;
    proof {
        lemma_leading_digits(komi_body(s@));
        lemma_leading_digits(komi_after_whole(s@).drop_first());
        assert(all_digits(d)) by {
            assert forall|k: int| 0 <= k < d.len() implies is_digit(#[trigger] d[k]) by {
                if k < ip.len() {
                    assert(d[k] == ip[k]);
                } else {
                    assert(d[k] == fp[k - ip.len()]);
                }
            }
        }
    }
    let es = match read_exponent(s, f1) {
        None => {
            return None;
        },
        Some(v) => v,
    };
    let ghost e_true = exponent_of(komi_tail(s@))->0;
    assert(komi_parts(s@) == Some((neg, d, e_true - fp.len())));
    let k: i128 = es - flen as i128 + 2;
    let ghost kt: int = e_true - fp.len() + 2;
    let h = match shifted(s, start, i1, f0, f1, k, Ghost(d), Ghost(kt)) {
        None => {
            return None;
        },
        Some(h) => h,
    };
    if h > 2147483648 || (!neg && h > 2147483647) {
        return None;
    }
    if neg {
        Some((-(h as i64)) as i32)
    } else {
        Some(h as i32)
    }
}

} // verus!
