//! Small pieces of text handling for game records: writing numbers and
//! fixed-point values, and reading decimal numbers, trimmed values and
//! coordinates from raw bytes.

use vstd::prelude::*;

verus! {

/// The character of decimal digit `d`.
pub open spec fn digit_char(d: int) -> char {
    (48 + d) as char
}

/// `n` in decimal.
pub open spec fn decimal(n: nat) -> Seq<char>
    decreases n,
{
    if n < 10 {
        seq![digit_char(n as int)]
    } else {
        decimal(n / 10).push(digit_char((n % 10) as int))
    }
}

/// A value in hundredths written the way a float prints: the whole part,
/// then a point and one or two digits only where the fraction is not zero.
pub open spec fn hundredths_text(v: int) -> Seq<char> {
    let a: int = if v < 0 { -v } else { v };
    let whole = a / 100;
    let frac = a % 100;
    let sign: Seq<char> = if v < 0 { seq!['-'] } else { Seq::empty() };
    let tail: Seq<char> = if frac == 0 {
        Seq::empty()
    } else if frac % 10 == 0 {
        seq!['.', digit_char(frac / 10)]
    } else {
        seq!['.', digit_char(frac / 10), digit_char(frac % 10)]
    };
    sign + decimal(whole as nat) + tail
}

/// Appends one character.
#[verifier::external_body]
pub fn push_char(s: &mut String, c: char)
    ensures
        final(s)@ == old(s)@.push(c),
{
    s.push(c);
}

/// Appends a string.
pub fn push_str(s: &mut String, t: &str)
    ensures
        final(s)@ == old(s)@ + t@,
{
    s.append(t);
}

fn digit(d: u64) -> (c: char)
    requires
        d < 10,
    ensures
        c == digit_char(d as int),
{
    let b: u8 = 48 + d as u8;
    b as char
}

/// Appends `n` in decimal.
pub fn push_decimal(s: &mut String, n: u64)
    ensures
        final(s)@ == old(s)@ + decimal(n as nat),
    decreases n,
{
    if n >= 10 {
        push_decimal(s, n / 10);
    }
    push_char(s, digit(n % 10));
    proof {
        if n < 10 {
            assert(n % 10 == n);
        }
    }
    assert(final(s)@ =~= old(s)@ + decimal(n as nat));
}

/// Appends a value in hundredths, written as `hundredths_text` gives it.
pub fn push_hundredths(s: &mut String, v: i64)
    ensures
        final(s)@ == old(s)@ + hundredths_text(v as int),
{
    let a: u64 = if v < 0 {
        if v == i64::MIN {
            9223372036854775808u64
        } else {
            (-v) as u64
        }
    } else {
        v as u64
    };
    if v < 0 {
        push_char(s, '-');
    }
    push_decimal(s, a / 100);
    let frac = a % 100;
    if frac != 0 {
        push_char(s, '.');
        push_char(s, digit(frac / 10));
        if frac % 10 != 0 {
            push_char(s, digit(frac % 10));
        }
    }
    assert(final(s)@ =~= old(s)@ + hundredths_text(v as int));
}

/// Whitespace as `char::is_whitespace` sees a byte taken as a character.
pub open spec fn is_space(b: u8) -> bool {
    (9 <= b <= 13) || b == 32 || b == 0x85 || b == 0xA0
}

pub fn space(b: u8) -> (r: bool)
    ensures
        r == is_space(b),
{
    (9 <= b && b <= 13) || b == 32 || b == 0x85 || b == 0xA0
}

/// `s` without its leading whitespace.
pub open spec fn trim_start(s: Seq<u8>) -> Seq<u8>
    decreases s.len(),
{
    if s.len() > 0 && is_space(s[0]) {
        trim_start(s.drop_first())
    } else {
        s
    }
}

/// `s` without its trailing whitespace.
pub open spec fn trim_end(s: Seq<u8>) -> Seq<u8>
    decreases s.len(),
{
    if s.len() > 0 && is_space(s.last()) {
        trim_end(s.drop_last())
    } else {
        s
    }
}

pub open spec fn trim(s: Seq<u8>) -> Seq<u8> {
    trim_end(trim_start(s))
}

/// `s` without leading or trailing whitespace.
pub fn trimmed(s: &[u8]) -> (r: Vec<u8>)
    ensures
        r@ == trim(s@),
{
    let mut a: usize = 0;
    assert(s@.skip(0) =~= s@);
    while a < s.len() && space(s[a])
        invariant
            a <= s@.len(),
            trim_start(s@) == trim_start(s@.skip(a as int)),
        decreases s@.len() - a,
    {
        assert(s@.skip(a as int).drop_first() =~= s@.skip(a + 1));
        a += 1;
    }
    let ghost t = s@.skip(a as int);
    assert(trim_start(s@) == t);
    let mut e: usize = s.len();
    while e > a && space(s[e - 1])
        invariant
            a <= e <= s@.len(),
            t == s@.skip(a as int),
            trim_end(t) == trim_end(s@.subrange(a as int, e as int)),
        decreases e,
    {
        assert(s@.subrange(a as int, e as int).drop_last() =~= s@.subrange(a as int, e - 1));
        e -= 1;
    }
    let mut out: Vec<u8> = Vec::new();
    let mut i: usize = a;
    while i < e
        invariant
            a <= i <= e,
            e <= s@.len(),
            out@ == s@.subrange(a as int, i as int),
        decreases e - i,
    {
        out.push(s[i]);
        i += 1;
        assert(out@ =~= s@.subrange(a as int, i as int));
    }
    out
}

/// The part of `s` before its first `:`.
pub open spec fn before_colon(s: Seq<u8>) -> Seq<u8>
    decreases s.len(),
{
    if s.len() == 0 {
        s
    } else if s[0] == 58 {
        Seq::empty()
    } else {
        seq![s[0]] + before_colon(s.drop_first())
    }
}

pub fn up_to_colon(s: &[u8]) -> (r: Vec<u8>)
    ensures
        r@ == before_colon(s@),
{
    let mut out: Vec<u8> = Vec::new();
    let mut i: usize = 0;
    assert(s@.skip(0) =~= s@);
    assert(out@ + s@ =~= s@);
    while i < s.len() && s[i] != 58
        invariant
            i <= s@.len(),
            before_colon(s@) == out@ + before_colon(s@.skip(i as int)),
        decreases s@.len() - i,
    {
        assert(s@.skip(i as int).drop_first() =~= s@.skip(i + 1));
        out.push(s[i]);
        i += 1;
    }
    assert(before_colon(s@.skip(i as int)) =~= Seq::<u8>::empty());
    assert(out@ + Seq::<u8>::empty() =~= out@);
    out
}

pub open spec fn is_digit(b: u8) -> bool {
    48 <= b <= 57
}

/// Every byte of `s` is a decimal digit.
pub open spec fn all_digits(s: Seq<u8>) -> bool {
    forall|i: int| 0 <= i < s.len() ==> is_digit(#[trigger] s[i])
}

/// The number the digits of `s` spell.
pub open spec fn digits_value(s: Seq<u8>) -> nat
    decreases s.len(),
{
    if s.len() == 0 {
        0
    } else {
        digits_value(s.drop_last()) * 10 + (s.last() - 48) as nat
    }
}

/// `s` read as an unsigned 32-bit number the way `u32::from_str` reads it:
/// an optional `+`, then one or more digits, and nothing that overflows.
pub open spec fn parse_u32(s: Seq<u8>) -> Option<u32> {
    let t = if s.len() > 0 && s[0] == 43 { s.drop_first() } else { s };
    if t.len() == 0 || !all_digits(t) || digits_value(t) > u32::MAX {
        None
    } else {
        Some(digits_value(t) as u32)
    }
}

pub(crate) proof fn lemma_digits_value_prefix(s: Seq<u8>, i: int)
    requires
        0 <= i < s.len(),
        is_digit(s[i]),
    ensures
        digits_value(s.take(i + 1)) == digits_value(s.take(i)) * 10 + (s[i] - 48) as nat,
{
    assert(s.take(i + 1).drop_last() =~= s.take(i));
}

pub(crate) proof fn lemma_digits_value_grows(s: Seq<u8>, i: int)
    requires
        0 <= i <= s.len(),
        all_digits(s),
    ensures
        digits_value(s.take(i)) <= digits_value(s),
    decreases s.len() - i,
{
    if i < s.len() {
        lemma_digits_value_grows(s, i + 1);
        lemma_digits_value_prefix(s, i);
    } else {
        assert(s.take(i) =~= s);
    }
}

#[verifier::loop_isolation(false)]
pub fn read_u32(s: &[u8]) -> (r: Option<u32>)
    ensures
        r == parse_u32(s@),
{
    let start: usize = if s.len() > 0 && s[0] == 43 { 1 } else { 0 };
    let ghost t = if s@.len() > 0 && s@[0] == 43 { s@.drop_first() } else { s@ };
    assert(t =~= s@.skip(start as int));
    if start >= s.len() {
        return None;
    }
    let mut acc: u64 = 0;
    let mut i: usize = start;
    while i < s.len()
        invariant
            start <= i <= s@.len(),
            t == s@.skip(start as int),
            all_digits(t.take(i - start)),
            acc == digits_value(t.take(i - start)),
            acc <= u32::MAX,
        decreases s@.len() - i,
    {
        let b = s[i];
        if !(48 <= b && b <= 57) {
            assert(t[i - start] == s@[i as int]);
            assert(!all_digits(t));
            return None;
        }
        proof {
            lemma_digits_value_prefix(t, i - start);
        }
        acc = acc * 10 + (b - 48) as u64;
        i += 1;
        assert(all_digits(t.take(i - start))) by {
            assert forall|k: int| 0 <= k < t.take(i - start).len() implies is_digit(#[trigger] t.take(i - start)[k]) by {
                if k < i - start - 1 {
                    assert(t.take(i - start - 1)[k] == t.take(i - start)[k]);
                }
            }
        }
        if acc > 4294967295 {
            proof {
                if all_digits(t) {
                    lemma_digits_value_grows(t, i - start);
                    assert(digits_value(t) > u32::MAX);
                }
            }
            return None;
        }
    }
    assert(t.take(i - start) =~= t);
    Some(acc as u32)
}

/// How many digits `s` starts with.
pub open spec fn leading_digits(s: Seq<u8>) -> nat
    decreases s.len(),
{
    if s.len() > 0 && is_digit(s[0]) {
        1 + leading_digits(s.drop_first())
    } else {
        0
    }
}

pub(crate) proof fn lemma_leading_digits(s: Seq<u8>)
    ensures
        leading_digits(s) <= s.len(),
        all_digits(s.take(leading_digits(s) as int)),
        leading_digits(s) < s.len() ==> !is_digit(s[leading_digits(s) as int]),
    decreases s.len(),
{
    if s.len() > 0 && is_digit(s[0]) {
        lemma_leading_digits(s.drop_first());
        let k = leading_digits(s.drop_first()) as int;
        assert forall|i: int| 0 <= i < k + 1 implies is_digit(#[trigger] s.take(k + 1)[i]) by {
            if i > 0 {
                assert(s.take(k + 1)[i] == s.drop_first().take(k)[i - 1]);
            }
        }
        if k + 1 < s.len() {
            assert(s[k + 1] == s.drop_first()[k]);
        }
    }
}

pub(crate) proof fn lemma_leading_digits_at(s: Seq<u8>, i: int)
    requires
        0 <= i < s.len(),
        is_digit(s[i]),
        forall|k: int| 0 <= k < i ==> is_digit(#[trigger] s[k]),
    ensures
        i < leading_digits(s),
    decreases i,
{
    if i > 0 {
        lemma_leading_digits_at(s.drop_first(), i - 1);
    }
}

pub(crate) proof fn lemma_leading_stop(s: Seq<u8>, i: int)
    requires
        0 <= i <= s.len(),
        i <= leading_digits(s),
        forall|k: int| 0 <= k < i ==> is_digit(#[trigger] s[k]),
        i < s.len() ==> !is_digit(s[i]),
    ensures
        i == leading_digits(s),
    decreases i,
{
    if i > 0 {
        lemma_leading_stop(s.drop_first(), i - 1);
    } else if s.len() > 0 {
        assert(!is_digit(s[0]));
    }
}

/// A point written as two letters, column first, `a` for 0; `None` for a
/// pass: any other length, a letter below `a`, the old pass `tt` on boards
/// up to 19, or a point off the board.
pub open spec fn sgf_point_value(size: int, b: Seq<u8>) -> Option<int> {
    if b.len() != 2 || b[0] < 97 || b[1] < 97 {
        None
    } else {
        let col = b[0] - 97;
        let row = b[1] - 97;
        if size <= 19 && col == 19 && row == 19 {
            None
        } else if col >= size || row >= size {
            None
        } else {
            Some(row * size + col)
        }
    }
}

pub fn point_from_bytes(size: u8, b: &[u8]) -> (r: Option<u16>)
    ensures
        r matches Some(v) ==> sgf_point_value(size as int, b@) == Some(v as int),
        r is None ==> sgf_point_value(size as int, b@) is None,
{
    if b.len() != 2 {
        return None;
    }
    let col = match b[0].checked_sub(97) {
        Some(c) => c,
        None => {
            return None;
        },
    };
    let row = match b[1].checked_sub(97) {
        Some(r) => r,
        None => {
            return None;
        },
    };
    if size <= 19 && col == 19 && row == 19 {
        return None;
    }
    if col >= size || row >= size {
        return None;
    }
    assert(row * size + col <= 254 * 255 + 254) by (nonlinear_arith)
        requires row < size, col < size, size <= 255;
    Some(row as u16 * size as u16 + col as u16)
}

} // verus!
