//! Why a game's exported record reads back as that game: the text the
//! writer produces is plain ASCII, the reader takes each property of it
//! back as it was written, and the moves it returns are the moves played.

use vstd::prelude::*;
use vstd::utf8::is_ascii_chars;

use crate::board::{Color, Vertex};
use crate::board::empty_board;
use crate::game::{
    after_move, applied_of, game_wf, initial, play_error, with_turn, AppliedView, GameResult,
    GameView, Move, Phase,
};
use crate::sgf::{
    apply_property, ident_end, is_upper, move_of, move_text, moves_text, parse_bytes, point_text,
    replay_of, replay_run, result_text, scan, setup_board, setup_points, sgf_header, sgf_text,
    skip_space, start_scan, value_at, values_at, values_points, Scan, SgfView,
};
use crate::komi::{
    exponent_of, komi_after_whole, komi_body, komi_fraction, komi_parts, komi_tail, komi_whole,
    lemma_digits_concat, parse_hundredths, pow10, scaled,
};
use crate::text::{
    all_digits, before_colon, decimal, digit_char, digits_value, hundredths_text, is_digit,
    is_space, leading_digits, parse_u32, sgf_point_value, trim, trim_end,
    trim_start,
};

verus! {

/// The bytes of an ASCII text, one per character.
pub open spec fn bytes_of(s: Seq<char>) -> Seq<u8> {
    s.map_values(|c: char| c as u8)
}

/// Every character of `s` is a decimal digit.
pub open spec fn digit_chars(s: Seq<char>) -> bool {
    forall|i: int| 0 <= i < s.len() ==> '0' <= #[trigger] s[i] <= '9'
}

pub proof fn lemma_bytes_of_add(a: Seq<char>, b: Seq<char>)
    ensures
        bytes_of(a + b) == bytes_of(a) + bytes_of(b),
{
    assert(bytes_of(a + b) =~= bytes_of(a) + bytes_of(b));
}

/// `n` in decimal is a nonempty run of digits that spells `n`.
pub proof fn lemma_decimal(n: nat)
    ensures
        decimal(n).len() > 0,
        digit_chars(decimal(n)),
        all_digits(bytes_of(decimal(n))),
        digits_value(bytes_of(decimal(n))) == n,
    decreases n,
{
    let s = bytes_of(decimal(n));
    if n < 10 {
        assert(s =~= seq![(48 + n) as u8]);
        assert(s.drop_last() =~= Seq::<u8>::empty());
        assert(digits_value(s) == digits_value(s.drop_last()) * 10 + (s.last() - 48) as nat);
    } else {
        lemma_decimal(n / 10);
        let d = decimal(n / 10);
        assert(decimal(n) == d.push(digit_char((n % 10) as int)));
        assert(s.drop_last() =~= bytes_of(d));
        assert(s.last() == (48 + n % 10) as u8);
        assert(s.len() > 0);
        assert(digits_value(s) == digits_value(s.drop_last()) * 10 + (s.last() - 48) as nat);
        assert((s.last() - 48) as nat == n % 10);
        assert forall|i: int| 0 <= i < decimal(n).len() implies '0' <= #[trigger] decimal(n)[i] <= '9' by {
            if i < d.len() {
                assert(decimal(n)[i] == d[i]);
            }
        }
        assert forall|i: int| 0 <= i < bytes_of(decimal(n)).len() implies is_digit(#[trigger] bytes_of(decimal(n))[i]) by {
            if i < d.len() {
                assert(bytes_of(decimal(n))[i] == bytes_of(d)[i]);
            }
        }
    }
}

/// Trimming and cutting at a colon leave a run of digits as it is.
pub proof fn lemma_digits_untouched(s: Seq<u8>)
    requires
        all_digits(s),
    ensures
        before_colon(s) == s,
        trim(s) == s,
    decreases s.len(),
{
    if s.len() > 0 {
        assert(all_digits(s.drop_first()));
        lemma_digits_untouched(s.drop_first());
        assert(seq![s[0]] + s.drop_first() =~= s);
        assert(s[s.len() - 1] == s.last());
    }
}

/// Reading the decimal text of a size gives the size back.
pub proof fn lemma_parse_decimal(n: u32)
    ensures
        parse_u32(trim(before_colon(bytes_of(decimal(n as nat))))) == Some(n),
{
    let s = bytes_of(decimal(n as nat));
    lemma_decimal(n as nat);
    lemma_digits_untouched(s);
    assert(is_digit(s[0]));
}

proof fn lemma_leading_digits_of(d: Seq<u8>, t: Seq<u8>)
    requires
        all_digits(d),
        t.len() == 0 || !is_digit(t[0]),
    ensures
        leading_digits(d + t) == d.len(),
        (d + t).take(d.len() as int) == d,
        (d + t).skip(d.len() as int) == t,
    decreases d.len(),
{
    if d.len() > 0 {
        assert(all_digits(d.drop_first()));
        lemma_leading_digits_of(d.drop_first(), t);
        assert((d + t).drop_first() =~= d.drop_first() + t);
    } else {
        assert(d + t =~= t);
    }
    assert((d + t).take(d.len() as int) =~= d);
    assert((d + t).skip(d.len() as int) =~= t);
}

/// The part after the whole number: nothing, or a point and one or two
/// digits that give the hundredths back.
pub open spec fn frac_text(frac: int) -> Seq<char> {
    if frac == 0 {
        Seq::empty()
    } else if frac % 10 == 0 {
        seq!['.', digit_char(frac / 10)]
    } else {
        seq!['.', digit_char(frac / 10), digit_char(frac % 10)]
    }
}

proof fn lemma_frac_text(frac: int)
    requires
        0 <= frac < 100,
    ensures
        ({
            let tb = bytes_of(frac_text(frac));
            let ft = if tb.len() > 0 { tb.drop_first() } else { tb };
            &&& tb.len() == 0 || tb[0] == 46
            &&& tb.len() > 0 ==> is_digit(tb.last())
            &&& all_digits(ft)
            &&& ft.len() <= 2
            &&& digits_value(ft) * pow10((2 - ft.len()) as nat) == frac
        }),
{
    let tb = bytes_of(frac_text(frac));
    reveal_with_fuel(pow10, 3);
    if frac == 0 {
        assert(tb.len() == 0);
        assert(digits_value(tb) == 0);
    } else if frac % 10 == 0 {
        let t = frac / 10;
        assert(tb =~= seq![46u8, (48 + t) as u8]);
        let ft = tb.drop_first();
        assert(ft =~= seq![(48 + t) as u8]);
        assert(ft.drop_last() =~= Seq::<u8>::empty());
        assert(digits_value(Seq::<u8>::empty()) == 0);
        assert(ft.last() == (48 + t) as u8);
        assert(((48 + t) as u8) as int == 48 + t);
        assert(digits_value(ft) == digits_value(ft.drop_last()) * 10 + (ft.last() - 48) as nat);
        assert(digits_value(ft) == t);
    } else {
        let t = frac / 10;
        let u = frac % 10;
        assert(tb =~= seq![46u8, (48 + t) as u8, (48 + u) as u8]);
        let ft = tb.drop_first();
        assert(ft =~= seq![(48 + t) as u8, (48 + u) as u8]);
        assert(ft.drop_last() =~= seq![(48 + t) as u8]);
        assert(ft.drop_last().drop_last() =~= Seq::<u8>::empty());
        assert(digits_value(Seq::<u8>::empty()) == 0);
        let f1 = ft.drop_last();
        assert(f1.last() == (48 + t) as u8);
        assert(((48 + t) as u8) as int == 48 + t);
        assert(((48 + u) as u8) as int == 48 + u);
        assert(digits_value(f1) == digits_value(f1.drop_last()) * 10 + (f1.last() - 48) as nat);
        assert(digits_value(ft.drop_last()) == t);
        assert(ft.last() == (48 + u) as u8);
        assert(digits_value(ft) == digits_value(ft.drop_last()) * 10 + (ft.last() - 48) as nat);
        assert(digits_value(ft) == t * 10 + u);
    }
}

proof fn lemma_hundredths_split(v: int)
    ensures
        ({
            let a: int = if v < 0 { -v } else { v };
            let sign: Seq<char> = if v < 0 { seq!['-'] } else { Seq::empty() };
            hundredths_text(v) == sign + decimal((a / 100) as nat) + frac_text(a % 100)
        }),
{
}

/// Every value an `i32` of hundredths holds reads back as itself.
#[verifier::spinoff_prover]
pub proof fn lemma_parse_hundredths(v: int)
    requires
        i32::MIN <= v <= i32::MAX,
    ensures
        trim(bytes_of(hundredths_text(v))) == bytes_of(hundredths_text(v)),
        parse_hundredths(bytes_of(hundredths_text(v))) == Some(v as i32),
{
    let a: int = if v < 0 { -v } else { v };
    let whole = a / 100;
    let frac = a % 100;
    let sign: Seq<char> = if v < 0 { seq!['-'] } else { Seq::empty() };
    let dec = decimal(whole as nat);
    let tail = frac_text(frac);
    lemma_hundredths_split(v);
    lemma_decimal(whole as nat);
    lemma_frac_text(frac);
    lemma_bytes_of_add(sign + dec, tail);
    lemma_bytes_of_add(sign, dec);
    let s = bytes_of(hundredths_text(v));
    let db = bytes_of(dec);
    let tb = bytes_of(tail);
    let body = db + tb;
    assert(s == bytes_of(sign) + db + tb);
    if v < 0 {
        assert(s =~= seq![45u8] + body);
        assert(s.drop_first() =~= body);
    } else {
        assert(s =~= body);
    }
    lemma_leading_digits_of(db, tb);
    assert(!is_space(s[0]));
    assert(!is_space(s.last())) by {
        if tb.len() > 0 {
            assert(s.last() == tb.last());
        } else {
            assert(s.last() == db.last());
            assert(is_digit(db[db.len() - 1]));
        }
    }
    assert(trim_start(s) == s);
    assert(trim_end(s) == s);
    // the parts the reader finds
    let ft = if tb.len() > 0 { tb.drop_first() } else { tb };
    assert(komi_body(s) == body);
    assert(komi_whole(s) == db);
    assert(komi_after_whole(s) == tb);
    if tb.len() > 0 {
        lemma_leading_digits_of(ft, Seq::empty());
        assert(ft + Seq::<u8>::empty() =~= ft);
        assert(komi_fraction(s) == ft);
        assert(komi_tail(s) =~= Seq::<u8>::empty());
    } else {
        assert(komi_fraction(s) =~= ft);
        assert(komi_tail(s) == tb);
    }
    assert(exponent_of(komi_tail(s)) == Some(0int));
    assert(komi_parts(s) == Some((v < 0, db + ft, -(ft.len() as int))));
    lemma_digits_concat(db, ft);
    let k = (2 - ft.len()) as nat;
    assert(scaled(digits_value(db + ft), 2 - ft.len()) == digits_value(db + ft) * pow10(k));
    assert(digits_value(db + ft) * pow10(k) == whole * 100 + frac) by {
        reveal_with_fuel(pow10, 3);
        assert(pow10(0) == 1);
        assert(pow10(1) == 10 * pow10(0));
        assert(pow10(2) == 10 * pow10(1));
        let p = pow10(ft.len());
        let q = pow10(k);
        assert(p * q == 100) by {
            if ft.len() == 0 {
                assert(p == 1 && q == 100);
            } else if ft.len() == 1 {
                assert(p == 10 && q == 10);
            } else {
                assert(p == 100 && q == 1);
            }
        }
        assert((whole * pow10(ft.len()) + digits_value(ft)) * pow10(k) == whole * (pow10(ft.len()) * pow10(k))
            + digits_value(ft) * pow10(k)) by (nonlinear_arith);
    }
    assert(whole * 100 + frac == a);
}

// ---------------------------------------------------------------- scanning

/// A value that holds neither a backslash nor a closing bracket.
pub open spec fn plain(v: Seq<u8>) -> bool {
    forall|k: int| 0 <= k < v.len() ==> #[trigger] v[k] != 92 && v[k] != 93
}

/// A byte that ends a property's list of values.
pub open spec fn ends_values(c: u8) -> bool {
    !is_space(c) && c != 91
}

proof fn lemma_value_read(b: Seq<u8>, i: int, v: Seq<u8>)
    requires
        0 <= i,
        i + v.len() < b.len(),
        b.subrange(i, i + v.len()) == v,
        plain(v),
        b[i + v.len()] == 93,
    ensures
        value_at(b, i) == Some((v, i + v.len() + 1)),
    decreases v.len(),
{
    if v.len() > 0 {
        assert(b[i] == b.subrange(i, i + v.len())[0]);
        assert(b.subrange(i + 1, i + 1 + v.drop_first().len()) =~= v.drop_first());
        lemma_value_read(b, i + 1, v.drop_first());
        assert(seq![b[i]] + v.drop_first() =~= v);
    }
}

proof fn lemma_name_end(b: Seq<u8>, i: int, n: int)
    requires
        0 <= i,
        0 <= n,
        i + n < b.len(),
        forall|k: int| 0 <= k < n ==> is_upper(#[trigger] b[i + k]),
        !is_upper(b[i + n]),
    ensures
        ident_end(b, i) == i + n,
    decreases n,
{
    if n > 0 {
        assert(is_upper(b[i + 0]));
        assert forall|k: int| 0 <= k < n - 1 implies is_upper(#[trigger] b[(i + 1) + k]) by {
            assert(is_upper(b[i + (k + 1)]));
        }
        lemma_name_end(b, i + 1, n - 1);
    }
}

/// Reading one property with one value at nesting one: the reader moves
/// past it with the property applied.
proof fn lemma_scan_property(b: Seq<u8>, i: int, n: int, v: Seq<u8>, st: Scan, st2: Scan)
    requires
        0 <= i,
        1 <= n,
        i + n + v.len() + 2 < b.len(),
        forall|k: int| 0 <= k < n ==> is_upper(#[trigger] b[i + k]),
        b[i + n] == 91,
        b.subrange(i + n + 1, i + n + 1 + v.len()) == v,
        plain(v),
        b[i + n + 1 + v.len()] == 93,
        ends_values(b[i + n + v.len() + 2]),
        apply_property(st, b.subrange(i, i + n), seq![v]) == Ok::<Scan, crate::sgf::SgfError>(st2),
    ensures
        scan(b, i, 1, st) == scan(b, i + n + v.len() + 2, 1, st2),
{
    lemma_name_end(b, i, n);
    assert(is_upper(b[i + 0]));
    let j = i + n;
    assert(skip_space(b, j) == j);
    lemma_value_read(b, j + 1, v);
    let m = j + 1 + v.len() + 1;
    assert(skip_space(b, m) == m);
    assert(values_at(b, m, seq![v]) == Ok::<(Seq<Seq<u8>>, int), crate::sgf::SgfError>((seq![v], m)));
    assert(Seq::<Seq<u8>>::empty().push(v) =~= seq![v]);
    assert(values_at(b, j, Seq::empty()) == Ok::<(Seq<Seq<u8>>, int), crate::sgf::SgfError>((seq![v], m)));
}

// ------------------------------------------------------------------- moves

/// The two letters of a point are ASCII letters that name it again.
pub proof fn lemma_point_text(size: int, v: int)
    requires
        2 <= size <= 25,
        0 <= v < size * size,
    ensures
        point_text(size, v).len() == 2,
        is_ascii_chars(point_text(size, v)),
        plain(bytes_of(point_text(size, v))),
        sgf_point_value(size, bytes_of(point_text(size, v))) == Some(v),
{
    crate::grid::lemma_div_mod_parts(size, v);
    assert(size * size <= 625) by (nonlinear_arith)
        requires
            2 <= size <= 25,
    ;
    assert((v as u16) as int == v);
    assert((size as u16) as int == size);
    let p = bytes_of(point_text(size, v));
    assert(p[0] == 97 + v % size);
    assert(p[1] == 97 + v / size);
}

/// The raw value a move node carries: two letters, or nothing for a pass.
pub open spec fn raw_value(size: int, a: AppliedView) -> Seq<u8> {
    match a.mv {
        Move::Play { vertex } => bytes_of(point_text(size, vertex as int)),
        _ => Seq::empty(),
    }
}

/// The moves as the reader collects them, before it decodes the values.
pub open spec fn raw_moves(size: int, h: Seq<AppliedView>) -> Seq<(Color, Seq<u8>)>
    decreases h.len(),
{
    if h.len() == 0 {
        Seq::empty()
    } else {
        raw_moves(size, h.drop_last()) + if h.last().mv is Resign {
            Seq::empty()
        } else {
            seq![(h.last().color, raw_value(size, h.last()))]
        }
    }
}

/// The moves a record of `h` holds: each one but a resignation.
pub open spec fn record_moves(h: Seq<AppliedView>) -> Seq<(Color, Move)>
    decreases h.len(),
{
    if h.len() == 0 {
        Seq::empty()
    } else {
        record_moves(h.drop_last()) + if h.last().mv is Resign {
            Seq::empty()
        } else {
            seq![(h.last().color, h.last().mv)]
        }
    }
}

/// Every stone of `h` is on a board of side `size`.
pub open spec fn moves_on_board(size: int, h: Seq<AppliedView>) -> bool {
    forall|k: int| 0 <= k < h.len() && #[trigger] h[k].mv is Play ==> (h[k].mv->vertex as int) < size * size
}

proof fn lemma_moves_on_board_prefix(size: int, h: Seq<AppliedView>)
    requires
        h.len() > 0,
        moves_on_board(size, h),
    ensures
        moves_on_board(size, h.drop_last()),
        h.last().mv is Play ==> (h.last().mv->vertex as int) < size * size,
{
    assert forall|k: int| 0 <= k < h.drop_last().len() && #[trigger] h.drop_last()[k].mv is Play implies (h.drop_last()[k].mv->vertex as int) < size * size by {
        assert(h.drop_last()[k] == h[k]);
    }
    assert(h.last() == h[h.len() - 1]);
}

/// The move nodes are ASCII.
pub proof fn lemma_moves_ascii(size: int, h: Seq<AppliedView>)
    requires
        2 <= size <= 25,
        moves_on_board(size, h),
    ensures
        is_ascii_chars(moves_text(size, h)),
    decreases h.len(),
{
    if h.len() > 0 {
        lemma_moves_on_board_prefix(size, h);
        lemma_moves_ascii(size, h.drop_last());
        let a = h.last();
        if let Move::Play { vertex } = a.mv {
            lemma_point_text(size, vertex as int);
        }
        assert(is_ascii_chars(move_text(size, a))) by {
            if let Move::Play { vertex } = a.mv {
                let pt = point_text(size, vertex as int);
                assert forall|i: int| 0 <= i < move_text(size, a).len() implies '\0' <= #[trigger] move_text(size, a)[i] <= '\u{7f}' by {
                    if 3 <= i < 5 {
                        assert(move_text(size, a)[i] == pt[i - 3]);
                    }
                }
            }
        }
        vstd::utf8::is_ascii_chars_concat(
            moves_text(size, h),
            moves_text(size, h.drop_last()),
            move_text(size, a),
        );
    }
}

/// Reading the move nodes of `h` collects their raw values in order.
proof fn lemma_scan_moves(b: Seq<u8>, i: int, size: int, h: Seq<AppliedView>, st: Scan)
    requires
        0 <= i,
        2 <= size <= 25,
        moves_on_board(size, h),
        i + moves_text(size, h).len() < b.len(),
        b.subrange(i, i + moves_text(size, h).len()) == bytes_of(moves_text(size, h)),
        ends_values(b[i + moves_text(size, h).len()]),
    ensures
        scan(b, i, 1, st) == scan(
            b,
            i + moves_text(size, h).len(),
            1,
            Scan { moves: st.moves + raw_moves(size, h), ..st },
        ),
    decreases h.len(),
{
    if h.len() == 0 {
        assert(st.moves + Seq::<(Color, Seq<u8>)>::empty() =~= st.moves);
        assert(Scan { moves: st.moves + raw_moves(size, h), ..st } =~= st);
    } else {
        let h1 = h.drop_last();
        let a = h.last();
        let t1 = moves_text(size, h1);
        let ta = move_text(size, a);
        let l1: int = t1.len() as int;
        lemma_moves_on_board_prefix(size, h);
        lemma_bytes_of_add(t1, ta);
        assert(moves_text(size, h) == t1 + ta);
        assert(b.subrange(i, i + l1) =~= bytes_of(t1)) by {
            assert(b.subrange(i, i + l1) =~= b.subrange(i, i + moves_text(size, h).len()).subrange(0, l1));
        }
        let st1 = Scan { moves: st.moves + raw_moves(size, h1), ..st };
        if a.mv is Resign {
            assert(ta.len() == 0);
            lemma_scan_moves(b, i, size, h1, st);
            assert(raw_moves(size, h) =~= raw_moves(size, h1));
        } else {
            let tb = bytes_of(ta);
            assert(b.subrange(i + l1, i + l1 + ta.len()) =~= tb) by {
                assert(b.subrange(i + l1, i + l1 + ta.len()) =~= b.subrange(i, i + moves_text(size, h).len()).subrange(l1, l1 + ta.len() as int));
            }
            assert(b[i + l1] == tb[0]);
            assert(b[i + l1] == 59);
            lemma_scan_moves(b, i, size, h1, st);
            let p = i + l1 + 1;
            let v = raw_value(size, a);
            let letter: u8 = if a.color == Color::Black { 66 } else { 87 };
            let st2 = Scan { moves: st1.moves.push((a.color, v)), ..st1 };
            if let Move::Play { vertex } = a.mv {
                lemma_point_text(size, vertex as int);
                assert(ta.len() == 6);
                assert(b[p] == tb[1]);
                assert(b[p + 1] == tb[2]);
                assert(b.subrange(p + 2, p + 2 + v.len()) =~= v) by {
                    assert(b[p + 2] == tb[3]);
                    assert(b[p + 3] == tb[4]);
                }
                assert(b[p + 2 + v.len()] == tb[5]);
            } else {
                assert(ta.len() == 4);
                assert(b[p] == tb[1]);
                assert(b[p + 1] == tb[2]);
                assert(b.subrange(p + 2, p + 2 + v.len()) =~= v);
                assert(b[p + 2 + v.len()] == tb[3]);
            }
            assert(b[p] == letter);
            assert(b.subrange(p, p + 1) =~= seq![letter]);
            assert(apply_property(st1, seq![letter], seq![v]) == Ok::<Scan, crate::sgf::SgfError>(st2)) by {
                let name = seq![letter];
                assert(name.len() == 1);
                assert(name != seq![83u8, 90u8]);
                assert(name != seq![75u8, 77u8]);
                assert(name != seq![65u8, 66u8]);
                assert(name != seq![65u8, 87u8]);
                if a.color == Color::Black {
                    assert(name =~= seq![66u8]);
                } else {
                    assert(name =~= seq![87u8]);
                    assert(name[0] != seq![66u8][0]);
                    assert(name != seq![66u8]);
                }
                assert(seq![v].len() > 0 && seq![v][0] == v);
            }
            lemma_scan_property(b, p, 1, v, st1, st2);
            assert(raw_moves(size, h) =~= raw_moves(size, h1).push((a.color, v)));
            assert(st2 =~= Scan { moves: st.moves + raw_moves(size, h), ..st });
        }
    }
}

/// Decoding the raw values gives the moves back.
proof fn lemma_decode_moves(size: int, h: Seq<AppliedView>)
    requires
        2 <= size <= 25,
        moves_on_board(size, h),
    ensures
        raw_moves(size, h).map_values(|m: (Color, Seq<u8>)| (m.0, move_of(size, m.1))) == record_moves(h),
    decreases h.len(),
{
    if h.len() > 0 {
        lemma_moves_on_board_prefix(size, h);
        lemma_decode_moves(size, h.drop_last());
        let a = h.last();
        if let Move::Play { vertex } = a.mv {
            lemma_point_text(size, vertex as int);
        }
        assert(raw_moves(size, h).map_values(|m: (Color, Seq<u8>)| (m.0, move_of(size, m.1))) =~= record_moves(h));
    } else {
        assert(raw_moves(size, h).map_values(|m: (Color, Seq<u8>)| (m.0, move_of(size, m.1))) =~= record_moves(h));
    }
}

// ---------------------------------------------------------------- the text

/// ASCII with neither a backslash nor a closing bracket: text that can
/// stand inside a value as it is.
pub open spec fn tame(s: Seq<char>) -> bool {
    forall|i: int| 0 <= i < s.len() ==> '\0' <= #[trigger] s[i] <= '\u{7f}' && s[i] != '\\' && s[i] != ']'
}

proof fn lemma_tame(s: Seq<char>)
    requires
        tame(s),
    ensures
        is_ascii_chars(s),
        plain(bytes_of(s)),
{
    assert forall|k: int| 0 <= k < bytes_of(s).len() implies #[trigger] bytes_of(s)[k] != 92 && bytes_of(s)[k] != 93 by {
        assert(bytes_of(s)[k] == s[k] as u8);
    }
}

proof fn lemma_tame_add(a: Seq<char>, b: Seq<char>)
    requires
        tame(a),
        tame(b),
    ensures
        tame(a + b),
{
    assert forall|i: int| 0 <= i < (a + b).len() implies '\0' <= #[trigger] (a + b)[i] <= '\u{7f}' && (a + b)[i] != '\\'
        && (a + b)[i] != ']' by {
        if i < a.len() {
            assert((a + b)[i] == a[i]);
        } else {
            assert((a + b)[i] == b[i - a.len()]);
        }
    }
}

proof fn lemma_ascii_add(a: Seq<char>, b: Seq<char>)
    requires
        is_ascii_chars(a),
        is_ascii_chars(b),
    ensures
        is_ascii_chars(a + b),
{
    assert forall|i: int| 0 <= i < (a + b).len() implies '\0' <= #[trigger] (a + b)[i] <= '\u{7f}' by {
        if i < a.len() {
            assert((a + b)[i] == a[i]);
        } else {
            assert((a + b)[i] == b[i - a.len()]);
        }
    }
}

proof fn lemma_decimal_tame(n: nat)
    ensures
        tame(decimal(n)),
{
    lemma_decimal(n);
}

proof fn lemma_hundredths_tame(v: int)
    ensures
        tame(hundredths_text(v)),
{
    let a: int = if v < 0 { -v } else { v };
    let sign: Seq<char> = if v < 0 { seq!['-'] } else { Seq::empty() };
    lemma_hundredths_split(v);
    lemma_decimal_tame((a / 100) as nat);
    lemma_tame_add(sign, decimal((a / 100) as nat));
    let f = a % 100;
    assert(tame(frac_text(f))) by {
        if f != 0 {
            assert(0 <= f / 10 < 10);
            assert(0 <= f % 10 < 10);
        }
    }
    lemma_tame_add(sign + decimal((a / 100) as nat), frac_text(f));
}

proof fn lemma_result_tame(r: GameResult)
    ensures
        tame(result_text(r)),
{
    match r {
        GameResult::Counted { winner: Some(Color::Black), score } => {
            lemma_hundredths_tame(crate::score::margin_of(score));
            lemma_tame_add(seq!['B', '+'], hundredths_text(crate::score::margin_of(score)));
        },
        GameResult::Counted { winner: Some(Color::White), score } => {
            lemma_hundredths_tame(-crate::score::margin_of(score));
            lemma_tame_add(seq!['W', '+'], hundredths_text(-crate::score::margin_of(score)));
        },
        _ => {},
    }
}

/// Any other two-letter property leaves what has been read as it was.
proof fn lemma_other_property(st: Scan, name: Seq<u8>, vals: Seq<Seq<u8>>)
    requires
        name.len() == 2,
        !(name[0] == 83 && name[1] == 90),
        !(name[0] == 75 && name[1] == 77),
        !(name[0] == 65 && name[1] == 66),
        !(name[0] == 65 && name[1] == 87),
    ensures
        apply_property(st, name, vals) == Ok::<Scan, crate::sgf::SgfError>(st),
{
    if name == seq![83u8, 90u8] {
        assert(name[0] == 83 && name[1] == 90);
    }
    if name == seq![75u8, 77u8] {
        assert(name[0] == 75 && name[1] == 77);
    }
    if name == seq![65u8, 66u8] {
        assert(name[0] == 65 && name[1] == 66);
    }
    if name == seq![65u8, 87u8] {
        assert(name[0] == 65 && name[1] == 87);
    }
    assert(name != seq![66u8]);
    assert(name != seq![87u8]);
}

/// The fixed opening of a record opens the game tree and sets nothing.
proof fn lemma_scan_header(b: Seq<u8>)
    requires
        b.len() > 45,
        b.subrange(0, 45) == bytes_of(sgf_header()),
        is_upper(b[45]),
    ensures
        scan(b, 0, 0, start_scan()) == scan(b, 45, 1, Scan { saw_tree: true, ..start_scan() }),
{
    reveal_strlit("(;GM[1]FF[4]CA[UTF-8]AP[igo:0.1.0]RU[Chinese]");
    let h = sgf_header();
    assert(h.len() == 45);
    assert forall|k: int| 0 <= k < 45 implies #[trigger] b[k] == h[k] as u8 by {
        assert(b[k] == b.subrange(0, 45)[k]);
    }
    let st = Scan { saw_tree: true, ..start_scan() };
    assert(b[0] == 40);
    assert(b[1] == 59);
    assert(scan(b, 1, 1, st) == scan(b, 2, 1, st));
    // GM[1]
    lemma_other_property(st, b.subrange(2, 4), seq![b.subrange(5, 6)]);
    lemma_scan_property(b, 2, 2, b.subrange(5, 6), st, st);
    // FF[4]
    lemma_other_property(st, b.subrange(7, 9), seq![b.subrange(10, 11)]);
    lemma_scan_property(b, 7, 2, b.subrange(10, 11), st, st);
    // CA[UTF-8]
    lemma_other_property(st, b.subrange(12, 14), seq![b.subrange(15, 20)]);
    lemma_scan_property(b, 12, 2, b.subrange(15, 20), st, st);
    // AP[igo:0.1.0]
    lemma_other_property(st, b.subrange(21, 23), seq![b.subrange(24, 33)]);
    lemma_scan_property(b, 21, 2, b.subrange(24, 33), st, st);
    // RU[Chinese]
    lemma_other_property(st, b.subrange(34, 36), seq![b.subrange(37, 44)]);
    lemma_scan_property(b, 34, 2, b.subrange(37, 44), st, st);
}

// --------------------------------------------------------------- the law

/// What reading back the record of `g` should give: its size and komi, no
/// setup stones, and every move but a resignation.
pub open spec fn record_of(g: GameView) -> SgfView {
    SgfView {
        size: g.board.size as u8,
        komi: g.komi,
        setup_black: Seq::empty(),
        setup_white: Seq::empty(),
        moves: record_moves(g.history),
    }
}

/// The result property of a finished game, or nothing.
pub open spec fn re_text(g: GameView) -> Seq<char> {
    match g.phase {
        Phase::Finished { result } => seq!['R', 'E', '['] + result_text(result) + seq![']'],
        _ => Seq::empty(),
    }
}

pub open spec fn at_km(g: GameView) -> int {
    48 + decimal(g.board.size as nat).len() as int
}

pub open spec fn at_re(g: GameView) -> int {
    at_km(g) + 5 + hundredths_text(g.komi as int).len()
}

pub open spec fn at_moves(g: GameView) -> int {
    at_re(g) + re_text(g).len()
}

pub open spec fn at_close(g: GameView) -> int {
    at_moves(g) + moves_text(g.board.size, g.history).len()
}

proof fn lemma_text_ascii(g: GameView)
    requires
        game_wf(g),
    ensures
        is_ascii_chars(sgf_text(g)),
        sgf_text(g) == sgf_header() + seq!['S', 'Z', '['] + decimal(g.board.size as nat) + seq![']', 'K', 'M', '[']
            + hundredths_text(g.komi as int) + seq![']'] + re_text(g) + moves_text(g.board.size, g.history) + seq![')'],
        tame(decimal(g.board.size as nat)),
        tame(hundredths_text(g.komi as int)),
        g.phase matches Phase::Finished { result } ==> tame(result_text(result)),
{
    let size = g.board.size;
    let h = g.history;
    assert(moves_on_board(size, h));
    reveal_strlit("(;GM[1]FF[4]CA[UTF-8]AP[igo:0.1.0]RU[Chinese]");
    let hd = sgf_header();
    let sz: Seq<char> = seq!['S', 'Z', '['];
    let dec = decimal(size as nat);
    let km: Seq<char> = seq![']', 'K', 'M', '['];
    let hund = hundredths_text(g.komi as int);
    let c1: Seq<char> = seq![']'];
    let re = re_text(g);
    let mt = moves_text(size, h);
    let cp: Seq<char> = seq![')'];
    lemma_decimal_tame(size as nat);
    lemma_hundredths_tame(g.komi as int);
    lemma_moves_ascii(size, h);
    lemma_tame(dec);
    lemma_tame(hund);
    assert(is_ascii_chars(hd));
    assert(is_ascii_chars(sz) && is_ascii_chars(km) && is_ascii_chars(c1) && is_ascii_chars(cp));
    if let Phase::Finished { result } = g.phase {
        let res = result_text(result);
        lemma_result_tame(result);
        lemma_tame(res);
        lemma_ascii_add(seq!['R', 'E', '['], res);
        lemma_ascii_add(seq!['R', 'E', '['] + res, seq![']']);
    }
    assert(is_ascii_chars(re));
    lemma_ascii_add(hd, sz);
    lemma_ascii_add(hd + sz, dec);
    lemma_ascii_add(hd + sz + dec, km);
    lemma_ascii_add(hd + sz + dec + km, hund);
    lemma_ascii_add(hd + sz + dec + km + hund, c1);
    lemma_ascii_add(hd + sz + dec + km + hund + c1, re);
    lemma_ascii_add(hd + sz + dec + km + hund + c1 + re, mt);
    lemma_ascii_add(hd + sz + dec + km + hund + c1 + re + mt, cp);
}

proof fn lemma_piece(t: Seq<char>, pre: Seq<char>, piece: Seq<char>, post: Seq<char>)
    requires
        t == pre + piece + post,
    ensures
        bytes_of(t).subrange(pre.len() as int, (pre.len() + piece.len()) as int) == bytes_of(piece),
{
    assert(bytes_of(t).subrange(pre.len() as int, (pre.len() + piece.len()) as int) =~= bytes_of(piece));
}

/// Where each part of the record sits in its bytes.
#[verifier::spinoff_prover]
#[verifier::rlimit(60)]
proof fn lemma_record_layout(g: GameView)
    requires
        game_wf(g),
    ensures
        ({
            let b = vstd::utf8::encode_utf8(sgf_text(g));
            &&& b == bytes_of(sgf_text(g))
            &&& b.len() == at_close(g) + 1
            &&& b.subrange(0, 45) == bytes_of(sgf_header())
            &&& b.subrange(45, 48) == bytes_of(seq!['S', 'Z', '['])
            &&& b.subrange(48, at_km(g)) == bytes_of(decimal(g.board.size as nat))
            &&& b.subrange(at_km(g), at_km(g) + 4) == bytes_of(seq![']', 'K', 'M', '['])
            &&& b.subrange(at_km(g) + 4, at_re(g) - 1) == bytes_of(hundredths_text(g.komi as int))
            &&& b[at_re(g) - 1] == 93
            &&& b.subrange(at_re(g), at_moves(g)) == bytes_of(re_text(g))
            &&& b.subrange(at_moves(g), at_close(g)) == bytes_of(moves_text(g.board.size, g.history))
            &&& b[at_close(g)] == 41
        }),
{
    lemma_text_ascii(g);
    let t = sgf_text(g);
    let b = vstd::utf8::encode_utf8(t);
    vstd::utf8::is_ascii_chars_encode_utf8(t);
    assert(b =~= bytes_of(t));
    reveal_strlit("(;GM[1]FF[4]CA[UTF-8]AP[igo:0.1.0]RU[Chinese]");
    let hd = sgf_header();
    let sz: Seq<char> = seq!['S', 'Z', '['];
    let dec = decimal(g.board.size as nat);
    let km: Seq<char> = seq![']', 'K', 'M', '['];
    let hund = hundredths_text(g.komi as int);
    let c1: Seq<char> = seq![']'];
    let re = re_text(g);
    let mt = moves_text(g.board.size, g.history);
    let cp: Seq<char> = seq![')'];
    let tail = c1 + re + mt + cp;
    assert(t =~= Seq::<char>::empty() + hd + (sz + dec + km + hund + tail));
    lemma_piece(t, Seq::empty(), hd, sz + dec + km + hund + tail);
    assert(t =~= hd + sz + (dec + km + hund + tail));
    lemma_piece(t, hd, sz, dec + km + hund + tail);
    assert(t =~= (hd + sz) + dec + (km + hund + tail));
    lemma_piece(t, hd + sz, dec, km + hund + tail);
    assert(t =~= (hd + sz + dec) + km + (hund + tail));
    lemma_piece(t, hd + sz + dec, km, hund + tail);
    assert(t =~= (hd + sz + dec + km) + hund + tail);
    lemma_piece(t, hd + sz + dec + km, hund, tail);
    assert(t =~= (hd + sz + dec + km + hund + c1) + re + (mt + cp));
    lemma_piece(t, hd + sz + dec + km + hund + c1, re, mt + cp);
    assert(t =~= (hd + sz + dec + km + hund + c1 + re) + mt + cp);
    lemma_piece(t, hd + sz + dec + km + hund + c1 + re, mt, cp);
    assert(b[at_re(g) - 1] == 93) by {
        assert(t[at_re(g) - 1] == ']');
    }
    assert(b[at_close(g)] == 41) by {
        assert(t[at_close(g)] == ')');
    }
}

proof fn lemma_moves_start(size: int, h: Seq<AppliedView>)
    ensures
        moves_text(size, h).len() > 0 ==> moves_text(size, h)[0] == ';',
    decreases h.len(),
{
    if h.len() > 0 {
        lemma_moves_start(size, h.drop_last());
        let t1 = moves_text(size, h.drop_last());
        if t1.len() > 0 {
            assert(moves_text(size, h)[0] == t1[0]);
        }
    }
}

/// Reading the size and the komi.
#[verifier::spinoff_prover]
proof fn lemma_scan_size_komi(b: Seq<u8>, size: int, komi: i32, km: int, re: int)
    requires
        2 <= size <= 25,
        km == 48 + decimal(size as nat).len(),
        re == km + 5 + hundredths_text(komi as int).len(),
        re < b.len(),
        b.subrange(45, 48) == bytes_of(seq!['S', 'Z', '[']),
        b.subrange(48, km) == bytes_of(decimal(size as nat)),
        b.subrange(km, km + 4) == bytes_of(seq![']', 'K', 'M', '[']),
        b.subrange(km + 4, re - 1) == bytes_of(hundredths_text(komi as int)),
        b[re - 1] == 93,
        ends_values(b[re]),
    ensures
        ({
            let st0 = Scan { saw_tree: true, ..start_scan() };
            scan(b, 45, 1, st0) == scan(b, re, 1, Scan { size: size as u8, komi, ..st0 })
        }),
{
    let dec = decimal(size as nat);
    let hund = hundredths_text(komi as int);
    let st0 = Scan { saw_tree: true, ..start_scan() };
    let st1 = Scan { size: size as u8, ..st0 };
    let st2 = Scan { komi, ..st1 };
    lemma_decimal_tame(size as nat);
    lemma_hundredths_tame(komi as int);
    lemma_tame(dec);
    lemma_tame(hund);
    assert(b[45] == b.subrange(45, 48)[0]);
    assert(b[46] == b.subrange(45, 48)[1]);
    assert(b[47] == b.subrange(45, 48)[2]);
    assert(b[km] == b.subrange(km, km + 4)[0]);
    assert(b[km + 1] == b.subrange(km, km + 4)[1]);
    assert(b[km + 2] == b.subrange(km, km + 4)[2]);
    assert(b[km + 3] == b.subrange(km, km + 4)[3]);
    assert(b[45] == 83 && b[46] == 90 && b[47] == 91);
    assert(b[km] == 93 && b[km + 1] == 75 && b[km + 2] == 77 && b[km + 3] == 91);
    // SZ
    lemma_parse_decimal(size as u32);
    assert(b.subrange(45, 47) =~= seq![83u8, 90u8]);
    assert(apply_property(st0, b.subrange(45, 47), seq![bytes_of(dec)]) == Ok::<Scan, crate::sgf::SgfError>(st1));
    lemma_scan_property(b, 45, 2, bytes_of(dec), st0, st1);
    // KM
    lemma_parse_hundredths(komi as int);
    assert(b.subrange(km + 1, km + 3) =~= seq![75u8, 77u8]);
    assert(apply_property(st1, b.subrange(km + 1, km + 3), seq![bytes_of(hund)]) == Ok::<Scan, crate::sgf::SgfError>(st2));
    lemma_scan_property(b, km + 1, 2, bytes_of(hund), st1, st2);
}

/// Reading the result of a finished game leaves what was read as it was.
proof fn lemma_scan_result(b: Seq<u8>, o: int, res: Seq<char>, st: Scan)
    requires
        0 <= o,
        tame(res),
        o + res.len() + 4 < b.len(),
        b.subrange(o, o + res.len() + 4) == bytes_of(seq!['R', 'E', '['] + res + seq![']']),
        ends_values(b[o + res.len() + 4]),
    ensures
        scan(b, o, 1, st) == scan(b, o + res.len() + 4, 1, st),
{
    let rb = bytes_of(res);
    lemma_tame(res);
    let sub = b.subrange(o, o + res.len() + 4);
    assert(b[o] == sub[0] && b[o + 1] == sub[1] && b[o + 2] == sub[2]);
    assert(b[o] == 82 && b[o + 1] == 69 && b[o + 2] == 91);
    assert(b.subrange(o + 3, o + 3 + res.len()) =~= sub.subrange(3, 3 + res.len() as int));
    assert(sub.subrange(3, 3 + res.len() as int) =~= rb);
    assert(b[o + 3 + res.len()] == sub[3 + res.len() as int]);
    lemma_other_property(st, b.subrange(o, o + 2), seq![rb]);
    lemma_scan_property(b, o, 2, rb, st, st);
}

/// The record a game exports reads back as that game's size, komi and
/// moves.
pub proof fn lemma_export_reads_back(g: GameView)
    requires
        game_wf(g),
    ensures
        parse_bytes(vstd::utf8::encode_utf8(sgf_text(g))) == Ok::<SgfView, crate::sgf::SgfError>(record_of(g)),
{
    let size = g.board.size;
    let h = g.history;
    let b = vstd::utf8::encode_utf8(sgf_text(g));
    let mt = moves_text(size, h);
    let re = re_text(g);
    let o_re = at_re(g);
    let o_mt = at_moves(g);
    let o_cp = at_close(g);
    lemma_record_layout(g);
    assert(moves_on_board(size, h));
    lemma_moves_start(size, h);
    // header
    assert(b[45] == b.subrange(45, 48)[0]);
    reveal_strlit("(;GM[1]FF[4]CA[UTF-8]AP[igo:0.1.0]RU[Chinese]");
    lemma_scan_header(b);
    let st0 = Scan { saw_tree: true, ..start_scan() };
    let st2 = Scan { size: size as u8, komi: g.komi, ..st0 };
    // the byte after the komi, and the byte after the result
    assert(ends_values(b[o_mt])) by {
        if mt.len() > 0 {
            assert(b[o_mt] == b.subrange(o_mt, o_cp)[0]);
        } else {
            assert(b[o_mt] == 41);
        }
    }
    assert(ends_values(b[o_re])) by {
        if re.len() > 0 {
            assert(b[o_re] == b.subrange(o_re, o_mt)[0]);
        }
    }
    lemma_scan_size_komi(b, size, g.komi, at_km(g), o_re);
    if let Phase::Finished { result } = g.phase {
        lemma_result_tame(result);
        lemma_scan_result(b, o_re, result_text(result), st2);
    }
    assert(scan(b, 0, 0, start_scan()) == scan(b, o_mt, 1, st2));
    lemma_scan_moves(b, o_mt, size, h, st2);
    let st3 = Scan { moves: st2.moves + raw_moves(size, h), ..st2 };
    assert(scan(b, o_cp, 1, st3) == Ok::<Scan, crate::sgf::SgfError>(st3));
    lemma_decode_moves(size, h);
    assert(Seq::<(Color, Seq<u8>)>::empty() + raw_moves(size, h) =~= raw_moves(size, h));
    assert(setup_points(size, Seq::empty(), Color::Black) =~= Seq::<Vertex>::empty());
    assert(setup_points(size, Seq::empty(), Color::White) =~= Seq::<Vertex>::empty());
    assert(parse_bytes(b) =~= Ok::<SgfView, crate::sgf::SgfError>(record_of(g)));
}

// --------------------------------------------------------------- replaying

/// The game that playing `ms` from position `i` on leads to, each move by
/// the colour given with it, where every one of them is a stone or a pass
/// the rules accept.
pub open spec fn played(g: GameView, ms: Seq<(Color, Move)>, i: int) -> Option<GameView>
    decreases ms.len() - i,
{
    if !(0 <= i < ms.len()) {
        Some(g)
    } else {
        let c = ms[i].0;
        let mv = ms[i].1;
        if mv is Resign || play_error(g, c, mv) is Some {
            None
        } else {
            played(after_move(g, c, mv), ms, i + 1)
        }
    }
}

proof fn lemma_played(g0: GameView, ms: Seq<(Color, Move)>, i: int, g: GameView)
    requires
        0 <= i <= ms.len(),
        played(g0, ms, i) == Some(g),
    ensures
        record_moves(g.history) == record_moves(g0.history) + ms.skip(i),
        replay_run(g0, ms, i) == (g, None::<(int, crate::game::MoveError)>),
        g.board.size == g0.board.size,
        g.komi == g0.komi,
    decreases ms.len() - i,
{
    if i == ms.len() {
        assert(ms.skip(i) =~= Seq::<(Color, Move)>::empty());
        assert(record_moves(g0.history) + ms.skip(i) =~= record_moves(g0.history));
    } else {
        let c = ms[i].0;
        let mv = ms[i].1;
        let g1 = after_move(g0, c, mv);
        lemma_played(g1, ms, i + 1, g);
        assert(with_turn(g0, c) =~= g0);
        assert(g1.history == g0.history.push(applied_of(g0, c, mv)));
        assert(g1.history.drop_last() =~= g0.history);
        assert(record_moves(g1.history) =~= record_moves(g0.history).push((c, mv)));
        assert(ms.skip(i) =~= seq![(c, mv)] + ms.skip(i + 1));
        assert(record_moves(g.history) =~= record_moves(g0.history) + ms.skip(i));
    }
}

/// A game played from an empty board, stone by stone and pass by pass,
/// exports a record that reads back as its size, komi and moves, and that
/// replays without a refusal to the very same game: the same board, the
/// same captures, the same history and the same turn.
pub proof fn lemma_record_round_trip(size: u8, komi: i32, ms: Seq<(Color, Move)>, g: GameView)
    requires
        2 <= size <= 25,
        played(initial(empty_board(size as int), Color::Black, komi), ms, 0) == Some(g),
        game_wf(g),
    ensures
        parse_bytes(vstd::utf8::encode_utf8(sgf_text(g))) == Ok::<SgfView, crate::sgf::SgfError>(record_of(g)),
        record_of(g).moves == ms,
        replay_of(record_of(g)) == (g, None::<(int, crate::game::MoveError)>),
{
    let g0 = initial(empty_board(size as int), Color::Black, komi);
    lemma_played(g0, ms, 0, g);
    assert(record_moves(g0.history) =~= Seq::<(Color, Move)>::empty());
    assert(ms.skip(0) =~= ms);
    assert(Seq::<(Color, Move)>::empty() + ms =~= ms);
    lemma_export_reads_back(g);
    let rec = record_of(g);
    assert(rec.size as int == size as int);
    assert(setup_board(rec) =~= empty_board(size as int));
}

// ------------------------------------------------------------ setup stones

/// Values written one after the other, each in brackets.
pub open spec fn bracketed(vs: Seq<Seq<u8>>) -> Seq<u8>
    decreases vs.len(),
{
    if vs.len() == 0 {
        Seq::empty()
    } else {
        seq![91u8] + vs[0] + seq![93u8] + bracketed(vs.drop_first())
    }
}

/// The two letters of each point of `ps`.
pub open spec fn point_values(size: int, ps: Seq<Vertex>) -> Seq<Seq<u8>> {
    ps.map_values(|v: Vertex| bytes_of(point_text(size, v as int)))
}

/// A record of a 19 x 19 board that sets up the black stones `bs` under
/// `AB` and the white stones `ws` under `AW`: `(;AB[..]..;AW[..]..)`.
pub open spec fn setup_record(bs: Seq<Vertex>, ws: Seq<Vertex>) -> Seq<u8> {
    seq![40u8, 59u8, 65u8, 66u8] + bracketed(point_values(19, bs)) + seq![59u8, 65u8, 87u8] + bracketed(
        point_values(19, ws),
    ) + seq![41u8]
}

/// Every point lies on a 19 x 19 board.
pub open spec fn on_19(ps: Seq<Vertex>) -> bool {
    forall|k: int| 0 <= k < ps.len() ==> (#[trigger] ps[k] as int) < 361
}

proof fn lemma_point_values_plain(ps: Seq<Vertex>)
    requires
        on_19(ps),
    ensures
        forall|k: int| 0 <= k < ps.len() ==> plain(#[trigger] point_values(19, ps)[k]),
{
    assert forall|k: int| 0 <= k < ps.len() implies plain(#[trigger] point_values(19, ps)[k]) by {
        lemma_point_text(19, ps[k] as int);
    }
}

proof fn lemma_values_read(b: Seq<u8>, j: int, vs: Seq<Seq<u8>>, acc: Seq<Seq<u8>>)
    requires
        0 <= j,
        j + bracketed(vs).len() < b.len(),
        b.subrange(j, j + bracketed(vs).len()) == bracketed(vs),
        forall|k: int| 0 <= k < vs.len() ==> plain(#[trigger] vs[k]),
        ends_values(b[j + bracketed(vs).len()]),
    ensures
        values_at(b, j, acc) == Ok::<(Seq<Seq<u8>>, int), crate::sgf::SgfError>((acc + vs, j + bracketed(vs).len())),
    decreases vs.len(),
{
    if vs.len() == 0 {
        assert(skip_space(b, j) == j);
        assert(acc + vs =~= acc);
    } else {
        let bv = bracketed(vs);
        let v0 = vs[0];
        let rest = vs.drop_first();
        assert(bv == seq![91u8] + v0 + seq![93u8] + bracketed(rest));
        assert(b[j] == bv[0]);
        assert(skip_space(b, j) == j);
        assert(b.subrange(j + 1, j + 1 + v0.len()) =~= bv.subrange(1, 1 + v0.len() as int));
        assert(bv.subrange(1, 1 + v0.len() as int) =~= v0);
        assert(b[j + 1 + v0.len()] == bv[1 + v0.len() as int]);
        assert(plain(vs[0]));
        lemma_value_read(b, j + 1, v0);
        let m = j + 2 + v0.len();
        assert(b.subrange(m, m + bracketed(rest).len()) =~= bv.subrange(2 + v0.len() as int, bv.len() as int));
        assert(bv.subrange(2 + v0.len() as int, bv.len() as int) =~= bracketed(rest));
        assert forall|k: int| 0 <= k < rest.len() implies plain(#[trigger] rest[k]) by {
            assert(rest[k] == vs[k + 1]);
        }
        lemma_values_read(b, m, rest, acc.push(v0));
        assert(acc.push(v0) + rest =~= acc + vs);
    }
}

/// Reading a two-letter property with all its values at nesting one.
proof fn lemma_scan_property_values(b: Seq<u8>, i: int, vs: Seq<Seq<u8>>, st: Scan, st2: Scan)
    requires
        0 <= i,
        i + 2 + bracketed(vs).len() < b.len(),
        is_upper(b[i]),
        is_upper(b[i + 1]),
        !is_upper(b[i + 2]),
        b.subrange(i + 2, i + 2 + bracketed(vs).len()) == bracketed(vs),
        forall|k: int| 0 <= k < vs.len() ==> plain(#[trigger] vs[k]),
        ends_values(b[i + 2 + bracketed(vs).len()]),
        apply_property(st, b.subrange(i, i + 2), vs) == Ok::<Scan, crate::sgf::SgfError>(st2),
    ensures
        scan(b, i, 1, st) == scan(b, i + 2 + bracketed(vs).len(), 1, st2),
{
    assert forall|k: int| 0 <= k < 2 implies is_upper(#[trigger] b[i + k]) by {
        if k == 0 {
        } else {
        }
    }
    lemma_name_end(b, i, 2);
    lemma_values_read(b, i + 2, vs, Seq::empty());
    assert(Seq::<Seq<u8>>::empty() + vs =~= vs);
}

proof fn lemma_point_values_read(ps: Seq<Vertex>)
    requires
        on_19(ps),
    ensures
        values_points(19, point_values(19, ps)) == ps,
    decreases ps.len(),
{
    if ps.len() > 0 {
        let q = ps.drop_last();
        assert(on_19(q)) by {
            assert forall|k: int| 0 <= k < q.len() implies (#[trigger] q[k] as int) < 361 by {
                assert(q[k] == ps[k]);
            }
        }
        lemma_point_values_read(q);
        assert(point_values(19, ps).drop_last() =~= point_values(19, q));
        let v = ps.last();
        assert((v as int) < 361) by {
            assert(v == ps[ps.len() - 1]);
        }
        lemma_point_text(19, v as int);
        assert(point_values(19, ps).last() == bytes_of(point_text(19, v as int)));
        assert(values_points(19, point_values(19, ps)) =~= q + seq![v]);
        assert(q + seq![v] =~= ps);
    } else {
        assert(values_points(19, point_values(19, ps)) =~= ps);
    }
}

/// What reading a setup record gathers.
pub open spec fn setup_scan(bs: Seq<Vertex>, ws: Seq<Vertex>) -> Scan {
    Scan {
        setup: seq![(Color::Black, point_values(19, bs)), (Color::White, point_values(19, ws))],
        saw_tree: true,
        ..start_scan()
    }
}

#[verifier::spinoff_prover]
proof fn lemma_setup_scan(bs: Seq<Vertex>, ws: Seq<Vertex>)
    requires
        on_19(bs),
        on_19(ws),
    ensures
        scan(setup_record(bs, ws), 0, 0, start_scan()) == Ok::<Scan, crate::sgf::SgfError>(setup_scan(bs, ws)),
{
    let pb = point_values(19, bs);
    let pw = point_values(19, ws);
    let xb = bracketed(pb);
    let xw = bracketed(pw);
    let b = setup_record(bs, ws);
    let lb = xb.len() as int;
    let lw = xw.len() as int;
    lemma_point_values_plain(bs);
    lemma_point_values_plain(ws);
    assert(b.len() == 8 + lb + lw);
    assert(b[0] == 40 && b[1] == 59 && b[2] == 65 && b[3] == 66);
    assert(b.subrange(4, 4 + lb) =~= xb);
    assert(b[4 + lb] == 59 && b[5 + lb] == 65 && b[6 + lb] == 87);
    assert(b.subrange(7 + lb, 7 + lb + lw) =~= xw);
    assert(b[7 + lb + lw] == 41);
    assert(!is_upper(b[4])) by {
        if lb > 0 {
            assert(b[4] == xb[0]);
        }
    }
    assert(!is_upper(b[7 + lb])) by {
        if lw > 0 {
            assert(b[7 + lb] == xw[0]);
        }
    }
    let st0 = Scan { saw_tree: true, ..start_scan() };
    let st1 = Scan { setup: st0.setup.push((Color::Black, pb)), ..st0 };
    let st2 = Scan { setup: st1.setup.push((Color::White, pw)), ..st1 };
    assert(scan(b, 1, 1, st0) == scan(b, 2, 1, st0));
    assert(b.subrange(2, 4) =~= seq![65u8, 66u8]);
    lemma_scan_property_values(b, 2, pb, st0, st1);
    assert(scan(b, 4 + lb, 1, st1) == scan(b, 5 + lb, 1, st1));
    assert(b.subrange(5 + lb, 7 + lb) =~= seq![65u8, 87u8]);
    assert(seq![65u8, 87u8] != seq![65u8, 66u8]) by {
        assert(seq![65u8, 87u8][1] != seq![65u8, 66u8][1]);
    }
    lemma_scan_property_values(b, 5 + lb, pw, st1, st2);
    assert(scan(b, 7 + lb + lw, 1, st2) == Ok::<Scan, crate::sgf::SgfError>(st2));
    assert(st2 =~= setup_scan(bs, ws));
}

/// The stones a record sets up are read back by colour: every point listed
/// under `AB` becomes a black setup stone and every point listed under
/// `AW` a white one, in the order they are listed, and nothing else.
#[verifier::spinoff_prover]
pub proof fn lemma_setup_reads_back(bs: Seq<Vertex>, ws: Seq<Vertex>)
    requires
        on_19(bs),
        on_19(ws),
    ensures
        parse_bytes(setup_record(bs, ws)) == Ok::<SgfView, crate::sgf::SgfError>(
            SgfView {
                size: 19,
                komi: crate::game::DEFAULT_KOMI,
                setup_black: bs,
                setup_white: ws,
                moves: Seq::empty(),
            },
        ),
{
    lemma_setup_scan(bs, ws);
    let st = setup_scan(bs, ws);
    lemma_point_values_read(bs);
    lemma_point_values_read(ws);
    let setup = st.setup;
    assert(setup.drop_last() =~= seq![(Color::Black, point_values(19, bs))]);
    assert(setup.drop_last().drop_last() =~= Seq::<(Color, Seq<Seq<u8>>)>::empty());
    let one = setup.drop_last();
    let none = one.drop_last();
    assert(setup.last() == (Color::White, point_values(19, ws)));
    assert(one.last() == (Color::Black, point_values(19, bs)));
    assert(setup_points(19, none, Color::Black) == Seq::<Vertex>::empty());
    assert(setup_points(19, none, Color::White) == Seq::<Vertex>::empty());
    assert(setup_points(19, one, Color::Black) == Seq::<Vertex>::empty() + bs);
    assert(setup_points(19, one, Color::White) == Seq::<Vertex>::empty() + Seq::<Vertex>::empty());
    assert(setup_points(19, setup, Color::Black) == setup_points(19, one, Color::Black) + Seq::<Vertex>::empty());
    assert(setup_points(19, setup, Color::White) == setup_points(19, one, Color::White) + ws);
    assert(setup_points(19, setup, Color::Black) =~= bs);
    assert(setup_points(19, setup, Color::White) =~= ws);
    assert(st.moves.map_values(|m: (Color, Seq<u8>)| (m.0, move_of(19, m.1))) =~= Seq::<(Color, Move)>::empty());
}

} // verus!
