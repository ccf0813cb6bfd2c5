//! Round-trip laws: parsing inverts compact serialization.
//!
//! The public lemmas at the end state that a well-formed value tree,
//! rendered compactly, parses back to exactly that tree, and that parsing is
//! therefore idempotent through one serialization.  Everything is proved
//! over the mathematical grammar and rendering, which the executable parser
//! and serializer are proved to implement.
use crate::encoding::dec_digits;
use crate::encoding::lemma_dec_digits_shape;
use crate::encoding::pow10;
use crate::encoding::zeros;
use crate::grammar::digit_val;
use crate::grammar::fold_digits_i32;
use crate::grammar::fold_digits_u64;
use crate::grammar::is_digit_char;
use crate::grammar::is_one_to_nine_char;
use crate::grammar::is_whitespace_char;
use crate::grammar::spec_character;
use crate::grammar::spec_characters_run;
use crate::grammar::spec_digit_run;
use crate::grammar::spec_digits;
use crate::grammar::spec_expect;
use crate::grammar::spec_integer;
use crate::grammar::spec_next_char;
use crate::grammar::spec_number;
use crate::grammar::spec_positive_integer;
use crate::grammar::spec_single_digit_integer;
use crate::grammar::spec_string;
use crate::grammar::lemma_ws_run_pos;
use crate::grammar::spec_ws_run;
use crate::json::JsonModel;
use crate::json::NumberValue;
use crate::json::elements_tail_chars;
use crate::json::escape_char;
use crate::json::escape_chars;
use crate::json::exponent_chars;
use crate::json::fraction_chars;
use crate::json::int_chars;
use crate::json::member_chars;
use crate::json::members_tail_chars;
use crate::json::model_depth;
use crate::json::newline_indent_chars;
use crate::json::number_chars;
use crate::json::number_wf;
use crate::json::string_chars;
use crate::json::value_chars;
use crate::parser::ParserContext;
use crate::parser::SimplePosition;
use vstd::prelude::*;

verus! {

/// The position `n` characters onward, over a window with no newlines.
pub open spec fn pos_plus(pos: SimplePosition, n: nat) -> SimplePosition {
    SimplePosition {
        index: (pos.index + n) as u32,
        line: pos.line,
        column: (pos.column + n) as u32,
    }
}

/// The cursor is inside the input and cannot overflow while scanning it.
pub open spec fn cursor_ok(s: Seq<char>, pos: SimplePosition) -> bool {
    &&& s.len() < u32::MAX
    &&& pos.index <= s.len()
    &&& pos.line <= pos.index
    &&& pos.column <= pos.index
}

/// The characters `w` stand in `s` at offset `j`.
pub open spec fn window(s: Seq<char>, j: int, w: Seq<char>) -> bool {
    &&& 0 <= j
    &&& j + w.len() <= s.len()
    &&& s.subrange(j, j + w.len()) == w
}

/// What may follow a complete rendered value: a separator, a closing
/// bracket, or the end of the input.  None of these can extend any
/// production.
pub open spec fn follower_ok(s: Seq<char>, j: int) -> bool {
    j == s.len() || s[j] == ',' || s[j] == '}' || s[j] == ']'
}

/// A window over a concatenation splits into two adjacent windows.
proof fn lemma_window_split(s: Seq<char>, j: int, a: Seq<char>, b: Seq<char>)
    requires
        window(s, j, a + b),
    ensures
        window(s, j, a),
        window(s, j + a.len(), b),
{
    assert(s.subrange(j, j + a.len()) =~= a) by {
        assert forall|i: int| 0 <= i < a.len() implies s.subrange(j, j + a.len())[i] == a[i] by {
            assert(s.subrange(j, j + (a + b).len())[i] == (a + b)[i]);
        }
    }
    assert(s.subrange(j + a.len(), j + a.len() + b.len()) =~= b) by {
        assert forall|i: int|
            0 <= i < b.len() implies s.subrange(j + a.len(), j + a.len() + b.len())[i] == b[i] by {
            assert(s.subrange(j, j + (a + b).len())[a.len() + i] == (a + b)[a.len() + i]);
        }
    }
}

/// A character of a window is that character of `s`.
proof fn lemma_window_char(s: Seq<char>, j: int, w: Seq<char>, i: int)
    requires
        window(s, j, w),
        0 <= i < w.len(),
    ensures
        s[j + i] == w[i],
{
    assert(s.subrange(j, j + w.len())[i] == s[j + i]);
}

/// Stepping the cursor one character forward inside the input.
proof fn lemma_pos_step(s: Seq<char>, pos: SimplePosition, c: char)
    requires
        cursor_ok(s, pos),
        pos.index < s.len(),
        s[pos.index as int] == c,
        c != '\n',
    ensures
        spec_next_char(s, pos) == Ok::<(char, SimplePosition), crate::parser::ErrorModel>(
            (c, pos_plus(pos, 1)),
        ),
        cursor_ok(s, pos_plus(pos, 1)),
{
    assert(pos.spec_next(c) == pos_plus(pos, 1));
}

/// A whitespace run consumes nothing when the cursor does not stand on
/// whitespace.
proof fn lemma_ws_run_none(s: Seq<char>, pos: SimplePosition)
    requires
        pos.index >= s.len() || !is_whitespace_char(s[pos.index as int]),
    ensures
        spec_ws_run(s, pos) == pos,
{
}

/// Reading one character of a class that the cursor's character satisfies.
proof fn lemma_expect_ok(s: Seq<char>, pos: SimplePosition, pred: spec_fn(char) -> bool, c: char)
    requires
        cursor_ok(s, pos),
        pos.index < s.len(),
        s[pos.index as int] == c,
        c != '\n',
        pred(c),
    ensures
        spec_expect(s, pos, pred) == Ok::<(char, SimplePosition), crate::parser::ErrorModel>(
            (c, pos_plus(pos, 1)),
        ),
        cursor_ok(s, pos_plus(pos, 1)),
{
    lemma_pos_step(s, pos, c);
}

/// Reading one character of a class fails when the cursor stands at the end
/// or on a character outside the class.
proof fn lemma_expect_fail(s: Seq<char>, pos: SimplePosition, pred: spec_fn(char) -> bool)
    requires
        pos.index >= s.len() || !pred(s[pos.index as int]),
    ensures
        spec_expect(s, pos, pred) is Err,
{
}

/// The digit run over a window of digits followed by a non-digit reads
/// exactly that window.
proof fn lemma_digit_run_window(s: Seq<char>, pos: SimplePosition, ds: Seq<char>)
    requires
        cursor_ok(s, pos),
        window(s, pos.index as int, ds),
        forall|i: int| 0 <= i < ds.len() ==> is_digit_char(#[trigger] ds[i]),
        pos.index + ds.len() == s.len() || !is_digit_char(s[pos.index + ds.len()]),
    ensures
        spec_digit_run(s, pos) == (ds, pos_plus(pos, ds.len())),
    decreases ds.len(),
{
    if ds.len() == 0 {
        assert(pos_plus(pos, 0) == pos);
    } else {
        lemma_window_char(s, pos.index as int, ds, 0);
        lemma_pos_step(s, pos, ds[0]);
        let p1 = pos_plus(pos, 1);
        assert(seq![ds[0]] + ds.drop_first() =~= ds);
        assert(window(s, pos.index as int, seq![ds[0]] + ds.drop_first()));
        lemma_window_split(s, pos.index as int, seq![ds[0]], ds.drop_first());
        lemma_digit_run_window(s, p1, ds.drop_first());
        assert(pos_plus(p1, ds.drop_first().len()) == pos_plus(pos, ds.len()));
        assert(spec_digit_run(s, pos) == (
            seq![ds[0]] + ds.drop_first(),
            pos_plus(pos, ds.len()),
        ));
        assert(seq![ds[0]] + ds.drop_first() == ds);
    }
}

/// The exact value of a digit sequence folded from `acc` without wrapping.
pub open spec fn val_digits(ds: Seq<char>, acc: nat) -> nat
    decreases ds.len(),
{
    if ds.len() == 0 {
        acc
    } else {
        val_digits(ds.drop_first(), (acc * 10 + digit_val(ds[0])) as nat)
    }
}

/// Folding never decreases the accumulator.
proof fn lemma_val_digits_mono(ds: Seq<char>, acc: nat)
    requires
        forall|i: int| 0 <= i < ds.len() ==> is_digit_char(#[trigger] ds[i]),
    ensures
        val_digits(ds, acc) >= acc,
    decreases ds.len(),
{
    if ds.len() > 0 {
        let acc2 = (acc * 10 + digit_val(ds[0])) as nat;
        assert(acc * 10 >= acc) by (nonlinear_arith);
        lemma_val_digits_mono(ds.drop_first(), acc2);
    }
}

/// The wrapping 64-bit fold equals the exact fold when the exact value
/// fits.
proof fn lemma_fold_u64_exact(ds: Seq<char>, acc: u64)
    requires
        forall|i: int| 0 <= i < ds.len() ==> is_digit_char(#[trigger] ds[i]),
        val_digits(ds, acc as nat) <= u64::MAX,
    ensures
        fold_digits_u64(ds, acc) == val_digits(ds, acc as nat),
    decreases ds.len(),
{
    if ds.len() > 0 {
        let exact = (acc * 10 + digit_val(ds[0])) as nat;
        lemma_val_digits_mono(ds.drop_first(), exact);
        let step = vstd::wrapping::u64_specs::wrapping_add(
            vstd::wrapping::u64_specs::wrapping_mul(acc, 10),
            digit_val(ds[0]) as u64,
        );
        assert(step == exact);
        lemma_fold_u64_exact(ds.drop_first(), step);
    }
}

/// The wrapping 32-bit fold equals the exact fold when the exact value
/// fits.
proof fn lemma_fold_i32_exact(ds: Seq<char>, acc: i32)
    requires
        forall|i: int| 0 <= i < ds.len() ==> is_digit_char(#[trigger] ds[i]),
        acc >= 0,
        val_digits(ds, acc as nat) <= i32::MAX,
    ensures
        fold_digits_i32(ds, acc) == val_digits(ds, acc as nat),
    decreases ds.len(),
{
    if ds.len() > 0 {
        let exact = (acc * 10 + digit_val(ds[0])) as nat;
        lemma_val_digits_mono(ds.drop_first(), exact);
        let step = vstd::wrapping::i32_specs::wrapping_add(
            vstd::wrapping::i32_specs::wrapping_mul(acc, 10),
            digit_val(ds[0]) as i32,
        );
        assert(step == exact);
        lemma_fold_i32_exact(ds.drop_first(), step);
    }
}

/// Exact folding distributes over concatenation.
proof fn lemma_val_digits_concat(a: Seq<char>, b: Seq<char>, acc: nat)
    requires
        forall|i: int| 0 <= i < a.len() ==> is_digit_char(#[trigger] a[i]),
    ensures
        val_digits(a + b, acc) == val_digits(b, val_digits(a, acc)),
    decreases a.len(),
{
    if a.len() == 0 {
        assert(a + b =~= b);
    } else {
        assert((a + b).drop_first() =~= a.drop_first() + b);
        assert((a + b)[0] == a[0]);
        assert(forall|i: int|
            0 <= i < a.drop_first().len() ==> is_digit_char(#[trigger] a.drop_first()[i]));
        lemma_val_digits_concat(a.drop_first(), b, (acc * 10 + digit_val(a[0])) as nat);
    }
}

/// Folding a run of zeros multiplies the accumulator by the matching power
/// of ten.
proof fn lemma_val_digits_zeros(p: nat, acc: nat)
    ensures
        val_digits(zeros(p), acc) == acc * pow10(p),
    decreases p,
{
    if p == 0 {
        assert(zeros(0).len() == 0);
        assert(acc * pow10(0) == acc) by (nonlinear_arith)
            requires
                pow10(0) == 1,
        ;
    } else {
        assert(zeros(p)[0] == '0');
        assert(digit_val('0') == 0);
        assert(zeros(p).drop_first() =~= zeros((p - 1) as nat));
        lemma_val_digits_zeros((p - 1) as nat, acc * 10);
        assert(acc * 10 * pow10((p - 1) as nat) == acc * pow10(p)) by (nonlinear_arith)
            requires
                pow10(p) == 10 * pow10((p - 1) as nat),
        ;
    }
}

/// The value of a digit character is its digit.
proof fn lemma_digit_char_val(d: nat)
    requires
        d < 10,
    ensures
        digit_val(crate::encoding::digit_char(d as int)) == d,
        is_digit_char(crate::encoding::digit_char(d as int)),
{
}

/// Folding one appended digit.
proof fn lemma_val_digits_push(ds: Seq<char>, d: char, acc: nat)
    requires
        is_digit_char(d),
        forall|i: int| 0 <= i < ds.len() ==> is_digit_char(#[trigger] ds[i]),
    ensures
        val_digits(ds.push(d), acc) == val_digits(ds, acc) * 10 + digit_val(d),
    decreases ds.len(),
{
    assert(digit_val(d) >= 0);
    if ds.len() == 0 {
        assert(ds.push(d)[0] == d);
        assert(ds.push(d).len() == 1);
        assert(ds.push(d).drop_first() =~= Seq::<char>::empty());
        assert(val_digits(ds.push(d), acc) == val_digits(
            ds.push(d).drop_first(),
            (acc * 10 + digit_val(d)) as nat,
        ));
        assert(val_digits(Seq::<char>::empty(), (acc * 10 + digit_val(d)) as nat) == (acc * 10
            + digit_val(d)) as nat);
        assert((acc * 10 + digit_val(d)) as nat == acc * 10 + digit_val(d));
        assert(val_digits(ds, acc) == acc);
    } else {
        assert(ds.push(d)[0] == ds[0]);
        assert(digit_val(ds[0]) >= 0);
        assert(ds.push(d).drop_first() =~= ds.drop_first().push(d));
        assert(forall|i: int|
            0 <= i < ds.drop_first().len() ==> is_digit_char(#[trigger] ds.drop_first()[i]));
        lemma_val_digits_push(ds.drop_first(), d, (acc * 10 + digit_val(ds[0])) as nat);
        assert(val_digits(ds.push(d), acc) == val_digits(
            ds.drop_first().push(d),
            (acc * 10 + digit_val(ds[0])) as nat,
        ));
        assert(val_digits(ds, acc) == val_digits(
            ds.drop_first(),
            (acc * 10 + digit_val(ds[0])) as nat,
        ));
    }
}

/// Folding the decimal digits of `v` from `acc` yields `acc` shifted by the
/// digit count plus `v`.
proof fn lemma_val_dec_digits(v: nat, acc: nat)
    ensures
        val_digits(dec_digits(v), acc) == acc * pow10(dec_digits(v).len()) + v,
    decreases v,
{
    assert(pow10(0) == 1);
    assert(pow10(1) == 10);
    if v < 10 {
        lemma_digit_char_val(v);
        assert(dec_digits(v) =~= Seq::<char>::empty().push(crate::encoding::digit_char(v as int)));
        lemma_val_digits_push(
            Seq::<char>::empty(),
            crate::encoding::digit_char(v as int),
            acc,
        );
        assert(acc * pow10(1) == acc * 10) by (nonlinear_arith)
            requires
                pow10(1) == 10,
        ;
    } else {
        lemma_val_dec_digits(v / 10, acc);
        lemma_digit_char_val(v % 10);
        lemma_dec_digits_shape(v / 10);
        lemma_val_digits_push(
            dec_digits(v / 10),
            crate::encoding::digit_char((v % 10) as int),
            acc,
        );
        let k = dec_digits(v / 10).len();
        assert(dec_digits(v).len() == k + 1);
        assert((acc * pow10(k) + v / 10) * 10 + v % 10 == acc * pow10((k + 1) as nat) + v)
            by (nonlinear_arith)
            requires
                pow10((k + 1) as nat) == 10 * pow10(k),
                v >= 10,
        ;
    }
}

/// The unsigned integer production reads exactly the decimal rendering of
/// `v` when a non-digit follows it.
proof fn lemma_positive_integer_complete(s: Seq<char>, pos: SimplePosition, v: u64)
    requires
        cursor_ok(s, pos),
        window(s, pos.index as int, dec_digits(v as nat)),
        pos.index + dec_digits(v as nat).len() == s.len() || !is_digit_char(
            s[pos.index + dec_digits(v as nat).len()],
        ),
    ensures
        spec_positive_integer(s, pos) == Ok::<(u64, SimplePosition), crate::parser::ErrorModel>(
            (v, pos_plus(pos, dec_digits(v as nat).len())),
        ),
    decreases 0int,
{
    let ds = dec_digits(v as nat);
    lemma_dec_digits_shape(v as nat);
    lemma_window_char(s, pos.index as int, ds, 0);
    lemma_val_dec_digits(v as nat, 0);
    assert(val_digits(ds, 0) == v) by (nonlinear_arith)
        requires
            val_digits(ds, 0) == 0 * pow10(ds.len()) + v,
    ;
    if v >= 10 {
        lemma_dec_digits_shape((v as nat) / 10);
        assert(ds == dec_digits((v as nat) / 10).push(
            crate::encoding::digit_char(((v as nat) % 10) as int),
        ));
        assert(ds.len() >= 2);
        assert(ds[0] != '0');
        assert(is_one_to_nine_char(ds[0]));
        lemma_expect_ok(s, pos, |c: char| is_one_to_nine_char(c), ds[0]);
        let p1 = pos_plus(pos, 1);
        assert(seq![ds[0]] + ds.drop_first() =~= ds);
        lemma_window_split(s, pos.index as int, seq![ds[0]], ds.drop_first());
        let rest = ds.drop_first();
        lemma_window_char(s, p1.index as int, rest, 0);
        assert(is_digit_char(rest[0]));
        lemma_expect_ok(s, p1, |c: char| is_digit_char(c), rest[0]);
        let p2 = pos_plus(p1, 1);
        assert(seq![rest[0]] + rest.drop_first() =~= rest);
        lemma_window_split(s, p1.index as int, seq![rest[0]], rest.drop_first());
        lemma_digit_run_window(s, p2, rest.drop_first());
        let pend = pos_plus(p2, rest.drop_first().len());
        assert(pend == pos_plus(pos, ds.len()));
        assert(seq![rest[0]] + rest.drop_first() == rest);
        assert(spec_digits(s, p1) == Ok::<(Seq<char>, SimplePosition), crate::parser::ErrorModel>(
            (rest, pend),
        ));
        assert(val_digits(ds, 0) == val_digits(rest, (0 * 10 + digit_val(ds[0])) as nat));
        lemma_fold_u64_exact(rest, digit_val(ds[0]) as u64);
        assert(fold_digits_u64(rest, digit_val(ds[0]) as u64) == v);
    } else {
        assert(ds =~= seq![crate::encoding::digit_char(v as int)]);
        lemma_digit_char_val(v as nat);
        assert(ds.len() == 1);
        let p1 = pos_plus(pos, 1);
        if v >= 1 {
            assert(is_one_to_nine_char(ds[0]));
            lemma_expect_ok(s, pos, |c: char| is_one_to_nine_char(c), ds[0]);
            lemma_expect_fail(s, p1, |c: char| is_digit_char(c));
            lemma_expect_ok(s, pos, |c: char| is_digit_char(c), ds[0]);
            assert(spec_single_digit_integer(s, pos) == Ok::<
                (u64, SimplePosition),
                crate::parser::ErrorModel,
            >((v, p1)));
        } else {
            assert(ds[0] == '0');
            assert(!is_one_to_nine_char(ds[0]));
            lemma_expect_fail(s, pos, |c: char| is_one_to_nine_char(c));
            lemma_expect_ok(s, pos, |c: char| is_digit_char(c), ds[0]);
            assert(spec_single_digit_integer(s, pos) == Ok::<
                (u64, SimplePosition),
                crate::parser::ErrorModel,
            >((v, p1)));
        }
    }
}

/// The integer production reads exactly the signed decimal rendering of `n`
/// when a non-digit follows it.
proof fn lemma_integer_complete(s: Seq<char>, pos: SimplePosition, n: i64)
    requires
        cursor_ok(s, pos),
        window(s, pos.index as int, int_chars(n as int)),
        pos.index + int_chars(n as int).len() == s.len() || !is_digit_char(
            s[pos.index + int_chars(n as int).len()],
        ),
    ensures
        spec_integer(s, pos) == Ok::<(i64, SimplePosition), crate::parser::ErrorModel>(
            (n, pos_plus(pos, int_chars(n as int).len())),
        ),
{
    if n >= 0 {
        let v = n as u64;
        assert(v as nat == n as int);
        lemma_positive_integer_complete(s, pos, v);
        assert(v as i64 == n);
    } else {
        let mag = (-(n as int)) as nat;
        let ds = dec_digits(mag);
        assert(int_chars(n as int) == seq!['-'] + ds);
        lemma_window_split(s, pos.index as int, seq!['-'], ds);
        lemma_window_char(s, pos.index as int, seq!['-'], 0);
        assert(s[pos.index as int] == '-');
        lemma_expect_fail(s, pos, |c: char| is_one_to_nine_char(c));
        lemma_expect_fail(s, pos, |c: char| is_digit_char(c));
        assert(spec_positive_integer(s, pos) is Err);
        lemma_expect_ok(s, pos, |c: char| crate::grammar::is_negative_sign_char(c), '-');
        let p1 = pos_plus(pos, 1);
        let m64 = mag as u64;
        assert(m64 as nat == mag);
        lemma_positive_integer_complete(s, p1, m64);
        let pend = pos_plus(p1, ds.len());
        assert(pend == pos_plus(pos, int_chars(n as int).len()));
        assert(vstd::wrapping::i64_specs::wrapping_sub(0, m64 as i64) == n) by {
            if mag < 0x8000000000000000 {
                assert(m64 as i64 == mag);
            } else {
                assert(m64 == 0x8000000000000000);
                assert(0x8000000000000000u64 as i64 == i64::MIN) by (bit_vector);
            }
        }
    }
}

/// The number production reads exactly the rendering of `n` when one of the
/// closing characters follows it.
#[verifier::rlimit(60)]
proof fn lemma_number_complete(s: Seq<char>, pos: SimplePosition, n: NumberValue)
    requires
        cursor_ok(s, pos),
        number_wf(n),
        n.fraction > 0 ==> n.fraction_length > 0,
        window(s, pos.index as int, number_chars(n)),
        follower_ok(s, pos.index + number_chars(n).len()),
    ensures
        spec_number(s, pos) == Ok::<(NumberValue, SimplePosition), crate::parser::ErrorModel>(
            (n, pos_plus(pos, number_chars(n).len())),
        ),
{
    let ic = int_chars(n.integer as int);
    let fc = fraction_chars(n);
    let ec = exponent_chars(n);
    assert(number_chars(n) == ic + fc + ec);
    lemma_window_split(s, pos.index as int, ic + fc, ec);
    lemma_window_split(s, pos.index as int, ic, fc);
    let p1 = pos_plus(pos, ic.len());
    let p2 = pos_plus(pos, ic.len() + fc.len());
    let p3 = pos_plus(pos, number_chars(n).len());
    // the character after the integer part is never a digit
    assert(pos.index + ic.len() == s.len() || !is_digit_char(s[pos.index + ic.len()])) by {
        if fc.len() > 0 {
            lemma_window_char(s, p1.index as int, fc, 0);
            assert(fc[0] == '.');
        } else if ec.len() > 0 {
            lemma_window_char(s, p2.index as int, ec, 0);
            assert(ec[0] == 'e');
        }
    }
    lemma_integer_complete(s, pos, n.integer);
    // fraction part
    if n.fraction_length > 0 {
        let pad = (n.fraction_length - dec_digits(n.fraction as nat).len()) as nat;
        let body = zeros(pad) + dec_digits(n.fraction as nat);
        assert(fc == seq!['.'] + body);
        lemma_window_split(s, p1.index as int, seq!['.'], body);
        lemma_window_char(s, p1.index as int, seq!['.'], 0);
        lemma_expect_ok(s, p1, |c: char| crate::grammar::is_dot_char(c), '.');
        let pd = pos_plus(p1, 1);
        assert(forall|i: int| 0 <= i < body.len() ==> is_digit_char(#[trigger] body[i])) by {
            lemma_dec_digits_shape(n.fraction as nat);
            assert(forall|i: int|
                0 <= i < body.len() ==> body[i] == (if i < pad {
                    zeros(pad)[i]
                } else {
                    dec_digits(n.fraction as nat)[i - pad]
                }));
        }
        assert(body.len() >= 1);
        lemma_window_char(s, pd.index as int, body, 0);
        lemma_expect_ok(s, pd, |c: char| is_digit_char(c), body[0]);
        let pd1 = pos_plus(pd, 1);
        assert(seq![body[0]] + body.drop_first() =~= body);
        lemma_window_split(s, pd.index as int, seq![body[0]], body.drop_first());
        assert(pd.index + 1 + body.drop_first().len() == p2.index);
        assert(p2.index == s.len() || !is_digit_char(s[p2.index as int])) by {
            if ec.len() > 0 {
                lemma_window_char(s, p2.index as int, ec, 0);
                assert(ec[0] == 'e');
            }
        }
        lemma_digit_run_window(s, pd1, body.drop_first());
        assert(seq![body[0]] + body.drop_first() == body);
        assert(spec_digits(s, pd) == Ok::<(Seq<char>, SimplePosition), crate::parser::ErrorModel>(
            (body, p2),
        ));
        // the folded digits give back the fraction and its digit count
        lemma_val_digits_zeros(pad, 0);
        assert(0 * pow10(pad) == 0) by (nonlinear_arith);
        lemma_dec_digits_shape(n.fraction as nat);
        assert(forall|i: int|
            0 <= i < zeros(pad).len() ==> is_digit_char(#[trigger] zeros(pad)[i]));
        lemma_val_digits_concat(zeros(pad), dec_digits(n.fraction as nat), 0);
        lemma_val_dec_digits(n.fraction as nat, 0);
        assert(val_digits(body, 0) == n.fraction) by (nonlinear_arith)
            requires
                val_digits(body, 0) == 0 * pow10(dec_digits(n.fraction as nat).len())
                    + n.fraction,
        ;
        lemma_fold_u64_exact(body, 0);
        assert(body.len() == n.fraction_length);
        assert((body.len() as u32) == n.fraction_length);
        assert(crate::grammar::spec_fraction(s, p1) == (
            (n.fraction, n.fraction_length),
            p2,
        ));
    } else {
        assert(fc.len() == 0);
        assert(p1 == p2);
        assert(p2.index == s.len() || s[p2.index as int] != '.') by {
            if ec.len() > 0 {
                lemma_window_char(s, p2.index as int, ec, 0);
                assert(ec[0] == 'e');
            }
        }
        lemma_expect_fail(s, p1, |c: char| crate::grammar::is_dot_char(c));
        assert(crate::grammar::spec_fraction(s, p1) == (
            (n.fraction, n.fraction_length),
            p2,
        ));
    }
    // exponent part
    if n.exponent != 0 {
        let mag: nat = if n.exponent < 0 {
            (-(n.exponent as int)) as nat
        } else {
            n.exponent as nat
        };
        let sgn: Seq<char> = if n.exponent < 0 {
            seq!['-']
        } else {
            Seq::<char>::empty()
        };
        assert(ec == seq!['e'] + sgn + dec_digits(mag));
        assert(seq!['e'] + sgn + dec_digits(mag) =~= seq!['e'] + (sgn + dec_digits(mag)));
        lemma_window_split(s, p2.index as int, seq!['e'], sgn + dec_digits(mag));
        lemma_window_char(s, p2.index as int, seq!['e'], 0);
        lemma_expect_ok(s, p2, |c: char| crate::grammar::is_e_char(c), 'e');
        let pe = pos_plus(p2, 1);
        lemma_window_split(s, pe.index as int, sgn, dec_digits(mag));
        let pdg = pos_plus(pe, sgn.len());
        lemma_dec_digits_shape(mag);
        if n.exponent < 0 {
            lemma_window_char(s, pe.index as int, sgn, 0);
            lemma_expect_ok(s, pe, |c: char| crate::grammar::is_sign_char(c), '-');
            assert(crate::grammar::spec_sign_opt(s, pe) == (Some('-'), pdg));
        } else {
            lemma_window_char(s, pe.index as int, dec_digits(mag), 0);
            assert(is_digit_char(dec_digits(mag)[0]));
            assert(!crate::grammar::is_sign_char(dec_digits(mag)[0]));
            lemma_expect_fail(s, pe, |c: char| crate::grammar::is_sign_char(c));
            assert(crate::grammar::spec_sign_opt(s, pe) == (
                None::<char>,
                pe,
            ));
            assert(pdg == pe);
        }
        let ds = dec_digits(mag);
        lemma_window_char(s, pdg.index as int, ds, 0);
        lemma_expect_ok(s, pdg, |c: char| is_digit_char(c), ds[0]);
        let pdg1 = pos_plus(pdg, 1);
        assert(seq![ds[0]] + ds.drop_first() =~= ds);
        lemma_window_split(s, pdg.index as int, seq![ds[0]], ds.drop_first());
        assert(p3.index == s.len() || !is_digit_char(s[p3.index as int]));
        lemma_digit_run_window(s, pdg1, ds.drop_first());
        assert(seq![ds[0]] + ds.drop_first() == ds);
        assert(spec_digits(s, pdg) == Ok::<
            (Seq<char>, SimplePosition),
            crate::parser::ErrorModel,
        >((ds, p3)));
        lemma_val_dec_digits(mag, 0);
        assert(val_digits(ds, 0) == mag) by (nonlinear_arith)
            requires
                val_digits(ds, 0) == 0 * pow10(ds.len()) + mag,
        ;
        assert(mag <= i32::MAX);
        lemma_fold_i32_exact(ds, 0);
        let v = fold_digits_i32(ds, 0);
        assert(v == mag);
        if n.exponent < 0 {
            assert(vstd::wrapping::i32_specs::wrapping_mul(v, -1i32) == n.exponent) by {
                assert(v * (-1) == -(mag as int)) by (nonlinear_arith)
                    requires
                        v == mag,
                ;
                assert((-(mag as int)) % 0x100000000 == 0x100000000 - mag) by (nonlinear_arith)
                    requires
                        0 < mag < 0x100000000,
                ;
            }
        }
        assert(crate::grammar::spec_exponent(s, p2) == (n.exponent, p3));
    } else {
        assert(ec.len() == 0);
        assert(p2 == p3);
        assert(p2.index == s.len() || (s[p2.index as int] != 'e' && s[p2.index as int] != 'E'));
        lemma_expect_fail(s, p2, |c: char| crate::grammar::is_e_char(c));
        assert(crate::grammar::spec_exponent(s, p2) == (n.exponent, p3));
    }
}

/// The character run over the escaped rendering of `str`, with the closing
/// quote after it, reads back exactly `str`: every two-character escape
/// parses to the character it stands for, and every other character stands
/// for itself.
proof fn lemma_characters_complete(s: Seq<char>, pos: SimplePosition, str: Seq<char>)
    requires
        cursor_ok(s, pos),
        window(s, pos.index as int, escape_chars(str)),
        pos.index + escape_chars(str).len() < s.len(),
        s[pos.index + escape_chars(str).len()] == '"',
    ensures
        spec_characters_run(s, pos) == (str, pos_plus(pos, escape_chars(str).len())),
    decreases str.len(),
{
    if str.len() == 0 {
        assert(escape_chars(str).len() == 0);
        lemma_pos_step(s, pos, '"');
        assert(spec_character(s, pos) is Err);
    } else {
        let c = str[0];
        let esc = escape_char(c);
        assert(escape_chars(str) == esc + escape_chars(str.drop_first()));
        lemma_window_split(s, pos.index as int, esc, escape_chars(str.drop_first()));
        let p = pos_plus(pos, esc.len());
        if esc.len() == 2 {
            assert(esc[0] == '\\');
            lemma_window_char(s, pos.index as int, esc, 0);
            lemma_window_char(s, pos.index as int, esc, 1);
            lemma_pos_step(s, pos, '\\');
            let p1 = pos_plus(pos, 1);
            lemma_pos_step(s, p1, esc[1]);
            assert(pos_plus(p1, 1) == p);
            assert(crate::grammar::unescaped_char(esc[1]) == c);
            assert(spec_character(s, pos) == Ok::<
                (char, SimplePosition),
                crate::parser::ErrorModel,
            >((c, p)));
        } else {
            assert(esc =~= seq![c]);
            assert(c != '\n' && c != '\\' && c != '"');
            lemma_window_char(s, pos.index as int, esc, 0);
            lemma_pos_step(s, pos, c);
            assert(spec_character(s, pos) == Ok::<
                (char, SimplePosition),
                crate::parser::ErrorModel,
            >((c, p)));
        }
        lemma_characters_complete(s, p, str.drop_first());
        assert(pos_plus(p, escape_chars(str.drop_first()).len()) == pos_plus(
            pos,
            escape_chars(str).len(),
        ));
        assert(seq![c] + str.drop_first() =~= str);
        assert(spec_characters_run(s, pos) == (
            seq![c] + str.drop_first(),
            pos_plus(pos, escape_chars(str).len()),
        ));
    }
}

/// The string production reads exactly the rendering of `str`: every
/// string round-trips.
proof fn lemma_string_complete(s: Seq<char>, pos: SimplePosition, str: Seq<char>)
    requires
        cursor_ok(s, pos),
        window(s, pos.index as int, string_chars(str)),
    ensures
        spec_string(s, pos) == Ok::<(Seq<char>, SimplePosition), crate::parser::ErrorModel>(
            (str, pos_plus(pos, string_chars(str).len())),
        ),
{
    assert(string_chars(str) =~= seq!['"'] + (escape_chars(str) + seq!['"']));
    lemma_window_split(s, pos.index as int, seq!['"'], escape_chars(str) + seq!['"']);
    lemma_window_char(s, pos.index as int, seq!['"'], 0);
    lemma_expect_ok(s, pos, |c: char| crate::grammar::is_double_quote_char(c), '"');
    let p1 = pos_plus(pos, 1);
    lemma_window_split(s, p1.index as int, escape_chars(str), seq!['"']);
    lemma_window_char(s, p1.index + escape_chars(str).len(), seq!['"'], 0);
    lemma_characters_complete(s, p1, str);
    let p2 = pos_plus(p1, escape_chars(str).len());
    lemma_expect_ok(s, p2, |c: char| crate::grammar::is_double_quote_char(c), '"');
    assert(pos_plus(p2, 1) == pos_plus(pos, string_chars(str).len()));
}

/// The object production fails when the cursor does not stand on an
/// opening brace.
proof fn lemma_object_fails(
    s: Seq<char>,
    pos: SimplePosition,
    ctx: crate::parser::ParserContext,
)
    requires
        pos.index >= s.len() || s[pos.index as int] != '{',
    ensures
        crate::grammar::spec_object(s, pos, ctx) is Err,
{
    lemma_expect_fail(s, pos, |c: char| crate::grammar::is_open_curly_bracket_char(c));
}

/// The array production fails when the cursor does not stand on an opening
/// bracket.
proof fn lemma_array_fails(s: Seq<char>, pos: SimplePosition, ctx: crate::parser::ParserContext)
    requires
        pos.index >= s.len() || s[pos.index as int] != '[',
    ensures
        crate::grammar::spec_array(s, pos, ctx) is Err,
{
    lemma_expect_fail(s, pos, |c: char| crate::grammar::is_open_square_bracket_char(c));
}

/// The string production fails when the cursor does not stand on a double
/// quote.
proof fn lemma_string_fails(s: Seq<char>, pos: SimplePosition)
    requires
        pos.index >= s.len() || s[pos.index as int] != '"',
    ensures
        crate::grammar::spec_string(s, pos) is Err,
{
    lemma_expect_fail(s, pos, |c: char| crate::grammar::is_double_quote_char(c));
}

/// The number production fails when the cursor does not stand on a digit or
/// a minus sign.
proof fn lemma_number_fails(s: Seq<char>, pos: SimplePosition)
    requires
        pos.index >= s.len() || (!is_digit_char(s[pos.index as int]) && s[pos.index as int]
            != '-'),
    ensures
        spec_number(s, pos) is Err,
{
    lemma_expect_fail(s, pos, |c: char| is_one_to_nine_char(c));
    lemma_expect_fail(s, pos, |c: char| is_digit_char(c));
    lemma_expect_fail(s, pos, |c: char| crate::grammar::is_negative_sign_char(c));
}

/// The cursor moved over `n` newline-free characters lands at `pos_plus`.
proof fn lemma_advance_plus(s: Seq<char>, pos: SimplePosition, n: nat)
    requires
        cursor_ok(s, pos),
        pos.index + n <= s.len(),
        forall|i: int| pos.index <= i < pos.index + n ==> s[i] != '\n',
    ensures
        crate::grammar::spec_advance(s, pos, n) == pos_plus(pos, n),
    decreases n,
{
    if n > 0 {
        lemma_pos_step(s, pos, s[pos.index as int]);
        lemma_advance_plus(s, pos_plus(pos, 1), (n - 1) as nat);
        assert(pos_plus(pos_plus(pos, 1), (n - 1) as nat) == pos_plus(pos, n));
    } else {
        assert(pos_plus(pos, 0) == pos);
    }
}

/// A value tree whose compact rendering parses back to exactly itself:
/// every number's fraction is consistent with its recorded digit count and
/// its exponent's absolute value is representable.
pub open spec fn round_trippable(m: JsonModel) -> bool
    decreases m,
{
    match m {
        JsonModel::Object(ms) => rt_members(ms),
        JsonModel::Array(es) => rt_elements(es),
        JsonModel::Number(n) => number_wf(n) && (n.fraction > 0 ==> n.fraction_length > 0),
        _ => true,
    }
}

/// Round-trippability of all members of an object.
pub open spec fn rt_members(ms: Seq<(Seq<char>, JsonModel)>) -> bool
    decreases ms,
{
    if ms.len() == 0 {
        true
    } else {
        rt_members(ms.subrange(0, ms.len() - 1)) && round_trippable(ms[ms.len() - 1].1)
    }
}

/// Round-trippability of all elements of an array.
pub open spec fn rt_elements(es: Seq<JsonModel>) -> bool
    decreases es,
{
    if es.len() == 0 {
        true
    } else {
        rt_elements(es.subrange(0, es.len() - 1)) && round_trippable(es[es.len() - 1])
    }
}

/// Each member of a round-trippable member list is round-trippable.
proof fn lemma_rt_members(ms: Seq<(Seq<char>, JsonModel)>)
    requires
        rt_members(ms),
    ensures
        forall|i: int| 0 <= i < ms.len() ==> round_trippable(#[trigger] ms[i].1),
    decreases ms,
{
    if ms.len() > 0 {
        lemma_rt_members(ms.subrange(0, ms.len() - 1));
        assert forall|i: int| 0 <= i < ms.len() implies round_trippable(#[trigger] ms[i].1) by {
            if i < ms.len() - 1 {
                assert(ms.subrange(0, ms.len() - 1)[i] == ms[i]);
            }
        }
    }
}

/// Each element of a round-trippable element list is round-trippable.
proof fn lemma_rt_elements(es: Seq<JsonModel>)
    requires
        rt_elements(es),
    ensures
        forall|i: int| 0 <= i < es.len() ==> round_trippable(#[trigger] es[i]),
    decreases es,
{
    if es.len() > 0 {
        lemma_rt_elements(es.subrange(0, es.len() - 1));
        assert forall|i: int| 0 <= i < es.len() implies round_trippable(#[trigger] es[i]) by {
            if i < es.len() - 1 {
                assert(es.subrange(0, es.len() - 1)[i] == es[i]);
            }
        }
    }
}

/// The nesting allowance left in `ctx` covers a value of depth `d`.
pub open spec fn depth_fits(ctx: ParserContext, d: nat) -> bool {
    match ctx.options.max_nest_level {
        None => true,
        Some(mx) => ctx.nest_level + d <= mx,
    }
}

/// Compact indentation renders as nothing.
proof fn lemma_compact_indent(level: u32)
    ensures
        newline_indent_chars(0, level) =~= Seq::<char>::empty(),
{
    assert((0 * level) as nat == 0) by (nonlinear_arith);
}

/// The first character of a compact rendering identifies the variant, is
/// never whitespace, and is never a separator or closing bracket.
proof fn lemma_value_chars_head(m: JsonModel, level: u32)
    ensures
        value_chars(m, 0, level).len() >= 1,
        !is_whitespace_char(value_chars(m, 0, level)[0]),
        value_chars(m, 0, level)[0] != ',' && value_chars(m, 0, level)[0] != '}' && value_chars(
            m,
            0,
            level,
        )[0] != ']',
        match m {
            JsonModel::Object(_) => value_chars(m, 0, level)[0] == '{',
            JsonModel::Array(_) => value_chars(m, 0, level)[0] == '[',
            JsonModel::String(_) => value_chars(m, 0, level)[0] == '"',
            JsonModel::Number(n) => value_chars(m, 0, level)[0] == '-' || is_digit_char(
                value_chars(m, 0, level)[0],
            ),
            JsonModel::Boolean(b) => value_chars(m, 0, level)[0] == (if b {
                't'
            } else {
                'f'
            }),
            JsonModel::Null => value_chars(m, 0, level)[0] == 'n',
        },
{
    match m {
        JsonModel::Object(ms) => {
            if ms.len() > 0 {
                assert(value_chars(m, 0, level)[0] == '{');
            }
        },
        JsonModel::Array(es) => {
            if es.len() > 0 {
                assert(value_chars(m, 0, level)[0] == '[');
            }
        },
        JsonModel::String(str) => {
            assert(string_chars(str)[0] == '"');
        },
        JsonModel::Number(n) => {
            let ic = int_chars(n.integer as int);
            if n.integer < 0 {
                assert(ic[0] == '-');
            } else {
                lemma_dec_digits_shape(n.integer as nat);
                assert(ic[0] == dec_digits(n.integer as nat)[0]);
                assert(is_digit_char(ic[0]));
            }
            assert(number_chars(n)[0] == ic[0]);
        },
        JsonModel::Boolean(_) => {},
        JsonModel::Null => {},
    }
}

/// The member tail rendering seen from the front: the first comma-prefixed
/// member, then the tail of the rest.
proof fn lemma_members_tail_cons(ms: Seq<(Seq<char>, JsonModel)>, indent: u32, level: u32)
    requires
        ms.len() > 0,
    ensures
        members_tail_chars(ms, indent, level) == seq![','] + newline_indent_chars(indent, level)
            + member_chars(ms[0], indent, level) + members_tail_chars(
            ms.drop_first(),
            indent,
            level,
        ),
    decreases ms.len(),
{
    let nl = newline_indent_chars(indent, level);
    if ms.len() == 1 {
        assert(ms.subrange(0, 0) =~= Seq::<(Seq<char>, JsonModel)>::empty());
        assert(ms.drop_first() =~= Seq::<(Seq<char>, JsonModel)>::empty());
        assert(members_tail_chars(ms, indent, level) =~= seq![','] + nl + member_chars(
            ms[0],
            indent,
            level,
        ) + members_tail_chars(ms.drop_first(), indent, level));
    } else {
        let dl = ms.subrange(0, ms.len() - 1);
        lemma_members_tail_cons(dl, indent, level);
        assert(dl[0] == ms[0]);
        assert(ms.drop_first().subrange(0, ms.drop_first().len() - 1) =~= dl.drop_first());
        assert(ms.drop_first()[ms.drop_first().len() - 1] == ms[ms.len() - 1]);
        assert(members_tail_chars(ms.drop_first(), indent, level) == members_tail_chars(
            dl.drop_first(),
            indent,
            level,
        ) + seq![','] + nl + member_chars(ms[ms.len() - 1], indent, level));
        assert(members_tail_chars(ms, indent, level) =~= seq![','] + nl + member_chars(
            ms[0],
            indent,
            level,
        ) + members_tail_chars(ms.drop_first(), indent, level));
    }
}

/// The element tail rendering seen from the front: the first comma-prefixed
/// element, then the tail of the rest.
proof fn lemma_elements_tail_cons(es: Seq<JsonModel>, indent: u32, level: u32)
    requires
        es.len() > 0,
    ensures
        elements_tail_chars(es, indent, level) == seq![','] + newline_indent_chars(indent, level)
            + value_chars(es[0], indent, level) + elements_tail_chars(
            es.drop_first(),
            indent,
            level,
        ),
    decreases es.len(),
{
    let nl = newline_indent_chars(indent, level);
    if es.len() == 1 {
        assert(es.subrange(0, 0) =~= Seq::<JsonModel>::empty());
        assert(es.drop_first() =~= Seq::<JsonModel>::empty());
        assert(elements_tail_chars(es, indent, level) =~= seq![','] + nl + value_chars(
            es[0],
            indent,
            level,
        ) + elements_tail_chars(es.drop_first(), indent, level));
    } else {
        let dl = es.subrange(0, es.len() - 1);
        lemma_elements_tail_cons(dl, indent, level);
        assert(dl[0] == es[0]);
        assert(es.drop_first().subrange(0, es.drop_first().len() - 1) =~= dl.drop_first());
        assert(es.drop_first()[es.drop_first().len() - 1] == es[es.len() - 1]);
        assert(elements_tail_chars(es.drop_first(), indent, level) == elements_tail_chars(
            dl.drop_first(),
            indent,
            level,
        ) + seq![','] + nl + value_chars(es[es.len() - 1], indent, level));
        assert(elements_tail_chars(es, indent, level) =~= seq![','] + nl + value_chars(
            es[0],
            indent,
            level,
        ) + elements_tail_chars(es.drop_first(), indent, level));
    }
}

/// The literal alternatives fail when the cursor does not stand on the
/// first letter of one of them.
proof fn lemma_literal_fails(s: Seq<char>, pos: SimplePosition)
    requires
        pos.index >= s.len() || (s[pos.index as int] != 'n' && s[pos.index as int] != 't' && s[
            pos.index as int
        ] != 'f'),
    ensures
        crate::grammar::spec_value_literal(s, pos) is Err,
{
}

/// The whole value production fails on a separator, a closing bracket, or
/// the end of the input.
proof fn lemma_value_fails_at_closer(
    s: Seq<char>,
    pos: SimplePosition,
    ctx: ParserContext,
)
    requires
        pos.index >= s.len() || s[pos.index as int] == ',' || s[pos.index as int] == '}' || s[
            pos.index as int
        ] == ']',
    ensures
        crate::grammar::spec_value(s, pos, ctx) is Err,
{
    lemma_object_fails(s, pos, ctx);
    lemma_array_fails(s, pos, ctx);
    lemma_string_fails(s, pos);
    lemma_number_fails(s, pos);
    lemma_literal_fails(s, pos);
}

/// The element production reads exactly the compact rendering of `m`: the
/// rendering starts and ends without whitespace, so both whitespace runs
/// consume nothing.
proof fn lemma_element_complete(
    s: Seq<char>,
    pos: SimplePosition,
    ctx: ParserContext,
    m: JsonModel,
    level: u32,
)
    requires
        cursor_ok(s, pos),
        round_trippable(m),
        depth_fits(ctx, model_depth(m)),
        window(s, pos.index as int, value_chars(m, 0, level)),
        follower_ok(s, pos.index + value_chars(m, 0, level).len()),
    ensures
        crate::grammar::spec_element(s, pos, ctx) == Ok::<
            (JsonModel, SimplePosition),
            crate::parser::ErrorModel,
        >((m, pos_plus(pos, value_chars(m, 0, level).len()))),
    decreases m, 2int,
{
    let vc = value_chars(m, 0, level);
    lemma_value_chars_head(m, level);
    lemma_window_char(s, pos.index as int, vc, 0);
    lemma_ws_run_none(s, pos);
    lemma_value_complete(s, pos, ctx, m, level);
    let pe = pos_plus(pos, vc.len());
    lemma_ws_run_none(s, pe);
}

/// The member production reads exactly the compact rendering of `kv`.
proof fn lemma_member_complete(
    s: Seq<char>,
    pos: SimplePosition,
    ctx: ParserContext,
    kv: (Seq<char>, JsonModel),
    level: u32,
)
    requires
        cursor_ok(s, pos),
        round_trippable(kv.1),
        depth_fits(ctx, model_depth(kv.1)),
        window(s, pos.index as int, member_chars(kv, 0, level)),
        follower_ok(s, pos.index + member_chars(kv, 0, level).len()),
    ensures
        crate::grammar::spec_member(s, pos, ctx) == Ok::<
            ((Seq<char>, JsonModel), SimplePosition),
            crate::parser::ErrorModel,
        >((kv, pos_plus(pos, member_chars(kv, 0, level).len()))),
    decreases kv, 0int,
{
    let sc = string_chars(kv.0);
    let vc = value_chars(kv.1, 0, level);
    let mc = member_chars(kv, 0, level);
    assert(mc =~= sc + (seq![':'] + vc));
    lemma_window_split(s, pos.index as int, sc, seq![':'] + vc);
    lemma_window_split(s, pos.index + sc.len(), seq![':'], vc);
    lemma_window_char(s, pos.index as int, sc, 0);
    assert(sc[0] == '"');
    lemma_ws_run_none(s, pos);
    lemma_string_complete(s, pos, kv.0);
    let p2 = pos_plus(pos, sc.len());
    lemma_window_char(s, p2.index as int, seq![':'], 0);
    lemma_ws_run_none(s, p2);
    lemma_pos_step(s, p2, ':');
    let p4 = pos_plus(p2, 1);
    lemma_value_chars_head(kv.1, level);
    lemma_element_complete(s, p4, ctx, kv.1, level);
    assert(pos_plus(p4, vc.len()) == pos_plus(pos, mc.len()));
}

/// The comma-prefixed member repetition reads exactly the rendered tail of
/// an object, stopping at the closing brace.
proof fn lemma_members_rest_complete(
    s: Seq<char>,
    pos: SimplePosition,
    ctx: ParserContext,
    ms: Seq<(Seq<char>, JsonModel)>,
    level: u32,
)
    requires
        cursor_ok(s, pos),
        forall|i: int| 0 <= i < ms.len() ==> round_trippable(#[trigger] ms[i].1),
        forall|i: int| 0 <= i < ms.len() ==> depth_fits(ctx, model_depth(#[trigger] ms[i].1)),
        window(s, pos.index as int, members_tail_chars(ms, 0, level)),
        pos.index + members_tail_chars(ms, 0, level).len() < s.len(),
        s[pos.index + members_tail_chars(ms, 0, level).len()] == '}',
    ensures
        crate::grammar::spec_members_rest(s, pos, ctx) == (
            ms,
            pos_plus(pos, members_tail_chars(ms, 0, level).len()),
        ),
    decreases ms, 0int,
{
    let tail = members_tail_chars(ms, 0, level);
    if ms.len() == 0 {
        assert(tail.len() == 0);
        assert(s[pos.index as int] == '}');
        lemma_expect_fail(s, pos, |c: char| crate::grammar::is_comma_char(c));
        assert(pos_plus(pos, 0) == pos);
    } else {
        lemma_members_tail_cons(ms, 0, level);
        lemma_compact_indent(level);
        let mc = member_chars(ms[0], 0, level);
        let rest_tail = members_tail_chars(ms.drop_first(), 0, level);
        assert(tail =~= seq![','] + (mc + rest_tail));
        lemma_window_split(s, pos.index as int, seq![','], mc + rest_tail);
        lemma_window_split(s, pos.index + 1, mc, rest_tail);
        lemma_window_char(s, pos.index as int, seq![','], 0);
        lemma_expect_ok(s, pos, |c: char| crate::grammar::is_comma_char(c), ',');
        let p1 = pos_plus(pos, 1);
        // follower of the member: the next tail comma or the closing brace
        assert(follower_ok(s, p1.index + mc.len())) by {
            if ms.drop_first().len() > 0 {
                lemma_members_tail_cons(ms.drop_first(), 0, level);
                lemma_window_char(s, p1.index + mc.len(), rest_tail, 0);
                assert(rest_tail[0] == ',');
            } else {
                assert(rest_tail.len() == 0);
                assert(s[p1.index + mc.len()] == '}');
            }
        }
        lemma_member_complete(s, p1, ctx, ms[0], level);
        let p2 = pos_plus(p1, mc.len());
        assert(string_chars(ms[0].0).len() >= 2);
        assert(mc.len() >= 2);
        assert(forall|i: int|
            0 <= i < ms.drop_first().len() ==> round_trippable(#[trigger] ms.drop_first()[i].1));
        assert(forall|i: int|
            0 <= i < ms.drop_first().len() ==> depth_fits(
                ctx,
                model_depth(#[trigger] ms.drop_first()[i].1),
            ));
        lemma_members_rest_complete(s, p2, ctx, ms.drop_first(), level);
        assert(pos_plus(p2, rest_tail.len()) == pos_plus(pos, tail.len()));
        assert(seq![ms[0]] + ms.drop_first() =~= ms);
        assert(crate::grammar::spec_members_rest(s, pos, ctx) == (
            seq![ms[0]] + ms.drop_first(),
            pos_plus(pos, tail.len()),
        ));
    }
}

/// The comma-prefixed element repetition reads exactly the rendered tail of
/// an array, stopping at the closing bracket.
proof fn lemma_elements_rest_complete(
    s: Seq<char>,
    pos: SimplePosition,
    ctx: ParserContext,
    es: Seq<JsonModel>,
    level: u32,
)
    requires
        cursor_ok(s, pos),
        forall|i: int| 0 <= i < es.len() ==> round_trippable(#[trigger] es[i]),
        forall|i: int| 0 <= i < es.len() ==> depth_fits(ctx, model_depth(#[trigger] es[i])),
        window(s, pos.index as int, elements_tail_chars(es, 0, level)),
        pos.index + elements_tail_chars(es, 0, level).len() < s.len(),
        s[pos.index + elements_tail_chars(es, 0, level).len()] == ']',
    ensures
        crate::grammar::spec_elements_rest(s, pos, ctx) == (
            es,
            pos_plus(pos, elements_tail_chars(es, 0, level).len()),
        ),
    decreases es, 0int,
{
    let tail = elements_tail_chars(es, 0, level);
    if es.len() == 0 {
        assert(tail.len() == 0);
        assert(s[pos.index as int] == ']');
        lemma_expect_fail(s, pos, |c: char| crate::grammar::is_comma_char(c));
        assert(pos_plus(pos, 0) == pos);
    } else {
        lemma_elements_tail_cons(es, 0, level);
        lemma_compact_indent((level + 1) as u32);
        let vc = value_chars(es[0], 0, level);
        let rest_tail = elements_tail_chars(es.drop_first(), 0, level);
        assert(tail =~= seq![','] + (vc + rest_tail));
        lemma_window_split(s, pos.index as int, seq![','], vc + rest_tail);
        lemma_window_split(s, pos.index + 1, vc, rest_tail);
        lemma_window_char(s, pos.index as int, seq![','], 0);
        lemma_expect_ok(s, pos, |c: char| crate::grammar::is_comma_char(c), ',');
        let p1 = pos_plus(pos, 1);
        assert(follower_ok(s, p1.index + vc.len())) by {
            if es.drop_first().len() > 0 {
                lemma_elements_tail_cons(es.drop_first(), 0, level);
                lemma_window_char(s, p1.index + vc.len(), rest_tail, 0);
                assert(rest_tail[0] == ',');
            } else {
                assert(rest_tail.len() == 0);
                assert(s[p1.index + vc.len()] == ']');
            }
        }
        lemma_element_complete(s, p1, ctx, es[0], level);
        let p2 = pos_plus(p1, vc.len());
        lemma_value_chars_head(es[0], level);
        lemma_elements_rest_complete(s, p2, ctx, es.drop_first(), level);
        assert(pos_plus(p2, rest_tail.len()) == pos_plus(pos, tail.len()));
        assert(seq![es[0]] + es.drop_first() =~= es);
        assert(crate::grammar::spec_elements_rest(s, pos, ctx) == (
            seq![es[0]] + es.drop_first(),
            pos_plus(pos, tail.len()),
        ));
    }
}

/// The object case of the value-completeness induction.
#[verifier::rlimit(100)]
proof fn lemma_value_complete_object(
    s: Seq<char>,
    pos: SimplePosition,
    ctx: ParserContext,
    ms: Seq<(Seq<char>, JsonModel)>,
    level: u32,
)
    requires
        cursor_ok(s, pos),
        round_trippable(JsonModel::Object(ms)),
        depth_fits(ctx, model_depth(JsonModel::Object(ms))),
        window(s, pos.index as int, value_chars(JsonModel::Object(ms), 0, level)),
        follower_ok(s, pos.index + value_chars(JsonModel::Object(ms), 0, level).len()),
    ensures
        crate::grammar::spec_object(s, pos, ctx) == Ok::<
            (Seq<(Seq<char>, JsonModel)>, SimplePosition),
            crate::parser::ErrorModel,
        >((ms, pos_plus(pos, value_chars(JsonModel::Object(ms), 0, level).len()))),
    decreases ms, 3int,
{
    let m = JsonModel::Object(ms);
    let vc = value_chars(m, 0, level);
    lemma_value_chars_head(m, level);
    lemma_window_char(s, pos.index as int, vc, 0);
        // the nesting guard admits one more level
        let ctx2 = ParserContext {
            nest_level: (ctx.nest_level + 1) as u32,
            options: ctx.options,
        };
        assert(crate::parser::spec_nest(ctx, pos) == Ok::<
            ParserContext,
            crate::parser::ErrorModel,
        >(ctx2));
        crate::json::lemma_members_child(ms);
        lemma_rt_members(ms);
        assert(forall|i: int|
            0 <= i < ms.len() ==> depth_fits(ctx2, model_depth(#[trigger] ms[i].1)));
        lemma_expect_ok(
            s,
            pos,
            |c: char| crate::grammar::is_open_curly_bracket_char(c),
            '{',
        );
        let p1 = pos_plus(pos, 1);
        if ms.len() == 0 {
            assert(vc =~= seq!['{'] + seq!['}']);
            lemma_window_split(s, pos.index as int, seq!['{'], seq!['}']);
            lemma_window_char(s, p1.index as int, seq!['}'], 0);
            assert(s[p1.index as int] == '}');
            lemma_ws_run_none(s, p1);
            lemma_string_fails(s, p1);
            assert(crate::grammar::spec_member(s, p1, ctx2) is Err);
            assert(crate::grammar::spec_members(s, p1, ctx2) is Err);
            lemma_expect_ok(
                s,
                p1,
                |c: char| crate::grammar::is_close_curly_bracket_char(c),
                '}',
            );
            assert(ms =~= Seq::<(Seq<char>, JsonModel)>::empty());
            assert(crate::grammar::spec_object(s, pos, ctx) == Ok::<
                (Seq<(Seq<char>, JsonModel)>, SimplePosition),
                crate::parser::ErrorModel,
            >((ms, pos_plus(pos, 2))));
        } else {
            let lvl1 = (level + 1) as u32;
            let mc0 = member_chars(ms[0], 0, lvl1);
            let tail = members_tail_chars(ms.subrange(1, ms.len() as int), 0, lvl1);
            lemma_compact_indent(lvl1);
            lemma_compact_indent(level);
            assert(vc =~= seq!['{'] + (mc0 + (tail + seq!['}'])));
            lemma_window_split(s, pos.index as int, seq!['{'], mc0 + (tail + seq!['}']));
            lemma_window_split(s, pos.index + 1, mc0, tail + seq!['}']);
            lemma_window_split(s, pos.index + 1 + mc0.len(), tail, seq!['}']);
            lemma_window_char(s, pos.index + 1 + mc0.len() + tail.len(), seq!['}'], 0);
            // the member's follower: the tail's first comma or the brace
            assert(follower_ok(s, p1.index + mc0.len())) by {
                if ms.len() > 1 {
                    assert(ms.subrange(1, ms.len() as int).len() > 0);
                    lemma_members_tail_cons(ms.subrange(1, ms.len() as int), 0, lvl1);
                    lemma_window_char(s, pos.index + 1 + mc0.len(), tail, 0);
                    assert(tail[0] == ',');
                } else {
                    assert(ms.subrange(1, ms.len() as int) =~= Seq::<
                        (Seq<char>, JsonModel),
                    >::empty());
                    assert(tail.len() == 0);
                    assert(s[pos.index + 1 + mc0.len()] == '}');
                }
            }
            lemma_member_complete(s, p1, ctx2, ms[0], lvl1);
            let p2 = pos_plus(p1, mc0.len());
            assert(string_chars(ms[0].0).len() >= 2);
            assert(mc0.len() >= 2);
            let sub = ms.subrange(1, ms.len() as int);
            assert(forall|i: int|
                0 <= i < sub.len() ==> round_trippable(#[trigger] sub[i].1)) by {
                assert(forall|i: int| 0 <= i < sub.len() ==> sub[i] == ms[i + 1]);
            }
            assert(forall|i: int|
                0 <= i < sub.len() ==> depth_fits(ctx2, model_depth(#[trigger] sub[i].1)))
                by {
                assert(forall|i: int| 0 <= i < sub.len() ==> sub[i] == ms[i + 1]);
            }
            lemma_members_rest_complete(s, p2, ctx2, sub, lvl1);
            let p3 = pos_plus(p2, tail.len());
            lemma_expect_ok(
                s,
                p3,
                |c: char| crate::grammar::is_close_curly_bracket_char(c),
                '}',
            );
            assert(seq![ms[0]] + sub =~= ms);
            assert(crate::grammar::spec_members(s, p1, ctx2) == Ok::<
                (Seq<(Seq<char>, JsonModel)>, SimplePosition),
                crate::parser::ErrorModel,
            >((ms, p3)));
            assert(pos_plus(p3, 1) == pos_plus(pos, vc.len()));
            assert(crate::grammar::spec_object(s, pos, ctx) == Ok::<
                (Seq<(Seq<char>, JsonModel)>, SimplePosition),
                crate::parser::ErrorModel,
            >((ms, pos_plus(pos, vc.len()))));
        }
}

/// The array case of the value-completeness induction.
#[verifier::rlimit(100)]
proof fn lemma_value_complete_array(
    s: Seq<char>,
    pos: SimplePosition,
    ctx: ParserContext,
    es: Seq<JsonModel>,
    level: u32,
)
    requires
        cursor_ok(s, pos),
        round_trippable(JsonModel::Array(es)),
        depth_fits(ctx, model_depth(JsonModel::Array(es))),
        window(s, pos.index as int, value_chars(JsonModel::Array(es), 0, level)),
        follower_ok(s, pos.index + value_chars(JsonModel::Array(es), 0, level).len()),
    ensures
        crate::grammar::spec_array(s, pos, ctx) == Ok::<
            (Seq<JsonModel>, SimplePosition),
            crate::parser::ErrorModel,
        >((es, pos_plus(pos, value_chars(JsonModel::Array(es), 0, level).len()))),
    decreases es, 3int,
{
    let m = JsonModel::Array(es);
    let vc = value_chars(m, 0, level);
    lemma_value_chars_head(m, level);
    lemma_window_char(s, pos.index as int, vc, 0);
        let ctx2 = ParserContext {
            nest_level: (ctx.nest_level + 1) as u32,
            options: ctx.options,
        };
        assert(crate::parser::spec_nest(ctx, pos) == Ok::<
            ParserContext,
            crate::parser::ErrorModel,
        >(ctx2));
        crate::json::lemma_elements_child(es);
        lemma_rt_elements(es);
        assert(forall|i: int|
            0 <= i < es.len() ==> depth_fits(ctx2, model_depth(#[trigger] es[i])));
            lemma_expect_ok(
            s,
            pos,
            |c: char| crate::grammar::is_open_square_bracket_char(c),
            '[',
        );
        let p1 = pos_plus(pos, 1);
        if es.len() == 0 {
            assert(vc =~= seq!['['] + seq![']']);
            lemma_window_split(s, pos.index as int, seq!['['], seq![']']);
            lemma_window_char(s, p1.index as int, seq![']'], 0);
            assert(s[p1.index as int] == ']');
            lemma_ws_run_none(s, p1);
            lemma_value_fails_at_closer(s, p1, ctx2);
            assert(crate::grammar::spec_element(s, p1, ctx2) is Err);
            assert(crate::grammar::spec_elements(s, p1, ctx2) is Err);
            lemma_expect_ok(
                s,
                p1,
                |c: char| crate::grammar::is_close_square_bracket_char(c),
                ']',
            );
            assert(es =~= Seq::<JsonModel>::empty());
            assert(crate::grammar::spec_array(s, pos, ctx) == Ok::<
                (Seq<JsonModel>, SimplePosition),
                crate::parser::ErrorModel,
            >((es, pos_plus(pos, 2))));
        } else {
            let lvl1 = (level + 1) as u32;
            let vc0 = value_chars(es[0], 0, lvl1);
            let tail = elements_tail_chars(es.subrange(1, es.len() as int), 0, lvl1);
            lemma_compact_indent(lvl1);
            lemma_compact_indent(level);
            assert(vc =~= seq!['['] + (vc0 + (tail + seq![']'])));
            lemma_window_split(s, pos.index as int, seq!['['], vc0 + (tail + seq![']']));
            lemma_window_split(s, pos.index + 1, vc0, tail + seq![']']);
            lemma_window_split(s, pos.index + 1 + vc0.len(), tail, seq![']']);
            lemma_window_char(s, pos.index + 1 + vc0.len() + tail.len(), seq![']'], 0);
            assert(follower_ok(s, p1.index + vc0.len())) by {
                if es.len() > 1 {
                    assert(es.subrange(1, es.len() as int).len() > 0);
                    lemma_elements_tail_cons(es.subrange(1, es.len() as int), 0, lvl1);
                    lemma_window_char(s, pos.index + 1 + vc0.len(), tail, 0);
                    assert(tail[0] == ',');
                } else {
                    assert(es.subrange(1, es.len() as int) =~= Seq::<JsonModel>::empty());
                    assert(tail.len() == 0);
                    assert(s[pos.index + 1 + vc0.len()] == ']');
                }
            }
            lemma_element_complete(s, p1, ctx2, es[0], lvl1);
            let p2 = pos_plus(p1, vc0.len());
            lemma_value_chars_head(es[0], lvl1);
            let sub = es.subrange(1, es.len() as int);
            assert(forall|i: int|
                0 <= i < sub.len() ==> round_trippable(#[trigger] sub[i])) by {
                assert(forall|i: int| 0 <= i < sub.len() ==> sub[i] == es[i + 1]);
            }
            assert(forall|i: int|
                0 <= i < sub.len() ==> depth_fits(ctx2, model_depth(#[trigger] sub[i]))) by {
                assert(forall|i: int| 0 <= i < sub.len() ==> sub[i] == es[i + 1]);
            }
            lemma_elements_rest_complete(s, p2, ctx2, sub, lvl1);
            let p3 = pos_plus(p2, tail.len());
            lemma_expect_ok(
                s,
                p3,
                |c: char| crate::grammar::is_close_square_bracket_char(c),
                ']',
            );
            assert(seq![es[0]] + sub =~= es);
            assert(crate::grammar::spec_elements(s, p1, ctx2) == Ok::<
                (Seq<JsonModel>, SimplePosition),
                crate::parser::ErrorModel,
            >((es, p3)));
            assert(pos_plus(p3, 1) == pos_plus(pos, vc.len()));
            assert(crate::grammar::spec_array(s, pos, ctx) == Ok::<
                (Seq<JsonModel>, SimplePosition),
                crate::parser::ErrorModel,
            >((es, pos_plus(pos, vc.len()))));
        }
}

/// The value production reads exactly the compact rendering of any
/// round-trippable value, given enough nesting allowance and a closing
/// character after it.
#[verifier::rlimit(100)]
proof fn lemma_value_complete(
    s: Seq<char>,
    pos: SimplePosition,
    ctx: ParserContext,
    m: JsonModel,
    level: u32,
)
    requires
        cursor_ok(s, pos),
        round_trippable(m),
        depth_fits(ctx, model_depth(m)),
        window(s, pos.index as int, value_chars(m, 0, level)),
        follower_ok(s, pos.index + value_chars(m, 0, level).len()),
    ensures
        crate::grammar::spec_value(s, pos, ctx) == Ok::<
            (JsonModel, SimplePosition),
            crate::parser::ErrorModel,
        >((m, pos_plus(pos, value_chars(m, 0, level).len()))),
    decreases m, 1int,
{
    let vc = value_chars(m, 0, level);
    lemma_value_chars_head(m, level);
    lemma_window_char(s, pos.index as int, vc, 0);
    match m {
        JsonModel::Object(ms) => {
            lemma_value_complete_object(s, pos, ctx, ms, level);
        },
        JsonModel::Array(es) => {
            lemma_object_fails(s, pos, ctx);
            lemma_value_complete_array(s, pos, ctx, es, level);
        },
                JsonModel::String(str) => {
            lemma_object_fails(s, pos, ctx);
            lemma_array_fails(s, pos, ctx);
            lemma_string_complete(s, pos, str);
        },
        JsonModel::Number(n) => {
            lemma_object_fails(s, pos, ctx);
            lemma_array_fails(s, pos, ctx);
            lemma_string_fails(s, pos);
            lemma_number_complete(s, pos, n);
        },
        JsonModel::Boolean(b) => {
            lemma_object_fails(s, pos, ctx);
            lemma_array_fails(s, pos, ctx);
            lemma_string_fails(s, pos);
            lemma_number_fails(s, pos);
            let w = if b {
                seq!['t', 'r', 'u', 'e']
            } else {
                seq!['f', 'a', 'l', 's', 'e']
            };
            assert(vc == w);
            assert forall|i: int| 0 <= i < w.len() implies s[pos.index + i] == w[i] by {
                lemma_window_char(s, pos.index as int, w, i);
            }
            assert(forall|i: int| pos.index <= i < pos.index + w.len() ==> s[i] != '\n');
            lemma_advance_plus(s, pos, w.len());
            assert(crate::grammar::spec_value_literal(s, pos) == Ok::<
                (JsonModel, SimplePosition),
                crate::parser::ErrorModel,
            >((m, pos_plus(pos, w.len()))));
        },
        JsonModel::Null => {
            lemma_object_fails(s, pos, ctx);
            lemma_array_fails(s, pos, ctx);
            lemma_string_fails(s, pos);
            lemma_number_fails(s, pos);
            let w = seq!['n', 'u', 'l', 'l'];
            assert(vc == w);
            assert forall|i: int| 0 <= i < w.len() implies s[pos.index + i] == w[i] by {
                lemma_window_char(s, pos.index as int, w, i);
            }
            assert(forall|i: int| pos.index <= i < pos.index + w.len() ==> s[i] != '\n');
            lemma_advance_plus(s, pos, w.len());
            assert(crate::grammar::spec_value_literal(s, pos) == Ok::<
                (JsonModel, SimplePosition),
                crate::parser::ErrorModel,
            >((m, pos_plus(pos, w.len()))));
        },
    }
}

/// The depth of an object's members is no more than a pointwise bound on
/// the member values.
proof fn lemma_members_depth_le(ms: Seq<(Seq<char>, JsonModel)>, b: nat)
    requires
        forall|i: int| 0 <= i < ms.len() ==> model_depth(#[trigger] ms[i].1) <= b,
    ensures
        crate::json::members_depth(ms) <= b,
    decreases ms,
{
    if ms.len() > 0 {
        assert(forall|i: int|
            0 <= i < ms.subrange(0, ms.len() - 1).len() ==> model_depth(
                #[trigger] ms.subrange(0, ms.len() - 1)[i].1,
            ) <= b);
        lemma_members_depth_le(ms.subrange(0, ms.len() - 1), b);
    }
}

/// The depth of an array's elements is no more than a pointwise bound on
/// the elements.
proof fn lemma_elements_depth_le(es: Seq<JsonModel>, b: nat)
    requires
        forall|i: int| 0 <= i < es.len() ==> model_depth(#[trigger] es[i]) <= b,
    ensures
        crate::json::elements_depth(es) <= b,
    decreases es,
{
    if es.len() > 0 {
        assert(forall|i: int|
            0 <= i < es.subrange(0, es.len() - 1).len() ==> model_depth(
                #[trigger] es.subrange(0, es.len() - 1)[i],
            ) <= b);
        lemma_elements_depth_le(es.subrange(0, es.len() - 1), b);
    }
}

/// A value the parser accepts under a bounded context never nests deeper
/// than the remaining allowance: the nesting guard is sound.
proof fn lemma_value_depth(s: Seq<char>, pos: SimplePosition, ctx: ParserContext, mx: u32)
    requires
        ctx.options.max_nest_level == Some(mx),
        ctx.nest_level <= mx,
    ensures
        crate::grammar::spec_value(s, pos, ctx) matches Ok((m, _)) ==> ctx.nest_level
            + model_depth(m) <= mx,
    decreases s.len() - pos.index, 1int,
{
    lemma_object_depth(s, pos, ctx, mx);
    lemma_array_depth(s, pos, ctx, mx);
}

/// The object case of the nesting-guard soundness induction.
proof fn lemma_object_depth(s: Seq<char>, pos: SimplePosition, ctx: ParserContext, mx: u32)
    requires
        ctx.options.max_nest_level == Some(mx),
        ctx.nest_level <= mx,
    ensures
        crate::grammar::spec_object(s, pos, ctx) matches Ok((ms, _)) ==> ctx.nest_level + 1
            + crate::json::members_depth(ms) <= mx,
    decreases s.len() - pos.index, 0int,
{
    if ctx.nest_level != mx {
        let ctx2 = ParserContext { nest_level: (ctx.nest_level + 1) as u32, options: ctx.options };
        match spec_expect(s, pos, |c: char| crate::grammar::is_open_curly_bracket_char(c)) {
            Ok((_, p1)) => {
                assert(pos.index < s.len() && p1.index == pos.index + 1);
                lemma_members_depth(s, p1, ctx2, mx);
                match crate::grammar::spec_members(s, p1, ctx2) {
                    Ok((ms, _)) => {
                        lemma_members_depth_le(ms, (mx - ctx2.nest_level) as nat);
                    },
                    Err(_) => {
                        assert(crate::json::members_depth(
                            Seq::<(Seq<char>, JsonModel)>::empty(),
                        ) == 0);
                    },
                }
            },
            Err(_) => {},
        }
    }
}

/// The array case of the nesting-guard soundness induction.
proof fn lemma_array_depth(s: Seq<char>, pos: SimplePosition, ctx: ParserContext, mx: u32)
    requires
        ctx.options.max_nest_level == Some(mx),
        ctx.nest_level <= mx,
    ensures
        crate::grammar::spec_array(s, pos, ctx) matches Ok((es, _)) ==> ctx.nest_level + 1
            + crate::json::elements_depth(es) <= mx,
    decreases s.len() - pos.index, 0int,
{
    if ctx.nest_level != mx {
        let ctx2 = ParserContext { nest_level: (ctx.nest_level + 1) as u32, options: ctx.options };
        match spec_expect(s, pos, |c: char| crate::grammar::is_open_square_bracket_char(c)) {
            Ok((_, p1)) => {
                assert(pos.index < s.len() && p1.index == pos.index + 1);
                lemma_elements_depth(s, p1, ctx2, mx);
                match crate::grammar::spec_elements(s, p1, ctx2) {
                    Ok((es, _)) => {
                        lemma_elements_depth_le(es, (mx - ctx2.nest_level) as nat);
                    },
                    Err(_) => {
                        assert(crate::json::elements_depth(Seq::<JsonModel>::empty()) == 0);
                    },
                }
            },
            Err(_) => {},
        }
    }
}

/// The members case of the nesting-guard soundness induction.
proof fn lemma_members_depth(s: Seq<char>, pos: SimplePosition, ctx: ParserContext, mx: u32)
    requires
        ctx.options.max_nest_level == Some(mx),
        ctx.nest_level <= mx,
    ensures
        crate::grammar::spec_members(s, pos, ctx) matches Ok((ms, _)) ==> forall|i: int|
            0 <= i < ms.len() ==> ctx.nest_level + model_depth(#[trigger] ms[i].1) <= mx,
    decreases s.len() - pos.index, 4int,
{
    lemma_member_depth(s, pos, ctx, mx);
    match crate::grammar::spec_member(s, pos, ctx) {
        Ok((kv, p1)) => {
            if pos.index < p1.index <= s.len() {
                lemma_members_rest_depth(s, p1, ctx, mx);
                let rest = crate::grammar::spec_members_rest(s, p1, ctx).0;
                assert forall|i: int|
                    0 <= i < (seq![kv] + rest).len() implies ctx.nest_level + model_depth(
                    #[trigger] (seq![kv] + rest)[i].1,
                ) <= mx by {
                    if i > 0 {
                        assert((seq![kv] + rest)[i] == rest[i - 1]);
                    }
                }
            }
        },
        Err(_) => {},
    }
}

/// The member-repetition case of the nesting-guard soundness induction.
proof fn lemma_members_rest_depth(s: Seq<char>, pos: SimplePosition, ctx: ParserContext, mx: u32)
    requires
        ctx.options.max_nest_level == Some(mx),
        ctx.nest_level <= mx,
    ensures
        forall|i: int|
            0 <= i < crate::grammar::spec_members_rest(s, pos, ctx).0.len()
                ==> ctx.nest_level + model_depth(
                #[trigger] crate::grammar::spec_members_rest(s, pos, ctx).0[i].1,
            ) <= mx,
    decreases s.len() - pos.index, 5int,
{
    match spec_expect(s, pos, |c: char| crate::grammar::is_comma_char(c)) {
        Ok((_, p1)) => {
            assert(pos.index < s.len() && p1.index == pos.index + 1);
            lemma_member_depth(s, p1, ctx, mx);
            match crate::grammar::spec_member(s, p1, ctx) {
                Ok((kv, p2)) => {
                    if p1.index < p2.index <= s.len() {
                        lemma_members_rest_depth(s, p2, ctx, mx);
                        let rest = crate::grammar::spec_members_rest(s, p2, ctx).0;
                        assert forall|i: int|
                            0 <= i < (seq![kv] + rest).len() implies ctx.nest_level
                            + model_depth(#[trigger] (seq![kv] + rest)[i].1) <= mx by {
                            if i > 0 {
                                assert((seq![kv] + rest)[i] == rest[i - 1]);
                            }
                        }
                    }
                },
                Err(_) => {},
            }
        },
        Err(_) => {},
    }
}

/// The member case of the nesting-guard soundness induction.
proof fn lemma_member_depth(s: Seq<char>, pos: SimplePosition, ctx: ParserContext, mx: u32)
    requires
        ctx.options.max_nest_level == Some(mx),
        ctx.nest_level <= mx,
    ensures
        crate::grammar::spec_member(s, pos, ctx) matches Ok((kv, _)) ==> ctx.nest_level
            + model_depth(kv.1) <= mx,
    decreases s.len() - pos.index, 3int,
{
    let p1 = spec_ws_run(s, pos);
    match spec_string(s, p1) {
        Ok((_, p2)) => {
            let p3 = spec_ws_run(s, p2);
            match spec_next_char(s, p3) {
                Ok((c, p4)) => {
                    if c == ':' && pos.index < p4.index <= s.len() {
                        lemma_element_depth(s, p4, ctx, mx);
                    }
                },
                Err(_) => {},
            }
        },
        Err(_) => {},
    }
}

/// The element case of the nesting-guard soundness induction.
proof fn lemma_element_depth(s: Seq<char>, pos: SimplePosition, ctx: ParserContext, mx: u32)
    requires
        ctx.options.max_nest_level == Some(mx),
        ctx.nest_level <= mx,
    ensures
        crate::grammar::spec_element(s, pos, ctx) matches Ok((m, _)) ==> ctx.nest_level
            + model_depth(m) <= mx,
    decreases s.len() - pos.index, 2int,
{
    lemma_ws_run_pos(s, pos);
    let p1 = spec_ws_run(s, pos);
    lemma_value_depth(s, p1, ctx, mx);
}

/// The elements case of the nesting-guard soundness induction.
proof fn lemma_elements_depth(s: Seq<char>, pos: SimplePosition, ctx: ParserContext, mx: u32)
    requires
        ctx.options.max_nest_level == Some(mx),
        ctx.nest_level <= mx,
    ensures
        crate::grammar::spec_elements(s, pos, ctx) matches Ok((es, _)) ==> forall|i: int|
            0 <= i < es.len() ==> ctx.nest_level + model_depth(#[trigger] es[i]) <= mx,
    decreases s.len() - pos.index, 4int,
{
    lemma_element_depth(s, pos, ctx, mx);
    match crate::grammar::spec_element(s, pos, ctx) {
        Ok((m, p1)) => {
            if pos.index < p1.index <= s.len() {
                lemma_elements_rest_depth(s, p1, ctx, mx);
                let rest = crate::grammar::spec_elements_rest(s, p1, ctx).0;
                assert forall|i: int|
                    0 <= i < (seq![m] + rest).len() implies ctx.nest_level + model_depth(
                    #[trigger] (seq![m] + rest)[i],
                ) <= mx by {
                    if i > 0 {
                        assert((seq![m] + rest)[i] == rest[i - 1]);
                    }
                }
            }
        },
        Err(_) => {},
    }
}

/// The element-repetition case of the nesting-guard soundness induction.
proof fn lemma_elements_rest_depth(s: Seq<char>, pos: SimplePosition, ctx: ParserContext, mx: u32)
    requires
        ctx.options.max_nest_level == Some(mx),
        ctx.nest_level <= mx,
    ensures
        forall|i: int|
            0 <= i < crate::grammar::spec_elements_rest(s, pos, ctx).0.len()
                ==> ctx.nest_level + model_depth(
                #[trigger] crate::grammar::spec_elements_rest(s, pos, ctx).0[i],
            ) <= mx,
    decreases s.len() - pos.index, 5int,
{
    match spec_expect(s, pos, |c: char| crate::grammar::is_comma_char(c)) {
        Ok((_, p1)) => {
            assert(pos.index < s.len() && p1.index == pos.index + 1);
            lemma_element_depth(s, p1, ctx, mx);
            match crate::grammar::spec_element(s, p1, ctx) {
                Ok((m, p2)) => {
                    if p1.index < p2.index <= s.len() {
                        lemma_elements_rest_depth(s, p2, ctx, mx);
                        let rest = crate::grammar::spec_elements_rest(s, p2, ctx).0;
                        assert forall|i: int|
                            0 <= i < (seq![m] + rest).len() implies ctx.nest_level
                            + model_depth(#[trigger] (seq![m] + rest)[i]) <= mx by {
                            if i > 0 {
                                assert((seq![m] + rest)[i] == rest[i - 1]);
                            }
                        }
                    }
                },
                Err(_) => {},
            }
        },
        Err(_) => {},
    }
}

/// A successfully parsed document never nests deeper than the configured
/// limit.
pub proof fn lemma_parse_json_depth(
    s: Seq<char>,
    options: crate::parser::ParserOptions,
    m: JsonModel,
    mx: u32,
)
    requires
        options.max_nest_level == Some(mx),
        crate::grammar::spec_parse_json(s, options) == Ok::<
            JsonModel,
            crate::parser::ErrorModel,
        >(m),
    ensures
        model_depth(m) <= mx,
{
    let pos0 = SimplePosition { index: 0, line: 0, column: 0 };
    let ctx0 = ParserContext { nest_level: 0, options };
    lemma_ws_run_pos(s, pos0);
    let p1 = spec_ws_run(s, pos0);
    lemma_element_depth(s, p1, ctx0, mx);
}

/// Parsing inverts compact serialization: for every round-trippable value
/// tree whose rendering fits the parser's cursor and whose depth the
/// nesting limit allows, parsing the compact rendering yields exactly that
/// tree.
pub proof fn lemma_parse_inverts_serialize(m: JsonModel, options: crate::parser::ParserOptions)
    requires
        round_trippable(m),
        value_chars(m, 0, 0).len() < u32::MAX,
        match options.max_nest_level {
            None => true,
            Some(mx) => model_depth(m) <= mx,
        },
    ensures
        crate::grammar::spec_parse_json(value_chars(m, 0, 0), options) == Ok::<
            JsonModel,
            crate::parser::ErrorModel,
        >(m),
{
    let s = value_chars(m, 0, 0);
    let pos0 = SimplePosition { index: 0, line: 0, column: 0 };
    let ctx0 = ParserContext { nest_level: 0, options };
    assert(s.subrange(0, s.len() as int) =~= s);
    assert(window(s, 0, s));
    lemma_value_chars_head(m, 0);
    lemma_window_char(s, 0, s, 0);
    lemma_ws_run_none(s, pos0);
    assert(follower_ok(s, 0 + s.len() as int));
    lemma_element_complete(s, pos0, ctx0, m, 0);
    let pend = pos_plus(pos0, s.len());
    lemma_ws_run_none(s, pend);
}

/// Parsing is idempotent through one serialization: when a document parses
/// to a round-trippable tree, the compact rendering of that tree parses to
/// the same result as the document itself.  The nesting limit needs no
/// side condition: a successful parse already bounds the tree's depth.
pub proof fn lemma_parse_serialize_parse(
    d: Seq<char>,
    options: crate::parser::ParserOptions,
    m: JsonModel,
)
    requires
        crate::grammar::spec_parse_json(d, options) == Ok::<
            JsonModel,
            crate::parser::ErrorModel,
        >(m),
        round_trippable(m),
        value_chars(m, 0, 0).len() < u32::MAX,
    ensures
        crate::grammar::spec_parse_json(value_chars(m, 0, 0), options)
            == crate::grammar::spec_parse_json(d, options),
{
    match options.max_nest_level {
        Some(mx) => {
            lemma_parse_json_depth(d, options, m, mx);
        },
        None => {},
    }
    lemma_parse_inverts_serialize(m, options);
}

/// The executable ends of the round trip: any string whose UTF-8 bytes are
/// the compact serialization of `v` parses back to exactly `v`'s model.
pub proof fn lemma_parse_json_inverts_serialize(
    v: &crate::json::JsonValue,
    t: &str,
    options: crate::parser::ParserOptions,
)
    requires
        round_trippable(v.model()),
        vstd::utf8::encode_utf8(t@) == crate::traits::Serialize::ser_spec(v, 0, 0),
        t@.len() < u32::MAX,
        match options.max_nest_level {
            None => true,
            Some(mx) => model_depth(v.model()) <= mx,
        },
    ensures
        crate::grammar::spec_parse_json(t@, options) == Ok::<
            JsonModel,
            crate::parser::ErrorModel,
        >(v.model()),
{
    vstd::utf8::encode_utf8_decode_utf8(t@);
    vstd::utf8::encode_utf8_decode_utf8(value_chars(v.model(), 0, 0));
    assert(t@ == value_chars(v.model(), 0, 0));
    lemma_parse_inverts_serialize(v.model(), options);
}

} // verus!
