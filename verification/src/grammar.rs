//! The mathematical description of the JSON grammar.
//!
//! Each function here states exactly what the corresponding production
//! returns on every input: the parsed value and the cursor after it on
//! success, or the accumulated `(position, reason)` diagnostics on failure.
//! The executable grammar is proved against these functions clause by
//! clause.
use crate::json::JsonModel;
use crate::parser::ErrorModel;
use crate::parser::ParserContext;
use crate::parser::SimplePosition;
use crate::parser::spec_nest;
use vstd::prelude::*;

verus! {

/// What a production yields: a value and the cursor after it, or an error.
pub type SpecParsed<T> = Result<(T, SimplePosition), ErrorModel>;

/// JSON whitespace: space, carriage return, line feed, horizontal tab.
pub open spec fn is_whitespace_char(c: char) -> bool {
    c == '\u{0020}' || c == '\u{000D}' || c == '\u{000A}' || c == '\u{0009}'
}

/// A sign character.
pub open spec fn is_sign_char(c: char) -> bool {
    c == '+' || c == '-'
}

/// The negative sign.
pub open spec fn is_negative_sign_char(c: char) -> bool {
    c == '-'
}

/// The exponent marker.
pub open spec fn is_e_char(c: char) -> bool {
    c == 'E' || c == 'e'
}

/// A nonzero decimal digit.
pub open spec fn is_one_to_nine_char(c: char) -> bool {
    '1' <= c && c <= '9'
}

/// A decimal digit.
pub open spec fn is_digit_char(c: char) -> bool {
    '0' <= c && c <= '9'
}

/// The decimal point.
pub open spec fn is_dot_char(c: char) -> bool {
    c == '.'
}

/// A hexadecimal digit, either case.
pub open spec fn is_hex_char(c: char) -> bool {
    ('0' <= c && c <= '9') || ('a' <= c && c <= 'f') || ('A' <= c && c <= 'F')
}

/// The double quote.
pub open spec fn is_double_quote_char(c: char) -> bool {
    c == '"'
}

/// The opening brace of an object.
pub open spec fn is_open_curly_bracket_char(c: char) -> bool {
    c == '{'
}

/// The closing brace of an object.
pub open spec fn is_close_curly_bracket_char(c: char) -> bool {
    c == '}'
}

/// The member and element separator.
pub open spec fn is_comma_char(c: char) -> bool {
    c == ','
}

/// The opening bracket of an array.
pub open spec fn is_open_square_bracket_char(c: char) -> bool {
    c == '['
}

/// The closing bracket of an array.
pub open spec fn is_close_square_bracket_char(c: char) -> bool {
    c == ']'
}

/// The numeric value of a decimal digit character.
pub open spec fn digit_val(c: char) -> int {
    c as u32 - 48
}

/// The numeric value of a hexadecimal digit character.
pub open spec fn hex_val(c: char) -> int {
    if is_digit_char(c) {
        c as u32 - 48
    } else if 'a' <= c && c <= 'f' {
        c as u32 - 87
    } else {
        c as u32 - 55
    }
}

/// A value that `char` accepts: a Unicode scalar value.
pub open spec fn is_unicode_scalar(v: u32) -> bool {
    v < 0xD800 || (0xE000 <= v && v <= 0x10FFFF)
}

/// Reading one character: the character under the cursor and the advanced
/// cursor, or the out-of-bounds error at the end of the input.
pub open spec fn spec_next_char(s: Seq<char>, pos: SimplePosition) -> SpecParsed<char> {
    if pos.index < s.len() && pos.index < u32::MAX {
        let c = s[pos.index as int];
        Ok((c, pos.spec_next(c)))
    } else {
        Err(seq![(pos, "Out of bounds"@)])
    }
}

/// Reading one character that must satisfy `pred`: the single-character
/// consuming primitive every character class is built on.
pub open spec fn spec_expect(s: Seq<char>, pos: SimplePosition, pred: spec_fn(char) -> bool) -> SpecParsed<char> {
    match spec_next_char(s, pos) {
        Err(e) => Err(e.push((pos, "ExpectChar"@))),
        Ok((c, p)) => if pred(c) {
            Ok((c, p))
        } else {
            Err(seq![(pos, "ExpectChar"@)])
        },
    }
}

/// The cursor after the longest whitespace run from `pos`.  Never fails.
pub open spec fn spec_ws_run(s: Seq<char>, pos: SimplePosition) -> SimplePosition
    decreases s.len() - pos.index,
{
    match spec_next_char(s, pos) {
        Ok((c, p)) => if is_whitespace_char(c) {
            spec_ws_run(s, p)
        } else {
            pos
        },
        Err(_) => pos,
    }
}

/// The longest digit run from `pos` and the cursor after it.  Never fails.
pub open spec fn spec_digit_run(s: Seq<char>, pos: SimplePosition) -> (Seq<char>, SimplePosition)
    decreases s.len() - pos.index,
{
    match spec_next_char(s, pos) {
        Ok((c, p)) => if is_digit_char(c) {
            let (rest, pend) = spec_digit_run(s, p);
            (seq![c] + rest, pend)
        } else {
            (Seq::empty(), pos)
        },
        Err(_) => (Seq::empty(), pos),
    }
}

/// Every character of a digit run is a digit.
pub proof fn lemma_digit_run_digits(s: Seq<char>, pos: SimplePosition)
    ensures
        forall|i: int|
            0 <= i < spec_digit_run(s, pos).0.len() ==> is_digit_char(
                #[trigger] spec_digit_run(s, pos).0[i],
            ),
    decreases s.len() - pos.index,
{
    match spec_next_char(s, pos) {
        Ok((c, p)) => {
            if is_digit_char(c) {
                lemma_digit_run_digits(s, p);
                assert forall|i: int| 0 <= i < spec_digit_run(s, pos).0.len() implies is_digit_char(
                    spec_digit_run(s, pos).0[i],
                ) by {
                    if i == 0 {
                        assert(spec_digit_run(s, pos).0[0] == c);
                    } else {
                        assert(spec_digit_run(s, pos).0[i] == spec_digit_run(s, p).0[i - 1]);
                    }
                }
            }
        },
        Err(_) => {},
    }
}

/// One or more digits: the whole digit run, failing when the first
/// character is not a digit.
pub open spec fn spec_digits(s: Seq<char>, pos: SimplePosition) -> SpecParsed<Seq<char>> {
    match spec_expect(s, pos, |c| is_digit_char(c)) {
        Err(e) => Err(e.push((pos, "OneOrMore"@))),
        Ok((c, p)) => {
            let (rest, pend) = spec_digit_run(s, p);
            Ok((seq![c] + rest, pend))
        },
    }
}

/// Digits folded into a 64-bit accumulator, wrapping on overflow, most
/// significant digit first.
pub open spec fn fold_digits_u64(ds: Seq<char>, acc: u64) -> u64
    decreases ds.len(),
{
    if ds.len() == 0 {
        acc
    } else {
        fold_digits_u64(
            ds.drop_first(),
            vstd::wrapping::u64_specs::wrapping_add(
                vstd::wrapping::u64_specs::wrapping_mul(acc, 10),
                digit_val(ds[0]) as u64,
            ),
        )
    }
}

/// Digits folded into a 32-bit signed accumulator, wrapping on overflow.
pub open spec fn fold_digits_i32(ds: Seq<char>, acc: i32) -> i32
    decreases ds.len(),
{
    if ds.len() == 0 {
        acc
    } else {
        fold_digits_i32(
            ds.drop_first(),
            vstd::wrapping::i32_specs::wrapping_add(
                vstd::wrapping::i32_specs::wrapping_mul(acc, 10),
                digit_val(ds[0]) as i32,
            ),
        )
    }
}

/// The unsigned integer production: a nonzero digit followed by more
/// digits, or one single digit (so multi-digit integers cannot start with
/// zero).
pub open spec fn spec_positive_integer(s: Seq<char>, pos: SimplePosition) -> SpecParsed<u64> {
    match spec_expect(s, pos, |c| is_one_to_nine_char(c)) {
        Ok((c, p1)) => match spec_digits(s, p1) {
            Ok((cs, p2)) => Ok((fold_digits_u64(cs, digit_val(c) as u64), p2)),
            Err(_) => spec_single_digit_integer(s, pos),
        },
        Err(_) => spec_single_digit_integer(s, pos),
    }
}

/// The fallback alternative of the unsigned integer production: exactly one
/// digit.
pub open spec fn spec_single_digit_integer(s: Seq<char>, pos: SimplePosition) -> SpecParsed<u64> {
    match spec_expect(s, pos, |c| is_digit_char(c)) {
        Ok((c, p1)) => Ok((digit_val(c) as u64, p1)),
        Err(e) => Err(e.push((pos, "OneOf"@)).push((pos, "PositiveInteger"@))),
    }
}

/// The negative integer production: a minus sign then an unsigned integer,
/// negated with wrapping.
pub open spec fn spec_negative_integer(s: Seq<char>, pos: SimplePosition) -> SpecParsed<i64> {
    match spec_expect(s, pos, |c| is_negative_sign_char(c)) {
        Err(e) => Err(e.push((pos, "Concat1"@)).push((pos, "NegativeInteger"@))),
        Ok((_, p1)) => match spec_positive_integer(s, p1) {
            Err(e) => Err(e.push((pos, "Concat2"@)).push((pos, "NegativeInteger"@))),
            Ok((v, p2)) => Ok((vstd::wrapping::i64_specs::wrapping_sub(0, v as i64), p2)),
        },
    }
}

/// The integer production: unsigned first, negative as the alternative.
pub open spec fn spec_integer(s: Seq<char>, pos: SimplePosition) -> SpecParsed<i64> {
    match spec_positive_integer(s, pos) {
        Ok((v, p)) => Ok((v as i64, p)),
        Err(_) => match spec_negative_integer(s, pos) {
            Ok((v, p)) => Ok((v, p)),
            Err(e) => Err(e.push((pos, "OneOf"@)).push((pos, "Integer"@))),
        },
    }
}

/// The optional fraction: a dot and at least one digit, yielding the folded
/// value and the digit count; anything else consumes nothing and yields
/// zero of each.
pub open spec fn spec_fraction(s: Seq<char>, pos: SimplePosition) -> ((u64, u32), SimplePosition) {
    match spec_expect(s, pos, |c| is_dot_char(c)) {
        Ok((_, p1)) => match spec_digits(s, p1) {
            Ok((cs, p2)) => ((fold_digits_u64(cs, 0), cs.len() as u32), p2),
            Err(_) => ((0u64, 0u32), pos),
        },
        Err(_) => ((0u64, 0u32), pos),
    }
}

/// The optional sign inside an exponent.
pub open spec fn spec_sign_opt(s: Seq<char>, pos: SimplePosition) -> (Option<char>, SimplePosition) {
    match spec_expect(s, pos, |c| is_sign_char(c)) {
        Ok((c, p)) => (Some(c), p),
        Err(_) => (None, pos),
    }
}

/// The optional exponent: an exponent marker, an optional sign and at least
/// one digit; anything else consumes nothing and yields zero.
pub open spec fn spec_exponent(s: Seq<char>, pos: SimplePosition) -> (i32, SimplePosition) {
    match spec_expect(s, pos, |c| is_e_char(c)) {
        Ok((_, p1)) => {
            let (sign, p2) = spec_sign_opt(s, p1);
            match spec_digits(s, p2) {
                Ok((cs, p3)) => {
                    let v = fold_digits_i32(cs, 0);
                    (
                        if sign == Some('-') {
                            vstd::wrapping::i32_specs::wrapping_mul(v, -1i32)
                        } else {
                            v
                        },
                        p3,
                    )
                },
                Err(_) => (0i32, pos),
            }
        },
        Err(_) => (0i32, pos),
    }
}

/// The number production: integer part, then the optional fraction and
/// exponent.
pub open spec fn spec_number(s: Seq<char>, pos: SimplePosition) -> SpecParsed<crate::json::NumberValue> {
    match spec_integer(s, pos) {
        Err(e) => Err(e.push((pos, "Concat1"@)).push((pos, "Number"@))),
        Ok((n, p1)) => {
            let (f, p2) = spec_fraction(s, p1);
            let (ex, p3) = spec_exponent(s, p2);
            Ok(
                (
                    crate::json::NumberValue {
                        integer: n,
                        fraction: f.0,
                        fraction_length: f.1,
                        exponent: ex,
                    },
                    p3,
                ),
            )
        },
    }
}

/// One hexadecimal digit and its value.
pub open spec fn spec_hex(s: Seq<char>, pos: SimplePosition) -> SpecParsed<u8> {
    match spec_expect(s, pos, |c| is_hex_char(c)) {
        Ok((c, p)) => Ok((hex_val(c) as u8, p)),
        Err(e) => Err(e.push((pos, "Hex"@))),
    }
}

/// The character that one of the eight escape letters stands for: the
/// quote, backslash and slash stand for themselves, and `b f n r t` for
/// backspace, formfeed, line feed, carriage return and horizontal tab.
pub open spec fn unescaped_char(c: char) -> char {
    if c == 'b' {
        '\u{0008}'
    } else if c == 'f' {
        '\u{000C}'
    } else if c == 'n' {
        '\u{000A}'
    } else if c == 'r' {
        '\u{000D}'
    } else if c == 't' {
        '\u{0009}'
    } else {
        c
    }
}

/// The escape production, entered after the backslash: one of the eight
/// escape letters, yielding the character it stands for, or `u` and four
/// hex digits forming a sixteen-bit code point that must be a Unicode
/// scalar value.
pub open spec fn spec_escape(s: Seq<char>, pos: SimplePosition) -> SpecParsed<char> {
    match spec_next_char(s, pos) {
        Err(e) => Err(e.push((pos, "Escape"@))),
        Ok((c, p1)) => {
            if c == '"' || c == '\\' || c == '/' || c == 'b' || c == 'f' || c == 'n' || c == 'r'
                || c == 't' {
                Ok((unescaped_char(c), p1))
            } else if c == 'u' {
                match spec_hex(s, p1) {
                    Err(e) => Err(e),
                    Ok((b1, p2)) => match spec_hex(s, p2) {
                        Err(e) => Err(e),
                        Ok((b2, p3)) => match spec_hex(s, p3) {
                            Err(e) => Err(e),
                            Ok((b3, p4)) => match spec_hex(s, p4) {
                                Err(e) => Err(e),
                                Ok((b4, p5)) => {
                                    let v = ((b1 as u32) * 0x1000 + (b2 as u32) * 0x100 + (
                                    b3 as u32) * 0x10 + (b4 as u32)) as u32;
                                    if is_unicode_scalar(v) {
                                        Ok((v as char, p5))
                                    } else {
                                        Err(seq![(pos, "Escape"@)])
                                    }
                                },
                            },
                        },
                    },
                }
            } else {
                Err(seq![(pos, "Escape"@)])
            }
        },
    }
}

/// The character production inside a string: a backslash starts an escape,
/// a double quote fails (ending the run), anything else is itself.
pub open spec fn spec_character(s: Seq<char>, pos: SimplePosition) -> SpecParsed<char> {
    match spec_next_char(s, pos) {
        Err(e) => Err(e.push((pos, "Character"@))),
        Ok((c, p1)) => if c == '\\' {
            spec_escape(s, p1)
        } else if c == '"' {
            Err(seq![(pos, "Character"@)])
        } else {
            Ok((c, p1))
        },
    }
}

/// A successful character consumes at least one character and stays inside
/// the input.
pub proof fn lemma_character_pos(s: Seq<char>, pos: SimplePosition)
    ensures
        spec_character(s, pos) matches Ok((c, p)) ==> pos.index < p.index <= s.len(),
{
}

/// The longest run of string characters from `pos`, ending before the
/// closing quote, the end of input, or an invalid escape.  Never fails.
pub open spec fn spec_characters_run(s: Seq<char>, pos: SimplePosition) -> (Seq<char>, SimplePosition)
    decreases s.len() - pos.index,
        via spec_characters_run_decreases
{
    match spec_character(s, pos) {
        Ok((c, p)) => if pos.index < p.index <= s.len() {
            let (rest, pend) = spec_characters_run(s, p);
            (seq![c] + rest, pend)
        } else {
            (seq![c], p)
        },
        Err(_) => (Seq::empty(), pos),
    }
}

#[via_fn]
proof fn spec_characters_run_decreases(s: Seq<char>, pos: SimplePosition) {
    lemma_character_pos(s, pos);
}

/// The string production: a double quote, the character run, and the
/// closing double quote.
pub open spec fn spec_string(s: Seq<char>, pos: SimplePosition) -> SpecParsed<Seq<char>> {
    match spec_expect(s, pos, |c| is_double_quote_char(c)) {
        Err(e) => Err(e.push((pos, "Concat1"@)).push((pos, "String"@))),
        Ok((_, p1)) => {
            let (cs, p2) = spec_characters_run(s, p1);
            match spec_expect(s, p2, |c| is_double_quote_char(c)) {
                Err(e) => Err(
                    e.push((p1, "Concat2"@)).push((pos, "Concat2"@)).push((pos, "String"@)),
                ),
                Ok((_, p3)) => Ok((cs, p3)),
            }
        },
    }
}

/// The cursor after reading `n` characters from `pos`.
pub open spec fn spec_advance(s: Seq<char>, pos: SimplePosition, n: nat) -> SimplePosition
    decreases n,
{
    if n == 0 {
        pos
    } else {
        spec_advance(s, pos.spec_next(s[pos.index as int]), (n - 1) as nat)
    }
}

/// The literal alternatives of the value production: `null`, `true` and
/// `false` read as four- or five-character ranges, with the out-of-bounds
/// error when too little input is left and the value error otherwise.
pub open spec fn spec_value_literal(s: Seq<char>, pos: SimplePosition) -> SpecParsed<JsonModel> {
    if pos.index + 4 > s.len() {
        Err(seq![(pos, "Out of bounds"@)])
    } else {
        let i = pos.index as int;
        if s[i] == 'n' && s[i + 1] == 'u' && s[i + 2] == 'l' && s[i + 3] == 'l' {
            Ok((JsonModel::Null, spec_advance(s, pos, 4)))
        } else if s[i] == 't' && s[i + 1] == 'r' && s[i + 2] == 'u' && s[i + 3] == 'e' {
            Ok((JsonModel::Boolean(true), spec_advance(s, pos, 4)))
        } else if pos.index + 5 > s.len() {
            Err(seq![(pos, "Out of bounds"@)])
        } else if s[i] == 'f' && s[i + 1] == 'a' && s[i + 2] == 'l' && s[i + 3] == 's' && s[i + 4]
            == 'e' {
            Ok((JsonModel::Boolean(false), spec_advance(s, pos, 5)))
        } else {
            Err(seq![(pos, "Value"@)])
        }
    }
}

/// The value production: object, array, string and number tried in that
/// order with full backtracking, then the three literals.
pub open spec fn spec_value(s: Seq<char>, pos: SimplePosition, ctx: ParserContext) -> SpecParsed<JsonModel>
    decreases s.len() - pos.index, 1int,
{
    match spec_object(s, pos, ctx) {
        Ok((ms, p)) => Ok((JsonModel::Object(ms), p)),
        Err(_) => match spec_array(s, pos, ctx) {
            Ok((es, p)) => Ok((JsonModel::Array(es), p)),
            Err(_) => match spec_string(s, pos) {
                Ok((cs, p)) => Ok((JsonModel::String(cs), p)),
                Err(_) => match spec_number(s, pos) {
                    Ok((n, p)) => Ok((JsonModel::Number(n), p)),
                    Err(_) => spec_value_literal(s, pos),
                },
            },
        },
    }
}

/// The object production: the nesting guard, an opening brace, members or
/// whitespace, and the closing brace.
pub open spec fn spec_object(s: Seq<char>, pos: SimplePosition, ctx: ParserContext) -> SpecParsed<
    Seq<(Seq<char>, JsonModel)>,
>
    decreases s.len() - pos.index, 0int,
        via spec_object_decreases
{
    match spec_nest(ctx, pos) {
        Err(e) => Err(e),
        Ok(ctx2) => match spec_expect(s, pos, |c| is_open_curly_bracket_char(c)) {
            Err(e) => Err(e),
            Ok((_, p1)) => match spec_members(s, p1, ctx2) {
                Ok((ms, p2)) => match spec_expect(s, p2, |c| is_close_curly_bracket_char(c)) {
                    Ok((_, p3)) => Ok((ms, p3)),
                    Err(e) => Err(e),
                },
                Err(_) => {
                    let p2 = spec_ws_run(s, p1);
                    match spec_expect(s, p2, |c| is_close_curly_bracket_char(c)) {
                        Ok((_, p3)) => Ok((Seq::empty(), p3)),
                        Err(e) => Err(e),
                    }
                },
            },
        },
    }
}

#[via_fn]
proof fn spec_object_decreases(s: Seq<char>, pos: SimplePosition, ctx: ParserContext) {
}

/// The members production: one member, then any number of comma-prefixed
/// members.
pub open spec fn spec_members(s: Seq<char>, pos: SimplePosition, ctx: ParserContext) -> SpecParsed<
    Seq<(Seq<char>, JsonModel)>,
>
    decreases s.len() - pos.index, 4int,
{
    match spec_member(s, pos, ctx) {
        Err(e) => Err(e),
        // a successful member always advances the cursor within the input;
        // the bound makes the recursion's termination measure evident
        Ok((kv, p1)) => if pos.index < p1.index <= s.len() {
            let (rest, p2) = spec_members_rest(s, p1, ctx);
            Ok((seq![kv] + rest, p2))
        } else {
            Ok((seq![kv], p1))
        },
    }
}

/// The greedy repetition of comma-prefixed members.  Never fails: it stops
/// before the first comma not followed by a member.
pub open spec fn spec_members_rest(s: Seq<char>, pos: SimplePosition, ctx: ParserContext) -> (
    Seq<(Seq<char>, JsonModel)>,
    SimplePosition,
)
    decreases s.len() - pos.index, 5int,
{
    match spec_expect(s, pos, |c| is_comma_char(c)) {
        Ok((_, p1)) => match spec_member(s, p1, ctx) {
            // a successful member always advances the cursor within the
            // input; the bound makes the termination measure evident
            Ok((kv, p2)) => if p1.index < p2.index <= s.len() {
                let (rest, p3) = spec_members_rest(s, p2, ctx);
                (seq![kv] + rest, p3)
            } else {
                (seq![kv], p2)
            },
            Err(_) => (Seq::empty(), pos),
        },
        Err(_) => (Seq::empty(), pos),
    }
}

/// The member production: whitespace, the key string, whitespace, a colon,
/// then the value element.
pub open spec fn spec_member(s: Seq<char>, pos: SimplePosition, ctx: ParserContext) -> SpecParsed<
    (Seq<char>, JsonModel),
>
    decreases s.len() - pos.index, 3int,
        via spec_member_decreases
{
    let p1 = spec_ws_run(s, pos);
    match spec_string(s, p1) {
        Err(e) => Err(e),
        Ok((key, p2)) => {
            let p3 = spec_ws_run(s, p2);
            match spec_next_char(s, p3) {
                Err(e) => Err(e.push((pos, "Member"@))),
                Ok((c, p4)) => if c == ':' {
                    // reading the colon always advances the cursor within
                    // the input; the bound makes the termination measure of
                    // the element call evident
                    if pos.index < p4.index <= s.len() {
                        match spec_element(s, p4, ctx) {
                            Err(e) => Err(e),
                            Ok((v, p5)) => Ok(((key, v), p5)),
                        }
                    } else {
                        Err(seq![(p4, "Character"@), (pos, "Member"@)])
                    }
                } else {
                    Err(seq![(p4, "Character"@), (pos, "Member"@)])
                },
            }
        },
    }
}

#[via_fn]
proof fn spec_member_decreases(s: Seq<char>, pos: SimplePosition, ctx: ParserContext) {
}

/// The element production: a value with whitespace on both sides.
pub open spec fn spec_element(s: Seq<char>, pos: SimplePosition, ctx: ParserContext) -> SpecParsed<JsonModel>
    decreases s.len() - pos.index, 2int,
        via spec_element_decreases
{
    let p1 = spec_ws_run(s, pos);
    match spec_value(s, p1, ctx) {
        Err(e) => Err(e),
        Ok((v, p2)) => {
            let p3 = spec_ws_run(s, p2);
            Ok((v, p3))
        },
    }
}

#[via_fn]
proof fn spec_element_decreases(s: Seq<char>, pos: SimplePosition, ctx: ParserContext) {
    lemma_ws_run_pos(s, pos);
}

/// A whitespace run never moves the cursor backwards, and never past the
/// end of the input.
pub proof fn lemma_ws_run_pos(s: Seq<char>, pos: SimplePosition)
    ensures
        pos.index <= spec_ws_run(s, pos).index,
        pos.index <= s.len() ==> spec_ws_run(s, pos).index <= s.len(),
        pos.index >= s.len() ==> spec_ws_run(s, pos) == pos,
    decreases s.len() - pos.index,
{
    match spec_next_char(s, pos) {
        Ok((c, p)) => {
            if is_whitespace_char(c) {
                lemma_ws_run_pos(s, p);
            }
        },
        Err(_) => {},
    }
}

/// The array production: the nesting guard, an opening bracket, elements or
/// whitespace, and the closing bracket.
pub open spec fn spec_array(s: Seq<char>, pos: SimplePosition, ctx: ParserContext) -> SpecParsed<
    Seq<JsonModel>,
>
    decreases s.len() - pos.index, 0int,
        via spec_array_decreases
{
    match spec_nest(ctx, pos) {
        Err(e) => Err(e),
        Ok(ctx2) => match spec_expect(s, pos, |c| is_open_square_bracket_char(c)) {
            Err(e) => Err(e),
            Ok((_, p1)) => match spec_elements(s, p1, ctx2) {
                Ok((es, p2)) => match spec_expect(s, p2, |c| is_close_square_bracket_char(c)) {
                    Ok((_, p3)) => Ok((es, p3)),
                    Err(e) => Err(e),
                },
                Err(_) => {
                    let p2 = spec_ws_run(s, p1);
                    match spec_expect(s, p2, |c| is_close_square_bracket_char(c)) {
                        Ok((_, p3)) => Ok((Seq::empty(), p3)),
                        Err(e) => Err(e),
                    }
                },
            },
        },
    }
}

#[via_fn]
proof fn spec_array_decreases(s: Seq<char>, pos: SimplePosition, ctx: ParserContext) {
}

/// The elements production: one element, then any number of comma-prefixed
/// elements.
pub open spec fn spec_elements(s: Seq<char>, pos: SimplePosition, ctx: ParserContext) -> SpecParsed<
    Seq<JsonModel>,
>
    decreases s.len() - pos.index, 4int,
{
    match spec_element(s, pos, ctx) {
        Err(e) => Err(e),
        // a successful element always advances the cursor within the input;
        // the bound makes the recursion's termination measure evident
        Ok((v, p1)) => if pos.index < p1.index <= s.len() {
            let (rest, p2) = spec_elements_rest(s, p1, ctx);
            Ok((seq![v] + rest, p2))
        } else {
            Ok((seq![v], p1))
        },
    }
}

/// The greedy repetition of comma-prefixed elements.  Never fails: it stops
/// before the first comma not followed by an element.
pub open spec fn spec_elements_rest(s: Seq<char>, pos: SimplePosition, ctx: ParserContext) -> (
    Seq<JsonModel>,
    SimplePosition,
)
    decreases s.len() - pos.index, 5int,
{
    match spec_expect(s, pos, |c| is_comma_char(c)) {
        Ok((_, p1)) => match spec_element(s, p1, ctx) {
            // a successful element always advances the cursor within the
            // input; the bound makes the termination measure evident
            Ok((v, p2)) => if p1.index < p2.index <= s.len() {
                let (rest, p3) = spec_elements_rest(s, p2, ctx);
                (seq![v] + rest, p3)
            } else {
                (seq![v], p2)
            },
            Err(_) => (Seq::empty(), pos),
        },
        Err(_) => (Seq::empty(), pos),
    }
}

/// The whole-document production: an element with surrounding whitespace
/// that must reach the end of the input.
pub open spec fn spec_json(s: Seq<char>, pos: SimplePosition, ctx: ParserContext) -> SpecParsed<JsonModel> {
    let p1 = spec_ws_run(s, pos);
    match spec_element(s, p1, ctx) {
        Err(e) => Err(e),
        Ok((v, p2)) => {
            let p3 = spec_ws_run(s, p2);
            if p3.index >= s.len() {
                Ok((v, p3))
            } else {
                Err(seq![(p3, "Expect end of input"@)])
            }
        },
    }
}

/// What `parse_json_with_options` returns: the whole-document production
/// run from the zero cursor at nesting level zero.
pub open spec fn spec_parse_json(s: Seq<char>, options: crate::parser::ParserOptions) -> Result<
    JsonModel,
    ErrorModel,
> {
    let pos0 = SimplePosition { index: 0, line: 0, column: 0 };
    let ctx0 = ParserContext { nest_level: 0, options };
    match spec_json(s, pos0, ctx0) {
        Ok((v, _)) => Ok(v),
        Err(e) => Err(e),
    }
}

} // verus!
