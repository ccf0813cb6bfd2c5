//! The executable JSON grammar: recursive descent with full backtracking,
//! each production proved equal to its description in `grammar`.
//!
//! The productions compose a small set of parsing primitives.  `ExpectChar`
//! consumes one character of a class; sequencing runs one production after
//! another at the returned cursor; alternation re-runs the next production
//! from the saved cursor after a failure, discarding the failed branch's
//! diagnostics; repetition loops a production greedily until it fails,
//! backtracking over the failed attempt.  Because the cursor is a plain
//! copyable value over an immutable input, backtracking is simply reusing
//! an earlier cursor.  Object and array bodies call the nesting guard
//! before descending, which bounds recursion depth on adversarial input.
use core::marker::PhantomData;
use crate::grammar::SpecParsed;
use crate::grammar::digit_val;
use crate::grammar::fold_digits_i32;
use crate::grammar::fold_digits_u64;
use crate::grammar::hex_val;
use crate::grammar::is_close_curly_bracket_char;
use crate::grammar::is_close_square_bracket_char;
use crate::grammar::is_comma_char;
use crate::grammar::is_digit_char;
use crate::grammar::is_dot_char;
use crate::grammar::is_double_quote_char;
use crate::grammar::is_e_char;
use crate::grammar::is_hex_char;
use crate::grammar::is_negative_sign_char;
use crate::grammar::is_one_to_nine_char;
use crate::grammar::is_open_curly_bracket_char;
use crate::grammar::is_open_square_bracket_char;
use crate::grammar::is_sign_char;
use crate::grammar::is_unicode_scalar;
use crate::grammar::is_whitespace_char;
use crate::grammar::spec_advance;
use crate::grammar::spec_array;
use crate::grammar::spec_character;
use crate::grammar::spec_characters_run;
use crate::grammar::spec_digit_run;
use crate::grammar::spec_digits;
use crate::grammar::spec_element;
use crate::grammar::spec_elements;
use crate::grammar::spec_elements_rest;
use crate::grammar::spec_escape;
use crate::grammar::spec_expect;
use crate::grammar::spec_exponent;
use crate::grammar::spec_fraction;
use crate::grammar::spec_hex;
use crate::grammar::spec_integer;
use crate::grammar::spec_json;
use crate::grammar::spec_member;
use crate::grammar::spec_members;
use crate::grammar::spec_members_rest;
use crate::grammar::spec_negative_integer;
use crate::grammar::spec_next_char;
use crate::grammar::spec_number;
use crate::grammar::spec_object;
use crate::grammar::spec_parse_json;
use crate::grammar::spec_positive_integer;
use crate::grammar::spec_sign_opt;
use crate::grammar::spec_single_digit_integer;
use crate::grammar::spec_string;
use crate::grammar::spec_value;
use crate::grammar::spec_ws_run;
use crate::json::JsonModel;
use crate::json::JsonObject;
use crate::json::JsonValue;
use crate::json::NumberValue;
use crate::json::model_elements;
use crate::json::model_members;
use crate::parser::ErrorModel;
use crate::parser::ParserContext;
use crate::parser::ParserOptions;
use crate::parser::SimpleError;
use crate::parser::SimplePosition;
use crate::parser::error_at;
use crate::parser::parse_wf;
use crate::parser::pos_wf;
use vstd::prelude::*;
use vstd::string::StrSliceExecFns;

verus! {

/// A character class: one decidable predicate on characters.
pub trait Predicate {
    /// The class itself.
    spec fn spec_eval(c: char) -> bool;

    /// Decide membership, exactly as `spec_eval` says.
    fn eval(c: &char) -> (r: bool)
        ensures
            r == Self::spec_eval(*c),
    ;
}

/// The parser that consumes exactly one character of the class `P`.
pub struct ExpectChar<P>(PhantomData<P>);

impl<P: Predicate> ExpectChar<P> {
    /// Read one character of the class, or fail where the cursor stands.
    pub fn parse(input: &Vec<char>, current: SimplePosition, _context: &ParserContext) -> (r:
        Result<(char, SimplePosition), SimpleError>)
        requires
            pos_wf(input@, current),
        ensures
            match r {
                Ok((c, p)) => spec_expect(input@, current, |ch: char| P::spec_eval(ch))
                    == Ok::<(char, SimplePosition), ErrorModel>((c, p)) && pos_wf(input@, p)
                    && p.index == current.index + 1,
                Err(e) => spec_expect(input@, current, |ch: char| P::spec_eval(ch)) == Err::<
                    (char, SimplePosition),
                    ErrorModel,
                >(e@),
            },
    {
        if (current.index as usize) < input.len() {
            let c = input[current.index as usize];
            if P::eval(&c) {
                Ok((c, current.next(c)))
            } else {
                Err(error_at(current, "ExpectChar"))
            }
        } else {
            Err(error_at(current, "Out of bounds").add_reason(current, "ExpectChar"))
        }
    }
}

/// The parser that consumes nothing and always succeeds.
pub struct Null;

impl Null {
    /// Succeed at the current cursor with the unit output.
    pub fn parse(_input: &Vec<char>, current: SimplePosition, _context: &ParserContext) -> (r:
        Result<((), SimplePosition), SimpleError>)
        ensures
            r matches Ok(v) && v == ((), current),
    {
        Ok(((), current))
    }
}

/// The whitespace class.
pub struct WhitespaceCharPredicate;

impl Predicate for WhitespaceCharPredicate {
    open spec fn spec_eval(c: char) -> bool {
        is_whitespace_char(c)
    }

    fn eval(c: &char) -> bool {
        *c == '\u{0020}' || *c == '\u{000D}' || *c == '\u{000A}' || *c == '\u{0009}'
    }
}

/// The sign class.
pub struct SignCharPredicate;

impl Predicate for SignCharPredicate {
    open spec fn spec_eval(c: char) -> bool {
        is_sign_char(c)
    }

    fn eval(c: &char) -> bool {
        *c == '+' || *c == '-'
    }
}

/// The negative sign class.
pub struct NegativeSignCharPredicate;

impl Predicate for NegativeSignCharPredicate {
    open spec fn spec_eval(c: char) -> bool {
        is_negative_sign_char(c)
    }

    fn eval(c: &char) -> bool {
        *c == '-'
    }
}

/// The exponent marker class.
pub struct ECharPredicate;

impl Predicate for ECharPredicate {
    open spec fn spec_eval(c: char) -> bool {
        is_e_char(c)
    }

    fn eval(c: &char) -> bool {
        *c == 'E' || *c == 'e'
    }
}

/// The nonzero digit class.
pub struct OneToNineCharPredicate;

impl Predicate for OneToNineCharPredicate {
    open spec fn spec_eval(c: char) -> bool {
        is_one_to_nine_char(c)
    }

    fn eval(c: &char) -> bool {
        '1' <= *c && *c <= '9'
    }
}

/// The digit class.
pub struct DigitCharPredicate;

impl Predicate for DigitCharPredicate {
    open spec fn spec_eval(c: char) -> bool {
        is_digit_char(c)
    }

    fn eval(c: &char) -> bool {
        '0' <= *c && *c <= '9'
    }
}

/// The decimal point class.
pub struct DotCharPredicate;

impl Predicate for DotCharPredicate {
    open spec fn spec_eval(c: char) -> bool {
        is_dot_char(c)
    }

    fn eval(c: &char) -> bool {
        *c == '.'
    }
}

/// The hexadecimal digit class.
pub struct HexCharPredicate;

impl Predicate for HexCharPredicate {
    open spec fn spec_eval(c: char) -> bool {
        is_hex_char(c)
    }

    fn eval(c: &char) -> bool {
        ('0' <= *c && *c <= '9') || ('a' <= *c && *c <= 'f') || ('A' <= *c && *c <= 'F')
    }
}

/// The double quote class.
pub struct DoubleQuoteCharPredicate;

impl Predicate for DoubleQuoteCharPredicate {
    open spec fn spec_eval(c: char) -> bool {
        is_double_quote_char(c)
    }

    fn eval(c: &char) -> bool {
        *c == '"'
    }
}

/// The opening brace class.
pub struct OpenCurlyBracketCharPredicate;

impl Predicate for OpenCurlyBracketCharPredicate {
    open spec fn spec_eval(c: char) -> bool {
        is_open_curly_bracket_char(c)
    }

    fn eval(c: &char) -> bool {
        *c == '{'
    }
}

/// The closing brace class.
pub struct CloseCurlyBracketCharPredicate;

impl Predicate for CloseCurlyBracketCharPredicate {
    open spec fn spec_eval(c: char) -> bool {
        is_close_curly_bracket_char(c)
    }

    fn eval(c: &char) -> bool {
        *c == '}'
    }
}

/// The comma class.
pub struct CommaCharPredicate;

impl Predicate for CommaCharPredicate {
    open spec fn spec_eval(c: char) -> bool {
        is_comma_char(c)
    }

    fn eval(c: &char) -> bool {
        *c == ','
    }
}

/// The opening bracket class.
pub struct OpenSquareBracketCharPredicate;

impl Predicate for OpenSquareBracketCharPredicate {
    open spec fn spec_eval(c: char) -> bool {
        is_open_square_bracket_char(c)
    }

    fn eval(c: &char) -> bool {
        *c == '['
    }
}

/// The closing bracket class.
pub struct CloseSquareBracketCharPredicate;

impl Predicate for CloseSquareBracketCharPredicate {
    open spec fn spec_eval(c: char) -> bool {
        is_close_square_bracket_char(c)
    }

    fn eval(c: &char) -> bool {
        *c == ']'
    }
}

/// One whitespace character.
pub type WhitespaceChar = ExpectChar<WhitespaceCharPredicate>;

/// One sign character.
pub type SignChar = ExpectChar<SignCharPredicate>;

/// One negative sign.
pub type NegativeSignChar = ExpectChar<NegativeSignCharPredicate>;

/// One exponent marker.
pub type EChar = ExpectChar<ECharPredicate>;

/// One nonzero digit.
pub type OneToNineChar = ExpectChar<OneToNineCharPredicate>;

/// One digit.
pub type DigitChar = ExpectChar<DigitCharPredicate>;

/// One decimal point.
pub type DotChar = ExpectChar<DotCharPredicate>;

/// One hexadecimal digit.
pub type HexChar = ExpectChar<HexCharPredicate>;

/// One double quote.
pub type DoubleQuoteChar = ExpectChar<DoubleQuoteCharPredicate>;

/// One opening brace.
pub type OpenCurlyBracketChar = ExpectChar<OpenCurlyBracketCharPredicate>;

/// One closing brace.
pub type CloseCurlyBracketChar = ExpectChar<CloseCurlyBracketCharPredicate>;

/// One comma.
pub type CommaChar = ExpectChar<CommaCharPredicate>;

/// One opening bracket.
pub type OpenSquareBracketChar = ExpectChar<OpenSquareBracketCharPredicate>;

/// One closing bracket.
pub type CloseSquareBracketChar = ExpectChar<CloseSquareBracketCharPredicate>;

/// Any number of whitespace characters; consumes the longest run and never
/// fails.
pub struct Whitespace;

impl Whitespace {
    /// The cursor after the whitespace run starting at `current`.
    pub fn parse(input: &Vec<char>, current: SimplePosition, context: &ParserContext) -> (r:
        SimplePosition)
        requires
            pos_wf(input@, current),
        ensures
            r == spec_ws_run(input@, current),
            pos_wf(input@, r),
            current.index <= r.index,
    {
        let mut pos = current;
        loop
            invariant
                pos_wf(input@, pos),
                current.index <= pos.index,
                spec_ws_run(input@, current) == spec_ws_run(input@, pos),
            decreases input@.len() - pos.index,
        {
            match WhitespaceChar::parse(input, pos, context) {
                Ok((_, p)) => {
                    proof {
                        assert(spec_ws_run(input@, pos) == spec_ws_run(input@, p));
                    }
                    pos = p;
                },
                Err(_) => {
                    proof {
                        assert(spec_ws_run(input@, pos) == pos);
                    }
                    return pos;
                },
            }
        }
    }
}

/// One or more decimal digits.
pub struct Digits;

impl Digits {
    /// The digit run starting at `current`, failing when it is empty.
    pub fn parse(input: &Vec<char>, current: SimplePosition, context: &ParserContext) -> (r:
        Result<(Vec<char>, SimplePosition), SimpleError>)
        requires
            pos_wf(input@, current),
        ensures
            match r {
                Ok((cs, p)) => spec_digits(input@, current) == Ok::<
                    (Seq<char>, SimplePosition),
                    ErrorModel,
                >((cs@, p)) && pos_wf(input@, p) && current.index < p.index && (forall|i: int|
                    0 <= i < cs@.len() ==> is_digit_char(#[trigger] cs@[i])),
                Err(e) => spec_digits(input@, current) == Err::<
                    (Seq<char>, SimplePosition),
                    ErrorModel,
                >(e@),
            },
    {
        match DigitChar::parse(input, current, context) {
            Err(e) => Err(e.add_reason(current, "OneOrMore")),
            Ok((c, p1)) => {
                proof {
                    assert(spec_digits(input@, current) == Ok::<
                        (Seq<char>, SimplePosition),
                        ErrorModel,
                    >((seq![c] + spec_digit_run(input@, p1).0, spec_digit_run(input@, p1).1)));
                }
                let mut out: Vec<char> = Vec::new();
                out.push(c);
                let mut pos = p1;
                loop
                    invariant
                        pos_wf(input@, pos),
                        current.index < p1.index <= pos.index,
                        out@.len() >= 1,
                        forall|j: int| 0 <= j < out@.len() ==> is_digit_char(#[trigger] out@[j]),
                        spec_digits(input@, current) == Ok::<
                            (Seq<char>, SimplePosition),
                            ErrorModel,
                        >((seq![c] + spec_digit_run(input@, p1).0, spec_digit_run(input@, p1).1)),
                        seq![c] + spec_digit_run(input@, p1).0 == out@ + spec_digit_run(
                            input@,
                            pos,
                        ).0,
                        spec_digit_run(input@, p1).1 == spec_digit_run(input@, pos).1,
                    decreases input@.len() - pos.index,
                {
                    match DigitChar::parse(input, pos, context) {
                        Ok((d, p)) => {
                            proof {
                                assert(spec_digit_run(input@, pos) == (
                                    seq![d] + spec_digit_run(input@, p).0,
                                    spec_digit_run(input@, p).1,
                                ));
                                assert(out@.push(d) + spec_digit_run(input@, p).0 =~= out@ + (
                                seq![d] + spec_digit_run(input@, p).0));
                            }
                            out.push(d);
                            pos = p;
                        },
                        Err(_) => {
                            proof {
                                assert(spec_digit_run(input@, pos) == (
                                    Seq::<char>::empty(),
                                    pos,
                                ));
                                assert(out@ + Seq::<char>::empty() =~= out@);
                                assert(seq![c] + spec_digit_run(input@, p1).0 =~= out@);
                            }
                            return Ok((out, pos));
                        },
                    }
                }
            },
        }
    }
}

/// Fold a digit run into a 64-bit value starting from `acc`, wrapping on
/// overflow as the grammar's fold does.
fn fold_digits_u64_exec(cs: &Vec<char>, acc: u64) -> (r: u64)
    requires
        forall|i: int| 0 <= i < cs@.len() ==> is_digit_char(#[trigger] cs@[i]),
    ensures
        r == fold_digits_u64(cs@, acc),
{
    let mut val = acc;
    let len = cs.len();
    proof {
        assert(cs@.subrange(0, cs@.len() as int) =~= cs@);
    }
    for i in 0..len
        invariant
            len == cs@.len(),
            forall|j: int| 0 <= j < cs@.len() ==> is_digit_char(#[trigger] cs@[j]),
            fold_digits_u64(cs@, acc) == fold_digits_u64(
                cs@.subrange(i as int, cs@.len() as int),
                val,
            ),
        decreases len - i,
    {
        let c = cs[i];
        let d = (c as u32) - 48;
        proof {
            let sub = cs@.subrange(i as int, cs@.len() as int);
            assert(sub[0] == cs@[i as int]);
            assert(sub.drop_first() =~= cs@.subrange(i + 1, cs@.len() as int));
            assert(digit_val(c) == d);
        }
        val = val.wrapping_mul(10).wrapping_add(d as u64);
    }
    proof {
        assert(cs@.subrange(cs@.len() as int, cs@.len() as int) =~= Seq::<char>::empty());
    }
    val
}

/// Fold a digit run into a signed 32-bit value starting from `acc`,
/// wrapping on overflow as the grammar's fold does.
fn fold_digits_i32_exec(cs: &Vec<char>, acc: i32) -> (r: i32)
    requires
        forall|i: int| 0 <= i < cs@.len() ==> is_digit_char(#[trigger] cs@[i]),
    ensures
        r == fold_digits_i32(cs@, acc),
{
    let mut val = acc;
    let len = cs.len();
    proof {
        assert(cs@.subrange(0, cs@.len() as int) =~= cs@);
    }
    for i in 0..len
        invariant
            len == cs@.len(),
            forall|j: int| 0 <= j < cs@.len() ==> is_digit_char(#[trigger] cs@[j]),
            fold_digits_i32(cs@, acc) == fold_digits_i32(
                cs@.subrange(i as int, cs@.len() as int),
                val,
            ),
        decreases len - i,
    {
        let c = cs[i];
        let d = (c as u32) - 48;
        proof {
            let sub = cs@.subrange(i as int, cs@.len() as int);
            assert(sub[0] == cs@[i as int]);
            assert(sub.drop_first() =~= cs@.subrange(i + 1, cs@.len() as int));
            assert(digit_val(c) == d);
        }
        val = val.wrapping_mul(10).wrapping_add(d as i32);
    }
    proof {
        assert(cs@.subrange(cs@.len() as int, cs@.len() as int) =~= Seq::<char>::empty());
    }
    val
}

/// An unsigned integer: a nonzero digit followed by more digits, or one
/// single digit.
pub struct PositiveInteger;

impl PositiveInteger {
    /// Parse the unsigned integer production and fold its digits.
    pub fn parse(input: &Vec<char>, current: SimplePosition, context: &ParserContext) -> (r:
        Result<(u64, SimplePosition), SimpleError>)
        requires
            pos_wf(input@, current),
        ensures
            match r {
                Ok((v, p)) => spec_positive_integer(input@, current) == Ok::<
                    (u64, SimplePosition),
                    ErrorModel,
                >((v, p)) && pos_wf(input@, p) && current.index < p.index,
                Err(e) => spec_positive_integer(input@, current) == Err::<
                    (u64, SimplePosition),
                    ErrorModel,
                >(e@),
            },
    {
        match OneToNineChar::parse(input, current, context) {
            Ok((c, p1)) => match Digits::parse(input, p1, context) {
                Ok((cs, p2)) => {
                    let v0 = ((c as u32) - 48) as u64;
                    proof {
                        assert(digit_val(c) as u64 == v0);
                    }
                    let v = fold_digits_u64_exec(&cs, v0);
                    Ok((v, p2))
                },
                Err(_) => Self::parse_single(input, current, context),
            },
            Err(_) => Self::parse_single(input, current, context),
        }
    }

    /// The fallback alternative: exactly one digit.
    fn parse_single(input: &Vec<char>, current: SimplePosition, context: &ParserContext) -> (r:
        Result<(u64, SimplePosition), SimpleError>)
        requires
            pos_wf(input@, current),
        ensures
            match r {
                Ok((v, p)) => spec_single_digit_integer(input@, current) == Ok::<
                    (u64, SimplePosition),
                    ErrorModel,
                >((v, p)) && pos_wf(input@, p) && current.index < p.index,
                Err(e) => spec_single_digit_integer(input@, current) == Err::<
                    (u64, SimplePosition),
                    ErrorModel,
                >(e@),
            },
    {
        match DigitChar::parse(input, current, context) {
            Ok((c, p1)) => Ok((((c as u32) - 48) as u64, p1)),
            Err(e) => Err(e.add_reason(current, "OneOf").add_reason(current, "PositiveInteger")),
        }
    }
}

/// A negative integer: a minus sign then an unsigned integer.
pub struct NegativeInteger;

impl NegativeInteger {
    /// Parse the negative integer production.
    pub fn parse(input: &Vec<char>, current: SimplePosition, context: &ParserContext) -> (r:
        Result<(i64, SimplePosition), SimpleError>)
        requires
            pos_wf(input@, current),
        ensures
            match r {
                Ok((v, p)) => spec_negative_integer(input@, current) == Ok::<
                    (i64, SimplePosition),
                    ErrorModel,
                >((v, p)) && pos_wf(input@, p) && current.index < p.index,
                Err(e) => spec_negative_integer(input@, current) == Err::<
                    (i64, SimplePosition),
                    ErrorModel,
                >(e@),
            },
    {
        match NegativeSignChar::parse(input, current, context) {
            Err(e) => Err(e.add_reason(current, "Concat1").add_reason(current, "NegativeInteger")),
            Ok((_, p1)) => match PositiveInteger::parse(input, p1, context) {
                Err(e) => Err(
                    e.add_reason(current, "Concat2").add_reason(current, "NegativeInteger"),
                ),
                Ok((v, p2)) => Ok((0i64.wrapping_sub(v as i64), p2)),
            },
        }
    }
}

/// An integer: unsigned first, negative as the alternative.
pub struct Integer;

impl Integer {
    /// Parse the integer production.
    pub fn parse(input: &Vec<char>, current: SimplePosition, context: &ParserContext) -> (r:
        Result<(i64, SimplePosition), SimpleError>)
        requires
            pos_wf(input@, current),
        ensures
            match r {
                Ok((v, p)) => spec_integer(input@, current) == Ok::<
                    (i64, SimplePosition),
                    ErrorModel,
                >((v, p)) && pos_wf(input@, p) && current.index < p.index,
                Err(e) => spec_integer(input@, current) == Err::<
                    (i64, SimplePosition),
                    ErrorModel,
                >(e@),
            },
    {
        match PositiveInteger::parse(input, current, context) {
            Ok((v, p)) => Ok((v as i64, p)),
            Err(_) => match NegativeInteger::parse(input, current, context) {
                Ok((v, p)) => Ok((v, p)),
                Err(e) => Err(e.add_reason(current, "OneOf").add_reason(current, "Integer")),
            },
        }
    }
}

/// The optional fraction of a number; consumes nothing when absent.
pub struct Fraction;

impl Fraction {
    /// Parse the fraction production: the folded digits and their count.
    pub fn parse(input: &Vec<char>, current: SimplePosition, context: &ParserContext) -> (r: (
        (u64, u32),
        SimplePosition,
    ))
        requires
            pos_wf(input@, current),
        ensures
            r == spec_fraction(input@, current),
            pos_wf(input@, r.1),
            current.index <= r.1.index,
    {
        match DotChar::parse(input, current, context) {
            Ok((_, p1)) => match Digits::parse(input, p1, context) {
                Ok((cs, p2)) => {
                    let v = fold_digits_u64_exec(&cs, 0);
                    ((v, cs.len() as u32), p2)
                },
                Err(_) => ((0, 0), current),
            },
            Err(_) => ((0, 0), current),
        }
    }
}

/// The optional exponent of a number; consumes nothing when absent.
pub struct Exponent;

impl Exponent {
    /// Parse the exponent production: the signed folded digits.
    pub fn parse(input: &Vec<char>, current: SimplePosition, context: &ParserContext) -> (r: (
        i32,
        SimplePosition,
    ))
        requires
            pos_wf(input@, current),
        ensures
            r == spec_exponent(input@, current),
            pos_wf(input@, r.1),
            current.index <= r.1.index,
    {
        match EChar::parse(input, current, context) {
            Ok((_, p1)) => {
                let (sign, p2) = match SignChar::parse(input, p1, context) {
                    Ok((sc, p)) => (Some(sc), p),
                    Err(_) => (None, p1),
                };
                proof {
                    assert((sign, p2) == spec_sign_opt(input@, p1));
                }
                match Digits::parse(input, p2, context) {
                    Ok((cs, p3)) => {
                        let v = fold_digits_i32_exec(&cs, 0);
                        let neg = match sign {
                            Some(sc) => sc == '-',
                            None => false,
                        };
                        (
                            if neg {
                                v.wrapping_mul(-1)
                            } else {
                                v
                            },
                            p3,
                        )
                    },
                    Err(_) => (0, current),
                }
            },
            Err(_) => (0, current),
        }
    }
}

/// A number: the integer part, then the optional fraction and exponent.
pub struct Number;

impl Number {
    /// Parse the number production into its decomposed decimal form.
    pub fn parse(input: &Vec<char>, current: SimplePosition, context: &ParserContext) -> (r:
        Result<(NumberValue, SimplePosition), SimpleError>)
        requires
            pos_wf(input@, current),
        ensures
            match r {
                Ok((n, p)) => spec_number(input@, current) == Ok::<
                    (NumberValue, SimplePosition),
                    ErrorModel,
                >((n, p)) && pos_wf(input@, p) && current.index < p.index,
                Err(e) => spec_number(input@, current) == Err::<
                    (NumberValue, SimplePosition),
                    ErrorModel,
                >(e@),
            },
    {
        match Integer::parse(input, current, context) {
            Err(e) => Err(e.add_reason(current, "Concat1").add_reason(current, "Number")),
            Ok((n, p1)) => {
                let (f, p2) = Fraction::parse(input, p1, context);
                let (ex, p3) = Exponent::parse(input, p2, context);
                Ok(
                    (
                        NumberValue {
                            integer: n,
                            fraction: f.0,
                            fraction_length: f.1,
                            exponent: ex,
                        },
                        p3,
                    ),
                )
            },
        }
    }
}

/// One hexadecimal digit and its numeric value.
pub struct Hex;

impl Hex {
    /// Parse one hexadecimal digit.
    pub fn parse(input: &Vec<char>, current: SimplePosition, context: &ParserContext) -> (r:
        Result<(u8, SimplePosition), SimpleError>)
        requires
            pos_wf(input@, current),
        ensures
            match r {
                Ok((v, p)) => spec_hex(input@, current) == Ok::<
                    (u8, SimplePosition),
                    ErrorModel,
                >((v, p)) && pos_wf(input@, p) && p.index == current.index + 1,
                Err(e) => spec_hex(input@, current) == Err::<(u8, SimplePosition), ErrorModel>(e@),
            },
    {
        match HexChar::parse(input, current, context) {
            Ok((c, p)) => {
                let u = c as u32;
                let v = if u >= 97 {
                    u - 87
                } else if u >= 65 {
                    u - 55
                } else {
                    u - 48
                };
                proof {
                    assert(hex_val(c) == v);
                }
                Ok((v as u8, p))
            },
            Err(e) => Err(e.add_reason(current, "Hex")),
        }
    }
}

/// Relies on `char::from_u32`: it returns `Some` exactly for Unicode scalar
/// values (code points outside the surrogate range and at most 0x10FFFF),
/// and the returned character has the given code point.
#[verifier::external_body]
fn char_from_u32(v: u32) -> (r: Option<char>)
    ensures
        match r {
            Some(c) => is_unicode_scalar(v) && c as u32 == v,
            None => !is_unicode_scalar(v),
        },
{
    char::from_u32(v)
}

/// An escape sequence after the backslash: one of the eight escape letters,
/// yielding the character it stands for, or `u` and four hex digits forming
/// a sixteen-bit code point that must be a Unicode scalar value.
pub struct Escape;

impl Escape {
    /// Parse the escape production.
    pub fn parse(input: &Vec<char>, current: SimplePosition, context: &ParserContext) -> (r:
        Result<(char, SimplePosition), SimpleError>)
        requires
            pos_wf(input@, current),
        ensures
            match r {
                Ok((c, p)) => spec_escape(input@, current) == Ok::<
                    (char, SimplePosition),
                    ErrorModel,
                >((c, p)) && pos_wf(input@, p) && current.index < p.index,
                Err(e) => spec_escape(input@, current) == Err::<
                    (char, SimplePosition),
                    ErrorModel,
                >(e@),
            },
    {
        if (current.index as usize) >= input.len() {
            return Err(error_at(current, "Out of bounds").add_reason(current, "Escape"));
        }
        let c = input[current.index as usize];
        let p1 = current.next(c);
        match c {
            '"' | '\\' | '/' => Ok((c, p1)),
            'b' => Ok(('\u{0008}', p1)),
            'f' => Ok(('\u{000C}', p1)),
            'n' => Ok(('\u{000A}', p1)),
            'r' => Ok(('\u{000D}', p1)),
            't' => Ok(('\u{0009}', p1)),
            'u' => {
                let (b1, p2) = match Hex::parse(input, p1, context) {
                    Ok(v) => v,
                    Err(e) => {
                        return Err(e);
                    },
                };
                let (b2, p3) = match Hex::parse(input, p2, context) {
                    Ok(v) => v,
                    Err(e) => {
                        return Err(e);
                    },
                };
                let (b3, p4) = match Hex::parse(input, p3, context) {
                    Ok(v) => v,
                    Err(e) => {
                        return Err(e);
                    },
                };
                let (b4, p5) = match Hex::parse(input, p4, context) {
                    Ok(v) => v,
                    Err(e) => {
                        return Err(e);
                    },
                };
                let v = (b1 as u32) * 0x1000 + (b2 as u32) * 0x100 + (b3 as u32) * 0x10 + (
                b4 as u32);
                match char_from_u32(v) {
                    Some(ch) => {
                        proof {
                            vstd::utf8::char_u32_cast(ch, v);
                            assert(ch == v as char);
                        }
                        Ok((ch, p5))
                    },
                    None => Err(error_at(current, "Escape")),
                }
            },
            _ => Err(error_at(current, "Escape")),
        }
    }
}

/// One character of a string body: an escape after a backslash, a failure
/// at the closing quote, anything else itself.
pub struct Character;

impl Character {
    /// Parse the character production.
    pub fn parse(input: &Vec<char>, current: SimplePosition, context: &ParserContext) -> (r:
        Result<(char, SimplePosition), SimpleError>)
        requires
            pos_wf(input@, current),
        ensures
            match r {
                Ok((c, p)) => spec_character(input@, current) == Ok::<
                    (char, SimplePosition),
                    ErrorModel,
                >((c, p)) && pos_wf(input@, p) && current.index < p.index,
                Err(e) => spec_character(input@, current) == Err::<
                    (char, SimplePosition),
                    ErrorModel,
                >(e@),
            },
    {
        if (current.index as usize) >= input.len() {
            return Err(error_at(current, "Out of bounds").add_reason(current, "Character"));
        }
        let c = input[current.index as usize];
        let p1 = current.next(c);
        match c {
            '\\' => Escape::parse(input, p1, context),
            '"' => Err(error_at(current, "Character")),
            _ => Ok((c, p1)),
        }
    }
}

/// A string: a double quote, the longest run of characters, and the closing
/// double quote, yielding the characters between the quotes.
pub struct JsonString;

impl JsonString {
    /// Parse the string production.
    pub fn parse(input: &Vec<char>, current: SimplePosition, context: &ParserContext) -> (r:
        Result<(Vec<char>, SimplePosition), SimpleError>)
        requires
            pos_wf(input@, current),
        ensures
            match r {
                Ok((cs, p)) => spec_string(input@, current) == Ok::<
                    (Seq<char>, SimplePosition),
                    ErrorModel,
                >((cs@, p)) && pos_wf(input@, p) && current.index + 2 <= p.index,
                Err(e) => spec_string(input@, current) == Err::<
                    (Seq<char>, SimplePosition),
                    ErrorModel,
                >(e@),
            },
    {
        match DoubleQuoteChar::parse(input, current, context) {
            Err(e) => Err(e.add_reason(current, "Concat1").add_reason(current, "String")),
            Ok((_, p1)) => {
                let mut out: Vec<char> = Vec::new();
                let mut pos = p1;
                proof {
                    assert(Seq::<char>::empty() + spec_characters_run(input@, p1).0
                        =~= spec_characters_run(input@, p1).0);
                }
                loop
                    invariant
                        pos_wf(input@, pos),
                        pos_wf(input@, p1),
                        pos_wf(input@, current),
                        current.index < p1.index <= pos.index,
                        spec_string(input@, current) == ({
                            let (cs, p2) = spec_characters_run(input@, p1);
                            match spec_expect(input@, p2, |c: char| is_double_quote_char(c)) {
                                Err(e) => Err::<(Seq<char>, SimplePosition), ErrorModel>(
                                    e.push((p1, "Concat2"@)).push((current, "Concat2"@)).push(
                                        (current, "String"@),
                                    ),
                                ),
                                Ok((_, p3)) => Ok::<(Seq<char>, SimplePosition), ErrorModel>(
                                    (cs, p3),
                                ),
                            }
                        }),
                        spec_characters_run(input@, p1).0 == out@ + spec_characters_run(
                            input@,
                            pos,
                        ).0,
                        spec_characters_run(input@, p1).1 == spec_characters_run(input@, pos).1,
                    decreases input@.len() - pos.index,
                {
                    match Character::parse(input, pos, context) {
                        Ok((c, p)) => {
                            proof {
                                assert(spec_characters_run(input@, pos) == (
                                    seq![c] + spec_characters_run(input@, p).0,
                                    spec_characters_run(input@, p).1,
                                ));
                                assert(out@.push(c) + spec_characters_run(input@, p).0 =~= out@ + (
                                seq![c] + spec_characters_run(input@, p).0));
                            }
                            out.push(c);
                            pos = p;
                        },
                        Err(_) => {
                            proof {
                                assert(spec_characters_run(input@, pos) == (
                                    Seq::<char>::empty(),
                                    pos,
                                ));
                                assert(out@ + Seq::<char>::empty() =~= out@);
                            }
                            return match DoubleQuoteChar::parse(input, pos, context) {
                                Err(e) => Err(
                                    e.add_reason(p1, "Concat2").add_reason(
                                        current,
                                        "Concat2",
                                    ).add_reason(current, "String"),
                                ),
                                Ok((_, p3)) => Ok((out, p3)),
                            };
                        },
                    }
                }
            },
        }
    }
}

/// An object member: whitespace, the key string, whitespace, a colon, then
/// the value element.
pub struct Member;

impl Member {
    /// Parse the member production.
    pub fn parse(input: &Vec<char>, current: SimplePosition, context: &ParserContext) -> (r:
        Result<((Vec<char>, JsonValue), SimplePosition), SimpleError>)
        requires
            parse_wf(input@, current, *context),
        ensures
            match r {
                Ok((kv, p)) => spec_member(input@, current, *context) == Ok::<
                    ((Seq<char>, JsonModel), SimplePosition),
                    ErrorModel,
                >(((kv.0@, kv.1.model()), p)) && pos_wf(input@, p) && current.index < p.index,
                Err(e) => spec_member(input@, current, *context) == Err::<
                    ((Seq<char>, JsonModel), SimplePosition),
                    ErrorModel,
                >(e@),
            },
        decreases input@.len() - current.index, 3int,
    {
        let p1 = Whitespace::parse(input, current, context);
        match JsonString::parse(input, p1, context) {
            Err(e) => Err(e),
            Ok((key, p2)) => {
                let p3 = Whitespace::parse(input, p2, context);
                if (p3.index as usize) >= input.len() {
                    return Err(error_at(p3, "Out of bounds").add_reason(current, "Member"));
                }
                let c = input[p3.index as usize];
                let p4 = p3.next(c);
                if c == ':' {
                    match Element::parse(input, p4, context) {
                        Err(e) => Err(e),
                        Ok((v, p5)) => Ok(((key, v), p5)),
                    }
                } else {
                    let e = error_at(p4, "Character").add_reason(current, "Member");
                    proof {
                        assert(e@ =~= seq![
                            (p4, "Character"@),
                            (current, "Member"@),
                        ]);
                    }
                    Err(e)
                }
            },
        }
    }
}

/// An element: a value with whitespace on both sides.
pub struct Element;

impl Element {
    /// Parse the element production.
    pub fn parse(input: &Vec<char>, current: SimplePosition, context: &ParserContext) -> (r:
        Result<(JsonValue, SimplePosition), SimpleError>)
        requires
            parse_wf(input@, current, *context),
        ensures
            match r {
                Ok((v, p)) => spec_element(input@, current, *context) == Ok::<
                    (JsonModel, SimplePosition),
                    ErrorModel,
                >((v.model(), p)) && pos_wf(input@, p) && current.index < p.index,
                Err(e) => spec_element(input@, current, *context) == Err::<
                    (JsonModel, SimplePosition),
                    ErrorModel,
                >(e@),
            },
        decreases input@.len() - current.index, 2int,
    {
        let p1 = Whitespace::parse(input, current, context);
        match Value::parse(input, p1, context) {
            Err(e) => Err(e),
            Ok((v, p2)) => {
                let p3 = Whitespace::parse(input, p2, context);
                Ok((v, p3))
            },
        }
    }
}

/// A JSON value: object, array, string and number tried in that order with
/// full backtracking, then the `null`, `true` and `false` literals.
pub struct Value;

impl Value {
    /// Parse the value production.
    pub fn parse(input: &Vec<char>, current: SimplePosition, context: &ParserContext) -> (r:
        Result<(JsonValue, SimplePosition), SimpleError>)
        requires
            parse_wf(input@, current, *context),
        ensures
            match r {
                Ok((v, p)) => spec_value(input@, current, *context) == Ok::<
                    (JsonModel, SimplePosition),
                    ErrorModel,
                >((v.model(), p)) && pos_wf(input@, p) && current.index < p.index,
                Err(e) => spec_value(input@, current, *context) == Err::<
                    (JsonModel, SimplePosition),
                    ErrorModel,
                >(e@),
            },
        decreases input@.len() - current.index, 1int,
    {
        match Object::parse(input, current, context) {
            Ok((output, next)) => {
                return Ok((JsonValue::Object(output), next));
            },
            Err(_) => {},
        }
        match Array::parse(input, current, context) {
            Ok((output, next)) => {
                return Ok((JsonValue::Array(output), next));
            },
            Err(_) => {},
        }
        match JsonString::parse(input, current, context) {
            Ok((output, next)) => {
                return Ok((JsonValue::String(output), next));
            },
            Err(_) => {},
        }
        match Number::parse(input, current, context) {
            Ok((output, next)) => {
                return Ok((JsonValue::Number(output), next));
            },
            Err(_) => {},
        }
        let i = current.index as usize;
        if input.len() - i < 4 {
            return Err(error_at(current, "Out of bounds"));
        }
        let c0 = input[i];
        let c1 = input[i + 1];
        let c2 = input[i + 2];
        let c3 = input[i + 3];
        proof {
            reveal_with_fuel(spec_advance, 6);
        }
        if c0 == 'n' && c1 == 'u' && c2 == 'l' && c3 == 'l' {
            let p = current.next(c0).next(c1).next(c2).next(c3);
            proof {
                assert(p == spec_advance(input@, current, 4));
            }
            return Ok((JsonValue::Null, p));
        }
        if c0 == 't' && c1 == 'r' && c2 == 'u' && c3 == 'e' {
            let p = current.next(c0).next(c1).next(c2).next(c3);
            proof {
                assert(p == spec_advance(input@, current, 4));
            }
            return Ok((JsonValue::Boolean(true), p));
        }
        if input.len() - i < 5 {
            return Err(error_at(current, "Out of bounds"));
        }
        let c4 = input[i + 4];
        if c0 == 'f' && c1 == 'a' && c2 == 'l' && c3 == 's' && c4 == 'e' {
            let p = current.next(c0).next(c1).next(c2).next(c3).next(c4);
            proof {
                assert(p == spec_advance(input@, current, 5));
            }
            return Ok((JsonValue::Boolean(false), p));
        }
        Err(error_at(current, "Value"))
    }
}

/// An object: the nesting guard, an opening brace, members or whitespace,
/// and the closing brace.
pub struct Object;

impl Object {
    /// Parse the object production into its member list.
    pub fn parse(input: &Vec<char>, current: SimplePosition, context: &ParserContext) -> (r:
        Result<(JsonObject, SimplePosition), SimpleError>)
        requires
            parse_wf(input@, current, *context),
        ensures
            match r {
                Ok((obj, p)) => spec_object(input@, current, *context) == Ok::<
                    (Seq<(Seq<char>, JsonModel)>, SimplePosition),
                    ErrorModel,
                >((model_members(obj@), p)) && pos_wf(input@, p) && current.index < p.index,
                Err(e) => spec_object(input@, current, *context) == Err::<
                    (Seq<(Seq<char>, JsonModel)>, SimplePosition),
                    ErrorModel,
                >(e@),
            },
        decreases input@.len() - current.index, 0int,
    {
        let ctx2 = match context.nest(current) {
            Ok(c) => c,
            Err(e) => {
                return Err(e);
            },
        };
        match OpenCurlyBracketChar::parse(input, current, &ctx2) {
            Err(e) => Err(e),
            Ok((_, p1)) => match Members::parse(input, p1, &ctx2) {
                Ok((ms, p2)) => match CloseCurlyBracketChar::parse(input, p2, &ctx2) {
                    Ok((_, p3)) => Ok((ms, p3)),
                    Err(e) => Err(e),
                },
                Err(_) => {
                    let p2 = Whitespace::parse(input, p1, &ctx2);
                    match CloseCurlyBracketChar::parse(input, p2, &ctx2) {
                        Ok((_, p3)) => {
                            let empty: JsonObject = Vec::new();
                            proof {
                                assert(model_members(empty@) =~= Seq::<
                                    (Seq<char>, JsonModel),
                                >::empty());
                            }
                            Ok((empty, p3))
                        },
                        Err(e) => Err(e),
                    }
                },
            },
        }
    }
}

/// The member list of an object: one member, then any number of
/// comma-prefixed members.
pub struct Members;

impl Members {
    /// Parse the members production.
    pub fn parse(input: &Vec<char>, current: SimplePosition, context: &ParserContext) -> (r:
        Result<(Vec<(Vec<char>, JsonValue)>, SimplePosition), SimpleError>)
        requires
            parse_wf(input@, current, *context),
        ensures
            match r {
                Ok((ms, p)) => spec_members(input@, current, *context) == Ok::<
                    (Seq<(Seq<char>, JsonModel)>, SimplePosition),
                    ErrorModel,
                >((model_members(ms@), p)) && pos_wf(input@, p) && current.index < p.index,
                Err(e) => spec_members(input@, current, *context) == Err::<
                    (Seq<(Seq<char>, JsonModel)>, SimplePosition),
                    ErrorModel,
                >(e@),
            },
        decreases input@.len() - current.index, 4int,
    {
        match Member::parse(input, current, context) {
            Err(e) => Err(e),
            Ok((kv, p1)) => {
                let mut result: Vec<(Vec<char>, JsonValue)> = Vec::new();
                let ghost kv0 = (kv.0@, kv.1.model());
                result.push(kv);
                let mut pos = p1;
                proof {
                    assert(result@.subrange(0, 0) =~= Seq::<(Vec<char>, JsonValue)>::empty());
                    assert(model_members(Seq::<(Vec<char>, JsonValue)>::empty()) =~= Seq::<
                        (Seq<char>, JsonModel),
                    >::empty());
                    assert(model_members(result@) == model_members(result@.subrange(0, 0)).push(
                        (result@[0].0@, result@[0].1.model()),
                    ));
                    assert(model_members(result@) =~= seq![kv0]);
                    assert(spec_members(input@, current, *context) == Ok::<
                        (Seq<(Seq<char>, JsonModel)>, SimplePosition),
                        ErrorModel,
                    >(
                        (
                            seq![kv0] + spec_members_rest(input@, p1, *context).0,
                            spec_members_rest(input@, p1, *context).1,
                        ),
                    ));
                }
                loop
                    invariant
                        pos_wf(input@, pos),
                        context.nest_level <= pos.index,
                        current.index < p1.index <= pos.index,
                        spec_members(input@, current, *context) == Ok::<
                            (Seq<(Seq<char>, JsonModel)>, SimplePosition),
                            ErrorModel,
                        >(
                            (
                                seq![kv0] + spec_members_rest(input@, p1, *context).0,
                                spec_members_rest(input@, p1, *context).1,
                            ),
                        ),
                        seq![kv0] + spec_members_rest(input@, p1, *context).0 == model_members(
                            result@,
                        ) + spec_members_rest(input@, pos, *context).0,
                        spec_members_rest(input@, p1, *context).1 == spec_members_rest(
                            input@,
                            pos,
                            *context,
                        ).1,
                    decreases input@.len() - pos.index,
                {
                    let saved = pos;
                    match CommaChar::parse(input, pos, context) {
                        Err(_) => {
                            proof {
                                assert(spec_members_rest(input@, pos, *context) == (
                                    Seq::<(Seq<char>, JsonModel)>::empty(),
                                    pos,
                                ));
                                assert(model_members(result@) + Seq::<
                                    (Seq<char>, JsonModel),
                                >::empty() =~= model_members(result@));
                            }
                            return Ok((result, saved));
                        },
                        Ok((_, pc)) => {
                            match Member::parse(input, pc, context) {
                                Err(_) => {
                                    proof {
                                        assert(spec_members_rest(input@, pos, *context) == (
                                            Seq::<(Seq<char>, JsonModel)>::empty(),
                                            pos,
                                        ));
                                        assert(model_members(result@) + Seq::<
                                            (Seq<char>, JsonModel),
                                        >::empty() =~= model_members(result@));
                                    }
                                    return Ok((result, saved));
                                },
                                Ok((kv2, p2)) => {
                                    proof {
                                        let m2 = (kv2.0@, kv2.1.model());
                                        assert(spec_members_rest(input@, pos, *context) == (
                                            seq![m2] + spec_members_rest(input@, p2, *context).0,
                                            spec_members_rest(input@, p2, *context).1,
                                        ));
                                        assert(result@.push(kv2).subrange(
                                            0,
                                            result@.len() as int,
                                        ) =~= result@);
                                        assert(model_members(result@.push(kv2))
                                            == model_members(result@).push(m2));
                                        assert(model_members(result@).push(m2)
                                            + spec_members_rest(input@, p2, *context).0
                                            =~= model_members(result@) + (seq![m2]
                                            + spec_members_rest(input@, p2, *context).0));
                                    }
                                    result.push(kv2);
                                    pos = p2;
                                },
                            }
                        },
                    }
                }
            },
        }
    }
}

/// An array: the nesting guard, an opening bracket, elements or whitespace,
/// and the closing bracket.
pub struct Array;

impl Array {
    /// Parse the array production into its element list.
    pub fn parse(input: &Vec<char>, current: SimplePosition, context: &ParserContext) -> (r:
        Result<(Vec<JsonValue>, SimplePosition), SimpleError>)
        requires
            parse_wf(input@, current, *context),
        ensures
            match r {
                Ok((es, p)) => spec_array(input@, current, *context) == Ok::<
                    (Seq<JsonModel>, SimplePosition),
                    ErrorModel,
                >((model_elements(es@), p)) && pos_wf(input@, p) && current.index < p.index,
                Err(e) => spec_array(input@, current, *context) == Err::<
                    (Seq<JsonModel>, SimplePosition),
                    ErrorModel,
                >(e@),
            },
        decreases input@.len() - current.index, 0int,
    {
        let ctx2 = match context.nest(current) {
            Ok(c) => c,
            Err(e) => {
                return Err(e);
            },
        };
        match OpenSquareBracketChar::parse(input, current, &ctx2) {
            Err(e) => Err(e),
            Ok((_, p1)) => match Elements::parse(input, p1, &ctx2) {
                Ok((es, p2)) => match CloseSquareBracketChar::parse(input, p2, &ctx2) {
                    Ok((_, p3)) => Ok((es, p3)),
                    Err(e) => Err(e),
                },
                Err(_) => {
                    let p2 = Whitespace::parse(input, p1, &ctx2);
                    match CloseSquareBracketChar::parse(input, p2, &ctx2) {
                        Ok((_, p3)) => {
                            let empty: Vec<JsonValue> = Vec::new();
                            proof {
                                assert(model_elements(empty@) =~= Seq::<JsonModel>::empty());
                            }
                            Ok((empty, p3))
                        },
                        Err(e) => Err(e),
                    }
                },
            },
        }
    }
}

/// The element list of an array: one element, then any number of
/// comma-prefixed elements.
pub struct Elements;

impl Elements {
    /// Parse the elements production.
    pub fn parse(input: &Vec<char>, current: SimplePosition, context: &ParserContext) -> (r:
        Result<(Vec<JsonValue>, SimplePosition), SimpleError>)
        requires
            parse_wf(input@, current, *context),
        ensures
            match r {
                Ok((es, p)) => spec_elements(input@, current, *context) == Ok::<
                    (Seq<JsonModel>, SimplePosition),
                    ErrorModel,
                >((model_elements(es@), p)) && pos_wf(input@, p) && current.index < p.index,
                Err(e) => spec_elements(input@, current, *context) == Err::<
                    (Seq<JsonModel>, SimplePosition),
                    ErrorModel,
                >(e@),
            },
        decreases input@.len() - current.index, 4int,
    {
        match Element::parse(input, current, context) {
            Err(e) => Err(e),
            Ok((v, p1)) => {
                let mut result: Vec<JsonValue> = Vec::new();
                let ghost v0 = v.model();
                result.push(v);
                let mut pos = p1;
                proof {
                    assert(result@.subrange(0, 0) =~= Seq::<JsonValue>::empty());
                    assert(model_elements(Seq::<JsonValue>::empty()) =~= Seq::<JsonModel>::empty());
                    assert(model_elements(result@) == model_elements(result@.subrange(0, 0)).push(
                        result@[0].model(),
                    ));
                    assert(model_elements(result@) =~= seq![v0]);
                    assert(spec_elements(input@, current, *context) == Ok::<
                        (Seq<JsonModel>, SimplePosition),
                        ErrorModel,
                    >(
                        (
                            seq![v0] + spec_elements_rest(input@, p1, *context).0,
                            spec_elements_rest(input@, p1, *context).1,
                        ),
                    ));
                }
                loop
                    invariant
                        pos_wf(input@, pos),
                        context.nest_level <= pos.index,
                        current.index < p1.index <= pos.index,
                        spec_elements(input@, current, *context) == Ok::<
                            (Seq<JsonModel>, SimplePosition),
                            ErrorModel,
                        >(
                            (
                                seq![v0] + spec_elements_rest(input@, p1, *context).0,
                                spec_elements_rest(input@, p1, *context).1,
                            ),
                        ),
                        seq![v0] + spec_elements_rest(input@, p1, *context).0 == model_elements(
                            result@,
                        ) + spec_elements_rest(input@, pos, *context).0,
                        spec_elements_rest(input@, p1, *context).1 == spec_elements_rest(
                            input@,
                            pos,
                            *context,
                        ).1,
                    decreases input@.len() - pos.index,
                {
                    let saved = pos;
                    match CommaChar::parse(input, pos, context) {
                        Err(_) => {
                            proof {
                                assert(spec_elements_rest(input@, pos, *context) == (
                                    Seq::<JsonModel>::empty(),
                                    pos,
                                ));
                                assert(model_elements(result@) + Seq::<JsonModel>::empty()
                                    =~= model_elements(result@));
                            }
                            return Ok((result, saved));
                        },
                        Ok((_, pc)) => {
                            match Element::parse(input, pc, context) {
                                Err(_) => {
                                    proof {
                                        assert(spec_elements_rest(input@, pos, *context) == (
                                            Seq::<JsonModel>::empty(),
                                            pos,
                                        ));
                                        assert(model_elements(result@) + Seq::<
                                            JsonModel,
                                        >::empty() =~= model_elements(result@));
                                    }
                                    return Ok((result, saved));
                                },
                                Ok((v2, p2)) => {
                                    proof {
                                        let m2 = v2.model();
                                        assert(spec_elements_rest(input@, pos, *context) == (
                                            seq![m2] + spec_elements_rest(input@, p2, *context).0,
                                            spec_elements_rest(input@, p2, *context).1,
                                        ));
                                        assert(result@.push(v2).subrange(
                                            0,
                                            result@.len() as int,
                                        ) =~= result@);
                                        assert(model_elements(result@.push(v2))
                                            == model_elements(result@).push(m2));
                                        assert(model_elements(result@).push(m2)
                                            + spec_elements_rest(input@, p2, *context).0
                                            =~= model_elements(result@) + (seq![m2]
                                            + spec_elements_rest(input@, p2, *context).0));
                                    }
                                    result.push(v2);
                                    pos = p2;
                                },
                            }
                        },
                    }
                }
            },
        }
    }
}

/// A whole JSON document: an element with surrounding whitespace that must
/// reach the end of the input.
pub struct Json;

impl Json {
    /// Parse the whole-document production.
    pub fn parse(input: &Vec<char>, current: SimplePosition, context: &ParserContext) -> (r:
        Result<(JsonValue, SimplePosition), SimpleError>)
        requires
            parse_wf(input@, current, *context),
        ensures
            match r {
                Ok((v, p)) => spec_json(input@, current, *context) == Ok::<
                    (JsonModel, SimplePosition),
                    ErrorModel,
                >((v.model(), p)),
                Err(e) => spec_json(input@, current, *context) == Err::<
                    (JsonModel, SimplePosition),
                    ErrorModel,
                >(e@),
            },
    {
        let p1 = Whitespace::parse(input, current, context);
        match Element::parse(input, p1, context) {
            Err(e) => Err(e),
            Ok((v, p2)) => {
                let p3 = Whitespace::parse(input, p2, context);
                if (p3.index as usize) >= input.len() {
                    Ok((v, p3))
                } else {
                    Err(error_at(p3, "Expect end of input"))
                }
            },
        }
    }
}

/// The characters of `input`, in order.
fn str_to_chars(input: &str) -> (r: Vec<char>)
    ensures
        r@ == input@,
{
    let len = input.unicode_len();
    let mut out: Vec<char> = Vec::new();
    for i in 0..len
        invariant
            len == input@.len(),
            out@ =~= input@.subrange(0, i as int),
        decreases len - i,
    {
        out.push(input.get_char(i));
        proof {
            assert(out@ =~= input@.subrange(0, i + 1));
        }
    }
    proof {
        assert(input@.subrange(0, input@.len() as int) =~= input@);
    }
    out
}

/// Parse `input` as one JSON document with the given options: the value
/// tree, or the diagnostics of the first terminal failure.
pub fn parse_json_with_options(input: &str, options: ParserOptions) -> (r: Result<
    JsonValue,
    SimpleError,
>)
    requires
        input@.len() < u32::MAX,
    ensures
        match r {
            Ok(v) => spec_parse_json(input@, options) == Ok::<JsonModel, ErrorModel>(v.model()),
            Err(e) => spec_parse_json(input@, options) == Err::<JsonModel, ErrorModel>(e@),
        },
{
    let chars = str_to_chars(input);
    let pos0 = SimplePosition { index: 0, line: 0, column: 0 };
    let ctx = ParserContext::new(options);
    match Json::parse(&chars, pos0, &ctx) {
        Ok((v, _)) => Ok(v),
        Err(e) => Err(e),
    }
}

/// Parse `input` as one JSON document with the default hundred-level
/// nesting limit.
pub fn parse_json(input: &str) -> (r: Result<JsonValue, SimpleError>)
    requires
        input@.len() < u32::MAX,
    ensures
        match r {
            Ok(v) => spec_parse_json(input@, ParserOptions { max_nest_level: Some(100u32) })
                == Ok::<JsonModel, ErrorModel>(v.model()),
            Err(e) => spec_parse_json(input@, ParserOptions { max_nest_level: Some(100u32) })
                == Err::<JsonModel, ErrorModel>(e@),
        },
{
    parse_json_with_options(input, ParserOptions::default())
}

} // verus!
