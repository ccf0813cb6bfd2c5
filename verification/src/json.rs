//! The JSON value tree and its mathematical model.
//!
//! `JsonValue` is the executable tree; `JsonModel` is the same tree at the
//! specification level, with sequences in place of vectors.  Contracts all
//! over the crate speak of a value's model.
use crate::encoding::dec_digits;
use crate::encoding::lemma_dec_digits_shape;
use crate::encoding::lemma_encode_ascii;
use crate::encoding::lemma_encode_utf8_ascii;
use crate::encoding::lemma_encode_utf8_concat;
use crate::encoding::lemma_encode_utf8_one;
use crate::encoding::push_u64_digits;
use crate::encoding::push_utf8_char;
use crate::encoding::spaces;
use crate::encoding::zeros;
use crate::traits::Serialize;
use vstd::prelude::*;
use vstd::utf8::encode_scalar;
use vstd::utf8::encode_utf8;

verus! {

/// A JSON number kept as a lossless decomposed decimal: integer part,
/// fraction digits (with their count, so leading zeros survive), and a
/// decimal exponent.
#[derive(Clone, Copy, PartialEq, Eq, Structural, Debug)]
pub struct NumberValue {
    pub integer: i64,
    pub fraction: u64,
    pub fraction_length: u32,
    pub exponent: i32,
}

/// The members of a JSON object, in document order, duplicate keys kept.
pub type JsonObject = Vec<(Vec<char>, JsonValue)>;

/// A parsed JSON document: a tree of objects, arrays, strings, numbers,
/// booleans and null.  Objects are ordered member lists, not maps.
#[derive(Debug)]
pub enum JsonValue {
    Object(JsonObject),
    Array(Vec<JsonValue>),
    String(Vec<char>),
    Number(NumberValue),
    Boolean(bool),
    Null,
}

/// The specification-level value tree: `JsonValue` with every vector
/// replaced by a sequence.
pub enum JsonModel {
    Object(Seq<(Seq<char>, JsonModel)>),
    Array(Seq<JsonModel>),
    String(Seq<char>),
    Number(NumberValue),
    Boolean(bool),
    Null,
}

impl JsonValue {
    /// The mathematical model of this value.
    pub open spec fn model(self) -> JsonModel
        decreases self,
    {
        match self {
            JsonValue::Object(obj) => JsonModel::Object(model_members(obj@)),
            JsonValue::Array(arr) => JsonModel::Array(model_elements(arr@)),
            JsonValue::String(s) => JsonModel::String(s@),
            JsonValue::Number(n) => JsonModel::Number(n),
            JsonValue::Boolean(b) => JsonModel::Boolean(b),
            JsonValue::Null => JsonModel::Null,
        }
    }
}

/// The models of an object's members, in order.
pub open spec fn model_members(obj: Seq<(Vec<char>, JsonValue)>) -> Seq<(Seq<char>, JsonModel)>
    decreases obj,
{
    if obj.len() == 0 {
        Seq::empty()
    } else {
        model_members(obj.subrange(0, obj.len() - 1)).push(
            (obj[obj.len() - 1].0@, obj[obj.len() - 1].1.model()),
        )
    }
}

/// The models of an array's elements, in order.
pub open spec fn model_elements(arr: Seq<JsonValue>) -> Seq<JsonModel>
    decreases arr,
{
    if arr.len() == 0 {
        Seq::empty()
    } else {
        model_elements(arr.subrange(0, arr.len() - 1)).push(arr[arr.len() - 1].model())
    }
}

/// `model_members` keeps length and maps each member in place.
pub proof fn lemma_model_members(obj: Seq<(Vec<char>, JsonValue)>)
    ensures
        model_members(obj).len() == obj.len(),
        forall|i: int|
            0 <= i < obj.len() ==> model_members(obj)[i] == (obj[i].0@, obj[i].1.model()),
    decreases obj,
{
    if obj.len() > 0 {
        lemma_model_members(obj.subrange(0, obj.len() - 1));
        assert forall|i: int| 0 <= i < obj.len() implies model_members(obj)[i] == (
            obj[i].0@,
            obj[i].1.model(),
        ) by {
            if i < obj.len() - 1 {
                assert(obj.subrange(0, obj.len() - 1)[i] == obj[i]);
            }
        }
    }
}

/// `model_elements` keeps length and maps each element in place.
pub proof fn lemma_model_elements(arr: Seq<JsonValue>)
    ensures
        model_elements(arr).len() == arr.len(),
        forall|i: int| 0 <= i < arr.len() ==> model_elements(arr)[i] == arr[i].model(),
    decreases arr,
{
    if arr.len() > 0 {
        lemma_model_elements(arr.subrange(0, arr.len() - 1));
        assert forall|i: int| 0 <= i < arr.len() implies model_elements(arr)[i]
            == arr[i].model() by {
            if i < arr.len() - 1 {
                assert(arr.subrange(0, arr.len() - 1)[i] == arr[i]);
            }
        }
    }
}

/// Character-by-character equality of two character vectors.
pub fn eq_chars(a: &Vec<char>, b: &Vec<char>) -> (r: bool)
    ensures
        r == (a@ == b@),
{
    if a.len() != b.len() {
        proof {
            assert(a@ != b@) by {
                if a@ == b@ {
                    assert(a@.len() == b@.len());
                }
            }
        }
        return false;
    }
    for i in 0..a.len()
        invariant
            a@.len() == b@.len(),
            forall|j: int| 0 <= j < i ==> a@[j] == b@[j],
    {
        if a[i] != b[i] {
            return false;
        }
    }
    proof {
        assert(a@ =~= b@);
    }
    true
}

/// Structural equality of two values: equal exactly when the models are.
pub fn eq_value(a: &JsonValue, b: &JsonValue) -> (r: bool)
    ensures
        r == (a.model() == b.model()),
    decreases *a,
{
    match (a, b) {
        (JsonValue::Object(o1), JsonValue::Object(o2)) => {
            proof {
                lemma_model_members(o1@);
                lemma_model_members(o2@);
            }
            if o1.len() != o2.len() {
                return false;
            }
            for i in 0..o1.len()
                invariant
                    o1@.len() == o2@.len(),
                    a == JsonValue::Object(*o1),
                    b == JsonValue::Object(*o2),
                    model_members(o1@).len() == o1@.len(),
                    forall|j: int|
                        0 <= j < o1@.len() ==> model_members(o1@)[j] == (
                            o1@[j].0@,
                            o1@[j].1.model(),
                        ),
                    forall|j: int|
                        0 <= j < o2@.len() ==> model_members(o2@)[j] == (
                            o2@[j].0@,
                            o2@[j].1.model(),
                        ),
                    forall|j: int| 0 <= j < i ==> model_members(o1@)[j] == model_members(o2@)[j],
                decreases o1@.len() - i,
            {
                if !eq_chars(&o1[i].0, &o2[i].0) {
                    proof {
                        assert(model_members(o1@)[i as int] != model_members(o2@)[i as int]);
                        assert(model_members(o1@) != model_members(o2@));
                    }
                    return false;
                }
                if !eq_value(&o1[i].1, &o2[i].1) {
                    proof {
                        assert(model_members(o1@)[i as int] != model_members(o2@)[i as int]);
                        assert(model_members(o1@) != model_members(o2@));
                    }
                    return false;
                }
            }
            proof {
                assert(model_members(o1@) =~= model_members(o2@));
            }
            true
        },
        (JsonValue::Array(a1), JsonValue::Array(a2)) => {
            proof {
                lemma_model_elements(a1@);
                lemma_model_elements(a2@);
            }
            if a1.len() != a2.len() {
                return false;
            }
            for i in 0..a1.len()
                invariant
                    a1@.len() == a2@.len(),
                    a == JsonValue::Array(*a1),
                    b == JsonValue::Array(*a2),
                    forall|j: int|
                        0 <= j < a1@.len() ==> model_elements(a1@)[j] == a1@[j].model(),
                    forall|j: int|
                        0 <= j < a2@.len() ==> model_elements(a2@)[j] == a2@[j].model(),
                    model_elements(a1@).len() == a1@.len(),
                    model_elements(a2@).len() == a2@.len(),
                    forall|j: int| 0 <= j < i ==> model_elements(a1@)[j] == model_elements(a2@)[j],
                decreases a1@.len() - i,
            {
                if !eq_value(&a1[i], &a2[i]) {
                    proof {
                        assert(model_elements(a1@)[i as int] != model_elements(a2@)[i as int]);
                        assert(model_elements(a1@) != model_elements(a2@));
                    }
                    return false;
                }
            }
            proof {
                assert(model_elements(a1@) =~= model_elements(a2@));
            }
            true
        },
        (JsonValue::String(s1), JsonValue::String(s2)) => eq_chars(s1, s2),
        (JsonValue::Number(n1), JsonValue::Number(n2)) => n1 == n2,
        (JsonValue::Boolean(b1), JsonValue::Boolean(b2)) => b1 == b2,
        (JsonValue::Null, JsonValue::Null) => true,
        _ => false,
    }
}

/// The characters of the signed decimal rendering of `i`.
pub open spec fn int_chars(i: int) -> Seq<char> {
    if i < 0 {
        seq!['-'] + dec_digits((-i) as nat)
    } else {
        dec_digits(i as nat)
    }
}

/// The fraction part of a rendered number: nothing when the recorded digit
/// count is zero, else a dot and the fraction digits left-padded with zeros
/// to that count.
pub open spec fn fraction_chars(n: NumberValue) -> Seq<char> {
    if n.fraction_length > 0 {
        seq!['.'] + zeros((n.fraction_length - dec_digits(n.fraction as nat).len()) as nat)
            + dec_digits(n.fraction as nat)
    } else {
        Seq::empty()
    }
}

/// The exponent part of a rendered number: nothing when zero, else `e`, a
/// minus sign for negative exponents, and the absolute value's digits.
pub open spec fn exponent_chars(n: NumberValue) -> Seq<char> {
    if n.exponent != 0 {
        seq!['e'] + (if n.exponent < 0 {
            seq!['-']
        } else {
            Seq::empty()
        }) + dec_digits(
            (if n.exponent < 0 {
                -(n.exponent as int)
            } else {
                n.exponent as int
            }) as nat,
        )
    } else {
        Seq::empty()
    }
}

/// The full character rendering of a number.
pub open spec fn number_chars(n: NumberValue) -> Seq<char> {
    int_chars(n.integer as int) + fraction_chars(n) + exponent_chars(n)
}

/// The serializer can render `n`: the fraction has no more digits than its
/// recorded count, and the exponent's absolute value is representable.
pub open spec fn number_wf(n: NumberValue) -> bool {
    &&& (n.fraction_length > 0 ==> dec_digits(n.fraction as nat).len() <= n.fraction_length)
    &&& n.exponent != i32::MIN
}

impl Serialize for NumberValue {
    /// A number renders the same at every indentation.
    open spec fn ser_spec(&self, indent: u32, level: u32) -> Seq<u8> {
        encode_utf8(number_chars(*self))
    }

    open spec fn ser_req(&self, indent: u32, level: u32) -> bool {
        number_wf(*self)
    }

    #[verifier::rlimit(100)]
    fn serialize_to(&self, buffer: &mut Vec<u8>, indent: u32, level: u32) {
        let ghost buf0 = buffer@;
        if self.integer < 0 {
            push_utf8_char(buffer, '-');
            let magnitude = (-(self.integer as i128)) as u64;
            push_u64_digits(buffer, magnitude);
            proof {
                lemma_encode_ascii('-');
                lemma_encode_utf8_one('-');
                assert(seq!['-'] + dec_digits(magnitude as nat) =~= int_chars(
                    self.integer as int,
                ));
                lemma_encode_utf8_concat(seq!['-'], dec_digits(magnitude as nat));
                assert(buffer@ =~= buf0 + encode_utf8(int_chars(self.integer as int)));
            }
        } else {
            push_u64_digits(buffer, self.integer as u64);
            proof {
                assert(dec_digits((self.integer as u64) as nat) == int_chars(
                    self.integer as int,
                ));
            }
        }
        let ghost buf1 = buffer@;
        if self.fraction_length > 0 {
            push_utf8_char(buffer, '.');
            let mut digits: Vec<u8> = Vec::new();
            push_u64_digits(&mut digits, self.fraction);
            proof {
                lemma_dec_digits_shape(self.fraction as nat);
                lemma_encode_utf8_ascii(dec_digits(self.fraction as nat));
                assert(digits@.len() == dec_digits(self.fraction as nat).len());
            }
            let pad = self.fraction_length as usize - digits.len();
            let ghost buf2 = buffer@;
            for k in 0..pad
                invariant
                    buffer@ == buf2 + Seq::new(k as nat, |i: int| 48u8),
                decreases pad - k,
            {
                buffer.push(48);
                proof {
                    assert(buffer@ =~= buf2 + Seq::new((k + 1) as nat, |i: int| 48u8));
                }
            }
            buffer.append(&mut digits);
            proof {
                lemma_encode_ascii('.');
                lemma_encode_utf8_one('.');
                assert('0' as u32 == 48);
                lemma_encode_utf8_ascii(zeros(pad as nat));
                assert(encode_utf8(zeros(pad as nat)) =~= Seq::new(pad as nat, |i: int| 48u8));
                lemma_encode_utf8_concat(
                    seq!['.'] + zeros(pad as nat),
                    dec_digits(self.fraction as nat),
                );
                lemma_encode_utf8_concat(seq!['.'], zeros(pad as nat));
                assert(fraction_chars(*self) =~= (seq!['.'] + zeros(pad as nat)) + dec_digits(
                    self.fraction as nat,
                ));
                assert(buffer@ =~= buf1 + encode_utf8(fraction_chars(*self)));
            }
        } else {
            proof {
                assert(buf1 + encode_utf8(fraction_chars(*self)) =~= buf1);
            }
        }
        let ghost buf3 = buffer@;
        if self.exponent != 0 {
            push_utf8_char(buffer, 'e');
            let magnitude: u64 = if self.exponent < 0 {
                push_utf8_char(buffer, '-');
                (-self.exponent) as u64
            } else {
                self.exponent as u64
            };
            push_u64_digits(buffer, magnitude);
            proof {
                lemma_encode_utf8_one('e');
                lemma_encode_utf8_one('-');
                if self.exponent < 0 {
                    assert(exponent_chars(*self) =~= (seq!['e'] + seq!['-']) + dec_digits(
                        magnitude as nat,
                    ));
                    lemma_encode_utf8_concat(seq!['e'] + seq!['-'], dec_digits(magnitude as nat));
                    lemma_encode_utf8_concat(seq!['e'], seq!['-']);
                } else {
                    assert(exponent_chars(*self) =~= seq!['e'] + dec_digits(magnitude as nat));
                    lemma_encode_utf8_concat(seq!['e'], dec_digits(magnitude as nat));
                }
                assert(buffer@ =~= buf3 + encode_utf8(exponent_chars(*self)));
            }
        } else {
            proof {
                assert(buf3 + encode_utf8(exponent_chars(*self)) =~= buf3);
            }
        }
        proof {
            lemma_encode_utf8_concat(
                int_chars(self.integer as int) + fraction_chars(*self),
                exponent_chars(*self),
            );
            lemma_encode_utf8_concat(int_chars(self.integer as int), fraction_chars(*self));
            assert(number_chars(*self) =~= (int_chars(self.integer as int) + fraction_chars(
                *self,
            )) + exponent_chars(*self));
            assert(final(buffer)@ =~= old(buffer)@ + encode_utf8(number_chars(*self)));
        }
    }
}

/// The rendering of one string character: a two-character escape for the
/// seven escaped characters, the character itself otherwise.
pub open spec fn escape_char(c: char) -> Seq<char> {
    if c == '\u{8}' {
        seq!['\\', 'b']
    } else if c == '\u{c}' {
        seq!['\\', 'f']
    } else if c == '\n' {
        seq!['\\', 'n']
    } else if c == '\r' {
        seq!['\\', 'r']
    } else if c == '\t' {
        seq!['\\', 't']
    } else if c == '"' {
        seq!['\\', '"']
    } else if c == '\\' {
        seq!['\\', '\\']
    } else {
        seq![c]
    }
}

/// The renderings of all characters of a string body, in order.
pub open spec fn escape_chars(s: Seq<char>) -> Seq<char>
    decreases s.len(),
{
    if s.len() == 0 {
        Seq::empty()
    } else {
        escape_char(s[0]) + escape_chars(s.drop_first())
    }
}

/// The rendering of a string: the escaped body between double quotes.
pub open spec fn string_chars(s: Seq<char>) -> Seq<char> {
    seq!['"'] + escape_chars(s) + seq!['"']
}

/// Escaping distributes over concatenation.
pub proof fn lemma_escape_chars_concat(a: Seq<char>, b: Seq<char>)
    ensures
        escape_chars(a + b) == escape_chars(a) + escape_chars(b),
    decreases a.len(),
{
    if a.len() == 0 {
        assert(a + b =~= b);
        assert(escape_chars(a) + escape_chars(b) =~= escape_chars(b));
    } else {
        assert((a + b).drop_first() =~= a.drop_first() + b);
        lemma_escape_chars_concat(a.drop_first(), b);
        assert((a + b)[0] == a[0]);
        assert(escape_chars(a + b) =~= escape_chars(a) + escape_chars(b));
    }
}

/// Escaping a single character gives that character's rendering.
pub proof fn lemma_escape_chars_one(c: char)
    ensures
        escape_chars(seq![c]) == escape_char(c),
{
    assert(seq![c].len() == 1);
    assert(seq![c][0] == c);
    assert(seq![c].drop_first() =~= Seq::<char>::empty());
    assert(escape_chars(Seq::<char>::empty()) =~= Seq::<char>::empty());
    assert(escape_chars(seq![c]) == escape_char(c) + escape_chars(seq![c].drop_first()));
    assert(escape_chars(seq![c]) =~= escape_char(c));
}

/// The whitespace before an element or member in pretty mode: a newline
/// (only when indenting at all) and `indent * level` spaces.
pub open spec fn newline_indent_chars(indent: u32, level: u32) -> Seq<char> {
    (if indent > 0 {
        seq!['\n']
    } else {
        Seq::empty()
    }) + spaces((indent * level) as nat)
}

/// Append the rendering of the string `chars` to `buffer`, quotes included.
pub fn push_string(buffer: &mut Vec<u8>, chars: &Vec<char>)
    ensures
        final(buffer)@ == old(buffer)@ + encode_utf8(string_chars(chars@)),
{
    push_utf8_char(buffer, '"');
    let ghost buf0 = buffer@;
    for i in 0..chars.len()
        invariant
            buffer@ == buf0 + encode_utf8(escape_chars(chars@.subrange(0, i as int))),
        decreases chars@.len() - i,
    {
        let ghost bpre = buffer@;
        let c = chars[i];
        match c {
            '\u{8}' => {
                push_utf8_char(buffer, '\\');
                push_utf8_char(buffer, 'b');
            },
            '\u{c}' => {
                push_utf8_char(buffer, '\\');
                push_utf8_char(buffer, 'f');
            },
            '\n' => {
                push_utf8_char(buffer, '\\');
                push_utf8_char(buffer, 'n');
            },
            '\r' => {
                push_utf8_char(buffer, '\\');
                push_utf8_char(buffer, 'r');
            },
            '\t' => {
                push_utf8_char(buffer, '\\');
                push_utf8_char(buffer, 't');
            },
            '"' => {
                push_utf8_char(buffer, '\\');
                push_utf8_char(buffer, '"');
            },
            '\\' => {
                push_utf8_char(buffer, '\\');
                push_utf8_char(buffer, '\\');
            },
            _ => {
                push_utf8_char(buffer, c);
            },
        }
        proof {
            let esc = escape_char(c);
            assert(buffer@ =~= bpre + encode_utf8(esc)) by {
                if esc.len() == 2 {
                    lemma_encode_utf8_one(esc[0]);
                    lemma_encode_utf8_one(esc[1]);
                    lemma_encode_utf8_concat(seq![esc[0]], seq![esc[1]]);
                    assert(seq![esc[0]] + seq![esc[1]] =~= esc);
                } else {
                    lemma_encode_utf8_one(c);
                    assert(esc =~= seq![c]);
                }
            }
            assert(chars@.subrange(0, i + 1) =~= chars@.subrange(0, i as int) + seq![c]);
            lemma_escape_chars_concat(chars@.subrange(0, i as int), seq![c]);
            lemma_escape_chars_one(c);
            lemma_encode_utf8_concat(escape_chars(chars@.subrange(0, i as int)), esc);
            assert(buffer@ =~= buf0 + encode_utf8(escape_chars(chars@.subrange(0, i + 1))));
        }
    }
    push_utf8_char(buffer, '"');
    proof {
        assert(chars@.subrange(0, chars@.len() as int) =~= chars@);
        lemma_encode_utf8_one('"');
        lemma_encode_utf8_concat(seq!['"'], escape_chars(chars@));
        lemma_encode_utf8_concat(seq!['"'] + escape_chars(chars@), seq!['"']);
        assert(string_chars(chars@) =~= (seq!['"'] + escape_chars(chars@)) + seq!['"']);
        assert(final(buffer)@ =~= old(buffer)@ + encode_utf8(string_chars(chars@)));
    }
}

/// Append a newline and the indentation for `level` to `buffer`; nothing at
/// all in compact mode.
pub fn push_new_line_indent(buffer: &mut Vec<u8>, indent: u32, level: u32)
    requires
        indent * level <= u32::MAX,
    ensures
        final(buffer)@ == old(buffer)@ + encode_utf8(newline_indent_chars(indent, level)),
{
    if indent > 0 {
        push_utf8_char(buffer, '\n');
    }
    let ghost buf0 = buffer@;
    let count = (indent as usize) * (level as usize);
    buffer.reserve(count);
    for k in 0..count
        invariant
            buffer@ == buf0 + Seq::new(k as nat, |i: int| 32u8),
        decreases count - k,
    {
        buffer.push(32);
        proof {
            assert(buffer@ =~= buf0 + Seq::new((k + 1) as nat, |i: int| 32u8));
        }
    }
    proof {
        let n = (indent * level) as nat;
        assert(' ' as u32 == 32);
        lemma_encode_utf8_ascii(spaces(n));
        assert(encode_utf8(spaces(n)) =~= Seq::new(n, |i: int| 32u8));
        if indent > 0 {
            lemma_encode_utf8_one('\n');
            lemma_encode_utf8_concat(seq!['\n'], spaces(n));
        } else {
            assert(newline_indent_chars(indent, level) =~= spaces(n));
        }
        assert(final(buffer)@ =~= old(buffer)@ + encode_utf8(newline_indent_chars(indent, level)));
    }
}

/// The rendering of one object member: the quoted key, a colon, a space in
/// pretty mode, then the value at the given level.
pub open spec fn member_chars(kv: (Seq<char>, JsonModel), indent: u32, level: u32) -> Seq<char>
    decreases kv,
{
    string_chars(kv.0) + seq![':'] + (if indent > 0 {
        seq![' ']
    } else {
        Seq::empty()
    }) + value_chars(kv.1, indent, level)
}

/// The renderings of an object's members after the first, each preceded by a
/// comma and the indentation for `level`.
pub open spec fn members_tail_chars(
    ms: Seq<(Seq<char>, JsonModel)>,
    indent: u32,
    level: u32,
) -> Seq<char>
    decreases ms,
{
    if ms.len() == 0 {
        Seq::empty()
    } else {
        members_tail_chars(ms.subrange(0, ms.len() - 1), indent, level) + seq![',']
            + newline_indent_chars(indent, level) + member_chars(ms[ms.len() - 1], indent, level)
    }
}

/// The renderings of an array's elements after the first, each preceded by a
/// comma and the indentation for `level`.
pub open spec fn elements_tail_chars(es: Seq<JsonModel>, indent: u32, level: u32) -> Seq<char>
    decreases es,
{
    if es.len() == 0 {
        Seq::empty()
    } else {
        elements_tail_chars(es.subrange(0, es.len() - 1), indent, level) + seq![',']
            + newline_indent_chars(indent, level) + value_chars(es[es.len() - 1], indent, level)
    }
}

/// The full rendering of a value at nesting `level`: empty containers close
/// at once; non-empty ones put each member or element behind the
/// indentation one level deeper and re-indent before the closing bracket.
pub open spec fn value_chars(m: JsonModel, indent: u32, level: u32) -> Seq<char>
    decreases m,
{
    match m {
        JsonModel::Object(ms) => if ms.len() == 0 {
            seq!['{', '}']
        } else {
            seq!['{'] + newline_indent_chars(indent, (level + 1) as u32) + member_chars(
                ms[0],
                indent,
                (level + 1) as u32,
            ) + members_tail_chars(ms.subrange(1, ms.len() as int), indent, (level + 1) as u32)
                + newline_indent_chars(indent, level) + seq!['}']
        },
        JsonModel::Array(es) => if es.len() == 0 {
            seq!['[', ']']
        } else {
            seq!['['] + newline_indent_chars(indent, (level + 1) as u32) + value_chars(
                es[0],
                indent,
                (level + 1) as u32,
            ) + elements_tail_chars(es.subrange(1, es.len() as int), indent, (level + 1) as u32)
                + newline_indent_chars(indent, level) + seq![']']
        },
        JsonModel::String(s) => string_chars(s),
        JsonModel::Number(n) => number_chars(n),
        JsonModel::Boolean(b) => if b {
            seq!['t', 'r', 'u', 'e']
        } else {
            seq!['f', 'a', 'l', 's', 'e']
        },
        JsonModel::Null => seq!['n', 'u', 'l', 'l'],
    }
}

/// Nesting depth of a value: zero at the leaves, one more per container.
pub open spec fn model_depth(m: JsonModel) -> nat
    decreases m,
{
    match m {
        JsonModel::Object(ms) => 1 + members_depth(ms),
        JsonModel::Array(es) => 1 + elements_depth(es),
        _ => 0,
    }
}

/// The largest depth among an object's member values.
pub open spec fn members_depth(ms: Seq<(Seq<char>, JsonModel)>) -> nat
    decreases ms,
{
    if ms.len() == 0 {
        0
    } else {
        let rest = members_depth(ms.subrange(0, ms.len() - 1));
        let last = model_depth(ms[ms.len() - 1].1);
        if last > rest {
            last
        } else {
            rest
        }
    }
}

/// The largest depth among an array's elements.
pub open spec fn elements_depth(es: Seq<JsonModel>) -> nat
    decreases es,
{
    if es.len() == 0 {
        0
    } else {
        let rest = elements_depth(es.subrange(0, es.len() - 1));
        let last = model_depth(es[es.len() - 1]);
        if last > rest {
            last
        } else {
            rest
        }
    }
}

/// Every number in the tree satisfies `number_wf`.
pub open spec fn model_numbers_wf(m: JsonModel) -> bool
    decreases m,
{
    match m {
        JsonModel::Object(ms) => members_numbers_wf(ms),
        JsonModel::Array(es) => elements_numbers_wf(es),
        JsonModel::Number(n) => number_wf(n),
        _ => true,
    }
}

/// Every number under an object's members satisfies `number_wf`.
pub open spec fn members_numbers_wf(ms: Seq<(Seq<char>, JsonModel)>) -> bool
    decreases ms,
{
    if ms.len() == 0 {
        true
    } else {
        members_numbers_wf(ms.subrange(0, ms.len() - 1)) && model_numbers_wf(ms[ms.len() - 1].1)
    }
}

/// Every number under an array's elements satisfies `number_wf`.
pub open spec fn elements_numbers_wf(es: Seq<JsonModel>) -> bool
    decreases es,
{
    if es.len() == 0 {
        true
    } else {
        elements_numbers_wf(es.subrange(0, es.len() - 1)) && model_numbers_wf(es[es.len() - 1])
    }
}

/// Each member value stays within the members' joint depth, and inherits
/// their joint number well-formedness.
pub proof fn lemma_members_child(ms: Seq<(Seq<char>, JsonModel)>)
    ensures
        forall|i: int|
            0 <= i < ms.len() ==> model_depth(#[trigger] ms[i].1) <= members_depth(ms),
        members_numbers_wf(ms) ==> forall|i: int|
            0 <= i < ms.len() ==> model_numbers_wf(#[trigger] ms[i].1),
    decreases ms,
{
    if ms.len() > 0 {
        lemma_members_child(ms.subrange(0, ms.len() - 1));
        assert forall|i: int|
            0 <= i < ms.len() implies model_depth(#[trigger] ms[i].1) <= members_depth(ms) by {
            if i < ms.len() - 1 {
                assert(ms.subrange(0, ms.len() - 1)[i] == ms[i]);
            }
        }
        if members_numbers_wf(ms) {
            assert forall|i: int|
                0 <= i < ms.len() implies model_numbers_wf(#[trigger] ms[i].1) by {
                if i < ms.len() - 1 {
                    assert(ms.subrange(0, ms.len() - 1)[i] == ms[i]);
                }
            }
        }
    }
}

/// Each element stays within the elements' joint depth, and inherits their
/// joint number well-formedness.
pub proof fn lemma_elements_child(es: Seq<JsonModel>)
    ensures
        forall|i: int| 0 <= i < es.len() ==> model_depth(#[trigger] es[i]) <= elements_depth(es),
        elements_numbers_wf(es) ==> forall|i: int|
            0 <= i < es.len() ==> model_numbers_wf(#[trigger] es[i]),
    decreases es,
{
    if es.len() > 0 {
        lemma_elements_child(es.subrange(0, es.len() - 1));
        assert forall|i: int|
            0 <= i < es.len() implies model_depth(#[trigger] es[i]) <= elements_depth(es) by {
            if i < es.len() - 1 {
                assert(es.subrange(0, es.len() - 1)[i] == es[i]);
            }
        }
        if elements_numbers_wf(es) {
            assert forall|i: int| 0 <= i < es.len() implies model_numbers_wf(#[trigger] es[i]) by {
                if i < es.len() - 1 {
                    assert(es.subrange(0, es.len() - 1)[i] == es[i]);
                }
            }
        }
    }
}

/// Indentation arithmetic stays in bounds at any depth below the bound that
/// the caller of the serializer established.
pub proof fn lemma_indent_bound(indent: u32, level: u32, d1: nat, d2: nat)
    requires
        d1 <= d2,
        level + d2 <= u32::MAX,
        indent * (level + d2) <= u32::MAX,
    ensures
        indent * (level + d1) <= u32::MAX,
{
    assert(indent * (level + d1) <= indent * (level + d2)) by (nonlinear_arith)
        requires
            d1 <= d2,
    ;
}

/// Append the rendering of `value` at nesting `level` to `buffer`.
///
/// The caller guarantees that the numbers in the tree are renderable and
/// that level and indentation arithmetic stays within `u32`.
#[verifier::rlimit(80)]
pub fn serialize_value(value: &JsonValue, buffer: &mut Vec<u8>, indent: u32, level: u32)
    requires
        model_numbers_wf(value.model()),
        level + model_depth(value.model()) <= u32::MAX,
        indent * (level + model_depth(value.model())) <= u32::MAX,
    ensures
        final(buffer)@ == old(buffer)@ + encode_utf8(value_chars(value.model(), indent, level)),
    decreases *value,
{
    let ghost m = value.model();
    let ghost buf0 = buffer@;
    match value {
        JsonValue::Object(obj) => {
            let ghost ms = model_members(obj@);
            proof {
                lemma_model_members(obj@);
                lemma_members_child(ms);
            }
            push_utf8_char(buffer, '{');
            if obj.len() > 0 {
                proof {
                    lemma_indent_bound(indent, level, 1, model_depth(m));
                    lemma_indent_bound(indent, level, 0, model_depth(m));
                }
                let ghost lvl1 = (level + 1) as u32;
                push_new_line_indent(buffer, indent, level + 1);
                push_string(buffer, &obj[0].0);
                push_utf8_char(buffer, ':');
                if indent > 0 {
                    push_utf8_char(buffer, ' ');
                }
                proof {
                    lemma_indent_bound(indent, level, 1 + model_depth(ms[0].1), model_depth(m));
                }
                serialize_value(&obj[0].1, buffer, indent, level + 1);
                let ghost head = seq!['{'] + newline_indent_chars(indent, lvl1) + member_chars(
                    ms[0],
                    indent,
                    lvl1,
                );
                proof {
                    lemma_encode_utf8_one('{');
                    lemma_encode_utf8_one(':');
                    lemma_encode_utf8_one(' ');
                    let sp: Seq<char> = if indent > 0 {
                        seq![' ']
                    } else {
                        Seq::empty()
                    };
                    assert(encode_utf8(sp).len() == if indent > 0 {
                        1int
                    } else {
                        0int
                    }) by {
                        if indent > 0 {
                            lemma_encode_utf8_one(' ');
                            lemma_encode_ascii(' ');
                        }
                    }
                    lemma_encode_utf8_concat(string_chars(ms[0].0), seq![':']);
                    lemma_encode_utf8_concat(string_chars(ms[0].0) + seq![':'], sp);
                    lemma_encode_utf8_concat(
                        string_chars(ms[0].0) + seq![':'] + sp,
                        value_chars(ms[0].1, indent, lvl1),
                    );
                    assert(member_chars(ms[0], indent, lvl1) =~= string_chars(ms[0].0) + seq![':']
                        + sp + value_chars(ms[0].1, indent, lvl1));
                    lemma_encode_utf8_concat(seq!['{'], newline_indent_chars(indent, lvl1));
                    lemma_encode_utf8_concat(
                        seq!['{'] + newline_indent_chars(indent, lvl1),
                        member_chars(ms[0], indent, lvl1),
                    );
                    assert(head =~= (seq!['{'] + newline_indent_chars(indent, lvl1))
                        + member_chars(ms[0], indent, lvl1));
                    assert(buffer@ =~= buf0 + encode_utf8(head));
                    assert(ms.subrange(1, 1) =~= Seq::<(Seq<char>, JsonModel)>::empty());
                    assert(buffer@ =~= buf0 + encode_utf8(
                        head + members_tail_chars(ms.subrange(1, 1), indent, lvl1),
                    )) by {
                        assert(head + members_tail_chars(ms.subrange(1, 1), indent, lvl1)
                            =~= head);
                    }
                }
                let len = obj.len();
                for i in 1..len
                    invariant
                        1 <= i <= len,
                        len == obj@.len(),
                        value == JsonValue::Object(*obj),
                        m == value.model(),
                        ms == model_members(obj@),
                        ms.len() == obj@.len(),
                        forall|j: int|
                            0 <= j < obj@.len() ==> ms[j] == (obj@[j].0@, obj@[j].1.model()),
                        forall|j: int|
                            0 <= j < ms.len() ==> model_depth(#[trigger] ms[j].1)
                                <= members_depth(ms),
                        forall|j: int|
                            0 <= j < ms.len() ==> model_numbers_wf(#[trigger] ms[j].1),
                        model_depth(m) == 1 + members_depth(ms),
                        level + model_depth(m) <= u32::MAX,
                        indent * (level + model_depth(m)) <= u32::MAX,
                        lvl1 == (level + 1) as u32,
                        buffer@ == buf0 + encode_utf8(
                            head + members_tail_chars(ms.subrange(1, i as int), indent, lvl1),
                        ),
                    decreases len - i,
                {
                    let ghost done = head + members_tail_chars(
                        ms.subrange(1, i as int),
                        indent,
                        lvl1,
                    );
                    push_utf8_char(buffer, ',');
                    proof {
                        lemma_indent_bound(indent, level, 1, model_depth(m));
                    }
                    push_new_line_indent(buffer, indent, level + 1);
                    push_string(buffer, &obj[i].0);
                    push_utf8_char(buffer, ':');
                    if indent > 0 {
                        push_utf8_char(buffer, ' ');
                    }
                    proof {
                        lemma_indent_bound(
                            indent,
                            level,
                            1 + model_depth(ms[i as int].1),
                            model_depth(m),
                        );
                    }
                    serialize_value(&obj[i].1, buffer, indent, level + 1);
                    proof {
                        lemma_encode_utf8_one(',');
                        lemma_encode_utf8_one(':');
                        let sp: Seq<char> = if indent > 0 {
                            seq![' ']
                        } else {
                            Seq::empty()
                        };
                        if indent > 0 {
                            lemma_encode_utf8_one(' ');
                        }
                        let mc = member_chars(ms[i as int], indent, lvl1);
                        assert(mc =~= string_chars(ms[i as int].0) + seq![':'] + sp + value_chars(
                            ms[i as int].1,
                            indent,
                            lvl1,
                        ));
                        lemma_encode_utf8_concat(string_chars(ms[i as int].0), seq![':']);
                        lemma_encode_utf8_concat(string_chars(ms[i as int].0) + seq![':'], sp);
                        lemma_encode_utf8_concat(
                            string_chars(ms[i as int].0) + seq![':'] + sp,
                            value_chars(ms[i as int].1, indent, lvl1),
                        );
                        lemma_encode_utf8_concat(done, seq![',']);
                        lemma_encode_utf8_concat(done + seq![','], newline_indent_chars(indent, lvl1));
                        lemma_encode_utf8_concat(
                            done + seq![','] + newline_indent_chars(indent, lvl1),
                            mc,
                        );
                        assert(buffer@ =~= buf0 + encode_utf8(
                            done + seq![','] + newline_indent_chars(indent, lvl1) + mc,
                        ));
                        let sub1 = ms.subrange(1, i + 1);
                        assert(sub1.subrange(0, sub1.len() - 1) =~= ms.subrange(1, i as int));
                        assert(sub1[sub1.len() - 1] == ms[i as int]);
                        assert(members_tail_chars(sub1, indent, lvl1) == members_tail_chars(
                            ms.subrange(1, i as int),
                            indent,
                            lvl1,
                        ) + seq![','] + newline_indent_chars(indent, lvl1) + mc);
                        assert(head + members_tail_chars(sub1, indent, lvl1) =~= done + seq![',']
                            + newline_indent_chars(indent, lvl1) + mc);
                    }
                }
                push_new_line_indent(buffer, indent, level);
                push_utf8_char(buffer, '}');
                proof {
                    lemma_encode_utf8_one('}');
                    let tail = members_tail_chars(
                        ms.subrange(1, ms.len() as int),
                        indent,
                        lvl1,
                    );
                    lemma_encode_utf8_concat(head + tail, newline_indent_chars(indent, level));
                    lemma_encode_utf8_concat(
                        head + tail + newline_indent_chars(indent, level),
                        seq!['}'],
                    );
                    assert(value_chars(m, indent, level) =~= head + tail + newline_indent_chars(
                        indent,
                        level,
                    ) + seq!['}']);
                    assert(buffer@ =~= buf0 + encode_utf8(value_chars(m, indent, level)));
                }
            } else {
                push_utf8_char(buffer, '}');
                proof {
                    lemma_encode_utf8_one('{');
                    lemma_encode_utf8_one('}');
                    lemma_encode_utf8_concat(seq!['{'], seq!['}']);
                    assert(ms.len() == 0);
                    assert(value_chars(m, indent, level) =~= seq!['{'] + seq!['}']);
                    assert(buffer@ =~= buf0 + encode_utf8(value_chars(m, indent, level)));
                }
            }
        },
        JsonValue::Array(arr) => {
            let ghost es = model_elements(arr@);
            proof {
                lemma_model_elements(arr@);
                lemma_elements_child(es);
            }
            push_utf8_char(buffer, '[');
            if arr.len() > 0 {
                proof {
                    lemma_indent_bound(indent, level, 1, model_depth(m));
                    lemma_indent_bound(indent, level, 0, model_depth(m));
                }
                let ghost lvl1 = (level + 1) as u32;
                push_new_line_indent(buffer, indent, level + 1);
                proof {
                    lemma_indent_bound(indent, level, 1 + model_depth(es[0]), model_depth(m));
                }
                serialize_value(&arr[0], buffer, indent, level + 1);
                let ghost head = seq!['['] + newline_indent_chars(indent, lvl1) + value_chars(
                    es[0],
                    indent,
                    lvl1,
                );
                proof {
                    lemma_encode_utf8_one('[');
                    lemma_encode_utf8_concat(seq!['['], newline_indent_chars(indent, lvl1));
                    lemma_encode_utf8_concat(
                        seq!['['] + newline_indent_chars(indent, lvl1),
                        value_chars(es[0], indent, lvl1),
                    );
                    assert(head =~= (seq!['['] + newline_indent_chars(indent, lvl1)) + value_chars(
                        es[0],
                        indent,
                        lvl1,
                    ));
                    assert(buffer@ =~= buf0 + encode_utf8(head));
                    assert(es.subrange(1, 1) =~= Seq::<JsonModel>::empty());
                    assert(buffer@ =~= buf0 + encode_utf8(
                        head + elements_tail_chars(es.subrange(1, 1), indent, lvl1),
                    )) by {
                        assert(head + elements_tail_chars(es.subrange(1, 1), indent, lvl1)
                            =~= head);
                    }
                }
                let len = arr.len();
                for i in 1..len
                    invariant
                        1 <= i <= len,
                        len == arr@.len(),
                        value == JsonValue::Array(*arr),
                        m == value.model(),
                        es == model_elements(arr@),
                        es.len() == arr@.len(),
                        forall|j: int| 0 <= j < arr@.len() ==> es[j] == arr@[j].model(),
                        forall|j: int|
                            0 <= j < es.len() ==> model_depth(#[trigger] es[j]) <= elements_depth(
                                es,
                            ),
                        forall|j: int| 0 <= j < es.len() ==> model_numbers_wf(#[trigger] es[j]),
                        model_depth(m) == 1 + elements_depth(es),
                        level + model_depth(m) <= u32::MAX,
                        indent * (level + model_depth(m)) <= u32::MAX,
                        lvl1 == (level + 1) as u32,
                        buffer@ == buf0 + encode_utf8(
                            head + elements_tail_chars(es.subrange(1, i as int), indent, lvl1),
                        ),
                    decreases len - i,
                {
                    let ghost done = head + elements_tail_chars(
                        es.subrange(1, i as int),
                        indent,
                        lvl1,
                    );
                    push_utf8_char(buffer, ',');
                    proof {
                        lemma_indent_bound(indent, level, 1, model_depth(m));
                    }
                    push_new_line_indent(buffer, indent, level + 1);
                    proof {
                        lemma_indent_bound(
                            indent,
                            level,
                            1 + model_depth(es[i as int]),
                            model_depth(m),
                        );
                    }
                    serialize_value(&arr[i], buffer, indent, level + 1);
                    proof {
                        lemma_encode_utf8_one(',');
                        let vc = value_chars(es[i as int], indent, lvl1);
                        lemma_encode_utf8_concat(done, seq![',']);
                        lemma_encode_utf8_concat(done + seq![','], newline_indent_chars(indent, lvl1));
                        lemma_encode_utf8_concat(
                            done + seq![','] + newline_indent_chars(indent, lvl1),
                            vc,
                        );
                        assert(buffer@ =~= buf0 + encode_utf8(
                            done + seq![','] + newline_indent_chars(indent, lvl1) + vc,
                        ));
                        let sub1 = es.subrange(1, i + 1);
                        assert(sub1.subrange(0, sub1.len() - 1) =~= es.subrange(1, i as int));
                        assert(sub1[sub1.len() - 1] == es[i as int]);
                        assert(elements_tail_chars(sub1, indent, lvl1) == elements_tail_chars(
                            es.subrange(1, i as int),
                            indent,
                            lvl1,
                        ) + seq![','] + newline_indent_chars(indent, lvl1) + vc);
                        assert(head + elements_tail_chars(sub1, indent, lvl1) =~= done + seq![',']
                            + newline_indent_chars(indent, lvl1) + vc);
                    }
                }
                push_new_line_indent(buffer, indent, level);
                push_utf8_char(buffer, ']');
                proof {
                    lemma_encode_utf8_one(']');
                    let tail = elements_tail_chars(
                        es.subrange(1, es.len() as int),
                        indent,
                        lvl1,
                    );
                    lemma_encode_utf8_concat(head + tail, newline_indent_chars(indent, level));
                    lemma_encode_utf8_concat(
                        head + tail + newline_indent_chars(indent, level),
                        seq![']'],
                    );
                    assert(value_chars(m, indent, level) =~= head + tail + newline_indent_chars(
                        indent,
                        level,
                    ) + seq![']']);
                    assert(buffer@ =~= buf0 + encode_utf8(value_chars(m, indent, level)));
                }
            } else {
                push_utf8_char(buffer, ']');
                proof {
                    lemma_encode_utf8_one('[');
                    lemma_encode_utf8_one(']');
                    lemma_encode_utf8_concat(seq!['['], seq![']']);
                    assert(es.len() == 0);
                    assert(value_chars(m, indent, level) =~= seq!['['] + seq![']']);
                    assert(buffer@ =~= buf0 + encode_utf8(value_chars(m, indent, level)));
                }
            }
        },
        JsonValue::String(s) => {
            push_string(buffer, s);
        },
        JsonValue::Number(n) => {
            n.serialize_to(buffer, indent, level);
        },
        JsonValue::Boolean(b) => {
            if *b {
                push_utf8_char(buffer, 't');
                push_utf8_char(buffer, 'r');
                push_utf8_char(buffer, 'u');
                push_utf8_char(buffer, 'e');
                proof {
                    lemma_encode_utf8_ascii(seq!['t', 'r', 'u', 'e']);
                    lemma_encode_ascii('t');
                    lemma_encode_ascii('r');
                    lemma_encode_ascii('u');
                    lemma_encode_ascii('e');
                    assert(buffer@ =~= buf0 + encode_utf8(seq!['t', 'r', 'u', 'e']));
                }
            } else {
                push_utf8_char(buffer, 'f');
                push_utf8_char(buffer, 'a');
                push_utf8_char(buffer, 'l');
                push_utf8_char(buffer, 's');
                push_utf8_char(buffer, 'e');
                proof {
                    lemma_encode_utf8_ascii(seq!['f', 'a', 'l', 's', 'e']);
                    lemma_encode_ascii('f');
                    lemma_encode_ascii('a');
                    lemma_encode_ascii('l');
                    lemma_encode_ascii('s');
                    lemma_encode_ascii('e');
                    assert(buffer@ =~= buf0 + encode_utf8(seq!['f', 'a', 'l', 's', 'e']));
                }
            }
        },
        JsonValue::Null => {
            push_utf8_char(buffer, 'n');
            push_utf8_char(buffer, 'u');
            push_utf8_char(buffer, 'l');
            push_utf8_char(buffer, 'l');
            proof {
                lemma_encode_utf8_ascii(seq!['n', 'u', 'l', 'l']);
                lemma_encode_ascii('n');
                lemma_encode_ascii('u');
                lemma_encode_ascii('l');
                assert(buffer@ =~= buf0 + encode_utf8(seq!['n', 'u', 'l', 'l']));
            }
        },
    }
}

impl Serialize for JsonValue {
    /// The UTF-8 bytes of the value's character rendering.
    open spec fn ser_spec(&self, indent: u32, level: u32) -> Seq<u8> {
        encode_utf8(value_chars(self.model(), indent, level))
    }

    open spec fn ser_req(&self, indent: u32, level: u32) -> bool {
        &&& model_numbers_wf(self.model())
        &&& level + model_depth(self.model()) <= u32::MAX
        &&& indent * (level + model_depth(self.model())) <= u32::MAX
    }

    fn serialize_to(&self, buffer: &mut Vec<u8>, indent: u32, level: u32) {
        serialize_value(self, buffer, indent, level);
    }
}

impl PartialEq for JsonValue {
    fn eq(&self, other: &JsonValue) -> (r: bool) {
        eq_value(self, other)
    }
}

impl vstd::std_specs::cmp::PartialEqSpecImpl for JsonValue {
    open spec fn obeys_eq_spec() -> bool {
        true
    }

    open spec fn eq_spec(&self, other: &JsonValue) -> bool {
        self.model() == other.model()
    }
}

} // verus!
