//! Rendering helpers shared by the serializer: decimal digit sequences,
//! repeated padding characters, and UTF-8 output of single characters, each
//! proved against the mathematical encoding functions.
use vstd::prelude::*;
use vstd::utf8::encode_scalar;
use vstd::utf8::encode_utf8;

verus! {

broadcast use vstd::utf8::char_is_scalar;

/// The decimal digit character for `d`.
pub open spec fn digit_char(d: int) -> char {
    if d == 0 {
        '0'
    } else if d == 1 {
        '1'
    } else if d == 2 {
        '2'
    } else if d == 3 {
        '3'
    } else if d == 4 {
        '4'
    } else if d == 5 {
        '5'
    } else if d == 6 {
        '6'
    } else if d == 7 {
        '7'
    } else if d == 8 {
        '8'
    } else {
        '9'
    }
}

/// The decimal digits of `n`, most significant first, with no leading zeros.
pub open spec fn dec_digits(n: nat) -> Seq<char>
    decreases n,
{
    if n < 10 {
        seq![digit_char(n as int)]
    } else {
        dec_digits(n / 10).push(digit_char((n % 10) as int))
    }
}

/// `n` zero characters.
pub open spec fn zeros(n: nat) -> Seq<char> {
    Seq::new(n, |i: int| '0')
}

/// `n` space characters.
pub open spec fn spaces(n: nat) -> Seq<char> {
    Seq::new(n, |i: int| ' ')
}

/// Ten to the power `k`.
pub open spec fn pow10(k: nat) -> nat
    decreases k,
{
    if k == 0 {
        1
    } else {
        10 * pow10((k - 1) as nat)
    }
}

/// Every decimal digit sequence is non-empty, made of digit characters, and
/// starts without a zero unless it is exactly "0".
pub proof fn lemma_dec_digits_shape(n: nat)
    ensures
        dec_digits(n).len() >= 1,
        forall|i: int|
            0 <= i < dec_digits(n).len() ==> '0' <= #[trigger] dec_digits(n)[i] <= '9',
        n >= 1 ==> dec_digits(n)[0] != '0',
        n < 10 ==> dec_digits(n) == seq![digit_char(n as int)],
    decreases n,
{
    if n >= 10 {
        lemma_dec_digits_shape(n / 10);
    }
}

/// UTF-8 encoding distributes over concatenation.
pub proof fn lemma_encode_utf8_concat(a: Seq<char>, b: Seq<char>)
    ensures
        encode_utf8(a + b) == encode_utf8(a) + encode_utf8(b),
    decreases a.len(),
{
    if a.len() == 0 {
        assert(a + b =~= b);
        assert(encode_utf8(a) + encode_utf8(b) =~= encode_utf8(b));
    } else {
        assert((a + b).drop_first() =~= a.drop_first() + b);
        lemma_encode_utf8_concat(a.drop_first(), b);
        assert((a + b)[0] == a[0]);
        assert(encode_utf8(a + b) =~= encode_utf8(a) + encode_utf8(b));
    }
}

/// A single character encodes to the encoding of its code point.
pub proof fn lemma_encode_utf8_one(c: char)
    ensures
        encode_utf8(seq![c]) == encode_scalar(c as u32),
{
    assert(seq![c].len() == 1);
    assert(seq![c][0] == c);
    assert(seq![c].drop_first() =~= Seq::<char>::empty());
    assert(encode_utf8(Seq::<char>::empty()) =~= Seq::<u8>::empty());
    assert(encode_utf8(seq![c]) == encode_scalar(c as u32) + encode_utf8(seq![c].drop_first()));
    assert(encode_utf8(seq![c]) =~= encode_scalar(c as u32));
}

/// Appending one character appends the encoding of its code point.
pub proof fn lemma_encode_utf8_push(s: Seq<char>, c: char)
    ensures
        encode_utf8(s.push(c)) == encode_utf8(s) + encode_scalar(c as u32),
{
    assert(s.push(c) =~= s + seq![c]);
    lemma_encode_utf8_concat(s, seq![c]);
    lemma_encode_utf8_one(c);
}

/// An ASCII character encodes to the single byte of its code point.
pub proof fn lemma_encode_ascii(c: char)
    requires
        c as u32 <= 0x7F,
    ensures
        encode_scalar(c as u32) == seq![(c as u32) as u8],
{
    let u = c as u32;
    assert((u & 0x7F) as u8 == u as u8) by (bit_vector)
        requires
            u <= 0x7F,
    ;
}

/// A sequence of ASCII characters encodes byte for byte.
pub proof fn lemma_encode_utf8_ascii(s: Seq<char>)
    requires
        forall|i: int| 0 <= i < s.len() ==> (#[trigger] s[i]) as u32 <= 0x7F,
    ensures
        encode_utf8(s) == Seq::new(s.len(), |i: int| (s[i] as u32) as u8),
    decreases s.len(),
{
    if s.len() == 0 {
        assert(encode_utf8(s) =~= Seq::new(s.len(), |i: int| (s[i] as u32) as u8));
    } else {
        lemma_encode_utf8_ascii(s.drop_first());
        lemma_encode_ascii(s[0]);
        assert(encode_utf8(s) =~= Seq::new(s.len(), |i: int| (s[i] as u32) as u8));
    }
}

/// Append the UTF-8 bytes of the character `c` to `buffer`.
pub fn push_utf8_char(buffer: &mut Vec<u8>, c: char)
    ensures
        final(buffer)@ == old(buffer)@ + encode_scalar(c as u32),
{
    let u = c as u32;
    if u <= 0x7F {
        buffer.push((u & 0x7F) as u8);
    } else if u <= 0x7FF {
        buffer.push(0xC0 | ((u >> 6) & 0x1F) as u8);
        buffer.push(0x80 | (u & 0x3F) as u8);
    } else if u <= 0xFFFF {
        buffer.push(0xE0 | ((u >> 12) & 0x0F) as u8);
        buffer.push(0x80 | ((u >> 6) & 0x3F) as u8);
        buffer.push(0x80 | (u & 0x3F) as u8);
    } else {
        buffer.push(0xF0 | ((u >> 18) & 0x7) as u8);
        buffer.push(0x80 | ((u >> 12) & 0x3F) as u8);
        buffer.push(0x80 | ((u >> 6) & 0x3F) as u8);
        buffer.push(0x80 | (u & 0x3F) as u8);
    }
    proof {
        assert(final(buffer)@ =~= old(buffer)@ + encode_scalar(c as u32));
    }
}

/// Append the decimal digits of `n` to `buffer`, most significant first.
pub fn push_u64_digits(buffer: &mut Vec<u8>, n: u64)
    ensures
        final(buffer)@ == old(buffer)@ + encode_utf8(dec_digits(n as nat)),
    decreases n,
{
    if n >= 10 {
        push_u64_digits(buffer, n / 10);
    }
    buffer.push(48 + (n % 10) as u8);
    proof {
        let d = (n % 10) as int;
        assert(digit_char(d) as u32 == 48 + d);
        lemma_encode_ascii(digit_char(d));
        if n >= 10 {
            lemma_encode_utf8_push(dec_digits((n / 10) as nat), digit_char(d));
        } else {
            lemma_encode_utf8_one(digit_char(d));
        }
        assert(final(buffer)@ =~= old(buffer)@ + encode_utf8(dec_digits(n as nat)));
    }
}

} // verus!
