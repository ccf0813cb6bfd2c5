//! Core parsing state: the input cursor, the diagnostic error list, and the
//! nesting-guard context threaded through every grammar production.
use vstd::prelude::*;

verus! {

/// A cursor over the input: absolute character index plus the line/column
/// pair used for diagnostics.  Advancing over `'\n'` starts a new line.
#[derive(Clone, Copy, PartialEq, Eq, Structural, Debug)]
pub struct SimplePosition {
    pub index: u32,
    pub line: u32,
    pub column: u32,
}

impl SimplePosition {
    /// The position one character further on, after reading `c`.
    pub open spec fn spec_next(self, c: char) -> SimplePosition {
        SimplePosition {
            index: (self.index + 1) as u32,
            line: if c == '\n' {
                (self.line + 1) as u32
            } else {
                self.line
            },
            column: if c == '\n' {
                0
            } else {
                (self.column + 1) as u32
            },
        }
    }

    /// Advance the cursor over the character `c`.
    pub fn next(&self, c: char) -> (r: Self)
        requires
            self.index < u32::MAX,
            self.line < u32::MAX,
            self.column < u32::MAX,
        ensures
            r == self.spec_next(c),
    {
        let new_line = c == '\n';
        Self {
            index: self.index + 1,
            line: if new_line {
                self.line + 1
            } else {
                self.line
            },
            column: if new_line {
                0
            } else {
                self.column + 1
            },
        }
    }

    /// The absolute character index.
    pub fn index(&self) -> (r: u32)
        ensures
            r == self.index,
    {
        self.index
    }

    /// The line number, counted from zero.
    pub fn line(&self) -> (r: u32)
        ensures
            r == self.line,
    {
        self.line
    }

    /// The column number, counted from zero and reset at each newline.
    pub fn column(&self) -> (r: u32)
        ensures
            r == self.column,
    {
        self.column
    }

    /// Signed distance between two cursors, in characters.
    pub fn sub(self, rhs: SimplePosition) -> (r: i32)
        requires
            rhs.index <= self.index ==> self.index - rhs.index <= i32::MAX,
            self.index < rhs.index ==> rhs.index - self.index <= i32::MAX,
        ensures
            r == self.index - rhs.index,
    {
        if self.index > rhs.index {
            (self.index - rhs.index) as i32
        } else {
            -((rhs.index - self.index) as i32)
        }
    }
}

/// A parse error: the positions and reasons accumulated while unwinding,
/// innermost reason first.
#[derive(Debug)]
pub struct SimpleError {
    pub reasons: Vec<(SimplePosition, &'static str)>,
}

impl View for SimpleError {
    type V = Seq<(SimplePosition, Seq<char>)>;

    open spec fn view(&self) -> Seq<(SimplePosition, Seq<char>)> {
        self.reasons@.map(|i: int, r: (SimplePosition, &'static str)| (r.0, r.1@))
    }
}

/// A fresh error holding the single pair `(pos, reason)`.
pub fn error_at(pos: SimplePosition, reason: &'static str) -> (r: SimpleError)
    ensures
        r@ =~= seq![(pos, reason@)],
{
    let mut reasons: Vec<(SimplePosition, &'static str)> = Vec::new();
    reasons.push((pos, reason));
    SimpleError { reasons }
}

impl SimpleError {
    /// The accumulated `(position, reason)` pairs, innermost first.
    pub fn reasons(&self) -> (r: &Vec<(SimplePosition, &'static str)>)
        ensures
            r == &self.reasons,
    {
        &self.reasons
    }

    /// The same error with one more reason appended on the outside.
    pub fn add_reason(self, position: SimplePosition, reason: &'static str) -> (r: Self)
        ensures
            r@ =~= self@.push((position, reason@)),
    {
        let mut reasons = self.reasons;
        reasons.push((position, reason));
        Self { reasons }
    }
}

/// The two strings hold the same characters.
fn str_eq(a: &str, b: &str) -> (r: bool)
    ensures
        r == (a@ == b@),
{
    proof {
        vstd::utf8::encode_utf8_decode_utf8(a@);
        vstd::utf8::encode_utf8_decode_utf8(b@);
    }
    let ab = a.as_bytes();
    let bb = b.as_bytes();
    if ab.len() != bb.len() {
        return false;
    }
    for i in 0..ab.len()
        invariant
            ab@ == vstd::utf8::encode_utf8(a@),
            bb@ == vstd::utf8::encode_utf8(b@),
            ab@.len() == bb@.len(),
            vstd::utf8::decode_utf8(vstd::utf8::encode_utf8(a@)) == a@,
            vstd::utf8::decode_utf8(vstd::utf8::encode_utf8(b@)) == b@,
            forall|j: int| 0 <= j < i ==> ab@[j] == bb@[j],
    {
        if ab[i] != bb[i] {
            proof {
                assert(ab@ != bb@);
            }
            return false;
        }
    }
    proof {
        assert(ab@ =~= bb@);
    }
    true
}

impl PartialEq for SimpleError {
    /// Two errors are equal when they hold the same positions and reasons.
    fn eq(&self, other: &SimpleError) -> (r: bool) {
        if self.reasons.len() != other.reasons.len() {
            proof {
                assert(self@.len() == self.reasons@.len());
                assert(other@.len() == other.reasons@.len());
            }
            return false;
        }
        for i in 0..self.reasons.len()
            invariant
                self.reasons@.len() == other.reasons@.len(),
                forall|j: int| 0 <= j < i ==> self@[j] == other@[j],
        {
            let (p1, s1) = self.reasons[i];
            let (p2, s2) = other.reasons[i];
            if p1 != p2 || !str_eq(s1, s2) {
                proof {
                    assert(self@[i as int] == (p1, s1@));
                    assert(other@[i as int] == (p2, s2@));
                    assert(self@ != other@);
                }
                return false;
            }
            proof {
                assert(self@[i as int] == (p1, s1@));
                assert(other@[i as int] == (p2, s2@));
            }
        }
        proof {
            assert(self@ =~= other@);
        }
        true
    }
}

impl vstd::std_specs::cmp::PartialEqSpecImpl for SimpleError {
    open spec fn obeys_eq_spec() -> bool {
        true
    }

    open spec fn eq_spec(&self, other: &SimpleError) -> bool {
        self@ == other@
    }
}

/// Options for a parse call: how deeply values may nest, `None` meaning
/// unbounded.
#[derive(Clone, Copy, Debug)]
pub struct ParserOptions {
    pub max_nest_level: Option<u32>,
}

impl Default for ParserOptions {
    /// The default limit allows one hundred levels of nesting.
    fn default() -> (r: Self)
        ensures
            r.max_nest_level == Some(100u32),
    {
        ParserOptions { max_nest_level: Some(100u32) }
    }
}

/// Per-call parsing context: the current nesting depth and the options the
/// call was started with.
#[derive(Clone, Copy, Debug)]
pub struct ParserContext {
    pub nest_level: u32,
    pub options: ParserOptions,
}

/// The model of a parse error: the `(position, reason)` pairs, innermost
/// first, with each reason as its character sequence.
pub type ErrorModel = Seq<(SimplePosition, Seq<char>)>;

/// The cursor is inside the input, and its line and column counters cannot
/// outrun its index.  Every position the parser produces satisfies this.
pub open spec fn pos_wf(s: Seq<char>, pos: SimplePosition) -> bool {
    &&& s.len() < u32::MAX
    &&& pos.index <= s.len()
    &&& pos.line <= pos.index
    &&& pos.column <= pos.index
}

/// What every grammar production requires of its arguments: a well-formed
/// cursor, and a nesting counter that cannot outrun it (each nesting level
/// consumed at least one opening bracket).
pub open spec fn parse_wf(s: Seq<char>, pos: SimplePosition, ctx: ParserContext) -> bool {
    &&& pos_wf(s, pos)
    &&& ctx.nest_level <= pos.index
}

/// What `ParserContext::nest` returns: a deeper context, or the nest-limit
/// error at `pos` when the configured maximum is already reached.
pub open spec fn spec_nest(ctx: ParserContext, pos: SimplePosition) -> Result<
    ParserContext,
    ErrorModel,
> {
    if ctx.options.max_nest_level == Some(ctx.nest_level) {
        Err(seq![(pos, "Exceeded nest level"@)])
    } else {
        Ok(ParserContext { nest_level: (ctx.nest_level + 1) as u32, options: ctx.options })
    }
}

impl ParserContext {
    /// A fresh context at nesting depth zero.
    pub fn new(options: ParserOptions) -> (r: Self)
        ensures
            r.nest_level == 0,
            r.options == options,
    {
        Self { nest_level: 0, options }
    }

    /// The options this context was created with.
    pub fn options(&self) -> (r: &ParserOptions)
        ensures
            r == &self.options,
    {
        &self.options
    }

    /// One nesting level deeper, or the "Exceeded nest level" error at `pos`
    /// when the maximum is already reached.
    pub fn nest(&self, pos: SimplePosition) -> (r: Result<Self, SimpleError>)
        requires
            self.options.max_nest_level == Some(self.nest_level) || self.nest_level < u32::MAX,
        ensures
            match r {
                Ok(c) => spec_nest(*self, pos) == Ok::<ParserContext, ErrorModel>(c),
                Err(e) => spec_nest(*self, pos) == Err::<ParserContext, ErrorModel>(e@),
            },
    {
        let at_max = match self.options.max_nest_level {
            Some(max) => max == self.nest_level,
            None => false,
        };
        if at_max {
            Err(error_at(pos, "Exceeded nest level"))
        } else {
            Ok(Self { nest_level: self.nest_level + 1, options: self.options })
        }
    }
}

} // verus!
