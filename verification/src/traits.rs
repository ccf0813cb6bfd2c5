//! The serialization capability, and the two conversion contracts consumed
//! by code generated outside the library.
use crate::json::JsonValue;
use vstd::prelude::*;

verus! {

/// Rendering a value to bytes, compactly or with indentation.
pub trait Serialize {
    /// The exact bytes `serialize_to` appends for these settings.
    spec fn ser_spec(&self, indent: u32, level: u32) -> Seq<u8>;

    /// When rendering is defined: digit counts consistent and no arithmetic
    /// overflow in the indentation bookkeeping.
    spec fn ser_req(&self, indent: u32, level: u32) -> bool;

    /// The compact rendering, with no whitespace at all.
    fn serialize(&self) -> (r: Vec<u8>)
        requires
            self.ser_req(0, 0),
        ensures
            r@ == self.ser_spec(0, 0),
    {
        let mut res = Vec::new();
        self.serialize_to(&mut res, 0, 0);
        res
    }

    /// The pretty rendering, `indent` spaces per nesting level.
    fn format(&self, indent: u32) -> (r: Vec<u8>)
        requires
            self.ser_req(indent, 0),
        ensures
            r@ == self.ser_spec(indent, 0),
    {
        let mut res = Vec::new();
        self.serialize_to(&mut res, indent, 0);
        res
    }

    /// Append the rendering of `self` at nesting `level` to `buffer`.
    fn serialize_to(&self, buffer: &mut Vec<u8>, indent: u32, level: u32)
        requires
            self.ser_req(indent, level),
        ensures
            final(buffer)@ == old(buffer)@ + self.ser_spec(indent, level),
    ;
}

/// Conversion of a native value into a JSON value tree.
pub trait IntoJson {
    /// The JSON encoding of `self`.
    fn into_json(self) -> JsonValue;
}

/// Reconstruction of a native value from a JSON value tree.
pub trait FromJson: Sized {
    /// The value encoded by `value`, or `None` on any shape mismatch.
    fn from_json(value: JsonValue) -> Option<Self>;
}

} // verus!
