//! Conversions into request bodies.

use vstd::prelude::*;

verus! {

/// Anything that can become the raw bytes of a request body.
pub trait IntoBody {
    fn into_body(self) -> Vec<u8>;
}

impl IntoBody for Vec<u8> {
    fn into_body(self) -> Vec<u8> {
        self
    }
}

impl IntoBody for &str {
    fn into_body(self) -> Vec<u8> {
        str_bytes(self)
    }
}

/// The UTF-8 bytes of a text, as a fresh vector.
pub fn str_bytes(text: &str) -> (r: Vec<u8>)
    ensures
        r@ == vstd::utf8::encode_utf8(text@),
{
    let bytes = text.as_bytes();
    let mut out: Vec<u8> = Vec::new();
    let mut i: usize = 0;
    while i < bytes.len()
        invariant
            i <= bytes@.len(),
            out@ =~= bytes@.subrange(0, i as int),
        decreases bytes@.len() - i,
    {
        out.push(bytes[i]);
        i += 1;
    }
    proof {
        assert(out@ =~= bytes@);
    }
    out
}

/// A request body: raw bytes.
pub struct Body {
    data: Vec<u8>,
}

impl View for Body {
    type V = Seq<u8>;

    closed spec fn view(&self) -> Seq<u8> {
        self.data@
    }
}

impl Body {
    /// A body holding exactly the given bytes.
    pub fn from_bytes(data: Vec<u8>) -> (r: Self)
        ensures
            r@ == data@,
    {
        Body { data }
    }

    /// A body holding the UTF-8 bytes of the given text.
    pub fn from_text(text: &str) -> (r: Self)
        ensures
            r@ == vstd::utf8::encode_utf8(text@),
    {
        Body { data: str_bytes(text) }
    }

    /// The bytes of this body.
    pub fn into_vec(self) -> (r: Vec<u8>)
        ensures
            r@ == self@,
    {
        self.data
    }
}

} // verus!
