use vstd::prelude::*;
use vstd::utf8::*;
use crate::arc::{char_bytes, lemma_char_bytes, utf8_len, ArcString};

verus! {

/// Turns a value into a handle holding its text.
pub trait IntoRepr: Sized {
    /// The bytes of the value's text.
    spec fn repr_bytes(&self) -> Seq<u8>;

    fn into_repr(self) -> (r: ArcString)
        ensures
            r.wf(),
            r@ == self.repr_bytes(),
    ;
}

impl IntoRepr for bool {
    /// `true` or `false`.
    open spec fn repr_bytes(&self) -> Seq<u8> {
        if *self {
            encode_utf8(seq!['t', 'r', 'u', 'e'])
        } else {
            encode_utf8(seq!['f', 'a', 'l', 's', 'e'])
        }
    }

    fn into_repr(self) -> (r: ArcString) {
        proof {
            reveal_strlit("true");
            reveal_strlit("false");
            assert("true"@ =~= seq!['t', 'r', 'u', 'e']);
            assert("false"@ =~= seq!['f', 'a', 'l', 's', 'e']);
            reveal_with_fuel(encode_utf8, 6);
            assert(encode_utf8(seq!['t', 'r', 'u', 'e']).len() <= 16);
            assert(encode_utf8(seq!['f', 'a', 'l', 's', 'e']).len() <= 20);
        }
        if self {
            ArcString::new("true", 0)
        } else {
            ArcString::new("false", 0)
        }
    }
}

impl IntoRepr for char {
    /// The UTF-8 encoding of the character.
    open spec fn repr_bytes(&self) -> Seq<u8> {
        char_bytes(*self)
    }

    fn into_repr(self) -> (r: ArcString) {
        proof {
            reveal_strlit("");
            assert(""@ =~= Seq::<char>::empty());
            lemma_char_bytes(self);
        }
        let mut r = ArcString::new("", utf8_len(self));
        r.push(self);
        assert(r@ =~= char_bytes(self));
        r
    }
}

} // verus!
