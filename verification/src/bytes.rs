use vstd::prelude::*;
use vstd::slice::slice_index_get;

verus! {

/// An immutable, non-owning view of a contiguous run of bytes inside a larger
/// buffer, used both for string values and for object keys.
///
/// Two views are equal iff their raw bytes are equal; escape sequences are
/// compared literally, never after decoding. The UTF-8 rendering of
/// [`Bytes::as_utf8_str`] is lossy and meant for display only.
#[derive(Clone, Copy, Debug)]
pub struct Bytes<'a>(pub &'a [u8]);

impl<'a> View for Bytes<'a> {
    type V = Seq<u8>;

    open spec fn view(&self) -> Seq<u8> {
        self.0@
    }
}

/// Compares two byte slices for equality of their contents.
pub fn slices_equal(a: &[u8], b: &[u8]) -> (r: bool)
    ensures
        r == (a@ == b@),
{
    if a.len() != b.len() {
        assert(a@.len() != b@.len());
        return false;
    }
    let mut i: usize = 0;
    while i < a.len()
        invariant
            0 <= i <= a@.len(),
            a@.len() == b@.len(),
            forall|j: int| 0 <= j < i ==> a@[j] == b@[j],
        decreases a@.len() - i,
    {
        if *slice_index_get(a, i) != *slice_index_get(b, i) {
            assert(a@[i as int] != b@[i as int]);
            return false;
        }
        i = i + 1;
    }
    proof {
        assert(a@ =~= b@);
    }
    true
}

impl<'a> PartialEq for Bytes<'a> {
    /// Two views are equal iff their raw bytes are equal.
    fn eq(&self, other: &Bytes<'a>) -> (r: bool) {
        slices_equal(self.0, other.0)
    }
}

impl<'a> vstd::std_specs::cmp::PartialEqSpecImpl for Bytes<'a> {
    open spec fn obeys_eq_spec() -> bool {
        true
    }

    open spec fn eq_spec(&self, other: &Bytes<'a>) -> bool {
        self.0@ == other.0@
    }
}

impl<'a> From<&'a [u8]> for Bytes<'a> {
    /// Wraps a byte slice as a view.
    fn from(s: &'a [u8]) -> (r: Bytes<'a>) {
        Bytes(s)
    }
}

impl<'a> vstd::std_specs::convert::FromSpecImpl<&'a [u8]> for Bytes<'a> {
    open spec fn obeys_from_spec() -> bool {
        true
    }

    open spec fn from_spec(v: &'a [u8]) -> Bytes<'a> {
        Bytes(v)
    }
}

/// The lossy UTF-8 rendering of a byte sequence, as `String::from_utf8_lossy`
/// produces it: a pure function of the bytes alone.
pub uninterp spec fn utf8_lossy_of(bytes: Seq<u8>) -> Seq<char>;

impl<'a> Bytes<'a> {
    /// Renders the viewed bytes as text, replacing invalid UTF-8 sequences.
    /// The rendering is for display only; equality and key identity always
    /// operate on the raw bytes.
    ///
    /// Relies on `String::from_utf8_lossy`: the result depends on the bytes
    /// alone, an empty input renders as the empty string, and valid UTF-8
    /// passes through unchanged, so ASCII bytes render as themselves.
    #[verifier::external_body]
    pub fn as_utf8_str(&self) -> (r: String)
        ensures
            r@ == utf8_lossy_of(self@),
            self@.len() == 0 ==> r@.len() == 0,
            (forall|i: int| 0 <= i < self@.len() ==> self@[i] < 128) ==> r@ == self@.map_values(
                (|b: u8| b as char),
            ),
    {
        String::from_utf8_lossy(self.0).into_owned()
    }
}

} // verus!
