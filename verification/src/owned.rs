use crate::grammar::{spec_parse, ErrorModel, ValueModel};
use crate::parser::{
    span_model, span_wf, to_value, ParseError, Parser, SpanValue, Value, DEFAULT_DEPTH_LIMIT,
};
use vstd::prelude::*;

verus! {

/// A parsed document that owns its input: one owning unit that bundles the
/// promoted buffer and the tree derived from it, so the two are released as
/// one. Dropping the document reclaims the buffer exactly once, on every
/// exit path; the borrow checker keeps any view obtained through [`root`]
/// from outliving it.
///
/// [`root`]: OwnedDocument::root
pub struct OwnedDocument {
    buffer: Vec<u8>,
    root: SpanValue,
}

impl OwnedDocument {
    /// The bytes of the promoted buffer.
    pub closed spec fn buffer_seq(self) -> Seq<u8> {
        self.buffer@
    }

    /// Every range of the stored tree lies within the buffer.
    pub closed spec fn wf(self) -> bool {
        span_wf(self.root, self.buffer@.len() as int)
    }

    /// The value this document holds.
    pub closed spec fn model(self) -> ValueModel {
        span_model(self.root, self.buffer@)
    }

    /// Returns the parsed tree as a borrowed value. Its string data is a set
    /// of views into this document's buffer, valid for exactly as long as
    /// the document lives.
    pub fn root(&self) -> (v: Value<'_>)
        requires
            self.wf(),
        ensures
            v@ == self.model(),
    {
        to_value(&self.root, self.buffer.as_slice())
    }
}

/// Parses an owned byte buffer and promotes it: the returned document owns
/// the buffer, so the parsed tree is independent of the caller's original
/// binding. The tree is the same value a borrowing [`parse`] of the same
/// bytes yields, under the default depth limit.
///
/// [`parse`]: crate::parse
pub fn parse_owned(input: Vec<u8>) -> (res: Result<OwnedDocument, ParseError>)
    ensures
        match res {
            Ok(doc) => {
                &&& doc.wf()
                &&& doc.buffer_seq() == input@
                &&& spec_parse(input@, DEFAULT_DEPTH_LIMIT as nat) == Ok::<
                    ValueModel,
                    ErrorModel,
                >(doc.model())
            },
            Err(e) => spec_parse(input@, DEFAULT_DEPTH_LIMIT as nat) == Err::<
                ValueModel,
                ErrorModel,
            >(e@),
        },
{
    let root = {
        let mut p = Parser::new(input.as_slice());
        match p.parse_spans() {
            Ok(sv) => sv,
            Err(e) => {
                return Err(e);
            },
        }
    };
    Ok(OwnedDocument { buffer: input, root })
}

} // verus!
