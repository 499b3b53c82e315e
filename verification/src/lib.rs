//! A minimalistic zero-copy JSON parser.
//!
//! Parsed strings and object keys are views into the original input buffer:
//! no text is copied while parsing. The byte-level scanning rules, the value
//! grammar and the error conditions are stated as specification functions in
//! [`grammar`], and every parsing routine is verified against them.

use vstd::prelude::*;

pub mod bytes;
pub mod grammar;
pub mod number;
pub mod owned;
pub mod parser;
pub mod stream;
pub mod util;

pub use bytes::Bytes;
pub use owned::{parse_owned, OwnedDocument};
pub use parser::{ParseError, Parser, Value, DEFAULT_DEPTH_LIMIT};
pub use stream::Stream;

use crate::grammar::{spec_parse, ErrorModel, ValueModel};

verus! {

/// Parses a JSON input given as bytes (callers with text pass its UTF-8
/// bytes). The result borrows from `input` and lives only as long as it;
/// the parse is pinned to the specification-level parse of those bytes
/// under the default depth limit.
pub fn parse(input: &[u8]) -> (res: Result<Value<'_>, ParseError>)
    ensures
        match res {
            Ok(v) => spec_parse(input@, DEFAULT_DEPTH_LIMIT as nat) == Ok::<
                ValueModel,
                ErrorModel,
            >(v@),
            Err(e) => spec_parse(input@, DEFAULT_DEPTH_LIMIT as nat) == Err::<
                ValueModel,
                ErrorModel,
            >(e@),
        },
{
    let mut p = Parser::new(input);
    p.parse()
}

} // verus!
