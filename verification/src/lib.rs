//! A small JSON-style document library: text is tokenized, assembled through an
//! explicit scope stack, and resolved bottom-up into a tagged-union value tree;
//! finished trees render back to text.  Every stage is specified against a
//! mathematical model and verified.

pub mod errors;
pub mod laws;
pub mod lexer;
pub mod numbers;
pub mod parser;
pub mod roundtrip;
pub mod value;

pub use errors::JSONError;
pub use lexer::TokenIterator;
pub use parser::parse;
pub use value::JSON;
pub use value::JSONValue;
pub use value::SpecValue;
