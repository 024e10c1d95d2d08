use vstd::prelude::*;

pub mod cursor;
pub mod reader;
pub mod stream;
pub mod token;

pub use cursor::Parser;
pub use reader::{Coll, ErrorKind, Event, ParseError};
pub use stream::{parse_all, Reader};
pub use token::{KeywordTokenParser, SymbolParser, Token};

verus! {

} // verus!
