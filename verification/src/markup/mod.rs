//! The tag syntax for widget trees, parsed from a flat token list.
//!
//! ```text
//! element    = component | widget | group
//! component  = "<" "@" type property* "/" ">"
//! widget     = "<" name ("::" ident paren-group)? attribute*
//!              ( "/" ">"  |  ">" element* "<" "/" name ">" )
//! attribute  = "on" ident "=" closure  |  property
//! property   = "@"? path "=" expr
//! closure    = "async"? "|" token* "|" expr
//! expr       = literal | group | ident
//! path       = ident ("::" ident)*
//! type       = path ("<" type ("," type)* ">")?
//! ```
//!
//! A parser is a function of the token list and a position in it. It either
//! matches some tokens from that position on and says where it stopped, or
//! fails and says what it expected where. What a parser matched is told by
//! the indices of the tokens: nothing is copied out of the list.
//!
//! A failure is fatal once the parser has seen enough to know what was
//! meant: after the `on` of a handler, after the `=` of a property, after
//! the `<` of a tag. A choice gives up its first alternative for the second
//! only after a failure that is not fatal, and where both fail so, it fails
//! where the one that came further failed. A repetition and an optional
//! part end with the first failure of any kind, and do not fail.
//!
//! [`grammar`] says what each parser returns; [`parser`] holds the parsers.

pub mod combo;
pub mod context;
pub mod grammar;
pub mod parser;
pub mod token;
