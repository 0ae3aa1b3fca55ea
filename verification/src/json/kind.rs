//! Syntax kind codes for JSON. Node kinds are `0..16`, token kinds `16..`.
//! The reserved verbatim code is never used: JSON has no unmodelled-but-valid
//! constructs, so anything this grammar cannot represent is rejected.
use vstd::prelude::*;

verus! {

/// The whole document, including leading and trailing trivia.
pub const DOCUMENT: u16 = 0;
/// `{ ... }`.
pub const OBJECT: u16 = 1;
/// `[ ... ]`.
pub const ARRAY: u16 = 2;
/// Space, tab, CR or LF between tokens.
pub const WHITESPACE: u16 = 16;
/// A leading UTF-8 BOM.
pub const BOM: u16 = 17;
/// `{`
pub const L_BRACE: u16 = 18;
/// `}`
pub const R_BRACE: u16 = 19;
/// `[`
pub const L_BRACKET: u16 = 20;
/// `]`
pub const R_BRACKET: u16 = 21;
/// `:`
pub const COLON: u16 = 22;
/// `,`
pub const COMMA: u16 = 23;
/// A quoted string, escapes unexpanded.
pub const STRING: u16 = 24;
/// A number literal, exactly as written.
pub const NUMBER: u16 = 25;
/// `true`
pub const TRUE: u16 = 26;
/// `false`
pub const FALSE: u16 = 27;
/// `null`
pub const NULL: u16 = 28;
/// Bytes the lexer could not classify. Always accompanied by a diagnostic.
pub const ERROR: u16 = 29;

} // verus!
