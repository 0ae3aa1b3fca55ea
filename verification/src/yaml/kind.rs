//! Syntax kind codes for YAML. Node kinds are `0..16`, token kinds `16..`;
//! Go templates and other unmodelled spans use the reserved verbatim code.
use vstd::prelude::*;

verus! {

/// The whole stream, all documents.
pub const STREAM: u16 = 0;
/// One document, from `---` (or the start) to the next separator.
pub const DOCUMENT: u16 = 1;
/// One source line and everything nested under it.
pub const LINE: u16 = 2;
/// Leading whitespace. Structural: it decides nesting.
pub const INDENT: u16 = 16;
/// Spaces or tabs between tokens.
pub const SPACE: u16 = 17;
/// `\n` or `\r\n`, kept exactly as written.
pub const NEWLINE: u16 = 18;
/// `#` to end of line.
pub const COMMENT: u16 = 19;
/// `%YAML` / `%TAG` directive line.
pub const DIRECTIVE: u16 = 20;
/// `---`
pub const DOC_START: u16 = 21;
/// `...`
pub const DOC_END: u16 = 22;
/// A UTF-8 BOM.
pub const BOM: u16 = 23;
/// `:`
pub const COLON: u16 = 24;
/// `-` introducing a sequence entry.
pub const DASH: u16 = 25;
/// `,` `[` `]` `{` `}` in flow context.
pub const FLOW_PUNCT: u16 = 26;
/// `&anchor`
pub const ANCHOR: u16 = 27;
/// `*alias`
pub const ALIAS: u16 = 28;
/// `!tag` or `!!tag`
pub const TAG: u16 = 29;
/// A single-quoted scalar, possibly spanning lines.
pub const SINGLE_QUOTED: u16 = 30;
/// A double-quoted scalar, possibly spanning lines.
pub const DOUBLE_QUOTED: u16 = 31;
/// `|` or `>` with its chomping and indentation indicators.
pub const BLOCK_HEADER: u16 = 32;
/// The indented body of a block scalar, newlines included.
pub const BLOCK_BODY: u16 = 33;
/// An unquoted scalar.
pub const PLAIN: u16 = 34;
/// Bytes the lexer classified but could not accept.
pub const ERROR: u16 = 35;
/// A span preserved verbatim: Go templates.
pub const VERBATIM: u16 = 65535;

} // verus!
