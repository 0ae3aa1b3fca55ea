//! Three candidate concrete-syntax-tree representations, built from one
//! shared lossless tokenizer so that they differ in representation only: an
//! owned token tree, a flat arena of spans, and a green/red tree. Each builds
//! a tree from the same tokens and nesting plan, serialises it back to the
//! input, finds and replaces a token, and locates a token's source range.
//! Measuring them (allocation counts, timings) is the harness's business.
pub mod lex;
pub mod owned;
pub mod green_red;
pub mod arena;
pub mod edit;
