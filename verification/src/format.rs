//! One trait, many formats: every format the ecosystem speaks implements
//! [`Format`], and every product is a head on it.
//!
//! Invariants, stated on the trait so that every format is held to them:
//! `parse` returns rather than panicking, `serialize` is total, and whenever
//! `parse` succeeds, serialising the tree gives back the input byte for byte.
use crate::cst::Cst;
use crate::report::{Diagnostic, ParseReport};
use crate::semantic::{SemanticNode, Unmodelled};
use vstd::prelude::*;

verus! {

/// A format the ecosystem speaks.
pub trait Format {
    /// The name used in diagnostics and reports. Stable: it appears in
    /// schema-versioned output.
    fn name(&self) -> &'static str;

    /// File extensions this format claims, lowercase and without the dot.
    fn extensions(&self) -> &'static [&'static str];

    /// Whether `input` is a document of this format: what [`Format::parse`]
    /// accepts.
    spec fn accepts(&self, input: Seq<u8>) -> bool;

    /// Whether `diags` are what this format refuses `input` with.
    spec fn refuses_with(&self, input: Seq<u8>, diags: Seq<Diagnostic>) -> bool;

    /// Whether `c` is a tree this format builds for `input`.
    spec fn tree_of(&self, input: Seq<u8>, c: Cst) -> bool;

    /// Parse `input` into a lossless tree, or report why not, with spans. A
    /// tree comes back exactly when the format accepts the input.
    fn parse(&self, input: &[u8]) -> (r: Result<Cst, ParseReport>)
        requires
            input@.len() <= u32::MAX,
        ensures
            r is Ok <==> self.accepts(input@),
            r matches Ok(c) ==> c.text() == input@,
            r matches Ok(c) ==> self.tree_of(input@, c),
            r matches Err(rep) ==> rep.diags().len() >= 1,
            r matches Err(rep) ==> self.refuses_with(input@, rep.diags()),
    ;

    /// Emit the exact bytes of a tree. Total, and format-independent: a tree
    /// is its tokens' bytes in order.
    fn serialize(&self, cst: &Cst) -> (out: Vec<u8>)
        ensures
            out@ == cst.text(),
    {
        cst.serialize()
    }

    /// Whether `r` is what this format's view of `cst` can come to.
    spec fn views_as(&self, cst: Cst, r: Result<SemanticNode, Unmodelled>) -> bool;

    /// What a tree means, with spelling discarded, or why this format cannot
    /// say. Derived from the tree, never authoritative: output bytes always
    /// come from the tree itself.
    fn semantic_view(&self, cst: &Cst) -> (r: Result<SemanticNode, Unmodelled>)
        ensures
            self.views_as(*cst, r),
    ;
}

/// YAML.
#[derive(Debug, Clone, Copy, Default)]
pub struct Yaml;

impl Format for Yaml {
    fn name(&self) -> (r: &'static str)
        ensures
            r@ == "yaml"@,
    {
        "yaml"
    }

    fn extensions(&self) -> (r: &'static [&'static str])
        ensures
            r@.len() == 2 && r@[0]@ == "yaml"@ && r@[1]@ == "yml"@,
    {
        &["yaml", "yml"]
    }

    open spec fn accepts(&self, input: Seq<u8>) -> bool {
        crate::yaml::yaml_accepts(input)
    }

    open spec fn refuses_with(&self, input: Seq<u8>, diags: Seq<Diagnostic>) -> bool {
        crate::yaml::yaml_refuses(input, diags)
    }

    open spec fn tree_of(&self, input: Seq<u8>, c: Cst) -> bool {
        &&& c.text() == input
        &&& c.root_node().leaves() == crate::yaml::tokens_leaves(input, crate::yaml::yaml_tokens(input))
        &&& crate::yaml::yaml_tree(input, crate::yaml::yaml_tokens(input), crate::yaml::yaml_lines(input), c.root_node())
    }

    fn parse(&self, input: &[u8]) -> (r: Result<Cst, ParseReport>)
        ensures
            r matches Err(rep) ==> rep.diags().len() == crate::yaml::yaml_refusals(input@),
            r matches Ok(c) ==> crate::yaml::yaml_tree(input@, crate::yaml::yaml_tokens(input@), crate::yaml::yaml_lines(input@), c.root_node()),
    {
        crate::yaml::parse(input)
    }

    open spec fn views_as(&self, cst: Cst, r: Result<SemanticNode, Unmodelled>) -> bool {
        crate::semantic::result_denotes(r, crate::semantic::nodes_meaning(cst.root_node()))
    }

    fn semantic_view(&self, cst: &Cst) -> (r: Result<SemanticNode, Unmodelled>) {
        crate::semantic::yaml_view(cst)
    }
}

/// JSON.
#[derive(Debug, Clone, Copy, Default)]
pub struct Json;

impl Format for Json {
    fn name(&self) -> (r: &'static str)
        ensures
            r@ == "json"@,
    {
        "json"
    }

    fn extensions(&self) -> (r: &'static [&'static str])
        ensures
            r@.len() == 1 && r@[0]@ == "json"@,
    {
        &["json"]
    }

    open spec fn accepts(&self, input: Seq<u8>) -> bool {
        crate::json::json_accepts(input)
    }

    open spec fn refuses_with(&self, input: Seq<u8>, diags: Seq<Diagnostic>) -> bool {
        crate::json::json_refuses(input, diags)
    }

    open spec fn tree_of(&self, input: Seq<u8>, c: Cst) -> bool {
        let ls = crate::json::json_lexemes(input);
        &&& c.text() == input
        &&& c.root_node().leaves() == crate::json::lexemes_leaves(input, ls)
        &&& c.root_node().depths() == crate::json::json_depths(ls, ls.len() as int)
        &&& crate::cst::seq_starts(c.root_node().kids()) == crate::json::json_starts(ls, ls.len() as int)
    }

    fn parse(&self, input: &[u8]) -> (r: Result<Cst, ParseReport>)
        ensures
            r matches Ok(c) ==> c.root_node().leaves() == crate::json::lexemes_leaves(input@, crate::json::json_lexemes(input@)),
            r matches Ok(c) ==> c.root_node().depths() == crate::json::json_depths(
                crate::json::json_lexemes(input@),
                crate::json::json_lexemes(input@).len() as int,
            ),
            r matches Ok(c) ==> crate::cst::seq_starts(c.root_node().kids()) == crate::json::json_starts(
                crate::json::json_lexemes(input@),
                crate::json::json_lexemes(input@).len() as int,
            ),
    {
        crate::json::parse(input)
    }

    open spec fn views_as(&self, cst: Cst, r: Result<SemanticNode, Unmodelled>) -> bool {
        let kids = cst.root_node().kids();
        let i = crate::semantic::first_meaningful(kids, 0);
        match r {
            Ok(v) => i >= 0 && crate::semantic::json_value_is(kids[i], v),
            Err(u) => i < 0 && u.format@ == "json"@ && u.reason@ == "the document contains no value"@,
        }
    }

    fn semantic_view(&self, cst: &Cst) -> (r: Result<SemanticNode, Unmodelled>) {
        crate::semantic::json_view(cst)
    }
}

} // verus!
