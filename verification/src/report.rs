//! Diagnostics and parse reports: every failure is anchored to bytes.
use crate::cst::Span;
use crate::text::{decimal, push_decimal, string_of};
use vstd::prelude::*;
use vstd::string::*;

verus! {

/// One thing that went wrong while parsing, anchored to the bytes that caused it.
#[derive(Debug, Clone, PartialEq, Eq)]
pub struct Diagnostic {
    /// The bytes at fault.
    pub span: Span,
    /// What is wrong, in the user's terms.
    pub message: String,
}

impl Diagnostic {
    /// A diagnostic covering `span`.
    pub fn new(span: Span, message: &str) -> (d: Self)
        ensures
            d.span == span,
            d.message@ == message@,
    {
        Diagnostic { span, message: string_of(message) }
    }
}

/// The message a report carries when it was built from no diagnostics.
pub open spec fn placeholder_message() -> Seq<char> {
    "parse failed, but no diagnostic was recorded — this is a bug in the parser"@
}

/// The rendering of one diagnostic: `bytes <start>..<end>: <message>`.
pub open spec fn render_one(d: Diagnostic) -> Seq<char> {
    "bytes "@ + decimal(d.span.start as nat) + ".."@ + decimal(d.span.end as nat) + ": "@ + d.message@
}

/// The rendering of a report: one line per diagnostic, newline-separated.
pub open spec fn render_all(ds: Seq<Diagnostic>) -> Seq<char>
    decreases ds.len(),
{
    if ds.len() == 0 {
        Seq::empty()
    } else if ds.len() == 1 {
        render_one(ds[0])
    } else {
        render_all(ds.drop_last()) + "\n"@ + render_one(ds.last())
    }
}

/// Why a parse did not produce a tree. Never empty.
#[derive(Debug, Clone, PartialEq, Eq)]
pub struct ParseReport {
    diagnostics: Vec<Diagnostic>,
}

impl ParseReport {
    /// The report's diagnostics, in specifications.
    pub closed spec fn diags(&self) -> Seq<Diagnostic> {
        self.diagnostics@
    }

    /// A report from one or more diagnostics; an empty list gets a placeholder
    /// at `0..0` rather than becoming a silent, locationless failure.
    pub fn new(diagnostics: Vec<Diagnostic>) -> (r: Self)
        ensures
            diagnostics@.len() > 0 ==> r.diags() == diagnostics@,
            diagnostics@.len() == 0 ==> r.diags().len() == 1
                && r.diags()[0].span == (Span { start: 0, end: 0 })
                && r.diags()[0].message@ == placeholder_message(),
    {
        if diagnostics.len() == 0 {
            let d = Diagnostic::new(
                Span { start: 0, end: 0 },
                "parse failed, but no diagnostic was recorded — this is a bug in the parser",
            );
            let mut v = Vec::new();
            v.push(d);
            return ParseReport { diagnostics: v };
        }
        ParseReport { diagnostics }
    }

    /// The format has no parser yet: a real error value, never a panic.
    pub fn not_implemented(format: &str) -> (r: Self)
        ensures
            r.diags().len() == 1,
            r.diags()[0].span == (Span { start: 0, end: 0 }),
            r.diags()[0].message@ == "`"@ + format@
                + "` has no parser yet (konflux M1 is at the oracle stage). This suite is expected to be red."@,
    {
        let mut m = string_of("`");
        m.append(format);
        m.append("` has no parser yet (konflux M1 is at the oracle stage). This suite is expected to be red.");
        let mut v = Vec::new();
        v.push(Diagnostic { span: Span { start: 0, end: 0 }, message: m });
        ParseReport::new(v)
    }

    /// Every diagnostic, in source order.
    pub fn diagnostics(&self) -> (d: &[Diagnostic])
        ensures
            d@ == self.diags(),
    {
        self.diagnostics.as_slice()
    }

    /// The human rendering: `bytes <start>..<end>: <message>`, one per line.
    pub fn render(&self) -> (s: String)
        ensures
            s@ == render_all(self.diags()),
    {
        let mut out = String::new();
        let mut i: usize = 0;
        while i < self.diagnostics.len()
            invariant
                i <= self.diagnostics@.len(),
                out@ == render_all(self.diagnostics@.subrange(0, i as int)),
            decreases self.diagnostics@.len() - i,
        {
            let d = &self.diagnostics[i];
            if i > 0 {
                out.append("\n");
            }
            out.append("bytes ");
            push_decimal(&mut out, d.span.start as u64);
            out.append("..");
            push_decimal(&mut out, d.span.end as u64);
            out.append(": ");
            out.append(d.message.as_str());
            proof {
                let s = self.diagnostics@.subrange(0, i + 1);
                assert(s.drop_last() == self.diagnostics@.subrange(0, i as int));
                assert(s.last() == *d);
                if i == 0 {
                    assert(s.len() == 1 && s[0] == *d);
                }
            }
            i = i + 1;
        }
        proof {
            assert(self.diagnostics@.subrange(0, i as int) == self.diagnostics@);
        }
        out
    }
}

} // verus!
