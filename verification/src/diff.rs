//! Structural diff. A change has two independent fields: [`ChangeKind`]
//! (what happened to the tree) and [`Significance`] (whether it alters what
//! the document means). [`diff`] parses both sides, views each, and compares
//! the views ([`diff_spec`]): a scalar whose resolved value differs is a
//! semantic change, one whose source text alone differs a formatting one; a
//! mapping whose shared keys come in another order is a formatting move; keys
//! and items only one side has are added or removed. Paths are JSON Pointers;
//! the report is sorted by path bytes, then by kind. The `--json` rendering is
//! the machine contract, compared byte for byte, so its shape is stated here
//! exactly.
use crate::cst::Cst;
use crate::format::Format;
use crate::report::ParseReport;
use crate::semantic::{
    chars_of, denotes, find_key, find_key_exec, node_text, opt_view, same_value_spec, well_keyed, Meaning, SemanticNode, Unmodelled,
};
use crate::cli::same_text;
use crate::text::{decimal, push_char, push_decimal, views_of};
use vstd::prelude::*;
use vstd::string::*;

verus! {

/// Bumped whenever the `--json` shape changes. Consumers pin it.
pub const SCHEMA_VERSION: u32 = 1;

/// What happened to a node.
#[derive(Debug, Clone, Copy, PartialEq, Eq, Structural)]
pub enum ChangeKind {
    /// Present in `b`, absent from `a`.
    Added,
    /// Present in `a`, absent from `b`.
    Removed,
    /// Present in both, with different bytes.
    Changed,
    /// A container's children are the same set in a different order.
    Moved,
}

/// The stable `--json` spelling of a change kind.
pub open spec fn kind_name(k: ChangeKind) -> Seq<char> {
    match k {
        ChangeKind::Added => "added"@,
        ChangeKind::Removed => "removed"@,
        ChangeKind::Changed => "changed"@,
        ChangeKind::Moved => "moved"@,
    }
}

impl ChangeKind {
    /// The stable `--json` spelling.
    pub fn as_str(self) -> (r: &'static str)
        ensures
            r@ == kind_name(self),
    {
        match self {
            ChangeKind::Added => "added",
            ChangeKind::Removed => "removed",
            ChangeKind::Changed => "changed",
            ChangeKind::Moved => "moved",
        }
    }
}

/// Whether a change alters what the document means.
#[derive(Debug, Clone, Copy, PartialEq, Eq, Structural)]
pub enum Significance {
    /// The document's meaning differs.
    Semantic,
    /// Only its spelling differs: quoting, ordering of mapping keys, layout.
    Formatting,
}

/// The stable `--json` spelling of a significance.
pub open spec fn significance_name(s: Significance) -> Seq<char> {
    match s {
        Significance::Semantic => "semantic"@,
        Significance::Formatting => "formatting"@,
    }
}

impl Significance {
    /// The stable `--json` spelling.
    pub fn as_str(self) -> (r: &'static str)
        ensures
            r@ == significance_name(self),
    {
        match self {
            Significance::Semantic => "semantic",
            Significance::Formatting => "formatting",
        }
    }
}

/// One difference between two documents.
#[derive(Debug, Clone)]
pub struct Change {
    /// RFC 6901 JSON Pointer to the node, `""` for the document root.
    pub path: String,
    /// What happened.
    pub kind: ChangeKind,
    /// Whether it means anything.
    pub significance: Significance,
    /// Source text of the node in `a`, when it had one.
    pub before: Option<String>,
    /// Source text of the node in `b`, when it has one.
    pub after: Option<String>,
}

/// The result of diffing two documents.
#[derive(Debug, Clone)]
pub struct DiffReport {
    /// Every difference, sorted by `path` bytes then by `kind`.
    pub changes: Vec<Change>,
}

impl Default for DiffReport {
    /// The report of no changes.
    fn default() -> (r: Self)
        ensures
            r.changes@.len() == 0,
    {
        DiffReport { changes: Vec::new() }
    }
}

/// The lowercase hexadecimal digit of `d`.
pub open spec fn hex_lower(d: nat) -> char {
    if d < 10 { ((d + 48) as u8) as char } else { ((d + 87) as u8) as char }
}

/// How one character is written inside a JSON string (RFC 8259 §7): quote,
/// backslash, newline, carriage return and tab by their short escapes, other
/// control characters as `\\u00XX`, everything else as itself.
pub open spec fn escape_char(c: char) -> Seq<char> {
    if c == '"' {
        seq!['\\', '"']
    } else if c == '\\' {
        seq!['\\', '\\']
    } else if c == '\n' {
        seq!['\\', 'n']
    } else if c == '\r' {
        seq!['\\', 'r']
    } else if c == '\t' {
        seq!['\\', 't']
    } else if (c as u32) < 0x20 {
        seq!['\\', 'u', '0', '0', hex_lower(((c as u32) / 16) as nat), hex_lower(((c as u32) % 16) as nat)]
    } else {
        seq![c]
    }
}

/// JSON string escaping of a whole string.
pub open spec fn escape_spec(s: Seq<char>) -> Seq<char>
    decreases s.len(),
{
    if s.len() == 0 { Seq::empty() } else { escape_spec(s.drop_last()) + escape_char(s.last()) }
}

fn push_str(out: &mut String, s: &str)
    ensures
        final(out)@ == old(out)@ + s@,
{
    out.append(s);
}

/// JSON string escaping, RFC 8259 §7.
pub fn escape(s: &str) -> (r: String)
    ensures
        r@ == escape_spec(s@),
{
    let cs = chars_of(s);
    let mut out = String::new();
    let mut i: usize = 0;
    proof {
        assert(cs@.subrange(0, 0) == Seq::<char>::empty());
    }
    while i < cs.len()
        invariant
            i <= cs@.len(),
            cs@ == s@,
            out@ == escape_spec(cs@.subrange(0, i as int)),
        decreases cs@.len() - i,
    {
        let c = cs[i];
        let ghost o = out@;
        proof {
            assert(cs@.subrange(0, i + 1).drop_last() == cs@.subrange(0, i as int));
            assert(cs@.subrange(0, i + 1).last() == c);
        }
        if c == '"' {
            push_char(&mut out, '\\');
            push_char(&mut out, '"');
        } else if c == '\\' {
            push_char(&mut out, '\\');
            push_char(&mut out, '\\');
        } else if c == '\n' {
            push_char(&mut out, '\\');
            push_char(&mut out, 'n');
        } else if c == '\r' {
            push_char(&mut out, '\\');
            push_char(&mut out, 'r');
        } else if c == '\t' {
            push_char(&mut out, '\\');
            push_char(&mut out, 't');
        } else if (c as u32) < 0x20 {
            let v = c as u32;
            let hi = (v / 16) as u8;
            let lo = (v % 16) as u8;
            let h = if hi < 10 { (hi + 48) as char } else { (hi + 87) as char };
            let l = if lo < 10 { (lo + 48) as char } else { (lo + 87) as char };
            push_char(&mut out, '\\');
            push_char(&mut out, 'u');
            push_char(&mut out, '0');
            push_char(&mut out, '0');
            push_char(&mut out, h);
            push_char(&mut out, l);
            proof {
                assert(hi as nat == ((c as u32) / 16) as nat);
                assert(lo as nat == ((c as u32) % 16) as nat);
                assert(h == hex_lower(hi as nat));
                assert(l == hex_lower(lo as nat));
            }
        } else {
            push_char(&mut out, c);
        }
        proof {
            assert(out@ == o + escape_char(c));
        }
        i = i + 1;
    }
    proof {
        assert(cs@.subrange(0, i as int) == cs@);
    }
    out
}

/// The `before` field of a change, when it has one.
pub open spec fn before_part(c: Change) -> Seq<char> {
    match c.before {
        Some(b) => "      \"before\": \""@ + escape_spec(b@) + "\""@ + (if c.after is None { "\n"@ } else { ",\n"@ }),
        None => Seq::empty(),
    }
}

/// The `after` field of a change, when it has one.
pub open spec fn after_part(c: Change) -> Seq<char> {
    match c.after {
        Some(a) => "      \"after\": \""@ + escape_spec(a@) + "\"\n"@,
        None => Seq::empty(),
    }
}

/// One change as a `--json` object; absent fields are omitted, never null.
pub open spec fn change_json(c: Change, last: bool) -> Seq<char> {
    "    {\n"@ + "      \"path\": \""@ + escape_spec(c.path@) + "\",\n"@
        + "      \"kind\": \""@ + kind_name(c.kind) + "\",\n"@
        + "      \"significance\": \""@ + significance_name(c.significance) + "\""@
        + (if c.before is None && c.after is None { "\n"@ } else { ",\n"@ })
        + before_part(c) + after_part(c)
        + "    }"@ + (if last { ""@ } else { ","@ }) + "\n"@
}

/// The first `k` of `cs`, rendered; the last of all `cs` carries no comma.
pub open spec fn changes_json(cs: Seq<Change>, k: int) -> Seq<char>
    decreases k,
{
    if k <= 0 || k > cs.len() { Seq::empty() } else { changes_json(cs, k - 1) + change_json(cs[k - 1], k == cs.len()) }
}

/// The opening of every rendering: the brace and the schema version.
pub open spec fn json_header() -> Seq<char> {
    "{\n"@ + "  \"schema_version\": "@ + decimal(SCHEMA_VERSION as nat) + ",\n"@
}

/// The stable `--json` form of a report, ending in exactly one newline.
pub open spec fn report_json(cs: Seq<Change>) -> Seq<char> {
    if cs.len() == 0 {
        json_header() + "  \"changes\": []\n}\n"@
    } else {
        json_header() + "  \"changes\": [\n"@ + changes_json(cs, cs.len() as int) + "  ]\n}\n"@
    }
}

fn change_json_exec(c: &Change, last: bool) -> (r: String)
    ensures
        r@ == change_json(*c, last),
{
    let mut piece = String::from_str("    {\n");
    push_str(&mut piece, "      \"path\": \"");
    let p = escape(c.path.as_str());
    push_str(&mut piece, p.as_str());
    push_str(&mut piece, "\",\n");
    push_str(&mut piece, "      \"kind\": \"");
    push_str(&mut piece, c.kind.as_str());
    push_str(&mut piece, "\",\n");
    push_str(&mut piece, "      \"significance\": \"");
    push_str(&mut piece, c.significance.as_str());
    push_str(&mut piece, "\"");
    if c.before.is_none() && c.after.is_none() {
        push_str(&mut piece, "\n");
    } else {
        push_str(&mut piece, ",\n");
    }
    let ghost mid = piece@;
    match &c.before {
        Some(b) => {
            push_str(&mut piece, "      \"before\": \"");
            let e = escape(b.as_str());
            push_str(&mut piece, e.as_str());
            push_str(&mut piece, "\"");
            if c.after.is_none() {
                push_str(&mut piece, "\n");
            } else {
                push_str(&mut piece, ",\n");
            }
        },
        None => {},
    }
    proof {
        assert(piece@ =~= mid + before_part(*c));
    }
    let ghost mid2 = piece@;
    match &c.after {
        Some(a) => {
            push_str(&mut piece, "      \"after\": \"");
            let e = escape(a.as_str());
            push_str(&mut piece, e.as_str());
            push_str(&mut piece, "\"\n");
        },
        None => {},
    }
    proof {
        assert(piece@ =~= mid2 + after_part(*c));
    }
    push_str(&mut piece, "    }");
    if last {
        push_str(&mut piece, "");
    } else {
        push_str(&mut piece, ",");
    }
    push_str(&mut piece, "\n");
    piece
}

impl DiffReport {
    /// Render the stable `--json` form.
    pub fn to_json(&self) -> (r: String)
        ensures
            r@ == report_json(self.changes@),
    {
        let mut out = String::from_str("{\n");
        push_str(&mut out, "  \"schema_version\": ");
        push_decimal(&mut out, SCHEMA_VERSION as u64);
        push_str(&mut out, ",\n");
        if self.changes.len() == 0 {
            push_str(&mut out, "  \"changes\": []\n}\n");
            return out;
        }
        push_str(&mut out, "  \"changes\": [\n");
        let ghost head = out@;
        let n = self.changes.len();
        let mut i: usize = 0;
        while i < n
            invariant
                n == self.changes@.len(),
                i <= n,
                out@ == head + changes_json(self.changes@, i as int),
            decreases n - i,
        {
            let piece = change_json_exec(&self.changes[i], i + 1 == n);
            let ghost o = out@;
            push_str(&mut out, piece.as_str());
            proof {
                vstd::seq_lib::lemma_concat_associative(head, changes_json(self.changes@, i as int), piece@);
            }
            i = i + 1;
        }
        push_str(&mut out, "  ]\n}\n");
        out
    }
}

// --- the structural diff ---------------------------------------------------------

/// A change as plain values: path, kind, significance, before, after.
pub open spec fn change_view(c: Change) -> (Seq<char>, ChangeKind, Significance, Option<Seq<char>>, Option<Seq<char>>) {
    (c.path@, c.kind, c.significance, opt_view(c.before), opt_view(c.after))
}

/// Changes as plain values.
pub open spec fn changes_view(cs: Seq<Change>) -> Seq<(Seq<char>, ChangeKind, Significance, Option<Seq<char>>, Option<Seq<char>>)> {
    Seq::new(cs.len(), |i: int| change_view(cs[i]))
}

/// How one character of a key is written in a JSON Pointer (RFC 6901):
/// `~` as `~0`, `/` as `~1`, anything else as itself.
pub open spec fn pointer_char(c: char) -> Seq<char> {
    if c == '~' {
        seq!['~', '0']
    } else if c == '/' {
        seq!['~', '1']
    } else {
        seq![c]
    }
}

/// A key as one JSON Pointer reference token.
pub open spec fn pointer_token(k: Seq<char>) -> Seq<char>
    decreases k.len(),
{
    if k.len() == 0 { Seq::empty() } else { pointer_token(k.drop_last()) + pointer_char(k.last()) }
}

/// The pointer to the value under `key` in the mapping at `path`.
pub open spec fn key_path(path: Seq<char>, key: Seq<char>) -> Seq<char> {
    path + seq!['/'] + pointer_token(key)
}

/// The pointer to item `i` of the sequence at `path`.
pub open spec fn index_path(path: Seq<char>, i: nat) -> Seq<char> {
    path + seq!['/'] + decimal(i)
}

/// A whole node replaced by another of a different shape.
pub open spec fn replaced(path: Seq<char>, a: SemanticNode, b: SemanticNode) -> (Seq<char>, ChangeKind, Significance, Option<Seq<char>>, Option<Seq<char>>) {
    (path, ChangeKind::Changed, Significance::Semantic, Some(node_text(a)), Some(node_text(b)))
}

/// The keys among the first `n` entries of `p` that `q` also has, in `p`'s order.
pub open spec fn common_keys(p: Seq<(String, SemanticNode)>, q: Seq<(String, SemanticNode)>, n: int) -> Seq<Seq<char>>
    decreases n,
{
    if n <= 0 || n > p.len() {
        Seq::empty()
    } else if find_key(q, p[n - 1].0@, 0) >= 0 {
        common_keys(p, q, n - 1).push(p[n - 1].0@)
    } else {
        common_keys(p, q, n - 1)
    }
}

/// A mapping whose shared keys come in another order: one formatting move.
pub open spec fn moved_spec(path: Seq<char>, p: Seq<(String, SemanticNode)>, q: Seq<(String, SemanticNode)>) -> Seq<(Seq<char>, ChangeKind, Significance, Option<Seq<char>>, Option<Seq<char>>)> {
    if common_keys(p, q, p.len() as int) != common_keys(q, p, q.len() as int) {
        seq![(path, ChangeKind::Moved, Significance::Formatting, None, None)]
    } else {
        Seq::empty()
    }
}

/// The keys among the first `n` entries of `q` that `p` lacks: each added.
pub open spec fn added_spec(path: Seq<char>, p: Seq<(String, SemanticNode)>, q: Seq<(String, SemanticNode)>, n: int) -> Seq<(Seq<char>, ChangeKind, Significance, Option<Seq<char>>, Option<Seq<char>>)>
    decreases n,
{
    if n <= 0 || n > q.len() {
        Seq::empty()
    } else if find_key(p, q[n - 1].0@, 0) < 0 {
        added_spec(path, p, q, n - 1).push((key_path(path, q[n - 1].0@), ChangeKind::Added, Significance::Semantic, None, Some(node_text(q[n - 1].1))))
    } else {
        added_spec(path, p, q, n - 1)
    }
}

/// Items of `ys` from `from` up to `n` that `xs` lacks: each added.
pub open spec fn extra_spec(path: Seq<char>, from: int, ys: Seq<SemanticNode>, n: int) -> Seq<(Seq<char>, ChangeKind, Significance, Option<Seq<char>>, Option<Seq<char>>)>
    decreases n,
{
    if n <= from || n > ys.len() || from < 0 {
        Seq::empty()
    } else {
        extra_spec(path, from, ys, n - 1).push((index_path(path, (n - 1) as nat), ChangeKind::Added, Significance::Semantic, None, Some(node_text(ys[n - 1]))))
    }
}

/// The changes under the first `n` entries of `p`: each key diffed against
/// the first entry of `q` with that key, or removed when `q` has none.
pub open spec fn entries_spec(path: Seq<char>, p: Seq<(String, SemanticNode)>, q: Seq<(String, SemanticNode)>, n: int) -> Seq<(Seq<char>, ChangeKind, Significance, Option<Seq<char>>, Option<Seq<char>>)>
    decreases p, n,
{
    if n <= 0 || n > p.len() {
        Seq::empty()
    } else {
        let j = find_key(q, p[n - 1].0@, 0);
        let here = if 0 <= j < q.len() {
            proof {
                assert(decreases_to!(p => p[n - 1]));
                assert(decreases_to!(p[n - 1] => p[n - 1].1));
            }
            diff_spec(key_path(path, p[n - 1].0@), p[n - 1].1, q[j].1)
        } else {
            seq![(key_path(path, p[n - 1].0@), ChangeKind::Removed, Significance::Semantic, Some(node_text(p[n - 1].1)), None)]
        };
        entries_spec(path, p, q, n - 1) + here
    }
}

/// The changes under the first `n` items of `xs`: each diffed against the
/// item of `ys` at the same index, or removed when `ys` is shorter.
pub open spec fn items_spec(path: Seq<char>, xs: Seq<SemanticNode>, ys: Seq<SemanticNode>, n: int) -> Seq<(Seq<char>, ChangeKind, Significance, Option<Seq<char>>, Option<Seq<char>>)>
    decreases xs, n,
{
    if n <= 0 || n > xs.len() {
        Seq::empty()
    } else {
        let here = if n - 1 < ys.len() {
            proof {
                assert(decreases_to!(xs => xs[n - 1]));
            }
            diff_spec(index_path(path, (n - 1) as nat), xs[n - 1], ys[n - 1])
        } else {
            seq![(index_path(path, (n - 1) as nat), ChangeKind::Removed, Significance::Semantic, Some(node_text(xs[n - 1])), None)]
        };
        items_spec(path, xs, ys, n - 1) + here
    }
}

/// Every difference between `a` and `b`, for nodes at `path`. Scalars
/// differ semantically when their resolved values differ, in formatting only
/// when just their source text does. A mapping reports a move when its shared
/// keys come in another order, then each of its keys in order (diffed,
/// or removed), then the keys only `b` has (added). A sequence compares items
/// index by index and reports the surplus of either side. Nodes of different
/// shapes are one semantic change.
pub open spec fn diff_spec(path: Seq<char>, a: SemanticNode, b: SemanticNode) -> Seq<(Seq<char>, ChangeKind, Significance, Option<Seq<char>>, Option<Seq<char>>)>
    decreases a, 0int,
{
    match a {
        SemanticNode::Scalar(x) => match b {
            SemanticNode::Scalar(y) => if x.value@ != y.value@ {
                seq![(path, ChangeKind::Changed, Significance::Semantic, Some(x.text@), Some(y.text@))]
            } else if x.text@ != y.text@ {
                seq![(path, ChangeKind::Changed, Significance::Formatting, Some(x.text@), Some(y.text@))]
            } else {
                Seq::empty()
            },
            _ => seq![replaced(path, a, b)],
        },
        SemanticNode::Mapping(p) => match b {
            SemanticNode::Mapping(q) => {
                proof {
                    assert(decreases_to!(a => p));
                    assert(decreases_to!(p => p@));
                }
                moved_spec(path, p@, q@) + entries_spec(path, p@, q@, p@.len() as int) + added_spec(path, p@, q@, q@.len() as int)
            },
            _ => seq![replaced(path, a, b)],
        },
        SemanticNode::Sequence(xs) => match b {
            SemanticNode::Sequence(ys) => {
                proof {
                    assert(decreases_to!(a => xs));
                    assert(decreases_to!(xs => xs@));
                }
                items_spec(path, xs@, ys@, xs@.len() as int) + extra_spec(path, xs@.len() as int, ys@, ys@.len() as int)
            },
            _ => seq![replaced(path, a, b)],
        },
    }
}

// --- reading a pointer back ------------------------------------------------------

/// How one reference token of a JSON Pointer reads (RFC 6901): `~0` as `~`,
/// `~1` as `/`, any other character as itself; `None` for a `~` followed by
/// anything else.
pub open spec fn read_token(t: Seq<char>) -> Option<Seq<char>>
    decreases t.len(),
{
    if t.len() == 0 {
        Some(Seq::empty())
    } else if t[0] == '~' {
        if t.len() >= 2 && (t[1] == '0' || t[1] == '1') {
            match read_token(t.skip(2)) {
                Some(r) => Some(seq![if t[1] == '0' { '~' } else { '/' }] + r),
                None => None,
            }
        } else {
            None
        }
    } else {
        match read_token(t.drop_first()) {
            Some(r) => Some(seq![t[0]] + r),
            None => None,
        }
    }
}

/// The position of the last `/` in `p`, or `-1`.
pub open spec fn last_slash(p: Seq<char>) -> int
    decreases p.len(),
{
    if p.len() == 0 {
        -1
    } else if p.last() == '/' {
        p.len() - 1
    } else {
        last_slash(p.drop_last())
    }
}

/// The last `/` lies within the text.
pub proof fn lemma_last_slash(p: Seq<char>)
    ensures
        -1 <= last_slash(p) < p.len(),
        last_slash(p) >= 0 ==> p[last_slash(p)] == '/',
    decreases p.len(),
{
    if p.len() > 0 && p.last() != '/' {
        lemma_last_slash(p.drop_last());
    }
}

/// The reference tokens a JSON Pointer names, read (RFC 6901): the empty
/// pointer names none, and every other pointer is `/`-separated tokens, each
/// read by [`read_token`]; `None` for a string that is not a pointer.
pub open spec fn read_pointer(p: Seq<char>) -> Option<Seq<Seq<char>>>
    decreases p.len(),
{
    if p.len() == 0 {
        Some(Seq::empty())
    } else {
        let j = last_slash(p);
        proof {
            lemma_last_slash(p);
        }
        if j < 0 {
            None
        } else {
            match (read_pointer(p.take(j)), read_token(p.skip(j + 1))) {
                (Some(ts), Some(t)) => Some(ts.push(t)),
                _ => None,
            }
        }
    }
}

/// A reference token read as an array index: decimal digits.
pub open spec fn read_index(t: Seq<char>) -> Option<nat>
    decreases t.len(),
{
    if t.len() == 0 || !(48 <= (t.last() as int) <= 57) {
        None
    } else if t.len() == 1 {
        Some(((t.last() as int) - 48) as nat)
    } else {
        match read_index(t.drop_last()) {
            Some(v) => Some(v * 10 + ((t.last() as int) - 48) as nat),
            None => None,
        }
    }
}

/// The node the reference tokens `ts` lead to from `n`: a mapping's value
/// under the first entry with the token as key, a sequence's item at the
/// token read as an index.
pub open spec fn resolve(n: SemanticNode, ts: Seq<Seq<char>>) -> Option<SemanticNode>
    decreases ts.len(),
{
    if ts.len() == 0 {
        Some(n)
    } else {
        match n {
            SemanticNode::Mapping(p) => {
                let j = find_key(p@, ts[0], 0);
                if 0 <= j < p@.len() { resolve(p@[j].1, ts.drop_first()) } else { None }
            },
            SemanticNode::Sequence(xs) => match read_index(ts[0]) {
                Some(i) => if i < xs@.len() { resolve(xs@[i as int], ts.drop_first()) } else { None },
                None => None,
            },
            SemanticNode::Scalar(_) => None,
        }
    }
}

/// Whether the tokens `ts` lead from `n` to a node, and, when `text` is
/// given, to one whose reported text it is.
pub open spec fn reaches(n: SemanticNode, ts: Seq<Seq<char>>, text: Option<Seq<char>>) -> bool {
    &&& resolve(n, ts) is Some
    &&& text matches Some(t) ==> node_text(resolve(n, ts)->0) == t
}

/// Whether a change's path is a JSON Pointer that, read below the tokens
/// `ps`, leads in `a` (unless the change is an addition) to the node whose
/// text it reports before, and in `b` (unless it is a removal) to the node
/// whose text it reports after.
pub open spec fn located(
    c: (Seq<char>, ChangeKind, Significance, Option<Seq<char>>, Option<Seq<char>>),
    ps: Seq<Seq<char>>,
    a: SemanticNode,
    b: SemanticNode,
) -> bool {
    exists|ts: Seq<Seq<char>>|
        read_pointer(c.0) == Some(#[trigger] (ps + ts)) && (c.1 != ChangeKind::Added ==> reaches(a, ts, c.3)) && (c.1
            != ChangeKind::Removed ==> reaches(b, ts, c.4))
}

/// Whether every change is [`located`].
pub open spec fn all_located(
    cs: Seq<(Seq<char>, ChangeKind, Significance, Option<Seq<char>>, Option<Seq<char>>)>,
    ps: Seq<Seq<char>>,
    a: SemanticNode,
    b: SemanticNode,
) -> bool {
    forall|i: int| 0 <= i < cs.len() ==> located(#[trigger] cs[i], ps, a, b)
}

proof fn lemma_pointer_token_front(k: Seq<char>, rest: Seq<char>)
    ensures
        read_token(pointer_token(k) + rest) == (match read_token(rest) {
            Some(r) => Some(k + r),
            None => None::<Seq<char>>,
        }),
        forall|m: int| 0 <= m < pointer_token(k).len() ==> #[trigger] pointer_token(k)[m] != '/',
    decreases k.len(),
{
    if k.len() > 0 {
        let c = k.last();
        let k0 = k.drop_last();
        let t = pointer_char(c) + rest;
        assert(pointer_token(k) + rest =~= pointer_token(k0) + t);
        if c == '~' {
            assert(t.skip(2) =~= rest);
        } else if c == '/' {
            assert(t.skip(2) =~= rest);
        } else {
            assert(t.drop_first() =~= rest);
        }
        lemma_pointer_token_front(k0, t);
        match read_token(rest) {
            Some(r) => {
                assert(k0 + (seq![c] + r) =~= k + r);
            },
            None => {},
        }
        assert forall|m: int| 0 <= m < pointer_token(k).len() implies #[trigger] pointer_token(k)[m] != '/' by {
            if m < pointer_token(k0).len() {
                assert(pointer_token(k)[m] == pointer_token(k0)[m]);
            }
        }
    }
}

/// A key's pointer token reads back as the key.
proof fn lemma_read_pointer_token(k: Seq<char>)
    ensures
        read_token(pointer_token(k)) == Some(k),
        forall|m: int| 0 <= m < pointer_token(k).len() ==> #[trigger] pointer_token(k)[m] != '/',
{
    lemma_pointer_token_front(k, Seq::empty());
    assert(pointer_token(k) + Seq::<char>::empty() =~= pointer_token(k));
    assert(k + Seq::<char>::empty() =~= k);
}

proof fn lemma_decimal_digits(n: nat)
    ensures
        forall|m: int| 0 <= m < decimal(n).len() ==> 48 <= (#[trigger] decimal(n)[m] as int) <= 57,
        decimal(n).len() >= 1,
        read_index(decimal(n)) == Some(n),
    decreases n,
{
    let d = n % 10;
    assert((crate::text::digit_char(d) as int) == 48 + d);
    if n >= 10 {
        lemma_decimal_digits(n / 10);
        let t = decimal(n);
        assert(t.drop_last() == decimal(n / 10));
        assert forall|m: int| 0 <= m < t.len() implies 48 <= (#[trigger] t[m] as int) <= 57 by {
            if m < t.len() - 1 {
                assert(t[m] == decimal(n / 10)[m]);
            }
        }
    }
}

/// Text with no `~` reads as itself.
proof fn lemma_read_plain_token(t: Seq<char>)
    requires
        forall|m: int| 0 <= m < t.len() ==> #[trigger] t[m] != '~',
    ensures
        read_token(t) == Some(t),
    decreases t.len(),
{
    if t.len() > 0 {
        assert(t[0] != '~');
        lemma_read_plain_token(t.drop_first());
        assert(seq![t[0]] + t.drop_first() =~= t);
    }
}

/// Text with no `/` moves no slash forward.
proof fn lemma_last_slash_suffix(u: Seq<char>, v: Seq<char>)
    requires
        forall|m: int| 0 <= m < v.len() ==> #[trigger] v[m] != '/',
    ensures
        last_slash(u + v) == last_slash(u),
    decreases v.len(),
{
    if v.len() == 0 {
        assert(u + v =~= u);
    } else {
        assert((u + v).drop_last() =~= u + v.drop_last());
        assert((u + v).last() == v.last());
        lemma_last_slash_suffix(u, v.drop_last());
    }
}

/// Appending `/` and a token with no `/` that reads as `x` adds `x` to what
/// the pointer names.
proof fn lemma_read_pointer_push(path: Seq<char>, tok: Seq<char>, x: Seq<char>)
    requires
        forall|m: int| 0 <= m < tok.len() ==> #[trigger] tok[m] != '/',
        read_token(tok) == Some(x),
    ensures
        read_pointer(path + seq!['/'] + tok) == (match read_pointer(path) {
            Some(ts) => Some(ts.push(x)),
            None => None::<Seq<Seq<char>>>,
        }),
{
    let p = path + seq!['/'] + tok;
    lemma_last_slash_suffix(path + seq!['/'], tok);
    assert(last_slash(path + seq!['/']) == path.len());
    assert(p.take(path.len() as int) =~= path);
    assert(p.skip(path.len() as int + 1) =~= tok);
}

/// The pointer of a mapping key names one more token: the key.
proof fn lemma_read_key_path(path: Seq<char>, key: Seq<char>)
    ensures
        read_pointer(key_path(path, key)) == (match read_pointer(path) {
            Some(ts) => Some(ts.push(key)),
            None => None::<Seq<Seq<char>>>,
        }),
{
    lemma_read_pointer_token(key);
    lemma_read_pointer_push(path, pointer_token(key), key);
}

/// The pointer of a sequence item names one more token: its index.
proof fn lemma_read_index_path(path: Seq<char>, i: nat)
    ensures
        read_pointer(index_path(path, i)) == (match read_pointer(path) {
            Some(ts) => Some(ts.push(decimal(i))),
            None => None::<Seq<Seq<char>>>,
        }),
        read_index(decimal(i)) == Some(i),
{
    lemma_decimal_digits(i);
    lemma_read_plain_token(decimal(i));
    lemma_read_pointer_push(path, decimal(i), decimal(i));
}

proof fn lemma_located_concat(
    x: Seq<(Seq<char>, ChangeKind, Significance, Option<Seq<char>>, Option<Seq<char>>)>,
    y: Seq<(Seq<char>, ChangeKind, Significance, Option<Seq<char>>, Option<Seq<char>>)>,
    ps: Seq<Seq<char>>,
    a: SemanticNode,
    b: SemanticNode,
)
    requires
        all_located(x, ps, a, b),
        all_located(y, ps, a, b),
    ensures
        all_located(x + y, ps, a, b),
{
    assert forall|i: int| 0 <= i < (x + y).len() implies located(#[trigger] (x + y)[i], ps, a, b) by {
        if i < x.len() {
            assert((x + y)[i] == x[i]);
        } else {
            assert((x + y)[i] == y[i - x.len()]);
        }
    }
}

/// A change at `path` itself, when the pointer reads as `ps` and both nodes
/// are there.
proof fn lemma_located_here(
    c: (Seq<char>, ChangeKind, Significance, Option<Seq<char>>, Option<Seq<char>>),
    ps: Seq<Seq<char>>,
    a: SemanticNode,
    b: SemanticNode,
)
    requires
        read_pointer(c.0) == Some(ps),
        c.3 matches Some(t) ==> t == node_text(a),
        c.4 matches Some(t) ==> t == node_text(b),
    ensures
        located(c, ps, a, b),
{
    let ts = Seq::<Seq<char>>::empty();
    assert(ps + ts =~= ps);
    assert(resolve(a, ts) == Some(a));
    assert(resolve(b, ts) == Some(b));
}

/// One step under key `k` of a mapping whose first entry with that key is `j`.
proof fn lemma_resolve_key(a: SemanticNode, k: Seq<char>, ts: Seq<Seq<char>>)
    requires
        a is Mapping,
        0 <= find_key(a->Mapping_0@, k, 0) < a->Mapping_0@.len(),
    ensures
        resolve(a, seq![k] + ts) == resolve(a->Mapping_0@[find_key(a->Mapping_0@, k, 0)].1, ts),
{
    let u = seq![k] + ts;
    assert(u[0] == k);
    assert(u.drop_first() =~= ts);
}

/// One step to item `i` of a sequence.
proof fn lemma_resolve_index(a: SemanticNode, i: nat, ts: Seq<Seq<char>>)
    requires
        a is Sequence,
        i < a->Sequence_0@.len(),
    ensures
        resolve(a, seq![decimal(i)] + ts) == resolve(a->Sequence_0@[i as int], ts),
{
    lemma_decimal_digits(i);
    let u = seq![decimal(i)] + ts;
    assert(u[0] == decimal(i));
    assert(u.drop_first() =~= ts);
}

/// Changes located below one more token `tok` from `a2` and `b2` are located
/// from `a` and `b` when `tok` leads from `a` to `a2` and from `b` to `b2`.
proof fn lemma_lift_located(
    cs: Seq<(Seq<char>, ChangeKind, Significance, Option<Seq<char>>, Option<Seq<char>>)>,
    ps: Seq<Seq<char>>,
    tok: Seq<char>,
    a: SemanticNode,
    b: SemanticNode,
    a2: SemanticNode,
    b2: SemanticNode,
)
    requires
        all_located(cs, ps.push(tok), a2, b2),
        forall|ts: Seq<Seq<char>>| #[trigger] resolve(a, seq![tok] + ts) == resolve(a2, ts),
        forall|ts: Seq<Seq<char>>| #[trigger] resolve(b, seq![tok] + ts) == resolve(b2, ts),
    ensures
        all_located(cs, ps, a, b),
{
    assert forall|i: int| 0 <= i < cs.len() implies located(#[trigger] cs[i], ps, a, b) by {
        let c = cs[i];
        assert(located(c, ps.push(tok), a2, b2));
        let ts2 = choose|ts: Seq<Seq<char>>|
            read_pointer(c.0) == Some(#[trigger] (ps.push(tok) + ts)) && (c.1 != ChangeKind::Added ==> reaches(a2, ts, c.3))
                && (c.1 != ChangeKind::Removed ==> reaches(b2, ts, c.4));
        let ts = seq![tok] + ts2;
        assert(ps + ts =~= ps.push(tok) + ts2);
        assert(resolve(a, ts) == resolve(a2, ts2));
        assert(resolve(b, ts) == resolve(b2, ts2));
    }
}

proof fn lemma_entries_located(
    path: Seq<char>,
    ps: Seq<Seq<char>>,
    a: SemanticNode,
    b: SemanticNode,
    n: int,
)
    requires
        read_pointer(path) == Some(ps),
        a is Mapping,
        b is Mapping,
        well_keyed(a),
        0 <= n <= a->Mapping_0@.len(),
        forall|i: int| 0 <= i < n && 0 <= find_key(b->Mapping_0@, (#[trigger] a->Mapping_0@[i]).0@, 0) < b->Mapping_0@.len()
            ==> all_located(
            diff_spec(
                key_path(path, a->Mapping_0@[i].0@),
                a->Mapping_0@[i].1,
                b->Mapping_0@[find_key(b->Mapping_0@, a->Mapping_0@[i].0@, 0)].1,
            ),
            ps.push(a->Mapping_0@[i].0@),
            a->Mapping_0@[i].1,
            b->Mapping_0@[find_key(b->Mapping_0@, a->Mapping_0@[i].0@, 0)].1,
        ),
    ensures
        all_located(entries_spec(path, a->Mapping_0@, b->Mapping_0@, n), ps, a, b),
    decreases n,
{
    let p = a->Mapping_0@;
    let q = b->Mapping_0@;
    if n == 0 {
        assert(entries_spec(path, p, q, n) =~= Seq::empty());
    } else {
        lemma_entries_located(path, ps, a, b, n - 1);
        let k = p[n - 1].0@;
        let j = find_key(q, k, 0);
        assert(forall|x: int, y: int| 0 <= x < y < p.len() ==> (#[trigger] p[x]).0@ != (#[trigger] p[y]).0@);
        crate::semantic::lemma_find_unique(p, n - 1, 0);
        lemma_read_key_path(path, k);
        assert(ps.push(k) =~= ps + seq![k]);
        let here = if 0 <= j < q.len() {
            diff_spec(key_path(path, k), p[n - 1].1, q[j].1)
        } else {
            seq![(key_path(path, k), ChangeKind::Removed, Significance::Semantic, Some(node_text(p[n - 1].1)), None)]
        };
        assert(entries_spec(path, p, q, n) == entries_spec(path, p, q, n - 1) + here);
        if 0 <= j < q.len() {
            assert(p[n - 1] == p[n - 1]);
            assert forall|ts: Seq<Seq<char>>| #[trigger] resolve(a, seq![k] + ts) == resolve(p[n - 1].1, ts) by {
                lemma_resolve_key(a, k, ts);
            }
            assert forall|ts: Seq<Seq<char>>| #[trigger] resolve(b, seq![k] + ts) == resolve(q[j].1, ts) by {
                lemma_resolve_key(b, k, ts);
            }
            lemma_lift_located(here, ps, k, a, b, p[n - 1].1, q[j].1);
        } else {
            let c = here[0];
            let ts = seq![k];
            lemma_resolve_key(a, k, Seq::empty());
            assert(seq![k] + Seq::<Seq<char>>::empty() =~= ts);
            assert(resolve(p[n - 1].1, Seq::<Seq<char>>::empty()) == Some(p[n - 1].1));
            assert(read_pointer(c.0) == Some(ps + ts));
            assert(reaches(a, ts, c.3));
            assert(located(c, ps, a, b));
            assert(all_located(here, ps, a, b));
        }
        lemma_located_concat(entries_spec(path, p, q, n - 1), here, ps, a, b);
    }
}

proof fn lemma_added_located(path: Seq<char>, ps: Seq<Seq<char>>, a: SemanticNode, b: SemanticNode, n: int)
    requires
        read_pointer(path) == Some(ps),
        a is Mapping,
        b is Mapping,
        well_keyed(b),
        0 <= n <= b->Mapping_0@.len(),
    ensures
        all_located(added_spec(path, a->Mapping_0@, b->Mapping_0@, n), ps, a, b),
    decreases n,
{
    let p = a->Mapping_0@;
    let q = b->Mapping_0@;
    if n == 0 {
        assert(added_spec(path, p, q, n) =~= Seq::empty());
    } else {
        lemma_added_located(path, ps, a, b, n - 1);
        let k = q[n - 1].0@;
        if find_key(p, k, 0) < 0 {
            assert(forall|x: int, y: int| 0 <= x < y < q.len() ==> (#[trigger] q[x]).0@ != (#[trigger] q[y]).0@);
            crate::semantic::lemma_find_unique(q, n - 1, 0);
            lemma_read_key_path(path, k);
            let c = (key_path(path, k), ChangeKind::Added, Significance::Semantic, None::<Seq<char>>, Some(node_text(q[n - 1].1)));
            let ts = seq![k];
            lemma_resolve_key(b, k, Seq::empty());
            assert(seq![k] + Seq::<Seq<char>>::empty() =~= ts);
            assert(resolve(q[n - 1].1, Seq::<Seq<char>>::empty()) == Some(q[n - 1].1));
            assert(ps.push(k) =~= ps + ts);
            assert(read_pointer(c.0) == Some(ps + ts));
            assert(reaches(b, ts, c.4));
            assert(located(c, ps, a, b));
            assert(added_spec(path, p, q, n) == added_spec(path, p, q, n - 1) + seq![c]);
            assert(all_located(seq![c], ps, a, b));
            lemma_located_concat(added_spec(path, p, q, n - 1), seq![c], ps, a, b);
        }
    }
}

proof fn lemma_items_located(path: Seq<char>, ps: Seq<Seq<char>>, a: SemanticNode, b: SemanticNode, n: int)
    requires
        read_pointer(path) == Some(ps),
        a is Sequence,
        b is Sequence,
        0 <= n <= a->Sequence_0@.len(),
        forall|i: int| 0 <= i < n && i < b->Sequence_0@.len() ==> all_located(
            diff_spec(index_path(path, i as nat), #[trigger] a->Sequence_0@[i], b->Sequence_0@[i]),
            ps.push(decimal(i as nat)),
            a->Sequence_0@[i],
            b->Sequence_0@[i],
        ),
    ensures
        all_located(items_spec(path, a->Sequence_0@, b->Sequence_0@, n), ps, a, b),
    decreases n,
{
    let xs = a->Sequence_0@;
    let ys = b->Sequence_0@;
    if n == 0 {
        assert(items_spec(path, xs, ys, n) =~= Seq::empty());
    } else {
        lemma_items_located(path, ps, a, b, n - 1);
        let i = (n - 1) as nat;
        let tok = decimal(i);
        lemma_read_index_path(path, i);
        let here = if n - 1 < ys.len() {
            diff_spec(index_path(path, i), xs[n - 1], ys[n - 1])
        } else {
            seq![(index_path(path, i), ChangeKind::Removed, Significance::Semantic, Some(node_text(xs[n - 1])), None)]
        };
        assert(items_spec(path, xs, ys, n) == items_spec(path, xs, ys, n - 1) + here);
        if n - 1 < ys.len() {
            assert(xs[n - 1] == xs[n - 1]);
            assert forall|ts: Seq<Seq<char>>| #[trigger] resolve(a, seq![tok] + ts) == resolve(xs[n - 1], ts) by {
                lemma_resolve_index(a, i, ts);
            }
            assert forall|ts: Seq<Seq<char>>| #[trigger] resolve(b, seq![tok] + ts) == resolve(ys[n - 1], ts) by {
                lemma_resolve_index(b, i, ts);
            }
            lemma_lift_located(here, ps, tok, a, b, xs[n - 1], ys[n - 1]);
        } else {
            let c = here[0];
            let ts = seq![tok];
            lemma_resolve_index(a, i, Seq::empty());
            assert(seq![tok] + Seq::<Seq<char>>::empty() =~= ts);
            assert(resolve(xs[n - 1], Seq::<Seq<char>>::empty()) == Some(xs[n - 1]));
            assert(ps.push(tok) =~= ps + ts);
            assert(read_pointer(c.0) == Some(ps + ts));
            assert(reaches(a, ts, c.3));
            assert(located(c, ps, a, b));
            assert(all_located(here, ps, a, b));
        }
        lemma_located_concat(items_spec(path, xs, ys, n - 1), here, ps, a, b);
    }
}

proof fn lemma_extra_located(path: Seq<char>, ps: Seq<Seq<char>>, a: SemanticNode, b: SemanticNode, n: int)
    requires
        read_pointer(path) == Some(ps),
        a is Sequence,
        b is Sequence,
        n <= b->Sequence_0@.len(),
    ensures
        all_located(extra_spec(path, a->Sequence_0@.len() as int, b->Sequence_0@, n), ps, a, b),
    decreases n,
{
    let from = a->Sequence_0@.len() as int;
    let ys = b->Sequence_0@;
    if n <= from || n > ys.len() {
        assert(extra_spec(path, from, ys, n) =~= Seq::empty());
    } else {
        lemma_extra_located(path, ps, a, b, n - 1);
        let i = (n - 1) as nat;
        let tok = decimal(i);
        lemma_read_index_path(path, i);
        let c = (index_path(path, i), ChangeKind::Added, Significance::Semantic, None::<Seq<char>>, Some(node_text(ys[n - 1])));
        let ts = seq![tok];
        lemma_resolve_index(b, i, Seq::empty());
        assert(seq![tok] + Seq::<Seq<char>>::empty() =~= ts);
        assert(resolve(ys[n - 1], Seq::<Seq<char>>::empty()) == Some(ys[n - 1]));
        assert(ps.push(tok) =~= ps + ts);
        assert(read_pointer(c.0) == Some(ps + ts));
        assert(reaches(b, ts, c.4));
        assert(located(c, ps, a, b));
        assert(extra_spec(path, from, ys, n) == extra_spec(path, from, ys, n - 1).push(c));
        assert(extra_spec(path, from, ys, n - 1).push(c) =~= extra_spec(path, from, ys, n - 1) + seq![c]);
        assert(all_located(seq![c], ps, a, b));
        lemma_located_concat(extra_spec(path, from, ys, n - 1), seq![c], ps, a, b);
    }
}

/// Every change the diff reports under `path` is located: its path is a JSON
/// Pointer that reads as the tokens of `path` and then the keys and indices
/// that lead, in `a` and in `b`, to the nodes whose text the change reports;
/// for views with distinct keys in every mapping.
pub proof fn lemma_changes_are_located(path: Seq<char>, ps: Seq<Seq<char>>, a: SemanticNode, b: SemanticNode)
    requires
        read_pointer(path) == Some(ps),
        well_keyed(a),
        well_keyed(b),
    ensures
        all_located(diff_spec(path, a, b), ps, a, b),
    decreases a,
{
    let d = diff_spec(path, a, b);
    match a {
        SemanticNode::Scalar(x) => match b {
            SemanticNode::Scalar(y) => {
                if d.len() > 0 {
                    lemma_located_here(d[0], ps, a, b);
                }
            },
            _ => {
                lemma_located_here(d[0], ps, a, b);
            },
        },
        SemanticNode::Mapping(p) => match b {
            SemanticNode::Mapping(q) => {
                let m = moved_spec(path, p@, q@);
                if m.len() > 0 {
                    lemma_located_here(m[0], ps, a, b);
                }
                assert(all_located(m, ps, a, b));
                assert forall|i: int| 0 <= i < p@.len() && 0 <= find_key(q@, (#[trigger] p@[i]).0@, 0) < q@.len()
                    implies all_located(
                    diff_spec(key_path(path, p@[i].0@), p@[i].1, q@[find_key(q@, p@[i].0@, 0)].1),
                    ps.push(p@[i].0@),
                    p@[i].1,
                    q@[find_key(q@, p@[i].0@, 0)].1,
                ) by {
                    let j = find_key(q@, p@[i].0@, 0);
                    lemma_read_key_path(path, p@[i].0@);
                    assert(decreases_to!(a => p));
                    assert(decreases_to!(p => p@));
                    assert(decreases_to!(p@ => p@[i]));
                    assert(decreases_to!(p@[i] => p@[i].1));
                    assert(well_keyed(p@[i].1));
                    assert(q@[j] == q@[j]);
                    assert(well_keyed(q@[j].1));
                    lemma_changes_are_located(key_path(path, p@[i].0@), ps.push(p@[i].0@), p@[i].1, q@[j].1);
                }
                lemma_entries_located(path, ps, a, b, p@.len() as int);
                lemma_added_located(path, ps, a, b, q@.len() as int);
                let e = entries_spec(path, p@, q@, p@.len() as int);
                let ad = added_spec(path, p@, q@, q@.len() as int);
                lemma_located_concat(m, e, ps, a, b);
                lemma_located_concat(m + e, ad, ps, a, b);
            },
            _ => {
                lemma_located_here(d[0], ps, a, b);
            },
        },
        SemanticNode::Sequence(xs) => match b {
            SemanticNode::Sequence(ys) => {
                assert forall|i: int| 0 <= i < xs@.len() && i < ys@.len() implies all_located(
                    diff_spec(index_path(path, i as nat), #[trigger] xs@[i], ys@[i]),
                    ps.push(decimal(i as nat)),
                    xs@[i],
                    ys@[i],
                ) by {
                    lemma_read_index_path(path, i as nat);
                    assert(decreases_to!(a => xs));
                    assert(decreases_to!(xs => xs@));
                    assert(decreases_to!(xs@ => xs@[i]));
                    assert(well_keyed(xs@[i]));
                    assert(well_keyed(ys@[i]));
                    lemma_changes_are_located(index_path(path, i as nat), ps.push(decimal(i as nat)), xs@[i], ys@[i]);
                }
                lemma_items_located(path, ps, a, b, xs@.len() as int);
                lemma_extra_located(path, ps, a, b, ys@.len() as int);
                lemma_located_concat(
                    items_spec(path, xs@, ys@, xs@.len() as int),
                    extra_spec(path, xs@.len() as int, ys@, ys@.len() as int),
                    ps,
                    a,
                    b,
                );
            },
            _ => {
                lemma_located_here(d[0], ps, a, b);
            },
        },
    }
}

// --- what the diff promises -------------------------------------------------------

/// Whether none of the changes alters what the document means.
pub open spec fn meaning_kept(cs: Seq<(Seq<char>, ChangeKind, Significance, Option<Seq<char>>, Option<Seq<char>>)>) -> bool {
    forall|i: int| 0 <= i < cs.len() ==> (#[trigger] cs[i]).2 == Significance::Formatting
}

proof fn lemma_kept_concat(
    x: Seq<(Seq<char>, ChangeKind, Significance, Option<Seq<char>>, Option<Seq<char>>)>,
    y: Seq<(Seq<char>, ChangeKind, Significance, Option<Seq<char>>, Option<Seq<char>>)>,
)
    ensures
        meaning_kept(x + y) <==> meaning_kept(x) && meaning_kept(y),
{
    if meaning_kept(x + y) {
        assert forall|i: int| 0 <= i < x.len() implies (#[trigger] x[i]).2 == Significance::Formatting by {
            assert((x + y)[i] == x[i]);
        }
        assert forall|i: int| 0 <= i < y.len() implies (#[trigger] y[i]).2 == Significance::Formatting by {
            assert((x + y)[x.len() + i] == y[i]);
        }
    }
    if meaning_kept(x) && meaning_kept(y) {
        assert forall|i: int| 0 <= i < (x + y).len() implies (#[trigger] (x + y)[i]).2 == Significance::Formatting by {
            if i < x.len() {
                assert((x + y)[i] == x[i]);
            } else {
                assert((x + y)[i] == y[i - x.len()]);
            }
        }
    }
}

/// The changes under the entries of `p` keep the meaning exactly when every
/// key of `p` is in `q` and each value's changes keep it.
proof fn lemma_entries_kept(path: Seq<char>, p: Seq<(String, SemanticNode)>, q: Seq<(String, SemanticNode)>, n: int)
    requires
        0 <= n <= p.len(),
    ensures
        meaning_kept(entries_spec(path, p, q, n)) <==> forall|i: int| 0 <= i < n ==> {
            let j = find_key(q, (#[trigger] p[i]).0@, 0);
            0 <= j < q.len() && meaning_kept(diff_spec(key_path(path, p[i].0@), p[i].1, q[j].1))
        },
    decreases n,
{
    if n > 0 {
        lemma_entries_kept(path, p, q, n - 1);
        let j = find_key(q, p[n - 1].0@, 0);
        let here = if 0 <= j < q.len() {
            diff_spec(key_path(path, p[n - 1].0@), p[n - 1].1, q[j].1)
        } else {
            seq![(key_path(path, p[n - 1].0@), ChangeKind::Removed, Significance::Semantic, Some(node_text(p[n - 1].1)), None)]
        };
        assert(entries_spec(path, p, q, n) == entries_spec(path, p, q, n - 1) + here);
        lemma_kept_concat(entries_spec(path, p, q, n - 1), here);
        if !(0 <= j < q.len()) {
            assert(here[0].2 == Significance::Semantic);
        }
    }
}

/// The additions keep the meaning exactly when every key of `q` is in `p`.
proof fn lemma_added_kept(path: Seq<char>, p: Seq<(String, SemanticNode)>, q: Seq<(String, SemanticNode)>, n: int)
    requires
        0 <= n <= q.len(),
    ensures
        meaning_kept(added_spec(path, p, q, n)) <==> forall|k: int| 0 <= k < n ==> find_key(p, (#[trigger] q[k]).0@, 0) >= 0,
    decreases n,
{
    if n > 0 {
        lemma_added_kept(path, p, q, n - 1);
        let prev = added_spec(path, p, q, n - 1);
        if find_key(p, q[n - 1].0@, 0) < 0 {
            let x = (key_path(path, q[n - 1].0@), ChangeKind::Added, Significance::Semantic, None::<Seq<char>>, Some(node_text(q[n - 1].1)));
            assert(added_spec(path, p, q, n) == prev + seq![x]);
            lemma_kept_concat(prev, seq![x]);
            assert(seq![x][0].2 == Significance::Semantic);
        }
    }
}

/// The changes under the items of `xs` keep the meaning exactly when `ys` has
/// an item at each index and each pair's changes keep it.
proof fn lemma_items_kept(path: Seq<char>, xs: Seq<SemanticNode>, ys: Seq<SemanticNode>, n: int)
    requires
        0 <= n <= xs.len(),
    ensures
        meaning_kept(items_spec(path, xs, ys, n)) <==> forall|i: int| 0 <= i < n ==> i < ys.len()
            && meaning_kept(diff_spec(index_path(path, i as nat), #[trigger] xs[i], ys[i])),
    decreases n,
{
    if n > 0 {
        lemma_items_kept(path, xs, ys, n - 1);
        let here = if n - 1 < ys.len() {
            diff_spec(index_path(path, (n - 1) as nat), xs[n - 1], ys[n - 1])
        } else {
            seq![(index_path(path, (n - 1) as nat), ChangeKind::Removed, Significance::Semantic, Some(node_text(xs[n - 1])), None)]
        };
        assert(items_spec(path, xs, ys, n) == items_spec(path, xs, ys, n - 1) + here);
        lemma_kept_concat(items_spec(path, xs, ys, n - 1), here);
        if n - 1 >= ys.len() {
            assert(here[0].2 == Significance::Semantic);
        }
    }
}

/// Surplus items are additions: none exactly when there is no surplus.
proof fn lemma_extra_kept(path: Seq<char>, from: int, ys: Seq<SemanticNode>)
    requires
        0 <= from,
    ensures
        meaning_kept(extra_spec(path, from, ys, ys.len() as int)) <==> ys.len() <= from,
{
    if ys.len() > from {
        let s = extra_spec(path, from, ys, ys.len() as int);
        assert(s[s.len() - 1].2 == Significance::Semantic);
    } else {
        assert(extra_spec(path, from, ys, ys.len() as int) =~= Seq::empty());
    }
}

/// An injective map of `0..n` into `0..m` needs `n <= m`.
proof fn lemma_into(n: int, m: int, f: spec_fn(int) -> int)
    requires
        n >= 0,
        m >= 0,
        forall|i: int| 0 <= i < n ==> 0 <= #[trigger] f(i) < m,
        forall|i: int, k: int| 0 <= i < n && 0 <= k < n && #[trigger] f(i) == #[trigger] f(k) ==> i == k,
    ensures
        n <= m,
{
    let r = vstd::set_lib::set_int_range(0, n);
    let t = vstd::set_lib::set_int_range(0, m);
    vstd::set_lib::lemma_int_range(0, n);
    vstd::set_lib::lemma_int_range(0, m);
    let img = r.map(f);
    assert(vstd::relations::injective_on(f, r));
    vstd::set_lib::lemma_map_size(r, img, f);
    assert(img.subset_of(t));
    vstd::set_lib::lemma_len_subset(img, t);
}

/// Every key of `p` is found in `q`, keys on each side distinct: `p` is no longer.
proof fn lemma_keys_into(p: Seq<(String, SemanticNode)>, q: Seq<(String, SemanticNode)>)
    requires
        forall|i: int, j: int| 0 <= i < j < p.len() ==> (#[trigger] p[i]).0@ != (#[trigger] p[j]).0@,
        forall|i: int| 0 <= i < p.len() ==> find_key(q, (#[trigger] p[i]).0@, 0) >= 0,
    ensures
        p.len() <= q.len(),
{
    let n = p.len() as int;
    let f = |i: int| find_key(q, p[i].0@, 0);
    assert forall|i: int| 0 <= i < n implies 0 <= #[trigger] f(i) < q.len() && q[f(i)].0@ == p[i].0@ by {
        assert(find_key(q, p[i].0@, 0) >= 0);
        crate::semantic::lemma_find_key_found(q, p[i].0@, 0);
    }
    assert forall|i: int, k: int| 0 <= i < n && 0 <= k < n && #[trigger] f(i) == #[trigger] f(k) implies i == k by {
        if i < k {
            assert(p[i].0@ != p[k].0@);
        } else if k < i {
            assert(p[k].0@ != p[i].0@);
        }
    }
    lemma_into(n, q.len() as int, f);
}

/// The diff of two views states their meaning faithfully: for views whose
/// mappings have distinct keys at every depth, no change is marked semantic
/// exactly when the two mean the same. Same meaning, nothing semantic; a
/// value that differs anywhere, some semantic change.
pub proof fn lemma_semantic_exactly_when_meaning_differs(path: Seq<char>, a: SemanticNode, b: SemanticNode)
    requires
        well_keyed(a),
        well_keyed(b),
    ensures
        meaning_kept(diff_spec(path, a, b)) <==> same_value_spec(a, b),
    decreases a,
{
    match a {
        SemanticNode::Scalar(x) => match b {
            SemanticNode::Scalar(y) => {},
            _ => {
                assert(diff_spec(path, a, b)[0].2 == Significance::Semantic);
            },
        },
        SemanticNode::Mapping(p) => match b {
            SemanticNode::Mapping(q) => {
                let m = moved_spec(path, p@, q@);
                let e = entries_spec(path, p@, q@, p@.len() as int);
                let d = added_spec(path, p@, q@, q@.len() as int);
                assert(diff_spec(path, a, b) == m + e + d);
                lemma_kept_concat(m + e, d);
                lemma_kept_concat(m, e);
                assert(meaning_kept(m));
                lemma_entries_kept(path, p@, q@, p@.len() as int);
                lemma_added_kept(path, p@, q@, q@.len() as int);
                assert(forall|i: int, j: int| 0 <= i < j < p@.len() ==> (#[trigger] p@[i]).0@ != (#[trigger] p@[j]).0@);
                assert(forall|i: int, j: int| 0 <= i < j < q@.len() ==> (#[trigger] q@[i]).0@ != (#[trigger] q@[j]).0@);
                assert forall|i: int| 0 <= i < p@.len() && 0 <= find_key(q@, (#[trigger] p@[i]).0@, 0) < q@.len() implies
                    (meaning_kept(diff_spec(key_path(path, p@[i].0@), p@[i].1, q@[find_key(q@, p@[i].0@, 0)].1))
                        <==> same_value_spec(p@[i].1, q@[find_key(q@, p@[i].0@, 0)].1)) by {
                    let j = find_key(q@, p@[i].0@, 0);
                    assert(decreases_to!(a => p));
                    assert(decreases_to!(p => p@));
                    assert(decreases_to!(p@ => p@[i]));
                    assert(decreases_to!(p@[i] => p@[i].1));
                    assert(well_keyed(p@[i].1));
                    assert(q@[j] == q@[j]);
                    assert(well_keyed(q@[j].1));
                    lemma_semantic_exactly_when_meaning_differs(key_path(path, p@[i].0@), p@[i].1, q@[j].1);
                }
                if same_value_spec(a, b) {
                    assert forall|i: int| 0 <= i < p@.len() implies 0 <= find_key(q@, (#[trigger] p@[i]).0@, 0) < q@.len() by {
                        crate::semantic::lemma_find_key_found(q@, p@[i].0@, 0);
                    }
                    crate::semantic::lemma_same_value_symmetric(a, b);
                    assert forall|k: int| 0 <= k < q@.len() implies find_key(p@, (#[trigger] q@[k]).0@, 0) >= 0 by {
                        assert(q@[k] == q@[k]);
                    }
                }
                if meaning_kept(diff_spec(path, a, b)) {
                    assert forall|i: int| 0 <= i < p@.len() implies find_key(q@, (#[trigger] p@[i]).0@, 0) >= 0 by {
                        assert(p@[i] == p@[i]);
                    }
                    lemma_keys_into(p@, q@);
                    assert forall|k: int| 0 <= k < q@.len() implies find_key(p@, (#[trigger] q@[k]).0@, 0) >= 0 by {
                        assert(q@[k] == q@[k]);
                    }
                    lemma_keys_into(q@, p@);
                    assert forall|i: int| 0 <= i < p@.len() implies {
                        let j = find_key(q@, (#[trigger] p@[i]).0@, 0);
                        j >= 0 && same_value_spec(p@[i].1, q@[j].1)
                    } by {
                        assert(p@[i] == p@[i]);
                    }
                }
            },
            _ => {
                assert(diff_spec(path, a, b)[0].2 == Significance::Semantic);
            },
        },
        SemanticNode::Sequence(xs) => match b {
            SemanticNode::Sequence(ys) => {
                let it = items_spec(path, xs@, ys@, xs@.len() as int);
                let ex = extra_spec(path, xs@.len() as int, ys@, ys@.len() as int);
                assert(diff_spec(path, a, b) == it + ex);
                lemma_kept_concat(it, ex);
                lemma_items_kept(path, xs@, ys@, xs@.len() as int);
                lemma_extra_kept(path, xs@.len() as int, ys@);
                assert forall|i: int| 0 <= i < xs@.len() && i < ys@.len() implies
                    (meaning_kept(diff_spec(index_path(path, i as nat), #[trigger] xs@[i], ys@[i])) <==> same_value_spec(xs@[i], ys@[i])) by {
                    assert(decreases_to!(a => xs));
                    assert(decreases_to!(xs => xs@));
                    assert(decreases_to!(xs@ => xs@[i]));
                    assert(well_keyed(xs@[i]));
                    assert(well_keyed(ys@[i]));
                    lemma_semantic_exactly_when_meaning_differs(index_path(path, i as nat), xs@[i], ys@[i]);
                }
                if meaning_kept(diff_spec(path, a, b)) && xs@.len() > ys@.len() {
                    assert(xs@[ys@.len() as int] == xs@[ys@.len() as int]);
                }
            },
            _ => {
                assert(diff_spec(path, a, b)[0].2 == Significance::Semantic);
            },
        },
    }
}

/// Whether two views are spelled alike: scalars with the same text and
/// value, mappings with the same keys in the same order and values spelled
/// alike, sequences with items spelled alike.
pub open spec fn spelled_alike(a: SemanticNode, b: SemanticNode) -> bool
    decreases a,
{
    match a {
        SemanticNode::Scalar(x) => b matches SemanticNode::Scalar(y) && x.text@ == y.text@ && x.value@ == y.value@,
        SemanticNode::Mapping(p) => b matches SemanticNode::Mapping(q) && p@.len() == q@.len()
            && forall|i: int| 0 <= i < p@.len() ==> (#[trigger] p@[i]).0@ == q@[i].0@ && spelled_alike(p@[i].1, q@[i].1),
        SemanticNode::Sequence(xs) => b matches SemanticNode::Sequence(ys) && xs@.len() == ys@.len()
            && forall|i: int| 0 <= i < xs@.len() ==> spelled_alike(#[trigger] xs@[i], ys@[i]),
    }
}

/// Every view is spelled like itself.
pub proof fn lemma_spelled_alike_reflexive(a: SemanticNode)
    ensures
        spelled_alike(a, a),
    decreases a,
{
    match a {
        SemanticNode::Scalar(_) => {},
        SemanticNode::Mapping(p) => {
            assert forall|i: int| 0 <= i < p@.len() implies (#[trigger] p@[i]).0@ == p@[i].0@ && spelled_alike(p@[i].1, p@[i].1) by {
                assert(decreases_to!(a => p));
                assert(decreases_to!(p => p@));
                assert(decreases_to!(p@ => p@[i]));
                assert(decreases_to!(p@[i] => p@[i].1));
                lemma_spelled_alike_reflexive(p@[i].1);
            }
        },
        SemanticNode::Sequence(xs) => {
            assert forall|i: int| 0 <= i < xs@.len() implies spelled_alike(#[trigger] xs@[i], xs@[i]) by {
                assert(decreases_to!(a => xs));
                assert(decreases_to!(xs => xs@));
                assert(decreases_to!(xs@ => xs@[i]));
                lemma_spelled_alike_reflexive(xs@[i]);
            }
        },
    }
}

/// When every one of the first `n` keys of `p` is in `q`, they are all shared.
proof fn lemma_common_all(p: Seq<(String, SemanticNode)>, q: Seq<(String, SemanticNode)>, n: int)
    requires
        0 <= n <= p.len(),
        forall|i: int| 0 <= i < n ==> find_key(q, (#[trigger] p[i]).0@, 0) >= 0,
    ensures
        common_keys(p, q, n) == Seq::new(n as nat, |i: int| p[i].0@),
    decreases n,
{
    if n > 0 {
        assert(p[n - 1] == p[n - 1]);
        lemma_common_all(p, q, n - 1);
        assert(common_keys(p, q, n) =~= Seq::new(n as nat, |i: int| p[i].0@));
    } else {
        assert(common_keys(p, q, n) =~= Seq::new(n as nat, |i: int| p[i].0@));
    }
}

/// No change under the entries of `p` exactly when every key of `p` is in
/// `q` and each value's diff is empty.
proof fn lemma_entries_none(path: Seq<char>, p: Seq<(String, SemanticNode)>, q: Seq<(String, SemanticNode)>, n: int)
    requires
        0 <= n <= p.len(),
    ensures
        (entries_spec(path, p, q, n).len() == 0) <==> forall|i: int| 0 <= i < n ==> {
            let j = find_key(q, (#[trigger] p[i]).0@, 0);
            0 <= j < q.len() && diff_spec(key_path(path, p[i].0@), p[i].1, q[j].1).len() == 0
        },
    decreases n,
{
    if n > 0 {
        lemma_entries_none(path, p, q, n - 1);
        assert(p[n - 1] == p[n - 1]);
    }
}

/// No addition exactly when every key of `q` is in `p`.
proof fn lemma_added_none(path: Seq<char>, p: Seq<(String, SemanticNode)>, q: Seq<(String, SemanticNode)>, n: int)
    requires
        0 <= n <= q.len(),
    ensures
        (added_spec(path, p, q, n).len() == 0) <==> forall|k: int| 0 <= k < n ==> find_key(p, (#[trigger] q[k]).0@, 0) >= 0,
    decreases n,
{
    if n > 0 {
        lemma_added_none(path, p, q, n - 1);
        assert(q[n - 1] == q[n - 1]);
    }
}

/// No change under the items of `xs` exactly when `ys` has an item at each
/// index and each pair's diff is empty.
proof fn lemma_items_none(path: Seq<char>, xs: Seq<SemanticNode>, ys: Seq<SemanticNode>, n: int)
    requires
        0 <= n <= xs.len(),
    ensures
        (items_spec(path, xs, ys, n).len() == 0) <==> forall|i: int| 0 <= i < n ==> i < ys.len()
            && diff_spec(index_path(path, i as nat), #[trigger] xs[i], ys[i]).len() == 0,
    decreases n,
{
    if n > 0 {
        lemma_items_none(path, xs, ys, n - 1);
        assert(xs[n - 1] == xs[n - 1]);
    }
}

/// The diff of two views is empty exactly when they are spelled alike, for
/// views whose mappings have distinct keys at every depth: a document diffed
/// with itself gives no change at all, and two documents that differ in
/// spelling alone (key order, quoting, layout of a scalar) give at least one
/// change, each of them a formatting one when they mean the same.
pub proof fn lemma_no_change_exactly_when_spelled_alike(path: Seq<char>, a: SemanticNode, b: SemanticNode)
    requires
        well_keyed(a),
        well_keyed(b),
    ensures
        (diff_spec(path, a, b).len() == 0) <==> spelled_alike(a, b),
    decreases a,
{
    match a {
        SemanticNode::Scalar(x) => match b {
            SemanticNode::Scalar(y) => {},
            _ => {},
        },
        SemanticNode::Mapping(p) => match b {
            SemanticNode::Mapping(q) => {
                let m = moved_spec(path, p@, q@);
                let e = entries_spec(path, p@, q@, p@.len() as int);
                let d = added_spec(path, p@, q@, q@.len() as int);
                assert(diff_spec(path, a, b) == m + e + d);
                lemma_entries_none(path, p@, q@, p@.len() as int);
                lemma_added_none(path, p@, q@, q@.len() as int);
                assert(forall|i: int, j: int| 0 <= i < j < p@.len() ==> (#[trigger] p@[i]).0@ != (#[trigger] p@[j]).0@);
                assert(forall|i: int, j: int| 0 <= i < j < q@.len() ==> (#[trigger] q@[i]).0@ != (#[trigger] q@[j]).0@);
                assert forall|i: int| 0 <= i < p@.len() && 0 <= find_key(q@, (#[trigger] p@[i]).0@, 0) < q@.len() implies
                    ((diff_spec(key_path(path, p@[i].0@), p@[i].1, q@[find_key(q@, p@[i].0@, 0)].1).len() == 0)
                        <==> spelled_alike(p@[i].1, q@[find_key(q@, p@[i].0@, 0)].1)) by {
                    let j = find_key(q@, p@[i].0@, 0);
                    assert(decreases_to!(a => p));
                    assert(decreases_to!(p => p@));
                    assert(decreases_to!(p@ => p@[i]));
                    assert(decreases_to!(p@[i] => p@[i].1));
                    assert(well_keyed(p@[i].1));
                    assert(q@[j] == q@[j]);
                    assert(well_keyed(q@[j].1));
                    lemma_no_change_exactly_when_spelled_alike(key_path(path, p@[i].0@), p@[i].1, q@[j].1);
                }
                if spelled_alike(a, b) {
                    assert forall|i: int| 0 <= i < p@.len() implies find_key(q@, (#[trigger] p@[i]).0@, 0) == i by {
                        assert(q@[i].0@ == p@[i].0@);
                        crate::semantic::lemma_find_unique(q@, i, 0);
                    }
                    assert forall|k: int| 0 <= k < q@.len() implies find_key(p@, (#[trigger] q@[k]).0@, 0) >= 0 by {
                        assert(p@[k].0@ == q@[k].0@);
                        crate::semantic::lemma_find_unique(p@, k, 0);
                    }
                    lemma_common_all(p@, q@, p@.len() as int);
                    lemma_common_all(q@, p@, q@.len() as int);
                    assert(common_keys(p@, q@, p@.len() as int) =~= common_keys(q@, p@, q@.len() as int));
                    assert(m.len() == 0);
                }
                if diff_spec(path, a, b).len() == 0 {
                    assert(m.len() == 0 && e.len() == 0 && d.len() == 0);
                    assert forall|i: int| 0 <= i < p@.len() implies find_key(q@, (#[trigger] p@[i]).0@, 0) >= 0 by {
                        assert(p@[i] == p@[i]);
                    }
                    lemma_keys_into(p@, q@);
                    lemma_keys_into(q@, p@);
                    lemma_common_all(p@, q@, p@.len() as int);
                    lemma_common_all(q@, p@, q@.len() as int);
                    assert forall|i: int| 0 <= i < p@.len() implies (#[trigger] p@[i]).0@ == q@[i].0@ && spelled_alike(p@[i].1, q@[i].1) by {
                        assert(common_keys(p@, q@, p@.len() as int)[i] == common_keys(q@, p@, q@.len() as int)[i]);
                        assert(p@[i].0@ == q@[i].0@);
                        crate::semantic::lemma_find_unique(q@, i, 0);
                    }
                }
            },
            _ => {},
        },
        SemanticNode::Sequence(xs) => match b {
            SemanticNode::Sequence(ys) => {
                let it = items_spec(path, xs@, ys@, xs@.len() as int);
                let ex = extra_spec(path, xs@.len() as int, ys@, ys@.len() as int);
                assert(diff_spec(path, a, b) == it + ex);
                lemma_items_none(path, xs@, ys@, xs@.len() as int);
                if ys@.len() > xs@.len() {
                    assert(ex.len() > 0);
                } else {
                    assert(ex =~= Seq::empty());
                }
                assert forall|i: int| 0 <= i < xs@.len() && i < ys@.len() implies
                    ((diff_spec(index_path(path, i as nat), #[trigger] xs@[i], ys@[i]).len() == 0) <==> spelled_alike(xs@[i], ys@[i])) by {
                    assert(decreases_to!(a => xs));
                    assert(decreases_to!(xs => xs@));
                    assert(decreases_to!(xs@ => xs@[i]));
                    assert(well_keyed(xs@[i]));
                    assert(well_keyed(ys@[i]));
                    lemma_no_change_exactly_when_spelled_alike(index_path(path, i as nat), xs@[i], ys@[i]);
                }
                if diff_spec(path, a, b).len() == 0 && xs@.len() > ys@.len() {
                    assert(xs@[ys@.len() as int] == xs@[ys@.len() as int]);
                }
            },
            _ => {},
        },
    }
}

/// A document diffed with itself gives no change at all, for a view whose
/// mappings have distinct keys at every depth.
pub proof fn lemma_self_diff_is_empty(path: Seq<char>, a: SemanticNode)
    requires
        well_keyed(a),
    ensures
        diff_spec(path, a, a).len() == 0,
{
    lemma_spelled_alike_reflexive(a);
    lemma_no_change_exactly_when_spelled_alike(path, a, a);
}

/// Two YAML views of one meaning, source text included, are spelled alike.
pub proof fn lemma_one_meaning_one_spelling(a: SemanticNode, b: SemanticNode, m: Meaning)
    requires
        denotes(a, m),
        denotes(b, m),
    ensures
        spelled_alike(a, b),
    decreases a,
{
    match a {
        SemanticNode::Scalar(_) => {},
        SemanticNode::Mapping(p) => {
            let q = b->Mapping_0;
            let e = m->Mapping_0;
            assert forall|i: int| 0 <= i < p@.len() implies (#[trigger] p@[i]).0@ == q@[i].0@ && spelled_alike(p@[i].1, q@[i].1) by {
                assert(q@[i] == q@[i]);
                assert(denotes(p@[i].1, e[i].1));
                assert(denotes(q@[i].1, e[i].1));
                assert(decreases_to!(a => p));
                assert(decreases_to!(p => p@));
                assert(decreases_to!(p@ => p@[i]));
                assert(decreases_to!(p@[i] => p@[i].1));
                lemma_one_meaning_one_spelling(p@[i].1, q@[i].1, e[i].1);
            }
        },
        SemanticNode::Sequence(xs) => {
            let ys = b->Sequence_0;
            let e = m->Sequence_0;
            assert forall|i: int| 0 <= i < xs@.len() implies spelled_alike(#[trigger] xs@[i], ys@[i]) by {
                assert(ys@[i] == ys@[i]);
                assert(denotes(xs@[i], e[i]));
                assert(decreases_to!(a => xs));
                assert(decreases_to!(xs => xs@));
                assert(decreases_to!(xs@ => xs@[i]));
                lemma_one_meaning_one_spelling(xs@[i], ys@[i], e[i]);
            }
        },
    }
}

/// Two YAML views of one tree's meaning diff to nothing: a document viewed
/// twice, and diffed, reports no change.
pub proof fn lemma_views_of_one_meaning_diff_to_nothing(a: SemanticNode, b: SemanticNode, m: Meaning)
    requires
        denotes(a, m),
        denotes(b, m),
        well_keyed(a),
        well_keyed(b),
    ensures
        diff_spec(Seq::empty(), a, b).len() == 0,
{
    lemma_one_meaning_one_spelling(a, b, m);
    lemma_no_change_exactly_when_spelled_alike(Seq::empty(), a, b);
}

/// Two views that mean the same but are spelled differently give at least
/// one change, and only formatting ones.
pub proof fn lemma_spelling_alone_is_formatting(path: Seq<char>, a: SemanticNode, b: SemanticNode)
    requires
        well_keyed(a),
        well_keyed(b),
        same_value_spec(a, b),
        !spelled_alike(a, b),
    ensures
        diff_spec(path, a, b).len() >= 1,
        meaning_kept(diff_spec(path, a, b)),
{
    lemma_no_change_exactly_when_spelled_alike(path, a, b);
    lemma_semantic_exactly_when_meaning_differs(path, a, b);
}

// --- the report's order ----------------------------------------------------------

/// Where a change kind sorts among changes at one path.
pub open spec fn kind_rank(k: ChangeKind) -> int {
    match k {
        ChangeKind::Added => 0,
        ChangeKind::Removed => 1,
        ChangeKind::Changed => 2,
        ChangeKind::Moved => 3,
    }
}

/// Whether text `a` comes strictly before `b` character by character, which
/// is the order of their UTF-8 bytes.
pub open spec fn text_before(a: Seq<char>, b: Seq<char>) -> bool
    decreases a.len(),
{
    if a.len() == 0 {
        b.len() > 0
    } else if b.len() == 0 {
        false
    } else if a[0] != b[0] {
        (a[0] as int) < (b[0] as int)
    } else {
        text_before(a.drop_first(), b.drop_first())
    }
}

/// Whether change `x` may come before change `y` in a report: by path, then
/// by kind.
pub open spec fn change_le(
    x: (Seq<char>, ChangeKind, Significance, Option<Seq<char>>, Option<Seq<char>>),
    y: (Seq<char>, ChangeKind, Significance, Option<Seq<char>>, Option<Seq<char>>),
) -> bool {
    text_before(x.0, y.0) || (x.0 == y.0 && kind_rank(x.1) <= kind_rank(y.1))
}

/// Whether changes are in report order: by path bytes, then by kind.
pub open spec fn in_report_order(cs: Seq<(Seq<char>, ChangeKind, Significance, Option<Seq<char>>, Option<Seq<char>>)>) -> bool {
    forall|i: int, j: int| 0 <= i < j < cs.len() ==> change_le(#[trigger] cs[i], #[trigger] cs[j])
}

proof fn lemma_text_before_transitive(a: Seq<char>, b: Seq<char>, c: Seq<char>)
    requires
        text_before(a, b),
        text_before(b, c),
    ensures
        text_before(a, c),
    decreases a.len(),
{
    if a.len() > 0 && b.len() > 0 && c.len() > 0 && a[0] == b[0] && b[0] == c[0] {
        lemma_text_before_transitive(a.drop_first(), b.drop_first(), c.drop_first());
    }
}

proof fn lemma_text_before_total(a: Seq<char>, b: Seq<char>)
    ensures
        a == b || text_before(a, b) || text_before(b, a),
    decreases a.len(),
{
    if a.len() == 0 && b.len() == 0 {
        assert(a =~= b);
    } else if a.len() > 0 && b.len() > 0 && a[0] == b[0] {
        lemma_text_before_total(a.drop_first(), b.drop_first());
        if a.drop_first() == b.drop_first() {
            assert(a =~= seq![a[0]] + a.drop_first());
            assert(b =~= seq![b[0]] + b.drop_first());
        }
    }
}

proof fn lemma_change_le_transitive(
    x: (Seq<char>, ChangeKind, Significance, Option<Seq<char>>, Option<Seq<char>>),
    y: (Seq<char>, ChangeKind, Significance, Option<Seq<char>>, Option<Seq<char>>),
    z: (Seq<char>, ChangeKind, Significance, Option<Seq<char>>, Option<Seq<char>>),
)
    requires
        change_le(x, y),
        change_le(y, z),
    ensures
        change_le(x, z),
{
    if text_before(x.0, y.0) && text_before(y.0, z.0) {
        lemma_text_before_transitive(x.0, y.0, z.0);
    }
}

proof fn lemma_change_le_total(
    x: (Seq<char>, ChangeKind, Significance, Option<Seq<char>>, Option<Seq<char>>),
    y: (Seq<char>, ChangeKind, Significance, Option<Seq<char>>, Option<Seq<char>>),
)
    ensures
        change_le(x, y) || change_le(y, x),
{
    lemma_text_before_total(x.0, y.0);
}

/// Reordering changes keeps how many there are and whether any is semantic.
pub proof fn lemma_reorder_keeps_count_and_meaning(
    x: Seq<(Seq<char>, ChangeKind, Significance, Option<Seq<char>>, Option<Seq<char>>)>,
    y: Seq<(Seq<char>, ChangeKind, Significance, Option<Seq<char>>, Option<Seq<char>>)>,
)
    requires
        x.to_multiset() == y.to_multiset(),
    ensures
        x.len() == y.len(),
        meaning_kept(x) <==> meaning_kept(y),
{
    vstd::seq_lib::to_multiset_len(x);
    vstd::seq_lib::to_multiset_len(y);
    if meaning_kept(x) && !meaning_kept(y) {
        let i = choose|i: int| 0 <= i < y.len() && (#[trigger] y[i]).2 != Significance::Formatting;
        vstd::seq_lib::to_multiset_contains(y, y[i]);
        vstd::seq_lib::to_multiset_contains(x, y[i]);
        assert(y.contains(y[i]));
        let k = choose|k: int| 0 <= k < x.len() && x[k] == y[i];
        assert(x[k].2 == Significance::Formatting);
    }
    if meaning_kept(y) && !meaning_kept(x) {
        let i = choose|i: int| 0 <= i < x.len() && (#[trigger] x[i]).2 != Significance::Formatting;
        vstd::seq_lib::to_multiset_contains(x, x[i]);
        vstd::seq_lib::to_multiset_contains(y, x[i]);
        assert(x.contains(x[i]));
        let k = choose|k: int| 0 <= k < y.len() && y[k] == x[i];
        assert(y[k].2 == Significance::Formatting);
    }
}

/// Whether `a` comes strictly before `b` in byte order.
fn text_before_exec(a: &str, b: &str) -> (r: bool)
    ensures
        r == text_before(a@, b@),
{
    let x = chars_of(a);
    let y = chars_of(b);
    let mut i: usize = 0;
    proof {
        assert(x@.skip(0) =~= x@);
        assert(y@.skip(0) =~= y@);
    }
    while i < x.len() && i < y.len() && x[i] == y[i]
        invariant
            i <= x@.len(),
            i <= y@.len(),
            x@ == a@,
            y@ == b@,
            text_before(a@, b@) == text_before(x@.skip(i as int), y@.skip(i as int)),
        decreases x@.len() - i,
    {
        proof {
            assert(x@.skip(i as int).drop_first() =~= x@.skip(i + 1));
            assert(y@.skip(i as int).drop_first() =~= y@.skip(i + 1));
        }
        i = i + 1;
    }
    if i == x.len() {
        proof {
            assert(x@.skip(i as int).len() == 0);
        }
        i < y.len()
    } else if i == y.len() {
        proof {
            assert(y@.skip(i as int).len() == 0);
        }
        false
    } else {
        proof {
            assert(x@.skip(i as int)[0] == x@[i as int]);
            assert(y@.skip(i as int)[0] == y@[i as int]);
        }
        x[i] < y[i]
    }
}

/// Whether change `a` may come before change `b` in a report.
fn change_le_exec(a: &Change, b: &Change) -> (r: bool)
    ensures
        r == change_le(change_view(*a), change_view(*b)),
{
    if text_before_exec(a.path.as_str(), b.path.as_str()) {
        return true;
    }
    if !same_text(a.path.as_str(), b.path.as_str()) {
        return false;
    }
    let ra: u8 = match a.kind {
        ChangeKind::Added => 0,
        ChangeKind::Removed => 1,
        ChangeKind::Changed => 2,
        ChangeKind::Moved => 3,
    };
    let rb: u8 = match b.kind {
        ChangeKind::Added => 0,
        ChangeKind::Removed => 1,
        ChangeKind::Changed => 2,
        ChangeKind::Moved => 3,
    };
    ra <= rb
}

/// The changes in report order: by path bytes, then by kind.
fn in_order(changes: Vec<Change>) -> (r: Vec<Change>)
    ensures
        changes_view(r@).to_multiset() == changes_view(changes@).to_multiset(),
        in_report_order(changes_view(r@)),
{
    let mut rest = changes;
    let ghost all = changes_view(rest@);
    let mut out: Vec<Change> = Vec::new();
    proof {
        assert(changes_view(out@) =~= Seq::empty());
        assert(changes_view(rest@).to_multiset() =~= changes_view(out@).to_multiset().add(changes_view(rest@).to_multiset())) by {
            broadcast use vstd::multiset::group_multiset_axioms;
            vstd::seq_lib::to_multiset_len(changes_view(out@));
            vstd::multiset::lemma_multiset_empty_len(changes_view(out@).to_multiset());
        }
    }
    while rest.len() > 0
        invariant
            all.to_multiset() == changes_view(out@).to_multiset().add(changes_view(rest@).to_multiset()),
            in_report_order(changes_view(out@)),
        decreases rest@.len(),
    {
        let ghost r0 = changes_view(rest@);
        let ghost o0 = changes_view(out@);
        let c = rest.pop().unwrap();
        proof {
            assert(changes_view(rest@) =~= r0.drop_last());
            assert(r0 =~= changes_view(rest@).push(change_view(c)));
            vstd::seq_lib::to_multiset_build(changes_view(rest@), change_view(c));
        }
        let mut p: usize = 0;
        while p < out.len() && !change_le_exec(&c, &out[p])
            invariant
                p <= out@.len(),
                o0 == changes_view(out@),
                forall|k: int| 0 <= k < p ==> !change_le(change_view(c), #[trigger] o0[k]),
            decreases out@.len() - p,
        {
            proof {
                assert(o0[p as int] == change_view(out@[p as int]));
            }
            p = p + 1;
        }
        out.insert(p, c);
        proof {
            let cv = change_view(c);
            let o1 = changes_view(out@);
            assert(o1 =~= o0.insert(p as int, cv));
            vstd::seq_lib::to_multiset_insert(o0, p as int, cv);
            assert forall|i: int, j: int| 0 <= i < j < o1.len() implies change_le(#[trigger] o1[i], #[trigger] o1[j]) by {
                if j < p {
                    assert(o1[i] == o0[i] && o1[j] == o0[j]);
                } else if j == p {
                    assert(o1[i] == o0[i]);
                    lemma_change_le_total(cv, o0[i]);
                } else if i == p {
                    assert(o1[j] == o0[j - 1]);
                    if p < o0.len() {
                        assert(change_le(cv, o0[p as int])) by {
                            assert(o0[p as int] == change_view(out@[p as int + 1]));
                        }
                        if j - 1 > p {
                            lemma_change_le_transitive(cv, o0[p as int], o0[j - 1]);
                        }
                    }
                } else if i < p {
                    assert(o1[i] == o0[i] && o1[j] == o0[j - 1]);
                } else {
                    assert(o1[i] == o0[i - 1] && o1[j] == o0[j - 1]);
                }
            }
            assert(all.to_multiset() == o1.to_multiset().add(changes_view(rest@).to_multiset())) by {
                broadcast use vstd::multiset::group_multiset_axioms;
                assert(all.to_multiset() =~= o1.to_multiset().add(changes_view(rest@).to_multiset()));
            }
        }
    }
    proof {
        assert(changes_view(rest@) =~= Seq::empty());
        assert(all.to_multiset() =~= changes_view(out@).to_multiset()) by {
            broadcast use vstd::multiset::group_multiset_axioms;
            vstd::seq_lib::to_multiset_len(changes_view(rest@));
            vstd::multiset::lemma_multiset_empty_len(changes_view(rest@).to_multiset());
        }
    }
    out
}

fn push_change(out: &mut Vec<Change>, c: Change)
    ensures
        changes_view(final(out)@) == changes_view(old(out)@).push(change_view(c)),
{
    out.push(c);
    proof {
        assert(changes_view(out@) =~= changes_view(old(out)@).push(change_view(c)));
    }
}

/// Append the pointer spelling of `key` to `out`.
fn push_pointer_token(out: &mut String, key: &String)
    ensures
        final(out)@ == old(out)@ + pointer_token(key@),
{
    let cs = chars_of(key.as_str());
    let ghost o = out@;
    let mut i: usize = 0;
    proof {
        assert(cs@.subrange(0, 0) =~= Seq::<char>::empty());
        assert(o + Seq::<char>::empty() =~= o);
    }
    while i < cs.len()
        invariant
            i <= cs@.len(),
            cs@ == key@,
            out@ == o + pointer_token(cs@.subrange(0, i as int)),
        decreases cs@.len() - i,
    {
        let c = cs[i];
        let ghost before = out@;
        proof {
            assert(cs@.subrange(0, i + 1).drop_last() =~= cs@.subrange(0, i as int));
            assert(cs@.subrange(0, i + 1).last() == c);
        }
        if c == '~' {
            push_char(out, '~');
            push_char(out, '0');
        } else if c == '/' {
            push_char(out, '~');
            push_char(out, '1');
        } else {
            push_char(out, c);
        }
        proof {
            assert(out@ =~= before + pointer_char(c));
            vstd::seq_lib::lemma_concat_associative(o, pointer_token(cs@.subrange(0, i as int)), pointer_char(c));
        }
        i = i + 1;
    }
    proof {
        assert(cs@.subrange(0, i as int) =~= cs@);
    }
}

/// The pointer to the value under `key` in the mapping at `path`.
fn key_path_exec(path: &String, key: &String) -> (r: String)
    ensures
        r@ == key_path(path@, key@),
{
    let mut r = String::from_str(path.as_str());
    push_char(&mut r, '/');
    push_pointer_token(&mut r, key);
    r
}

/// The pointer to item `i` of the sequence at `path`.
fn index_path_exec(path: &String, i: usize) -> (r: String)
    ensures
        r@ == index_path(path@, i as nat),
{
    let mut r = String::from_str(path.as_str());
    push_char(&mut r, '/');
    push_decimal(&mut r, i as u64);
    r
}

/// The keys of `p` that `q` also has, in `p`'s order.
fn common_keys_exec(p: &Vec<(String, SemanticNode)>, q: &Vec<(String, SemanticNode)>) -> (r: Vec<String>)
    ensures
        views_of(r@) == common_keys(p@, q@, p@.len() as int),
{
    let mut r: Vec<String> = Vec::new();
    let mut i: usize = 0;
    while i < p.len()
        invariant
            i <= p@.len(),
            views_of(r@) == common_keys(p@, q@, i as int),
        decreases p@.len() - i,
    {
        let ghost before = r@;
        match find_key_exec(q, &p[i].0) {
            Some(_) => {
                r.push(String::from_str(p[i].0.as_str()));
                proof {
                    assert(views_of(r@) =~= views_of(before).push(p@[i as int].0@));
                }
            },
            None => {},
        }
        i = i + 1;
    }
    r
}

/// Whether two lists of strings hold the same texts in the same order.
fn same_texts(x: &Vec<String>, y: &Vec<String>) -> (r: bool)
    ensures
        r == (views_of(x@) == views_of(y@)),
{
    if x.len() != y.len() {
        proof {
            assert(views_of(x@).len() != views_of(y@).len());
        }
        return false;
    }
    let mut i: usize = 0;
    while i < x.len()
        invariant
            i <= x@.len(),
            x@.len() == y@.len(),
            forall|k: int| 0 <= k < i ==> #[trigger] x@[k]@ == y@[k]@,
        decreases x@.len() - i,
    {
        if !same_text(x[i].as_str(), y[i].as_str()) {
            proof {
                assert(views_of(x@)[i as int] != views_of(y@)[i as int]);
            }
            return false;
        }
        i = i + 1;
    }
    proof {
        assert(views_of(x@) =~= views_of(y@));
    }
    true
}

/// Append every difference between `a` and `b`, nodes at `path`, to `out`.
fn diff_into(path: &String, a: &SemanticNode, b: &SemanticNode, out: &mut Vec<Change>)
    ensures
        changes_view(final(out)@) == changes_view(old(out)@) + diff_spec(path@, *a, *b),
    decreases a,
{
    let ghost base = changes_view(out@);
    match a {
        SemanticNode::Scalar(x) => match b {
            SemanticNode::Scalar(y) => {
                if !same_text(x.value.as_str(), y.value.as_str()) {
                    push_change(out, Change { path: String::from_str(path.as_str()), kind: ChangeKind::Changed,
                        significance: Significance::Semantic, before: Some(String::from_str(x.text.as_str())),
                        after: Some(String::from_str(y.text.as_str())) });
                } else if !same_text(x.text.as_str(), y.text.as_str()) {
                    push_change(out, Change { path: String::from_str(path.as_str()), kind: ChangeKind::Changed,
                        significance: Significance::Formatting, before: Some(String::from_str(x.text.as_str())),
                        after: Some(String::from_str(y.text.as_str())) });
                }
                proof {
                    assert(changes_view(out@) =~= base + diff_spec(path@, *a, *b));
                }
            },
            _ => {
                push_change(out, Change { path: String::from_str(path.as_str()), kind: ChangeKind::Changed,
                    significance: Significance::Semantic, before: Some(a.text()), after: Some(b.text()) });
                proof {
                    assert(changes_view(out@) =~= base + diff_spec(path@, *a, *b));
                }
            },
        },
        SemanticNode::Mapping(p) => match b {
            SemanticNode::Mapping(q) => {
                let ka = common_keys_exec(p, q);
                let kb = common_keys_exec(q, p);
                if !same_texts(&ka, &kb) {
                    push_change(out, Change { path: String::from_str(path.as_str()), kind: ChangeKind::Moved,
                        significance: Significance::Formatting, before: None, after: None });
                }
                proof {
                    assert(changes_view(out@) =~= base + moved_spec(path@, p@, q@));
                }
                let ghost moved = changes_view(out@);
                let mut i: usize = 0;
                while i < p.len()
                    invariant
                        *a == SemanticNode::Mapping(*p),
                        i <= p@.len(),
                        changes_view(out@) == moved + entries_spec(path@, p@, q@, i as int),
                    decreases p@.len() - i,
                {
                    let ghost e = changes_view(out@);
                    let here = key_path_exec(path, &p[i].0);
                    proof {
                        assert(p@[i as int] == p[i as int]);
                        assert(decreases_to!(*a => (*a)->Mapping_0));
                        assert(decreases_to!(*p => p@));
                        assert(decreases_to!(p@ => p@[i as int]));
                        assert(decreases_to!(p@[i as int] => p@[i as int].1));
                        assert(decreases_to!(*a => p@[i as int].1));
                    }
                    match find_key_exec(q, &p[i].0) {
                        Some(j) => {
                            diff_into(&here, &p[i].1, &q[j].1, out);
                        },
                        None => {
                            push_change(out, Change { path: here, kind: ChangeKind::Removed, significance: Significance::Semantic,
                                before: Some(p[i].1.text()), after: None });
                        },
                    }
                    proof {
                        vstd::seq_lib::lemma_concat_associative(moved, entries_spec(path@, p@, q@, i as int),
                            changes_view(out@).subrange(e.len() as int, changes_view(out@).len() as int));
                        assert(changes_view(out@) =~= moved + entries_spec(path@, p@, q@, i + 1));
                    }
                    i = i + 1;
                }
                let ghost entries = changes_view(out@);
                let mut k: usize = 0;
                while k < q.len()
                    invariant
                        k <= q@.len(),
                        changes_view(out@) == entries + added_spec(path@, p@, q@, k as int),
                    decreases q@.len() - k,
                {
                    match find_key_exec(p, &q[k].0) {
                        Some(_) => {},
                        None => {
                            let here = key_path_exec(path, &q[k].0);
                            push_change(out, Change { path: here, kind: ChangeKind::Added, significance: Significance::Semantic,
                                before: None, after: Some(q[k].1.text()) });
                        },
                    }
                    proof {
                        assert(q@[k as int] == q[k as int]);
                        assert(changes_view(out@) =~= entries + added_spec(path@, p@, q@, k + 1));
                    }
                    k = k + 1;
                }
                proof {
                    assert(changes_view(out@) =~= base + diff_spec(path@, *a, *b));
                }
            },
            _ => {
                push_change(out, Change { path: String::from_str(path.as_str()), kind: ChangeKind::Changed,
                    significance: Significance::Semantic, before: Some(a.text()), after: Some(b.text()) });
                proof {
                    assert(changes_view(out@) =~= base + diff_spec(path@, *a, *b));
                }
            },
        },
        SemanticNode::Sequence(xs) => match b {
            SemanticNode::Sequence(ys) => {
                let mut i: usize = 0;
                while i < xs.len()
                    invariant
                        *a == SemanticNode::Sequence(*xs),
                        i <= xs@.len(),
                        changes_view(out@) == base + items_spec(path@, xs@, ys@, i as int),
                    decreases xs@.len() - i,
                {
                    let ghost e = changes_view(out@);
                    let here = index_path_exec(path, i);
                    proof {
                        assert(xs@[i as int] == xs[i as int]);
                        assert(decreases_to!(*a => (*a)->Sequence_0));
                        assert(decreases_to!(*xs => xs@));
                        assert(decreases_to!(xs@ => xs@[i as int]));
                        assert(decreases_to!(*a => xs@[i as int]));
                    }
                    if i < ys.len() {
                        diff_into(&here, &xs[i], &ys[i], out);
                    } else {
                        push_change(out, Change { path: here, kind: ChangeKind::Removed, significance: Significance::Semantic,
                            before: Some(xs[i].text()), after: None });
                    }
                    proof {
                        vstd::seq_lib::lemma_concat_associative(base, items_spec(path@, xs@, ys@, i as int),
                            changes_view(out@).subrange(e.len() as int, changes_view(out@).len() as int));
                        assert(changes_view(out@) =~= base + items_spec(path@, xs@, ys@, i + 1));
                    }
                    i = i + 1;
                }
                let ghost items = changes_view(out@);
                let mut k: usize = xs.len();
                proof {
                    assert(items + extra_spec(path@, xs@.len() as int, ys@, k as int) =~= items);
                }
                while k < ys.len()
                    invariant
                        xs@.len() <= k <= ys@.len() || (k == xs@.len() && ys@.len() < k),
                        changes_view(out@) == items + extra_spec(path@, xs@.len() as int, ys@, k as int),
                    decreases ys@.len() - k,
                {
                    let here = index_path_exec(path, k);
                    push_change(out, Change { path: here, kind: ChangeKind::Added, significance: Significance::Semantic,
                        before: None, after: Some(ys[k].text()) });
                    proof {
                        assert(ys@[k as int] == ys[k as int]);
                        assert(changes_view(out@) =~= items + extra_spec(path@, xs@.len() as int, ys@, k + 1));
                    }
                    k = k + 1;
                }
                proof {
                    if ys@.len() < xs@.len() {
                        assert(extra_spec(path@, xs@.len() as int, ys@, ys@.len() as int) =~= Seq::empty());
                        assert(extra_spec(path@, xs@.len() as int, ys@, k as int) =~= Seq::empty());
                    }
                    assert(changes_view(out@) =~= base + diff_spec(path@, *a, *b));
                }
            },
            _ => {
                push_change(out, Change { path: String::from_str(path.as_str()), kind: ChangeKind::Changed,
                    significance: Significance::Semantic, before: Some(a.text()), after: Some(b.text()) });
                proof {
                    assert(changes_view(out@) =~= base + diff_spec(path@, *a, *b));
                }
            },
        },
    }
}

/// Every difference between two documents' views, as [`diff_spec`] orders
/// them, starting from the document root at the empty pointer.
pub fn diff_nodes(a: &SemanticNode, b: &SemanticNode) -> (r: DiffReport)
    ensures
        changes_view(r.changes@).to_multiset() == diff_spec(Seq::empty(), *a, *b).to_multiset(),
        in_report_order(changes_view(r.changes@)),
{
    let mut changes: Vec<Change> = Vec::new();
    let root = String::new();
    diff_into(&root, a, b, &mut changes);
    proof {
        assert(changes_view(Seq::<Change>::empty()) =~= Seq::empty());
        assert(Seq::empty() + diff_spec(Seq::empty(), *a, *b) =~= diff_spec(Seq::empty(), *a, *b));
    }
    DiffReport { changes: in_order(changes) }
}

/// What a report of the differences between two views tells: with distinct
/// keys in every mapping of either view, nothing in it is semantic exactly
/// when the views mean the same, and it is empty exactly when they are
/// spelled alike, as for a document and itself.
pub proof fn lemma_report_tells_meaning_and_spelling(
    cs: Seq<(Seq<char>, ChangeKind, Significance, Option<Seq<char>>, Option<Seq<char>>)>,
    a: SemanticNode,
    b: SemanticNode,
)
    requires
        well_keyed(a),
        well_keyed(b),
        cs.to_multiset() == diff_spec(Seq::empty(), a, b).to_multiset(),
    ensures
        meaning_kept(cs) <==> same_value_spec(a, b),
        cs.len() == 0 <==> spelled_alike(a, b),
{
    lemma_reorder_keeps_count_and_meaning(cs, diff_spec(Seq::empty(), a, b));
    lemma_semantic_exactly_when_meaning_differs(Seq::empty(), a, b);
    lemma_no_change_exactly_when_spelled_alike(Seq::empty(), a, b);
}

/// Every change of a report of the differences between two views is
/// located: its path is a JSON Pointer from the document root that leads in
/// the first view (unless the change is an addition) to the node whose text
/// it reports before, and in the second (unless it is a removal) to the node
/// whose text it reports after; so a change under key `k` of the mapping at
/// pointer `p` sits at `p` + `/` + `k` escaped. For views with distinct keys
/// in every mapping.
pub proof fn lemma_report_changes_are_located(
    cs: Seq<(Seq<char>, ChangeKind, Significance, Option<Seq<char>>, Option<Seq<char>>)>,
    a: SemanticNode,
    b: SemanticNode,
)
    requires
        well_keyed(a),
        well_keyed(b),
        cs.to_multiset() == diff_spec(Seq::empty(), a, b).to_multiset(),
    ensures
        all_located(cs, Seq::empty(), a, b),
{
    let d = diff_spec(Seq::empty(), a, b);
    assert(read_pointer(Seq::<char>::empty()) == Some(Seq::<Seq<char>>::empty()));
    lemma_changes_are_located(Seq::empty(), Seq::empty(), a, b);
    assert forall|i: int| 0 <= i < cs.len() implies located(#[trigger] cs[i], Seq::empty(), a, b) by {
        vstd::seq_lib::to_multiset_contains(cs, cs[i]);
        vstd::seq_lib::to_multiset_contains(d, cs[i]);
        assert(cs.contains(cs[i]));
        let k = choose|k: int| 0 <= k < d.len() && d[k] == cs[i];
        assert(located(d[k], Seq::empty(), a, b));
    }
}

/// Why two documents could not be diffed.
#[derive(Debug, Clone)]
pub enum DiffError {
    /// A side does not parse; the first side's report when both do not.
    Unparsed(ParseReport),
    /// Both parse, and the format cannot say what one of them means; the
    /// first side's reason when neither can be modelled.
    Unmodelled(Unmodelled),
}

/// What a diff comes to, given what each side's view came to: the first
/// side's refusal, else the second side's, else every difference between
/// the two views.
pub fn diff_views(a: Result<SemanticNode, Unmodelled>, b: Result<SemanticNode, Unmodelled>) -> (r: Result<DiffReport, DiffError>)
    ensures
        match (a, b) {
            (Err(u), _) => r == Err::<DiffReport, DiffError>(DiffError::Unmodelled(u)),
            (Ok(_), Err(u)) => r == Err::<DiffReport, DiffError>(DiffError::Unmodelled(u)),
            (Ok(va), Ok(vb)) => r matches Ok(rep) && changes_view(rep.changes@).to_multiset() == diff_spec(Seq::empty(), va, vb).to_multiset()
                && in_report_order(changes_view(rep.changes@)),
        },
{
    let va = match a {
        Err(u) => {
            return Err(DiffError::Unmodelled(u));
        },
        Ok(v) => v,
    };
    let vb = match b {
        Err(u) => {
            return Err(DiffError::Unmodelled(u));
        },
        Ok(v) => v,
    };
    Ok(diff_nodes(&va, &vb))
}

/// What a diff of `a` and `b` in `format` can come to: refused as unparsed
/// exactly when a side is not a document of the format, with the first such
/// side's diagnostics; refused as unmodelled only with a reason the format's
/// view gives for the tree of one of the sides; otherwise every difference
/// between views the format gives of the trees it builds for the two sides,
/// in report order.
pub open spec fn diffed<F: Format>(format: &F, a: Seq<u8>, b: Seq<u8>, r: Result<DiffReport, DiffError>) -> bool {
    &&& (r matches Err(DiffError::Unparsed(_))) <==> !(format.accepts(a) && format.accepts(b))
    &&& r matches Err(DiffError::Unparsed(e)) ==> e.diags().len() >= 1 && if !format.accepts(a) {
        format.refuses_with(a, e.diags())
    } else {
        format.refuses_with(b, e.diags())
    }
    &&& r matches Err(DiffError::Unmodelled(u)) ==> exists|c: Cst|
        (format.tree_of(a, c) || format.tree_of(b, c)) && #[trigger] format.views_as(c, Err(u))
    &&& r matches Ok(rep) ==> exists|ca: Cst, cb: Cst, va: SemanticNode, vb: SemanticNode|
        #![trigger format.views_as(ca, Ok(va)), format.views_as(cb, Ok(vb))]
        format.tree_of(a, ca) && format.tree_of(b, cb) && format.views_as(ca, Ok(va)) && format.views_as(cb, Ok(vb))
            && changes_view(rep.changes@).to_multiset() == diff_spec(Seq::empty(), va, vb).to_multiset()
            && in_report_order(changes_view(rep.changes@))
}

/// Diff two documents of the same format. Both sides are parsed first, so
/// that an input that does not parse fails here, at the cause; then each side
/// is viewed, and a side the format cannot model is refused rather than
/// scored as no change; then the two views are compared ([`diff_spec`]). The
/// format's parse and view decide each step; [`diff_views`] says what the
/// views come to.
pub fn diff<F: Format>(format: &F, a: &[u8], b: &[u8]) -> (r: Result<DiffReport, DiffError>)
    requires
        a@.len() <= u32::MAX,
        b@.len() <= u32::MAX,
    ensures
        diffed(format, a@, b@, r),
{
    let ca = match format.parse(a) {
        Err(e) => {
            return Err(DiffError::Unparsed(e));
        },
        Ok(c) => c,
    };
    let cb = match format.parse(b) {
        Err(e) => {
            return Err(DiffError::Unparsed(e));
        },
        Ok(c) => c,
    };
    let va = format.semantic_view(&ca);
    let vb = format.semantic_view(&cb);
    let ghost (gva, gvb) = (va, vb);
    let r = diff_views(va, vb);
    proof {
        assert(format.accepts(a@) && format.accepts(b@));
        assert(format.tree_of(a@, ca) && format.tree_of(b@, cb));
        match (gva, gvb) {
            (Ok(x), Ok(y)) => {
                assert(format.views_as(ca, Ok(x)) && format.views_as(cb, Ok(y)));
                assert(r matches Ok(rep) && changes_view(rep.changes@).to_multiset() == diff_spec(Seq::empty(), x, y).to_multiset());
                assert(r matches Ok(rep) ==> exists|ca: Cst, cb: Cst, va: SemanticNode, vb: SemanticNode|
                    #![trigger format.views_as(ca, Ok(va)), format.views_as(cb, Ok(vb))]
                    format.tree_of(a@, ca) && format.tree_of(b@, cb) && format.views_as(ca, Ok(va)) && format.views_as(cb, Ok(vb))
                        && changes_view(rep.changes@).to_multiset() == diff_spec(Seq::empty(), va, vb).to_multiset()
                        && in_report_order(changes_view(rep.changes@)));
                assert(diffed(format, a@, b@, r));
            },
            (Err(u), _) => {
                assert(format.views_as(ca, Err(u)));
                assert(r == Err::<DiffReport, DiffError>(DiffError::Unmodelled(u)));
                assert(r matches Err(DiffError::Unmodelled(w)) ==> format.views_as(ca, Err(w)));
                assert(r matches Err(DiffError::Unmodelled(w)) ==> exists|c: Cst| (format.tree_of(a@, c) || format.tree_of(b@, c)) && #[trigger] format.views_as(c, Err(w)));
                assert(!(r matches Err(DiffError::Unparsed(_))));
                assert(diffed(format, a@, b@, r));
            },
            (Ok(_), Err(u)) => {
                assert(format.views_as(cb, Err(u)));
                assert(r == Err::<DiffReport, DiffError>(DiffError::Unmodelled(u)));
                assert(r matches Err(DiffError::Unmodelled(w)) ==> format.views_as(cb, Err(w)));
                assert(r matches Err(DiffError::Unmodelled(w)) ==> exists|c: Cst| (format.tree_of(a@, c) || format.tree_of(b@, c)) && #[trigger] format.views_as(c, Err(w)));
                assert(!(r matches Err(DiffError::Unparsed(_))));
                assert(diffed(format, a@, b@, r));
            },
        }
        assert((r matches Err(DiffError::Unparsed(_))) <==> !(format.accepts(a@) && format.accepts(b@)));
    }
    r
}

/// The `--json` rendering always ends in `}` and exactly one newline, so
/// byte-compared goldens have one spelling of the end of a report.
pub proof fn lemma_json_ends_in_one_newline(cs: Seq<Change>)
    ensures
        report_json(cs).len() >= 2,
        report_json(cs).last() == '\n',
        report_json(cs)[report_json(cs).len() - 2] == '}',
{
    reveal_strlit("  \"changes\": []\n}\n");
    reveal_strlit("  ]\n}\n");
    let s = report_json(cs);
    if cs.len() == 0 {
        let tail = "  \"changes\": []\n}\n"@;
        assert(s == json_header() + tail);
        assert(s[s.len() - 1] == tail[tail.len() - 1]);
        assert(s[s.len() - 2] == tail[tail.len() - 2]);
    } else {
        let tail = "  ]\n}\n"@;
        let head = json_header() + "  \"changes\": [\n"@ + changes_json(cs, cs.len() as int);
        assert(s == head + tail);
        assert(s[s.len() - 1] == tail[tail.len() - 1]);
        assert(s[s.len() - 2] == tail[tail.len() - 2]);
    }
}

} // verus!
