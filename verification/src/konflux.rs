//! The `konflux` command: which subcommand an argument list asks for, which
//! format a pair of paths names, what the human view of a report looks like,
//! and which exit code an outcome calls for. Reading files and printing stay
//! with the binary.
use crate::cli::{same_text, Common, Exit};
use crate::diff::{diff, diffed, Change, ChangeKind, DiffError, DiffReport, Significance};
use crate::format::{Format, Json, Yaml};
use crate::report::ParseReport;
use crate::semantic::chars_of;
use crate::text::{decimal, push_char, push_decimal};
use vstd::prelude::*;
use vstd::string::*;

verus! {

// --- the human view -------------------------------------------------------------

/// How a path is shown: the document root, `""`, prints as `(root)`.
pub open spec fn display_path_spec(p: Seq<char>) -> Seq<char> {
    if p.len() == 0 { "(root)"@ } else { p }
}

/// `value` with each newline written as the two characters `\n`.
pub open spec fn flat_spec(v: Seq<char>) -> Seq<char>
    decreases v.len(),
{
    if v.len() == 0 {
        Seq::empty()
    } else {
        flat_spec(v.drop_last()) + (if v.last() == '\n' { seq!['\\', 'n'] } else { seq![v.last()] })
    }
}

/// A value collapsed to one line: newlines escaped, and anything over forty
/// characters cut to thirty-seven and an ellipsis.
pub open spec fn one_line_spec(v: Seq<char>) -> Seq<char> {
    let f = flat_spec(v);
    if f.len() <= 40 { f } else { f.take(37) + "..."@ }
}

/// The mark that leads a change's line.
pub open spec fn mark_spec(k: ChangeKind) -> Seq<char> {
    match k {
        ChangeKind::Added => "+"@,
        ChangeKind::Removed => "-"@,
        ChangeKind::Changed => "~"@,
        ChangeKind::Moved => ">"@,
    }
}

/// The escape sequences that open and close a line: none without colour,
/// bold for a semantic change, dim for a formatting one.
pub open spec fn style_spec(colour: bool, s: Significance) -> (Seq<char>, Seq<char>) {
    if !colour {
        (Seq::empty(), Seq::empty())
    } else if s == Significance::Semantic {
        (seq!['\u{1b}', '[', '1', 'm'], seq!['\u{1b}', '[', '0', 'm'])
    } else {
        (seq!['\u{1b}', '[', '2', 'm'], seq!['\u{1b}', '[', '0', 'm'])
    }
}

/// `p`, left-aligned and padded with spaces to `width` characters.
pub open spec fn padded(p: Seq<char>, width: nat) -> Seq<char> {
    if p.len() >= width { p } else { p + Seq::new((width - p.len()) as nat, |i: int| ' ') }
}

/// What follows the path: both values, the one there is, or `(reordered)`.
pub open spec fn values_spec(c: Change) -> Seq<char> {
    match (c.before, c.after) {
        (Some(b), Some(a)) => "  "@ + one_line_spec(b@) + "  ->  "@ + one_line_spec(a@),
        (Some(b), None) => "  "@ + one_line_spec(b@),
        (None, Some(a)) => "  "@ + one_line_spec(a@),
        (None, None) => "  (reordered)"@,
    }
}

/// One change's line.
pub open spec fn change_line(c: Change, colour: bool, width: nat) -> Seq<char> {
    let (open, close) = style_spec(colour, c.significance);
    open + mark_spec(c.kind) + " "@ + padded(display_path_spec(c.path@), width) + close + values_spec(c)
        + (if c.significance == Significance::Formatting { "  [formatting]"@ } else { Seq::empty() }) + "\n"@
}

/// The widest shown path among the first `k` changes.
pub open spec fn path_width(cs: Seq<Change>, k: int) -> nat
    decreases k,
{
    if k <= 0 || k > cs.len() {
        0
    } else {
        let w = display_path_spec(cs[k - 1].path@).len();
        let rest = path_width(cs, k - 1);
        if w > rest { w } else { rest }
    }
}

/// The lines of the first `k` changes.
pub open spec fn change_lines(cs: Seq<Change>, colour: bool, width: nat, k: int) -> Seq<char>
    decreases k,
{
    if k <= 0 || k > cs.len() {
        Seq::empty()
    } else {
        change_lines(cs, colour, width, k - 1) + change_line(cs[k - 1], colour, width)
    }
}

/// How many of the first `k` changes are semantic.
pub open spec fn semantic_count(cs: Seq<Change>, k: int) -> nat
    decreases k,
{
    if k <= 0 || k > cs.len() {
        0
    } else {
        semantic_count(cs, k - 1) + (if cs[k - 1].significance == Significance::Semantic { 1nat } else { 0nat })
    }
}

/// The human view of a list of changes: one aligned line per change, in
/// report order, then the count of each significance.
pub open spec fn human_spec(cs: Seq<Change>, colour: bool) -> Seq<char> {
    if cs.len() == 0 {
        "no changes\n"@
    } else {
        let n = cs.len() as int;
        let sem = semantic_count(cs, n);
        change_lines(cs, colour, path_width(cs, n), n) + "\n"@ + decimal(sem) + " semantic, "@
            + decimal((cs.len() - sem) as nat) + " formatting\n"@
    }
}

/// The padding of the human view is the widest shown path among the first
/// `k` changes: no shown path is wider, and one is exactly that wide.
pub proof fn lemma_path_width_is_the_widest(cs: Seq<Change>, k: int)
    requires
        0 <= k <= cs.len(),
    ensures
        forall|i: int| 0 <= i < k ==> #[trigger] display_path_spec(cs[i].path@).len() <= path_width(cs, k),
        k > 0 ==> exists|i: int| 0 <= i < k && #[trigger] display_path_spec(cs[i].path@).len() == path_width(cs, k),
        k == 0 ==> path_width(cs, k) == 0,
    decreases k,
{
    if k > 0 {
        lemma_path_width_is_the_widest(cs, k - 1);
        if k - 1 > 0 {
            let j = choose|i: int| 0 <= i < k - 1 && #[trigger] display_path_spec(cs[i].path@).len() == path_width(cs, k - 1);
            if display_path_spec(cs[k - 1].path@).len() <= path_width(cs, k - 1) {
                assert(display_path_spec(cs[j].path@).len() == path_width(cs, k));
            } else {
                assert(display_path_spec(cs[k - 1].path@).len() == path_width(cs, k));
            }
        } else {
            assert(display_path_spec(cs[k - 1].path@).len() == path_width(cs, k));
        }
    }
}

/// In the human view the path column is aligned: every change's path field
/// is exactly as long as the widest shown path of the report.
pub proof fn lemma_human_paths_align(cs: Seq<Change>)
    ensures
        forall|i: int| 0 <= i < cs.len() ==> (#[trigger] padded(display_path_spec(cs[i].path@), path_width(cs, cs.len() as int))).len()
            == path_width(cs, cs.len() as int),
        forall|i: int| 0 <= i < cs.len() ==> #[trigger] display_path_spec(cs[i].path@).len() <= path_width(cs, cs.len() as int),
{
    lemma_path_width_is_the_widest(cs, cs.len() as int);
    let w = path_width(cs, cs.len() as int);
    assert forall|i: int| 0 <= i < cs.len() implies (#[trigger] padded(display_path_spec(cs[i].path@), w)).len() == w by {
        assert(display_path_spec(cs[i].path@).len() <= w);
    }
}

/// The human view of a non-empty report is its change lines, every path
/// padded to one width that is the widest shown path, then the counts.
pub proof fn lemma_human_view_is_aligned(cs: Seq<Change>, colour: bool)
    requires
        cs.len() > 0,
    ensures
        exists|w: nat|
            #![trigger change_lines(cs, colour, w, cs.len() as int)]
            (forall|i: int| 0 <= i < cs.len() ==> #[trigger] display_path_spec(cs[i].path@).len() <= w)
                && (exists|i: int| 0 <= i < cs.len() && #[trigger] display_path_spec(cs[i].path@).len() == w)
                && human_spec(cs, colour).take(change_lines(cs, colour, w, cs.len() as int).len() as int)
                == change_lines(cs, colour, w, cs.len() as int),
{
    let n = cs.len() as int;
    let w = path_width(cs, n);
    lemma_path_width_is_the_widest(cs, n);
    let lines = change_lines(cs, colour, w, n);
    let h = human_spec(cs, colour);
    assert(h.take(lines.len() as int) =~= lines);
}

proof fn lemma_semantic_count_bound(cs: Seq<Change>, k: int)
    requires
        0 <= k <= cs.len(),
    ensures
        semantic_count(cs, k) <= k,
    decreases k,
{
    if k > 0 {
        lemma_semantic_count_bound(cs, k - 1);
    }
}

/// Show a path, naming the document root.
pub fn display_path(path: &str) -> (r: String)
    ensures
        r@ == display_path_spec(path@),
{
    let cs = chars_of(path);
    if cs.len() == 0 {
        proof {
            reveal_strlit("(root)");
        }
        String::from_str("(root)")
    } else {
        String::from_str(path)
    }
}

/// Collapse a value to one line so the table stays a table.
pub fn one_line(value: &str) -> (r: String)
    ensures
        r@ == one_line_spec(value@),
{
    let cs = chars_of(value);
    let mut flat: Vec<char> = Vec::new();
    let mut i: usize = 0;
    while i < cs.len()
        invariant
            cs@ == value@,
            i <= cs@.len(),
            flat@ == flat_spec(cs@.take(i as int)),
        decreases cs@.len() - i,
    {
        let c = cs[i];
        proof {
            assert(cs@.take(i + 1).drop_last() == cs@.take(i as int));
            assert(cs@.take(i + 1).last() == c);
        }
        if c == '\n' {
            flat.push('\\');
            flat.push('n');
        } else {
            flat.push(c);
        }
        i = i + 1;
    }
    proof {
        assert(cs@.take(i as int) == cs@);
    }
    let keep = if flat.len() <= 40 { flat.len() } else { 37 };
    let mut out = String::new();
    let mut j: usize = 0;
    while j < keep
        invariant
            keep <= flat@.len(),
            j <= keep,
            out@ == flat@.take(j as int),
        decreases keep - j,
    {
        let ghost o = out@;
        push_char(&mut out, flat[j]);
        proof {
            assert(out@ == flat@.take(j + 1));
        }
        j = j + 1;
    }
    if flat.len() > 40 {
        out.append("...");
        proof {
            reveal_strlit("...");
        }
    }
    proof {
        if flat@.len() <= 40 {
            assert(flat@.take(keep as int) == flat@);
        }
    }
    out
}

/// Append `n` spaces.
fn push_spaces(out: &mut String, n: usize)
    ensures
        final(out)@ == old(out)@ + Seq::new(n as nat, |i: int| ' '),
{
    let mut k: usize = 0;
    while k < n
        invariant
            k <= n,
            out@ == old(out)@ + Seq::new(k as nat, |i: int| ' '),
        decreases n - k,
    {
        push_char(out, ' ');
        proof {
            assert(out@ =~= old(out)@ + Seq::new((k + 1) as nat, |i: int| ' '));
        }
        k = k + 1;
    }
}

/// The opening or closing escape of a line, as [`style_spec`] spells it.
fn push_style(out: &mut String, colour: bool, s: Significance, opening: bool)
    ensures
        final(out)@ == old(out)@ + (if opening { style_spec(colour, s).0 } else { style_spec(colour, s).1 }),
{
    if colour {
        let code = if !opening {
            '0'
        } else {
            match s {
                Significance::Semantic => '1',
                Significance::Formatting => '2',
            }
        };
        push_char(out, '\u{1b}');
        push_char(out, '[');
        push_char(out, code);
        push_char(out, 'm');
        proof {
            assert(final(out)@ =~= old(out)@ + (if opening { style_spec(colour, s).0 } else { style_spec(colour, s).1 }));
        }
    } else {
        proof {
            assert(old(out)@ + Seq::<char>::empty() == old(out)@);
        }
    }
}

/// The mark and the padded path.
fn push_head(out: &mut String, c: &Change, width: usize)
    ensures
        final(out)@ == old(out)@ + mark_spec(c.kind) + " "@ + padded(display_path_spec(c.path@), width as nat),
{
    proof {
        reveal_strlit(" ");
        reveal_strlit("+");
        reveal_strlit("-");
        reveal_strlit("~");
        reveal_strlit(">");
    }
    match c.kind {
        ChangeKind::Added => out.append("+"),
        ChangeKind::Removed => out.append("-"),
        ChangeKind::Changed => out.append("~"),
        ChangeKind::Moved => out.append(">"),
    }
    out.append(" ");
    let ghost before_path = out@;
    let shown = display_path(c.path.as_str());
    let n = chars_of(shown.as_str()).len();
    out.append(shown.as_str());
    if n < width {
        push_spaces(out, width - n);
    }
    proof {
        assert(out@ =~= before_path + padded(display_path_spec(c.path@), width as nat));
    }
}

/// What follows the path, as [`values_spec`] spells it.
fn push_values(out: &mut String, c: &Change)
    ensures
        final(out)@ == old(out)@ + values_spec(*c),
{
    proof {
        reveal_strlit("  ");
        reveal_strlit("  ->  ");
        reveal_strlit("  (reordered)");
    }
    match (&c.before, &c.after) {
        (Some(before), Some(after)) => {
            out.append("  ");
            let b = one_line(before.as_str());
            out.append(b.as_str());
            out.append("  ->  ");
            let a = one_line(after.as_str());
            out.append(a.as_str());
        },
        (Some(before), None) => {
            out.append("  ");
            let b = one_line(before.as_str());
            out.append(b.as_str());
        },
        (None, Some(after)) => {
            out.append("  ");
            let a = one_line(after.as_str());
            out.append(a.as_str());
        },
        (None, None) => {
            out.append("  (reordered)");
        },
    }
}

/// One change's line, exactly as [`change_line`] spells it.
fn render_change(out: &mut String, c: &Change, colour: bool, width: usize)
    ensures
        final(out)@ == old(out)@ + change_line(*c, colour, width as nat),
{
    proof {
        reveal_strlit("  [formatting]");
        reveal_strlit("\n");
    }
    let ghost o = old(out)@;
    push_style(out, colour, c.significance, true);
    push_head(out, c, width);
    push_style(out, colour, c.significance, false);
    push_values(out, c);
    let ghost before_tail = out@;
    match c.significance {
        Significance::Semantic => {},
        Significance::Formatting => {
            out.append("  [formatting]");
        },
    }
    out.append("\n");
    proof {
        let (op, cl) = style_spec(colour, c.significance);
        assert(before_tail == o + op + mark_spec(c.kind) + " "@ + padded(display_path_spec(c.path@), width as nat) + cl + values_spec(*c));
        assert(out@ =~= o + change_line(*c, colour, width as nat));
    }
}

/// The human view: one line per change, aligned, ordered as the report is,
/// then how many changes are semantic and how many formatting.
pub fn human(report: &DiffReport, colour: bool) -> (r: String)
    ensures
        r@ == human_spec(report.changes@, colour),
{
    let cs = &report.changes;
    if cs.len() == 0 {
        proof {
            reveal_strlit("no changes\n");
        }
        return String::from_str("no changes\n");
    }
    let mut width: usize = 0;
    let mut i: usize = 0;
    while i < cs.len()
        invariant
            i <= cs@.len(),
            width == path_width(cs@, i as int),
        decreases cs@.len() - i,
    {
        let shown = display_path(cs[i].path.as_str());
        let n = chars_of(shown.as_str()).len();
        if n > width {
            width = n;
        }
        i = i + 1;
    }
    let mut out = String::new();
    let mut semantic: usize = 0;
    let mut k: usize = 0;
    while k < cs.len()
        invariant
            k <= cs@.len(),
            width == path_width(cs@, cs@.len() as int),
            semantic == semantic_count(cs@, k as int),
            semantic <= k,
            out@ == change_lines(cs@, colour, width as nat, k as int),
        decreases cs@.len() - k,
    {
        render_change(&mut out, &cs[k], colour, width);
        match cs[k].significance {
            Significance::Semantic => {
                semantic = semantic + 1;
            },
            Significance::Formatting => {},
        }
        k = k + 1;
    }
    let formatting = cs.len() - semantic;
    out.append("\n");
    push_decimal(&mut out, semantic as u64);
    out.append(" semantic, ");
    push_decimal(&mut out, formatting as u64);
    out.append(" formatting\n");
    proof {
        reveal_strlit("\n");
        reveal_strlit(" semantic, ");
        reveal_strlit(" formatting\n");
    }
    out
}

// --- decisions ------------------------------------------------------------------

/// Whether any of the changes is semantic.
pub open spec fn any_semantic(cs: Seq<Change>) -> bool {
    exists|i: int| 0 <= i < cs.len() && (#[trigger] cs[i]).significance == Significance::Semantic
}

/// The exit code an outcome calls for. It tracks meaning, not bytes: a report
/// of formatting changes only is clean, and a refusal is its own code.
pub fn outcome(report: &Result<DiffReport, DiffError>) -> (e: Exit)
    ensures
        e == (match report {
            Err(_) => Exit::Unmodelled,
            Ok(r) => if any_semantic(r.changes@) { Exit::Finding } else { Exit::Clean },
        }),
{
    match report {
        Err(_) => Exit::Unmodelled,
        Ok(r) => {
            let mut found = false;
            let mut i: usize = 0;
            while i < r.changes.len() && !found
                invariant
                    i <= r.changes@.len(),
                    found ==> any_semantic(r.changes@),
                    !found ==> forall|j: int| 0 <= j < i ==> (#[trigger] r.changes@[j]).significance != Significance::Semantic,
                decreases r.changes@.len() - i,
            {
                match r.changes[i].significance {
                    Significance::Semantic => {
                        proof {
                            assert(r.changes@[i as int].significance == Significance::Semantic);
                        }
                        found = true;
                    },
                    Significance::Formatting => {},
                }
                i = i + 1;
            }
            if found { Exit::Finding } else { Exit::Clean }
        },
    }
}

// --- arguments ------------------------------------------------------------------

/// What an argument list asks for.
#[derive(Debug, PartialEq, Eq)]
pub enum Route {
    /// Print the usage text and stop.
    Help,
    /// Diff two files.
    Diff {
        /// The left-hand path.
        a: String,
        /// The right-hand path.
        b: String,
    },
}

/// The message for a subcommand other than `diff`.
pub open spec fn unknown_subcommand(command: Seq<char>) -> Seq<char> {
    "unknown subcommand `"@ + command + "`. konflux speaks `diff` today; merge arrives at M3."@
}

/// The message for more than two paths.
pub open spec fn too_many_paths(n: nat) -> Seq<char> {
    "diff takes exactly two paths, got "@ + decimal(n) + ". konflux compares two documents; a three-way merge is M3."@
}

/// Decide what the parsed flags ask for: usage when asked or when nothing is
/// given, otherwise `diff` with exactly two paths.
pub fn route(common: &Common) -> (r: Result<Route, String>)
    ensures
        ({
            let ps = common.positional@;
            if common.help || ps.len() == 0 {
                r == Ok::<Route, String>(Route::Help)
            } else if ps[0]@ != "diff"@ {
                r matches Err(m) && m@ == unknown_subcommand(ps[0]@)
            } else if ps.len() < 3 {
                r matches Err(m) && m@ == "diff needs two paths"@
            } else if ps.len() > 3 {
                r matches Err(m) && m@ == too_many_paths((ps.len() - 1) as nat)
            } else {
                r matches Ok(Route::Diff { a, b }) && a@ == ps[1]@ && b@ == ps[2]@
            }
        }),
{
    let ps = &common.positional;
    if common.help || ps.len() == 0 {
        return Ok(Route::Help);
    }
    if !same_text(ps[0].as_str(), "diff") {
        let mut m = String::from_str("unknown subcommand `");
        m.append(ps[0].as_str());
        m.append("`. konflux speaks `diff` today; merge arrives at M3.");
        proof {
            reveal_strlit("unknown subcommand `");
            reveal_strlit("`. konflux speaks `diff` today; merge arrives at M3.");
        }
        return Err(m);
    }
    proof {
        reveal_strlit("diff");
    }
    if ps.len() < 3 {
        proof {
            reveal_strlit("diff needs two paths");
        }
        return Err(String::from_str("diff needs two paths"));
    }
    if ps.len() > 3 {
        let mut m = String::from_str("diff takes exactly two paths, got ");
        push_decimal(&mut m, (ps.len() - 1) as u64);
        m.append(". konflux compares two documents; a three-way merge is M3.");
        proof {
            reveal_strlit("diff takes exactly two paths, got ");
            reveal_strlit(". konflux compares two documents; a three-way merge is M3.");
        }
        return Err(m);
    }
    Ok(Route::Diff { a: ps[1].clone(), b: ps[2].clone() })
}

// --- formats by extension -----------------------------------------------------------

/// The text after the last `/` of `p`, or all of `p`.
pub open spec fn last_segment(p: Seq<char>) -> Seq<char>
    decreases p.len(),
{
    if p.len() == 0 || p.last() == '/' { Seq::empty() } else { last_segment(p.drop_last()).push(p.last()) }
}

/// The text before the last `/` of `p`, or `None` when it has none.
pub open spec fn before_last_slash(p: Seq<char>) -> Option<Seq<char>>
    decreases p.len(),
{
    if p.len() == 0 {
        None
    } else if p.last() == '/' {
        Some(p.drop_last())
    } else {
        before_last_slash(p.drop_last())
    }
}

/// The final component of a `/`-separated path, as `Path::file_name` reads
/// it: empty and `.` segments are skipped, and a path that ends in `..` or
/// has no named component has none.
pub open spec fn file_name_spec(p: Seq<char>) -> Option<Seq<char>>
    decreases p.len(),
{
    let s = last_segment(p);
    if s.len() == 0 || s == seq!['.'] {
        match before_last_slash(p) {
            None => None,
            Some(q) => if q.len() < p.len() { file_name_spec(q) } else { None },
        }
    } else if s == seq!['.', '.'] {
        None
    } else {
        Some(s)
    }
}

/// The index of the last `.` in `n`, or -1.
pub open spec fn last_dot(n: Seq<char>) -> int
    decreases n.len(),
{
    if n.len() == 0 { -1 } else if n.last() == '.' { n.len() - 1 } else { last_dot(n.drop_last()) }
}

/// A file name's extension, as `Path::extension` reads it: what follows the
/// last `.`, unless that dot opens the name.
pub open spec fn extension_spec(n: Seq<char>) -> Option<Seq<char>> {
    let k = last_dot(n);
    if k <= 0 { None } else { Some(n.subrange(k + 1, n.len() as int)) }
}

/// ASCII letters lowered, everything else kept.
pub open spec fn ascii_lower(c: char) -> char {
    if 'A' <= c && c <= 'Z' { ((c as u32) + 32) as char } else { c }
}

/// A path's extension, lowercase, or empty when it has none.
pub open spec fn path_extension(p: Seq<char>) -> Seq<char> {
    match file_name_spec(p) {
        None => Seq::empty(),
        Some(n) => match extension_spec(n) {
            None => Seq::empty(),
            Some(e) => e.map_values(|c: char| ascii_lower(c)),
        },
    }
}

/// Where the last segment of a prefix of `p` begins, given that `j` starts
/// a segment and no `/` lies between `j` and `end`.
proof fn lemma_segment_at(p: Seq<char>, j: int, end: int)
    requires
        0 <= j <= end <= p.len(),
        forall|i: int| j <= i < end ==> p[i] != '/',
        j == 0 || p[j - 1] == '/',
    ensures
        last_segment(p.subrange(0, end)) == p.subrange(j, end),
        before_last_slash(p.subrange(0, end)) == (if j == 0 { None } else { Some(p.subrange(0, j - 1)) }),
    decreases end - j,
{
    let q = p.subrange(0, end);
    if end == j {
        if j > 0 {
            assert(q.last() == '/');
            assert(q.drop_last() =~= p.subrange(0, j - 1));
        }
        assert(p.subrange(j, end) =~= Seq::<char>::empty());
    } else {
        assert(q.last() == p[end - 1]);
        assert(q.drop_last() =~= p.subrange(0, end - 1));
        lemma_segment_at(p, j, end - 1);
        assert(p.subrange(j, end - 1).push(p[end - 1]) =~= p.subrange(j, end));
    }
}

proof fn lemma_last_dot(n: Seq<char>)
    ensures
        -1 <= last_dot(n) < n.len(),
        last_dot(n) >= 0 ==> n[last_dot(n)] == '.',
        forall|i: int| last_dot(n) < i < n.len() ==> #[trigger] n[i] != '.',
    decreases n.len(),
{
    if n.len() > 0 && n.last() != '.' {
        lemma_last_dot(n.drop_last());
        assert forall|i: int| last_dot(n) < i < n.len() implies #[trigger] n[i] != '.' by {
            if i < n.len() - 1 {
                assert(n.drop_last()[i] == n[i]);
            }
        }
    }
}

/// Where the file name of a path lies, as `(start, end)`, or `None`.
fn file_name_range(cs: &Vec<char>) -> (r: Option<(usize, usize)>)
    ensures
        r is None ==> file_name_spec(cs@) is None,
        r matches Some((a, b)) ==> a < b <= cs@.len() && file_name_spec(cs@) == Some(cs@.subrange(a as int, b as int)),
{
    let ghost p = cs@;
    let mut end: usize = cs.len();
    proof {
        assert(p.subrange(0, p.len() as int) == p);
    }
    loop
        invariant
            p == cs@,
            end <= cs@.len(),
            file_name_spec(p) == file_name_spec(p.subrange(0, end as int)),
        decreases end,
    {
        let mut j = end;
        while j > 0 && cs[j - 1] != '/'
            invariant
                j <= end <= cs@.len(),
                forall|i: int| j <= i < end ==> cs@[i] != '/',
            decreases j,
        {
            j = j - 1;
        }
        let ghost q = p.subrange(0, end as int);
        proof {
            lemma_segment_at(p, j as int, end as int);
        }
        let seg_len = end - j;
        let is_dot = seg_len == 1 && cs[j] == '.';
        if seg_len == 0 || is_dot {
            proof {
                if is_dot {
                    assert(last_segment(q) =~= seq!['.']);
                }
            }
            if j == 0 {
                return None;
            }
            proof {
                assert(p.subrange(0, j - 1).len() < q.len());
            }
            end = j - 1;
        } else {
            proof {
                if seg_len == 1 {
                    assert(last_segment(q) != seq!['.']) by {
                        assert(last_segment(q)[0] != '.');
                    }
                }
            }
            if seg_len == 2 && cs[j] == '.' && cs[j + 1] == '.' {
                proof {
                    assert(last_segment(q) =~= seq!['.', '.']);
                }
                return None;
            }
            proof {
                if seg_len == 2 {
                    assert(last_segment(q) != seq!['.', '.']) by {
                        if cs@[j as int] != '.' {
                            assert(last_segment(q)[0] != '.');
                        } else {
                            assert(last_segment(q)[1] != '.');
                        }
                    }
                }
                assert(file_name_spec(q) == Some(p.subrange(j as int, end as int)));
            }
            return Some((j, end));
        }
    }
}

/// Where the extension of the name `cs[start..end]` begins, or `None` when
/// it has none.
fn extension_start(cs: &Vec<char>, start: usize, end: usize) -> (r: Option<usize>)
    requires
        start < end <= cs@.len(),
    ensures
        ({
            let n = cs@.subrange(start as int, end as int);
            match extension_spec(n) {
                None => r is None,
                Some(e) => r matches Some(k) && start < k <= end && e == cs@.subrange(k as int, end as int),
            }
        }),
{
    let ghost n = cs@.subrange(start as int, end as int);
    let mut k = end;
    while k > start && cs[k - 1] != '.'
        invariant
            start <= k <= end <= cs@.len(),
            forall|i: int| k <= i < end ==> cs@[i] != '.',
        decreases k,
    {
        k = k - 1;
    }
    proof {
        lemma_last_dot(n);
        let d = last_dot(n);
        if k > start {
            assert(n[k - 1 - start] == '.');
            assert(d == k - 1 - start) by {
                if d < k - 1 - start {
                    assert(n[k - 1 - start] != '.');
                } else if d > k - 1 - start {
                    assert(cs@[start + d] != '.');
                }
            }
            assert(n.subrange(d + 1, n.len() as int) =~= cs@.subrange(k as int, end as int));
        } else {
            assert(d == -1) by {
                if d >= 0 {
                    assert(cs@[start + d] != '.');
                }
            }
        }
    }
    if k <= start + 1 { None } else { Some(k) }
}

/// The lowercase extension of a path, or an empty string.
pub fn extension_of(path: &str) -> (r: String)
    ensures
        r@ == path_extension(path@),
{
    let cs = chars_of(path);
    let mut out = String::new();
    let (start, end) = match file_name_range(&cs) {
        None => {
            return out;
        },
        Some(range) => range,
    };
    let k = match extension_start(&cs, start, end) {
        None => {
            return out;
        },
        Some(k) => k,
    };
    let ghost e = cs@.subrange(k as int, end as int);
    let mut i = k;
    while i < end
        invariant
            k <= i <= end <= cs@.len(),
            out@ == cs@.subrange(k as int, i as int).map_values(|c: char| ascii_lower(c)),
        decreases end - i,
    {
        let c = cs[i];
        let lower = if 'A' <= c && c <= 'Z' { ((c as u32) + 32) as u8 as char } else { c };
        proof {
            assert(lower == ascii_lower(c));
        }
        push_char(&mut out, lower);
        proof {
            assert(cs@.subrange(k as int, i + 1) =~= cs@.subrange(k as int, i as int).push(c));
            assert(out@ =~= cs@.subrange(k as int, i + 1).map_values(|c: char| ascii_lower(c)));
        }
        i = i + 1;
    }
    out
}

/// The message for two paths of different formats.
pub open spec fn different_formats(a: Seq<char>, b: Seq<char>) -> Seq<char> {
    "`"@ + a + "` and `"@ + b + "` are different formats. A diff across formats is a conversion, which is veritas's job, not konflux's."@
}

/// The extension two paths share, or why they cannot be compared.
pub fn shared_extension(a: &str, b: &str) -> (r: Result<String, String>)
    ensures
        path_extension(a@) == path_extension(b@) ==> (r matches Ok(e) && e@ == path_extension(a@)),
        path_extension(a@) != path_extension(b@) ==> (r matches Err(m) && m@ == different_formats(a@, b@)),
{
    let ea = extension_of(a);
    let eb = extension_of(b);
    if same_text(ea.as_str(), eb.as_str()) {
        Ok(ea)
    } else {
        let mut m = String::from_str("`");
        m.append(a);
        m.append("` and `");
        m.append(b);
        m.append("` are different formats. A diff across formats is a conversion, which is veritas's job, not konflux's.");
        proof {
            reveal_strlit("`");
            reveal_strlit("` and `");
            reveal_strlit("` are different formats. A diff across formats is a conversion, which is veritas's job, not konflux's.");
        }
        Err(m)
    }
}

/// The message for an extension no format claims.
pub open spec fn unread_extension(e: Seq<char>) -> Seq<char> {
    "konflux does not read `."@ + e + "` yet. It speaks yaml and json today; toml and hcl arrive in Phase 2."@
}

/// Diff two documents through the format their extension names: YAML for
/// `yaml` and `yml`, JSON for `json`; any other extension is refused.
pub fn diff_by_extension(ext: &str, left: &[u8], right: &[u8]) -> (r: Result<Result<DiffReport, DiffError>, String>)
    requires
        left@.len() <= u32::MAX,
        right@.len() <= u32::MAX,
    ensures
        (ext@ == "yaml"@ || ext@ == "yml"@) ==> (r matches Ok(d) && diffed(&Yaml, left@, right@, d)),
        ext@ == "json"@ ==> (r matches Ok(d) && diffed(&Json, left@, right@, d)),
        !(ext@ == "yaml"@ || ext@ == "yml"@ || ext@ == "json"@) ==> (r matches Err(m) && m@ == unread_extension(ext@)),
{
    proof {
        reveal_strlit("yaml");
        reveal_strlit("yml");
        reveal_strlit("json");
        assert("json"@[0] != "yaml"@[0]);
        assert("json"@[0] != "yml"@[0]);
    }
    if same_text(ext, "yaml") || same_text(ext, "yml") {
        Ok(diff(&Yaml, left, right))
    } else if same_text(ext, "json") {
        Ok(diff(&Json, left, right))
    } else {
        let mut m = String::from_str("konflux does not read `.");
        m.append(ext);
        m.append("` yet. It speaks ");
        m.append(Yaml.name());
        m.append(" and ");
        m.append(Json.name());
        m.append(" today; toml and hcl arrive in Phase 2.");
        proof {
            reveal_strlit("konflux does not read `.");
            reveal_strlit("` yet. It speaks ");
            reveal_strlit(" and ");
            reveal_strlit(" today; toml and hcl arrive in Phase 2.");
            reveal_strlit("` yet. It speaks yaml and json today; toml and hcl arrive in Phase 2.");
            reveal_strlit("yaml");
            reveal_strlit("json");
        }
        Err(m)
    }
}

} // verus!
