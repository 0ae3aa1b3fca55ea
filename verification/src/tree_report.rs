//! The repository report the determinism gate hashes: every file's
//! repo-relative, `/`-separated path, length and digest, sorted byte-wise, in
//! a fixed JSON shape with no wall-clock field. Walking the tree and hashing
//! the files is the caller's business; the order, the paths and the bytes of
//! the report are decided here.
use crate::cli::same_text;
use crate::conformance::{lemma_text_le_total, lemma_text_le_trans, text_le, text_le_exec};
use crate::corpus::starts_with;
use crate::fuzz_hours::split_on;
use crate::semantic::chars_of;
use crate::text::{decimal, push_char, push_decimal};
use vstd::prelude::*;
use vstd::string::*;

verus! {

/// Bumped whenever the report's shape changes. Consumers pin it.
pub const SCHEMA_VERSION: u32 = 1;

/// Whether a directory of this name is never descended into: build output
/// and version-control internals are not repository content.
pub open spec fn skipped_dir_spec(name: Seq<char>) -> bool {
    name == ".git"@ || name == "target"@ || name == "node_modules"@ || name == ".venv"@ || name == "__pycache__"@
}

/// Whether the walk skips an entry of this name.
pub fn is_skipped_dir(name: &str) -> (r: bool)
    ensures
        r == skipped_dir_spec(name@),
{
    same_text(name, ".git") || same_text(name, "target") || same_text(name, "node_modules") || same_text(name, ".venv")
        || same_text(name, "__pycache__")
}

/// The file that marks a directory of fetched third-party corpus content,
/// which the report leaves out so that it reads the same fetched or not.
pub fn fetch_receipt() -> (r: &'static str)
    ensures
        r@ == "MANIFEST.tsv"@,
{
    proof {
        reveal_strlit("MANIFEST.tsv");
    }
    "MANIFEST.tsv"
}

/// One file in the report.
#[derive(Debug)]
pub struct Entry {
    /// Repo-relative path, `/`-separated.
    pub path: String,
    /// Size in bytes.
    pub len: u64,
    /// SHA-256 of the file's bytes, lowercase hex.
    pub digest: String,
}

/// How one character is written inside the report's strings.
pub open spec fn escape_one(c: char) -> Seq<char> {
    if c == '"' { seq!['\\', '"'] } else if c == '\\' { seq!['\\', '\\'] } else { seq![c] }
}

/// `s` with quotes and backslashes escaped.
pub open spec fn escape_spec(s: Seq<char>) -> Seq<char>
    decreases s.len(),
{
    if s.len() == 0 { Seq::empty() } else { escape_spec(s.drop_last()) + escape_one(s.last()) }
}

/// Escape quotes and backslashes for a JSON string.
pub fn escape(s: &str) -> (r: String)
    ensures
        r@ == escape_spec(s@),
{
    let cs = chars_of(s);
    let mut out = String::new();
    let mut i: usize = 0;
    while i < cs.len()
        invariant
            cs@ == s@,
            i <= cs@.len(),
            out@ == escape_spec(cs@.take(i as int)),
        decreases cs@.len() - i,
    {
        let c = cs[i];
        proof {
            assert(cs@.take(i + 1).drop_last() =~= cs@.take(i as int));
            assert(cs@.take(i + 1).last() == c);
        }
        if c == '"' || c == '\\' {
            push_char(&mut out, '\\');
        }
        push_char(&mut out, c);
        proof {
            assert(out@ =~= escape_spec(cs@.take(i + 1)));
        }
        i = i + 1;
    }
    proof {
        assert(cs@.take(i as int) =~= s@);
    }
    out
}

// --- paths ----------------------------------------------------------------------

/// The named parts of a `/`-separated path: empty and `.` pieces dropped.
pub open spec fn named_parts(ps: Seq<Seq<char>>) -> Seq<Seq<char>>
    decreases ps.len(),
{
    if ps.len() == 0 {
        Seq::empty()
    } else {
        let rest = named_parts(ps.drop_last());
        if ps.last().len() == 0 || ps.last() == seq!['.'] { rest } else { rest.push(ps.last()) }
    }
}

/// A path's components, as `Path::components` reads a Unix path: the root
/// `/` if it is absolute, a leading `.` if it starts with one, then the
/// named parts.
pub open spec fn components(p: Seq<char>) -> Seq<Seq<char>> {
    let rooted = p.len() > 0 && p[0] == '/';
    let cur = !rooted && (p == seq!['.'] || starts_with(p, "./"@));
    (if rooted { seq![seq!['/']] } else { Seq::empty() }) + (if cur { seq![seq!['.']] } else { Seq::empty() })
        + named_parts(split_on(p, '/'))
}

/// Texts joined with `/` between them.
pub open spec fn slash_joined(t: Seq<Seq<char>>) -> Seq<char>
    decreases t.len(),
{
    if t.len() == 0 {
        Seq::empty()
    } else if t.len() == 1 {
        t[0]
    } else {
        slash_joined(t.drop_last()) + seq!['/'] + t.last()
    }
}

/// `path` relative to `root`, its components joined by `/`: the components
/// after `root`'s when `root`'s begin it, otherwise all of `path`'s.
pub open spec fn relative_spec(root: Seq<char>, path: Seq<char>) -> Seq<char> {
    let rc = components(root);
    let pc = components(path);
    if rc.len() <= pc.len() && pc.take(rc.len() as int) == rc {
        slash_joined(pc.skip(rc.len() as int))
    } else {
        slash_joined(pc)
    }
}

/// The pieces of `cs` between slashes.
fn pieces(cs: &Vec<char>) -> (r: Vec<Vec<char>>)
    ensures
        r@.len() == split_on(cs@, '/').len(),
        forall|i: int| 0 <= i < r@.len() ==> (#[trigger] r@[i])@ == split_on(cs@, '/')[i],
{
    let mut out: Vec<Vec<char>> = Vec::new();
    let mut cur: Vec<char> = Vec::new();
    let mut i: usize = 0;
    proof {
        assert(cs@.take(0) =~= Seq::<char>::empty());
    }
    while i < cs.len()
        invariant
            i <= cs@.len(),
            out@.len() + 1 == split_on(cs@.take(i as int), '/').len(),
            forall|k: int| 0 <= k < out@.len() ==> (#[trigger] out@[k])@ == split_on(cs@.take(i as int), '/')[k],
            cur@ == split_on(cs@.take(i as int), '/').last(),
        decreases cs@.len() - i,
    {
        let c = cs[i];
        let ghost prev = split_on(cs@.take(i as int), '/');
        proof {
            let t = cs@.take(i + 1);
            assert(t.drop_last() =~= cs@.take(i as int));
            assert(t.last() == c);
        }
        if c == '/' {
            let ghost before = out@;
            out.push(cur);
            cur = Vec::new();
            proof {
                assert forall|k: int| 0 <= k < out@.len() implies (#[trigger] out@[k])@ == split_on(cs@.take(i + 1), '/')[k] by {
                    if k < before.len() {
                        assert(out@[k] == before[k]);
                    }
                }
            }
        } else {
            cur.push(c);
        }
        i = i + 1;
    }
    proof {
        assert(cs@.take(i as int) =~= cs@);
    }
    let ghost before = out@;
    out.push(cur);
    proof {
        assert forall|k: int| 0 <= k < out@.len() implies (#[trigger] out@[k])@ == split_on(cs@, '/')[k] by {
            if k < before.len() {
                assert(out@[k] == before[k]);
            }
        }
    }
    out
}

/// The components of a path.
fn components_of(p: &str) -> (r: Vec<Vec<char>>)
    ensures
        r@.len() == components(p@).len(),
        forall|i: int| 0 <= i < r@.len() ==> (#[trigger] r@[i])@ == components(p@)[i],
{
    let cs = chars_of(p);
    let ps = pieces(&cs);
    let ghost sp = split_on(p@, '/');
    let mut out: Vec<Vec<char>> = Vec::new();
    let rooted = cs.len() > 0 && cs[0] == '/';
    if rooted {
        let mut root: Vec<char> = Vec::new();
        root.push('/');
        out.push(root);
    }
    let dot_slash = cs.len() >= 2 && cs[0] == '.' && cs[1] == '/';
    let cur = !rooted && ((cs.len() == 1 && cs[0] == '.') || dot_slash);
    proof {
        reveal_strlit("./");
        if cs@.len() >= 2 {
            assert(starts_with(p@, "./"@) == (cs@[0] == '.' && cs@[1] == '/')) by {
                if cs@[0] == '.' && cs@[1] == '/' {
                    assert(cs@.subrange(0, 2) =~= "./"@);
                } else if starts_with(p@, "./"@) {
                    assert(cs@.subrange(0, 2)[0] == '.');
                    assert(cs@.subrange(0, 2)[1] == '/');
                }
            }
        }
        if cs@.len() == 1 {
            assert((cs@ == seq!['.']) == (cs@[0] == '.')) by {
                if cs@[0] == '.' {
                    assert(cs@ =~= seq!['.']);
                }
            }
        }
        if cs@.len() != 1 {
            assert(cs@ != seq!['.']);
        }
    }
    if cur {
        let mut dot: Vec<char> = Vec::new();
        dot.push('.');
        out.push(dot);
    }
    let ghost head = Seq::new(out@.len(), |i: int| out@[i]@);
    proof {
        let rooted_s = p@.len() > 0 && p@[0] == '/';
        let cur_s = !rooted_s && (p@ == seq!['.'] || starts_with(p@, "./"@));
        assert(head =~= (if rooted_s { seq![seq!['/']] } else { Seq::empty() }) + (if cur_s { seq![seq!['.']] } else { Seq::empty() }));
    }
    let base = out.len();
    let mut j: usize = 0;
    while j < ps.len()
        invariant
            ps@.len() == sp.len(),
            forall|i: int| 0 <= i < ps@.len() ==> (#[trigger] ps@[i])@ == sp[i],
            j <= ps@.len(),
            base <= out@.len(),
            out@.len() == base + named_parts(sp.take(j as int)).len(),
            head.len() == base,
            forall|i: int| 0 <= i < base ==> (#[trigger] out@[i])@ == head[i],
            forall|i: int| 0 <= i < out@.len() - base ==> (#[trigger] out@[base + i])@ == named_parts(sp.take(j as int))[i],
        decreases ps@.len() - j,
    {
        let piece = &ps[j];
        proof {
            assert(sp.take(j + 1).drop_last() =~= sp.take(j as int));
            assert(sp.take(j + 1).last() == piece@);
        }
        let is_dot = piece.len() == 1 && piece[0] == '.';
        proof {
            if piece@.len() == 1 {
                assert((piece@ == seq!['.']) == (piece@[0] == '.')) by {
                    if piece@[0] == '.' {
                        assert(piece@ =~= seq!['.']);
                    }
                }
            } else {
                assert(piece@ != seq!['.']);
            }
        }
        if piece.len() > 0 && !is_dot {
            let ghost before = out@;
            out.push(piece.clone());
            proof {
                assert forall|i: int| 0 <= i < out@.len() - base implies (#[trigger] out@[base + i])@ == named_parts(sp.take(j + 1))[i] by {
                    if i < before.len() - base {
                        assert(out@[base + i] == before[base + i]);
                    }
                }
                assert forall|i: int| 0 <= i < base implies (#[trigger] out@[i])@ == head[i] by {
                    assert(out@[i] == before[i]);
                }
            }
        }
        j = j + 1;
    }
    proof {
        assert(sp.take(j as int) =~= sp);
        let want = components(p@);
        assert(want =~= head + named_parts(sp));
        assert forall|i: int| 0 <= i < out@.len() implies (#[trigger] out@[i])@ == want[i] by {
            if i >= base {
                assert(out@[base + (i - base)] == out@[i]);
            }
        }
    }
    out
}

/// `t[from..]` joined with `/`.
fn join_from(t: &Vec<Vec<char>>, from: usize) -> (r: String)
    requires
        from <= t@.len(),
    ensures
        r@ == slash_joined(Seq::new(t@.len(), |i: int| t@[i]@).skip(from as int)),
{
    let ghost all = Seq::new(t@.len(), |i: int| t@[i]@);
    let mut out = String::new();
    let mut i = from;
    proof {
        assert(all.skip(from as int).take(0) =~= Seq::<Seq<char>>::empty());
    }
    while i < t.len()
        invariant
            all == Seq::new(t@.len(), |i: int| t@[i]@),
            from <= i <= t@.len(),
            out@ == slash_joined(all.skip(from as int).take(i - from)),
        decreases t@.len() - i,
    {
        proof {
            let u = all.skip(from as int).take(i + 1 - from);
            assert(u.drop_last() =~= all.skip(from as int).take(i - from));
            assert(u.last() == t@[i as int]@);
            if i == from {
                assert(u[0] == t@[i as int]@);
            }
        }
        if i > from {
            push_char(&mut out, '/');
        }
        let piece = &t[i];
        let mut k: usize = 0;
        let ghost o = out@;
        while k < piece.len()
            invariant
                k <= piece@.len(),
                out@ == o + piece@.take(k as int),
            decreases piece@.len() - k,
        {
            push_char(&mut out, piece[k]);
            proof {
                assert(out@ =~= o + piece@.take(k + 1));
            }
            k = k + 1;
        }
        proof {
            assert(piece@.take(k as int) =~= piece@);
            let u = all.skip(from as int).take(i + 1 - from);
            if i > from {
                assert(out@ =~= slash_joined(u.drop_last()) + seq!['/'] + u.last());
            } else {
                assert(out@ =~= u[0]);
            }
        }
        i = i + 1;
    }
    proof {
        assert(all.skip(from as int).take(i - from) =~= all.skip(from as int));
    }
    out
}

/// `path` relative to `root`, `/`-separated on every platform.
pub fn relative(root: &str, path: &str) -> (r: String)
    ensures
        r@ == relative_spec(root@, path@),
{
    let rc = components_of(root);
    let pc = components_of(path);
    let ghost rcv = components(root@);
    let ghost pcv = components(path@);
    proof {
        assert(Seq::new(pc@.len(), |i: int| pc@[i]@) =~= pcv);
        assert(pcv.skip(0) =~= pcv);
    }
    if rc.len() > pc.len() {
        return join_from(&pc, 0);
    }
    let mut i: usize = 0;
    while i < rc.len()
        invariant
            rcv == components(root@),
            pcv == components(path@),
            Seq::new(pc@.len(), |i: int| pc@[i]@) == pcv,
            pcv.skip(0) == pcv,
            rc@.len() <= pc@.len(),
            rc@.len() == rcv.len(),
            pc@.len() == pcv.len(),
            forall|k: int| 0 <= k < rc@.len() ==> (#[trigger] rc@[k])@ == rcv[k],
            forall|k: int| 0 <= k < pc@.len() ==> (#[trigger] pc@[k])@ == pcv[k],
            i <= rc@.len(),
            forall|k: int| 0 <= k < i ==> rcv[k] == pcv[k],
        decreases rc@.len() - i,
    {
        let a = &rc[i];
        let b = &pc[i];
        let mut same = a.len() == b.len();
        let mut k: usize = 0;
        while same && k < a.len()
            invariant
                same ==> a@.len() == b@.len(),
                k <= a@.len(),
                same ==> forall|m: int| 0 <= m < k ==> a@[m] == b@[m],
                !same ==> a@ != b@,
            decreases a@.len() - k,
        {
            if a[k] != b[k] {
                same = false;
            }
            k = k + 1;
        }
        if !same {
            proof {
                assert(pcv.take(rcv.len() as int)[i as int] != rcv[i as int]);
            }
            return join_from(&pc, 0);
        }
        proof {
            assert(a@ =~= b@);
        }
        i = i + 1;
    }
    proof {
        assert(pcv.take(rcv.len() as int) =~= rcv);
    }
    join_from(&pc, rc.len())
}

// --- the report ---------------------------------------------------------------------

/// The first index at or after `j` whose path is not below `key`.
pub open spec fn first_not_below_path(t: Seq<Entry>, key: Seq<char>, j: int) -> int
    decreases t.len() - j,
{
    if j < 0 || j >= t.len() {
        t.len() as int
    } else if text_le(key, t[j].path@) {
        j
    } else {
        first_not_below_path(t, key, j + 1)
    }
}

/// Entries sorted by path bytes, stably: each entry, from the last to the
/// first, goes in front of the first entry whose path is not below its own.
pub open spec fn sorted_entries(s: Seq<Entry>) -> Seq<Entry>
    decreases s.len(),
{
    if s.len() == 0 {
        Seq::empty()
    } else {
        let t = sorted_entries(s.drop_first());
        t.insert(first_not_below_path(t, s[0].path@, 0), s[0])
    }
}

fn sort_entries(v: Vec<Entry>) -> (r: Vec<Entry>)
    ensures
        r@ == sorted_entries(v@),
{
    let ghost orig = v@;
    let mut v = v;
    let mut out: Vec<Entry> = Vec::new();
    while v.len() > 0
        invariant
            v@ == orig.subrange(0, v@.len() as int),
            v@.len() <= orig.len(),
            out@ == sorted_entries(orig.subrange(v@.len() as int, orig.len() as int)),
        decreases v@.len(),
    {
        let ghost k = v@.len();
        let x = v.pop().unwrap();
        let key = chars_of(x.path.as_str());
        let mut pos: usize = 0;
        while pos < out.len() && !text_le_exec(&key, &chars_of(out[pos].path.as_str()))
            invariant
                pos <= out@.len(),
                first_not_below_path(out@, key@, 0) == first_not_below_path(out@, key@, pos as int),
            decreases out@.len() - pos,
        {
            pos = pos + 1;
        }
        proof {
            let suffix = orig.subrange(k - 1, orig.len() as int);
            assert(suffix.drop_first() == orig.subrange(k as int, orig.len() as int));
            assert(suffix[0] == x);
            assert(v@ == orig.subrange(0, k - 1));
        }
        out.insert(pos, x);
    }
    proof {
        assert(orig.subrange(0, orig.len() as int) == orig);
    }
    out
}

/// One file's line, with a comma unless it is the last.
pub open spec fn entry_line(e: Entry, last: bool) -> Seq<char> {
    "    {\"path\": \""@ + escape_spec(e.path@) + "\", \"len\": "@ + decimal(e.len as nat) + ", \"sha256\": \""@
        + e.digest@ + "\"}"@ + (if last { Seq::empty() } else { ","@ }) + "\n"@
}

/// The lines of the first `k` of `t` files.
pub open spec fn entry_lines(t: Seq<Entry>, k: int) -> Seq<char>
    decreases k,
{
    if k <= 0 || k > t.len() {
        Seq::empty()
    } else {
        entry_lines(t, k - 1) + entry_line(t[k - 1], k == t.len())
    }
}

/// The report over some files: its schema version, how many files, and one
/// line per file in byte-wise path order.
pub open spec fn report_spec(entries: Seq<Entry>) -> Seq<char> {
    let t = sorted_entries(entries);
    "{\n"@ + "  \"schema_version\": "@ + decimal(SCHEMA_VERSION as nat) + ",\n"@ + "  \"file_count\": "@
        + decimal(t.len()) + ",\n"@ + "  \"files\": [\n"@ + entry_lines(t, t.len() as int) + "  ]\n}\n"@
}

fn push_entry(out: &mut String, e: &Entry, last: bool)
    ensures
        final(out)@ == old(out)@ + entry_line(*e, last),
{
    proof {
        reveal_strlit("    {\"path\": \"");
        reveal_strlit("\", \"len\": ");
        reveal_strlit(", \"sha256\": \"");
        reveal_strlit("\"}");
        reveal_strlit(",");
        reveal_strlit("\n");
    }
    out.append("    {\"path\": \"");
    let p = escape(e.path.as_str());
    out.append(p.as_str());
    out.append("\", \"len\": ");
    push_decimal(out, e.len);
    out.append(", \"sha256\": \"");
    out.append(e.digest.as_str());
    out.append("\"}");
    if !last {
        out.append(",");
    }
    out.append("\n");
    proof {
        assert(final(out)@ =~= old(out)@ + entry_line(*e, last));
    }
}

/// Render the report over `entries`, sorted by path bytes.
pub fn render_entries(entries: Vec<Entry>) -> (r: String)
    ensures
        r@ == report_spec(entries@),
{
    let t = sort_entries(entries);
    let mut out = String::from_str("{\n");
    out.append("  \"schema_version\": ");
    push_decimal(&mut out, SCHEMA_VERSION as u64);
    out.append(",\n");
    out.append("  \"file_count\": ");
    push_decimal(&mut out, t.len() as u64);
    out.append(",\n");
    out.append("  \"files\": [\n");
    proof {
        reveal_strlit("{\n");
        reveal_strlit("  \"schema_version\": ");
        reveal_strlit(",\n");
        reveal_strlit("  \"file_count\": ");
        reveal_strlit("  \"files\": [\n");
        reveal_strlit("  ]\n}\n");
    }
    let ghost head = out@;
    let mut i: usize = 0;
    while i < t.len()
        invariant
            i <= t@.len(),
            out@ == head + entry_lines(t@, i as int),
        decreases t@.len() - i,
    {
        push_entry(&mut out, &t[i], i + 1 == t.len());
        i = i + 1;
    }
    out.append("  ]\n}\n");
    out
}

/// Whether entries are in byte-wise path order.
pub open spec fn paths_sorted(t: Seq<Entry>) -> bool {
    forall|i: int, j: int| 0 <= i < j < t.len() ==> text_le(#[trigger] t[i].path@, #[trigger] t[j].path@)
}

proof fn lemma_first_not_below_path(t: Seq<Entry>, key: Seq<char>, j: int)
    requires
        0 <= j <= t.len(),
    ensures
        j <= first_not_below_path(t, key, j) <= t.len(),
        forall|i: int| j <= i < first_not_below_path(t, key, j) ==> !text_le(key, #[trigger] t[i].path@),
        first_not_below_path(t, key, j) < t.len() ==> text_le(key, t[first_not_below_path(t, key, j)].path@),
    decreases t.len() - j,
{
    if j < t.len() && !text_le(key, t[j].path@) {
        lemma_first_not_below_path(t, key, j + 1);
    }
}

/// The report lists files in byte-wise path order, every file exactly once:
/// sorting orders the entries and keeps each of them.
pub proof fn lemma_entries_sorted(s: Seq<Entry>)
    ensures
        paths_sorted(sorted_entries(s)),
        sorted_entries(s).to_multiset() == s.to_multiset(),
    decreases s.len(),
{
    if s.len() > 0 {
        let rest = s.drop_first();
        lemma_entries_sorted(rest);
        let t = sorted_entries(rest);
        let x = s[0];
        let pos = first_not_below_path(t, x.path@, 0);
        lemma_first_not_below_path(t, x.path@, 0);
        let u = t.insert(pos, x);
        assert forall|i: int, j: int| 0 <= i < j < u.len() implies text_le(#[trigger] u[i].path@, #[trigger] u[j].path@) by {
            if j < pos {
                assert(u[i] == t[i] && u[j] == t[j]);
            } else if j == pos {
                assert(u[i] == t[i] && u[j] == x);
                assert(!text_le(x.path@, t[i].path@));
                lemma_text_le_total(x.path@, t[i].path@);
            } else if i == pos {
                assert(u[i] == x && u[j] == t[j - 1]);
                if pos < t.len() && j - 1 > pos {
                    assert(text_le(t[pos].path@, t[j - 1].path@));
                    lemma_text_le_trans(x.path@, t[pos].path@, t[j - 1].path@);
                }
            } else if i < pos {
                assert(u[i] == t[i] && u[j] == t[j - 1]);
            } else {
                assert(u[i] == t[i - 1] && u[j] == t[j - 1]);
            }
        }
        let a = t.subrange(0, pos);
        let b = t.subrange(pos, t.len() as int);
        assert(u == a + seq![x] + b);
        assert(t == a + b);
        vstd::seq_lib::lemma_multiset_commutative(a + seq![x], b);
        vstd::seq_lib::lemma_multiset_commutative(a, seq![x]);
        vstd::seq_lib::lemma_multiset_commutative(a, b);
        vstd::seq_lib::lemma_multiset_commutative(seq![x], rest);
        assert(s == seq![x] + rest);
        assert(u.to_multiset() =~= s.to_multiset());
        assert(sorted_entries(s) == u);
    } else {
        broadcast use vstd::seq_lib::group_to_multiset_ensures;
        assert(sorted_entries(s) =~= s);
    }
}

} // verus!
