//! The allocation profile gate: allocation counts for parse and serialize
//! over the committed golden cases, rendered as a tab-separated table and
//! compared with a checked-in baseline for equality, not within a
//! tolerance: allocation counts are exact, so any difference is a real
//! change in behaviour. Measuring the counts takes a counting allocator and
//! the file system, which the harness owns.
use crate::corpus::{lines_of, lines_spec, string_of_range, trim, trim_range};
use crate::text::{decimal, push_char, push_decimal};
use vstd::prelude::*;
use vstd::string::*;

verus! {

/// Whether a trimmed line is a row: not blank and not a `#` comment.
pub open spec fn is_row(r: Seq<char>) -> bool {
    r.len() > 0 && r[0] != '#'
}

/// The rows among some lines: each trimmed, blank lines and comments dropped.
pub open spec fn rows_among(ls: Seq<Seq<char>>) -> Seq<Seq<char>>
    decreases ls.len(),
{
    if ls.len() == 0 {
        Seq::empty()
    } else {
        rows_among(ls.drop_last()) + (if is_row(trim(ls.last())) { seq![trim(ls.last())] } else { Seq::empty() })
    }
}

/// The rows of a profile.
pub open spec fn rows_spec(text: Seq<char>) -> Seq<Seq<char>> {
    rows_among(lines_spec(text))
}

/// Each row on a line of its own behind `indent`.
pub open spec fn listed(rows: Seq<Seq<char>>, indent: Seq<char>) -> Seq<char>
    decreases rows.len(),
{
    if rows.len() == 0 { Seq::empty() } else { listed(rows.drop_last(), indent) + indent + rows.last() + "\n"@ }
}

/// The report when the profile matches.
pub open spec fn matched_spec(rows: Seq<Seq<char>>) -> Seq<char> {
    "allocation profile matches the baseline exactly\n"@ + listed(rows, "  "@)
}

/// The report when it does not.
pub open spec fn changed_spec(want: Seq<Seq<char>>, got: Seq<Seq<char>>) -> Seq<char> {
    "ALLOCATION PROFILE CHANGED\n\nThis gate compares for equality, not within a tolerance: allocation\ncounts are exact, so a difference is a real change in behaviour rather\nthan measurement noise.\n\n"@
        + "  expected (baseline):\n"@ + listed(want, "    "@) + "  measured:\n"@ + listed(got, "    "@)
        + "\n  Fewer allocations is an improvement: record the new numbers.\n  More is a regression: explain it, then record them. Either way the\n  baseline change is reviewed (\u{a7}8), and golden-guard covers this path.\n"@
}

/// The characters of each of some vectors.
pub open spec fn views(v: Seq<Vec<char>>) -> Seq<Seq<char>> {
    Seq::new(v.len(), |i: int| v[i]@)
}

/// The rows of a profile, as character vectors.
fn rows(text: &str) -> (r: Vec<Vec<char>>)
    ensures
        views(r@) == rows_spec(text@),
{
    let ls = lines_of(text);
    let ghost lv = lines_spec(text@);
    let mut out: Vec<Vec<char>> = Vec::new();
    let mut i: usize = 0;
    proof {
        assert(lv.take(0) =~= Seq::<Seq<char>>::empty());
        assert(views(out@) =~= Seq::<Seq<char>>::empty());
    }
    while i < ls.len()
        invariant
            lv == lines_spec(text@),
            ls@.len() == lv.len(),
            forall|k: int| 0 <= k < ls@.len() ==> (#[trigger] ls@[k])@ == lv[k],
            i <= ls@.len(),
            views(out@) == rows_among(lv.take(i as int)),
        decreases ls@.len() - i,
    {
        let line = &ls[i];
        let (a, b) = trim_range(line, 0, line.len());
        proof {
            assert(line@.subrange(0, line@.len() as int) =~= line@);
            assert(lv.take(i + 1).drop_last() =~= lv.take(i as int));
            assert(lv.take(i + 1).last() == lv[i as int]);
        }
        if a < b && line[a] != '#' {
            let mut r: Vec<char> = Vec::new();
            let mut k = a;
            while k < b
                invariant
                    a <= k <= b <= line@.len(),
                    r@ == line@.subrange(a as int, k as int),
                decreases b - k,
            {
                r.push(line[k]);
                proof {
                    assert(r@ =~= line@.subrange(a as int, k + 1));
                }
                k = k + 1;
            }
            let ghost before = out@;
            out.push(r);
            proof {
                assert(views(out@) =~= views(before).push(trim(lv[i as int])));
            }
        } else {
            proof {
                assert(views(out@) =~= views(out@) + Seq::<Seq<char>>::empty());
            }
        }
        i = i + 1;
    }
    proof {
        assert(lv.take(i as int) =~= lv);
    }
    out
}

/// Whether two lists of rows are equal.
fn same_rows(a: &Vec<Vec<char>>, b: &Vec<Vec<char>>) -> (r: bool)
    ensures
        r == (views(a@) == views(b@)),
{
    if a.len() != b.len() {
        proof {
            assert(views(a@).len() != views(b@).len());
        }
        return false;
    }
    let mut i: usize = 0;
    while i < a.len()
        invariant
            a@.len() == b@.len(),
            i <= a@.len(),
            forall|k: int| 0 <= k < i ==> (#[trigger] a@[k])@ == b@[k]@,
        decreases a@.len() - i,
    {
        let x = &a[i];
        let y = &b[i];
        if x.len() != y.len() {
            proof {
                assert(views(a@)[i as int] != views(b@)[i as int]);
            }
            return false;
        }
        let mut k: usize = 0;
        while k < x.len()
            invariant
                i < a@.len() == b@.len(),
                *x == a@[i as int],
                *y == b@[i as int],
                x@.len() == y@.len(),
                k <= x@.len(),
                forall|m: int| 0 <= m < k ==> x@[m] == y@[m],
            decreases x@.len() - k,
        {
            if x[k] != y[k] {
                proof {
                    assert(views(a@)[i as int][k as int] != views(b@)[i as int][k as int]);
                }
                return false;
            }
            k = k + 1;
        }
        proof {
            assert(x@ =~= y@);
        }
        i = i + 1;
    }
    proof {
        assert(views(a@) =~= views(b@));
    }
    true
}

fn push_listed(out: &mut String, rows: &Vec<Vec<char>>, indent: &str)
    ensures
        final(out)@ == old(out)@ + listed(views(rows@), indent@),
{
    let mut i: usize = 0;
    proof {
        assert(views(rows@).take(0) =~= Seq::<Seq<char>>::empty());
        assert(old(out)@ + Seq::<char>::empty() =~= old(out)@);
    }
    while i < rows.len()
        invariant
            i <= rows@.len(),
            out@ == old(out)@ + listed(views(rows@).take(i as int), indent@),
        decreases rows@.len() - i,
    {
        let ghost o = out@;
        out.append(indent);
        let row = &rows[i];
        let mut k: usize = 0;
        while k < row.len()
            invariant
                k <= row@.len(),
                out@ == o + indent@ + row@.take(k as int),
            decreases row@.len() - k,
        {
            push_char(out, row[k]);
            proof {
                assert(row@.take(k + 1) =~= row@.take(k as int).push(row@[k as int]));
                assert(out@ =~= o + indent@ + row@.take(k + 1));
            }
            k = k + 1;
        }
        push_char(out, '\n');
        proof {
            reveal_strlit("\n");
            let vs = views(rows@);
            assert(vs.take(i + 1).drop_last() =~= vs.take(i as int));
            assert(vs.take(i + 1).last() == row@);
            assert(row@.take(k as int) =~= row@);
            assert(out@ =~= old(out)@ + listed(vs.take(i + 1), indent@));
        }
        i = i + 1;
    }
    proof {
        assert(views(rows@).take(i as int) =~= views(rows@));
    }
}

/// Compare a measured profile with the baseline's text, row by row: `Ok`
/// with the rows when they are equal, else `Err` with both lists.
pub fn compare(profile: &str, expected: &str) -> (r: Result<String, String>)
    ensures
        r is Ok <==> rows_spec(profile@) == rows_spec(expected@),
        r matches Ok(s) ==> s@ == matched_spec(rows_spec(profile@)),
        r matches Err(s) ==> s@ == changed_spec(rows_spec(expected@), rows_spec(profile@)),
{
    let got = rows(profile);
    let want = rows(expected);
    if same_rows(&got, &want) {
        let mut out = String::from_str("allocation profile matches the baseline exactly\n");
        push_listed(&mut out, &got, "  ");
        return Ok(out);
    }
    let mut out = String::from_str(
        "ALLOCATION PROFILE CHANGED\n\nThis gate compares for equality, not within a tolerance: allocation\ncounts are exact, so a difference is a real change in behaviour rather\nthan measurement noise.\n\n",
    );
    out.append("  expected (baseline):\n");
    push_listed(&mut out, &want, "    ");
    out.append("  measured:\n");
    push_listed(&mut out, &got, "    ");
    out.append(
        "\n  Fewer allocations is an improvement: record the new numbers.\n  More is a regression: explain it, then record them. Either way the\n  baseline change is reviewed (\u{a7}8), and golden-guard covers this path.\n",
    );
    Err(out)
}

/// One format's totals: its name, the cases read, the allocations and the
/// bytes they asked for.
#[derive(Clone, Debug)]
pub struct Totals {
    pub name: String,
    pub cases: u64,
    pub allocs: u64,
    pub bytes: u64,
}

/// One table row: the four fields, tab-separated.
pub open spec fn totals_row(t: Totals) -> Seq<char> {
    t.name@ + "\t"@ + decimal(t.cases as nat) + "\t"@ + decimal(t.allocs as nat) + "\t"@ + decimal(t.bytes as nat) + "\n"@
}

/// The rows of some totals, in order.
pub open spec fn totals_rows(ts: Seq<Totals>) -> Seq<char>
    decreases ts.len(),
{
    if ts.len() == 0 { Seq::empty() } else { totals_rows(ts.drop_last()) + totals_row(ts.last()) }
}

/// The profile: a schema line, two comments, and one row per format.
pub open spec fn profile_spec(ts: Seq<Totals>) -> Seq<char> {
    "#! schema = 1\n# Allocations for parse+serialize over the committed golden cases.\n# format\tcases\tallocations\tbytes\n"@
        + totals_rows(ts)
}

/// Render the profile of some totals.
pub fn render_profile(totals: &Vec<Totals>) -> (r: String)
    ensures
        r@ == profile_spec(totals@),
{
    let mut out = String::from_str(
        "#! schema = 1\n# Allocations for parse+serialize over the committed golden cases.\n# format\tcases\tallocations\tbytes\n",
    );
    let ghost head = out@;
    let mut i: usize = 0;
    proof {
        assert(totals@.take(0) =~= Seq::<Totals>::empty());
        assert(head + Seq::<char>::empty() =~= head);
    }
    while i < totals.len()
        invariant
            i <= totals@.len(),
            out@ == head + totals_rows(totals@.take(i as int)),
        decreases totals@.len() - i,
    {
        let t = &totals[i];
        let ghost o = out@;
        out.append(t.name.as_str());
        push_char(&mut out, '\t');
        push_decimal(&mut out, t.cases);
        push_char(&mut out, '\t');
        push_decimal(&mut out, t.allocs);
        push_char(&mut out, '\t');
        push_decimal(&mut out, t.bytes);
        push_char(&mut out, '\n');
        proof {
            reveal_strlit("\t");
            reveal_strlit("\n");
            assert(totals@.take(i + 1).drop_last() =~= totals@.take(i as int));
            assert(totals@.take(i + 1).last() == *t);
            assert(out@ =~= o + totals_row(*t));
        }
        i = i + 1;
    }
    proof {
        assert(totals@.take(i as int) =~= totals@);
    }
    out
}

} // verus!
