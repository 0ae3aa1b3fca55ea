//! Ranking counted rows for a report: the most frequent first, ties by name
//! in byte order, so that a report reads the same on every machine.
use crate::conformance::{lemma_text_le_total, lemma_text_le_trans, text_le, text_le_exec};
use crate::semantic::chars_of;
use vstd::prelude::*;

verus! {

/// Whether a row with name `a` and count `m` ranks at or before one with name
/// `b` and count `n`: a higher count first, an equal count by name.
pub open spec fn ranks_before(a: Seq<char>, m: nat, b: Seq<char>, n: nat) -> bool {
    m > n || (m == n && text_le(a, b))
}

/// Whether row `x` ranks at or before row `y`.
pub open spec fn row_before<T>(x: (String, usize, T), y: (String, usize, T)) -> bool {
    ranks_before(x.0@, x.1 as nat, y.0@, y.1 as nat)
}

/// The first index at or after `j` whose row `x` ranks at or before, or the
/// length when there is none.
pub open spec fn slot<T>(t: Seq<(String, usize, T)>, x: (String, usize, T), j: int) -> int
    decreases t.len() - j,
{
    if j < 0 || j >= t.len() {
        t.len() as int
    } else if row_before(x, t[j]) {
        j
    } else {
        slot(t, x, j + 1)
    }
}

/// Rows ranked: each row, from the last to the first, goes in front of the
/// first row it ranks at or before. Rows that tie keep their order.
pub open spec fn ranked<T>(s: Seq<(String, usize, T)>) -> Seq<(String, usize, T)>
    decreases s.len(),
{
    if s.len() == 0 {
        Seq::empty()
    } else {
        let t = ranked(s.drop_first());
        t.insert(slot(t, s[0], 0), s[0])
    }
}

/// Whether rows are in rank order.
pub open spec fn in_rank_order<T>(t: Seq<(String, usize, T)>) -> bool {
    forall|i: int, j: int| 0 <= i < j < t.len() ==> row_before(#[trigger] t[i], #[trigger] t[j])
}

/// Rank rows: the highest count first, equal counts by name in byte order.
pub fn rank<T>(rows: Vec<(String, usize, T)>) -> (r: Vec<(String, usize, T)>)
    ensures
        r@ == ranked(rows@),
{
    let ghost orig = rows@;
    let mut rows = rows;
    let mut out: Vec<(String, usize, T)> = Vec::new();
    proof {
        assert(rows@ == orig.subrange(0, rows@.len() as int));
        assert(orig.subrange(rows@.len() as int, orig.len() as int) =~= Seq::<(String, usize, T)>::empty());
    }
    while rows.len() > 0
        invariant
            orig.len() >= rows@.len(),
            rows@ == orig.subrange(0, rows@.len() as int),
            out@ == ranked(orig.subrange(rows@.len() as int, orig.len() as int)),
        decreases rows@.len(),
    {
        let ghost k = rows@.len();
        let x = rows.pop().unwrap();
        let key = chars_of(x.0.as_str());
        let mut pos: usize = 0;
        while pos < out.len() && !(x.1 > out[pos].1 || (x.1 == out[pos].1 && text_le_exec(&key, &chars_of(out[pos].0.as_str()))))
            invariant
                pos <= out@.len(),
                key@ == x.0@,
                slot(out@, x, 0) == slot(out@, x, pos as int),
            decreases out@.len() - pos,
        {
            pos = pos + 1;
        }
        proof {
            let suffix = orig.subrange(k - 1, orig.len() as int);
            assert(suffix.drop_first() =~= orig.subrange(k as int, orig.len() as int));
            assert(suffix[0] == x);
            assert(rows@ =~= orig.subrange(0, k - 1));
        }
        out.insert(pos, x);
    }
    proof {
        assert(orig.subrange(0, orig.len() as int) == orig);
    }
    out
}

proof fn lemma_slot<T>(t: Seq<(String, usize, T)>, x: (String, usize, T), j: int)
    requires
        0 <= j <= t.len(),
    ensures
        j <= slot(t, x, j) <= t.len(),
        forall|i: int| j <= i < slot(t, x, j) ==> !row_before(x, #[trigger] t[i]),
        slot(t, x, j) < t.len() ==> row_before(x, t[slot(t, x, j)]),
    decreases t.len() - j,
{
    if j < t.len() && !row_before(x, t[j]) {
        lemma_slot(t, x, j + 1);
    }
}

proof fn lemma_row_trans<T>(x: (String, usize, T), y: (String, usize, T), z: (String, usize, T))
    requires
        row_before(x, y),
        row_before(y, z),
    ensures
        row_before(x, z),
{
    if x.1 == y.1 && y.1 == z.1 {
        lemma_text_le_trans(x.0@, y.0@, z.0@);
    }
}

/// Ranking keeps every row and puts them in rank order: a higher count
/// before a lower one, an equal count by name in byte order.
pub proof fn lemma_ranked_in_order<T>(s: Seq<(String, usize, T)>)
    ensures
        in_rank_order(ranked(s)),
        ranked(s).to_multiset() == s.to_multiset(),
    decreases s.len(),
{
    if s.len() > 0 {
        let rest = s.drop_first();
        lemma_ranked_in_order(rest);
        let t = ranked(rest);
        let x = s[0];
        let pos = slot(t, x, 0);
        lemma_slot(t, x, 0);
        let u = t.insert(pos, x);
        assert forall|i: int, j: int| 0 <= i < j < u.len() implies row_before(#[trigger] u[i], #[trigger] u[j]) by {
            if j < pos {
                assert(u[i] == t[i] && u[j] == t[j]);
            } else if j == pos {
                assert(u[i] == t[i] && u[j] == x);
                assert(!row_before(x, t[i]));
                lemma_text_le_total(x.0@, t[i].0@);
            } else if i == pos {
                assert(u[i] == x && u[j] == t[j - 1]);
                if j - 1 > pos {
                    assert(row_before(t[pos], t[j - 1]));
                    lemma_row_trans(x, t[pos], t[j - 1]);
                }
            } else if i < pos {
                assert(u[i] == t[i] && u[j] == t[j - 1]);
            } else {
                assert(u[i] == t[i - 1] && u[j] == t[j - 1]);
            }
        }
        vstd::seq_lib::to_multiset_insert(t, pos, x);
        assert(s =~= rest.insert(0, x));
        vstd::seq_lib::to_multiset_insert(rest, 0, x);
    } else {
        assert(ranked(s) =~= s);
    }
}

} // verus!
