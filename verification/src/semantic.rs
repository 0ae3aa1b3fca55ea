//! The typed layer: what the bytes of a tree mean, with spelling discarded.
//!
//! Diff, merge and query ask "same value?" rather than "same spelling?". A
//! [`Scalar`] keeps both its source text and its resolved value; only strings
//! are resolved (by unescaping), so `1.0` and `1.00` stay different values.
//! A format that cannot model an input says so with [`Unmodelled`] rather than
//! returning a view with parts missing.
use crate::cst::{Cst, GreenChild, GreenNode, GreenToken};
use crate::json::kind as jk;
use crate::yaml::kind as yk;
use crate::text::push_char;
use vstd::prelude::*;
use vstd::string::*;
use vstd::utf8::{decode_utf8, valid_utf8};

verus! {

/// Why a format cannot produce a semantic view of this input.
#[derive(Debug, Clone, PartialEq, Eq)]
pub struct Unmodelled {
    /// Format that declined, for the diagnostic.
    pub format: &'static str,
    /// Why, in a sentence a user can act on.
    pub reason: &'static str,
}

/// A scalar, in both of its forms.
#[derive(Debug, Clone, PartialEq, Eq)]
pub struct Scalar {
    /// Exact source bytes, as text. What a diff reports.
    pub text: String,
    /// Resolved form. What a diff compares.
    pub value: String,
}

/// The meaning of a document, with spelling deliberately discarded.
#[derive(Debug, PartialEq, Eq)]
pub enum SemanticNode {
    /// A leaf.
    Scalar(Scalar),
    /// Key-value pairs in source order.
    Mapping(Vec<(String, SemanticNode)>),
    /// Ordered items. Sequence order is meaning.
    Sequence(Vec<SemanticNode>),
}

/// The first index at or after `j` whose key is `key`, or `-1`.
pub open spec fn find_key(q: Seq<(String, SemanticNode)>, key: Seq<char>, j: int) -> int
    decreases q.len() - j,
{
    if j < 0 || j >= q.len() {
        -1
    } else if q[j].0@ == key {
        j
    } else {
        find_key(q, key, j + 1)
    }
}

/// Whether two nodes mean the same thing: scalars by resolved value,
/// mappings by size and, for each key in turn, the value under the first equal
/// key on the other side, sequences item by item in order.
pub open spec fn same_value_spec(a: SemanticNode, b: SemanticNode) -> bool
    decreases a,
{
    match a {
        SemanticNode::Scalar(x) => b matches SemanticNode::Scalar(y) && x.value@ == y.value@,
        SemanticNode::Mapping(p) => b matches SemanticNode::Mapping(q) && p@.len() == q@.len()
            && forall|i: int| 0 <= i < p@.len() ==> {
                let j = find_key(q@, (#[trigger] p@[i]).0@, 0);
                j >= 0 && same_value_spec(p@[i].1, q@[j].1)
            },
        SemanticNode::Sequence(xs) => b matches SemanticNode::Sequence(ys) && xs@.len() == ys@.len()
            && forall|i: int| 0 <= i < xs@.len() ==> same_value_spec(#[trigger] xs@[i], ys@[i]),
    }
}

/// Whether every mapping in `n`, at every depth, has distinct keys.
pub open spec fn well_keyed(n: SemanticNode) -> bool
    decreases n,
{
    match n {
        SemanticNode::Scalar(_) => true,
        SemanticNode::Mapping(p) => (forall|i: int, j: int| 0 <= i < j < p@.len() ==> (#[trigger] p@[i]).0@ != (#[trigger] p@[j]).0@)
            && forall|i: int| 0 <= i < p@.len() ==> well_keyed((#[trigger] p@[i]).1),
        SemanticNode::Sequence(xs) => forall|i: int| 0 <= i < xs@.len() ==> well_keyed(#[trigger] xs@[i]),
    }
}

/// In a sequence of pairs with distinct keys, the key of entry `i` is found at `i`.
pub proof fn lemma_find_unique(q: Seq<(String, SemanticNode)>, i: int, j: int)
    requires
        0 <= j <= i < q.len(),
        forall|a: int, b: int| 0 <= a < b < q.len() ==> (#[trigger] q[a]).0@ != (#[trigger] q[b]).0@,
    ensures
        find_key(q, q[i].0@, j) == i,
    decreases i - j,
{
    if j < i {
        assert(q[j].0@ != q[i].0@);
        lemma_find_unique(q, i, j + 1);
    }
}

/// A node with distinct keys at every depth means the same as itself.
pub proof fn lemma_same_value_reflexive(n: SemanticNode)
    requires
        well_keyed(n),
    ensures
        same_value_spec(n, n),
    decreases n,
{
    match n {
        SemanticNode::Scalar(_) => {},
        SemanticNode::Mapping(p) => {
            assert forall|i: int| 0 <= i < p@.len() implies {
                let j = find_key(p@, (#[trigger] p@[i]).0@, 0);
                j >= 0 && same_value_spec(p@[i].1, p@[j].1)
            } by {
                lemma_find_unique(p@, i, 0);
                assert(decreases_to!(n => p));
                assert(decreases_to!(p => p@));
                assert(decreases_to!(p@ => p@[i]));
                assert(decreases_to!(p@[i] => p@[i].1));
                lemma_same_value_reflexive(p@[i].1);
            }
        },
        SemanticNode::Sequence(xs) => {
            assert forall|i: int| 0 <= i < xs@.len() implies same_value_spec(#[trigger] xs@[i], xs@[i]) by {
                assert(decreases_to!(n => xs));
                assert(decreases_to!(xs => xs@));
                assert(decreases_to!(xs@ => xs@[i]));
                lemma_same_value_reflexive(xs@[i]);
            }
        },
    }
}

/// The index `find_key` returns, when there is one, holds the key.
pub proof fn lemma_find_key_found(q: Seq<(String, SemanticNode)>, key: Seq<char>, j: int)
    requires
        0 <= j,
    ensures
        find_key(q, key, j) >= 0 ==> j <= find_key(q, key, j) < q.len() && q[find_key(q, key, j)].0@ == key,
    decreases q.len() - j,
{
    if j < q.len() && q[j].0@ != key {
        lemma_find_key_found(q, key, j + 1);
    }
}

/// Whether some index of `0..n` maps to `j`.
spec fn reached(n: int, f: spec_fn(int) -> int, j: int) -> bool {
    exists|i: int| 0 <= i < n && #[trigger] f(i) == j
}

/// An injective map of `0..n` into `0..n` reaches every index.
proof fn lemma_onto(n: int, f: spec_fn(int) -> int)
    requires
        n >= 0,
        forall|i: int| 0 <= i < n ==> 0 <= #[trigger] f(i) < n,
        forall|i: int, k: int| 0 <= i < n && 0 <= k < n && #[trigger] f(i) == #[trigger] f(k) ==> i == k,
    ensures
        forall|j: int| 0 <= j < n ==> #[trigger] reached(n, f, j),
{
    let r = vstd::set_lib::set_int_range(0, n);
    vstd::set_lib::lemma_int_range(0, n);
    let img = r.map(f);
    assert(vstd::relations::injective_on(f, r));
    vstd::set_lib::lemma_map_size(r, img, f);
    assert(img.subset_of(r));
    vstd::set_lib::lemma_subset_equality(img, r);
    assert forall|j: int| 0 <= j < n implies #[trigger] reached(n, f, j) by {
        assert(r.contains(j));
        assert(img.contains(j));
    }
}

/// Meaning the same is symmetric for nodes with distinct keys at every depth:
/// if `a` means the same as `b`, `b` means the same as `a`.
pub proof fn lemma_same_value_symmetric(a: SemanticNode, b: SemanticNode)
    requires
        well_keyed(a),
        well_keyed(b),
        same_value_spec(a, b),
    ensures
        same_value_spec(b, a),
    decreases a,
{
    match a {
        SemanticNode::Scalar(_) => {},
        SemanticNode::Sequence(xs) => {
            let ys = b->Sequence_0;
            assert forall|i: int| 0 <= i < ys@.len() implies same_value_spec(#[trigger] ys@[i], xs@[i]) by {
                assert(same_value_spec(xs@[i], ys@[i]));
                assert(decreases_to!(a => xs));
                assert(decreases_to!(xs => xs@));
                assert(decreases_to!(xs@ => xs@[i]));
                lemma_same_value_symmetric(xs@[i], ys@[i]);
            }
        },
        SemanticNode::Mapping(p) => {
            let q = b->Mapping_0;
            let n = p@.len() as int;
            let f = |i: int| find_key(q@, p@[i].0@, 0);
            assert forall|i: int| 0 <= i < n implies 0 <= #[trigger] f(i) < n && q@[f(i)].0@ == p@[i].0@ && same_value_spec(p@[i].1, q@[f(i)].1) by {
                assert(p@[i] == p@[i]);
                lemma_find_key_found(q@, p@[i].0@, 0);
            }
            assert forall|i: int, k: int| 0 <= i < n && 0 <= k < n && #[trigger] f(i) == #[trigger] f(k) implies i == k by {
                if i != k {
                    if i < k {
                        assert(p@[i].0@ != p@[k].0@);
                    } else {
                        assert(p@[k].0@ != p@[i].0@);
                    }
                }
            }
            lemma_onto(n, f);
            assert forall|j: int| 0 <= j < q@.len() implies {
                let i = find_key(p@, (#[trigger] q@[j]).0@, 0);
                i >= 0 && same_value_spec(q@[j].1, p@[i].1)
            } by {
                assert(reached(n, f, j));
                let i = choose|i: int| 0 <= i < n && #[trigger] f(i) == j;
                assert(q@[j].0@ == p@[i].0@);
                lemma_find_unique(p@, i, 0);
                assert(decreases_to!(a => p));
                assert(decreases_to!(p => p@));
                assert(decreases_to!(p@ => p@[i]));
                assert(decreases_to!(p@[i] => p@[i].1));
                assert(well_keyed(q@[j].1));
                lemma_same_value_symmetric(p@[i].1, q@[j].1);
            }
        },
    }
}

/// Key order is spelling, not meaning: a mapping whose keys are distinct
/// means the same as any reordering of its entries. The reordering is given
/// by `perm`, entry `k` of `q` being entry `perm[k]` of `p`, with inverse `inv`:
/// `inv[perm[k]] == k` and `perm[inv[i]] == i`.
pub proof fn lemma_key_order_is_not_meaning(
    p: Vec<(String, SemanticNode)>,
    q: Vec<(String, SemanticNode)>,
    perm: Seq<int>,
    inv: Seq<int>,
)
    requires
        well_keyed(SemanticNode::Mapping(p)),
        q@.len() == p@.len(),
        perm.len() == p@.len(),
        inv.len() == p@.len(),
        forall|k: int| 0 <= k < perm.len() ==> 0 <= #[trigger] perm[k] < p@.len() && q@[k] == p@[perm[k]] && inv[perm[k]] == k,
        forall|i: int| 0 <= i < inv.len() ==> 0 <= #[trigger] inv[i] < p@.len() && perm[inv[i]] == i,
    ensures
        same_value_spec(SemanticNode::Mapping(p), SemanticNode::Mapping(q)),
{
    let n = SemanticNode::Mapping(p);
    assert(well_keyed(n));
    match n {
        SemanticNode::Mapping(pp) => {
            assert(pp == p);
            assert(forall|i: int, j: int| 0 <= i < j < pp@.len() ==> (#[trigger] pp@[i]).0@ != (#[trigger] pp@[j]).0@);
        },
        _ => {},
    }
    assert(forall|i: int, j: int| 0 <= i < j < p@.len() ==> (#[trigger] p@[i]).0@ != (#[trigger] p@[j]).0@);
    assert(forall|i: int| 0 <= i < p@.len() ==> well_keyed((#[trigger] p@[i]).1));
    assert forall|a: int, b: int| 0 <= a < b < q@.len() implies (#[trigger] q@[a]).0@ != (#[trigger] q@[b]).0@ by {
        assert(q@[a] == p@[perm[a]]);
        assert(q@[b] == p@[perm[b]]);
        if perm[a] < perm[b] {
            assert(p@[perm[a]].0@ != p@[perm[b]].0@);
        } else if perm[a] > perm[b] {
            assert(p@[perm[b]].0@ != p@[perm[a]].0@);
        } else {
            assert(inv[perm[a]] == a && inv[perm[b]] == b);
        }
    }
    assert forall|i: int| 0 <= i < p@.len() implies {
        let j = find_key(q@, (#[trigger] p@[i]).0@, 0);
        j >= 0 && same_value_spec(p@[i].1, q@[j].1)
    } by {
        let j = inv[i];
        assert(perm[j] == i);
        assert(q@[j] == p@[i]);
        if perm[j] != i {
            assert(false);
        }
        lemma_find_unique(q@, j, 0);
        assert(well_keyed(p@[i].1));
        lemma_same_value_reflexive(p@[i].1);
    }
}

/// The text a container reports for itself: its shape, not its bytes.
pub open spec fn shape_text(open: Seq<char>, n: nat, noun: Seq<char>, close: Seq<char>) -> Seq<char> {
    open + crate::text::decimal(n) + noun + close
}

/// The source text a node reports: a scalar's text, or a container's shape.
pub open spec fn node_text(n: SemanticNode) -> Seq<char> {
    match n {
        SemanticNode::Scalar(s) => s.text@,
        SemanticNode::Mapping(p) => shape_text("{"@, p@.len(), " keys"@, "}"@),
        SemanticNode::Sequence(xs) => shape_text("["@, xs@.len(), " items"@, "]"@),
    }
}

impl SemanticNode {
    /// The source text this node came from: a scalar's text, or a
    /// container's shape (`{N keys}`, `[N items]`).
    pub fn text(&self) -> (r: String)
        ensures
            match self {
                SemanticNode::Scalar(s) => r@ == s.text@,
                SemanticNode::Mapping(p) => r@ == shape_text("{"@, p@.len(), " keys"@, "}"@),
                SemanticNode::Sequence(xs) => r@ == shape_text("["@, xs@.len(), " items"@, "]"@),
            },
    {
        match self {
            SemanticNode::Scalar(s) => s.text.clone(),
            SemanticNode::Mapping(pairs) => {
                let mut out = String::from_str("{");
                crate::text::push_decimal(&mut out, pairs.len() as u64);
                out.append(" keys}");
                proof {
                    vstd::seq_lib::lemma_concat_associative("{"@ + crate::text::decimal(pairs@.len()), " keys"@, "}"@);
                    reveal_strlit(" keys}");
                    reveal_strlit(" keys");
                    reveal_strlit("}");
                    assert(" keys}"@ == " keys"@ + "}"@);
                }
                out
            },
            SemanticNode::Sequence(items) => {
                let mut out = String::from_str("[");
                crate::text::push_decimal(&mut out, items.len() as u64);
                out.append(" items]");
                proof {
                    vstd::seq_lib::lemma_concat_associative("["@ + crate::text::decimal(items@.len()), " items"@, "]"@);
                    reveal_strlit(" items]");
                    reveal_strlit(" items");
                    reveal_strlit("]");
                    assert(" items]"@ == " items"@ + "]"@);
                }
                out
            },
        }
    }

    /// Whether two nodes mean the same thing, ignoring spelling and key order.
    pub fn same_value(&self, other: &Self) -> (r: bool)
        ensures
            r == same_value_spec(*self, *other),
        decreases self,
    {
        match self {
            SemanticNode::Scalar(a) => match other {
                SemanticNode::Scalar(b) => a.value == b.value,
                _ => false,
            },
            SemanticNode::Mapping(a) => match other {
                SemanticNode::Mapping(b) => {
                    if a.len() != b.len() {
                        return false;
                    }
                    let mut i: usize = 0;
                    while i < a.len()
                        invariant
                            *self == SemanticNode::Mapping(*a),
                            *other == SemanticNode::Mapping(*b),
                            i <= a@.len(),
                            a@.len() == b@.len(),
                            forall|k: int| 0 <= k < i ==> {
                                let j = find_key(b@, (#[trigger] a@[k]).0@, 0);
                                j >= 0 && same_value_spec(a@[k].1, b@[j].1)
                            },
                        decreases a@.len() - i,
                    {
                        let key = &a[i].0;
                        let found = find_key_exec(b, key);
                        proof {
                            assert(a@[i as int].1 == a[i as int].1);
                            assert(a@[i as int].0 == *key);
                            assert(decreases_to!(*self => (*self)->Mapping_0));
                            assert(decreases_to!(*a => a@));
                            assert(decreases_to!(a@ => a@[i as int]));
                            assert(decreases_to!(a@[i as int] => a@[i as int].1));
                            assert(decreases_to!(*self => a@[i as int].1));
                        }
                        let ju = match found {
                            Some(j) => j,
                            None => {
                                return false;
                            },
                        };
                        if !a[i].1.same_value(&b[ju].1) {
                            return false;
                        }
                        i = i + 1;
                    }
                    true
                },
                _ => false,
            },
            SemanticNode::Sequence(a) => match other {
                SemanticNode::Sequence(b) => {
                    if a.len() != b.len() {
                        return false;
                    }
                    let mut i: usize = 0;
                    while i < a.len()
                        invariant
                            *self == SemanticNode::Sequence(*a),
                            *other == SemanticNode::Sequence(*b),
                            i <= a@.len(),
                            a@.len() == b@.len(),
                            forall|k: int| 0 <= k < i ==> same_value_spec(#[trigger] a@[k], b@[k]),
                        decreases a@.len() - i,
                    {
                        proof {
                            assert(a@[i as int] == a[i as int]);
                            assert(decreases_to!(*self => (*self)->Sequence_0));
                            assert(decreases_to!(*a => a@));
                            assert(decreases_to!(a@ => a@[i as int]));
                            assert(decreases_to!(*self => a@[i as int]));
                        }
                        if !a[i].same_value(&b[i]) {
                            return false;
                        }
                        i = i + 1;
                    }
                    true
                },
                _ => false,
            },
        }
    }
}

/// The first index whose key is `key`, if any.
pub(crate) fn find_key_exec(q: &Vec<(String, SemanticNode)>, key: &String) -> (r: Option<usize>)
    ensures
        r matches Some(j) ==> j == find_key(q@, key@, 0) && j < q@.len(),
        r is None ==> find_key(q@, key@, 0) == -1,
{
    let mut j: usize = 0;
    while j < q.len()
        invariant
            j <= q@.len(),
            find_key(q@, key@, 0) == find_key(q@, key@, j as int),
        decreases q@.len() - j,
    {
        if q[j].0 == *key {
            return Some(j);
        }
        j = j + 1;
    }
    None
}

// --- text of tokens and string literals ---------------------------------------

/// What `String::from_utf8_lossy` makes of some bytes: their decoding, with
/// each invalid sequence replaced by U+FFFD.
pub uninterp spec fn lossy_text(b: Seq<u8>) -> Seq<char>;

/// `String::from_utf8_lossy`, owned. Its result is named [`lossy_text`] of the
/// bytes; std documents that valid UTF-8 is decoded unchanged, which is the one
/// fact claimed of it here.
#[verifier::external_body]
fn utf8_lossy(bytes: &[u8]) -> (s: String)
    ensures
        s@ == lossy_text(bytes@),
        valid_utf8(bytes@) ==> s@ == decode_utf8(bytes@),
{
    String::from_utf8_lossy(bytes).into_owned()
}

/// Whether `v` is a Unicode scalar value: at most `0x10FFFF` and not a surrogate.
pub open spec fn is_scalar_value(v: nat) -> bool {
    v < 0xD800 || (0xE000 <= v && v <= 0x10FFFF)
}

/// `char::from_u32`: the character whose code is `v`, if `v` is a scalar value.
#[verifier::external_body]
fn char_from_u32(v: u32) -> (r: Option<char>)
    ensures
        r == (if is_scalar_value(v as nat) { Some(v as char) } else { None::<char> }),
{
    char::from_u32(v)
}

/// The characters of a string, as a vector.
pub(crate) fn chars_of(s: &str) -> (v: Vec<char>)
    ensures
        v@ == s@,
{
    let mut v: Vec<char> = Vec::new();
    for c in it: s.chars()
        invariant
            v@ == it.seq().take(it.index() as int),
    {
        v.push(c);
    }
    proof {
        broadcast use vstd::string::axiom_spec_iter;
    }
    v
}

/// A literal without its surrounding double quotes, when it has both.
pub open spec fn strip_quotes(lit: Seq<char>) -> Seq<char> {
    if lit.len() >= 2 && lit[0] == '"' && lit.last() == '"' { lit.subrange(1, lit.len() - 1) } else { lit }
}

/// The value of one hexadecimal digit.
pub open spec fn hex_digit(c: char) -> Option<nat> {
    if '0' <= c && c <= '9' {
        Some(((c as nat) - ('0' as nat)) as nat)
    } else if 'a' <= c && c <= 'f' {
        Some(((c as nat) - ('a' as nat) + 10) as nat)
    } else if 'A' <= c && c <= 'F' {
        Some(((c as nat) - ('A' as nat) + 10) as nat)
    } else {
        None
    }
}

/// The value of a run of hexadecimal digits, if every one is a digit.
pub open spec fn hex_value(h: Seq<char>) -> Option<nat>
    decreases h.len(),
{
    if h.len() == 0 {
        Some(0)
    } else {
        match (hex_value(h.drop_last()), hex_digit(h.last())) {
            (Some(a), Some(d)) => Some(a * 16 + d),
            _ => None,
        }
    }
}

/// `u32::from_str_radix(h, 16)` on at most four characters: an optional `+`,
/// then at least one hexadecimal digit.
pub open spec fn radix16(h: Seq<char>) -> Option<nat> {
    let d = if h.len() > 0 && h[0] == '+' { h.drop_first() } else { h };
    if d.len() == 0 { None } else { hex_value(d) }
}

/// The characters a JSON string body denotes, from index `i` (RFC 8259 §7).
/// A `\u` escape that names no scalar value is kept as written; an unknown
/// escape yields the escaped character; a trailing backslash is kept.
pub open spec fn unescape_from(s: Seq<char>, i: int) -> Seq<char>
    decreases s.len() - i,
{
    if i < 0 || i >= s.len() {
        Seq::empty()
    } else if s[i] != '\\' {
        seq![s[i]] + unescape_from(s, i + 1)
    } else if i + 1 >= s.len() {
        seq!['\\']
    } else {
        let c = s[i + 1];
        if c == 'u' {
            let end = if i + 6 <= s.len() { i + 6 } else { s.len() as int };
            let h = s.subrange(i + 2, end);
            let piece = match radix16(h) {
                Some(v) => if is_scalar_value(v) { seq![v as char] } else { seq!['\\', 'u'] + h },
                None => seq!['\\', 'u'] + h,
            };
            piece + unescape_from(s, end)
        } else {
            let d = if c == 'n' {
                '\n'
            } else if c == 't' {
                '\t'
            } else if c == 'r' {
                '\r'
            } else if c == 'b' {
                '\u{8}'
            } else if c == 'f' {
                '\u{c}'
            } else {
                c
            };
            seq![d] + unescape_from(s, i + 2)
        }
    }
}

/// The value of a string body from `i` depends only on the characters from
/// `i` on.
pub proof fn lemma_unescape_suffix(s: Seq<char>, i: int, t: Seq<char>, j: int)
    requires
        0 <= i <= s.len(),
        0 <= j <= t.len(),
        s.len() - i == t.len() - j,
        forall|m: int| i <= m < s.len() ==> #[trigger] s[m] == t[m - i + j],
    ensures
        unescape_from(s, i) == unescape_from(t, j),
    decreases s.len() - i,
{
    if i < s.len() {
        assert(s[i] == t[j]);
        if s[i] != '\\' {
            lemma_unescape_suffix(s, i + 1, t, j + 1);
        } else if i + 1 < s.len() {
            assert(s[i + 1] == t[j + 1]);
            let c = s[i + 1];
            if c == 'u' {
                let es = if i + 6 <= s.len() { i + 6 } else { s.len() as int };
                let et = if j + 6 <= t.len() { j + 6 } else { t.len() as int };
                assert(s.subrange(i + 2, es) =~= t.subrange(j + 2, et)) by {
                    assert forall|k: int| 0 <= k < es - i - 2 implies #[trigger] s.subrange(i + 2, es)[k] == t.subrange(j + 2, et)[k] by {
                        assert(s[i + 2 + k] == t[i + 2 + k - i + j]);
                    }
                }
                lemma_unescape_suffix(s, es, t, et);
            } else {
                lemma_unescape_suffix(s, i + 2, t, j + 2);
            }
        }
    }
}

/// The two-character escapes of a JSON string stand for their control
/// characters (RFC 8259 §7): wherever `\n`, `\t`, `\r`, `\b` or `\f` begins an
/// escape, the value holds U+000A, U+0009, U+000D, U+0008 or U+000C there and
/// goes on after the escape.
pub proof fn lemma_short_escapes_are_control_characters(s: Seq<char>, i: int)
    requires
        0 <= i,
        i + 1 < s.len(),
        s[i] == '\\',
    ensures
        s[i + 1] == 'n' ==> unescape_from(s, i) == seq!['\u{a}'] + unescape_from(s, i + 2),
        s[i + 1] == 't' ==> unescape_from(s, i) == seq!['\u{9}'] + unescape_from(s, i + 2),
        s[i + 1] == 'r' ==> unescape_from(s, i) == seq!['\u{d}'] + unescape_from(s, i + 2),
        s[i + 1] == 'b' ==> unescape_from(s, i) == seq!['\u{8}'] + unescape_from(s, i + 2),
        s[i + 1] == 'f' ==> unescape_from(s, i) == seq!['\u{c}'] + unescape_from(s, i + 2),
        s[i + 1] == '"' ==> unescape_from(s, i) == seq!['"'] + unescape_from(s, i + 2),
        s[i + 1] == '\\' ==> unescape_from(s, i) == seq!['\\'] + unescape_from(s, i + 2),
        s[i + 1] == '/' ==> unescape_from(s, i) == seq!['/'] + unescape_from(s, i + 2),
{
}

/// Outside escapes a string body is its own value: a character other than a
/// backslash stands for itself.
pub proof fn lemma_plain_characters_stand_for_themselves(s: Seq<char>, i: int)
    requires
        0 <= i < s.len(),
        s[i] != '\\',
    ensures
        unescape_from(s, i) == seq![s[i]] + unescape_from(s, i + 1),
{
}

/// A `\u` escape of four hexadecimal digits naming a scalar value stands for
/// the character with that code.
pub proof fn lemma_unicode_escape_is_its_code_point(s: Seq<char>, i: int)
    requires
        0 <= i,
        i + 5 < s.len(),
        s[i] == '\\',
        s[i + 1] == 'u',
        hex_value(s.subrange(i + 2, i + 6)) matches Some(v) && is_scalar_value(v),
        s[i + 2] != '+',
    ensures
        unescape_from(s, i) == seq![(hex_value(s.subrange(i + 2, i + 6))->0) as char] + unescape_from(s, i + 6),
{
    assert(s.subrange(i + 2, i + 6)[0] == s[i + 2]);
}

/// The value of a quoted JSON string literal is the value of its body.
pub proof fn lemma_quoted_literal_value(body: Seq<char>)
    ensures
        unescape_spec(seq!['"'] + body + seq!['"']) == unescape_from(body, 0),
{
    let lit = seq!['"'] + body + seq!['"'];
    assert(lit.subrange(1, lit.len() - 1) =~= body);
}

/// The hexadecimal value of `00xy`.
proof fn lemma_hex_0_0(x: char, y: char)
    requires
        hex_digit(x) is Some,
        hex_digit(y) is Some,
    ensures
        radix16(seq!['0', '0', x, y]) == Some(hex_digit(x)->0 * 16 + hex_digit(y)->0),
{
    let h = seq!['0', '0', x, y];
    assert(h.drop_last() =~= seq!['0', '0', x]);
    assert(seq!['0', '0', x].drop_last() =~= seq!['0', '0']);
    assert(seq!['0', '0'].drop_last() =~= seq!['0']);
    assert(seq!['0'].drop_last() =~= Seq::<char>::empty());
    assert(hex_value(Seq::<char>::empty()) == Some(0nat));
    assert(hex_digit('0') == Some(0nat));
    assert(seq!['0'].last() == '0');
    assert(hex_value(seq!['0']) == Some(0nat));
    assert(hex_value(seq!['0', '0']) == Some(0nat));
    assert(hex_value(seq!['0', '0', x]) == Some(hex_digit(x)->0));
}

/// A two-character escape means the same as the `\u` escape of its code
/// point: where `\n`, `\t`, `\r`, `\b` or `\f` begins an escape, writing it as
/// `\u000a`, `\u0009`, `\u000d`, `\u0008` or `\u000c` instead leaves the value
/// from there unchanged.
pub proof fn lemma_short_escape_is_its_code_point(s: Seq<char>, i: int, x: char, y: char)
    requires
        0 <= i,
        i + 1 < s.len(),
        s[i] == '\\',
        (s[i + 1] == 'n' && x == '0' && y == 'a') || (s[i + 1] == 't' && x == '0' && y == '9')
            || (s[i + 1] == 'r' && x == '0' && y == 'd') || (s[i + 1] == 'b' && x == '0' && y == '8')
            || (s[i + 1] == 'f' && x == '0' && y == 'c'),
    ensures
        unescape_from(s, i) == unescape_from(s.take(i) + seq!['\\', 'u', '0', '0', x, y] + s.skip(i + 2), i),
{
    let t = s.take(i) + seq!['\\', 'u', '0', '0', x, y] + s.skip(i + 2);
    lemma_short_escapes_are_control_characters(s, i);
    assert(t[i] == '\\' && t[i + 1] == 'u');
    assert(t.subrange(i + 2, i + 6) =~= seq!['0', '0', x, y]);
    lemma_hex_0_0(x, y);
    assert forall|m: int| i + 6 <= m < t.len() implies #[trigger] t[m] == s[m - (i + 6) + (i + 2)] by {}
    lemma_unescape_suffix(t, i + 6, s, i + 2);
    let v = hex_digit(x)->0 * 16 + hex_digit(y)->0;
    assert(is_scalar_value(v));
    assert((v as char) == (if s[i + 1] == 'n' { '\u{a}' } else if s[i + 1] == 't' { '\u{9}' } else if s[i + 1] == 'r' {
        '\u{d}'
    } else if s[i + 1] == 'b' { '\u{8}' } else { '\u{c}' }));
    assert(unescape_from(t, i) == seq![v as char] + unescape_from(t, i + 6));
}

/// The comparison form of a JSON string literal.
pub open spec fn unescape_spec(lit: Seq<char>) -> Seq<char> {
    unescape_from(strip_quotes(lit), 0)
}

fn hex_digit_exec(c: char) -> (r: Option<u32>)
    ensures
        r matches Some(d) ==> hex_digit(c) == Some(d as nat) && d < 16,
        r is None ==> hex_digit(c) is None,
{
    if '0' <= c && c <= '9' {
        Some((c as u32) - ('0' as u32))
    } else if 'a' <= c && c <= 'f' {
        Some((c as u32) - ('a' as u32) + 10)
    } else if 'A' <= c && c <= 'F' {
        Some((c as u32) - ('A' as u32) + 10)
    } else {
        None
    }
}

fn radix16_exec(s: &Vec<char>, a: usize, b: usize) -> (r: Option<u32>)
    requires
        a <= b <= s@.len(),
        b - a <= 4,
    ensures
        r matches Some(v) ==> radix16(s@.subrange(a as int, b as int)) == Some(v as nat),
        r is None ==> radix16(s@.subrange(a as int, b as int)) is None,
{
    let ghost h = s@.subrange(a as int, b as int);
    let mut i = a;
    if i < b && s[i] == '+' {
        i = i + 1;
    }
    let ghost d = if h.len() > 0 && h[0] == '+' { h.drop_first() } else { h };
    proof {
        assert(d == s@.subrange(i as int, b as int));
    }
    if i == b {
        return None;
    }
    let start = i;
    let mut v: u32 = 0;
    proof {
        assert(s@.subrange(start as int, start as int) == Seq::<char>::empty());
        assert(radix16(h) == hex_value(s@.subrange(start as int, b as int)));
    }
    while i < b
        invariant
            radix16(s@.subrange(a as int, b as int)) == hex_value(s@.subrange(start as int, b as int)),
            start <= i <= b <= s@.len(),
            b - start <= 4,
            hex_value(s@.subrange(start as int, i as int)) == Some(v as nat),
            v < pow16((i - start) as nat),
        decreases b - i,
    {
        let dg = hex_digit_exec(s[i]);
        proof {
            assert(s@.subrange(start as int, i + 1).drop_last() == s@.subrange(start as int, i as int));
            assert(s@.subrange(start as int, i + 1).last() == s@[i as int]);
        }
        match dg {
            Some(x) => {
                proof {
                    assert(pow16((i - start) as nat + 1) == 16 * pow16((i - start) as nat));
                    assert(pow16(3) == 4096) by {
                        reveal_with_fuel(pow16, 4);
                    }
                    lemma_pow16_mono((i - start) as nat, 3);
                }
                v = v * 16 + x;
            },
            None => {
                proof {
                    lemma_hex_value_none(s@.subrange(start as int, b as int), (i - start) as int);
                    assert(s@.subrange(start as int, b as int).subrange(0, i - start + 1) == s@.subrange(start as int, i + 1));
                }
                return None;
            },
        }
        i = i + 1;
    }
    Some(v)
}

/// `16^n`.
pub open spec fn pow16(n: nat) -> nat
    decreases n,
{
    if n == 0 { 1 } else { 16 * pow16((n - 1) as nat) }
}

proof fn lemma_pow16_mono(a: nat, b: nat)
    requires
        a <= b,
    ensures
        pow16(a) <= pow16(b),
    decreases b,
{
    if a < b {
        lemma_pow16_mono(a, (b - 1) as nat);
    }
}

/// A run with a non-digit at position `k` has no value.
proof fn lemma_hex_value_none(h: Seq<char>, k: int)
    requires
        0 <= k < h.len(),
        hex_value(h.subrange(0, k + 1)) is None,
    ensures
        hex_value(h) is None,
    decreases h.len(),
{
    if h.len() > k + 1 {
        assert(h.drop_last().subrange(0, k + 1) == h.subrange(0, k + 1));
        lemma_hex_value_none(h.drop_last(), k);
    } else {
        assert(h.subrange(0, k + 1) == h);
    }
}

/// Resolve a JSON string literal to the characters it denotes.
pub fn unescape(literal: &str) -> (r: String)
    ensures
        r@ == unescape_spec(literal@),
{
    let all = chars_of(literal);
    let n = all.len();
    let (a, b) = if n >= 2 && all[0] == '"' && all[n - 1] == '"' { (1, n - 1) } else { (0, n) };
    let mut s: Vec<char> = Vec::new();
    let mut k = a;
    while k < b
        invariant
            a <= k <= b <= all@.len(),
            s@ == all@.subrange(a as int, k as int),
        decreases b - k,
    {
        s.push(all[k]);
        k = k + 1;
    }
    proof {
        assert(s@ == strip_quotes(literal@));
    }
    let ghost target = unescape_spec(literal@);
    let mut out = String::new();
    let mut i: usize = 0;
    proof {
        assert(out@ + unescape_from(s@, 0) == target);
    }
    while i < s.len()
        invariant
            i <= s@.len(),
            out@ + unescape_from(s@, i as int) == target,
        decreases s@.len() - i,
    {
        let c = s[i];
        let ghost o = out@;
        if c != '\\' {
            push_char(&mut out, c);
            proof {
                vstd::seq_lib::lemma_concat_associative(o, seq![c], unescape_from(s@, i + 1));
            }
            i = i + 1;
        } else if i + 1 >= s.len() {
            push_char(&mut out, '\\');
            proof {
                assert(unescape_from(s@, i + 1) == Seq::<char>::empty());
                assert(out@ + Seq::<char>::empty() == out@);
            }
            i = i + 1;
        } else {
            let e = s[i + 1];
            if e == 'u' {
                let end = if s.len() - i >= 6 { i + 6 } else { s.len() };
                let ghost h = s@.subrange(i + 2, end as int);
                let decoded = match radix16_exec(&s, i + 2, end) {
                    Some(v) => char_from_u32(v),
                    None => None,
                };
                match decoded {
                    Some(ch) => {
                        push_char(&mut out, ch);
                        proof {
                            vstd::seq_lib::lemma_concat_associative(o, seq![ch], unescape_from(s@, end as int));
                        }
                    },
                    None => {
                        push_char(&mut out, '\\');
                        push_char(&mut out, 'u');
                        let mut j = i + 2;
                        while j < end
                            invariant
                                i + 2 <= j <= end <= s@.len(),
                                out@ == o + seq!['\\', 'u'] + s@.subrange(i + 2, j as int),
                            decreases end - j,
                        {
                            push_char(&mut out, s[j]);
                            proof {
                                assert(s@.subrange(i + 2, j + 1) == s@.subrange(i + 2, j as int).push(s@[j as int]));
                            }
                            j = j + 1;
                        }
                        proof {
                            vstd::seq_lib::lemma_concat_associative(o, seq!['\\', 'u'] + h, unescape_from(s@, end as int));
                            vstd::seq_lib::lemma_concat_associative(o, seq!['\\', 'u'], h);
                        }
                    },
                }
                i = end;
            } else {
                let d = if e == 'n' {
                    '\n'
                } else if e == 't' {
                    '\t'
                } else if e == 'r' {
                    '\r'
                } else if e == 'b' {
                    '\u{8}'
                } else if e == 'f' {
                    '\u{c}'
                } else {
                    e
                };
                push_char(&mut out, d);
                proof {
                    vstd::seq_lib::lemma_concat_associative(o, seq![d], unescape_from(s@, i + 2));
                }
                i = i + 2;
            }
        }
    }
    proof {
        assert(out@ + Seq::<char>::empty() == out@);
    }
    out
}

// --- JSON ---------------------------------------------------------------------

/// Tokens that carry no meaning: whitespace, byte-order marks, punctuation.
pub open spec fn is_json_trivia(k: u16) -> bool {
    k == jk::WHITESPACE || k == jk::BOM || k == jk::COLON || k == jk::COMMA || k == jk::L_BRACE
        || k == jk::R_BRACE || k == jk::L_BRACKET || k == jk::R_BRACKET
}

/// Whether a child has a value: an object or array node, or a token that is
/// not trivia.
pub open spec fn json_meaningful(c: GreenChild) -> bool {
    match c {
        GreenChild::Node(n) => n.kind_of().0 == jk::OBJECT || n.kind_of().0 == jk::ARRAY,
        GreenChild::Token(t) => !is_json_trivia(t.kind_of().0),
    }
}

/// A token's scalar: its text, and the text unescaped for strings.
pub open spec fn json_scalar_is(t: GreenToken, v: SemanticNode) -> bool {
    let text = lossy_text(t.bytes());
    v matches SemanticNode::Scalar(s) && s.text@ == text
        && s.value@ == (if t.kind_of().0 == jk::STRING { unescape_spec(text) } else { text })
}

/// Whether `v` is the meaning of child `c`: a scalar for a token, a mapping
/// for an object, a sequence for an array.
pub open spec fn json_value_is(c: GreenChild, v: SemanticNode) -> bool
    decreases c, 0nat,
{
    match c {
        GreenChild::Token(t) => json_scalar_is(*t, v),
        GreenChild::Node(n) => if n.kind_of().0 == jk::OBJECT {
            v matches SemanticNode::Mapping(p) && object_is(*n, 0, None, p@)
        } else if n.kind_of().0 == jk::ARRAY {
            v matches SemanticNode::Sequence(xs) && array_is(*n, 0, xs@)
        } else {
            false
        },
    }
}

/// A string token's key: its text, unescaped.
pub open spec fn string_key(c: GreenChild) -> Option<Seq<char>> {
    match c {
        GreenChild::Token(t) => if t.kind_of().0 == jk::STRING { Some(unescape_spec(lossy_text(t.bytes()))) } else { None },
        GreenChild::Node(_) => None,
    }
}

/// The pairs of an object from child `i` on, with a key possibly pending: a
/// string token while no key is pending becomes the key; the next child with
/// a value becomes that key's value.
pub open spec fn object_is(n: GreenNode, i: int, pending: Option<Seq<char>>, out: Seq<(String, SemanticNode)>) -> bool
    decreases n, 1nat, n.kids().len() - i,
{
    if i < 0 || i >= n.kids().len() {
        out.len() == 0
    } else {
        let c = n.kids()[i];
        proof {
            n.lemma_kid_decreases(i);
        }
        if pending is None && string_key(c) is Some {
            object_is(n, i + 1, string_key(c), out)
        } else if json_meaningful(c) && pending is Some {
            &&& out.len() > 0
            &&& out[0].0@ == pending->0
            &&& json_value_is(c, out[0].1)
            &&& object_is(n, i + 1, None, out.drop_first())
        } else {
            object_is(n, i + 1, pending, out)
        }
    }
}

/// The items of an array from child `i` on: every child with a value.
pub open spec fn array_is(n: GreenNode, i: int, out: Seq<SemanticNode>) -> bool
    decreases n, 1nat, n.kids().len() - i,
{
    if i < 0 || i >= n.kids().len() {
        out.len() == 0
    } else {
        let c = n.kids()[i];
        proof {
            n.lemma_kid_decreases(i);
        }
        if json_meaningful(c) {
            out.len() > 0 && json_value_is(c, out[0]) && array_is(n, i + 1, out.drop_first())
        } else {
            array_is(n, i + 1, out)
        }
    }
}

/// The index of the first child with a value, from `i` on, or `-1`.
pub open spec fn first_meaningful(kids: Seq<GreenChild>, i: int) -> int
    decreases kids.len() - i,
{
    if i < 0 || i >= kids.len() {
        -1
    } else if json_meaningful(kids[i]) {
        i
    } else {
        first_meaningful(kids, i + 1)
    }
}

/// A child as a semantic node, or `None` if it is trivia.
fn child_value(child: &GreenChild) -> (r: Option<SemanticNode>)
    ensures
        r is Some <==> json_meaningful(*child),
        r matches Some(v) ==> json_value_is(*child, v),
    decreases *child, 2nat,
{
    match child {
        GreenChild::Node(node) => {
            let k = node.kind();
            if k.0 == jk::OBJECT {
                Some(object_view(node))
            } else if k.0 == jk::ARRAY {
                Some(array_view(node))
            } else {
                None
            }
        },
        GreenChild::Token(token) => {
            let k = token.kind().0;
            if k == jk::WHITESPACE || k == jk::BOM || k == jk::COLON || k == jk::COMMA || k == jk::L_BRACE
                || k == jk::R_BRACE || k == jk::L_BRACKET || k == jk::R_BRACKET {
                return None;
            }
            let text = utf8_lossy(token.text());
            let value = if k == jk::STRING { unescape(text.as_str()) } else { text.clone() };
            Some(SemanticNode::Scalar(Scalar { text, value }))
        },
    }
}

/// Pair each string key with the value that follows its colon.
fn object_view(node: &GreenNode) -> (r: SemanticNode)
    requires
        node.kind_of().0 == jk::OBJECT,
    ensures
        r matches SemanticNode::Mapping(p) && object_is(*node, 0, None, p@),
    decreases *node, 3nat,
{
    let children = node.children();
    let mut pairs: Vec<(String, SemanticNode)> = Vec::new();
    let mut pending: Option<String> = None;
    let mut i: usize = 0;
    while i < children.len()
        invariant
            children@ == node.kids(),
            i <= children@.len(),
            forall|x: Seq<(String, SemanticNode)>| #[trigger] object_is(*node, i as int, opt_view(pending), x)
                ==> object_is(*node, 0, None, pairs@ + x),
        decreases children@.len() - i,
    {
        let child = &children[i];
        proof {
            node.lemma_kid_decreases(i as int);
            assert(children@[i as int] == *child);
        }
        let ghost pv = opt_view(pending);
        let ghost before = pairs@;
        let is_key = match (&pending, child) {
            (None, GreenChild::Token(t)) => t.kind().0 == jk::STRING,
            _ => false,
        };
        if is_key {
            match child {
                GreenChild::Token(t) => {
                    let text = utf8_lossy(t.text());
                    pending = Some(unescape(text.as_str()));
                },
                _ => {},
            }
            proof {
                assert(opt_view(pending) == string_key(*child));
                assert forall|x: Seq<(String, SemanticNode)>| #[trigger] object_is(*node, i + 1, opt_view(pending), x)
                    implies object_is(*node, 0, None, pairs@ + x) by {
                    assert(object_is(*node, i as int, pv, x));
                }
            }
        } else {
            let v = child_value(child);
            match v {
                Some(value) => {
                    match pending {
                        Some(key) => {
                            proof {
                                let e = (key, value);
                                assert forall|x: Seq<(String, SemanticNode)>| #[trigger] object_is(*node, i + 1, None, x)
                                    implies object_is(*node, 0, None, before.push(e) + x) by {
                                    assert((seq![e] + x).drop_first() == x);
                                    assert(object_is(*node, i as int, pv, seq![e] + x));
                                    assert(before + (seq![e] + x) == before.push(e) + x);
                                }
                            }
                            pairs.push((key, value));
                            pending = None;
                        },
                        None => {
                            proof {
                                assert forall|x: Seq<(String, SemanticNode)>| #[trigger] object_is(*node, i + 1, opt_view(pending), x)
                                    implies object_is(*node, 0, None, pairs@ + x) by {
                                    assert(object_is(*node, i as int, pv, x));
                                }
                            }
                        },
                    }
                },
                None => {
                    proof {
                        assert forall|x: Seq<(String, SemanticNode)>| #[trigger] object_is(*node, i + 1, opt_view(pending), x)
                            implies object_is(*node, 0, None, pairs@ + x) by {
                            assert(object_is(*node, i as int, pv, x));
                        }
                    }
                },
            }
        }
        i = i + 1;
    }
    proof {
        assert(object_is(*node, i as int, opt_view(pending), Seq::<(String, SemanticNode)>::empty()));
        assert(pairs@ + Seq::<(String, SemanticNode)>::empty() == pairs@);
    }
    SemanticNode::Mapping(pairs)
}

/// The view of an optional string.
pub open spec fn opt_view(o: Option<String>) -> Option<Seq<char>> {
    match o {
        Some(s) => Some(s@),
        None => None,
    }
}

/// Every child with a value, in order.
fn array_view(node: &GreenNode) -> (r: SemanticNode)
    requires
        node.kind_of().0 == jk::ARRAY,
    ensures
        r matches SemanticNode::Sequence(xs) && array_is(*node, 0, xs@),
    decreases *node, 3nat,
{
    let children = node.children();
    let mut items: Vec<SemanticNode> = Vec::new();
    let mut i: usize = 0;
    while i < children.len()
        invariant
            children@ == node.kids(),
            i <= children@.len(),
            forall|x: Seq<SemanticNode>| #[trigger] array_is(*node, i as int, x) ==> array_is(*node, 0, items@ + x),
        decreases children@.len() - i,
    {
        let child = &children[i];
        proof {
            node.lemma_kid_decreases(i as int);
            assert(children@[i as int] == *child);
        }
        let ghost before = items@;
        match child_value(child) {
            Some(v) => {
                proof {
                    assert forall|x: Seq<SemanticNode>| #[trigger] array_is(*node, i + 1, x)
                        implies array_is(*node, 0, before.push(v) + x) by {
                        assert((seq![v] + x).drop_first() == x);
                        assert(array_is(*node, i as int, seq![v] + x));
                        assert(before + (seq![v] + x) == before.push(v) + x);
                    }
                }
                items.push(v);
            },
            None => {
                proof {
                    assert forall|x: Seq<SemanticNode>| #[trigger] array_is(*node, i + 1, x)
                        implies array_is(*node, 0, items@ + x) by {
                        assert(array_is(*node, i as int, x));
                    }
                }
            },
        }
        i = i + 1;
    }
    proof {
        assert(array_is(*node, i as int, Seq::<SemanticNode>::empty()));
        assert(items@ + Seq::<SemanticNode>::empty() == items@);
    }
    SemanticNode::Sequence(items)
}

/// The semantic view of a JSON tree: the meaning of the first child of the
/// root that has one, or a refusal when there is none.
pub fn json_view(cst: &Cst) -> (r: Result<SemanticNode, Unmodelled>)
    ensures
        ({
            let kids = cst.root_node().kids();
            let i = first_meaningful(kids, 0);
            match r {
                Ok(v) => i >= 0 && json_value_is(kids[i], v),
                Err(u) => i < 0 && u.format@ == "json"@ && u.reason@ == "the document contains no value"@,
            }
        }),
{
    let root: &GreenNode = cst.root();
    let children = root.children();
    let mut i: usize = 0;
    while i < children.len()
        invariant
            children@ == cst.root_node().kids(),
            i <= children@.len(),
            first_meaningful(children@, 0) == first_meaningful(children@, i as int),
        decreases children@.len() - i,
    {
        match child_value(&children[i]) {
            Some(v) => {
                return Ok(v);
            },
            None => {},
        }
        i = i + 1;
    }
    Err(Unmodelled { format: "json", reason: "the document contains no value" })
}

// --- YAML: the shape of the tree --------------------------------------------------
//
// YAML's tree is `STREAM -> LINE*`, each LINE holding its own tokens and then
// the more-indented lines beneath it. A line this layer cannot classify makes
// the whole document unmodelled rather than being skipped; blank and
// comment-only lines carry no meaning and are dropped.

/// Layout tokens: present in the bytes, absent from the meaning.
pub open spec fn is_layout(k: u16) -> bool {
    k == yk::INDENT || k == yk::SPACE || k == yk::NEWLINE || k == yk::COMMENT
}

/// Whether a child is a token that carries meaning.
pub open spec fn is_content_token(c: GreenChild) -> bool {
    c matches GreenChild::Token(t) && !is_layout(t.kind_of().0)
}

/// Whether a child is a `LINE` node.
pub open spec fn is_line_node(c: GreenChild) -> bool {
    c matches GreenChild::Node(m) && m.kind_of().0 == yk::LINE
}

/// A line with nothing to say and no nested lines.
pub open spec fn empty_subtree(n: GreenNode) -> bool {
    &&& forall|i: int| 0 <= i < n.kids().len() ==> !is_content_token(#[trigger] n.kids()[i])
    &&& forall|i: int| 0 <= i < n.kids().len() ==> !is_line_node(#[trigger] n.kids()[i])
}

/// Whether a child is a nested line that carries meaning.
pub open spec fn kept_line(c: GreenChild) -> bool {
    c matches GreenChild::Node(m) && m.kind_of().0 == yk::LINE && !empty_subtree(*m)
}

/// Indices, below `k`, of the children of `n` that are kept lines.
pub open spec fn line_indices(n: GreenNode, k: int) -> Seq<int>
    decreases k,
{
    if k <= 0 || k > n.kids().len() {
        Seq::empty()
    } else {
        line_indices(n, k - 1) + if kept_line(n.kids()[k - 1]) { seq![k - 1] } else { Seq::empty() }
    }
}

/// The kept lines of `n`, as indices into its children.
pub open spec fn lines_of(n: GreenNode) -> Seq<int> {
    line_indices(n, n.kids().len() as int)
}

/// The node a child holds.
pub open spec fn node_of(c: GreenChild) -> GreenNode
    recommends
        c is Node,
{
    match c {
        GreenChild::Node(m) => *m,
        GreenChild::Token(_) => arbitrary(),
    }
}

/// The `j`th kept line of `n`.
pub open spec fn line_at(n: GreenNode, j: int) -> GreenNode {
    node_of(n.kids()[lines_of(n)[j]])
}

proof fn lemma_line_indices(n: GreenNode, k: int)
    requires
        0 <= k <= n.kids().len(),
    ensures
        forall|j: int| 0 <= j < line_indices(n, k).len() ==> 0 <= #[trigger] line_indices(n, k)[j] < k
            && kept_line(n.kids()[line_indices(n, k)[j]]),
        forall|a: int, b: int| 0 <= a < b < line_indices(n, k).len() ==> line_indices(n, k)[a] < line_indices(n, k)[b],
    decreases k,
{
    if k > 0 {
        lemma_line_indices(n, k - 1);
        let prev = line_indices(n, k - 1);
        let cur = line_indices(n, k);
        assert forall|j: int| 0 <= j < cur.len() implies 0 <= #[trigger] cur[j] < k && kept_line(n.kids()[cur[j]]) by {
            if j < prev.len() {
                assert(cur[j] == prev[j]);
            }
        }
        assert forall|a: int, b: int| 0 <= a < b < cur.len() implies cur[a] < cur[b] by {
            if b < prev.len() {
                assert(cur[a] == prev[a]);
                assert(cur[b] == prev[b]);
            } else {
                assert(cur[a] == prev[a]);
            }
        }
    }
}

/// A kept line is smaller than the node it is nested in.
pub proof fn lemma_line_decreases(n: GreenNode, j: int)
    requires
        0 <= j < lines_of(n).len(),
    ensures
        decreases_to!(n => line_at(n, j)),
        kept_line(n.kids()[lines_of(n)[j]]),
{
    lemma_line_indices(n, n.kids().len() as int);
    let i = lines_of(n)[j];
    n.lemma_kid_decreases(i);
    let c = n.kids()[i];
    match c {
        GreenChild::Node(m) => {
            assert(decreases_to!(c => m));
        },
        GreenChild::Token(_) => {},
    }
}

/// The meaningful tokens of `n` among its first `k` children, in order.
pub open spec fn sig_tokens(n: GreenNode, k: int) -> Seq<GreenToken>
    decreases k,
{
    if k <= 0 || k > n.kids().len() {
        Seq::empty()
    } else {
        sig_tokens(n, k - 1) + match n.kids()[k - 1] {
            GreenChild::Token(t) => if !is_layout(t.kind_of().0) { seq![*t] } else { Seq::empty() },
            GreenChild::Node(_) => Seq::empty(),
        }
    }
}

/// A line's own meaningful tokens, ignoring its nested lines.
pub open spec fn line_tokens_of(n: GreenNode) -> Seq<GreenToken> {
    sig_tokens(n, n.kids().len() as int)
}

/// The index of the first token of kind `k` in `ts`, at or after `i`, or `-1`.
pub open spec fn first_of_kind(ts: Seq<GreenToken>, k: u16, i: int) -> int
    decreases ts.len() - i,
{
    if i < 0 || i >= ts.len() {
        -1
    } else if ts[i].kind_of().0 == k {
        i
    } else {
        first_of_kind(ts, k, i + 1)
    }
}

proof fn lemma_first_of_kind(ts: Seq<GreenToken>, k: u16, i: int)
    requires
        0 <= i,
    ensures
        first_of_kind(ts, k, i) == -1 || (i <= first_of_kind(ts, k, i) < ts.len()),
    decreases ts.len() - i,
{
    if i < ts.len() && ts[i].kind_of().0 != k {
        lemma_first_of_kind(ts, k, i + 1);
    }
}

/// Why a line's first token makes it unmodelled, if it does.
pub open spec fn leading_refusal(k: u16) -> Option<Seq<char>> {
    if k == yk::DOC_START || k == yk::DOC_END {
        Some("multi-document streams are not modelled yet (M2)"@)
    } else if k == yk::DIRECTIVE {
        Some("directives are not modelled yet (M2)"@)
    } else if k == yk::ANCHOR || k == yk::ALIAS {
        Some("anchors and aliases are not modelled yet (M2)"@)
    } else if k == yk::TAG {
        Some("tags are not modelled yet (M2)"@)
    } else if k == yk::FLOW_PUNCT {
        Some("flow collections are not modelled yet (M2)"@)
    } else if k == yk::BLOCK_HEADER || k == yk::BLOCK_BODY {
        Some("block scalars are not modelled yet (M2)"@)
    } else {
        None
    }
}

/// What a line is: blank (0), a sequence item (1), a mapping entry (2), or
/// unmodelled (3).
pub open spec fn line_class(n: GreenNode) -> u8 {
    let ts = line_tokens_of(n);
    if ts.len() == 0 {
        0
    } else if ts[0].kind_of().0 == yk::DASH {
        1
    } else if leading_refusal(ts[0].kind_of().0) is Some {
        3
    } else if first_of_kind(ts, yk::COLON, 0) != 1 {
        3
    } else {
        2
    }
}

/// Why an unmodelled line is unmodelled.
pub open spec fn line_refusal(n: GreenNode) -> Seq<char> {
    let ts = line_tokens_of(n);
    match leading_refusal(ts[0].kind_of().0) {
        Some(r) => r,
        None => if first_of_kind(ts, yk::COLON, 0) < 0 {
            "a line that is neither a mapping entry nor a sequence item"@
        } else {
            "compound mapping keys are not modelled yet (M2)"@
        },
    }
}

/// The resolved value of a scalar token: quotes removed and escapes resolved
/// for quoted scalars, the text itself for plain ones.
pub open spec fn resolved(t: GreenToken) -> Seq<char> {
    let text = lossy_text(t.bytes());
    if t.kind_of().0 == yk::SINGLE_QUOTED {
        squote_unescape(strip_single(text), 0)
    } else if t.kind_of().0 == yk::DOUBLE_QUOTED {
        unescape_from(strip_quotes(text), 0)
    } else {
        text
    }
}

/// A text without its surrounding single quotes, when it has both.
pub open spec fn strip_single(s: Seq<char>) -> Seq<char> {
    if s.len() >= 2 && s[0] == '\'' && s.last() == '\'' { s.subrange(1, s.len() - 1) } else { s }
}

/// `''` read as `'`, left to right, from index `i`.
pub open spec fn squote_unescape(s: Seq<char>, i: int) -> Seq<char>
    decreases s.len() - i,
{
    if i < 0 || i >= s.len() {
        Seq::empty()
    } else if s[i] == '\'' && i + 1 < s.len() && s[i + 1] == '\'' {
        seq!['\''] + squote_unescape(s, i + 2)
    } else {
        seq![s[i]] + squote_unescape(s, i + 1)
    }
}

/// Why a token inside a value makes it unmodelled, if it does.
pub open spec fn value_refusal(k: u16) -> Option<Seq<char>> {
    if k == yk::BLOCK_HEADER || k == yk::BLOCK_BODY {
        Some("block scalars are not modelled yet (M2)"@)
    } else if k == yk::ANCHOR || k == yk::ALIAS {
        Some("anchors and aliases are not modelled yet (M2)"@)
    } else if k == yk::TAG {
        Some("tags are not modelled yet (M2)"@)
    } else if k == yk::FLOW_PUNCT {
        Some("flow collections are not modelled yet (M2)"@)
    } else {
        None
    }
}

/// The first refusal any of `ts` from `i` on calls for.
pub open spec fn first_value_refusal(ts: Seq<GreenToken>, i: int) -> Option<Seq<char>>
    decreases ts.len() - i,
{
    if i < 0 || i >= ts.len() {
        None
    } else {
        match value_refusal(ts[i].kind_of().0) {
            Some(r) => Some(r),
            None => first_value_refusal(ts, i + 1),
        }
    }
}

/// A meaning, in specifications: what a [`SemanticNode`] denotes.
pub enum Meaning {
    /// Source text and resolved value.
    Scalar(Seq<char>, Seq<char>),
    /// Key-value pairs in source order.
    Mapping(Seq<(Seq<char>, Meaning)>),
    /// Items in order.
    Sequence(Seq<Meaning>),
}

/// Whether node `n` has meaning `m`.
pub open spec fn denotes(n: SemanticNode, m: Meaning) -> bool
    decreases n,
{
    match n {
        SemanticNode::Scalar(s) => m matches Meaning::Scalar(t, v) && s.text@ == t && s.value@ == v,
        SemanticNode::Mapping(p) => m matches Meaning::Mapping(q) && p@.len() == q.len()
            && forall|i: int| 0 <= i < p@.len() ==> (#[trigger] p@[i]).0@ == q[i].0 && denotes(p@[i].1, q[i].1),
        SemanticNode::Sequence(xs) => m matches Meaning::Sequence(ys) && xs@.len() == ys.len()
            && forall|i: int| 0 <= i < xs@.len() ==> denotes(#[trigger] xs@[i], ys[i]),
    }
}

/// Whether a view result is the meaning `m`, or the refusal it names.
pub open spec fn result_denotes(r: Result<SemanticNode, Unmodelled>, m: Result<Meaning, Seq<char>>) -> bool {
    match (r, m) {
        (Ok(v), Ok(mv)) => denotes(v, mv),
        (Err(u), Err(reason)) => u.format@ == "yaml"@ && u.reason@ == reason,
        _ => false,
    }
}

/// What the tokens `ts` after a `:` or `-` mean, with the nested lines of `l`
/// beneath them when `nested` holds.
pub open spec fn value_meaning(ts: Seq<GreenToken>, l: GreenNode, nested: bool) -> Result<Meaning, Seq<char>>
    decreases l, 3nat, 0nat,
{
    let below = nested && lines_of(l).len() > 0;
    match first_value_refusal(ts, 0) {
        Some(reason) => Err(reason),
        None => if ts.len() == 0 {
            if below { nodes_meaning(l) } else { Ok(Meaning::Scalar(Seq::empty(), Seq::empty())) }
        } else if ts.len() == 1 {
            if below {
                Err("a scalar with nested lines beneath it is not modelled yet (M2)"@)
            } else {
                Ok(Meaning::Scalar(lossy_text(ts[0].bytes()), resolved(ts[0])))
            }
        } else {
            Err("a value of several tokens — an anchor, tag or flow collection — is not modelled yet (M2)"@)
        },
    }
}

/// What a sequence item means, given its tokens after the dash and the nested
/// lines of `l`: a value, or a mapping whose first entry shares the dash's line.
pub open spec fn item_meaning(rest: Seq<GreenToken>, l: GreenNode) -> Result<Meaning, Seq<char>>
    decreases l, 4nat, 0nat,
{
    let colon = first_of_kind(rest, yk::COLON, 0);
    if colon < 0 {
        value_meaning(rest, l, true)
    } else if colon != 1 {
        Err("compound mapping keys are not modelled yet (M2)"@)
    } else {
        match value_meaning(rest.subrange(2, rest.len() as int), l, false) {
            Err(u) => Err(u),
            Ok(iv) => match nodes_meaning(l) {
                Err(u) => Err(u),
                Ok(Meaning::Mapping(m)) => Ok(Meaning::Mapping(seq![(resolved(rest[0]), iv)] + m)),
                Ok(_) => if lines_of(l).len() == 0 {
                    Ok(Meaning::Mapping(seq![(resolved(rest[0]), iv)]))
                } else {
                    Err("a sequence item mixing a mapping entry with non-entry lines"@)
                },
            },
        }
    }
}

/// Entries and items collected over a run of lines, or why it stopped.
pub type Walk = Result<(Seq<(Seq<char>, Meaning)>, Seq<Meaning>), Seq<char>>;

/// `t` with an item in front.
pub open spec fn with_item(v: Meaning, t: Walk) -> Walk {
    match t {
        Ok((e, i)) => Ok((e, seq![v] + i)),
        Err(u) => Err(u),
    }
}

/// `t` with an entry in front.
pub open spec fn with_entry(x: (Seq<char>, Meaning), t: Walk) -> Walk {
    match t {
        Ok((e, i)) => Ok((seq![x] + e, i)),
        Err(u) => Err(u),
    }
}

/// Items adopted by a key, and the line after them, or why it stopped.
pub type Adopt = Result<(Seq<Meaning>, int), Seq<char>>;

/// A zero-indented sequence: the run of item lines of `p` from `k` on that a
/// key with no value adopts.
pub open spec fn adopt_meaning(p: GreenNode, k: int) -> Adopt
    decreases p, 1nat, lines_of(p).len() - k,
{
    if k < 0 || k >= lines_of(p).len() {
        Ok((Seq::empty(), k))
    } else {
        let m = line_at(p, k);
        proof {
            lemma_line_decreases(p, k);
        }
        if line_class(m) == 3 {
            Err(line_refusal(m))
        } else if line_class(m) == 1 {
            match item_meaning(line_tokens_of(m).drop_first(), m) {
                Err(u) => Err(u),
                Ok(v) => match adopt_meaning(p, k + 1) {
                    Ok((xs, next)) => Ok((seq![v] + xs, next)),
                    Err(u) => Err(u),
                },
            }
        } else {
            Ok((Seq::empty(), k))
        }
    }
}

/// What grouping the kept lines of `p` from `j` on yields.
pub open spec fn walk_meaning(p: GreenNode, j: int) -> Walk
    decreases p, 1nat, lines_of(p).len() - j,
{
    if j < 0 || j >= lines_of(p).len() {
        Ok((Seq::empty(), Seq::empty()))
    } else {
        let l = line_at(p, j);
        proof {
            lemma_line_decreases(p, j);
        }
        let ts = line_tokens_of(l);
        if line_class(l) == 3 {
            Err(line_refusal(l))
        } else if line_class(l) == 0 {
            walk_meaning(p, j + 1)
        } else if line_class(l) == 1 {
            match item_meaning(ts.drop_first(), l) {
                Err(u) => Err(u),
                Ok(v) => with_item(v, walk_meaning(p, j + 1)),
            }
        } else {
            let key = resolved(ts[0]);
            let value = ts.subrange(2, ts.len() as int);
            if value.len() == 0 && lines_of(l).len() == 0 {
                match adopt_meaning(p, j + 1) {
                    Err(u) => Err(u),
                    Ok((xs, next)) => if xs.len() > 0 {
                        if j < next && next <= lines_of(p).len() {
                            with_entry((key, Meaning::Sequence(xs)), walk_meaning(p, next))
                        } else {
                            Err(Seq::empty())
                        }
                    } else {
                        with_entry((key, Meaning::Scalar(Seq::empty(), Seq::empty())), walk_meaning(p, j + 1))
                    },
                }
            } else {
                match value_meaning(value, l, true) {
                    Err(u) => Err(u),
                    Ok(v) => with_entry((key, v), walk_meaning(p, j + 1)),
                }
            }
        }
    }
}

/// What the kept lines of `p` mean: a mapping, a sequence, an empty scalar
/// when there is neither, or a refusal.
pub open spec fn nodes_meaning(p: GreenNode) -> Result<Meaning, Seq<char>>
    decreases p, 2nat, 0nat,
{
    match walk_meaning(p, 0) {
        Err(u) => Err(u),
        Ok((e, i)) => if e.len() == 0 && i.len() == 0 {
            Ok(Meaning::Scalar(Seq::empty(), Seq::empty()))
        } else if i.len() == 0 {
            Ok(Meaning::Mapping(e))
        } else if e.len() == 0 {
            Ok(Meaning::Sequence(i))
        } else {
            Err("mapping entries and sequence items at the same level"@)
        },
    }
}

/// The first line after `k` that a run of adopted items stops at lies after
/// them and within the lines.
proof fn lemma_adopt_bounds(p: GreenNode, k: int)
    requires
        0 <= k,
    ensures
        adopt_meaning(p, k) matches Ok((xs, next)) ==> k <= next && (xs.len() > 0 ==> next <= lines_of(p).len() && k < next)
            && (xs.len() == 0 ==> next == k),
    decreases lines_of(p).len() - k,
{
    if k < lines_of(p).len() {
        lemma_adopt_bounds(p, k + 1);
    }
}

// --- YAML: the view ---------------------------------------------------------------

/// The tokens behind a sequence of references.
pub open spec fn deref_all(ts: Seq<&GreenToken>) -> Seq<GreenToken> {
    Seq::new(ts.len(), |i: int| *ts[i])
}

fn is_layout_exec(k: u16) -> (r: bool)
    ensures
        r == is_layout(k),
{
    k == yk::INDENT || k == yk::SPACE || k == yk::NEWLINE || k == yk::COMMENT
}

fn unmodelled(reason: &'static str) -> (u: Unmodelled)
    ensures
        u.format@ == "yaml"@,
        u.reason@ == reason@,
{
    Unmodelled { format: "yaml", reason }
}

/// A line with nothing to say and no nested lines.
fn is_empty_subtree(line: &GreenNode) -> (r: bool)
    ensures
        r == empty_subtree(*line),
{
    let kids = line.children();
    let mut i: usize = 0;
    while i < kids.len()
        invariant
            kids@ == line.kids(),
            i <= kids@.len(),
            forall|k: int| 0 <= k < i ==> !is_content_token(#[trigger] kids@[k]) && !is_line_node(kids@[k]),
        decreases kids@.len() - i,
    {
        match &kids[i] {
            GreenChild::Token(t) => {
                if !is_layout_exec(t.kind().0) {
                    return false;
                }
            },
            GreenChild::Node(m) => {
                if m.kind().0 == yk::LINE {
                    return false;
                }
            },
        }
        i = i + 1;
    }
    true
}

/// The nested lines of a node that carry meaning, as child indices.
fn child_lines(node: &GreenNode) -> (r: Vec<usize>)
    ensures
        r@.len() == lines_of(*node).len(),
        forall|j: int| 0 <= j < r@.len() ==> r@[j] == lines_of(*node)[j],
{
    let kids = node.children();
    let mut r: Vec<usize> = Vec::new();
    let mut i: usize = 0;
    while i < kids.len()
        invariant
            kids@ == node.kids(),
            i <= kids@.len(),
            r@.len() == line_indices(*node, i as int).len(),
            forall|j: int| 0 <= j < r@.len() ==> r@[j] == line_indices(*node, i as int)[j],
        decreases kids@.len() - i,
    {
        let keep = match &kids[i] {
            GreenChild::Node(m) => m.kind().0 == yk::LINE && !is_empty_subtree(m),
            GreenChild::Token(_) => false,
        };
        proof {
            assert(kids@[i as int] == kids[i as int]);
        }
        if keep {
            r.push(i);
        }
        i = i + 1;
    }
    r
}

/// The node of a kept line.
fn line_node<'a>(node: &'a GreenNode, idx: usize) -> (r: &'a GreenNode)
    requires
        idx < node.kids().len(),
        kept_line(node.kids()[idx as int]),
    ensures
        *r == node_of(node.kids()[idx as int]),
{
    let kids = node.children();
    match &kids[idx] {
        GreenChild::Node(m) => m,
        GreenChild::Token(_) => {
            proof {
                assert(false);
            }
            node
        },
    }
}

/// A line's own meaningful tokens.
fn line_tokens(line: &GreenNode) -> (r: Vec<&GreenToken>)
    ensures
        deref_all(r@) == line_tokens_of(*line),
{
    let kids = line.children();
    let mut r: Vec<&GreenToken> = Vec::new();
    let mut i: usize = 0;
    while i < kids.len()
        invariant
            kids@ == line.kids(),
            i <= kids@.len(),
            deref_all(r@) == sig_tokens(*line, i as int),
        decreases kids@.len() - i,
    {
        let ghost before = r@;
        match &kids[i] {
            GreenChild::Token(t) => {
                if !is_layout_exec(t.kind().0) {
                    r.push(&**t);
                    proof {
                        assert(deref_all(r@) == deref_all(before) + seq![**t]);
                    }
                } else {
                    proof {
                        assert(deref_all(before) + Seq::<GreenToken>::empty() == deref_all(before));
                    }
                }
            },
            GreenChild::Node(_) => {
                proof {
                    assert(deref_all(before) + Seq::<GreenToken>::empty() == deref_all(before));
                }
            },
        }
        proof {
            assert(kids@[i as int] == kids[i as int]);
        }
        i = i + 1;
    }
    r
}

/// The index of the first token of kind `k`.
fn first_of_kind_exec(ts: &[&GreenToken], k: u16) -> (r: Option<usize>)
    ensures
        r matches Some(i) ==> i == first_of_kind(deref_all(ts@), k, 0) && i < ts@.len(),
        r is None ==> first_of_kind(deref_all(ts@), k, 0) == -1,
{
    let ghost d = deref_all(ts@);
    let mut i: usize = 0;
    while i < ts.len()
        invariant
            d == deref_all(ts@),
            i <= ts@.len(),
            first_of_kind(d, k, 0) == first_of_kind(d, k, i as int),
        decreases ts@.len() - i,
    {
        proof {
            assert(d[i as int] == *ts@[i as int]);
        }
        if ts[i].kind().0 == k {
            return Some(i);
        }
        i = i + 1;
    }
    None
}

/// `''` read as `'`.
fn squote_exec(s: &Vec<char>, a: usize, b: usize) -> (r: String)
    requires
        a <= b <= s@.len(),
    ensures
        r@ == squote_unescape(s@.subrange(a as int, b as int), 0),
{
    let ghost u = s@.subrange(a as int, b as int);
    let mut out = String::new();
    let mut i = a;
    proof {
        assert(out@ + squote_unescape(u, 0) == squote_unescape(u, 0));
    }
    while i < b
        invariant
            a <= i <= b <= s@.len(),
            u == s@.subrange(a as int, b as int),
            out@ + squote_unescape(u, i - a) == squote_unescape(u, 0),
        decreases b - i,
    {
        let ghost o = out@;
        if s[i] == '\'' && i + 1 < b && s[i + 1] == '\'' {
            push_char(&mut out, '\'');
            proof {
                vstd::seq_lib::lemma_concat_associative(o, seq!['\''], squote_unescape(u, i + 2 - a));
            }
            i = i + 2;
        } else {
            push_char(&mut out, s[i]);
            proof {
                vstd::seq_lib::lemma_concat_associative(o, seq![s@[i as int]], squote_unescape(u, i + 1 - a));
            }
            i = i + 1;
        }
    }
    proof {
        assert(out@ + Seq::<char>::empty() == out@);
    }
    out
}

/// A scalar's source text and its resolved value.
fn resolve(token: &GreenToken) -> (r: Scalar)
    ensures
        r.text@ == lossy_text(token.bytes()),
        r.value@ == resolved(*token),
{
    let text = utf8_lossy(token.text());
    let k = token.kind().0;
    let value = if k == yk::SINGLE_QUOTED {
        let cs = chars_of(text.as_str());
        let n = cs.len();
        let (a, b) = if n >= 2 && cs[0] == '\'' && cs[n - 1] == '\'' { (1, n - 1) } else { (0, n) };
        proof {
            assert(cs@.subrange(a as int, b as int) == strip_single(text@)) by {
                if !(n >= 2 && cs@[0] == '\'' && cs@[n - 1] == '\'') {
                    assert(cs@.subrange(0, n as int) == cs@);
                }
            }
        }
        squote_exec(&cs, a, b)
    } else if k == yk::DOUBLE_QUOTED {
        let cs = chars_of(text.as_str());
        let n = cs.len();
        let (a, b) = if n >= 2 && cs[0] == '"' && cs[n - 1] == '"' { (1, n - 1) } else { (0, n) };
        let mut quoted = String::new();
        push_char(&mut quoted, '"');
        let mut i = a;
        while i < b
            invariant
                a <= i <= b <= cs@.len(),
                quoted@ == seq!['"'] + cs@.subrange(a as int, i as int),
            decreases b - i,
        {
            push_char(&mut quoted, cs[i]);
            proof {
                assert(cs@.subrange(a as int, i + 1) == cs@.subrange(a as int, i as int).push(cs@[i as int]));
            }
            i = i + 1;
        }
        push_char(&mut quoted, '"');
        proof {
            let inner = cs@.subrange(a as int, b as int);
            assert(inner == strip_quotes(text@)) by {
                if !(n >= 2 && cs@[0] == '"' && cs@[n - 1] == '"') {
                    assert(cs@.subrange(0, n as int) == cs@);
                }
            }
            assert(strip_quotes(quoted@) == inner);
        }
        unescape(quoted.as_str())
    } else {
        text.clone()
    };
    Scalar { text, value }
}

/// Turn the tokens after a `:` or a `-`, plus the nested lines of `line`
/// when `nested` holds, into a value.
fn value_from(ts: &[&GreenToken], line: &GreenNode, nested: bool) -> (r: Result<SemanticNode, Unmodelled>)
    ensures
        result_denotes(r, value_meaning(deref_all(ts@), *line, nested)),
    decreases *line, 3nat, 0nat,
{
    let ghost d = deref_all(ts@);
    let mut i: usize = 0;
    while i < ts.len()
        invariant
            d == deref_all(ts@),
            i <= ts@.len(),
            first_value_refusal(d, 0) == first_value_refusal(d, i as int),
        decreases ts@.len() - i,
    {
        proof {
            assert(d[i as int] == *ts@[i as int]);
        }
        let k = ts[i].kind().0;
        if k == yk::BLOCK_HEADER || k == yk::BLOCK_BODY {
            return Err(unmodelled("block scalars are not modelled yet (M2)"));
        } else if k == yk::ANCHOR || k == yk::ALIAS {
            return Err(unmodelled("anchors and aliases are not modelled yet (M2)"));
        } else if k == yk::TAG {
            return Err(unmodelled("tags are not modelled yet (M2)"));
        } else if k == yk::FLOW_PUNCT {
            return Err(unmodelled("flow collections are not modelled yet (M2)"));
        }
        i = i + 1;
    }
    let below = nested && child_lines(line).len() > 0;
    if ts.len() == 0 {
        if below {
            node_from_lines(line)
        } else {
            Ok(SemanticNode::Scalar(Scalar { text: String::new(), value: String::new() }))
        }
    } else if ts.len() == 1 {
        if below {
            Err(unmodelled("a scalar with nested lines beneath it is not modelled yet (M2)"))
        } else {
            proof {
                assert(d[0] == *ts@[0]);
            }
            Ok(SemanticNode::Scalar(resolve(ts[0])))
        }
    } else {
        Err(unmodelled("a value of several tokens — an anchor, tag or flow collection — is not modelled yet (M2)"))
    }
}

/// A sequence item: a value, or a mapping whose first entry shares the dash's
/// line and whose other entries are the nested lines of `line`.
fn item_value(rest: &[&GreenToken], line: &GreenNode) -> (r: Result<SemanticNode, Unmodelled>)
    ensures
        result_denotes(r, item_meaning(deref_all(rest@), *line)),
    decreases *line, 4nat, 0nat,
{
    let ghost d = deref_all(rest@);
    let colon = match first_of_kind_exec(rest, yk::COLON) {
        None => {
            return value_from(rest, line, true);
        },
        Some(c) => c,
    };
    if colon != 1 {
        return Err(unmodelled("compound mapping keys are not modelled yet (M2)"));
    }
    proof {
        assert(d[0] == *rest@[0]);
        lemma_first_of_kind(d, yk::COLON, 0);
    }
    let key = resolve(rest[0]).value;
    let tail = &rest[2..rest.len()];
    proof {
        assert(deref_all(tail@) =~= d.subrange(2, d.len() as int));
    }
    let iv = match value_from(tail, line, false) {
        Err(u) => {
            return Err(u);
        },
        Ok(v) => v,
    };
    match node_from_lines(line) {
        Err(u) => Err(u),
        Ok(SemanticNode::Mapping(m)) => {
            let ghost mg = m;
            let mut entries: Vec<(String, SemanticNode)> = Vec::new();
            entries.push((key, iv));
            let mut m = m;
            entries.append(&mut m);
            proof {
                let mm = nodes_meaning(*line)->Ok_0->Mapping_0;
                let im = value_meaning(d.subrange(2, d.len() as int), *line, false)->Ok_0;
                let q = seq![(resolved(d[0]), im)] + mm;
                assert forall|i: int| 0 <= i < entries@.len() implies (#[trigger] entries@[i]).0@ == q[i].0 && denotes(entries@[i].1, q[i].1) by {
                    if i > 0 {
                        assert(entries@[i] == mg@[i - 1]);
                    }
                }
            }
            Ok(SemanticNode::Mapping(entries))
        },
        Ok(other) => {
            if child_lines(line).len() == 0 {
                let mut entries: Vec<(String, SemanticNode)> = Vec::new();
                entries.push((key, iv));
                Ok(SemanticNode::Mapping(entries))
            } else {
                Err(unmodelled("a sequence item mixing a mapping entry with non-entry lines"))
            }
        },
    }
}

/// What a line is, from its own tokens: blank (0), an item (1), an entry
/// (2), or unmodelled (3) with the reason.
fn classify(toks: &Vec<&GreenToken>, line: Ghost<GreenNode>) -> (r: (u8, &'static str))
    requires
        deref_all(toks@) == line_tokens_of(line@),
    ensures
        r.0 == line_class(line@),
        r.0 == 3 ==> r.1@ == line_refusal(line@),
{
    let ghost d = deref_all(toks@);
    if toks.len() == 0 {
        return (0, "");
    }
    proof {
        assert(d[0] == *toks@[0]);
    }
    let k = toks[0].kind().0;
    if k == yk::DASH {
        return (1, "");
    }
    if k == yk::DOC_START || k == yk::DOC_END {
        return (3, "multi-document streams are not modelled yet (M2)");
    } else if k == yk::DIRECTIVE {
        return (3, "directives are not modelled yet (M2)");
    } else if k == yk::ANCHOR || k == yk::ALIAS {
        return (3, "anchors and aliases are not modelled yet (M2)");
    } else if k == yk::TAG {
        return (3, "tags are not modelled yet (M2)");
    } else if k == yk::FLOW_PUNCT {
        return (3, "flow collections are not modelled yet (M2)");
    } else if k == yk::BLOCK_HEADER || k == yk::BLOCK_BODY {
        return (3, "block scalars are not modelled yet (M2)");
    }
    match first_of_kind_exec(toks.as_slice(), yk::COLON) {
        None => (3, "a line that is neither a mapping entry nor a sequence item"),
        Some(c) => if c != 1 { (3, "compound mapping keys are not modelled yet (M2)") } else { (2, "") },
    }
}

/// `t` after entries `e` and items `i`.
pub open spec fn prefixed(e: Seq<(Seq<char>, Meaning)>, i: Seq<Meaning>, t: Walk) -> Walk {
    match t {
        Ok((e2, i2)) => Ok((e + e2, i + i2)),
        Err(u) => Err(u),
    }
}

/// `a` after the adopted items `xs`.
pub open spec fn adopted_prefixed(xs: Seq<Meaning>, a: Adopt) -> Adopt {
    match a {
        Ok((ys, next)) => Ok((xs + ys, next)),
        Err(u) => Err(u),
    }
}

/// Whether `entries` denote `em`, pair by pair.
pub open spec fn entries_denote(entries: Seq<(String, SemanticNode)>, em: Seq<(Seq<char>, Meaning)>) -> bool {
    entries.len() == em.len() && forall|i: int| 0 <= i < entries.len() ==> (#[trigger] entries[i]).0@ == em[i].0 && denotes(entries[i].1, em[i].1)
}

/// Whether `items` denote `im`, item by item.
pub open spec fn items_denote(items: Seq<SemanticNode>, im: Seq<Meaning>) -> bool {
    items.len() == im.len() && forall|i: int| 0 <= i < items.len() ==> denotes(#[trigger] items[i], im[i])
}

/// Group the kept lines of `node` into the collection they describe.
fn node_from_lines(node: &GreenNode) -> (r: Result<SemanticNode, Unmodelled>)
    ensures
        result_denotes(r, nodes_meaning(*node)),
    decreases *node, 2nat, 0nat,
{
    let lines = child_lines(node);
    let n = lines.len();
    let mut entries: Vec<(String, SemanticNode)> = Vec::new();
    let mut items: Vec<SemanticNode> = Vec::new();
    let ghost mut em: Seq<(Seq<char>, Meaning)> = Seq::empty();
    let ghost mut im: Seq<Meaning> = Seq::empty();
    let mut index: usize = 0;
    proof {
        assert(prefixed(em, im, walk_meaning(*node, 0)) == walk_meaning(*node, 0)) by {
            match walk_meaning(*node, 0) {
                Ok((e2, i2)) => {
                    assert(em + e2 == e2);
                    assert(im + i2 == i2);
                },
                Err(_) => {},
            }
        }
    }
    while index < n
        invariant
            n == lines@.len() == lines_of(*node).len(),
            forall|j: int| 0 <= j < n ==> lines@[j] == lines_of(*node)[j],
            index <= n,
            entries_denote(entries@, em),
            items_denote(items@, im),
            walk_meaning(*node, 0) == prefixed(em, im, walk_meaning(*node, index as int)),
        decreases n - index,
    {
        let j = index;
        proof {
            lemma_line_decreases(*node, j as int);
            lemma_line_indices(*node, node.kids().len() as int);
            assert(lines@[j as int] == lines_of(*node)[j as int]);
        }
        let line = line_node(node, lines[j]);
        proof {
            assert(*line == line_at(*node, j as int));
        }
        let toks = line_tokens(line);
        let ghost d = deref_all(toks@);
        let (class, reason) = classify(&toks, Ghost(*line));
        index = index + 1;
        if class == 0 {
        } else if class == 3 {
            return Err(unmodelled(reason));
        } else if class == 1 {
            let rest = &toks.as_slice()[1..toks.len()];
            proof {
                assert(deref_all(rest@) =~= d.drop_first());
            }
            match item_value(rest, line) {
                Err(u) => {
                    return Err(u);
                },
                Ok(v) => {
                    proof {
                        let mv = item_meaning(d.drop_first(), *line)->Ok_0;
                        lemma_prefixed_item(em, im, mv, walk_meaning(*node, index as int));
                        assert(items@.push(v)[items@.len() as int] == v);
                        assert forall|i: int| 0 <= i < items@.len() + 1 implies denotes(#[trigger] items@.push(v)[i], im.push(mv)[i]) by {
                            if i < items@.len() {
                                assert(items@.push(v)[i] == items@[i]);
                            }
                        }
                        im = im.push(mv);
                    }
                    items.push(v);
                },
            }
        } else {
            proof {
                assert(d[0] == *toks@[0]);
                lemma_first_of_kind(d, yk::COLON, 0);
            }
            let key = resolve(toks[0]).value;
            let value = &toks.as_slice()[2..toks.len()];
            proof {
                assert(deref_all(value@) =~= d.subrange(2, d.len() as int));
            }
            let mut done = false;
            if value.len() == 0 && child_lines(line).len() == 0 {
                let mut adopted: Vec<SemanticNode> = Vec::new();
                let ghost mut am: Seq<Meaning> = Seq::empty();
                let ghost k0 = index as int;
                proof {
                    assert(adopted_prefixed(am, adopt_meaning(*node, k0)) == adopt_meaning(*node, k0)) by {
                        match adopt_meaning(*node, k0) {
                            Ok((ys, next)) => {
                                assert(am + ys == ys);
                            },
                            Err(_) => {},
                        }
                    }
                }
                loop
                    invariant_except_break
                        index <= n,
                        k0 <= index,
                        items_denote(adopted@, am),
                        adopt_meaning(*node, k0) == adopted_prefixed(am, adopt_meaning(*node, index as int)),
                    invariant
                        n == lines@.len() == lines_of(*node).len(),
                        forall|jj: int| 0 <= jj < n ==> lines@[jj] == lines_of(*node)[jj],
                        k0 == j + 1,
                        j < n,
                        walk_meaning(*node, 0) == prefixed(em, im, walk_meaning(*node, j as int)),
                        line_class(line_at(*node, j as int)) == 2,
                        line_tokens_of(line_at(*node, j as int)).len() == 2,
                        lines_of(line_at(*node, j as int)).len() == 0,
                    ensures
                        index <= n,
                        k0 <= index,
                        items_denote(adopted@, am),
                        adopt_meaning(*node, k0) == Ok::<(Seq<Meaning>, int), Seq<char>>((am, index as int)),
                    decreases n - index,
                {
                    if index >= n {
                        proof {
                            assert(am + Seq::<Meaning>::empty() == am);
                        }
                        break;
                    }
                    proof {
                        lemma_line_decreases(*node, index as int);
                        lemma_line_indices(*node, node.kids().len() as int);
                        assert(lines@[index as int] == lines_of(*node)[index as int]);
                    }
                    let next = line_node(node, lines[index]);
                    proof {
                        assert(*next == line_at(*node, index as int));
                    }
                    let ntoks = line_tokens(next);
                    let ghost nd = deref_all(ntoks@);
                    let (nclass, nreason) = classify(&ntoks, Ghost(*next));
                    if nclass == 3 {
                        let u = unmodelled(nreason);
                        proof {
                            assert(adopt_meaning(*node, index as int) == Err::<(Seq<Meaning>, int), Seq<char>>(u.reason@));
                            lemma_walk_adopt_err(*node, j as int, u.reason@);
                        }
                        return Err(u);
                    } else if nclass == 1 {
                        let nrest = &ntoks.as_slice()[1..ntoks.len()];
                        proof {
                            assert(deref_all(nrest@) =~= nd.drop_first());
                        }
                        match item_value(nrest, next) {
                            Err(u) => {
                                proof {
                                    assert(adopt_meaning(*node, index as int) == Err::<(Seq<Meaning>, int), Seq<char>>(u.reason@));
                                    lemma_walk_adopt_err(*node, j as int, u.reason@);
                                }
                                return Err(u);
                            },
                            Ok(v) => {
                                proof {
                                    let mv = item_meaning(nd.drop_first(), *next)->Ok_0;
                                    lemma_adopted_prefixed(am, mv, adopt_meaning(*node, index + 1));
                                    assert forall|i: int| 0 <= i < adopted@.len() + 1 implies denotes(#[trigger] adopted@.push(v)[i], am.push(mv)[i]) by {
                                        if i < adopted@.len() {
                                            assert(adopted@.push(v)[i] == adopted@[i]);
                                        }
                                    }
                                    am = am.push(mv);
                                }
                                adopted.push(v);
                                index = index + 1;
                            },
                        }
                    } else {
                        proof {
                            assert(am + Seq::<Meaning>::empty() == am);
                        }
                        break;
                    }
                }
                proof {
                    lemma_adopt_bounds(*node, k0);
                }
                if adopted.len() > 0 {
                    let ghost xs = am;
                    let x = (key.clone(), SemanticNode::Sequence(adopted));
                    proof {
                        let mx = (resolved(d[0]), Meaning::Sequence(xs));
                        lemma_prefixed_entry(em, im, mx, walk_meaning(*node, index as int));
                        assert forall|i: int| 0 <= i < entries@.len() + 1 implies (#[trigger] entries@.push(x)[i]).0@ == em.push(mx)[i].0
                            && denotes(entries@.push(x)[i].1, em.push(mx)[i].1) by {
                            if i < entries@.len() {
                                assert(entries@.push(x)[i] == entries@[i]);
                            }
                        }
                        em = em.push(mx);
                    }
                    entries.push(x);
                    done = true;
                }
            }
            if !done {
                match value_from(value, line, true) {
                    Err(u) => {
                        return Err(u);
                    },
                    Ok(v) => {
                        let x = (key, v);
                        proof {
                            let mv = value_meaning(d.subrange(2, d.len() as int), *line, true)->Ok_0;
                            let mx = (resolved(d[0]), mv);
                            lemma_prefixed_entry(em, im, mx, walk_meaning(*node, index as int));
                            assert forall|i: int| 0 <= i < entries@.len() + 1 implies (#[trigger] entries@.push(x)[i]).0@ == em.push(mx)[i].0
                                && denotes(entries@.push(x)[i].1, em.push(mx)[i].1) by {
                                if i < entries@.len() {
                                    assert(entries@.push(x)[i] == entries@[i]);
                                }
                            }
                            em = em.push(mx);
                        }
                        entries.push(x);
                    },
                }
            }
        }
    }
    proof {
        assert(em + Seq::<(Seq<char>, Meaning)>::empty() == em);
        assert(im + Seq::<Meaning>::empty() == im);
    }
    if entries.len() == 0 && items.len() == 0 {
        Ok(SemanticNode::Scalar(Scalar { text: String::new(), value: String::new() }))
    } else if items.len() == 0 {
        Ok(SemanticNode::Mapping(entries))
    } else if entries.len() == 0 {
        Ok(SemanticNode::Sequence(items))
    } else {
        Err(unmodelled("mapping entries and sequence items at the same level"))
    }
}

proof fn lemma_walk_adopt_err(p: GreenNode, j: int, u: Seq<char>)
    requires
        0 <= j < lines_of(p).len(),
        line_class(line_at(p, j)) == 2,
        line_tokens_of(line_at(p, j)).len() == 2,
        lines_of(line_at(p, j)).len() == 0,
        adopt_meaning(p, j + 1) == Err::<(Seq<Meaning>, int), Seq<char>>(u),
    ensures
        walk_meaning(p, j) == Err::<(Seq<(Seq<char>, Meaning)>, Seq<Meaning>), Seq<char>>(u),
{
    let ts = line_tokens_of(line_at(p, j));
    assert(ts.subrange(2, ts.len() as int).len() == 0);
}

proof fn lemma_prefixed_item(e: Seq<(Seq<char>, Meaning)>, i: Seq<Meaning>, v: Meaning, t: Walk)
    ensures
        prefixed(e, i, with_item(v, t)) == prefixed(e, i.push(v), t),
{
    match t {
        Ok((e2, i2)) => {
            assert(i + (seq![v] + i2) == i.push(v) + i2);
        },
        Err(_) => {},
    }
}

proof fn lemma_prefixed_entry(e: Seq<(Seq<char>, Meaning)>, i: Seq<Meaning>, x: (Seq<char>, Meaning), t: Walk)
    ensures
        prefixed(e, i, with_entry(x, t)) == prefixed(e.push(x), i, t),
{
    match t {
        Ok((e2, i2)) => {
            assert(e + (seq![x] + e2) == e.push(x) + e2);
        },
        Err(_) => {},
    }
}

proof fn lemma_adopted_prefixed(xs: Seq<Meaning>, v: Meaning, a: Adopt)
    ensures
        adopted_prefixed(xs, adopted_prefixed(seq![v], a)) == adopted_prefixed(xs.push(v), a),
{
    match a {
        Ok((ys, next)) => {
            assert(xs + (seq![v] + ys) == xs.push(v) + ys);
        },
        Err(_) => {},
    }
}

/// The semantic view of a YAML tree: the meaning of the root's kept lines.
pub fn yaml_view(cst: &Cst) -> (r: Result<SemanticNode, Unmodelled>)
    ensures
        result_denotes(r, nodes_meaning(cst.root_node())),
{
    let root: &GreenNode = cst.root();
    node_from_lines(root)
}

} // verus!
