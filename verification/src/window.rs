//! Byte-level failure rendering shared by the golden and round-trip runners:
//! where two byte strings first differ, and a printable window onto each.
use crate::text::{decimal, push_char, push_decimal};
use vstd::prelude::*;
use vstd::string::*;

verus! {

/// The lowercase hexadecimal digit of `d`.
pub open spec fn hex_digit(d: nat) -> char {
    if d < 10 { ((d + 48) as u8) as char } else { ((d + 87) as u8) as char }
}

/// How one byte is shown: `\n`, `\r` and `\t` by their escapes, printable
/// ASCII as itself, anything else as `\xHH`.
pub open spec fn show_byte(b: u8) -> Seq<char> {
    if b == 10 {
        seq!['\\', 'n']
    } else if b == 13 {
        seq!['\\', 'r']
    } else if b == 9 {
        seq!['\\', 't']
    } else if 0x20 <= b <= 0x7e {
        seq![b as char]
    } else {
        seq!['\\', 'x', hex_digit((b / 16) as nat), hex_digit((b % 16) as nat)]
    }
}

/// How a run of bytes is shown.
pub open spec fn show_bytes(s: Seq<u8>) -> Seq<char>
    decreases s.len(),
{
    if s.len() == 0 { Seq::empty() } else { show_bytes(s.drop_last()) + show_byte(s.last()) }
}

/// At most `count` bytes of `bytes` from `start`, shown; nothing when
/// `start` is past the end.
pub open spec fn window_spec(bytes: Seq<u8>, start: nat, count: nat) -> Seq<char> {
    if start > bytes.len() {
        Seq::empty()
    } else {
        let end = if start + count < bytes.len() { start + count } else { bytes.len() as nat };
        show_bytes(bytes.subrange(start as int, end as int))
    }
}

/// The first index at which `a` and `b` differ, or the shorter length.
pub open spec fn first_difference_spec(a: Seq<u8>, b: Seq<u8>) -> nat {
    let n = if a.len() < b.len() { a.len() } else { b.len() };
    if exists|i: int| 0 <= i < n && a[i] != b[i] {
        (choose|i: int| 0 <= i < n && a[i] != b[i] && forall|j: int| 0 <= j < i ==> a[j] == b[j]) as nat
    } else {
        n
    }
}

fn hex_char(d: u8) -> (c: char)
    requires
        d < 16,
    ensures
        c == hex_digit(d as nat),
{
    if d < 10 { (d + 48) as char } else { (d + 87) as char }
}

/// A printable window of `bytes` beginning at `start`, at most `count` long.
pub fn show_window(bytes: &[u8], start: usize, count: usize) -> (r: String)
    ensures
        r@ == window_spec(bytes@, start as nat, count as nat),
{
    let mut out = String::new();
    if start > bytes.len() {
        return out;
    }
    let end = if count < bytes.len() - start { start + count } else { bytes.len() };
    let mut i = start;
    proof {
        assert(bytes@.subrange(start as int, start as int) == Seq::<u8>::empty());
    }
    while i < end
        invariant
            start <= i <= end <= bytes@.len(),
            out@ == show_bytes(bytes@.subrange(start as int, i as int)),
        decreases end - i,
    {
        let b = bytes[i];
        let ghost o = out@;
        if b == 10 {
            push_char(&mut out, '\\');
            push_char(&mut out, 'n');
        } else if b == 13 {
            push_char(&mut out, '\\');
            push_char(&mut out, 'r');
        } else if b == 9 {
            push_char(&mut out, '\\');
            push_char(&mut out, 't');
        } else if 0x20 <= b && b <= 0x7e {
            push_char(&mut out, b as char);
        } else {
            push_char(&mut out, '\\');
            push_char(&mut out, 'x');
            push_char(&mut out, hex_char(b / 16));
            push_char(&mut out, hex_char(b % 16));
        }
        proof {
            let t = bytes@.subrange(start as int, i + 1);
            assert(t.drop_last() == bytes@.subrange(start as int, i as int));
            assert(t.last() == b);
            assert(out@ =~= o + show_byte(b));
        }
        i = i + 1;
    }
    out
}

/// The first index at which `a` and `b` differ, or the shorter length.
pub fn first_difference(a: &[u8], b: &[u8]) -> (r: usize)
    ensures
        r == first_difference_spec(a@, b@),
        r <= a@.len() && r <= b@.len(),
        forall|j: int| 0 <= j < r ==> a@[j] == b@[j],
        r < a@.len() && r < b@.len() ==> a@[r as int] != b@[r as int],
{
    let n = if a.len() < b.len() { a.len() } else { b.len() };
    let mut i: usize = 0;
    while i < n
        invariant
            n == (if a@.len() < b@.len() { a@.len() } else { b@.len() }),
            i <= n,
            forall|j: int| 0 <= j < i ==> a@[j] == b@[j],
        decreases n - i,
    {
        if a[i] != b[i] {
            proof {
                let w = i as int;
                assert(0 <= w < n && a@[w] != b@[w] && forall|j: int| 0 <= j < w ==> a@[j] == b@[j]);
                let c = choose|k: int| 0 <= k < n && a@[k] != b@[k] && forall|j: int| 0 <= j < k ==> a@[j] == b@[j];
                if c < w {
                    assert(a@[c] == b@[c]);
                } else if c > w {
                    assert(a@[w] == b@[w]);
                }
            }
            return i;
        }
        i = i + 1;
    }
    i
}

} // verus!
