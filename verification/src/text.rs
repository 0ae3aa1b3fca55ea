//! Small text builders shared by the diagnostics and renderers.
use vstd::prelude::*;
use vstd::string::*;

verus! {

/// `String::push`: appends one character.
#[verifier::external_body]
pub fn push_char(s: &mut String, c: char)
    ensures
        final(s)@ == old(s)@.push(c),
{
    s.push(c);
}

/// The ASCII character of a decimal digit.
pub open spec fn digit_char(d: nat) -> char {
    (('0' as u8) + d) as char
}

/// The decimal spelling of `n`, most significant digit first, no leading zeros.
pub open spec fn decimal(n: nat) -> Seq<char>
    decreases n,
{
    if n < 10 {
        seq![digit_char(n)]
    } else {
        decimal(n / 10).push(digit_char(n % 10))
    }
}

/// Append the decimal spelling of `n` to `s`.
pub fn push_decimal(s: &mut String, n: u64)
    ensures
        final(s)@ == old(s)@ + decimal(n as nat),
    decreases n,
{
    if n >= 10 {
        push_decimal(s, n / 10);
    }
    let d = (n % 10) as u8;
    let c = (48u8 + d) as char;
    push_char(s, c);
}

/// The decimal spelling of `n`, as a new string.
pub fn decimal_string(n: u64) -> (s: String)
    ensures
        s@ == decimal(n as nat),
{
    let mut s = String::new();
    push_decimal(&mut s, n);
    s
}

/// A string holding the characters of a literal.
pub fn string_of(s: &str) -> (r: String)
    ensures
        r@ == s@,
{
    String::from_str(s)
}

/// The characters of each string.
pub open spec fn views_of(v: Seq<String>) -> Seq<Seq<char>> {
    Seq::new(v.len(), |i: int| v[i]@)
}

/// Texts joined with `sep` between them.
pub open spec fn joined_with(t: Seq<Seq<char>>, sep: Seq<char>) -> Seq<char>
    decreases t.len(),
{
    if t.len() == 0 {
        Seq::empty()
    } else if t.len() == 1 {
        t[0]
    } else {
        joined_with(t.drop_last(), sep) + sep + t.last()
    }
}

/// Append the first `n` of `t` (all of them, when there are fewer), with
/// `sep` between them.
pub fn push_joined(out: &mut String, t: &Vec<String>, n: usize, sep: &str)
    ensures
        final(out)@ == old(out)@ + joined_with(views_of(t@).take(if n < t@.len() { n as int } else { t@.len() as int }), sep@),
{
    let m = if n < t.len() { n } else { t.len() };
    let ghost vs = views_of(t@);
    let mut i: usize = 0;
    proof {
        assert(vs.take(0) =~= Seq::<Seq<char>>::empty());
        assert(old(out)@ + Seq::<char>::empty() =~= old(out)@);
    }
    while i < m
        invariant
            m <= t@.len(),
            vs == views_of(t@),
            i <= m,
            out@ == old(out)@ + joined_with(vs.take(i as int), sep@),
        decreases m - i,
    {
        proof {
            let u = vs.take(i + 1);
            assert(u.drop_last() =~= vs.take(i as int));
            assert(u.last() == t@[i as int]@);
            if i == 0 {
                assert(u[0] == t@[0]@);
                assert(vs.take(0) =~= Seq::<Seq<char>>::empty());
            }
        }
        let ghost o = out@;
        if i > 0 {
            out.append(sep);
        }
        out.append(t[i].as_str());
        proof {
            if i > 0 {
                assert(out@ =~= old(out)@ + (joined_with(vs.take(i as int), sep@) + sep@ + t@[i as int]@));
            } else {
                assert(out@ =~= old(out)@ + t@[0]@);
            }
        }
        i = i + 1;
    }
}

} // verus!
