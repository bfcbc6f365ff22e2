//! Verified text building on character vectors.
//!
//! Explanations and descriptions are assembled as `Vec<char>`, whose view
//! is a `Seq<char>`, and turned into a `String` only at the public seams.
//! This module holds the character-level building blocks: appending,
//! decimal rendering, line padding, and the [`DebugView`] trait by which
//! values render themselves inside explanations.

use vstd::prelude::*;
use vstd::string::StrSliceExecFns;

verus! {

/// The characters of `s`, as a vector.
pub fn chars_to_vec(s: &str) -> (v: Vec<char>)
    ensures
        v@ == s@,
{
    let n = s.unicode_len();
    let mut v: Vec<char> = Vec::new();
    let mut i: usize = 0;
    while i < n
        invariant
            i <= n,
            n == s@.len(),
            v@ == s@.take(i as int),
        decreases n - i,
    {
        let c = s.get_char(i);
        v.push(c);
        proof {
            assert(v@ =~= s@.take(i as int + 1));
        }
        i += 1;
    }
    proof {
        assert(s@.take(n as int) =~= s@);
    }
    v
}

/// Whether two character vectors hold the same characters.
pub fn eq_chars(a: &Vec<char>, b: &Vec<char>) -> (r: bool)
    ensures
        r == (a@ == b@),
{
    if a.len() != b.len() {
        return false;
    }
    let mut i: usize = 0;
    while i < a.len()
        invariant
            i <= a@.len(),
            a@.len() == b@.len(),
            forall|k: int| 0 <= k < i ==> a@[k] == b@[k],
        decreases a@.len() - i,
    {
        if a[i] != b[i] {
            return false;
        }
        i += 1;
    }
    proof {
        assert(a@ =~= b@);
    }
    true
}

/// Append all of `src` to `out`.
pub fn append_chars(out: &mut Vec<char>, src: &Vec<char>)
    ensures
        final(out)@ == old(out)@ + src@,
{
    let mut i: usize = 0;
    while i < src.len()
        invariant
            i <= src@.len(),
            out@ == old(out)@ + src@.take(i as int),
        decreases src@.len() - i,
    {
        let ghost out0 = out@;
        out.push(src[i]);
        proof {
            assert(out@ =~= old(out)@ + src@.take(i as int + 1));
        }
        i += 1;
    }
    proof {
        assert(old(out)@ + src@.take(src@.len() as int) =~= old(out)@ + src@);
    }
}

/// Append all characters of `s` to `out`.
pub fn append_str(out: &mut Vec<char>, s: &str)
    ensures
        final(out)@ == old(out)@ + s@,
{
    let n = s.unicode_len();
    let mut i: usize = 0;
    while i < n
        invariant
            i <= n,
            n == s@.len(),
            out@ == old(out)@ + s@.take(i as int),
        decreases n - i,
    {
        out.push(s.get_char(i));
        proof {
            assert(out@ =~= old(out)@ + s@.take(i as int + 1));
        }
        i += 1;
    }
    proof {
        assert(old(out)@ + s@.take(n as int) =~= old(out)@ + s@);
    }
}

/// The decimal digit character for `d`.
pub open spec fn digit_char(d: int) -> char {
    ((48 + d) as u8) as char
}

/// The decimal rendering of a non-negative number.
pub open spec fn dec_seq(n: int) -> Seq<char>
    decreases n,
{
    if n < 10 {
        seq![digit_char(n)]
    } else {
        dec_seq(n / 10).push(digit_char(n % 10))
    }
}

/// The decimal rendering of a signed number.
pub open spec fn dec_seq_i64(n: int) -> Seq<char> {
    if n >= 0 {
        dec_seq(n)
    } else {
        seq!['-'] + dec_seq(-n)
    }
}

/// Append the decimal rendering of `n` to `out`.
pub fn push_u64_dec(out: &mut Vec<char>, n: u64)
    ensures
        final(out)@ == old(out)@ + dec_seq(n as int),
    decreases n,
{
    if n < 10 {
        let c = (48u8 + (n as u8)) as char;
        out.push(c);
        proof {
            assert(out@ =~= old(out)@ + dec_seq(n as int));
        }
    } else {
        let q = n / 10;
        let d = n % 10;
        push_u64_dec(out, q);
        let c = (48u8 + (d as u8)) as char;
        out.push(c);
        proof {
            assert(out@ =~= old(out)@ + dec_seq(n as int));
        }
    }
}

/// Append the decimal rendering of the signed `n` to `out`.
pub fn push_i64_dec(out: &mut Vec<char>, n: i64)
    ensures
        final(out)@ == old(out)@ + dec_seq_i64(n as int),
{
    if n >= 0 {
        push_u64_dec(out, n as u64);
    } else {
        out.push('-');
        let mag: u64 = if n == i64::MIN {
            9223372036854775808u64
        } else {
            (-n) as u64
        };
        push_u64_dec(out, mag);
        proof {
            assert(out@ =~= old(out)@ + dec_seq_i64(n as int));
        }
    }
}

/// `s` with `pad` inserted after every newline.
pub open spec fn pad_lines(s: Seq<char>, pad: Seq<char>) -> Seq<char>
    decreases s.len(),
{
    if s.len() == 0 {
        Seq::empty()
    } else if s[0] == '\n' {
        seq!['\n'] + pad + pad_lines(s.skip(1), pad)
    } else {
        seq![s[0]] + pad_lines(s.skip(1), pad)
    }
}

/// Append `s` to `out`, inserting `pad` after every newline of `s`.
pub fn append_padded(out: &mut Vec<char>, s: &Vec<char>, pad: &Vec<char>)
    ensures
        final(out)@ == old(out)@ + pad_lines(s@, pad@),
{
    proof {
        assert(s@.skip(0) =~= s@);
    }
    let mut i: usize = 0;
    while i < s.len()
        invariant
            i <= s@.len(),
            out@ + pad_lines(s@.skip(i as int), pad@) == old(out)@ + pad_lines(s@, pad@),
        decreases s@.len() - i,
    {
        let ghost out0 = out@;
        let ghost tail = s@.skip(i as int);
        let c = s[i];
        out.push(c);
        if c == '\n' {
            append_chars(out, pad);
            proof {
                assert(tail[0] == '\n');
                assert(tail.skip(1) =~= s@.skip(i as int + 1));
                assert(pad_lines(tail, pad@) =~= seq!['\n'] + pad@ + pad_lines(
                    s@.skip(i as int + 1),
                    pad@,
                ));
                assert(out@ =~= out0 + (seq!['\n'] + pad@));
                assert(out@ + pad_lines(s@.skip(i as int + 1), pad@) =~= out0 + pad_lines(
                    tail,
                    pad@,
                ));
            }
        } else {
            proof {
                assert(tail[0] == c && c != '\n');
                assert(tail.skip(1) =~= s@.skip(i as int + 1));
                assert(pad_lines(tail, pad@) =~= seq![c] + pad_lines(s@.skip(i as int + 1), pad@));
                assert(out@ + pad_lines(s@.skip(i as int + 1), pad@) =~= out0 + pad_lines(
                    tail,
                    pad@,
                ));
            }
        }
        i += 1;
    }
    proof {
        assert(s@.skip(s@.len() as int) =~= Seq::<char>::empty());
        assert(out@ + pad_lines(Seq::<char>::empty(), pad@) =~= out@);
    }
}

/// `n` spaces.
pub open spec fn spaces(n: int) -> Seq<char>
    decreases n,
{
    if n <= 0 {
        Seq::empty()
    } else {
        spaces(n - 1).push(' ')
    }
}

/// A vector of `n` spaces.
pub fn make_spaces(n: usize) -> (v: Vec<char>)
    ensures
        v@ == spaces(n as int),
{
    let mut v: Vec<char> = Vec::new();
    let mut i: usize = 0;
    while i < n
        invariant
            i <= n,
            v@ == spaces(i as int),
        decreases n - i,
    {
        v.push(' ');
        i += 1;
    }
    v
}

/// A value that can render itself for inclusion in a match explanation.
pub trait DebugView {
    /// The rendered form of the value.
    spec fn dbg_spec(&self) -> Seq<char>;

    /// Append the rendered form to `out`.
    fn push_dbg(&self, out: &mut Vec<char>)
        ensures
            final(out)@ == old(out)@ + self.dbg_spec(),
    ;
}

impl DebugView for i64 {
    open spec fn dbg_spec(&self) -> Seq<char> {
        dec_seq_i64(*self as int)
    }

    fn push_dbg(&self, out: &mut Vec<char>) {
        push_i64_dec(out, *self);
    }
}

/// The rendered form of a sequence of values, comma-separated.
pub open spec fn seq_dbg_spec<T: DebugView>(s: Seq<T>) -> Seq<char>
    decreases s.len(),
{
    if s.len() == 0 {
        Seq::empty()
    } else if s.len() == 1 {
        s[0].dbg_spec()
    } else {
        seq_dbg_spec(s.drop_last()) + seq![',', ' '] + s.last().dbg_spec()
    }
}

impl<T: DebugView> DebugView for Vec<T> {
    /// A vector renders as its elements, comma-separated, in brackets.
    open spec fn dbg_spec(&self) -> Seq<char> {
        seq!['['] + seq_dbg_spec(self@) + seq![']']
    }

    fn push_dbg(&self, out: &mut Vec<char>) {
        out.push('[');
        let ghost start = out@;
        let mut i: usize = 0;
        while i < self.len()
            invariant
                i <= self@.len(),
                out@ == start + seq_dbg_spec(self@.take(i as int)),
            decreases self@.len() - i,
        {
            let ghost out0 = out@;
            if i > 0 {
                out.push(',');
                out.push(' ');
            }
            self[i].push_dbg(out);
            proof {
                assert(self@.take(i as int + 1).drop_last() =~= self@.take(i as int));
                assert(self@.take(i as int + 1).last() == self@[i as int]);
                if i == 0 {
                    assert(seq_dbg_spec(self@.take(1)) =~= self@[0].dbg_spec());
                    assert(out@ =~= start + seq_dbg_spec(self@.take(i as int + 1)));
                } else {
                    assert(seq_dbg_spec(self@.take(i as int + 1)) =~= seq_dbg_spec(
                        self@.take(i as int),
                    ) + seq![',', ' '] + self@[i as int].dbg_spec());
                    assert(out@ =~= start + seq_dbg_spec(self@.take(i as int + 1)));
                }
            }
            i += 1;
        }
        out.push(']');
        proof {
            assert(self@.take(self@.len() as int) =~= self@);
            assert(out@ =~= old(out)@ + self.dbg_spec());
        }
    }
}

/// Build a `String` from the accumulated characters.
///
/// Relies on `String: FromIterator<char>`: collecting the characters of a
/// vector yields the string of exactly those characters in order.
#[verifier::external_body]
pub fn string_from_chars(v: &Vec<char>) -> (s: String)
    ensures
        s@ == v@,
{
    v.iter().collect()
}

} // verus!
