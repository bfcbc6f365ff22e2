//! The Description service: text fragments rendered as an indentable,
//! bulleted or enumerated block.
//!
//! A [`Description`] accumulates fragments (each possibly multi-line) and
//! renders them joined by newlines. `bullet_list` puts `* ` before each
//! fragment and two spaces before its continuation lines; `enumerate`
//! numbers each fragment and aligns continuation lines under the text;
//! `indent` puts two spaces before every line. Failure-message golden
//! tests depend on these exact glyphs and widths.

use vstd::prelude::*;

use crate::text::{append_chars, append_padded, append_str, dec_seq, make_spaces, pad_lines,
    push_u64_dec, spaces};

verus! {

/// A fragment as a bullet-list item.
pub open spec fn bullet_frag(f: Seq<char>) -> Seq<char> {
    "* "@ + pad_lines(f, spaces(2))
}

/// Fragments as a bullet list.
pub open spec fn bullet_spec(fs: Seq<Seq<char>>) -> Seq<Seq<char>> {
    fs.map_values(|f: Seq<char>| bullet_frag(f))
}

/// Fragment number `i` as an enumerated-list item: the number and a dot,
/// with continuation lines aligned under the fragment text.
pub open spec fn enum_frag(f: Seq<char>, i: int) -> Seq<char> {
    let label = dec_seq(i) + ". "@;
    label + pad_lines(f, spaces(label.len() as int))
}

/// Fragments as an enumerated list.
pub open spec fn enumerate_spec(fs: Seq<Seq<char>>) -> Seq<Seq<char>> {
    fs.map(|i: int, f: Seq<char>| enum_frag(f, i))
}

/// A fragment indented by two spaces on every line.
pub open spec fn indent_frag(f: Seq<char>) -> Seq<char> {
    spaces(2) + pad_lines(f, spaces(2))
}

/// Fragments each indented by two spaces on every line.
pub open spec fn indent_spec(fs: Seq<Seq<char>>) -> Seq<Seq<char>> {
    fs.map_values(|f: Seq<char>| indent_frag(f))
}

/// Fragments joined with newlines.
pub open spec fn join_spec(fs: Seq<Seq<char>>) -> Seq<char>
    decreases fs.len(),
{
    if fs.len() == 0 {
        Seq::empty()
    } else if fs.len() == 1 {
        fs[0]
    } else {
        join_spec(fs.drop_last()) + seq!['\n'] + fs.last()
    }
}

/// Accumulates human-readable text fragments and renders them as a
/// block, optionally as a bulleted or enumerated, indented list.
pub struct Description {
    elements: Vec<Vec<char>>,
}

impl View for Description {
    type V = Seq<Seq<char>>;

    closed spec fn view(&self) -> Seq<Seq<char>> {
        self.elements@.map_values(|e: Vec<char>| e@)
    }
}

impl Description {
    /// An empty description.
    pub fn new() -> (d: Self)
        ensures
            d@ == Seq::<Seq<char>>::empty(),
    {
        let d = Description { elements: Vec::new() };
        proof {
            assert(d@ =~= Seq::<Seq<char>>::empty());
        }
        d
    }

    /// Append one fragment.
    pub fn push(&mut self, fragment: Vec<char>)
        ensures
            final(self)@ == old(self)@.push(fragment@),
    {
        let ghost snap = self@;
        self.elements.push(fragment);
        proof {
            assert(self@ =~= snap.push(fragment@));
        }
    }

    /// The number of fragments.
    pub fn len(&self) -> (n: usize)
        ensures
            n == self@.len(),
    {
        self.elements.len()
    }

    /// Turn each fragment into a bullet-list item.
    pub fn bullet_list(self) -> (d: Self)
        ensures
            d@ == bullet_spec(self@),
    {
        let pad = make_spaces(2);
        let mut out: Vec<Vec<char>> = Vec::new();
        let mut i: usize = 0;
        while i < self.elements.len()
            invariant
                i <= self.elements@.len(),
                pad@ == spaces(2),
                out@.map_values(|e: Vec<char>| e@) == bullet_spec(self@).take(i as int),
            decreases self.elements@.len() - i,
        {
            let mut f: Vec<char> = Vec::new();
            append_str(&mut f, "* ");
            append_padded(&mut f, &self.elements[i], &pad);
            let ghost out0 = out@;
            let ghost fv = f@;
            out.push(f);
            proof {
                assert(fv =~= bullet_frag(self@[i as int]));
                assert(out@.map_values(|e: Vec<char>| e@) =~= out0.map_values(
                    |e: Vec<char>| e@,
                ).push(fv));
                assert(bullet_spec(self@).take(i as int + 1) =~= bullet_spec(self@).take(
                    i as int,
                ).push(bullet_spec(self@)[i as int]));
                assert(bullet_spec(self@)[i as int] == bullet_frag(self@[i as int]));
            }
            i += 1;
        }
        proof {
            assert(bullet_spec(self@).take(self.elements@.len() as int) =~= bullet_spec(self@));
        }
        Description { elements: out }
    }

    /// Number the fragments, aligning continuation lines under the text.
    pub fn enumerate(self) -> (d: Self)
        ensures
            d@ == enumerate_spec(self@),
    {
        let mut out: Vec<Vec<char>> = Vec::new();
        let mut i: usize = 0;
        while i < self.elements.len()
            invariant
                i <= self.elements@.len(),
                out@.map_values(|e: Vec<char>| e@) == enumerate_spec(self@).take(i as int),
            decreases self.elements@.len() - i,
        {
            let mut f: Vec<char> = Vec::new();
            push_u64_dec(&mut f, i as u64);
            append_str(&mut f, ". ");
            let labellen = f.len();
            let pad = make_spaces(labellen);
            proof {
                assert(f@ == dec_seq(i as int) + ". "@);
            }
            append_padded(&mut f, &self.elements[i], &pad);
            let ghost out0 = out@;
            let ghost fv = f@;
            out.push(f);
            proof {
                assert(fv =~= enum_frag(self@[i as int], i as int));
                assert(out@.map_values(|e: Vec<char>| e@) =~= out0.map_values(
                    |e: Vec<char>| e@,
                ).push(fv));
                assert(enumerate_spec(self@).take(i as int + 1) =~= enumerate_spec(self@).take(
                    i as int,
                ).push(enumerate_spec(self@)[i as int]));
                assert(enumerate_spec(self@)[i as int] == enum_frag(self@[i as int], i as int));
            }
            i += 1;
        }
        proof {
            assert(enumerate_spec(self@).take(self.elements@.len() as int) =~= enumerate_spec(
                self@,
            ));
        }
        Description { elements: out }
    }

    /// Indent every line of every fragment by two spaces.
    pub fn indent(self) -> (d: Self)
        ensures
            d@ == indent_spec(self@),
    {
        let pad = make_spaces(2);
        let mut out: Vec<Vec<char>> = Vec::new();
        let mut i: usize = 0;
        while i < self.elements.len()
            invariant
                i <= self.elements@.len(),
                pad@ == spaces(2),
                out@.map_values(|e: Vec<char>| e@) == indent_spec(self@).take(i as int),
            decreases self.elements@.len() - i,
        {
            let mut f: Vec<char> = Vec::new();
            append_chars(&mut f, &pad);
            append_padded(&mut f, &self.elements[i], &pad);
            let ghost out0 = out@;
            let ghost fv = f@;
            out.push(f);
            proof {
                assert(fv =~= indent_frag(self@[i as int]));
                assert(out@.map_values(|e: Vec<char>| e@) =~= out0.map_values(
                    |e: Vec<char>| e@,
                ).push(fv));
                assert(indent_spec(self@).take(i as int + 1) =~= indent_spec(self@).take(
                    i as int,
                ).push(indent_spec(self@)[i as int]));
                assert(indent_spec(self@)[i as int] == indent_frag(self@[i as int]));
            }
            i += 1;
        }
        proof {
            assert(indent_spec(self@).take(self.elements@.len() as int) =~= indent_spec(self@));
        }
        Description { elements: out }
    }

    /// The fragments joined with newlines.
    pub fn render(&self) -> (v: Vec<char>)
        ensures
            v@ == join_spec(self@),
    {
        let mut v: Vec<char> = Vec::new();
        let mut i: usize = 0;
        while i < self.elements.len()
            invariant
                i <= self.elements@.len(),
                v@ == join_spec(self@.take(i as int)),
            decreases self.elements@.len() - i,
        {
            if i > 0 {
                v.push('\n');
            }
            append_chars(&mut v, &self.elements[i]);
            proof {
                assert(self@.take(i as int + 1).drop_last() =~= self@.take(i as int));
                assert(self@.take(i as int + 1).last() == self@[i as int]);
                if i == 0 {
                    assert(v@ =~= join_spec(self@.take(1)));
                } else {
                    assert(v@ =~= join_spec(self@.take(i as int)) + seq!['\n'] + self@[i as int]);
                    assert(v@ =~= join_spec(self@.take(i as int + 1)));
                }
            }
            i += 1;
        }
        proof {
            assert(self@.take(self.elements@.len() as int) =~= self@);
        }
        v
    }
}

} // verus!
