//! The sequence matcher: an actual sequence checked element by element
//! against a fixed list of per-position matchers.
//!
//! [`ElementsAre`] requires the actual sequence to have exactly one
//! element per matcher, each matching its position. The verdict drives a
//! zipped traversal and may stop at the first failure; the explanation
//! pass always re-traverses every position to gather the complete list of
//! failing positions.

use vstd::prelude::*;
use vstd::string::StringExecFns;

use crate::description::{Description, bullet_spec, indent_spec, join_spec};
use crate::matcher::{MatchExplanation, Matcher, MatcherResult};
use crate::text::{DebugView, append_chars, append_str, chars_to_vec, dec_seq, push_u64_dec,
    string_from_chars};
use crate::zipped_iterator::zip;

verus! {

/// The number of positions both the matchers and the actual sequence cover.
pub open spec fn zip_len<M, T>(ms: Seq<M>, actual: Seq<T>) -> int {
    if ms.len() <= actual.len() {
        ms.len() as int
    } else {
        actual.len() as int
    }
}

/// The mismatch fragment for position `i`: the position, the actual
/// element, and the position matcher's own explanation.
pub open spec fn frag_spec<T: DebugView, M: Matcher<T>>(m: M, i: int, a: T) -> Seq<char> {
    "element #"@ + dec_seq(i) + " is "@ + a.dbg_spec() + ", "@ + m.explain_spec(a)
}

/// The mismatch fragments of all failing positions at or after `i`.
pub open spec fn frags_from<T: DebugView, M: Matcher<T>>(
    ms: Seq<M>,
    actual: Seq<T>,
    i: int,
) -> Seq<Seq<char>>
    decreases zip_len(ms, actual) - i,
{
    if i < 0 || i >= zip_len(ms, actual) {
        Seq::empty()
    } else {
        let rest = frags_from(ms, actual, i + 1);
        if !ms[i].matches_spec(actual[i]) {
            seq![frag_spec(ms[i], i, actual[i])] + rest
        } else {
            rest
        }
    }
}

/// The self-descriptions of the matchers, one fragment each.
pub open spec fn describes_spec<T, M: Matcher<T>>(ms: Seq<M>) -> Seq<Seq<char>> {
    ms.map_values(|m: M| m.describe_spec(MatcherResult::Matches))
}

/// Matches a sequence whose elements match the given matchers, one per
/// position, in order.
pub struct ElementsAre<M> {
    elements: Vec<M>,
}

impl<M> ElementsAre<M> {
    /// The per-position matchers.
    pub closed spec fn elements_spec(&self) -> Seq<M> {
        self.elements@
    }

    /// A sequence matcher from per-position matchers, one per element.
    pub fn new(elements: Vec<M>) -> (m: Self)
        ensures
            m.elements_spec() == elements@,
    {
        ElementsAre { elements }
    }
}

impl<T: DebugView, M: Matcher<T>> Matcher<Vec<T>> for ElementsAre<M> {
    /// The actual sequence matches when it has exactly one element per
    /// position matcher and every position matches.
    open spec fn matches_spec(&self, actual: Vec<T>) -> bool {
        &&& actual@.len() == self.elements_spec().len()
        &&& forall|i: int|
            0 <= i < actual@.len() ==> self.elements_spec()[i].matches_spec(actual@[i])
    }

    /// The explanation: all failing positions, or the observed size on a
    /// pure size mismatch, or that all elements match.
    open spec fn explain_spec(&self, actual: Vec<T>) -> Seq<char> {
        let fs = frags_from(self.elements_spec(), actual@, 0);
        if fs.len() == 0 && actual@.len() == self.elements_spec().len() {
            "whose elements all match"@
        } else if fs.len() == 0 {
            "whose size is "@ + dec_seq(actual@.len() as int)
        } else if fs.len() == 1 {
            "where "@ + fs[0]
        } else {
            "where:\n"@ + join_spec(indent_spec(bullet_spec(fs)))
        }
    }

    /// The description: whether the sequence has the expected elements,
    /// followed by each position matcher's own description, enumerated
    /// and indented.
    open spec fn describe_spec(&self, result: MatcherResult) -> Seq<char> {
        (if result is Matches {
            "has elements:\n"@
        } else {
            "doesn't have elements:\n"@
        }) + join_spec(
            indent_spec(
                crate::description::enumerate_spec(describes_spec(self.elements_spec())),
            ),
        )
    }

    fn matches(&self, actual: &Vec<T>) -> (r: MatcherResult) {
        let mut zipped_iterator = zip(actual, &self.elements);
        let n_min = if actual.len() <= self.elements.len() {
            actual.len()
        } else {
            self.elements.len()
        };
        let mut i: usize = 0;
        while i < n_min
            invariant
                i <= n_min,
                n_min as int == zip_len(self.elements@, actual@),
                zipped_iterator.left_spec() == actual@,
                zipped_iterator.right_spec() == self.elements@,
                zipped_iterator.pos_spec() == i as int,
                !zipped_iterator.mismatch_spec(),
                zipped_iterator.wf(),
                forall|k: int| 0 <= k < i ==> self.elements@[k].matches_spec(actual@[k]),
            decreases n_min - i,
        {
            let pair_opt = zipped_iterator.next();
            match pair_opt {
                Some(pair) => {
                    let verdict = pair.1.matches(pair.0);
                    match verdict {
                        MatcherResult::DoesNotMatch => {
                            proof {
                                if self.matches_spec(*actual) {
                                    assert(self.elements_spec()[i as int].matches_spec(
                                        actual@[i as int],
                                    ));
                                }
                            }
                            return MatcherResult::DoesNotMatch;
                        },
                        MatcherResult::Matches => {},
                    }
                },
                None => {
                    proof {
                        assert(false);
                    }
                },
            }
            i += 1;
        }
        let tail = zipped_iterator.next();
        if zipped_iterator.has_size_mismatch() {
            MatcherResult::DoesNotMatch
        } else {
            MatcherResult::Matches
        }
    }

    fn explain_match(&self, actual: &Vec<T>) -> (e: MatchExplanation) {
        let actual_size = actual.len();
        let mut zipped_iterator = zip(actual, &self.elements);
        let n_min = if actual.len() <= self.elements.len() {
            actual.len()
        } else {
            self.elements.len()
        };
        let mut mismatches = Description::new();
        proof {
            assert(Seq::<Seq<char>>::empty() + frags_from(self.elements@, actual@, 0)
                =~= frags_from(self.elements@, actual@, 0));
        }
        let mut i: usize = 0;
        while i < n_min
            invariant
                i <= n_min,
                n_min as int == zip_len(self.elements@, actual@),
                zipped_iterator.left_spec() == actual@,
                zipped_iterator.right_spec() == self.elements@,
                zipped_iterator.pos_spec() == i as int,
                !zipped_iterator.mismatch_spec(),
                zipped_iterator.wf(),
                mismatches@ + frags_from(self.elements@, actual@, i as int) == frags_from(
                    self.elements@,
                    actual@,
                    0,
                ),
            decreases n_min - i,
        {
            let ghost collected0 = mismatches@;
            let pair_opt = zipped_iterator.next();
            match pair_opt {
                Some(pair) => {
                    let verdict = pair.1.matches(pair.0);
                    match verdict {
                        MatcherResult::DoesNotMatch => {
                            let mut f: Vec<char> = Vec::new();
                            append_str(&mut f, "element #");
                            push_u64_dec(&mut f, i as u64);
                            append_str(&mut f, " is ");
                            pair.0.push_dbg(&mut f);
                            append_str(&mut f, ", ");
                            let ex = pair.1.explain_match(pair.0);
                            append_str(&mut f, ex.as_str());
                            proof {
                                assert(f@ =~= frag_spec(
                                    self.elements@[i as int],
                                    i as int,
                                    actual@[i as int],
                                ));
                            }
                            let ghost fv = f@;
                            mismatches.push(f);
                            proof {
                                assert(frags_from(self.elements@, actual@, i as int) =~= seq![fv]
                                    + frags_from(self.elements@, actual@, i as int + 1));
                                assert(collected0.push(fv) + frags_from(
                                    self.elements@,
                                    actual@,
                                    i as int + 1,
                                ) =~= collected0 + (seq![fv] + frags_from(
                                    self.elements@,
                                    actual@,
                                    i as int + 1,
                                )));
                            }
                        },
                        MatcherResult::Matches => {
                            proof {
                                assert(frags_from(self.elements@, actual@, i as int) == frags_from(
                                    self.elements@,
                                    actual@,
                                    i as int + 1,
                                ));
                            }
                        },
                    }
                },
                None => {
                    proof {
                        assert(false);
                    }
                },
            }
            i += 1;
        }
        let tail = zipped_iterator.next();
        proof {
            assert(frags_from(self.elements@, actual@, n_min as int) =~= Seq::<Seq<char>>::empty());
            assert(mismatches@ =~= frags_from(self.elements@, actual@, 0));
        }
        let n_frags = mismatches.len();
        if n_frags == 0 {
            if !zipped_iterator.has_size_mismatch() {
                MatchExplanation::create(String::from_str("whose elements all match"))
            } else {
                let mut v: Vec<char> = Vec::new();
                append_str(&mut v, "whose size is ");
                push_u64_dec(&mut v, actual_size as u64);
                MatchExplanation::create(string_from_chars(&v))
            }
        } else if n_frags == 1 {
            let rendered = mismatches.render();
            let mut v: Vec<char> = Vec::new();
            append_str(&mut v, "where ");
            append_chars(&mut v, &rendered);
            MatchExplanation::create(string_from_chars(&v))
        } else {
            let formatted = mismatches.bullet_list().indent();
            let rendered = formatted.render();
            let mut v: Vec<char> = Vec::new();
            append_str(&mut v, "where:\n");
            append_chars(&mut v, &rendered);
            MatchExplanation::create(string_from_chars(&v))
        }
    }

    fn describe(&self, matcher_result: MatcherResult) -> (s: String) {
        let mut d = Description::new();
        proof {
            assert(describes_spec::<T, M>(self.elements@).take(0) =~= Seq::<Seq<char>>::empty());
        }
        let mut i: usize = 0;
        while i < self.elements.len()
            invariant
                i <= self.elements@.len(),
                d@ == describes_spec::<T, M>(self.elements@).take(i as int),
            decreases self.elements@.len() - i,
        {
            let m = &self.elements[i];
            let txt = m.describe(MatcherResult::Matches);
            let f = chars_to_vec(txt.as_str());
            let ghost d0 = d@;
            let ghost fv = f@;
            d.push(f);
            proof {
                assert(describes_spec::<T, M>(self.elements@).take(i as int + 1) =~= d0.push(fv));
            }
            i += 1;
        }
        proof {
            assert(describes_spec::<T, M>(self.elements@).take(self.elements@.len() as int)
                =~= describes_spec::<T, M>(self.elements@));
        }
        let formatted = d.enumerate().indent();
        let rendered = formatted.render();
        let mut v: Vec<char> = Vec::new();
        match matcher_result {
            MatcherResult::Matches => append_str(&mut v, "has elements:\n"),
            MatcherResult::DoesNotMatch => append_str(&mut v, "doesn't have elements:\n"),
        }
        append_chars(&mut v, &rendered);
        string_from_chars(&v)
    }
}

} // verus!
