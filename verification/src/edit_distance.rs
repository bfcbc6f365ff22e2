//! Minimum-cost edit alignment of two sequences.
//!
//! [`edit_list`] computes a minimum-total-cost sequence of [`Edit`]s that
//! transforms a left sequence into a right one, by the classic dynamic
//! program over a dense table of prefix costs, generalized from 0/1 costs
//! to an arbitrary non-negative rational distance between elements.
//!
//! The executable engine is pinned to the specification functions [`cell`]
//! (the minimal cost of aligning two prefixes), [`pick`] (which of the
//! three candidate predecessors a cell keeps, ties broken in evaluation
//! order: deletion, then insertion, then aligned pair), and [`path`] (the
//! exact edit sequence the traceback yields).

use vstd::prelude::*;

use crate::cost::{
    Cost,
    cost_add,
    cost_le,
    cost_limit,
    cost_one,
    cost_wf,
    cost_zero,
    lemma_cost_add_wf,
};
use crate::text::{chars_to_vec, eq_chars};

verus! {

/// An element type with a distance metric, as the alignment engine needs it.
///
/// The metric controls when the engine prefers one [`Edit::Both`] over a
/// pair of [`Edit::ExtraLeft`] and [`Edit::ExtraRight`].
pub trait Distance: Sized + Copy {
    /// The distance between two elements, as a rational numerator/denominator pair.
    spec fn dist_spec(l: Self, r: Self) -> (int, int);

    /// Distances are well-formed, and an element is at distance zero from itself.
    proof fn dist_spec_laws(l: Self, r: Self)
        ensures
            cost_wf(Self::dist_spec(l, r)),
            Self::dist_spec(l, l) == cost_zero(),
    ;

    /// Compute the distance between two elements.
    fn distance(l: Self, r: Self) -> (c: Cost)
        ensures
            c.wf(),
            c@ == Self::dist_spec(l, r),
    ;
}

/// An edit operation on two sequences of `T`.
#[derive(Clone, Copy, Debug)]
pub enum Edit<T> {
    /// An extra `T` was present in the left sequence.
    ExtraLeft { left: T },
    /// An extra `T` was present in the right sequence.
    ExtraRight { right: T },
    /// An element of each sequence was aligned, at the recorded distance.
    Both { left: T, right: T, distance: Cost },
}

/// The shape of an edit, without the recorded distance.
pub enum Step<T> {
    /// An extra element of the left sequence.
    ExtraLeft { left: T },
    /// An extra element of the right sequence.
    ExtraRight { right: T },
    /// An aligned pair.
    Both { left: T, right: T },
}

/// Which predecessor a table cell keeps.
#[derive(Clone, Copy, Debug, PartialEq, Eq, Structural)]
pub enum Choice {
    /// Drop the last element of the left prefix.
    Del,
    /// Drop the last element of the right prefix.
    Ins,
    /// Align the two last elements.
    Diag,
}

/// The shape of an edit.
pub open spec fn step_of<T>(e: Edit<T>) -> Step<T> {
    match e {
        Edit::ExtraLeft { left } => Step::ExtraLeft { left },
        Edit::ExtraRight { right } => Step::ExtraRight { right },
        Edit::Both { left, right, .. } => Step::Both { left, right },
    }
}

/// The shapes of a sequence of edits.
pub open spec fn steps_of<T>(s: Seq<Edit<T>>) -> Seq<Step<T>> {
    s.map_values(|e: Edit<T>| step_of(e))
}

/// Whether an edit records the true distance of its aligned pair.
pub open spec fn edit_cost_ok<T: Distance>(e: Edit<T>) -> bool {
    match e {
        Edit::Both { left, right, distance } => distance.wf() && distance@ == T::dist_spec(
            left,
            right,
        ),
        _ => true,
    }
}

/// The minimal cost of aligning `l` with `r`.
///
/// Aligning with an empty sequence costs one unit per remaining element;
/// otherwise a cell keeps the cheapest of deleting the last left element,
/// inserting the last right element, or aligning the two last elements at
/// their distance.
pub open spec fn cell<T: Distance>(l: Seq<T>, r: Seq<T>) -> (int, int)
    decreases l.len() + r.len(),
{
    if l.len() == 0 && r.len() == 0 {
        cost_zero()
    } else if r.len() == 0 {
        cost_add(cell::<T>(l.drop_last(), r), cost_one())
    } else if l.len() == 0 {
        cost_add(cell::<T>(l, r.drop_last()), cost_one())
    } else {
        let del = cost_add(cell::<T>(l.drop_last(), r), cost_one());
        let ins = cost_add(cell::<T>(l, r.drop_last()), cost_one());
        let both = cost_add(
            cell::<T>(l.drop_last(), r.drop_last()),
            T::dist_spec(l.last(), r.last()),
        );
        if cost_le(del, ins) && cost_le(del, both) {
            del
        } else if cost_le(ins, both) {
            ins
        } else {
            both
        }
    }
}

/// The predecessor a cell keeps: ties prefer the deletion, then the
/// insertion, then the aligned pair, in evaluation order.
pub open spec fn pick<T: Distance>(l: Seq<T>, r: Seq<T>) -> Choice {
    if l.len() == 0 && r.len() == 0 {
        Choice::Diag
    } else if r.len() == 0 {
        Choice::Del
    } else if l.len() == 0 {
        Choice::Ins
    } else {
        let del = cost_add(cell::<T>(l.drop_last(), r), cost_one());
        let ins = cost_add(cell::<T>(l, r.drop_last()), cost_one());
        let both = cost_add(
            cell::<T>(l.drop_last(), r.drop_last()),
            T::dist_spec(l.last(), r.last()),
        );
        if cost_le(del, ins) && cost_le(del, both) {
            Choice::Del
        } else if cost_le(ins, both) {
            Choice::Ins
        } else {
            Choice::Diag
        }
    }
}

/// The edit sequence the engine returns: the traceback of [`pick`] choices,
/// in left-to-right order.
pub open spec fn path<T: Distance>(l: Seq<T>, r: Seq<T>) -> Seq<Step<T>>
    decreases l.len() + r.len(),
{
    if l.len() == 0 && r.len() == 0 {
        Seq::empty()
    } else if r.len() == 0 {
        path::<T>(l.drop_last(), r).push(Step::ExtraLeft { left: l.last() })
    } else if l.len() == 0 {
        path::<T>(l, r.drop_last()).push(Step::ExtraRight { right: r.last() })
    } else {
        match pick::<T>(l, r) {
            Choice::Del => path::<T>(l.drop_last(), r).push(Step::ExtraLeft { left: l.last() }),
            Choice::Ins => path::<T>(l, r.drop_last()).push(Step::ExtraRight { right: r.last() }),
            Choice::Diag => path::<T>(l.drop_last(), r.drop_last()).push(
                Step::Both { left: l.last(), right: r.last() },
            ),
        }
    }
}

/// Taking one more element and dropping it lands on the shorter prefix.
pub proof fn lemma_take_unfold<T>(s: Seq<T>, i: int)
    requires
        1 <= i <= s.len(),
    ensures
        s.take(i).drop_last() == s.take(i - 1),
        s.take(i).last() == s[i - 1],
        s.take(i).len() == i,
{
    assert(s.take(i).drop_last() =~= s.take(i - 1));
}

/// Every cell cost is a well-formed rational.
pub proof fn lemma_cell_wf<T: Distance>(l: Seq<T>, r: Seq<T>)
    ensures
        cost_wf(cell::<T>(l, r)),
    decreases l.len() + r.len(),
{
    if l.len() == 0 && r.len() == 0 {
    } else if r.len() == 0 {
        lemma_cell_wf::<T>(l.drop_last(), r);
        lemma_cost_add_wf(cell::<T>(l.drop_last(), r), cost_one());
    } else if l.len() == 0 {
        lemma_cell_wf::<T>(l, r.drop_last());
        lemma_cost_add_wf(cell::<T>(l, r.drop_last()), cost_one());
    } else {
        lemma_cell_wf::<T>(l.drop_last(), r);
        lemma_cell_wf::<T>(l, r.drop_last());
        lemma_cell_wf::<T>(l.drop_last(), r.drop_last());
        T::dist_spec_laws(l.last(), r.last());
        lemma_cost_add_wf(cell::<T>(l.drop_last(), r), cost_one());
        lemma_cost_add_wf(cell::<T>(l, r.drop_last()), cost_one());
        lemma_cost_add_wf(
            cell::<T>(l.drop_last(), r.drop_last()),
            T::dist_spec(l.last(), r.last()),
        );
    }
}

/// Index of cell `(a, b)` in a table whose first dimension has extent `n + 1`.
pub open spec fn tidx(n: int, a: int, b: int) -> int {
    a + (n + 1) * b
}

/// One cell of the alignment table: the prefix cost and the kept predecessor.
struct TableEntry {
    cost: Cost,
    choice: Choice,
}

/// What a filled cell `(a, b)` must hold.
spec fn entry_ok<T: Distance>(e: TableEntry, l: Seq<T>, r: Seq<T>, a: int, b: int) -> bool {
    &&& e.cost.wf()
    &&& e.cost@ == cell::<T>(l.take(a), r.take(b))
    &&& e.choice == pick::<T>(l.take(a), r.take(b))
}

/// Every filled cell of the table is correct for its coordinates.
spec fn table_ok<T: Distance>(tab: Seq<TableEntry>, l: Seq<T>, r: Seq<T>) -> bool {
    forall|a: int, b: int|
        0 <= a <= l.len() && 0 <= b <= r.len() && #[trigger] tidx(l.len() as int, a, b) < tab.len()
            ==> entry_ok::<T>(tab[tidx(l.len() as int, a, b)], l, r, a, b)
}

/// Cell coordinates are recoverable from the flat index.
proof fn lemma_tidx_inj(n: int, a1: int, b1: int, a2: int, b2: int)
    requires
        0 <= a1 <= n,
        0 <= a2 <= n,
        0 <= b1,
        0 <= b2,
        tidx(n, a1, b1) == tidx(n, a2, b2),
    ensures
        a1 == a2,
        b1 == b2,
{
    assert(a1 == a2 && b1 == b2) by (nonlinear_arith)
        requires
            0 <= a1 <= n && 0 <= a2 <= n && 0 <= b1 && 0 <= b2 && a1 + (n + 1) * b1 == a2 + (n + 1)
                * b2,
    ;
}

/// Appending the entry for the next cell keeps the table correct.
proof fn lemma_table_push<T: Distance>(
    tab: Seq<TableEntry>,
    l: Seq<T>,
    r: Seq<T>,
    e: TableEntry,
    a: int,
    b: int,
)
    requires
        table_ok::<T>(tab, l, r),
        0 <= a <= l.len(),
        0 <= b <= r.len(),
        tab.len() == tidx(l.len() as int, a, b),
        entry_ok::<T>(e, l, r, a, b),
    ensures
        table_ok::<T>(tab.push(e), l, r),
{
    let n = l.len() as int;
    let tab2 = tab.push(e);
    assert forall|a2: int, b2: int|
        0 <= a2 <= l.len() && 0 <= b2 <= r.len() && #[trigger] tidx(n, a2, b2)
            < tab2.len() implies entry_ok::<T>(tab2[tidx(n, a2, b2)], l, r, a2, b2) by {
        assert(tidx(n, a2, b2) >= 0) by (nonlinear_arith)
            requires
                a2 >= 0 && b2 >= 0 && n >= 0,
        ;
        if tidx(n, a2, b2) < tab.len() {
            assert(tab2[tidx(n, a2, b2)] == tab[tidx(n, a2, b2)]);
        } else {
            lemma_tidx_inj(n, a2, b2, a, b);
            assert(tab2[tidx(n, a2, b2)] == e);
        }
    }
}

/// Fill the whole alignment table for `left` and `right`.
fn fill_table<T: Distance>(left: &Vec<T>, right: &Vec<T>) -> (t: Table<TableEntry>)
    requires
        (left@.len() + 1) * (right@.len() + 1) <= usize::MAX,
    ensures
        t.dim1() == left@.len() + 1,
        t@.len() == tidx(left@.len() as int, left@.len() as int, right@.len() as int) + 1,
        table_ok::<T>(t@, left@, right@),
{
    let n = left.len();
    let p = right.len();
    proof {
        assert(n + 1 <= usize::MAX && p + 1 <= usize::MAX) by (nonlinear_arith)
            requires
                (n as int + 1) * (p as int + 1) <= usize::MAX && n >= 0 && p >= 0,
        ;
    }
    let mut table: Table<TableEntry> = Table::new(n + 1, p + 1);

    table.push(TableEntry { cost: Cost::zero(), choice: Choice::Diag });
    proof {
        lemma_table_push::<T>(Seq::empty(), left@, right@, table@[0], 0, 0);
    }

    let mut idx: usize = 1;
    while idx <= n
        invariant
            1 <= idx <= n + 1,
            n == left@.len(),
            p == right@.len(),
            table.dim1() == n as int + 1,
            table@.len() == idx as int,
            table_ok::<T>(table@, left@, right@),
        decreases n + 1 - idx,
    {
        proof {
            assert(tidx(n as int, idx as int - 1, 0) == idx as int - 1);
        }
        let prev_cost = table.at(idx - 1, 0).cost;
        let c = prev_cost.add(&Cost::one());
        let ghost tab0 = table@;
        table.push(TableEntry { cost: c, choice: Choice::Del });
        proof {
            lemma_take_unfold(left@, idx as int);
            assert(tidx(n as int, idx as int, 0) == idx as int);
            lemma_table_push::<T>(
                tab0,
                left@,
                right@,
                TableEntry { cost: c, choice: Choice::Del },
                idx as int,
                0,
            );
        }
        idx += 1;
    }

    let mut idy: usize = 1;
    while idy <= p
        invariant
            1 <= idy <= p + 1,
            p as int + 1 <= usize::MAX,
            n == left@.len(),
            p == right@.len(),
            table.dim1() == n as int + 1,
            table@.len() == tidx(n as int, 0, idy as int),
            table_ok::<T>(table@, left@, right@),
        decreases p + 1 - idy,
    {
        proof {
            assert((n as int + 1) * (idy as int) == (n as int + 1) * (idy as int - 1) + (n as int
                + 1)) by (nonlinear_arith);
            assert(tidx(n as int, 0, idy as int - 1) < table@.len());
        }
        let prev_cost = table.at(0, idy - 1).cost;
        let c = prev_cost.add(&Cost::one());
        let ghost tab0 = table@;
        table.push(TableEntry { cost: c, choice: Choice::Ins });
        proof {
            lemma_take_unfold(right@, idy as int);
            lemma_table_push::<T>(
                tab0,
                left@,
                right@,
                TableEntry { cost: c, choice: Choice::Ins },
                0,
                idy as int,
            );
        }

        let mut idx: usize = 1;
        while idx <= n
            invariant
                1 <= idx <= n + 1,
                1 <= idy <= p,
                n == left@.len(),
                p == right@.len(),
                table.dim1() == n as int + 1,
                table@.len() == tidx(n as int, idx as int, idy as int),
                table_ok::<T>(table@, left@, right@),
            decreases n + 1 - idx,
        {
            proof {
                assert((n as int + 1) * (idy as int) == (n as int + 1) * (idy as int - 1) + (n
                    as int + 1)) by (nonlinear_arith);
                assert(tidx(n as int, idx as int - 1, idy as int) < table@.len());
                assert(tidx(n as int, idx as int, idy as int - 1) < table@.len());
                assert(tidx(n as int, idx as int - 1, idy as int - 1) < table@.len());
            }
            let del_cost = table.at(idx - 1, idy).cost;
            let ins_cost = table.at(idx, idy - 1).cost;
            let diag_cost = table.at(idx - 1, idy - 1).cost;
            let le = left[idx - 1];
            let re = right[idy - 1];
            let del_c = del_cost.add(&Cost::one());
            let ins_c = ins_cost.add(&Cost::one());
            let dist = T::distance(le, re);
            let both_c = diag_cost.add(&dist);
            let entry = if del_c.le(&ins_c) && del_c.le(&both_c) {
                TableEntry { cost: del_c, choice: Choice::Del }
            } else if ins_c.le(&both_c) {
                TableEntry { cost: ins_c, choice: Choice::Ins }
            } else {
                TableEntry { cost: both_c, choice: Choice::Diag }
            };
            let ghost e = entry;
            let ghost tab0 = table@;
            table.push(entry);
            proof {
                lemma_take_unfold(left@, idx as int);
                lemma_take_unfold(right@, idy as int);
                assert(entry_ok::<T>(e, left@, right@, idx as int, idy as int));
                lemma_table_push::<T>(tab0, left@, right@, e, idx as int, idy as int);
            }
            idx += 1;
        }
        proof {
            assert(tidx(n as int, n as int + 1, idy as int) == tidx(n as int, 0, idy as int + 1))
                by (nonlinear_arith);
        }
        idy += 1;
    }
    proof {
        assert(tidx(n as int, 0, p as int + 1) == tidx(n as int, n as int, p as int) + 1)
            by (nonlinear_arith);
    }
    table
}

/// Compute the edit list of `left` and `right`: a minimum-total-cost
/// sequence of edits transforming the left sequence into the right one.
///
/// The result is exactly the traceback [`path`] of the dynamic program,
/// and every [`Edit::Both`] records the true distance of its pair.
pub fn edit_list<T: Distance>(left: &Vec<T>, right: &Vec<T>) -> (edits: Vec<Edit<T>>)
    requires
        (left@.len() + 1) * (right@.len() + 1) <= usize::MAX,
    ensures
        steps_of(edits@) == path::<T>(left@, right@),
        forall|k: int| 0 <= k < edits@.len() ==> edit_cost_ok::<T>(#[trigger] edits@[k]),
{
    let table = fill_table(left, right);
    let n = left.len();
    let p = right.len();
    let mut i = n;
    let mut j = p;
    let mut rev: Vec<Edit<T>> = Vec::new();
    proof {
        assert(left@.take(n as int) =~= left@);
        assert(right@.take(p as int) =~= right@);
        assert(steps_of(rev@).reverse() =~= Seq::<Step<T>>::empty());
        assert(path::<T>(left@, right@) =~= path::<T>(left@.take(n as int), right@.take(p as int))
            + steps_of(rev@).reverse());
    }
    while i > 0 || j > 0
        invariant
            i <= n,
            j <= p,
            n == left@.len(),
            p == right@.len(),
            table.dim1() == n as int + 1,
            table@.len() == tidx(n as int, n as int, p as int) + 1,
            table_ok::<T>(table@, left@, right@),
            path::<T>(left@, right@) == path::<T>(left@.take(i as int), right@.take(j as int))
                + steps_of(rev@).reverse(),
            forall|k: int| 0 <= k < rev@.len() ==> edit_cost_ok::<T>(#[trigger] rev@[k]),
        decreases i + j,
    {
        proof {
            assert((n as int + 1) * (j as int) <= (n as int + 1) * (p as int)) by (nonlinear_arith)
                requires
                    j as int <= p as int && n as int >= 0,
            ;
            assert(tidx(n as int, i as int, j as int) < table@.len());
        }
        let choice = table.at(i, j).choice;
        let ghost i0 = i as int;
        let ghost j0 = j as int;
        let ghost rev0 = rev@;
        let ghost lpre = left@.take(i0);
        let ghost rpre = right@.take(j0);
        let ghost stepped: Step<T>;
        match choice {
            Choice::Del => {
                proof {
                    lemma_take_unfold(left@, i0);
                }
                rev.push(Edit::ExtraLeft { left: left[i - 1] });
                proof {
                    stepped = Step::ExtraLeft { left: left@[i0 - 1] };
                    assert(path::<T>(lpre, rpre) == path::<T>(left@.take(i0 - 1), rpre).push(
                        stepped,
                    ));
                }
                i -= 1;
            },
            Choice::Ins => {
                proof {
                    lemma_take_unfold(right@, j0);
                }
                rev.push(Edit::ExtraRight { right: right[j - 1] });
                proof {
                    stepped = Step::ExtraRight { right: right@[j0 - 1] };
                    assert(path::<T>(lpre, rpre) == path::<T>(lpre, right@.take(j0 - 1)).push(
                        stepped,
                    ));
                }
                j -= 1;
            },
            Choice::Diag => {
                proof {
                    lemma_take_unfold(left@, i0);
                    lemma_take_unfold(right@, j0);
                }
                let dist = T::distance(left[i - 1], right[j - 1]);
                rev.push(
                    Edit::Both { left: left[i - 1], right: right[j - 1], distance: dist },
                );
                proof {
                    stepped = Step::Both { left: left@[i0 - 1], right: right@[j0 - 1] };
                    assert(path::<T>(lpre, rpre) == path::<T>(
                        left@.take(i0 - 1),
                        right@.take(j0 - 1),
                    ).push(stepped));
                }
                i -= 1;
                j -= 1;
            },
        }
        proof {
            assert(steps_of(rev@) =~= steps_of(rev0).push(stepped));
            assert(steps_of(rev@).reverse() =~= seq![stepped] + steps_of(rev0).reverse());
            assert(path::<T>(left@.take(i as int), right@.take(j as int)).push(stepped) + steps_of(
                rev0,
            ).reverse() =~= path::<T>(left@.take(i as int), right@.take(j as int)) + (seq![stepped]
                + steps_of(rev0).reverse()));
        }
    }
    proof {
        assert(path::<T>(left@.take(0), right@.take(0)) =~= Seq::<Step<T>>::empty());
        assert(path::<T>(left@, right@) =~= steps_of(rev@).reverse());
    }
    let mut edits: Vec<Edit<T>> = Vec::new();
    let mut k = rev.len();
    while k > 0
        invariant
            k <= rev@.len(),
            edits@.len() == rev@.len() - k,
            forall|t: int|
                0 <= t < edits@.len() ==> edits@[t] == rev@[rev@.len() - 1 - t],
            forall|t: int| 0 <= t < rev@.len() ==> edit_cost_ok::<T>(#[trigger] rev@[t]),
            path::<T>(left@, right@) == steps_of(rev@).reverse(),
            n == left@.len(),
            p == right@.len(),
        decreases k,
    {
        let e = rev[k - 1];
        edits.push(e);
        k -= 1;
    }
    proof {
        assert(steps_of(edits@) =~= path::<T>(left@, right@));
        assert forall|t: int| 0 <= t < edits@.len() implies edit_cost_ok::<T>(
            #[trigger] edits@[t],
        ) by {
            assert(edits@[t] == rev@[rev@.len() - 1 - t]);
        }
    }
    edits
}

/// The larger of two values.
pub open spec fn max_int(a: int, b: int) -> int {
    if a >= b {
        a
    } else {
        b
    }
}

/// The cost charged for one step: a unit for an extra element, the
/// distance of the pair for an aligned pair.
pub open spec fn step_cost<T: Distance>(s: Step<T>) -> (int, int) {
    match s {
        Step::Both { left, right } => T::dist_spec(left, right),
        _ => cost_one(),
    }
}

/// The total cost of a sequence of steps, accumulated in the order the
/// table accumulates it.
pub open spec fn steps_cost<T: Distance>(s: Seq<Step<T>>) -> (int, int)
    decreases s.len(),
{
    if s.len() == 0 {
        cost_zero()
    } else {
        cost_add(steps_cost::<T>(s.drop_last()), step_cost::<T>(s.last()))
    }
}

/// Law: the total cost of the returned edit path equals the minimal
/// alignment cost of the two sequences.
pub proof fn lemma_path_cost<T: Distance>(l: Seq<T>, r: Seq<T>)
    ensures
        steps_cost::<T>(path::<T>(l, r)) == cell::<T>(l, r),
    decreases l.len() + r.len(),
{
    if l.len() == 0 && r.len() == 0 {
    } else if r.len() == 0 {
        lemma_path_cost::<T>(l.drop_last(), r);
        let sub = path::<T>(l.drop_last(), r);
        let st = Step::<T>::ExtraLeft { left: l.last() };
        assert(sub.push(st).drop_last() =~= sub);
    } else if l.len() == 0 {
        lemma_path_cost::<T>(l, r.drop_last());
        let sub = path::<T>(l, r.drop_last());
        let st = Step::<T>::ExtraRight { right: r.last() };
        assert(sub.push(st).drop_last() =~= sub);
    } else {
        match pick::<T>(l, r) {
            Choice::Del => {
                lemma_path_cost::<T>(l.drop_last(), r);
                let sub = path::<T>(l.drop_last(), r);
                let st = Step::<T>::ExtraLeft { left: l.last() };
                assert(sub.push(st).drop_last() =~= sub);
            },
            Choice::Ins => {
                lemma_path_cost::<T>(l, r.drop_last());
                let sub = path::<T>(l, r.drop_last());
                let st = Step::<T>::ExtraRight { right: r.last() };
                assert(sub.push(st).drop_last() =~= sub);
            },
            Choice::Diag => {
                lemma_path_cost::<T>(l.drop_last(), r.drop_last());
                let sub = path::<T>(l.drop_last(), r.drop_last());
                let st = Step::<T>::Both { left: l.last(), right: r.last() };
                assert(sub.push(st).drop_last() =~= sub);
            },
        }
    }
}

/// The left elements mentioned by a sequence of steps, in order.
pub open spec fn lefts_of<T>(s: Seq<Step<T>>) -> Seq<T>
    decreases s.len(),
{
    if s.len() == 0 {
        Seq::empty()
    } else {
        let rest = lefts_of(s.drop_last());
        match s.last() {
            Step::ExtraRight { .. } => rest,
            Step::ExtraLeft { left } => rest.push(left),
            Step::Both { left, .. } => rest.push(left),
        }
    }
}

/// The right elements mentioned by a sequence of steps, in order.
pub open spec fn rights_of<T>(s: Seq<Step<T>>) -> Seq<T>
    decreases s.len(),
{
    if s.len() == 0 {
        Seq::empty()
    } else {
        let rest = rights_of(s.drop_last());
        match s.last() {
            Step::ExtraLeft { .. } => rest,
            Step::ExtraRight { right } => rest.push(right),
            Step::Both { right, .. } => rest.push(right),
        }
    }
}

/// Law: the edit path spells out exactly the two input sequences: its
/// left elements are `l` in order and its right elements are `r` in
/// order, and its length lies between the longer length and the sum of
/// the lengths.
pub proof fn lemma_path_partition<T: Distance>(l: Seq<T>, r: Seq<T>)
    ensures
        lefts_of(path::<T>(l, r)) == l,
        rights_of(path::<T>(l, r)) == r,
        max_int(l.len() as int, r.len() as int) <= path::<T>(l, r).len() <= l.len() + r.len(),
    decreases l.len() + r.len(),
{
    if l.len() == 0 && r.len() == 0 {
        assert(lefts_of(path::<T>(l, r)) =~= l);
        assert(rights_of(path::<T>(l, r)) =~= r);
    } else if r.len() == 0 {
        lemma_path_partition::<T>(l.drop_last(), r);
        let sub = path::<T>(l.drop_last(), r);
        let st = Step::<T>::ExtraLeft { left: l.last() };
        assert(sub.push(st).drop_last() =~= sub);
        assert(lefts_of(sub.push(st)) =~= l);
    } else if l.len() == 0 {
        lemma_path_partition::<T>(l, r.drop_last());
        let sub = path::<T>(l, r.drop_last());
        let st = Step::<T>::ExtraRight { right: r.last() };
        assert(sub.push(st).drop_last() =~= sub);
        assert(rights_of(sub.push(st)) =~= r);
    } else {
        match pick::<T>(l, r) {
            Choice::Del => {
                lemma_path_partition::<T>(l.drop_last(), r);
                let sub = path::<T>(l.drop_last(), r);
                let st = Step::<T>::ExtraLeft { left: l.last() };
                assert(sub.push(st).drop_last() =~= sub);
                assert(lefts_of(sub.push(st)) =~= l);
            },
            Choice::Ins => {
                lemma_path_partition::<T>(l, r.drop_last());
                let sub = path::<T>(l, r.drop_last());
                let st = Step::<T>::ExtraRight { right: r.last() };
                assert(sub.push(st).drop_last() =~= sub);
                assert(rights_of(sub.push(st)) =~= r);
            },
            Choice::Diag => {
                lemma_path_partition::<T>(l.drop_last(), r.drop_last());
                let sub = path::<T>(l.drop_last(), r.drop_last());
                let st = Step::<T>::Both { left: l.last(), right: r.last() };
                assert(sub.push(st).drop_last() =~= sub);
                assert(lefts_of(sub.push(st)) =~= l);
                assert(rights_of(sub.push(st)) =~= r);
            },
        }
    }
}

/// Law: aligning a sequence with itself costs zero and yields only
/// aligned pairs, each element paired with itself; its traceback is free
/// of deletion/insertion ties.
pub proof fn lemma_align_self<T: Distance>(s: Seq<T>)
    ensures
        cell::<T>(s, s) == cost_zero(),
        path::<T>(s, s).len() == s.len(),
        forall|k: int|
            0 <= k < s.len() ==> path::<T>(s, s)[k] == (Step::Both { left: s[k], right: s[k] }),
        traceback_tie_free::<T>(s, s),
    decreases s.len(),
{
    if s.len() == 0 {
    } else {
        let sd = s.drop_last();
        lemma_align_self::<T>(sd);
        lemma_cell_wf::<T>(sd, s);
        lemma_cell_wf::<T>(s, sd);
        T::dist_spec_laws(s.last(), s.last());
        let del = cost_add(cell::<T>(sd, s), cost_one());
        let ins = cost_add(cell::<T>(s, sd), cost_one());
        lemma_cost_add_wf(cell::<T>(sd, s), cost_one());
        lemma_cost_add_wf(cell::<T>(s, sd), cost_one());
        assert(cost_add(cell::<T>(sd, sd), T::dist_spec(s.last(), s.last())) == cost_zero());
        assert(del.0 >= 1 && ins.0 >= 1 && del.1 >= 1 && ins.1 >= 1) by (nonlinear_arith)
            requires
                cost_wf(del) && cost_wf(ins) && del == cost_add(cell::<T>(sd, s), cost_one())
                    && ins == cost_add(cell::<T>(s, sd), cost_one()) && cost_wf(cell::<T>(sd, s))
                    && cost_wf(cell::<T>(s, sd)),
        ;
        assert(!(del.0 * 1 <= 0 * del.1) && !(ins.0 * 1 <= 0 * ins.1)) by (nonlinear_arith)
            requires
                del.0 >= 1 && del.1 >= 1 && ins.0 >= 1 && ins.1 >= 1,
        ;
        assert(!cost_le(del, cost_zero()) && !cost_le(ins, cost_zero()));
        assert(pick::<T>(s, s) == Choice::Diag);
        assert(cell::<T>(s, s) == cost_zero());
        let sub = path::<T>(sd, sd);
        let st = Step::<T>::Both { left: s.last(), right: s.last() };
        assert(path::<T>(s, s) == sub.push(st));
    }
}

/// Under a metric whose denominators are all 1, every cell cost has
/// denominator 1.
pub proof fn lemma_cell_unit_den<T: Distance>(l: Seq<T>, r: Seq<T>)
    requires
        forall|x: T, y: T| (#[trigger] T::dist_spec(x, y)).1 == 1,
    ensures
        cell::<T>(l, r).1 == 1,
    decreases l.len() + r.len(),
{
    if l.len() == 0 && r.len() == 0 {
    } else if r.len() == 0 {
        lemma_cell_unit_den::<T>(l.drop_last(), r);
    } else if l.len() == 0 {
        lemma_cell_unit_den::<T>(l, r.drop_last());
    } else {
        lemma_cell_unit_den::<T>(l.drop_last(), r);
        lemma_cell_unit_den::<T>(l, r.drop_last());
        lemma_cell_unit_den::<T>(l.drop_last(), r.drop_last());
    }
}

/// Law: the minimal alignment cost is symmetric in its two sequences.
/// Stated for a metric with unit denominators that is itself symmetric,
/// such as the 0/1 character metric.
pub proof fn lemma_align_cost_symmetric<T: Distance>(l: Seq<T>, r: Seq<T>)
    requires
        forall|x: T, y: T| (#[trigger] T::dist_spec(x, y)).1 == 1,
        forall|x: T, y: T| #[trigger] T::dist_spec(x, y) == T::dist_spec(y, x),
    ensures
        cell::<T>(l, r) == cell::<T>(r, l),
    decreases l.len() + r.len(),
{
    if l.len() == 0 && r.len() == 0 {
    } else if r.len() == 0 {
        lemma_align_cost_symmetric::<T>(l.drop_last(), r);
    } else if l.len() == 0 {
        lemma_align_cost_symmetric::<T>(l, r.drop_last());
    } else {
        lemma_align_cost_symmetric::<T>(l.drop_last(), r);
        lemma_align_cost_symmetric::<T>(l, r.drop_last());
        lemma_align_cost_symmetric::<T>(l.drop_last(), r.drop_last());
        lemma_cell_unit_den::<T>(l.drop_last(), r);
        lemma_cell_unit_den::<T>(l, r.drop_last());
        lemma_cell_unit_den::<T>(l.drop_last(), r.drop_last());
        assert(T::dist_spec(l.last(), r.last()) == T::dist_spec(r.last(), l.last()));
    }
}

/// A step with the left and right roles swapped.
pub open spec fn mirror_step<T>(s: Step<T>) -> Step<T> {
    match s {
        Step::ExtraLeft { left } => Step::ExtraRight { right: left },
        Step::ExtraRight { right } => Step::ExtraLeft { left: right },
        Step::Both { left, right } => Step::Both { left: right, right: left },
    }
}

/// A step sequence with the left and right roles swapped.
pub open spec fn mirror_steps<T>(s: Seq<Step<T>>) -> Seq<Step<T>> {
    s.map_values(|st: Step<T>| mirror_step(st))
}

/// Whether the traceback of `l` against `r` never keeps a deletion whose
/// cost ties with the insertion candidate. At such a cell the
/// evaluation-order tie-break is asymmetric in the two sequences; at a
/// cell that keeps an insertion or an aligned pair no such tie can be
/// involved, so only the deletion case carries a condition.
pub open spec fn traceback_tie_free<T: Distance>(l: Seq<T>, r: Seq<T>) -> bool
    decreases l.len() + r.len(),
{
    if l.len() == 0 || r.len() == 0 {
        true
    } else {
        let del = cost_add(cell::<T>(l.drop_last(), r), cost_one());
        let ins = cost_add(cell::<T>(l, r.drop_last()), cost_one());
        match pick::<T>(l, r) {
            Choice::Del => !cost_le(ins, del) && traceback_tie_free::<T>(l.drop_last(), r),
            Choice::Ins => traceback_tie_free::<T>(l, r.drop_last()),
            Choice::Diag => traceback_tie_free::<T>(l.drop_last(), r.drop_last()),
        }
    }
}

/// Law: swapping the two sequences mirrors the edit path — aligned pairs
/// stay aligned pairs with their elements swapped, and extra-left and
/// extra-right edits change places — provided the traceback meets no
/// deletion/insertion tie. Stated, like the cost symmetry, for a
/// symmetric metric with unit denominators.
pub proof fn lemma_align_mirror<T: Distance>(l: Seq<T>, r: Seq<T>)
    requires
        forall|x: T, y: T| (#[trigger] T::dist_spec(x, y)).1 == 1,
        forall|x: T, y: T| #[trigger] T::dist_spec(x, y) == T::dist_spec(y, x),
        traceback_tie_free::<T>(l, r),
    ensures
        path::<T>(r, l) == mirror_steps(path::<T>(l, r)),
    decreases l.len() + r.len(),
{
    if l.len() == 0 && r.len() == 0 {
        assert(path::<T>(r, l) =~= mirror_steps(path::<T>(l, r)));
    } else if r.len() == 0 {
        lemma_align_mirror::<T>(l.drop_last(), r);
        let sub = path::<T>(l.drop_last(), r);
        assert(path::<T>(r, l) == path::<T>(r, l.drop_last()).push(
            Step::ExtraRight { right: l.last() },
        ));
        assert(mirror_steps(sub.push(Step::ExtraLeft { left: l.last() })) =~= mirror_steps(
            sub,
        ).push(Step::ExtraRight { right: l.last() }));
    } else if l.len() == 0 {
        lemma_align_mirror::<T>(l, r.drop_last());
        let sub = path::<T>(l, r.drop_last());
        assert(path::<T>(r, l) == path::<T>(r.drop_last(), l).push(
            Step::ExtraLeft { left: r.last() },
        ));
        assert(mirror_steps(sub.push(Step::ExtraRight { right: r.last() })) =~= mirror_steps(
            sub,
        ).push(Step::ExtraLeft { left: r.last() }));
    } else {
        let del = cost_add(cell::<T>(l.drop_last(), r), cost_one());
        let ins = cost_add(cell::<T>(l, r.drop_last()), cost_one());
        let both = cost_add(
            cell::<T>(l.drop_last(), r.drop_last()),
            T::dist_spec(l.last(), r.last()),
        );
        lemma_align_cost_symmetric::<T>(l.drop_last(), r);
        lemma_align_cost_symmetric::<T>(l, r.drop_last());
        lemma_align_cost_symmetric::<T>(l.drop_last(), r.drop_last());
        assert(T::dist_spec(l.last(), r.last()) == T::dist_spec(r.last(), l.last()));
        let del_m = cost_add(cell::<T>(r.drop_last(), l), cost_one());
        let ins_m = cost_add(cell::<T>(r, l.drop_last()), cost_one());
        let both_m = cost_add(
            cell::<T>(r.drop_last(), l.drop_last()),
            T::dist_spec(r.last(), l.last()),
        );
        assert(del_m == ins && ins_m == del && both_m == both);
        lemma_cell_wf::<T>(l.drop_last(), r);
        lemma_cell_wf::<T>(l, r.drop_last());
        lemma_cell_wf::<T>(l.drop_last(), r.drop_last());
        T::dist_spec_laws(l.last(), r.last());
        lemma_cost_add_wf(cell::<T>(l.drop_last(), r), cost_one());
        lemma_cost_add_wf(cell::<T>(l, r.drop_last()), cost_one());
        lemma_cost_add_wf(
            cell::<T>(l.drop_last(), r.drop_last()),
            T::dist_spec(l.last(), r.last()),
        );
        match pick::<T>(l, r) {
            Choice::Del => {
                lemma_align_mirror::<T>(l.drop_last(), r);
                let sub = path::<T>(l.drop_last(), r);
                assert(pick::<T>(r, l) == Choice::Ins);
                assert(path::<T>(r, l) == path::<T>(r, l.drop_last()).push(
                    Step::ExtraRight { right: l.last() },
                ));
                assert(mirror_steps(sub.push(Step::ExtraLeft { left: l.last() }))
                    =~= mirror_steps(sub).push(Step::ExtraRight { right: l.last() }));
            },
            Choice::Ins => {
                lemma_align_mirror::<T>(l, r.drop_last());
                let sub = path::<T>(l, r.drop_last());
                if cost_le(del, ins) {
                    crate::cost::lemma_cost_le_trans(del, ins, both);
                    assert(false);
                }
                assert(cost_le(ins, del));
                assert(pick::<T>(r, l) == Choice::Del);
                assert(path::<T>(r, l) == path::<T>(r.drop_last(), l).push(
                    Step::ExtraLeft { left: r.last() },
                ));
                assert(mirror_steps(sub.push(Step::ExtraRight { right: r.last() }))
                    =~= mirror_steps(sub).push(Step::ExtraLeft { left: r.last() }));
            },
            Choice::Diag => {
                lemma_align_mirror::<T>(l.drop_last(), r.drop_last());
                let sub = path::<T>(l.drop_last(), r.drop_last());
                if cost_le(del, both) {
                    crate::cost::lemma_cost_le_trans(del, both, ins);
                    assert(false);
                }
                assert(!cost_le(del, both));
                assert(pick::<T>(r, l) == Choice::Diag);
                assert(path::<T>(r, l) == path::<T>(r.drop_last(), l.drop_last()).push(
                    Step::Both { left: r.last(), right: l.last() },
                ));
                assert(mirror_steps(sub.push(Step::Both { left: l.last(), right: r.last() }))
                    =~= mirror_steps(sub).push(Step::Both { left: r.last(), right: l.last() }));
            },
        }
    }
}

/// Law: under a 0/1 metric the minimal alignment cost is at most the
/// length of the longer sequence.
pub proof fn lemma_align_cost_bound<T: Distance>(l: Seq<T>, r: Seq<T>)
    requires
        forall|x: T, y: T|
            (#[trigger] T::dist_spec(x, y)).1 == 1 && 0 <= T::dist_spec(x, y).0 <= 1,
        l.len() + r.len() <= u64::MAX,
    ensures
        cell::<T>(l, r).1 == 1,
        0 <= cell::<T>(l, r).0 <= max_int(l.len() as int, r.len() as int),
    decreases l.len() + r.len(),
{
    if l.len() == 0 && r.len() == 0 {
    } else if r.len() == 0 {
        lemma_align_cost_bound::<T>(l.drop_last(), r);
    } else if l.len() == 0 {
        lemma_align_cost_bound::<T>(l, r.drop_last());
    } else {
        lemma_align_cost_bound::<T>(l.drop_last(), r);
        lemma_align_cost_bound::<T>(l, r.drop_last());
        lemma_align_cost_bound::<T>(l.drop_last(), r.drop_last());
        let del = cost_add(cell::<T>(l.drop_last(), r), cost_one());
        let ins = cost_add(cell::<T>(l, r.drop_last()), cost_one());
        let both = cost_add(
            cell::<T>(l.drop_last(), r.drop_last()),
            T::dist_spec(l.last(), r.last()),
        );
        assert(both.1 == 1 && both.0 <= max_int(l.len() as int, r.len() as int));
        if cost_le(del, ins) && cost_le(del, both) {
            assert(del.0 <= both.0);
        } else if cost_le(ins, both) {
            assert(ins.0 <= both.0);
        }
    }
}

/// Under a metric with unit denominators bounded by 1, a step sequence's
/// total cost has denominator 1 and is at most the number of steps.
pub proof fn lemma_steps_cost_unit<T: Distance>(s: Seq<Step<T>>)
    requires
        forall|x: T, y: T|
            (#[trigger] T::dist_spec(x, y)).1 == 1 && 0 <= T::dist_spec(x, y).0 <= 1,
    ensures
        steps_cost::<T>(s).1 == 1,
        0 <= steps_cost::<T>(s).0 <= s.len(),
    decreases s.len(),
{
    if s.len() == 0 {
    } else {
        lemma_steps_cost_unit::<T>(s.drop_last());
    }
}

/// A step sequence is no longer than the two sequences it spells out
/// together, and each of them is no longer than the step sequence.
pub proof fn lemma_steps_len<T>(s: Seq<Step<T>>)
    ensures
        s.len() <= lefts_of(s).len() + rights_of(s).len(),
        lefts_of(s).len() <= s.len(),
        rights_of(s).len() <= s.len(),
    decreases s.len(),
{
    if s.len() == 0 {
    } else {
        lemma_steps_len::<T>(s.drop_last());
    }
}

/// Law: under a 0/1 metric the dynamic program's cost is truly minimal:
/// no step sequence that spells out the same two sequences costs less.
#[verifier::rlimit(50)]
pub proof fn lemma_cell_minimal<T: Distance>(l: Seq<T>, r: Seq<T>, s: Seq<Step<T>>)
    requires
        forall|x: T, y: T|
            (#[trigger] T::dist_spec(x, y)).1 == 1 && 0 <= T::dist_spec(x, y).0 <= 1,
        l.len() + r.len() <= u64::MAX,
        lefts_of(s) == l,
        rights_of(s) == r,
    ensures
        cell::<T>(l, r).0 <= steps_cost::<T>(s).0,
    decreases s.len(),
{
    lemma_steps_len::<T>(s);
    lemma_steps_cost_unit::<T>(s);
    lemma_align_cost_bound::<T>(l, r);
    if s.len() == 0 {
        assert(l.len() == 0 && r.len() == 0);
    } else {
        let sd = s.drop_last();
        lemma_steps_len::<T>(sd);
        lemma_steps_cost_unit::<T>(sd);
        match s.last() {
            Step::ExtraLeft { left } => {
                assert(lefts_of(sd).push(left) == l);
                assert(l.len() >= 1);
                assert(lefts_of(sd) =~= l.drop_last());
                assert(left == l.last());
                lemma_cell_minimal::<T>(l.drop_last(), r, sd);
                lemma_align_cost_bound::<T>(l.drop_last(), r);
                if r.len() >= 1 {
                    lemma_align_cost_bound::<T>(l, r.drop_last());
                    lemma_align_cost_bound::<T>(l.drop_last(), r.drop_last());
                }
                let del = cost_add(cell::<T>(l.drop_last(), r), cost_one());
                crate::cost::lemma_cost_add_den1(cell::<T>(l.drop_last(), r), cost_one());
                assert(cell::<T>(l, r).0 <= del.0);
                assert(del.0 == cell::<T>(l.drop_last(), r).0 + 1);
                assert(0 <= steps_cost::<T>(sd).0 <= sd.len() && steps_cost::<T>(sd).1 == 1);
                assert(sd.len() + 1 == s.len() && s.len() <= l.len() + r.len());
                assert(steps_cost::<T>(sd).0 + 1 <= u64::MAX);
                crate::cost::lemma_cost_add_den1(steps_cost::<T>(sd), cost_one());
                assert(steps_cost::<T>(s) == cost_add(steps_cost::<T>(sd), cost_one()));
                assert(steps_cost::<T>(s).0 == steps_cost::<T>(sd).0 + 1);
            },
            Step::ExtraRight { right } => {
                assert(rights_of(sd).push(right) == r);
                assert(r.len() >= 1);
                assert(rights_of(sd) =~= r.drop_last());
                assert(right == r.last());
                lemma_cell_minimal::<T>(l, r.drop_last(), sd);
                lemma_align_cost_bound::<T>(l, r.drop_last());
                if l.len() >= 1 {
                    lemma_align_cost_bound::<T>(l.drop_last(), r);
                    lemma_align_cost_bound::<T>(l.drop_last(), r.drop_last());
                }
                let ins = cost_add(cell::<T>(l, r.drop_last()), cost_one());
                crate::cost::lemma_cost_add_den1(cell::<T>(l, r.drop_last()), cost_one());
                assert(cell::<T>(l, r).0 <= ins.0);
                assert(ins.0 == cell::<T>(l, r.drop_last()).0 + 1);
                assert(0 <= steps_cost::<T>(sd).0 <= sd.len() && steps_cost::<T>(sd).1 == 1);
                assert(sd.len() + 1 == s.len() && s.len() <= l.len() + r.len());
                assert(steps_cost::<T>(sd).0 + 1 <= u64::MAX);
                crate::cost::lemma_cost_add_den1(steps_cost::<T>(sd), cost_one());
                assert(steps_cost::<T>(s) == cost_add(steps_cost::<T>(sd), cost_one()));
                assert(steps_cost::<T>(s).0 == steps_cost::<T>(sd).0 + 1);
            },
            Step::Both { left, right } => {
                assert(lefts_of(sd).push(left) == l);
                assert(rights_of(sd).push(right) == r);
                assert(l.len() >= 1 && r.len() >= 1);
                assert(lefts_of(sd) =~= l.drop_last());
                assert(rights_of(sd) =~= r.drop_last());
                assert(left == l.last() && right == r.last());
                lemma_cell_minimal::<T>(l.drop_last(), r.drop_last(), sd);
                lemma_align_cost_bound::<T>(l.drop_last(), r.drop_last());
                lemma_align_cost_bound::<T>(l.drop_last(), r);
                lemma_align_cost_bound::<T>(l, r.drop_last());
                let both = cost_add(
                    cell::<T>(l.drop_last(), r.drop_last()),
                    T::dist_spec(l.last(), r.last()),
                );
                crate::cost::lemma_cost_add_den1(
                    cell::<T>(l.drop_last(), r.drop_last()),
                    T::dist_spec(l.last(), r.last()),
                );
                assert(cell::<T>(l, r).0 <= both.0);
                assert(both.0 == cell::<T>(l.drop_last(), r.drop_last()).0 + T::dist_spec(
                    l.last(),
                    r.last(),
                ).0);
                assert(0 <= steps_cost::<T>(sd).0 <= sd.len() && steps_cost::<T>(sd).1 == 1);
                assert(sd.len() + 1 == s.len() && s.len() <= l.len() + r.len());
                assert(steps_cost::<T>(sd).0 + 1 <= u64::MAX);
                assert(T::dist_spec(l.last(), r.last()).1 == 1 && 0 <= T::dist_spec(
                    l.last(),
                    r.last(),
                ).0 <= 1);
                crate::cost::lemma_cost_add_den1(
                    steps_cost::<T>(sd),
                    T::dist_spec(l.last(), r.last()),
                );
                assert(steps_cost::<T>(s) == cost_add(
                    steps_cost::<T>(sd),
                    T::dist_spec(l.last(), r.last()),
                ));
                assert(steps_cost::<T>(s).0 == steps_cost::<T>(sd).0 + T::dist_spec(
                    l.last(),
                    r.last(),
                ).0);
            },
        }
    }
}

/// Law: under a 0/1 metric the total cost of the returned edit path
/// never exceeds the length of the longer sequence.
pub proof fn lemma_align_total_cost_bound<T: Distance>(l: Seq<T>, r: Seq<T>)
    requires
        forall|x: T, y: T|
            (#[trigger] T::dist_spec(x, y)).1 == 1 && 0 <= T::dist_spec(x, y).0 <= 1,
        l.len() + r.len() <= u64::MAX,
    ensures
        steps_cost::<T>(path::<T>(l, r)).1 == 1,
        steps_cost::<T>(path::<T>(l, r)).0 <= max_int(l.len() as int, r.len() as int),
{
    lemma_path_cost::<T>(l, r);
    lemma_align_cost_bound::<T>(l, r);
}

impl Distance for char {
    /// Characters are at distance 0 from themselves and 1 from any other.
    open spec fn dist_spec(l: char, r: char) -> (int, int) {
        if l == r {
            cost_zero()
        } else {
            cost_one()
        }
    }

    proof fn dist_spec_laws(l: char, r: char) {
    }

    fn distance(l: char, r: char) -> (c: Cost) {
        if l == r {
            Cost::zero()
        } else {
            Cost::one()
        }
    }
}

/// The character metric has unit denominators, is symmetric, and stays
/// within 0 and 1.
pub proof fn lemma_char_metric_unit()
    ensures
        forall|x: char, y: char|
            (#[trigger] char::dist_spec(x, y)).1 == 1 && 0 <= char::dist_spec(x, y).0 <= 1,
        forall|x: char, y: char| #[trigger] char::dist_spec(x, y) == char::dist_spec(y, x),
{
}

/// A quotient is what multiplying back and adding the remainder undoes.
proof fn lemma_div_bound(a: int, b: int)
    requires
        a >= 0,
        b >= 1,
    ensures
        0 <= a / b <= a,
        b * (a / b) <= a,
{
    vstd::arithmetic::div_mod::lemma_fundamental_div_mod(a, b);
    vstd::arithmetic::div_mod::lemma_remainder_lower(a, b);
    vstd::arithmetic::div_mod::lemma_remainder_upper(a, b);
    vstd::arithmetic::div_mod::lemma_div_pos_is_pos(a, b);
    assert(a / b <= a) by (nonlinear_arith)
        requires
            b >= 1 && a >= 0 && a == b * (a / b) + a % b && a % b >= 0 && a / b >= 0,
    ;
}

/// Whether the character alignment table of `l` and `r` fits in memory.
pub open spec fn str_table_fits(l: Seq<char>, r: Seq<char>) -> bool {
    r.len() + 1 <= (usize::MAX as int) / (l.len() as int + 1)
}

impl Distance for &str {
    /// The string-closeness metric: identical strings are at distance 0;
    /// otherwise the distance is 1 plus the character-level alignment cost
    /// divided by the longer character length, so that a pure insertion or
    /// deletion costs exactly 1 while strings sharing a long common
    /// alignment come out closer. A pair whose character table would not
    /// fit in memory saturates at the largest representable cost.
    open spec fn dist_spec(l: &str, r: &str) -> (int, int) {
        if l@ == r@ {
            cost_zero()
        } else if str_table_fits(l@, r@) {
            let m = max_int(l@.len() as int, r@.len() as int);
            let k = cell::<char>(l@, r@).0;
            if m + k <= cost_limit() {
                (m + k, m)
            } else {
                (cost_limit(), 1int)
            }
        } else {
            (cost_limit(), 1int)
        }
    }

    proof fn dist_spec_laws(l: &str, r: &str) {
        if l@ == r@ {
        } else if str_table_fits(l@, r@) {
            lemma_char_metric_unit();
            lemma_cell_wf::<char>(l@, r@);
            lemma_cell_unit_den::<char>(l@, r@);
            let m = max_int(l@.len() as int, r@.len() as int);
            if m == 0 {
                assert(l@ =~= r@);
            }
        } else {
        }
    }

    fn distance(l: &str, r: &str) -> (c: Cost) {
        let lv = chars_to_vec(l);
        let rv = chars_to_vec(r);
        if eq_chars(&lv, &rv) {
            return Cost::zero();
        }
        let la = lv.len();
        let lb = rv.len();
        proof {
            lemma_div_bound(usize::MAX as int, la as int + 1);
        }
        if la < usize::MAX && lb < usize::MAX {
            let q = usize::MAX / (la + 1);
            if lb + 1 <= q {
                proof {
                    vstd::arithmetic::mul::lemma_mul_inequality(
                        lb as int + 1,
                        q as int,
                        la as int + 1,
                    );
                    vstd::arithmetic::mul::lemma_mul_is_commutative(lb as int + 1, la as int + 1);
                    vstd::arithmetic::mul::lemma_mul_is_commutative(q as int, la as int + 1);
                }
                let table = fill_table::<char>(&lv, &rv);
                proof {
                    lemma_char_metric_unit();
                    lemma_cell_unit_den::<char>(lv@, rv@);
                    assert((la as int + 1) * (lb as int) <= (la as int + 1) * (lb as int))
                        by (nonlinear_arith);
                    assert(tidx(la as int, la as int, lb as int) < table@.len());
                    assert(lv@.take(la as int) =~= lv@);
                    assert(rv@.take(lb as int) =~= rv@);
                }
                let k = table.at(la, lb).cost;
                let m_us = if la >= lb {
                    la
                } else {
                    lb
                };
                proof {
                    if m_us == 0 {
                        assert(lv@ =~= rv@);
                    }
                }
                let m = m_us as u64;
                if m <= u64::MAX - k.num {
                    return Cost { num: k.num + m, den: m };
                } else {
                    return Cost { num: u64::MAX, den: 1 };
                }
            }
        }
        proof {
            vstd::arithmetic::div_mod::lemma_basic_div(usize::MAX as int, usize::MAX as int + 1);
            assert(!str_table_fits(l@, r@));
        }
        Cost { num: u64::MAX, den: 1 }
    }
}

/// Dense 2-D table stored in one `Vec`, first dimension contiguous.
pub struct Table<T> {
    size1: usize,
    table: Vec<T>,
}

impl<T> View for Table<T> {
    type V = Seq<T>;

    closed spec fn view(&self) -> Seq<T> {
        self.table@
    }
}

impl<T> Table<T> {
    /// The extent of the first dimension.
    pub closed spec fn dim1(&self) -> int {
        self.size1 as int
    }

    /// Create a table with room for `size1 * size2` elements.
    ///
    /// The storage is allocated but not filled; elements become readable
    /// once [`Table::push`] has reached them.
    pub fn new(size1: usize, size2: usize) -> (t: Self)
        requires
            size1 * size2 <= usize::MAX,
        ensures
            t@.len() == 0,
            t.dim1() == size1,
    {
        Table { size1, table: Vec::with_capacity(size1 * size2) }
    }

    /// Add `new_element` to the table.
    ///
    /// Values fill the first dimension first: the first element sits at
    /// (0, 0), the next at (1, 0), and so on, until the (`size1` + 1)-th
    /// starts the second column at (0, 1).
    pub fn push(&mut self, new_element: T)
        ensures
            final(self)@ == old(self)@.push(new_element),
            final(self).dim1() == old(self).dim1(),
    {
        self.table.push(new_element);
    }

    /// Read the element at `(idx1, idx2)`.
    pub fn at(&self, idx1: usize, idx2: usize) -> (r: &T)
        requires
            idx1 < self.dim1(),
            idx1 + self.dim1() * idx2 < self@.len(),
        ensures
            *r == self@[idx1 + self.dim1() * idx2],
    {
        let len = self.table.len();
        proof {
            assert(idx1 + self.dim1() * idx2 < len);
        }
        &self.table[idx1 + self.size1 * idx2]
    }
}

} // verus!
