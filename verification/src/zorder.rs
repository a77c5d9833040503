//! Sorting cells into Z-order: ascending by Morton code.

use vstd::prelude::*;
use vstd::multiset::group_multiset_axioms;
use vstd::seq_lib::{group_to_multiset_ensures, lemma_multiset_commutative, to_multiset_build};
use vstd::arithmetic::power2::pow2;
use crate::grid::{
    in_grid, lemma_grid_codes_bijective, lemma_row_major_covers, lemma_side_is_shift, row_major,
    row_major_index,
};
use crate::morton::{
    code_of, deinterleave, encode, lemma_code_injective, lemma_shift_is_pow2, COORD_BITS,
};

verus! {

/// Whether the codes of `cells` never decrease from one cell to a later one.
pub open spec fn sorted_by_code(cells: Seq<(u8, u8)>) -> bool {
    forall|i: int, j: int| 0 <= i <= j < cells.len() ==> code_of(cells[i]) <= code_of(cells[j])
}

/// Whether `sorted` holds the cells of `cells`, each as often as `cells`
/// does, in ascending order of their codes.
pub open spec fn is_z_order_of(sorted: Seq<(u8, u8)>, cells: Seq<(u8, u8)>) -> bool {
    sorted_by_code(sorted) && sorted.to_multiset() == cells.to_multiset()
}

/// A collection has one Z-order only: two sorted sequences of the same cells
/// are the same sequence. Cells with equal codes are equal, so no tie is
/// left for a sort to break.
pub proof fn lemma_z_order_unique(s: Seq<(u8, u8)>, t: Seq<(u8, u8)>)
    requires
        sorted_by_code(s),
        sorted_by_code(t),
        s.to_multiset() == t.to_multiset(),
    ensures
        s == t,
    decreases s.len(),
{
    broadcast use {group_to_multiset_ensures, group_multiset_axioms};

    assert(s.len() == t.len()) by {
        assert(s.len() == s.to_multiset().len());
        assert(t.len() == t.to_multiset().len());
    }
    if s.len() == 0 {
        assert(s =~= t);
    } else {
        let a = s.last();
        let b = t.last();
        assert(s.contains(a));
        assert(t.contains(b));
        assert(t.to_multiset().count(a) > 0);
        assert(s.to_multiset().count(b) > 0);
        assert(t.contains(a));
        assert(s.contains(b));
        let i = choose|i: int| 0 <= i < t.len() && t[i] == a;
        let j = choose|j: int| 0 <= j < s.len() && s[j] == b;
        assert(code_of(t[i]) <= code_of(t[t.len() - 1]));
        assert(code_of(s[j]) <= code_of(s[s.len() - 1]));
        lemma_code_injective(a, b);
        let s0 = s.drop_last();
        let t0 = t.drop_last();
        assert(s =~= s0.push(a));
        assert(t =~= t0.push(a));
        assert(s0.to_multiset() =~= s.to_multiset().remove(a));
        assert(t0.to_multiset() =~= t.to_multiset().remove(a));
        lemma_z_order_unique(s0, t0);
    }
}

/// Merges two sorted runs into one. Where the heads tie, the head of `left`
/// goes first.
fn merge(left: &Vec<(u8, u8)>, right: &Vec<(u8, u8)>) -> (out: Vec<(u8, u8)>)
    requires
        sorted_by_code(left@),
        sorted_by_code(right@),
        left@.len() + right@.len() <= usize::MAX,
    ensures
        sorted_by_code(out@),
        out@.to_multiset() == left@.to_multiset().add(right@.to_multiset()),
        out@.len() == left@.len() + right@.len(),
{
    let mut out: Vec<(u8, u8)> = Vec::new();
    let mut i: usize = 0;
    let mut j: usize = 0;
    proof {
        broadcast use {group_to_multiset_ensures, group_multiset_axioms};

        assert(left@.take(0) =~= Seq::empty());
        assert(right@.take(0) =~= Seq::empty());
        assert(out@ =~= Seq::empty());
        assert(out@.to_multiset() =~= left@.take(0).to_multiset().add(right@.take(0).to_multiset()));
    }
    while i < left.len() || j < right.len()
        invariant
            i <= left@.len(),
            j <= right@.len(),
            left@.len() + right@.len() <= usize::MAX,
            out@.len() == i + j,
            sorted_by_code(left@),
            sorted_by_code(right@),
            sorted_by_code(out@),
            out@.to_multiset() == left@.take(i as int).to_multiset().add(
                right@.take(j as int).to_multiset(),
            ),
            forall|k: int, m: int|
                0 <= k < out@.len() && i <= m < left@.len() ==> code_of(out@[k]) <= code_of(
                    left@[m],
                ),
            forall|k: int, m: int|
                0 <= k < out@.len() && j <= m < right@.len() ==> code_of(out@[k]) <= code_of(
                    right@[m],
                ),
        decreases left@.len() - i + right@.len() - j,
    {
        let from_left = if i == left.len() {
            false
        } else if j == right.len() {
            true
        } else {
            encode(left[i].0, left[i].1) <= encode(right[j].0, right[j].1)
        };
        if from_left {
            let cell = left[i];
            proof {
                broadcast use group_multiset_axioms;

                let taken = left@.take(i as int);
                assert(left@.take(i + 1) =~= taken.push(cell));
                to_multiset_build(taken, cell);
                to_multiset_build(out@, cell);
                assert(out@.to_multiset().insert(cell) =~= taken.to_multiset().insert(cell).add(
                    right@.take(j as int).to_multiset(),
                ));
            }
            out.push(cell);
            i = i + 1;
        } else {
            let cell = right[j];
            proof {
                broadcast use group_multiset_axioms;

                let taken = right@.take(j as int);
                assert(right@.take(j + 1) =~= taken.push(cell));
                to_multiset_build(taken, cell);
                to_multiset_build(out@, cell);
                assert(out@.to_multiset().insert(cell) =~= left@.take(i as int).to_multiset().add(
                    taken.to_multiset().insert(cell),
                ));
            }
            out.push(cell);
            j = j + 1;
        }
    }
    assert(left@.take(i as int) =~= left@);
    assert(right@.take(j as int) =~= right@);
    out
}

/// The cells of `cells` from index `lo` up to `hi`, sorted by merging the
/// sorted halves.
fn sort_range(cells: &Vec<(u8, u8)>, lo: usize, hi: usize) -> (out: Vec<(u8, u8)>)
    requires
        lo <= hi <= cells@.len(),
    ensures
        is_z_order_of(out@, cells@.subrange(lo as int, hi as int)),
        out@.len() == hi - lo,
    decreases hi - lo,
{
    broadcast use {group_to_multiset_ensures, group_multiset_axioms};

    if hi - lo <= 1 {
        let mut out: Vec<(u8, u8)> = Vec::new();
        if lo < hi {
            out.push(cells[lo]);
        }
        assert(out@ =~= cells@.subrange(lo as int, hi as int));
        out
    } else {
        let mid = lo + (hi - lo) / 2;
        let left = sort_range(cells, lo, mid);
        let right = sort_range(cells, mid, hi);
        proof {
            let whole = cells@.subrange(lo as int, hi as int);
            let front = cells@.subrange(lo as int, mid as int);
            let back = cells@.subrange(mid as int, hi as int);
            assert(whole =~= front + back);
            lemma_multiset_commutative(front, back);
        }
        merge(&left, &right)
    }
}

/// Sorts the cells in place into Z-order: ascending by Morton code. The
/// result is the one sorted arrangement of the same cells, so a collection
/// that is sorted already is left as it is.
pub fn sort(grid_coords: &mut Vec<(u8, u8)>)
    ensures
        is_z_order_of(final(grid_coords)@, old(grid_coords)@),
        final(grid_coords)@.len() == old(grid_coords)@.len(),
        sorted_by_code(old(grid_coords)@) ==> final(grid_coords)@ == old(grid_coords)@,
{
    let sorted = sort_range(grid_coords, 0, grid_coords.len());
    proof {
        assert(grid_coords@.subrange(0, grid_coords@.len() as int) =~= grid_coords@);
        if sorted_by_code(grid_coords@) {
            lemma_z_order_unique(sorted@, grid_coords@);
        }
    }
    *grid_coords = sorted;
}

/// The cells of a grid of `bits` bits per component along the Z-order
/// curve: the cell at index `i` is the one whose code is `i`.
pub open spec fn z_curve(bits: nat) -> Seq<(u8, u8)> {
    Seq::new(pow2(2 * bits), |code: int| deinterleave(code as u16))
}

/// The Z-order curve holds the cells of the grid, each once, in ascending
/// order of their codes.
pub proof fn lemma_z_curve_orders_grid(bits: nat)
    requires
        bits <= COORD_BITS,
    ensures
        is_z_order_of(z_curve(bits), row_major(pow2(bits))),
{
    broadcast use {group_to_multiset_ensures, group_multiset_axioms};

    let dim = pow2(bits);
    let curve = z_curve(bits);
    let rows = row_major(dim);
    lemma_side_is_shift(bits as u32);
    lemma_shift_is_pow2((2 * bits) as u32);
    lemma_row_major_covers(dim);
    lemma_grid_codes_bijective(bits);
    assert forall|i: int| 0 <= i < curve.len() implies code_of(#[trigger] curve[i]) == i
        && in_grid(curve[i], dim) by {
        let code = i as u16;
        assert(code_of(deinterleave(code)) == code);
    }
    assert(curve.no_duplicates());
    curve.lemma_multiset_has_no_duplicates();
    rows.lemma_multiset_has_no_duplicates();
    assert forall|cell: (u8, u8)|
        curve.to_multiset().count(cell) == rows.to_multiset().count(cell) by {
        if in_grid(cell, dim) {
            assert(curve[code_of(cell) as int] == cell);
            assert(rows[row_major_index(cell, dim)] == cell);
            assert(curve.contains(cell));
            assert(rows.contains(cell));
        } else {
            assert(!curve.contains(cell));
            assert(!rows.contains(cell));
        }
    }
    assert(curve.to_multiset() =~= rows.to_multiset());
}

/// Sorting the row-major enumeration of a grid gives the Z-order curve: the
/// cell at index `i` of the result is the one whose code is `i`.
pub proof fn lemma_sorted_grid_is_z_curve(bits: nat, sorted: Seq<(u8, u8)>)
    requires
        bits <= COORD_BITS,
        is_z_order_of(sorted, row_major(pow2(bits))),
    ensures
        sorted == z_curve(bits),
        sorted.len() == pow2(2 * bits),
        forall|i: int| 0 <= i < sorted.len() ==> code_of(#[trigger] sorted[i]) == i,
{
    lemma_z_curve_orders_grid(bits);
    lemma_z_order_unique(sorted, z_curve(bits));
    lemma_shift_is_pow2((2 * bits) as u32);
    lemma_grid_codes_bijective(bits);
    assert forall|i: int| 0 <= i < sorted.len() implies code_of(#[trigger] sorted[i]) == i by {
        let code = i as u16;
        assert(code_of(deinterleave(code)) == code);
    }
}

/// Sorting what is sorted changes nothing: a second sort gives the sequence
/// that the first one gave.
pub proof fn lemma_sort_is_idempotent(
    cells: Seq<(u8, u8)>,
    once: Seq<(u8, u8)>,
    twice: Seq<(u8, u8)>,
)
    requires
        is_z_order_of(once, cells),
        is_z_order_of(twice, once),
    ensures
        twice == once,
{
    lemma_z_order_unique(twice, once);
}

} // verus!
