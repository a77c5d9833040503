//! Grouping the cells of a grid around a selected cell by the bits that
//! their Morton codes have in common with its code.

use vstd::prelude::*;
use vstd::arithmetic::div_mod::{lemma_fundamental_div_mod, lemma_fundamental_div_mod_converse};
use vstd::arithmetic::power2::{lemma_pow2_unfold, pow2};
use vstd::bits::lemma_u8_shr_is_div;
use vstd::multiset::group_multiset_axioms;
use vstd::seq_lib::group_to_multiset_ensures;
use crate::grid::{
    in_grid, lemma_row_major_covers, lemma_side_is_shift, row_major, row_major_index, GridModel,
};
use crate::morton::{
    bit_group, code_of, encode, group_at, lemma_group_is_pair_of_bits, pair_of_bits, COORD_BITS,
};

verus! {

/// A subdivision level of the grid, named by the square that holds the
/// quadrants which the level's two-bit group tells apart.
#[derive(Clone, Copy, Debug, PartialEq, Eq, Structural)]
pub enum BitMask {
    /// The most significant group of a code: the quadrant of the whole grid.
    WholeGrid,
    /// The group that starts at bit 4.
    TopLevelParent,
    /// The group that starts at bit 2, the last one above the leaf group.
    SecondLevelParent,
}

/// How the cells related to the selected cell are chosen.
#[derive(Clone, Copy, Debug, PartialEq, Eq, Structural)]
pub enum NearestNeighboursStratergy {
    /// Cells whose code has the same two-bit group at the level.
    SharesBits(BitMask),
    /// Cells whose code has the same two-bit groups from the top of the
    /// code down to the level.
    SharedParents(BitMask),
    /// Cells whose code has no set bit in common with the selected code.
    SharesNoBits,
}

/// Why no cells were chosen.
#[derive(Clone, Copy, Debug, PartialEq, Eq, Structural)]
pub enum HighlightError {
    /// The selected index is past the end of the collection: nothing is
    /// selected.
    NoSelection,
    /// The level has no two-bit group of its own in the codes of the grid.
    Configuration,
}

/// The bits of `code` below bit `width`, shifted right by `shift`: the
/// two-bit groups of a code of `width` bits from its top down to the group
/// at `shift`.
pub open spec fn ancestry_of(code: u16, width: u32, shift: u32) -> u16 {
    let kept = if width >= 16 {
        code
    } else {
        code & !(0xFFFFu16 << width)
    };
    kept >> shift
}

/// Whether `a` and `b` have the same two-bit group at every even `s` from
/// `shift` up to the top group of a code of `width` bits.
pub open spec fn same_groups_through(a: u16, b: u16, width: u32, shift: u32) -> bool {
    forall|s: u32|
        shift <= s && s + 2 <= width && s % 2 == 0 ==> #[trigger] bit_group(a, s) == bit_group(b, s)
}

impl BitMask {
    /// The bit at which the level's group starts in the codes of a grid of
    /// `bits` bits per component.
    pub open spec fn spec_shift(self, bits: nat) -> int {
        match self {
            BitMask::WholeGrid => 2 * bits - 2,
            BitMask::TopLevelParent => 4,
            BitMask::SecondLevelParent => 2,
        }
    }

    /// Whether the level's group is one of the groups of the grid's codes
    /// above the leaf group: its shift is one of 2, 4, ..., `2 * bits - 2`.
    pub open spec fn fits(self, bits: nat) -> bool {
        2 <= self.spec_shift(bits) <= 2 * bits - 2
    }

    /// The bit at which the level's group starts in the codes of `grid`, or
    /// `None` where the grid's codes have no such group.
    pub fn shift(&self, grid: &GridModel) -> (r: Option<u32>)
        ensures
            match r {
                Some(shift) => self.fits(grid.spec_bits()) && shift == self.spec_shift(
                    grid.spec_bits(),
                ),
                None => !self.fits(grid.spec_bits()),
            },
    {
        let bits = grid.bits();
        let shift: u32 = match self {
            BitMask::WholeGrid => if bits == 0 {
                0
            } else {
                2 * bits - 2
            },
            BitMask::TopLevelParent => 4,
            BitMask::SecondLevelParent => 2,
        };
        if 2 <= shift && shift + 2 <= 2 * bits {
            Some(shift)
        } else {
            None
        }
    }
}

/// The two-bit groups of `code` from the top of a code of `width` bits down
/// to the group at `shift`, as one number.
pub fn ancestry(code: u16, width: u32, shift: u32) -> (prefix: u16)
    ensures
        prefix == ancestry_of(code, width, shift),
{
    let kept: u16 = if width >= 16 {
        code
    } else {
        code & !(0xFFFFu16 << width)
    };
    if shift < 16 {
        kept >> shift
    } else {
        assert(kept >> shift == 0) by (bit_vector)
            requires
                shift >= 16,
        ;
        0
    }
}

/// Two codes have the same ancestry down to `shift` exactly when they have
/// the same two-bit group at each level from the top down to `shift`.
pub proof fn lemma_ancestry_is_groups(a: u16, b: u16, width: u32, shift: u32)
    requires
        width <= 16,
        width % 2 == 0,
        shift % 2 == 0,
    ensures
        ancestry_of(a, width, shift) == ancestry_of(b, width, shift) <==> same_groups_through(
            a,
            b,
            width,
            shift,
        ),
{
    if ancestry_of(a, width, shift) == ancestry_of(b, width, shift) {
        assert forall|s: u32| shift <= s && s + 2 <= width && s % 2 == 0 implies #[trigger] bit_group(
            a,
            s,
        ) == bit_group(b, s) by {
            assert(bit_group(a, s) == bit_group(b, s)) by (bit_vector)
                requires
                    ancestry_of(a, width, shift) == ancestry_of(b, width, shift),
                    shift <= s,
                    s + 2 <= width,
                    width <= 16,
            ;
        }
    }
    if same_groups_through(a, b, width, shift) {
        assert(ancestry_of(a, width, shift) == ancestry_of(b, width, shift)) by (bit_vector)
            requires
                width <= 16,
                width % 2 == 0,
                shift % 2 == 0,
                shift <= 0 && 2 <= width ==> bit_group(a, 0) == bit_group(b, 0),
                shift <= 2 && 4 <= width ==> bit_group(a, 2) == bit_group(b, 2),
                shift <= 4 && 6 <= width ==> bit_group(a, 4) == bit_group(b, 4),
                shift <= 6 && 8 <= width ==> bit_group(a, 6) == bit_group(b, 6),
                shift <= 8 && 10 <= width ==> bit_group(a, 8) == bit_group(b, 8),
                shift <= 10 && 12 <= width ==> bit_group(a, 10) == bit_group(b, 10),
                shift <= 12 && 14 <= width ==> bit_group(a, 12) == bit_group(b, 12),
                shift <= 14 && 16 <= width ==> bit_group(a, 14) == bit_group(b, 14),
        ;
    }
}

impl NearestNeighboursStratergy {
    /// Whether the strategy can be used on a grid of `bits` bits per
    /// component: its level, if it has one, fits the grid's codes.
    pub open spec fn fits(self, bits: nat) -> bool {
        match self {
            NearestNeighboursStratergy::SharesBits(mask) => mask.fits(bits),
            NearestNeighboursStratergy::SharedParents(mask) => mask.fits(bits),
            NearestNeighboursStratergy::SharesNoBits => true,
        }
    }

    /// Whether a cell with the code `other` is related to the selected cell,
    /// whose code is `selected`, on a grid of `bits` bits per component.
    pub open spec fn relates(self, bits: nat, selected: u16, other: u16) -> bool {
        match self {
            NearestNeighboursStratergy::SharesBits(mask) => bit_group(
                other,
                mask.spec_shift(bits) as u32,
            ) == bit_group(selected, mask.spec_shift(bits) as u32),
            NearestNeighboursStratergy::SharedParents(mask) => same_groups_through(
                other,
                selected,
                (2 * bits) as u32,
                mask.spec_shift(bits) as u32,
            ),
            NearestNeighboursStratergy::SharesNoBits => other & selected == 0,
        }
    }

    /// The test that a cell passes when it is related to the selected cell.
    pub open spec fn chooses(self, bits: nat, selected: u16) -> spec_fn((u8, u8)) -> bool {
        |cell: (u8, u8)| self.relates(bits, selected, code_of(cell))
    }

    /// The cells of `cells` that are related to the cell at index `n`, in
    /// the order in which `cells` holds them.
    pub open spec fn highlighted(self, bits: nat, cells: Seq<(u8, u8)>, n: int) -> Seq<(u8, u8)> {
        cells.filter(self.chooses(bits, code_of(cells[n])))
    }

    /// Whether the strategy is one of the four that the display steps
    /// through.
    pub open spec fn in_cycle(self) -> bool {
        self == NearestNeighboursStratergy::SharesBits(BitMask::WholeGrid) || self
            == NearestNeighboursStratergy::SharesBits(BitMask::TopLevelParent) || self
            == NearestNeighboursStratergy::SharesBits(BitMask::SecondLevelParent) || self
            == NearestNeighboursStratergy::SharedParents(BitMask::WholeGrid)
    }

    /// The strategy that follows this one in the cycle; from a strategy
    /// outside the cycle, the first of the cycle.
    pub open spec fn spec_advance(self) -> Self {
        match self {
            NearestNeighboursStratergy::SharesBits(BitMask::WholeGrid) => {
                NearestNeighboursStratergy::SharesBits(BitMask::TopLevelParent)
            },
            NearestNeighboursStratergy::SharesBits(BitMask::TopLevelParent) => {
                NearestNeighboursStratergy::SharesBits(BitMask::SecondLevelParent)
            },
            NearestNeighboursStratergy::SharesBits(BitMask::SecondLevelParent) => {
                NearestNeighboursStratergy::SharedParents(BitMask::WholeGrid)
            },
            _ => NearestNeighboursStratergy::SharesBits(BitMask::WholeGrid),
        }
    }

    /// The strategy to switch to from this one. The display steps through
    /// a cycle of four: the same group at the whole grid, at the top-level
    /// parent, at the second-level parent, then the same ancestry through
    /// the whole grid, and round again. Any other strategy is followed by
    /// the first of these.
    pub fn advance(&self) -> (next: Self)
        ensures
            next == self.spec_advance(),
            next.in_cycle(),
    {
        match self {
            NearestNeighboursStratergy::SharesBits(BitMask::WholeGrid) => {
                NearestNeighboursStratergy::SharesBits(BitMask::TopLevelParent)
            },
            NearestNeighboursStratergy::SharesBits(BitMask::TopLevelParent) => {
                NearestNeighboursStratergy::SharesBits(BitMask::SecondLevelParent)
            },
            NearestNeighboursStratergy::SharesBits(BitMask::SecondLevelParent) => {
                NearestNeighboursStratergy::SharedParents(BitMask::WholeGrid)
            },
            _ => NearestNeighboursStratergy::SharesBits(BitMask::WholeGrid),
        }
    }

    /// Whether a cell with the code `other` is related to the selected cell.
    fn related(&self, grid: &GridModel, selected: u16, other: u16) -> (r: bool)
        requires
            self.fits(grid.spec_bits()),
        ensures
            r == self.relates(grid.spec_bits(), selected, other),
    {
        let bits = grid.bits();
        match self {
            NearestNeighboursStratergy::SharesBits(mask) => {
                match mask.shift(grid) {
                    Some(shift) => group_at(other, shift) == group_at(selected, shift),
                    None => false,
                }
            },
            NearestNeighboursStratergy::SharedParents(mask) => {
                match mask.shift(grid) {
                    Some(shift) => {
                        let width = 2 * bits;
                        proof {
                            lemma_ancestry_is_groups(other, selected, width, shift);
                        }
                        ancestry(other, width, shift) == ancestry(selected, width, shift)
                    },
                    None => false,
                }
            },
            NearestNeighboursStratergy::SharesNoBits => other & selected == 0,
        }
    }

    /// The cells related to the cell at index `n`, in collection order.
    fn collect(&self, grid: &GridModel, grid_coords: &Vec<(u8, u8)>, n: usize) -> (chosen: Vec<
        (u8, u8),
    >)
        requires
            n < grid_coords@.len(),
            self.fits(grid.spec_bits()),
        ensures
            chosen@ == self.highlighted(grid.spec_bits(), grid_coords@, n as int),
    {
        let selected = encode(grid_coords[n].0, grid_coords[n].1);
        let ghost test = self.chooses(grid.spec_bits(), selected);
        let mut chosen: Vec<(u8, u8)> = Vec::new();
        let mut i: usize = 0;
        proof {
            grid_coords@.take(0).lemma_filter_len(test);
            assert(chosen@ =~= grid_coords@.take(0).filter(test));
        }
        while i < grid_coords.len()
            invariant
                i <= grid_coords@.len(),
                self.fits(grid.spec_bits()),
                test == self.chooses(grid.spec_bits(), selected),
                chosen@ == grid_coords@.take(i as int).filter(test),
            decreases grid_coords@.len() - i,
        {
            let cell = grid_coords[i];
            let other = encode(cell.0, cell.1);
            proof {
                grid_coords@.take(i as int).lemma_filter_push(cell, test);
                assert(grid_coords@.take(i + 1) =~= grid_coords@.take(i as int).push(cell));
            }
            if self.related(grid, selected, other) {
                chosen.push(cell);
            }
            i = i + 1;
        }
        assert(grid_coords@.take(i as int) =~= grid_coords@);
        chosen
    }

    /// The cells whose code has the same two-bit group at the level `mask`
    /// as the code of the cell at index `n`.
    pub fn shares_bits(grid: &GridModel, grid_coords: &Vec<(u8, u8)>, n: usize, mask: &BitMask) -> (r:
        Result<Vec<(u8, u8)>, HighlightError>)
        ensures
            match r {
                Ok(chosen) => n < grid_coords@.len() && mask.fits(grid.spec_bits()) && chosen@
                    == NearestNeighboursStratergy::SharesBits(*mask).highlighted(
                    grid.spec_bits(),
                    grid_coords@,
                    n as int,
                ),
                Err(HighlightError::NoSelection) => n >= grid_coords@.len(),
                Err(HighlightError::Configuration) => n < grid_coords@.len() && !mask.fits(
                    grid.spec_bits(),
                ),
            },
    {
        if n >= grid_coords.len() {
            Err(HighlightError::NoSelection)
        } else if mask.shift(grid).is_none() {
            Err(HighlightError::Configuration)
        } else {
            Ok(NearestNeighboursStratergy::SharesBits(*mask).collect(grid, grid_coords, n))
        }
    }

    /// The cells whose code has no set bit in common with the code of the
    /// cell at index `n`.
    pub fn shares_no_bits(grid: &GridModel, grid_coords: &Vec<(u8, u8)>, n: usize) -> (r: Result<
        Vec<(u8, u8)>,
        HighlightError,
    >)
        ensures
            match r {
                Ok(chosen) => n < grid_coords@.len() && chosen@
                    == NearestNeighboursStratergy::SharesNoBits.highlighted(
                    grid.spec_bits(),
                    grid_coords@,
                    n as int,
                ),
                Err(HighlightError::NoSelection) => n >= grid_coords@.len(),
                Err(HighlightError::Configuration) => false,
            },
    {
        if n >= grid_coords.len() {
            Err(HighlightError::NoSelection)
        } else {
            Ok(NearestNeighboursStratergy::SharesNoBits.collect(grid, grid_coords, n))
        }
    }

    /// The cells whose code has the same two-bit groups as the code of the
    /// cell at index `n`, from the top of the code down to the level `mask`.
    pub fn shared_parents(
        grid: &GridModel,
        grid_coords: &Vec<(u8, u8)>,
        n: usize,
        mask: &BitMask,
    ) -> (r: Result<Vec<(u8, u8)>, HighlightError>)
        ensures
            match r {
                Ok(chosen) => n < grid_coords@.len() && mask.fits(grid.spec_bits()) && chosen@
                    == NearestNeighboursStratergy::SharedParents(*mask).highlighted(
                    grid.spec_bits(),
                    grid_coords@,
                    n as int,
                ),
                Err(HighlightError::NoSelection) => n >= grid_coords@.len(),
                Err(HighlightError::Configuration) => n < grid_coords@.len() && !mask.fits(
                    grid.spec_bits(),
                ),
            },
    {
        if n >= grid_coords.len() {
            Err(HighlightError::NoSelection)
        } else if mask.shift(grid).is_none() {
            Err(HighlightError::Configuration)
        } else {
            Ok(NearestNeighboursStratergy::SharedParents(*mask).collect(grid, grid_coords, n))
        }
    }

    /// The cells of `grid_coords` to highlight when the cell at index `n` is
    /// selected: those related to it under this strategy, in the order in
    /// which the collection holds them. An index past the end selects
    /// nothing; a level that does not fit the grid is refused.
    pub fn highlight(&self, grid: &GridModel, grid_coords: &Vec<(u8, u8)>, n: usize) -> (r: Result<
        Vec<(u8, u8)>,
        HighlightError,
    >)
        ensures
            match r {
                Ok(chosen) => n < grid_coords@.len() && self.fits(grid.spec_bits()) && chosen@
                    == self.highlighted(grid.spec_bits(), grid_coords@, n as int),
                Err(HighlightError::NoSelection) => n >= grid_coords@.len(),
                Err(HighlightError::Configuration) => n < grid_coords@.len() && !self.fits(
                    grid.spec_bits(),
                ),
            },
            r is Ok && self !is SharesNoBits ==> r->Ok_0@.contains(grid_coords@[n as int]),
    {
        proof {
            if n < grid_coords@.len() {
                lemma_selected_is_highlighted(*self, grid.spec_bits(), grid_coords@, n as int);
            }
        }
        match self {
            NearestNeighboursStratergy::SharesBits(mask) => {
                NearestNeighboursStratergy::shares_bits(grid, grid_coords, n, mask)
            },
            NearestNeighboursStratergy::SharedParents(mask) => {
                NearestNeighboursStratergy::shared_parents(grid, grid_coords, n, mask)
            },
            NearestNeighboursStratergy::SharesNoBits => {
                NearestNeighboursStratergy::shares_no_bits(grid, grid_coords, n)
            },
        }
    }
}

/// The cycle of strategies has length four: four steps from a strategy of
/// the cycle lead back to it, and fewer do not.
pub proof fn lemma_cycle_has_four_steps(strategy: NearestNeighboursStratergy)
    requires
        strategy.in_cycle(),
    ensures
        strategy.spec_advance() != strategy,
        strategy.spec_advance().spec_advance() != strategy,
        strategy.spec_advance().spec_advance().spec_advance() != strategy,
        strategy.spec_advance().spec_advance().spec_advance().spec_advance() == strategy,
{
}

/// The selected cell is related to itself where cells are chosen by the
/// groups that they share with it. Where they are chosen for sharing no
/// bits with it, it is related to itself only if its code is zero.
pub proof fn lemma_selected_is_highlighted(
    strategy: NearestNeighboursStratergy,
    bits: nat,
    cells: Seq<(u8, u8)>,
    n: int,
)
    requires
        0 <= n < cells.len(),
    ensures
        strategy !is SharesNoBits ==> strategy.highlighted(bits, cells, n).contains(cells[n]),
        strategy is SharesNoBits ==> (strategy.highlighted(bits, cells, n).contains(cells[n]) <==> code_of(
            cells[n],
        ) == 0),
{
    let code = code_of(cells[n]);
    let test = strategy.chooses(bits, code);
    assert(code & code == 0 <==> code == 0) by (bit_vector);
    if test(cells[n]) {
        cells.lemma_filter_contains(test, n);
    }
    if cells.filter(test).contains(cells[n]) {
        let i = choose|i: int| 0 <= i < cells.filter(test).len() && cells.filter(test)[i] == cells[n];
        cells.lemma_filter_pred(test, i);
    }
}

/// The pair of grid halves in which `cell` lies: for each component, 0 for
/// the lower half of a grid of `bits` bits per component and 1 for the
/// upper half.
pub open spec fn quadrant_of(cell: (u8, u8), bits: nat) -> (int, int) {
    let half = pow2((bits - 1) as nat) as int;
    (cell.0 as int / half, cell.1 as int / half)
}

/// The same group at the whole grid is the same quadrant: two cells of the
/// grid are related under `SharesBits(WholeGrid)` exactly when they lie in
/// the same of the four quadrants, each a square of half the grid's side.
pub proof fn lemma_whole_grid_groups_are_quadrants(bits: nat, a: (u8, u8), b: (u8, u8))
    requires
        2 <= bits <= COORD_BITS,
        in_grid(a, pow2(bits)),
        in_grid(b, pow2(bits)),
    ensures
        NearestNeighboursStratergy::SharesBits(BitMask::WholeGrid).relates(
            bits,
            code_of(a),
            code_of(b),
        ) <==> quadrant_of(a, bits) == quadrant_of(b, bits),
        0 <= quadrant_of(a, bits).0 < 2,
        0 <= quadrant_of(a, bits).1 < 2,
{
    let top = (bits - 1) as u32;
    let shift = (2 * top) as u32;
    let top8 = top as u8;
    lemma_side_is_shift(bits as u32);
    lemma_group_is_pair_of_bits(a.0, a.1, top);
    lemma_group_is_pair_of_bits(b.0, b.1, top);
    lemma_u8_shr_is_div(a.0, top8);
    lemma_u8_shr_is_div(a.1, top8);
    lemma_u8_shr_is_div(b.0, top8);
    lemma_u8_shr_is_div(b.1, top8);
    let (ax, ay, bx, by) = (a.0, a.1, b.0, b.1);
    assert((ax >> top8) < 2 && (ay >> top8) < 2 && (bx >> top8) < 2 && (by >> top8) < 2 && (
    pair_of_bits(ax, ay, top) == pair_of_bits(bx, by, top) <==> (ax >> top8) == (bx >> top8) && (ay
        >> top8) == (by >> top8))) by (bit_vector)
        requires
            top < 8,
            top8 == top,
            (ax as u32) < (1u32 << (top + 1) as u32),
            (ay as u32) < (1u32 << (top + 1) as u32),
            (bx as u32) < (1u32 << (top + 1) as u32),
            (by as u32) < (1u32 << (top + 1) as u32),
    ;
}

/// The cells of the quadrant `quadrant` of a grid of `bits` bits per
/// component, row by row: a square of half the grid's side.
pub open spec fn quadrant_cells(bits: nat, quadrant: (int, int)) -> Seq<(u8, u8)> {
    let half = pow2((bits - 1) as nat) as int;
    Seq::new(
        (half * half) as nat,
        |i: int| ((quadrant.0 * half + i / half) as u8, (quadrant.1 * half + i % half) as u8),
    )
}

/// The cells that pass a test are distinct where the cells tested are.
proof fn lemma_filter_keeps_distinct(cells: Seq<(u8, u8)>, test: spec_fn((u8, u8)) -> bool)
    requires
        cells.no_duplicates(),
    ensures
        cells.filter(test).no_duplicates(),
    decreases cells.len(),
{
    reveal(Seq::filter);
    if cells.len() > 0 {
        let front = cells.drop_last();
        lemma_filter_keeps_distinct(front, test);
        if front.filter(test).contains(cells.last()) {
            front.lemma_filter_contains_rev(test, cells.last());
            let i = choose|i: int| 0 <= i < front.len() && front[i] == cells.last();
            assert(cells[i] == cells[cells.len() - 1]);
        }
    }
}

/// A quadrant holds its cells once each: the cells of the grid whose halves
/// are those of the quadrant, and no others.
proof fn lemma_quadrant_cells(bits: nat, quadrant: (int, int))
    requires
        1 <= bits <= COORD_BITS,
        0 <= quadrant.0 < 2,
        0 <= quadrant.1 < 2,
    ensures
        quadrant_cells(bits, quadrant).no_duplicates(),
        forall|cell: (u8, u8)|
            #[trigger] quadrant_cells(bits, quadrant).contains(cell) <==> in_grid(cell, pow2(bits))
                && quadrant_of(cell, bits) == quadrant,
{
    let half = pow2((bits - 1) as nat) as int;
    let cells = quadrant_cells(bits, quadrant);
    lemma_side_is_shift(bits as u32);
    lemma_side_is_shift((bits - 1) as u32);
    lemma_pow2_unfold(bits);
    assert(pow2(bits) == 2 * half);
    assert forall|i: int| 0 <= i < cells.len() implies in_grid(#[trigger] cells[i], pow2(bits))
        && quadrant_of(cells[i], bits) == quadrant && cells[i].0 == quadrant.0 * half + i / half
        && cells[i].1 == quadrant.1 * half + i % half by {
        lemma_fundamental_div_mod(i, half);
        assert(0 <= i / half < half) by (nonlinear_arith)
            requires
                0 <= i < half * half,
                0 < half,
        ;
        let x = quadrant.0 * half + i / half;
        let y = quadrant.1 * half + i % half;
        assert(0 <= x < 2 * half && 0 <= y < 2 * half) by (nonlinear_arith)
            requires
                0 <= quadrant.0 < 2,
                0 <= quadrant.1 < 2,
                x == quadrant.0 * half + i / half,
                y == quadrant.1 * half + i % half,
                0 <= i / half < half,
                0 <= i % half < half,
        ;
        lemma_fundamental_div_mod_converse(x, half, quadrant.0, i / half);
        lemma_fundamental_div_mod_converse(y, half, quadrant.1, i % half);
    }
    assert forall|i: int, j: int| 0 <= i < cells.len() && 0 <= j < cells.len() && i != j implies cells[i]
        != cells[j] by {
        lemma_fundamental_div_mod(i, half);
        lemma_fundamental_div_mod(j, half);
    }
    assert forall|cell: (u8, u8)|
        in_grid(cell, pow2(bits)) && quadrant_of(cell, bits) == quadrant implies cells.contains(
        cell,
    ) by {
        let (x, y) = (cell.0 as int, cell.1 as int);
        lemma_fundamental_div_mod(x, half);
        lemma_fundamental_div_mod(y, half);
        let i = (x % half) * half + y % half;
        lemma_fundamental_div_mod_converse(i, half, x % half, y % half);
        assert(0 <= i < half * half) by (nonlinear_arith)
            requires
                i == (x % half) * half + y % half,
                0 <= x % half < half,
                0 <= y % half < half,
        ;
        assert(half * (x / half) == (x / half) * half) by (nonlinear_arith);
        assert(half * (y / half) == (y / half) * half) by (nonlinear_arith);
        assert(cells[i] == cell);
    }
}

/// The groups at the whole grid are the four quadrants: in any arrangement
/// of the cells of a grid, the cells chosen for sharing the selected cell's
/// group at the whole grid are the cells of its quadrant, each once. So
/// they are a quarter of the grid, and they fill a square of half its side.
pub proof fn lemma_whole_grid_group_is_a_quadrant(bits: nat, cells: Seq<(u8, u8)>, n: int)
    requires
        2 <= bits <= COORD_BITS,
        cells.to_multiset() == row_major(pow2(bits)).to_multiset(),
        0 <= n < cells.len(),
    ensures
        NearestNeighboursStratergy::SharesBits(BitMask::WholeGrid).highlighted(
            bits,
            cells,
            n,
        ).to_multiset() == quadrant_cells(bits, quadrant_of(cells[n], bits)).to_multiset(),
        NearestNeighboursStratergy::SharesBits(BitMask::WholeGrid).highlighted(bits, cells, n).len()
            == pow2((bits - 1) as nat) * pow2((bits - 1) as nat),
{
    broadcast use {group_to_multiset_ensures, group_multiset_axioms};

    let strategy = NearestNeighboursStratergy::SharesBits(BitMask::WholeGrid);
    let dim = pow2(bits);
    let rows = row_major(dim);
    let selected = cells[n];
    let quadrant = quadrant_of(selected, bits);
    let test = strategy.chooses(bits, code_of(selected));
    let chosen = cells.filter(test);
    let square = quadrant_cells(bits, quadrant);
    lemma_side_is_shift(bits as u32);
    lemma_row_major_covers(dim);
    rows.lemma_multiset_has_no_duplicates();
    cells.lemma_multiset_has_no_duplicates_conv();
    assert forall|cell: (u8, u8)| cells.contains(cell) <==> in_grid(cell, dim) by {
        if in_grid(cell, dim) {
            assert(rows[row_major_index(cell, dim)] == cell);
            assert(rows.contains(cell));
            assert(rows.to_multiset().count(cell) > 0);
        }
        if cells.contains(cell) {
            assert(cells.to_multiset().count(cell) > 0);
            assert(rows.contains(cell));
        }
    }
    assert(cells.contains(selected));
    lemma_whole_grid_groups_are_quadrants(bits, selected, selected);
    lemma_quadrant_cells(bits, quadrant);
    lemma_filter_keeps_distinct(cells, test);
    chosen.lemma_multiset_has_no_duplicates();
    square.lemma_multiset_has_no_duplicates();
    assert forall|cell: (u8, u8)| chosen.contains(cell) <==> square.contains(cell) by {
        if chosen.contains(cell) {
            cells.lemma_filter_contains_rev(test, cell);
            let i = choose|i: int| 0 <= i < chosen.len() && chosen[i] == cell;
            cells.lemma_filter_pred(test, i);
            lemma_whole_grid_groups_are_quadrants(bits, selected, cell);
        }
        if square.contains(cell) {
            lemma_whole_grid_groups_are_quadrants(bits, selected, cell);
            let j = choose|j: int| 0 <= j < cells.len() && cells[j] == cell;
            cells.lemma_filter_contains(test, j);
        }
    }
    assert forall|cell: (u8, u8)|
        chosen.to_multiset().count(cell) == square.to_multiset().count(cell) by {
        assert(chosen.contains(cell) <==> square.contains(cell));
    }
    assert(chosen.to_multiset() =~= square.to_multiset());
    assert(chosen.len() == chosen.to_multiset().len());
    assert(square.len() == square.to_multiset().len());
}

/// Ancestry nests: a cell that shares the selected cell's ancestry through
/// a finer level shares it through every coarser level too, so the cells
/// chosen at the finer level are among those chosen at the coarser one.
pub proof fn lemma_finer_ancestry_is_nested(
    bits: nat,
    cells: Seq<(u8, u8)>,
    n: int,
    finer: BitMask,
    coarser: BitMask,
    cell: (u8, u8),
)
    requires
        bits <= COORD_BITS,
        0 <= n < cells.len(),
        0 <= finer.spec_shift(bits) <= coarser.spec_shift(bits),
        NearestNeighboursStratergy::SharedParents(finer).highlighted(bits, cells, n).contains(cell),
    ensures
        NearestNeighboursStratergy::SharedParents(coarser).highlighted(bits, cells, n).contains(cell),
{
    let selected = code_of(cells[n]);
    let fine = NearestNeighboursStratergy::SharedParents(finer).chooses(bits, selected);
    let coarse = NearestNeighboursStratergy::SharedParents(coarser).chooses(bits, selected);
    let chosen = cells.filter(fine);
    let i = choose|i: int| 0 <= i < chosen.len() && chosen[i] == cell;
    cells.lemma_filter_pred(fine, i);
    cells.lemma_filter_contains_rev(fine, cell);
    let j = choose|j: int| 0 <= j < cells.len() && cells[j] == cell;
    assert(fine(cell));
    assert(same_groups_through(
        code_of(cell),
        selected,
        (2 * bits) as u32,
        coarser.spec_shift(bits) as u32,
    ));
    assert(coarse(cells[j]));
    cells.lemma_filter_contains(coarse, j);
}

/// Sharing no bits is mutual: if selecting one cell chooses another, then
/// selecting the other chooses the first.
pub proof fn lemma_sharing_no_bits_is_mutual(bits: nat, cells: Seq<(u8, u8)>, i: int, j: int)
    requires
        0 <= i < cells.len(),
        0 <= j < cells.len(),
        NearestNeighboursStratergy::SharesNoBits.highlighted(bits, cells, i).contains(cells[j]),
    ensures
        NearestNeighboursStratergy::SharesNoBits.highlighted(bits, cells, j).contains(cells[i]),
{
    let a = code_of(cells[i]);
    let b = code_of(cells[j]);
    let from_i = NearestNeighboursStratergy::SharesNoBits.chooses(bits, a);
    let from_j = NearestNeighboursStratergy::SharesNoBits.chooses(bits, b);
    let chosen = cells.filter(from_i);
    let k = choose|k: int| 0 <= k < chosen.len() && chosen[k] == cells[j];
    cells.lemma_filter_pred(from_i, k);
    assert(b & a == a & b) by (bit_vector);
    assert(from_j(cells[i]));
    cells.lemma_filter_contains(from_j, i);
}

} // verus!
