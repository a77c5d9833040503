//! The square grid whose cells are ordered and grouped.

use vstd::prelude::*;
use vstd::arithmetic::div_mod::{lemma_fundamental_div_mod, lemma_fundamental_div_mod_converse};
use vstd::arithmetic::power2::{lemma2_to64, lemma_pow2_strictly_increases, lemma_pow2_unfold, pow2};
use crate::morton::{
    code_of, deinterleave, lemma_code_range, lemma_deinterleave_interleave,
    lemma_interleave_deinterleave, COORD_BITS,
};

verus! {

/// Why a grid could not be set up.
#[derive(Clone, Copy, Debug, PartialEq, Eq, Structural)]
pub enum GridError {
    /// The side length is more than a coordinate of `COORD_BITS` bits can
    /// count.
    Range,
    /// The side length is not a power of two.
    Configuration,
}

/// A square grid whose side is a power of two; its cells are the pairs
/// `(x, y)` with both components below the side.
#[derive(Clone, Copy, Debug)]
pub struct GridModel {
    bits: u32,
}

/// The cells of a grid of side `dim` in row-major order: every `y` for
/// `x = 0`, then every `y` for `x = 1`, and so on.
pub open spec fn row_major(dim: nat) -> Seq<(u8, u8)> {
    Seq::new(dim * dim, |i: int| ((i / dim as int) as u8, (i % dim as int) as u8))
}

/// Where the row-major order of a grid of side `dim` puts `cell`.
pub open spec fn row_major_index(cell: (u8, u8), dim: nat) -> int {
    cell.0 * dim + cell.1
}

/// Whether `cell` lies in the grid of side `dim`.
pub open spec fn in_grid(cell: (u8, u8), dim: nat) -> bool {
    cell.0 < dim && cell.1 < dim
}

impl GridModel {
    #[verifier::type_invariant]
    spec fn within_budget(self) -> bool {
        self.bits <= COORD_BITS
    }

    /// Bits per coordinate component.
    pub closed spec fn spec_bits(self) -> nat {
        self.bits as nat
    }

    /// Side length of the grid.
    pub open spec fn spec_dim(self) -> nat {
        pow2(self.spec_bits())
    }

    /// The grid of side `dim`, which must be a power of two that the
    /// coordinates can count: 1, 2, 4, ..., 256.
    pub fn new(dim: usize) -> (r: Result<GridModel, GridError>)
        ensures
            match r {
                Ok(grid) => dim == grid.spec_dim() && grid.spec_bits() <= COORD_BITS,
                Err(GridError::Range) => dim > pow2(COORD_BITS as nat),
                Err(GridError::Configuration) => dim <= pow2(COORD_BITS as nat) && forall|b: nat|
                    dim != pow2(b),
            },
    {
        proof {
            lemma2_to64();
        }
        if dim > 256 {
            return Err(GridError::Range);
        }
        let mut bits: u32 = 0;
        let mut side: usize = 1;
        while side < dim
            invariant
                bits <= COORD_BITS,
                side == pow2(bits as nat),
                1 <= side,
                dim <= 256,
                forall|b: nat| b < bits ==> dim != pow2(b),
            decreases 256 - side,
        {
            proof {
                lemma2_to64();
                lemma_pow2_unfold((bits + 1) as nat);
                assert forall|b: nat| b < bits + 1 implies dim != pow2(b) by {
                    if b == bits {
                    }
                }
            }
            side = side * 2;
            bits = bits + 1;
        }
        if side == dim {
            Ok(GridModel { bits })
        } else {
            proof {
                assert forall|b: nat| dim != pow2(b) by {
                    if b > bits {
                        lemma_pow2_strictly_increases(bits as nat, b);
                    } else if b == bits {
                    }
                }
            }
            Err(GridError::Configuration)
        }
    }

    /// Bits per coordinate component: the binary logarithm of the side.
    pub fn bits(&self) -> (bits: u32)
        ensures
            bits == self.spec_bits(),
            bits <= COORD_BITS,
    {
        proof {
            use_type_invariant(self);
        }
        self.bits
    }

    /// Side length of the grid.
    pub fn dim(&self) -> (dim: usize)
        ensures
            dim == self.spec_dim(),
            1 <= dim <= 256,
    {
        proof {
            use_type_invariant(self);
            lemma_side_is_shift(self.bits);
        }
        1usize << self.bits
    }

    /// Every cell of the grid, once, in row-major order.
    pub fn enumerate(&self) -> (cells: Vec<(u8, u8)>)
        ensures
            cells@ == row_major(self.spec_dim()),
    {
        let dim = self.dim();
        let mut cells: Vec<(u8, u8)> = Vec::new();
        let mut x: usize = 0;
        while x < dim
            invariant
                x <= dim <= 256,
                cells@.len() == x * dim,
                forall|i: int| 0 <= i < cells@.len() ==> cells@[i] == row_major(dim as nat)[i],
            decreases dim - x,
        {
            let mut y: usize = 0;
            while y < dim
                invariant
                    x < dim <= 256,
                    y <= dim,
                    cells@.len() == x * dim + y,
                    forall|i: int| 0 <= i < cells@.len() ==> cells@[i] == row_major(dim as nat)[i],
                decreases dim - y,
            {
                proof {
                    let i = (x * dim + y) as int;
                    lemma_fundamental_div_mod_converse(i, dim as int, x as int, y as int);
                    assert(i < dim * dim) by (nonlinear_arith)
                        requires
                            i == x * dim + y,
                            x < dim,
                            y < dim,
                    ;
                }
                cells.push((x as u8, y as u8));
                y = y + 1;
            }
            assert(x * dim + dim == (x + 1) * dim) by (nonlinear_arith);
            x = x + 1;
        }
        assert(cells@ =~= row_major(dim as nat));
        cells
    }
}

/// A power of two with an exponent of at most `COORD_BITS` is one shifted
/// left by the exponent, and is at most 256.
pub proof fn lemma_side_is_shift(bits: u32)
    requires
        bits <= COORD_BITS,
    ensures
        (1usize << bits) == pow2(bits as nat),
        (1u32 << bits) == pow2(bits as nat),
        1 <= pow2(bits as nat) <= 256,
{
    lemma2_to64();
    assert(bits <= 8 ==> (1usize << bits) == (if bits == 0 {
        1usize
    } else if bits == 1 {
        2
    } else if bits == 2 {
        4
    } else if bits == 3 {
        8
    } else if bits == 4 {
        16
    } else if bits == 5 {
        32
    } else if bits == 6 {
        64
    } else if bits == 7 {
        128
    } else {
        256
    })) by (bit_vector);
    assert(bits <= 8 ==> (1u32 << bits) == (if bits == 0 {
        1u32
    } else if bits == 1 {
        2
    } else if bits == 2 {
        4
    } else if bits == 3 {
        8
    } else if bits == 4 {
        16
    } else if bits == 5 {
        32
    } else if bits == 6 {
        64
    } else if bits == 7 {
        128
    } else {
        256
    })) by (bit_vector);
}

/// The row-major enumeration holds every cell of the grid, each once, at its
/// row-major index, and nothing else.
pub proof fn lemma_row_major_covers(dim: nat)
    requires
        1 <= dim <= 256,
    ensures
        row_major(dim).len() == dim * dim,
        forall|i: int| 0 <= i < dim * dim ==> in_grid(#[trigger] row_major(dim)[i], dim),
        forall|cell: (u8, u8)|
            in_grid(cell, dim) ==> 0 <= #[trigger] row_major_index(cell, dim) < dim * dim
                && row_major(dim)[row_major_index(cell, dim)] == cell,
        row_major(dim).no_duplicates(),
{
    let d = dim as int;
    assert forall|i: int| 0 <= i < dim * dim implies in_grid(#[trigger] row_major(dim)[i], dim) by {
        lemma_fundamental_div_mod(i, d);
        assert(0 <= i / d < d) by (nonlinear_arith)
            requires
                0 <= i < d * d,
                0 < d,
        ;
    }
    assert forall|cell: (u8, u8)| in_grid(cell, dim) implies 0 <= #[trigger] row_major_index(
        cell,
        dim,
    ) < dim * dim && row_major(dim)[row_major_index(cell, dim)] == cell by {
        let (x, y) = (cell.0 as int, cell.1 as int);
        lemma_fundamental_div_mod_converse(x * d + y, d, x, y);
        assert(0 <= x * d + y < d * d) by (nonlinear_arith)
            requires
                0 <= x < d,
                0 <= y < d,
        ;
    }
    assert forall|i: int, j: int|
        0 <= i < dim * dim && 0 <= j < dim * dim && i != j implies row_major(dim)[i] != row_major(
        dim,
    )[j] by {
        lemma_fundamental_div_mod(i, d);
        lemma_fundamental_div_mod(j, d);
        assert(0 <= i / d < d && 0 <= j / d < d) by (nonlinear_arith)
            requires
                0 <= i < d * d,
                0 <= j < d * d,
                0 < d,
        ;
    }
}

/// On a grid of `bits` bits per component, taking the code is a bijection
/// from the cells onto the numbers below four to the power `bits`, and
/// `deinterleave` is its inverse.
pub proof fn lemma_grid_codes_bijective(bits: nat)
    requires
        bits <= COORD_BITS,
    ensures
        forall|cell: (u8, u8)|
            in_grid(cell, pow2(bits)) ==> #[trigger] code_of(cell) < pow2(2 * bits) && deinterleave(
                code_of(cell),
            ) == cell,
        forall|code: u16|
            code < pow2(2 * bits) ==> in_grid(#[trigger] deinterleave(code), pow2(bits)) && code_of(
                deinterleave(code),
            ) == code,
{
    assert forall|cell: (u8, u8)| in_grid(cell, pow2(bits)) implies #[trigger] code_of(cell) < pow2(
        2 * bits,
    ) && deinterleave(code_of(cell)) == cell by {
        lemma_code_range(cell.0, cell.1, bits as u32);
        lemma_deinterleave_interleave(cell.0, cell.1);
    }
    assert forall|code: u16| code < pow2(2 * bits) implies in_grid(
        #[trigger] deinterleave(code),
        pow2(bits),
    ) && code_of(deinterleave(code)) == code by {
        let cell = deinterleave(code);
        lemma_interleave_deinterleave(code);
        lemma_code_range(cell.0, cell.1, bits as u32);
    }
}

} // verus!
