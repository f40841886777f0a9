use vstd::prelude::*;

verus! {

use vstd::arithmetic::div_mod::{
    lemma_div_is_ordered, lemma_fundamental_div_mod, lemma_fundamental_div_mod_converse,
};

/// Dense boolean occupancy map for a fixed width x height grid of cells.
/// Cells are packed into 8x8 tiles, one 64-bit word per tile, so that a
/// neighbourhood scan touches few words. Dimensions are rounded up to whole
/// tiles; the excess bits of a partial tile are simply unused.
pub struct BitGrid {
    blocks: Vec<u64>,
    width: usize,
    height: usize,
    blocks_per_row: usize,
}

impl BitGrid {
    /// Width of the grid in cells.
    pub closed spec fn spec_width(self) -> int {
        self.width as int
    }

    /// Height of the grid in cells.
    pub closed spec fn spec_height(self) -> int {
        self.height as int
    }

    /// Linear index of the 8x8 block holding cell (x, y).
    pub closed spec fn spec_block_index(self, x: int, y: int) -> int {
        (y / 8) * (self.blocks_per_row as int) + x / 8
    }

    /// Bit position of cell (x, y) inside its block's word.
    pub closed spec fn spec_bit_index(x: int, y: int) -> int {
        (y % 8) * 8 + x % 8
    }

    /// Whether the cell (x, y) is occupied. Meaningful for in-bounds coordinates.
    pub closed spec fn occupied(self, x: int, y: int) -> bool {
        (self.blocks@[self.spec_block_index(x, y)] >> (Self::spec_bit_index(x, y) as u64)) & 1u64
            == 1u64
    }

    /// Structural well-formedness: positive dimensions and storage rounded up
    /// to whole 8x8 blocks.
    pub closed spec fn wf(self) -> bool {
        &&& 0 < self.width <= 0xffff
        &&& 0 < self.height <= 0xffff
        &&& self.blocks_per_row == (self.width + 7) / 8
        &&& self.blocks@.len() == self.blocks_per_row * (((self.height + 7) / 8) as int)
    }

    /// Both grids have the same dimensions and agree on every in-bounds cell.
    pub open spec fn same_cells(self, other: BitGrid) -> bool {
        &&& other.spec_width() == self.spec_width()
        &&& other.spec_height() == self.spec_height()
        &&& forall|x: int, y: int|
            0 <= x < self.spec_width() && 0 <= y < self.spec_height() ==> other.occupied(x, y)
                == self.occupied(x, y)
    }

    /// `post` is `pre` with cell (x, y) written to `v` and every other
    /// in-bounds cell unchanged.
    pub open spec fn updated(pre: BitGrid, post: BitGrid, x: int, y: int, v: bool) -> bool {
        &&& post.wf()
        &&& post.spec_width() == pre.spec_width()
        &&& post.spec_height() == pre.spec_height()
        &&& post.occupied(x, y) == v
        &&& forall|i: int, j: int|
            0 <= i < pre.spec_width() && 0 <= j < pre.spec_height() && !(i == x && j == y)
                ==> post.occupied(i, j) == pre.occupied(i, j)
    }

    /// Width of the grid in cells.
    pub fn width(&self) -> (r: usize)
        ensures
            r == self.spec_width(),
    {
        self.width
    }

    /// Height of the grid in cells.
    pub fn height(&self) -> (r: usize)
        ensures
            r == self.spec_height(),
    {
        self.height
    }

    /// Builds a grid of the given dimensions with every cell unoccupied.
    pub fn new(width: usize, height: usize) -> (g: BitGrid)
        requires
            0 < width <= 0xffff,
            0 < height <= 0xffff,
        ensures
            g.wf(),
            g.spec_width() == width,
            g.spec_height() == height,
            forall|x: int, y: int| 0 <= x < width && 0 <= y < height ==> !g.occupied(x, y),
    {
        let nx: usize = (width + 7) / 8;
        let ny: usize = (height + 7) / 8;
        proof {
            assert(nx * ny <= 0x2000 * 0x2000) by (nonlinear_arith)
                requires
                    0 <= nx <= 0x2000,
                    0 <= ny <= 0x2000,
            ;
        }
        let n: usize = nx * ny;
        let mut blocks: Vec<u64> = Vec::new();
        let mut i: usize = 0;
        while i < n
            invariant
                i <= n,
                blocks@.len() == i,
                forall|k: int| 0 <= k < i ==> blocks@[k] == 0u64,
            decreases n - i,
        {
            blocks.push(0u64);
            i = i + 1;
        }
        let g = BitGrid { blocks, width, height, blocks_per_row: nx };
        proof {
            assert forall|x: int, y: int|
                0 <= x < width && 0 <= y < height implies !g.occupied(x, y) by {
                g.lemma_block_index_in_range(x, y);
                let b: u64 = g.blocks@[g.spec_block_index(x, y)];
                let s: u64 = Self::spec_bit_index(x, y) as u64;
                assert(b == 0u64);
                assert((0u64 >> s) & 1u64 == 0u64) by (bit_vector);
            }
        }
        g
    }

    /// The containing block's index and the bit position inside that block
    /// for cell (x, y).
    pub fn indices(&self, x: usize, y: usize) -> (r: (usize, usize))
        requires
            self.wf(),
            x < self.spec_width(),
            y < self.spec_height(),
        ensures
            r.0 == self.spec_block_index(x as int, y as int),
            r.1 == Self::spec_bit_index(x as int, y as int),
            r.1 < 64,
    {
        let ox: usize = x / 8;
        let ix: usize = x % 8;
        let oy: usize = y / 8;
        let iy: usize = y % 8;
        proof {
            self.lemma_block_index_in_range(x as int, y as int);
            assert(oy * self.blocks_per_row + ox < 0x1000_0000) by (nonlinear_arith)
                requires
                    0 <= oy < 0x2000,
                    0 <= self.blocks_per_row <= 0x2000,
                    0 <= ox < 0x2000,
            ;
        }
        (oy * self.blocks_per_row + ox, iy * 8 + ix)
    }

    /// Linear index of the block containing (x, y); exposed for the optional
    /// locality ordering of the burning-cell list.
    pub fn block_index(&self, x: usize, y: usize) -> (r: usize)
        requires
            self.wf(),
            x < self.spec_width(),
            y < self.spec_height(),
        ensures
            r == self.spec_block_index(x as int, y as int),
    {
        let (off, _s) = self.indices(x, y);
        off
    }

    /// The packing arithmetic, spelled out: cell (x, y) lives in block
    /// (y / 8) * ceil(width / 8) + x / 8, at bit (y % 8) * 8 + x % 8 of
    /// that block's word.
    pub proof fn lemma_packing_formula(self, x: int, y: int)
        requires
            self.wf(),
        ensures
            self.spec_block_index(x, y) == (y / 8) * ((self.spec_width() + 7) / 8) + x / 8,
            BitGrid::spec_bit_index(x, y) == (y % 8) * 8 + x % 8,
    {
    }

    /// The dimensions are machine integers, whatever the grid's state.
    pub proof fn lemma_dims_fit(self)
        ensures
            0 <= self.spec_width() <= usize::MAX,
            0 <= self.spec_height() <= usize::MAX,
    {
    }

    /// A well-formed grid's dimensions are positive and display-sized.
    pub proof fn lemma_dims_bounded(self)
        requires
            self.wf(),
        ensures
            0 < self.spec_width() <= 0xffff,
            0 < self.spec_height() <= 0xffff,
    {
    }

    /// The block holding an in-bounds cell lies inside the storage vector.
    proof fn lemma_block_index_in_range(self, x: int, y: int)
        requires
            self.wf(),
            0 <= x < self.spec_width(),
            0 <= y < self.spec_height(),
        ensures
            0 <= self.spec_block_index(x, y) < self.blocks@.len(),
            0 <= Self::spec_bit_index(x, y) < 64,
    {
        let bpr = self.blocks_per_row as int;
        let bpc = ((self.height + 7) / 8) as int;
        lemma_div_is_ordered(x, self.spec_width() - 1, 8);
        lemma_div_is_ordered(y, self.spec_height() - 1, 8);
        assert((self.spec_width() - 1) / 8 + 1 == (self.spec_width() + 7) / 8);
        assert((self.spec_height() - 1) / 8 + 1 == (self.spec_height() + 7) / 8);
        assert(x / 8 < bpr);
        assert(y / 8 < bpc);
        assert((y / 8) * bpr + x / 8 < bpc * bpr) by (nonlinear_arith)
            requires
                0 <= y / 8,
                y / 8 < bpc,
                0 <= x / 8,
                x / 8 < bpr,
                0 < bpr,
        ;
        assert(0 <= (y / 8) * bpr) by (nonlinear_arith)
            requires
                0 <= y / 8,
                0 < bpr,
        ;
    }

    /// Packing is injective: two distinct in-bounds cells never share both a
    /// block index and a bit position, so every cell owns exactly one bit.
    pub proof fn lemma_pack_injective(self, x1: int, y1: int, x2: int, y2: int)
        requires
            self.wf(),
            0 <= x1 < self.spec_width(),
            0 <= y1 < self.spec_height(),
            0 <= x2 < self.spec_width(),
            0 <= y2 < self.spec_height(),
            self.spec_block_index(x1, y1) == self.spec_block_index(x2, y2),
            Self::spec_bit_index(x1, y1) == Self::spec_bit_index(x2, y2),
        ensures
            x1 == x2,
            y1 == y2,
    {
        let bpr = self.blocks_per_row as int;
        lemma_div_is_ordered(x1, self.spec_width() - 1, 8);
        lemma_div_is_ordered(x2, self.spec_width() - 1, 8);
        assert((self.spec_width() - 1) / 8 + 1 == (self.spec_width() + 7) / 8);
        assert(x1 / 8 < bpr);
        assert(x2 / 8 < bpr);
        let n = self.spec_block_index(x1, y1);
        lemma_fundamental_div_mod_converse(n, bpr, y1 / 8, x1 / 8);
        lemma_fundamental_div_mod_converse(n, bpr, y2 / 8, x2 / 8);
        let s = Self::spec_bit_index(x1, y1);
        lemma_fundamental_div_mod_converse(s, 8, y1 % 8, x1 % 8);
        lemma_fundamental_div_mod_converse(s, 8, y2 % 8, x2 % 8);
        lemma_fundamental_div_mod(x1, 8);
        lemma_fundamental_div_mod(x2, 8);
        lemma_fundamental_div_mod(y1, 8);
        lemma_fundamental_div_mod(y2, 8);
    }

    /// Whether cell (x, y) is occupied.
    pub fn get(&self, x: usize, y: usize) -> (r: bool)
        requires
            self.wf(),
            x < self.spec_width(),
            y < self.spec_height(),
        ensures
            r == self.occupied(x as int, y as int),
    {
        let (off, s) = self.indices(x, y);
        proof {
            self.lemma_block_index_in_range(x as int, y as int);
        }
        (self.blocks[off] >> (s as u64)) & 1u64 == 1u64
    }

    /// Marks cell (x, y) occupied; every other cell keeps its value, so the
    /// operation is idempotent at the level of the cell model.
    pub fn set(&mut self, x: usize, y: usize)
        requires
            old(self).wf(),
            x < old(self).spec_width(),
            y < old(self).spec_height(),
        ensures
            BitGrid::updated(*old(self), *final(self), x as int, y as int, true),
    {
        let (off, s) = self.indices(x, y);
        proof {
            self.lemma_block_index_in_range(x as int, y as int);
        }
        let b: u64 = self.blocks[off];
        let b2: u64 = b | (1u64 << (s as u64));
        self.blocks.set(off, b2);
        proof {
            let sv: u64 = s as u64;
            assert((b | (1u64 << sv)) >> sv & 1u64 == 1u64) by (bit_vector)
                requires
                    sv < 64u64,
            ;
            assert(forall|t: u64|
                t < 64u64 && t != sv ==> ((b | (1u64 << sv)) >> t) & 1u64 == (b >> t)
                    & 1u64) by (bit_vector)
                requires
                    sv < 64u64,
            ;
            self.lemma_write_touches_one_cell(*old(self), x as int, y as int, b, b2);
        }
    }

    /// Marks cell (x, y) unoccupied; every other cell keeps its value, so the
    /// operation is idempotent at the level of the cell model.
    pub fn clear(&mut self, x: usize, y: usize)
        requires
            old(self).wf(),
            x < old(self).spec_width(),
            y < old(self).spec_height(),
        ensures
            BitGrid::updated(*old(self), *final(self), x as int, y as int, false),
    {
        let (off, s) = self.indices(x, y);
        proof {
            self.lemma_block_index_in_range(x as int, y as int);
        }
        let b: u64 = self.blocks[off];
        let b2: u64 = b & !(1u64 << (s as u64));
        self.blocks.set(off, b2);
        proof {
            let sv: u64 = s as u64;
            assert((b & !(1u64 << sv)) >> sv & 1u64 == 0u64) by (bit_vector)
                requires
                    sv < 64u64,
            ;
            assert(forall|t: u64|
                t < 64u64 && t != sv ==> ((b & !(1u64 << sv)) >> t) & 1u64 == (b >> t)
                    & 1u64) by (bit_vector)
                requires
                    sv < 64u64,
            ;
            self.lemma_write_touches_one_cell(*old(self), x as int, y as int, b, b2);
        }
    }

    /// After overwriting the one block word that holds (x, y) with a word
    /// that differs at most in (x, y)'s own bit, every other cell is unchanged.
    proof fn lemma_write_touches_one_cell(self, pre: BitGrid, x: int, y: int, b: u64, b2: u64)
        requires
            pre.wf(),
            0 <= x < pre.spec_width(),
            0 <= y < pre.spec_height(),
            self.width == pre.width,
            self.height == pre.height,
            self.blocks_per_row == pre.blocks_per_row,
            b == pre.blocks@[pre.spec_block_index(x, y)],
            self.blocks@ == pre.blocks@.update(pre.spec_block_index(x, y), b2),
            forall|t: u64|
                t < 64u64 && t != BitGrid::spec_bit_index(x, y) as u64 ==> (b2 >> t) & 1u64 == (
                b >> t) & 1u64,
        ensures
            self.wf(),
            forall|i: int, j: int|
                0 <= i < pre.spec_width() && 0 <= j < pre.spec_height() && !(i == x && j == y)
                    ==> self.occupied(i, j) == pre.occupied(i, j),
    {
        pre.lemma_block_index_in_range(x, y);
        assert forall|i: int, j: int|
            0 <= i < pre.spec_width() && 0 <= j < pre.spec_height() && !(i == x && j == y)
            implies self.occupied(i, j) == pre.occupied(i, j) by {
            pre.lemma_block_index_in_range(i, j);
            if pre.spec_block_index(i, j) == pre.spec_block_index(x, y) {
                if BitGrid::spec_bit_index(i, j) == BitGrid::spec_bit_index(x, y) {
                    pre.lemma_pack_injective(i, j, x, y);
                    assert(false);
                }
            }
        }
    }
}

/// Writing the same value to the same cell twice is idempotent: the second
/// write leaves every in-bounds cell exactly as the first write left it.
pub proof fn lemma_update_idempotent(a: BitGrid, b: BitGrid, c: BitGrid, x: int, y: int, v: bool)
    requires
        BitGrid::updated(a, b, x, y, v),
        BitGrid::updated(b, c, x, y, v),
    ensures
        b.same_cells(c),
{
}

/// Round trip of a cell write: after `set(x, y)` the cell reads occupied,
/// after a subsequent `clear(x, y)` it reads unoccupied, and every other
/// cell holds its original value throughout.
pub proof fn lemma_set_then_clear(a: BitGrid, b: BitGrid, c: BitGrid, x: int, y: int)
    requires
        BitGrid::updated(a, b, x, y, true),
        BitGrid::updated(b, c, x, y, false),
    ensures
        b.occupied(x, y),
        !c.occupied(x, y),
        forall|i: int, j: int|
            0 <= i < a.spec_width() && 0 <= j < a.spec_height() && !(i == x && j == y)
                ==> c.occupied(i, j) == a.occupied(i, j),
{
}

} // verus!
