use vstd::prelude::*;

verus! {

/// The candidate set of cell `i` in the packed word `w`: bits `4*i .. 4*i+4`.
/// Bit `v` set means value `v` (0-indexed) is still possible for that cell.
pub open spec fn cell_of(w: u64, i: u64) -> u64 {
    (w >> ((4 * i) as u64)) & 0xf
}

/// Row of the cell at linear index `i` (cells are numbered `x + y*4`).
pub open spec fn row_of(i: int) -> int {
    i / 4
}

/// Column of the cell at linear index `i`.
pub open spec fn col_of(i: int) -> int {
    i % 4
}

/// 2x2 box of the cell at linear index `i`, numbered `bx + by*2` for
/// block-column `bx` and block-row `by`.
pub open spec fn block_of(i: int) -> int {
    (i / 4 / 2) * 2 + (i % 4) / 2
}

/// True when candidate value `v` is in the candidate set `c`.
pub open spec fn has_bit(c: u64, v: u64) -> bool {
    c & (1u64 << v) != 0
}

/// The lowest candidate value of a non-empty candidate set `c < 16`.
pub open spec fn low_val(c: u64) -> u64 {
    if c & 1 != 0 {
        0
    } else if c & 2 != 0 {
        1
    } else if c & 4 != 0 {
        2
    } else {
        3
    }
}

/// Number of candidates in a candidate set `c < 16`.
pub open spec fn pop_of(c: u64) -> u64 {
    (((c & 1) + ((c >> 1) & 1) + ((c >> 2) & 1) + ((c >> 3) & 1)) as u64)
}

/// The 4-bit mask that removes exactly candidate `v` from a candidate set.
pub open spec fn elim_mask(v: u64) -> u64 {
    !(1u64 << v) & 0xf
}

/// Intersecting one cell of the 16-cell sequence `s` with mask `m`.
pub open spec fn mask_cell_s(s: Seq<u64>, i: int, m: u64) -> Seq<u64> {
    s.update(i, s[i] & m)
}

/// Intersecting every cell of row `r` with mask `m`.
pub open spec fn mask_row_s(s: Seq<u64>, r: int, m: u64) -> Seq<u64> {
    Seq::new(s.len(), |j: int| if row_of(j) == r { s[j] & m } else { s[j] })
}

/// Intersecting every cell of column `c` with mask `m`.
pub open spec fn mask_column_s(s: Seq<u64>, c: int, m: u64) -> Seq<u64> {
    Seq::new(s.len(), |j: int| if col_of(j) == c { s[j] & m } else { s[j] })
}

/// Intersecting every cell of 2x2 box `b` with mask `m`.
pub open spec fn mask_block_s(s: Seq<u64>, b: int, m: u64) -> Seq<u64> {
    Seq::new(s.len(), |j: int| if block_of(j) == b { s[j] & m } else { s[j] })
}

/// 4x4 Sudoku grid bitboard: sixteen 4-bit candidate sets packed into one
/// `u64`, cell 0 at the least significant nibble. The view abstracts the
/// word to the sequence of its 16 candidate sets.
#[derive(Debug, Clone, Copy, PartialEq, Eq, Structural)]
pub struct Grid {
    pub value: u64,
}

impl View for Grid {
    type V = Seq<u64>;

    open spec fn view(&self) -> Seq<u64> {
        Seq::new(16, |i: int| cell_of(self.value, i as u64))
    }
}

impl Grid {
    pub fn new(value: u64) -> (r: Self)
        ensures
            r.value == value,
            r@ == Seq::new(16, |i: int| cell_of(value, i as u64)),
    {
        Self { value }
    }

    /// The unconstrained grid: every cell still admits all four values.
    pub fn full() -> (r: Self)
        ensures
            forall|j: int| 0 <= j < 16 ==> r@[j] == 0xf,
    {
        let r = Self::new(0xffff_ffff_ffff_ffff);
        proof {
            assert forall|j: int| 0 <= j < 16 implies r@[j] == 0xf by {
                let ju = j as u64;
                assert(cell_of(0xffff_ffff_ffff_ffffu64, ju) == 0xf) by (bit_vector)
                    requires
                        ju < 16,
                ;
            }
        }
        r
    }

    pub fn get_cell(&self, index: usize) -> (r: u64)
        requires
            index < 16,
        ensures
            r == self@[index as int],
            r < 16,
    {
        let r = (self.value >> ((index as u64) * 4)) & 0xf;
        proof {
            let iu = index as u64;
            let w = self.value;
            assert(((w >> ((4 * iu) as u64)) & 0xf) < 16) by (bit_vector);
        }
        r
    }

    /// Replace the candidate set at `index` with its intersection with `mask`.
    pub fn mask_cell(&mut self, index: usize, mask: u64)
        requires
            index < 16,
        ensures
            forall|j: int|
                0 <= j < 16 ==> final(self)@[j] == (if j == index as int {
                    old(self)@[j] & mask
                } else {
                    old(self)@[j]
                }),
            final(self)@ == mask_cell_s(old(self)@, index as int, mask),
    {
        let m = !((!mask & 0xf) << ((index as u64) * 4));
        self.value = self.value & m;
        proof {
            let v0 = old(self).value;
            let v1 = self.value;
            let iu = index as u64;
            let mu = mask;
            assert forall|j: int|
                0 <= j < 16 implies self@[j] == (if j == index as int {
                old(self)@[j] & mu
            } else {
                old(self)@[j]
            }) by {
                let ju = j as u64;
                assert(cell_of(v1, ju) == (if ju == iu {
                    cell_of(v0, ju) & mu
                } else {
                    cell_of(v0, ju)
                })) by (bit_vector)
                    requires
                        v1 == v0 & !((!mu & 0xf) << ((4 * iu) as u64)),
                        iu < 16,
                        ju < 16,
                ;
            }
            assert(self@ =~= mask_cell_s(old(self)@, index as int, mask));
        }
    }

    /// Union the given bits back into the candidate set at `index`; used to
    /// restore a settled cell's own value after masking its groups.
    pub fn unmask_cell(&mut self, index: usize, mask: u64)
        requires
            index < 16,
        ensures
            forall|j: int|
                0 <= j < 16 ==> final(self)@[j] == (if j == index as int {
                    old(self)@[j] | (mask & 0xf)
                } else {
                    old(self)@[j]
                }),
    {
        let m = (mask & 0xf) << ((index as u64) * 4);
        self.value = self.value | m;
        proof {
            let v0 = old(self).value;
            let v1 = self.value;
            let iu = index as u64;
            let mu = mask;
            assert forall|j: int|
                0 <= j < 16 implies self@[j] == (if j == index as int {
                old(self)@[j] | (mu & 0xf)
            } else {
                old(self)@[j]
            }) by {
                let ju = j as u64;
                assert(cell_of(v1, ju) == (if ju == iu {
                    cell_of(v0, ju) | (mu & 0xf)
                } else {
                    cell_of(v0, ju)
                })) by (bit_vector)
                    requires
                        v1 == v0 | ((mu & 0xf) << ((4 * iu) as u64)),
                        iu < 16,
                        ju < 16,
                ;
            }
        }
    }

    /// Intersect all four cells of row `index` with `mask` in one word
    /// operation; every other cell is left untouched.
    pub fn mask_row(&mut self, index: usize, mask: u64)
        requires
            index < 4,
            mask < 16,
        ensures
            forall|j: int|
                0 <= j < 16 ==> final(self)@[j] == (if row_of(j) == index as int {
                    old(self)@[j] & mask
                } else {
                    old(self)@[j]
                }),
            final(self)@ == mask_row_s(old(self)@, index as int, mask),
    {
        let m = (mask << 12) | (mask << 8) | (mask << 4) | mask;
        let m = !((!m & 0xffff) << ((index as u64) * 16));
        self.value = self.value & m;
        proof {
            let v0 = old(self).value;
            let v1 = self.value;
            let iu = index as u64;
            let mu = mask;
            assert forall|j: int|
                0 <= j < 16 implies self@[j] == (if row_of(j) == index as int {
                old(self)@[j] & mu
            } else {
                old(self)@[j]
            }) by {
                let ju = j as u64;
                assert(cell_of(v1, ju) == (if ju / 4 == iu {
                    cell_of(v0, ju) & mu
                } else {
                    cell_of(v0, ju)
                })) by (bit_vector)
                    requires
                        v1 == v0 & !((!((mu << 12) | (mu << 8) | (mu << 4) | mu) & 0xffff) << ((
                        16 * iu) as u64)),
                        iu < 4,
                        ju < 16,
                        mu < 16,
                ;
            }
            assert(self@ =~= mask_row_s(old(self)@, index as int, mask));
        }
    }

    /// Intersect all four cells of column `index` with `mask` in one word
    /// operation; every other cell is left untouched.
    pub fn mask_column(&mut self, index: usize, mask: u64)
        requires
            index < 4,
            mask < 16,
        ensures
            forall|j: int|
                0 <= j < 16 ==> final(self)@[j] == (if col_of(j) == index as int {
                    old(self)@[j] & mask
                } else {
                    old(self)@[j]
                }),
            final(self)@ == mask_column_s(old(self)@, index as int, mask),
    {
        let m = (mask << 48) | (mask << 32) | (mask << 16) | mask;
        let m = !((!m & 0x000f_000f_000f_000f) << ((index as u64) * 4));
        self.value = self.value & m;
        proof {
            let v0 = old(self).value;
            let v1 = self.value;
            let iu = index as u64;
            let mu = mask;
            assert forall|j: int|
                0 <= j < 16 implies self@[j] == (if col_of(j) == index as int {
                old(self)@[j] & mu
            } else {
                old(self)@[j]
            }) by {
                let ju = j as u64;
                assert(cell_of(v1, ju) == (if ju % 4 == iu {
                    cell_of(v0, ju) & mu
                } else {
                    cell_of(v0, ju)
                })) by (bit_vector)
                    requires
                        v1 == v0 & !((!((mu << 48) | (mu << 32) | (mu << 16) | mu)
                            & 0x000f_000f_000f_000f) << ((4 * iu) as u64)),
                        iu < 4,
                        ju < 16,
                        mu < 16,
                ;
            }
            assert(self@ =~= mask_column_s(old(self)@, index as int, mask));
        }
    }

    /// Intersect all four cells of 2x2 box `index` with `mask` in one word
    /// operation; every other cell is left untouched.
    pub fn mask_block(&mut self, index: usize, mask: u64)
        requires
            index < 4,
            mask < 16,
        ensures
            forall|j: int|
                0 <= j < 16 ==> final(self)@[j] == (if block_of(j) == index as int {
                    old(self)@[j] & mask
                } else {
                    old(self)@[j]
                }),
            final(self)@ == mask_block_s(old(self)@, index as int, mask),
    {
        let bx = index % 2;
        let by = index / 2;
        let m = (mask << 20) | (mask << 16) | (mask << 4) | mask;
        let m = !((!m & 0x00ff_00ff) << ((bx as u64) * 8 + (by as u64) * 32));
        self.value = self.value & m;
        proof {
            let v0 = old(self).value;
            let v1 = self.value;
            let iu = index as u64;
            let mu = mask;
            assert forall|j: int|
                0 <= j < 16 implies self@[j] == (if block_of(j) == index as int {
                old(self)@[j] & mu
            } else {
                old(self)@[j]
            }) by {
                let ju = j as u64;
                assert(cell_of(v1, ju) == (if ju / 4 / 2 == iu / 2 && (ju % 4) / 2 == iu % 2 {
                    cell_of(v0, ju) & mu
                } else {
                    cell_of(v0, ju)
                })) by (bit_vector)
                    requires
                        v1 == v0 & !((!((mu << 20) | (mu << 16) | (mu << 4) | mu) & 0x00ff_00ff)
                            << ((8 * (iu % 2) + 32 * (iu / 2)) as u64)),
                        iu < 4,
                        ju < 16,
                        mu < 16,
                ;
                assert(block_of(j) == (j / 4 / 2) * 2 + (j % 4) / 2);
            }
            assert(self@ =~= mask_block_s(old(self)@, index as int, mask));
        }
    }
}

/// All sixteen candidate sets of `s` fit in 4 bits.
pub open spec fn cells_bounded(s: Seq<u64>) -> bool {
    forall|j: int| 0 <= j < s.len() ==> s[j] < 16
}

/// Masking a whole row is exactly masking its four member cells one by one;
/// every cell outside the row is left unchanged.
pub proof fn lemma_mask_row_is_cellwise(s: Seq<u64>, r: int, m: u64)
    requires
        s.len() == 16,
        0 <= r < 4,
    ensures
        mask_row_s(s, r, m) == mask_cell_s(
            mask_cell_s(mask_cell_s(mask_cell_s(s, 4 * r, m), 4 * r + 1, m), 4 * r + 2, m),
            4 * r + 3,
            m,
        ),
        forall|j: int| 0 <= j < 16 && row_of(j) != r ==> mask_row_s(s, r, m)[j] == s[j],
{
    let rhs = mask_cell_s(
        mask_cell_s(mask_cell_s(mask_cell_s(s, 4 * r, m), 4 * r + 1, m), 4 * r + 2, m),
        4 * r + 3,
        m,
    );
    assert forall|j: int| 0 <= j < 16 implies mask_row_s(s, r, m)[j] == rhs[j] by {
        assert(row_of(j) == r <==> 4 * r <= j < 4 * r + 4);
    }
    assert(mask_row_s(s, r, m) =~= rhs);
}

/// Masking a whole column is exactly masking its four member cells one by
/// one; every cell outside the column is left unchanged.
pub proof fn lemma_mask_column_is_cellwise(s: Seq<u64>, c: int, m: u64)
    requires
        s.len() == 16,
        0 <= c < 4,
    ensures
        mask_column_s(s, c, m) == mask_cell_s(
            mask_cell_s(mask_cell_s(mask_cell_s(s, c, m), c + 4, m), c + 8, m),
            c + 12,
            m,
        ),
        forall|j: int| 0 <= j < 16 && col_of(j) != c ==> mask_column_s(s, c, m)[j] == s[j],
{
    let rhs = mask_cell_s(
        mask_cell_s(mask_cell_s(mask_cell_s(s, c, m), c + 4, m), c + 8, m),
        c + 12,
        m,
    );
    assert forall|j: int| 0 <= j < 16 implies mask_column_s(s, c, m)[j] == rhs[j] by {
        assert(col_of(j) == c <==> (j == c || j == c + 4 || j == c + 8 || j == c + 12));
    }
    assert(mask_column_s(s, c, m) =~= rhs);
}

/// Masking a whole 2x2 box is exactly masking its four member cells one by
/// one; every cell outside the box is left unchanged.
pub proof fn lemma_mask_block_is_cellwise(s: Seq<u64>, b: int, m: u64)
    requires
        s.len() == 16,
        0 <= b < 4,
    ensures
        mask_block_s(s, b, m) == mask_cell_s(
            mask_cell_s(
                mask_cell_s(mask_cell_s(s, (b % 2) * 2 + (b / 2) * 8, m), (b % 2) * 2 + (b / 2) * 8 + 1, m),
                (b % 2) * 2 + (b / 2) * 8 + 4,
                m,
            ),
            (b % 2) * 2 + (b / 2) * 8 + 5,
            m,
        ),
        forall|j: int| 0 <= j < 16 && block_of(j) != b ==> mask_block_s(s, b, m)[j] == s[j],
{
    let o = (b % 2) * 2 + (b / 2) * 8;
    let rhs = mask_cell_s(
        mask_cell_s(mask_cell_s(mask_cell_s(s, o, m), o + 1, m), o + 4, m),
        o + 5,
        m,
    );
    assert forall|j: int| 0 <= j < 16 implies mask_block_s(s, b, m)[j] == rhs[j] by {
        assert(block_of(j) == b <==> (j == o || j == o + 1 || j == o + 4 || j == o + 5));
    }
    assert(mask_block_s(s, b, m) =~= rhs);
}

/// Masking any cell, row, column or box with the all-ones 4-bit mask leaves
/// the grid unchanged.
pub proof fn lemma_full_mask_identity(s: Seq<u64>, i: int)
    requires
        s.len() == 16,
        cells_bounded(s),
    ensures
        0 <= i < 16 ==> mask_cell_s(s, i, 0xf) == s,
        0 <= i < 4 ==> mask_row_s(s, i, 0xf) == s,
        0 <= i < 4 ==> mask_column_s(s, i, 0xf) == s,
        0 <= i < 4 ==> mask_block_s(s, i, 0xf) == s,
{
    assert forall|j: int| 0 <= j < 16 implies (s[j] & 0xf) == s[j] by {
        let x = s[j];
        assert(x < 16 ==> (x & 0xf) == x) by (bit_vector);
    }
    if 0 <= i < 16 {
        assert(mask_cell_s(s, i, 0xf) =~= s);
    }
    if 0 <= i < 4 {
        assert(mask_row_s(s, i, 0xf) =~= s);
        assert(mask_column_s(s, i, 0xf) =~= s);
        assert(mask_block_s(s, i, 0xf) =~= s);
    }
}

/// Masking with the all-zero mask clears exactly the targeted cell, row,
/// column or box, and leaves every other cell untouched.
pub proof fn lemma_zero_mask_annihilates(s: Seq<u64>, i: int)
    requires
        s.len() == 16,
    ensures
        0 <= i < 16 ==> forall|j: int|
            0 <= j < 16 ==> mask_cell_s(s, i, 0)[j] == (if j == i { 0u64 } else { s[j] }),
        0 <= i < 4 ==> forall|j: int|
            0 <= j < 16 ==> mask_row_s(s, i, 0)[j] == (if row_of(j) == i { 0u64 } else { s[j] }),
        0 <= i < 4 ==> forall|j: int|
            0 <= j < 16 ==> mask_column_s(s, i, 0)[j] == (if col_of(j) == i { 0u64 } else { s[j] }),
        0 <= i < 4 ==> forall|j: int|
            0 <= j < 16 ==> mask_block_s(s, i, 0)[j] == (if block_of(j) == i { 0u64 } else { s[j] }),
{
    assert forall|j: int| 0 <= j < 16 implies (s[j] & 0) == 0 by {
        let x = s[j];
        assert((x & 0) == 0) by (bit_vector);
    }
}

/// No masking step ever grows a cell's candidate set or its candidate count.
pub proof fn lemma_masking_monotone(s: Seq<u64>, i: int, m: u64)
    requires
        s.len() == 16,
        cells_bounded(s),
    ensures
        0 <= i < 16 ==> forall|j: int|
            0 <= j < 16 ==> pop_of(#[trigger] mask_cell_s(s, i, m)[j]) <= pop_of(s[j]),
        0 <= i < 4 ==> forall|j: int|
            0 <= j < 16 ==> pop_of(#[trigger] mask_row_s(s, i, m)[j]) <= pop_of(s[j]),
        0 <= i < 4 ==> forall|j: int|
            0 <= j < 16 ==> pop_of(#[trigger] mask_column_s(s, i, m)[j]) <= pop_of(s[j]),
        0 <= i < 4 ==> forall|j: int|
            0 <= j < 16 ==> pop_of(#[trigger] mask_block_s(s, i, m)[j]) <= pop_of(s[j]),
{
    assert forall|j: int| 0 <= j < 16 implies pop_of(s[j] & m) <= pop_of(s[j]) by {
        let x = s[j];
        assert(pop_of(x & m) <= pop_of(x)) by (bit_vector);
    }
}

/// Basic facts about the lowest candidate of a non-empty 4-bit set.
pub proof fn lemma_low_val(c: u64)
    by (bit_vector)
    requires
        c < 16,
        c != 0,
    ensures
        low_val(c) < 4,
        has_bit(c, low_val(c)),
        forall|b: u64| b < low_val(c) ==> !has_bit(c, b),
{
}

/// How intersection acts on individual candidates.
pub proof fn lemma_and_bits(a: u64, m: u64)
    by (bit_vector)
    ensures
        forall|b: u64| b < 4 ==> (#[trigger] has_bit(a & m, b) <==> has_bit(a, b) && has_bit(m, b)),
        a < 16 ==> (a & m) < 16,
        (a & m) & m == a & m,
        (a & m) & a == a & m,
        pop_of(a & m) <= pop_of(a),
{
}

/// Intersecting preserves disjointness from a mask.
pub proof fn lemma_and_preserves_empty(a: u64, q: u64, e: u64)
    by (bit_vector)
    requires
        a & e == 0,
    ensures
        (a & q) & e == 0,
{
}

/// The elimination mask holds every candidate but `v`.
pub proof fn lemma_elim_mask(v: u64)
    by (bit_vector)
    requires
        v < 4,
    ensures
        elim_mask(v) < 16,
        forall|b: u64| b < 4 ==> (#[trigger] has_bit(elim_mask(v), b) <==> b != v),
        !elim_mask(v) & 0xf == 1u64 << v,
        (0xfu64 & (1u64 << v)) == 1u64 << v,
        low_val(1u64 << v) == v,
        (1u64 << v) != 0,
        (1u64 << v) < 16,
        (1u64 << v) & elim_mask(v) == 0,
        has_bit(1u64 << v, v),
        has_bit(0xfu64, v),
        !has_bit(0u64, v),
{
}

/// Removing a candidate other than the lowest keeps the set non-empty and
/// keeps its lowest candidate.
pub proof fn lemma_masked_low(c: u64, v: u64)
    by (bit_vector)
    requires
        c < 16,
        c != 0,
        v < 4,
        low_val(c) != v,
    ensures
        c & elim_mask(v) != 0,
        low_val(c & elim_mask(v)) == low_val(c),
{
}

/// Candidate counts of 4-bit sets; a singleton set is the bit of its lowest
/// candidate, and restoring that bit after elimination recovers the set.
pub proof fn lemma_pop_facts(c: u64)
    by (bit_vector)
    requires
        c < 16,
    ensures
        pop_of(c) <= 4,
        (pop_of(c) == 0 <==> c == 0),
        pop_of(c) == 1 ==> c == (1u64 << low_val(c)),
        c != 0 ==> ((c & elim_mask(low_val(c))) | (1u64 << low_val(c))) == c,
{
}

/// A non-empty candidate set lying inside the singleton of `v` is exactly
/// that singleton.
pub proof fn lemma_sub_singleton(c: u64, v: u64)
    by (bit_vector)
    requires
        c < 16,
        v < 4,
        c != 0,
        c & elim_mask(v) == 0,
    ensures
        c == 1u64 << v,
        low_val(c) == v,
{
}

} // verus!
