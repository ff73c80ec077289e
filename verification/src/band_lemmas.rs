//! Facts about band masks, each proved by the bit-vector solver.

use vstd::prelude::*;
use crate::band_masks::{
    column_cells, columns_of, in_mask, locked_minirows_of, minirows_of, open_cells_beside,
    open_cells_by_columns, open_cells_by_minirows, open_cells_off_column, rows_of, shrink_of,
    single_column_minirows,
};

verus! {

/// How membership of a cell goes through the bitwise operations.
pub proof fn lemma_mask_ops(a: u32, b: u32, c: u32)
    ensures
        in_mask(a & b, c) <==> in_mask(a, c) && in_mask(b, c),
        in_mask(a | b, c) <==> in_mask(a, c) || in_mask(b, c),
        in_mask(a ^ b, c) <==> (in_mask(a, c) != in_mask(b, c)),
        in_mask(a & !b, c) <==> in_mask(a, c) && !in_mask(b, c),
        !in_mask(0u32, c),
        c < 27 ==> in_mask(0o777_777_777u32, c),
        (a & b) & a == a & b,
        (a & !b) & a == a & !b,
        a & a == a,
        a & b <= a,
        a & b != a ==> a & b < a,
        a | b <= 0o777_777_777 <==> a <= 0o777_777_777 && b <= 0o777_777_777,
        a <= 0o777_777_777 && b <= 0o777_777_777 ==> a ^ b <= 0o777_777_777,
        a != 0o777_777_777 && a <= 0o777_777_777 ==> (0o777_777_777u32 & !a) != 0 && (0o777_777_777u32 & !a) <= 0o777_777_777,
        (a & b) & b == a & b,
        in_mask(a, c) && in_mask(b, c) ==> ((a & b) & !(1u32 << c)) | (1u32 << c) == a & b,
        a & b == 0 && in_mask(a, c) ==> !in_mask(b, c),
{
    lemma_masks(a, b, c, 0);
}

/// What holds of a mask that is within another.
pub proof fn lemma_within_mask(a: u32, b: u32, c: u32, x: u32)
    requires
        a & b == a,
    ensures
        a <= b,
        in_mask(a, c) ==> in_mask(b, c),
        b & x == 0 ==> a & x == 0,
        b & x == b ==> a & x == a,
        (a & x) & b == a & x,
        b & x == x ==> (a & x) & x == a & x,
{
    lemma_masks(a, b, c, x);
}

/// Which cells a digit at `c` leaves open, and which cells share its column.
pub proof fn lemma_geometry(c: u32, e: u32)
    by (bit_vector)
    requires
        c < 27,
        e < 27,
    ensures
        in_mask(open_cells_beside(c), e) <==> (e == c || (e / 9 != c / 9 && (e % 9) / 3 != (c % 9) / 3)),
        in_mask(open_cells_off_column(c % 9), e) <==> e % 9 != c % 9,
        in_mask(column_cells(c), e) <==> e % 9 == c % 9,
        in_mask(1u32 << c, e) <==> e == c,
        in_mask(!(1u32 << c), e) <==> e != c,
        open_cells_beside(c) <= 0o777_777_777,
        open_cells_off_column(c % 9) & column_cells(c) == 0,
        (1u32 << c) <= 0o777_777_777,
        (1u32 << c) != 0,
        (1u32 << c) & (((1u32 << c) - 1) as u32) == 0,
        c % 27 == c,
{
}

/// A mask of one cell is that cell's bit, and the lowest cell of a mask is
/// such a mask.
pub proof fn lemma_one_cell(x: u32, m: u32, c: u32)
    requires
        x != 0,
        x <= 0o777_777_777,
        m == x ^ (x & ((x - 1) as u32)),
        c < 32,
        (m >> c) & 1 == 1,
    ensures
        m == 1u32 << c,
        c < 27,
        in_mask(x, c),
        m != 0,
        m <= 0o777_777_777,
        m & ((m - 1) as u32) == 0,
        (x & ((x - 1) as u32)) == x & !m,
        (x & ((x - 1) as u32)) < x,
{
    lemma_single_cells(x, m, c);
}

/// A mask with a single bit is the bit at the number of its trailing zeros.
pub proof fn lemma_bit_of_mask(m: u32, c: u32)
    requires
        m != 0,
        m <= 0o777_777_777,
        m & ((m - 1) as u32) == 0,
        c < 32,
        (m >> c) & 1 == 1,
    ensures
        m == 1u32 << c,
        c < 27,
{
    lemma_single_cells(0, m, c);
}

/// A digit that stands once in each row of a band, in three different boxes,
/// keeps its three cells when the subband is settled.
pub proof fn lemma_placement_kept(old: u32, c0: u32, c1: u32, c2: u32, s: u32, p: u32)
    by (bit_vector)
    requires
        old <= 0o777_777_777,
        c0 < 9,
        9 <= c1 < 18,
        18 <= c2 < 27,
        (c0 % 9) / 3 != (c1 % 9) / 3,
        (c0 % 9) / 3 != (c2 % 9) / 3,
        (c1 % 9) / 3 != (c2 % 9) / 3,
        in_mask(old, c0),
        in_mask(old, c1),
        in_mask(old, c2),
        s == minirows_of(old),
        p == old & open_cells_by_minirows(s),
    ensures
        in_mask(p, c0),
        in_mask(p, c1),
        in_mask(p, c2),
{
}

/// A cell in none of the columns of a placement within `p` stays open in the
/// neighbouring bands.
pub proof fn lemma_columns_open(p: u32, c0: u32, c1: u32, c2: u32, e: u32)
    requires
        p <= 0o777_777_777,
        c0 < 9,
        9 <= c1 < 18,
        18 <= c2 < 27,
        e < 27,
        (c0 % 9) / 3 != (c1 % 9) / 3,
        (c0 % 9) / 3 != (c2 % 9) / 3,
        (c1 % 9) / 3 != (c2 % 9) / 3,
        in_mask(p, c0),
        in_mask(p, c1),
        in_mask(p, c2),
        e % 9 != c0 % 9,
        e % 9 != c1 % 9,
        e % 9 != c2 % 9,
    ensures
        in_mask(open_cells_by_columns(columns_of(p)), e),
{
    lemma_columns(p, c0, c1, c2, e);
}

/// A cell whose column holds no cell of `p` stays open in the neighbouring bands.
pub proof fn lemma_column_free(p: u32, e: u32)
    requires
        e < 27,
        p & column_cells(e) == 0,
    ensures
        in_mask(open_cells_by_columns(columns_of(p)), e),
{
    lemma_columns(p, 0, 0, 0, e);
}

/// A cell that the settling of a subband marks as solved is alone in its row
/// and its box, and its column is closed in the neighbouring bands.
pub proof fn lemma_solved_alone(old: u32, c: u32, s: u32, p: u32, cols: u32, both: u32, solved: u32)
    requires
        old <= 0o777_777_777,
        c < 27,
        s == minirows_of(old),
        p == old & open_cells_by_minirows(s),
        cols == columns_of(p),
        both == locked_minirows_of(s) & single_column_minirows(cols),
        solved == rows_of(shrink_of(both)) & p,
        in_mask(solved, c),
    ensures
        in_mask(p, c),
        p & open_cells_beside(c) == p,
        open_cells_by_columns(cols) & column_cells(c) == 0,
{
    lemma_settled(old, c, s, p, cols, both, solved);
}

/// Where a digit is alone in its row and its box of a settled subband, the
/// settling marks the cell as solved.
pub proof fn lemma_alone_is_solved(old: u32, c: u32, s: u32, p: u32, cols: u32, both: u32, solved: u32)
    requires
        old <= 0o777_777_777,
        c < 27,
        s == minirows_of(old),
        p == old & open_cells_by_minirows(s),
        cols == columns_of(p),
        both == locked_minirows_of(s) & single_column_minirows(cols),
        solved == rows_of(shrink_of(both)) & p,
        in_mask(p, c),
        p & open_cells_beside(c) == p,
    ensures
        in_mask(solved, c),
{
    lemma_settled(old, c, s, p, cols, both, solved);
}

/// A digit that is alone in its row and its box stays where it is when the
/// subband is settled, unless nothing stays.
pub proof fn lemma_alone_kept(old: u32, c: u32, s: u32, p: u32)
    requires
        old <= 0o777_777_777,
        c < 27,
        in_mask(old, c),
        old & open_cells_beside(c) == old,
        s == minirows_of(old),
        p == old & open_cells_by_minirows(s),
        p != 0,
    ensures
        in_mask(p, c),
{
    lemma_settled(old, c, s, p, 0, 0, 0);
}

/// Nine different digits hold every digit.
pub proof fn lemma_nine_distinct(a0: u8, a1: u8, a2: u8, a3: u8, a4: u8, a5: u8, a6: u8, a7: u8, a8: u8, d: u8)
    by (bit_vector)
    requires
        1 <= d <= 9,
        1 <= a0 <= 9,
        1 <= a1 <= 9,
        1 <= a2 <= 9,
        1 <= a3 <= 9,
        1 <= a4 <= 9,
        1 <= a5 <= 9,
        1 <= a6 <= 9,
        1 <= a7 <= 9,
        1 <= a8 <= 9,
        a0 != a1, a0 != a2, a0 != a3, a0 != a4, a0 != a5, a0 != a6, a0 != a7, a0 != a8,
        a1 != a2, a1 != a3, a1 != a4, a1 != a5, a1 != a6, a1 != a7, a1 != a8,
        a2 != a3, a2 != a4, a2 != a5, a2 != a6, a2 != a7, a2 != a8,
        a3 != a4, a3 != a5, a3 != a6, a3 != a7, a3 != a8,
        a4 != a5, a4 != a6, a4 != a7, a4 != a8,
        a5 != a6, a5 != a7, a5 != a8,
        a6 != a7, a6 != a8,
        a7 != a8,
    ensures
        a0 == d || a1 == d || a2 == d || a3 == d || a4 == d || a5 == d || a6 == d || a7 == d || a8 == d,
{
}

/// Row, column and box of a cell, from its band and its place in the band.
pub proof fn lemma_band_cell(i: u32)
    by (bit_vector)
    requires
        i < 81,
    ensures
        i / 27 < 3,
        i % 27 < 27,
        i / 9 == 3 * (i / 27) + (i % 27) / 9,
        i % 9 == (i % 27) % 9,
        (i / 27) * 3 + (i % 9) / 3 == 3 * (i / 27) + ((i % 27) % 9) / 3,
        27 * (i / 27) + i % 27 == i,
{
}

/// What holds of a mask of one cell.
proof fn lemma_single_cells(x: u32, m: u32, c: u32)
    by (bit_vector)
    ensures
        (x != 0) && (x <= 0o777_777_777) && (m == x ^ (x & ((x - 1) as u32))) && (c < 32) && ((m >> c) & 1 == 1) ==> (m == 1u32 << c),
        (x != 0) && (x <= 0o777_777_777) && (m == x ^ (x & ((x - 1) as u32))) && (c < 32) && ((m >> c) & 1 == 1) ==> (c < 27),
        (x != 0) && (x <= 0o777_777_777) && (m == x ^ (x & ((x - 1) as u32))) && (c < 32) && ((m >> c) & 1 == 1) ==> (in_mask(x, c)),
        (x != 0) && (x <= 0o777_777_777) && (m == x ^ (x & ((x - 1) as u32))) && (c < 32) && ((m >> c) & 1 == 1) ==> (m != 0),
        (x != 0) && (x <= 0o777_777_777) && (m == x ^ (x & ((x - 1) as u32))) && (c < 32) && ((m >> c) & 1 == 1) ==> (m <= 0o777_777_777),
        (x != 0) && (x <= 0o777_777_777) && (m == x ^ (x & ((x - 1) as u32))) && (c < 32) && ((m >> c) & 1 == 1) ==> (m & ((m - 1) as u32) == 0),
        (x != 0) && (x <= 0o777_777_777) && (m == x ^ (x & ((x - 1) as u32))) && (c < 32) && ((m >> c) & 1 == 1) ==> ((x & ((x - 1) as u32)) == x & !m),
        (x != 0) && (x <= 0o777_777_777) && (m == x ^ (x & ((x - 1) as u32))) && (c < 32) && ((m >> c) & 1 == 1) ==> ((x & ((x - 1) as u32)) < x),
        (m != 0) && (m <= 0o777_777_777) && (m & ((m - 1) as u32) == 0) && (c < 32) && ((m >> c) & 1 == 1) ==> (m == 1u32 << c),
        (m != 0) && (m <= 0o777_777_777) && (m & ((m - 1) as u32) == 0) && (c < 32) && ((m >> c) & 1 == 1) ==> (c < 27),
{
}

/// Which cells of the neighbouring bands stay open.
proof fn lemma_columns(p: u32, c0: u32, c1: u32, c2: u32, e: u32)
    by (bit_vector)
    ensures
        (p <= 0o777_777_777)
            && (c0 < 9)
            && (9 <= c1 < 18)
            && (18 <= c2 < 27)
            && (e < 27)
            && ((c0 % 9) / 3 != (c1 % 9) / 3)
            && ((c0 % 9) / 3 != (c2 % 9) / 3)
            && ((c1 % 9) / 3 != (c2 % 9) / 3)
            && (in_mask(p, c0))
            && (in_mask(p, c1))
            && (in_mask(p, c2))
            && (e % 9 != c0 % 9)
            && (e % 9 != c1 % 9)
            && (e % 9 != c2 % 9)
            ==> (in_mask(open_cells_by_columns(columns_of(p)), e)),
        (e < 27) && (p & column_cells(e) == 0) ==> (in_mask(open_cells_by_columns(columns_of(p)), e)),
{
}

/// What the settling of a subband does to a cell.
proof fn lemma_settled(old: u32, c: u32, s: u32, p: u32, cols: u32, both: u32, solved: u32)
    by (bit_vector)
    ensures
        (old <= 0o777_777_777)
            && (c < 27)
            && (s == minirows_of(old))
            && (p == old & open_cells_by_minirows(s))
            && (cols == columns_of(p))
            && (both == locked_minirows_of(s) & single_column_minirows(cols))
            && (solved == rows_of(shrink_of(both)) & p)
            && (in_mask(solved, c))
            ==> (in_mask(p, c)),
        (old <= 0o777_777_777)
            && (c < 27)
            && (s == minirows_of(old))
            && (p == old & open_cells_by_minirows(s))
            && (cols == columns_of(p))
            && (both == locked_minirows_of(s) & single_column_minirows(cols))
            && (solved == rows_of(shrink_of(both)) & p)
            && (in_mask(solved, c))
            ==> (p & open_cells_beside(c) == p),
        (old <= 0o777_777_777)
            && (c < 27)
            && (s == minirows_of(old))
            && (p == old & open_cells_by_minirows(s))
            && (cols == columns_of(p))
            && (both == locked_minirows_of(s) & single_column_minirows(cols))
            && (solved == rows_of(shrink_of(both)) & p)
            && (in_mask(solved, c))
            ==> (open_cells_by_columns(cols) & column_cells(c) == 0),
        (old <= 0o777_777_777)
            && (c < 27)
            && (s == minirows_of(old))
            && (p == old & open_cells_by_minirows(s))
            && (cols == columns_of(p))
            && (both == locked_minirows_of(s) & single_column_minirows(cols))
            && (solved == rows_of(shrink_of(both)) & p)
            && (in_mask(p, c))
            && (p & open_cells_beside(c) == p)
            ==> (in_mask(solved, c)),
        (old <= 0o777_777_777)
            && (c < 27)
            && (in_mask(old, c))
            && (old & open_cells_beside(c) == old)
            && (s == minirows_of(old))
            && (p == old & open_cells_by_minirows(s))
            && (p != 0)
            ==> (in_mask(p, c)),
{
}

/// How cells go through the bitwise operations.
proof fn lemma_masks(a: u32, b: u32, c: u32, x: u32)
    by (bit_vector)
    ensures
        in_mask(a & b, c) <==> in_mask(a, c) && in_mask(b, c),
        in_mask(a | b, c) <==> in_mask(a, c) || in_mask(b, c),
        in_mask(a ^ b, c) <==> (in_mask(a, c) != in_mask(b, c)),
        in_mask(a & !b, c) <==> in_mask(a, c) && !in_mask(b, c),
        !in_mask(0u32, c),
        c < 27 ==> in_mask(0o777_777_777u32, c),
        (a & b) & a == a & b,
        (a & !b) & a == a & !b,
        a & a == a,
        a & b <= a,
        a & b != a ==> a & b < a,
        a | b <= 0o777_777_777 <==> a <= 0o777_777_777 && b <= 0o777_777_777,
        a <= 0o777_777_777 && b <= 0o777_777_777 ==> a ^ b <= 0o777_777_777,
        a != 0o777_777_777 && a <= 0o777_777_777 ==> (0o777_777_777u32 & !a) != 0 && (0o777_777_777u32 & !a) <= 0o777_777_777,
        (a & b) & b == a & b,
        in_mask(a, c) && in_mask(b, c) ==> ((a & b) & !(1u32 << c)) | (1u32 << c) == a & b,
        a & b == 0 && in_mask(a, c) ==> !in_mask(b, c),
        (a & b == a) ==> (a <= b),
        (a & b == a) ==> (in_mask(a, c) ==> in_mask(b, c)),
        (a & b == a) ==> (b & x == 0 ==> a & x == 0),
        (a & b == a) ==> (b & x == b ==> a & x == a),
        (a & b == a) ==> ((a & x) & b == a & x),
        (a & b == a) ==> (b & x == x ==> (a & x) & x == a & x),
{
}

} // verus!
