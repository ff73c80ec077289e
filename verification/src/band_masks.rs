//! Bit projections over one band of the grid.
//!
//! A band is three rows of nine cells. A band mask has 27 bits, bit
//! `9 * row + column` standing for one cell. A minirow mask has 9 bits, bit
//! `3 * row + stack` standing for the three cells that a row shares with a
//! box. A column mask has 9 bits, one per column of the band.

use vstd::prelude::*;

verus! {

/// The band mask without any cell.
pub const NONE: u32 = 0;

/// The band mask of all 27 cells.
pub const ALL: u32 = 0o777_777_777;

/// The nine cells of the first row of a band.
pub const LOW9: u32 = 0o777;

/// True when exactly one of the three low bits of `t` is set.
pub open spec fn single3(t: u32) -> bool {
    t == 1 || t == 2 || t == 4
}

/// The 3-bit mask `t` repeated in each of the three groups of a 9-bit mask.
pub open spec fn spread3(t: u32) -> u32 {
    t | (t << 3) | (t << 6)
}

/// The 9-bit mask `t` repeated in each of the three rows of a band mask.
pub open spec fn spread9(t: u32) -> u32 {
    t | (t << 9) | (t << 18)
}

/// One bit per group of three bits of the 9-bit mask `m`: set when the group
/// holds any bit.
pub open spec fn shrink_of(m: u32) -> u32 {
    (if m & 0o007 != 0 { 1u32 } else { 0u32 })
        | (if m & 0o070 != 0 { 2u32 } else { 0u32 })
        | (if m & 0o700 != 0 { 4u32 } else { 0u32 })
}

/// The minirow mask of a band mask: which minirows hold any cell of `cells`.
pub open spec fn minirows_of(cells: u32) -> u32 {
    shrink_of(cells & 0o777) | (shrink_of((cells >> 9) & 0o777) << 3)
        | (shrink_of((cells >> 18) & 0o777) << 6)
}

/// The column mask of a band mask: which columns hold any cell of `cells`.
pub open spec fn columns_of(cells: u32) -> u32 {
    (cells | (cells >> 9) | (cells >> 18)) & 0o777
}

/// The band mask of the rows named by the 3-bit mask `rows`.
pub open spec fn rows_of(rows: u32) -> u32 {
    (if rows & 1 != 0 { 0o000_000_777u32 } else { 0u32 })
        | (if rows & 2 != 0 { 0o000_777_000u32 } else { 0u32 })
        | (if rows & 4 != 0 { 0o777_000_000u32 } else { 0u32 })
}

/// The band mask that holds all three cells of every minirow in `minirows`.
pub open spec fn cells_of_minirows(minirows: u32) -> u32 {
    (if minirows & 0o001 != 0 { 0o000_000_007u32 } else { 0u32 })
        | (if minirows & 0o002 != 0 { 0o000_000_070u32 } else { 0u32 })
        | (if minirows & 0o004 != 0 { 0o000_000_700u32 } else { 0u32 })
        | (if minirows & 0o010 != 0 { 0o000_007_000u32 } else { 0u32 })
        | (if minirows & 0o020 != 0 { 0o000_070_000u32 } else { 0u32 })
        | (if minirows & 0o040 != 0 { 0o000_700_000u32 } else { 0u32 })
        | (if minirows & 0o100 != 0 { 0o007_000_000u32 } else { 0u32 })
        | (if minirows & 0o200 != 0 { 0o070_000_000u32 } else { 0u32 })
        | (if minirows & 0o400 != 0 { 0o700_000_000u32 } else { 0u32 })
}

/// The minirows of `s` that lie on a placement: a choice of one minirow in
/// each row, in three different boxes, all of them in `s`.
pub open spec fn placeable_minirows(s: u32) -> u32 {
    (if s & 0o421 == 0o421 { 0o421u32 } else { 0u32 })
        | (if s & 0o241 == 0o241 { 0o241u32 } else { 0u32 })
        | (if s & 0o412 == 0o412 { 0o412u32 } else { 0u32 })
        | (if s & 0o142 == 0o142 { 0o142u32 } else { 0u32 })
        | (if s & 0o214 == 0o214 { 0o214u32 } else { 0u32 })
        | (if s & 0o124 == 0o124 { 0o124u32 } else { 0u32 })
}

/// The minirows that a row or a box of `s` rules out: where a row of `s` holds
/// a single minirow, that box is closed to the other rows; where a box of `s`
/// holds a single minirow, that row is closed to the other boxes.
pub open spec fn excluded_minirows(s: u32) -> u32 {
    (if single3(s & 7) { spread3(s & 7) & 0o770 } else { 0u32 })
        | (if single3((s >> 3) & 7) { spread3((s >> 3) & 7) & 0o707 } else { 0u32 })
        | (if single3((s >> 6) & 7) { spread3((s >> 6) & 7) & 0o077 } else { 0u32 })
        | (if s & 0o111 == 0o001 { 0o006u32 } else if s & 0o111 == 0o010 { 0o060u32 } else if s & 0o111 == 0o100 { 0o600u32 } else { 0u32 })
        | (if s & 0o222 == 0o002 { 0o005u32 } else if s & 0o222 == 0o020 { 0o050u32 } else if s & 0o222 == 0o200 { 0o500u32 } else { 0u32 })
        | (if s & 0o444 == 0o004 { 0o003u32 } else if s & 0o444 == 0o040 { 0o030u32 } else if s & 0o444 == 0o400 { 0o300u32 } else { 0u32 })
}

/// The cells of a band that stay open to a digit whose candidates fill the
/// minirows `s`: none where `s` admits no placement, otherwise the cells of
/// every minirow that no row or box of `s` rules out.
pub open spec fn open_cells_by_minirows(s: u32) -> u32 {
    if placeable_minirows(s) == 0 {
        0u32
    } else {
        cells_of_minirows(0o777 & !excluded_minirows(s))
    }
}

/// The minirows that are alone in their row among the placeable minirows of `s`.
pub open spec fn locked_minirows_of(s: u32) -> u32 {
    let p = placeable_minirows(s);
    (if single3(p & 7) { p & 0o007 } else { 0u32 })
        | (if single3((p >> 3) & 7) { p & 0o070 } else { 0u32 })
        | (if single3((p >> 6) & 7) { p & 0o700 } else { 0u32 })
}

/// The minirows of the boxes in whose stack `columns` holds exactly one
/// column; none where some stack holds no column.
pub open spec fn single_column_minirows(columns: u32) -> u32 {
    if columns & 0o007 == 0 || columns & 0o070 == 0 || columns & 0o700 == 0 {
        0u32
    } else {
        (if single3(columns & 7) { 0o111u32 } else { 0u32 })
            | (if single3((columns >> 3) & 7) { 0o222u32 } else { 0u32 })
            | (if single3((columns >> 6) & 7) { 0o444u32 } else { 0u32 })
    }
}

/// The cells of a neighbouring band that stay open to a digit whose candidates
/// in this band fill `columns`: a column that is alone in its stack is closed.
pub open spec fn open_cells_by_columns(columns: u32) -> u32 {
    0o777_777_777u32 & !(
        (if single3(columns & 7) { spread9(columns & 0o007) } else { 0u32 })
        | (if single3((columns >> 3) & 7) { spread9(columns & 0o070) } else { 0u32 })
        | (if single3((columns >> 6) & 7) { spread9(columns & 0o700) } else { 0u32 })
    )
}

/// The cells of a band that a digit placed at band cell `c` leaves open in
/// that band: the cell itself and the cells outside its row and its box.
pub open spec fn open_cells_beside(c: u32) -> u32 {
    let m = 1u32 << c;
    let row = (if m & 0o000_000_777 != 0 { 0o000_000_777u32 } else if m & 0o000_777_000 != 0 { 0o000_777_000u32 } else { 0o777_000_000u32 });
    let bx = (if m & 0o007_007_007 != 0 { 0o007_007_007u32 } else if m & 0o070_070_070 != 0 { 0o070_070_070u32 } else { 0o700_700_700u32 });
    (0o777_777_777u32 & !(row | bx)) | m
}

/// The cells of a band outside column `col`.
pub open spec fn open_cells_off_column(col: u32) -> u32 {
    0o777_777_777u32 & !spread9(1u32 << col)
}

/// Whether band cell `c` is in the band mask `mask`.
pub open spec fn in_mask(mask: u32, c: u32) -> bool {
    mask & (1u32 << c) != 0
}

/// The band mask of the column of band cell `c`.
pub open spec fn column_cells(c: u32) -> u32 {
    spread9(columns_of(1u32 << c))
}

/// The two subbands that hold the digit of `subband` in the other two bands.
pub open spec fn neighbours_of(subband: int) -> (int, int) {
    (subband - subband % 3 + (subband + 1) % 3, subband - subband % 3 + (subband + 2) % 3)
}

/// Collapses each group of three bits of a 9-bit mask to one bit: see [`shrink_of`].
pub fn shrink_mask(cell_mask: u32) -> (r: u32)
    ensures
        r == shrink_of(cell_mask),
        r <= 7,
{
    let r = (if cell_mask & 0o007 != 0 { 1u32 } else { 0u32 })
        | (if cell_mask & 0o070 != 0 { 2u32 } else { 0u32 })
        | (if cell_mask & 0o700 != 0 { 4u32 } else { 0u32 });
    proof {
        lemma_shrink_bound(cell_mask);
    }
    r
}

/// Expands a 3-bit mask of rows to the band mask of those rows: see [`rows_of`].
pub fn row_mask(shrink_mask: u32) -> (r: u32)
    ensures
        r == rows_of(shrink_mask),
{
    (if shrink_mask & 1 != 0 { 0o000_000_777u32 } else { 0u32 })
        | (if shrink_mask & 2 != 0 { 0o000_777_000u32 } else { 0u32 })
        | (if shrink_mask & 4 != 0 { 0o777_000_000u32 } else { 0u32 })
}

/// The minirow mask of a band mask: see [`minirows_of`].
pub fn minirows(cells: u32) -> (r: u32)
    ensures
        r == minirows_of(cells),
{
    shrink_mask(cells & 0o777) | (shrink_mask((cells >> 9) & 0o777) << 3)
        | (shrink_mask((cells >> 18) & 0o777) << 6)
}

/// The column mask of a band mask: see [`columns_of`].
pub fn columns(cells: u32) -> (r: u32)
    ensures
        r == columns_of(cells),
{
    (cells | (cells >> 9) | (cells >> 18)) & 0o777
}

/// The cells that a digit placed at `cell` leaves open in its own band:
/// see [`open_cells_beside`].
pub fn nonconflicting_cells_same_band(cell: usize) -> (r: u32)
    requires
        cell < 81,
    ensures
        r == open_cells_beside((cell % 27) as u32),
        forall|e: u32|
            e < 27 ==> (#[trigger] in_mask(r, e) <==> e == (cell % 27) as u32 || (e / 9 != (cell % 27) as u32 / 9 && (e
                % 9) / 3 != ((cell % 27) as u32 % 9) / 3)),
{
    let c: u32 = (cell % 27) as u32;
    let m: u32 = 1u32 << c;
    let row: u32 = if m & 0o000_000_777 != 0 {
        0o000_000_777u32
    } else if m & 0o000_777_000 != 0 {
        0o000_777_000u32
    } else {
        0o777_000_000u32
    };
    let bx: u32 = if m & 0o007_007_007 != 0 {
        0o007_007_007u32
    } else if m & 0o070_070_070 != 0 {
        0o070_070_070u32
    } else {
        0o700_700_700u32
    };
    let r = (0o777_777_777u32 & !(row | bx)) | m;
    proof {
        assert forall|e: u32| e < 27 implies (#[trigger] in_mask(r, e) <==> e == c || (e / 9 != c / 9 && (e % 9) / 3 != (c
            % 9) / 3)) by {
            lemma_open_cells(c, e);
        }
    }
    r
}

/// The cells that a digit placed at `cell` leaves open in the other two
/// bands: see [`open_cells_off_column`].
pub fn nonconflicting_cells_neighbour_bands(cell: usize) -> (r: u32)
    requires
        cell < 81,
    ensures
        r == open_cells_off_column((cell % 9) as u32),
        forall|e: u32| e < 27 ==> (#[trigger] in_mask(r, e) <==> e % 9 != (cell % 9) as u32),
{
    let col: u32 = (cell % 9) as u32;
    let t: u32 = 1u32 << col;
    let r = 0o777_777_777u32 & !(t | (t << 9) | (t << 18));
    proof {
        assert forall|e: u32| e < 27 implies (#[trigger] in_mask(r, e) <==> e % 9 != col) by {
            lemma_open_cells(col, e);
        }
    }
    r
}

/// The minirows of `s` that lie on a placement: see [`placeable_minirows`].
fn placeable(s: u32) -> (r: u32)
    ensures
        r == placeable_minirows(s),
{
    (if s & 0o421 == 0o421 { 0o421u32 } else { 0u32 })
        | (if s & 0o241 == 0o241 { 0o241u32 } else { 0u32 })
        | (if s & 0o412 == 0o412 { 0o412u32 } else { 0u32 })
        | (if s & 0o142 == 0o142 { 0o142u32 } else { 0u32 })
        | (if s & 0o214 == 0o214 { 0o214u32 } else { 0u32 })
        | (if s & 0o124 == 0o124 { 0o124u32 } else { 0u32 })
}

/// Whether exactly one of the three low bits of `t` is set, `t` being at most 7.
fn is_single3(t: u32) -> (r: bool)
    ensures
        r == single3(t),
{
    t == 1 || t == 2 || t == 4
}

/// The minirows that a row or a box of `s` rules out: see [`excluded_minirows`].
fn excluded(s: u32) -> (r: u32)
    ensures
        r == excluded_minirows(s),
{
    let r0: u32 = s & 7;
    let r1: u32 = (s >> 3) & 7;
    let r2: u32 = (s >> 6) & 7;
    let b0: u32 = s & 0o111;
    let b1: u32 = s & 0o222;
    let b2: u32 = s & 0o444;
    (if is_single3(r0) { (r0 | (r0 << 3) | (r0 << 6)) & 0o770 } else { 0u32 })
        | (if is_single3(r1) { (r1 | (r1 << 3) | (r1 << 6)) & 0o707 } else { 0u32 })
        | (if is_single3(r2) { (r2 | (r2 << 3) | (r2 << 6)) & 0o077 } else { 0u32 })
        | (if b0 == 0o001 { 0o006u32 } else if b0 == 0o010 { 0o060u32 } else if b0 == 0o100 { 0o600u32 } else { 0u32 })
        | (if b1 == 0o002 { 0o005u32 } else if b1 == 0o020 { 0o050u32 } else if b1 == 0o200 { 0o500u32 } else { 0u32 })
        | (if b2 == 0o004 { 0o003u32 } else if b2 == 0o040 { 0o030u32 } else if b2 == 0o400 { 0o300u32 } else { 0u32 })
}

/// The band mask of the minirows in `minirows`: see [`cells_of_minirows`].
fn minirow_cells(minirows: u32) -> (r: u32)
    ensures
        r == cells_of_minirows(minirows),
{
    (if minirows & 0o001 != 0 { 0o000_000_007u32 } else { 0u32 })
        | (if minirows & 0o002 != 0 { 0o000_000_070u32 } else { 0u32 })
        | (if minirows & 0o004 != 0 { 0o000_000_700u32 } else { 0u32 })
        | (if minirows & 0o010 != 0 { 0o000_007_000u32 } else { 0u32 })
        | (if minirows & 0o020 != 0 { 0o000_070_000u32 } else { 0u32 })
        | (if minirows & 0o040 != 0 { 0o000_700_000u32 } else { 0u32 })
        | (if minirows & 0o100 != 0 { 0o007_000_000u32 } else { 0u32 })
        | (if minirows & 0o200 != 0 { 0o070_000_000u32 } else { 0u32 })
        | (if minirows & 0o400 != 0 { 0o700_000_000u32 } else { 0u32 })
}

/// The cells of a band that stay open to a digit whose candidates fill the
/// minirows `shrink`: see [`open_cells_by_minirows`].
pub fn nonconflicting_cells_same_band_by_locked_candidates(shrink: u32) -> (r: u32)
    ensures
        r == open_cells_by_minirows(shrink),
        shrink <= 0o777 ==> cells_of_minirows(shrink) & r == cells_of_minirows(placeable_minirows(shrink)),
{
    proof {
        if shrink <= 0o777 {
            lemma_open_minirows(shrink);
        }
    }
    if placeable(shrink) == 0 {
        0
    } else {
        minirow_cells(0o777 & !excluded(shrink))
    }
}

/// The cells of a neighbouring band that stay open to a digit whose
/// candidates in this band fill `columns`: see [`open_cells_by_columns`].
pub fn nonconflicting_cells_neighbour_bands_by_locked_candidates(columns: u32) -> (r: u32)
    ensures
        r == open_cells_by_columns(columns),
        forall|e: u32|
            e < 27 ==> (#[trigger] in_mask(r, e) <==> !(in_mask(columns, e % 9) && single3(
                (columns >> (3 * ((e % 9) / 3)) as u32) & 7,
            ))),
{
    proof {
        assert forall|e: u32| e < 27 implies (#[trigger] in_mask(open_cells_by_columns(columns), e) <==> !(in_mask(
            columns,
            e % 9,
        ) && single3((columns >> (3 * ((e % 9) / 3)) as u32) & 7))) by {
            lemma_open_columns(columns, e, (3 * ((e % 9) / 3)) as u32);
        }
    }
    let c0: u32 = columns & 0o007;
    let c1: u32 = columns & 0o070;
    let c2: u32 = columns & 0o700;
    0o777_777_777u32 & !(
        (if is_single3(columns & 7) { c0 | (c0 << 9) | (c0 << 18) } else { 0u32 })
        | (if is_single3((columns >> 3) & 7) { c1 | (c1 << 9) | (c1 << 18) } else { 0u32 })
        | (if is_single3((columns >> 6) & 7) { c2 | (c2 << 9) | (c2 << 18) } else { 0u32 })
    )
}

/// The minirows that are alone in their row among the placeable minirows of
/// `shrink`: see [`locked_minirows_of`].
pub fn locked_minirows(shrink: u32) -> (r: u32)
    ensures
        r == locked_minirows_of(shrink),
{
    let p: u32 = placeable(shrink);
    (if is_single3(p & 7) { p & 0o007 } else { 0u32 })
        | (if is_single3((p >> 3) & 7) { p & 0o070 } else { 0u32 })
        | (if is_single3((p >> 6) & 7) { p & 0o700 } else { 0u32 })
}

/// The minirows of the boxes whose stack holds exactly one column of
/// `shrink`: see [`single_column_minirows`].
pub fn column_single(shrink: u32) -> (r: u32)
    ensures
        r == single_column_minirows(shrink),
{
    if shrink & 0o007 == 0 || shrink & 0o070 == 0 || shrink & 0o700 == 0 {
        0
    } else {
        (if is_single3(shrink & 7) { 0o111u32 } else { 0u32 })
            | (if is_single3((shrink >> 3) & 7) { 0o222u32 } else { 0u32 })
            | (if is_single3((shrink >> 6) & 7) { 0o444u32 } else { 0u32 })
    }
}

/// The subbands of the same digit in the other two bands: see [`neighbours_of`].
pub fn neighbour_subbands(subband: usize) -> (r: (usize, usize))
    requires
        subband < 27,
    ensures
        r.0 == neighbours_of(subband as int).0,
        r.1 == neighbours_of(subband as int).1,
        r.0 < 27,
        r.1 < 27,
        r.0 != subband,
        r.1 != subband,
        r.0 != r.1,
        r.0 / 3 == subband / 3,
        r.1 / 3 == subband / 3,
{
    let band = subband % 3;
    let base = subband - band;
    (base + (subband + 1) % 3, base + (subband + 2) % 3)
}

/// A digit placed at band cell `c` leaves open, in its band, the cell and
/// the cells off its row and its box; and in the other bands, the cells off
/// its column.
pub proof fn lemma_open_cells(c: u32, e: u32)
    by (bit_vector)
    requires
        c < 27,
        e < 27,
    ensures
        in_mask(open_cells_beside(c), e) <==> (e == c || (e / 9 != c / 9 && (e % 9) / 3 != (c % 9) / 3)),
        c < 9 ==> (in_mask(open_cells_off_column(c), e) <==> e % 9 != c),
{
}

/// Of the cells of the minirows `s`, those stay open that lie in a minirow
/// on a placement: one minirow in each row, in three different boxes.
pub proof fn lemma_open_minirows(s: u32)
    by (bit_vector)
    requires
        s <= 0o777,
    ensures
        cells_of_minirows(s) & open_cells_by_minirows(s) == cells_of_minirows(placeable_minirows(s)),
{
}

/// In the neighbouring bands a cell is closed where its column is one of
/// `columns` and alone in its stack there; `shift` is three times the
/// stack of the cell.
pub proof fn lemma_open_columns(columns: u32, e: u32, shift: u32)
    by (bit_vector)
    requires
        e < 27,
        shift == 3 * ((e % 9) / 3),
    ensures
        in_mask(open_cells_by_columns(columns), e) <==> !(in_mask(columns, e % 9) && single3((columns >> shift) & 7)),
{
}

/// The bound of [`shrink_of`].
pub proof fn lemma_shrink_bound(m: u32)
    ensures
        shrink_of(m) <= 7,
{
    let a = if m & 0o007 != 0 { 1u32 } else { 0u32 };
    let b = if m & 0o070 != 0 { 2u32 } else { 0u32 };
    let c = if m & 0o700 != 0 { 4u32 } else { 0u32 };
    assert(a | b | c <= 7) by (bit_vector)
        requires
            a <= 1,
            b <= 2,
            c <= 4,
    ;
}

} // verus!
