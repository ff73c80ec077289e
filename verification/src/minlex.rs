//! The least grid among those that the symmetries of Sudoku make of a grid.
//!
//! The symmetries are the orders of the three bands, of the three rows
//! within each band, of the three stacks, of the three columns within each
//! stack, the exchange of rows and columns, and the renaming of the digits.

use vstd::prelude::*;
use crate::sudoku::Sudoku;

verus! {

/// The number of ways to order bands, rows, stacks and columns.
pub const ORDERINGS: usize = 1_679_616;

/// The number of symmetries but for the renaming of the digits.
pub const TRANSFORMS: usize = 3_359_232;

/// The `k`-th of three things in their `p`-th order.
pub open spec fn perm3(p: int, k: int) -> int {
    if p == 0 {
        k
    } else if p == 1 {
        if k == 0 { 0 } else if k == 1 { 2 } else { 1 }
    } else if p == 2 {
        if k == 0 { 1 } else if k == 1 { 0 } else { 2 }
    } else if p == 3 {
        if k == 0 { 1 } else if k == 1 { 2 } else { 0 }
    } else if p == 4 {
        if k == 0 { 2 } else if k == 1 { 0 } else { 1 }
    } else {
        if k == 0 { 2 } else if k == 1 { 1 } else { 0 }
    }
}

/// The line (row or column) that comes `r`-th where the bands come in their
/// `bands`-th order and the lines of the three bands in their `first`-th,
/// `second`-th and `third`-th.
pub open spec fn source_line(bands: int, first: int, second: int, third: int, r: int) -> int {
    let within = if r / 3 == 0 { first } else if r / 3 == 1 { second } else { third };
    3 * perm3(bands, r / 3) + perm3(within, r % 3)
}

/// The cell of the grid that comes to cell `i` under transform `t`.
pub open spec fn source_cell(t: int, i: int) -> int {
    let u = t % 1_679_616;
    let row = source_line(u % 6, (u / 6) % 6, (u / 36) % 6, (u / 216) % 6, i / 9);
    let col = source_line((u / 1_296) % 6, (u / 7_776) % 6, (u / 46_656) % 6, (u / 279_936) % 6, i % 9);
    if t / 1_679_616 == 0 {
        9 * row + col
    } else {
        9 * col + row
    }
}

/// The grid under transform `t`.
pub open spec fn transformed(g: Seq<u8>, t: int) -> Seq<u8> {
    Seq::new(81, |i: int| g[source_cell(t, i)])
}

/// The name that digit `v` has once the first `n` cells of `s` are read: the
/// digits are named 1, 2, 3 and so on in the order in which they are first
/// met; 0 while `v` was not met.
pub open spec fn label_of(s: Seq<u8>, v: u8, n: int) -> int
    decreases n,
{
    if n <= 0 {
        0
    } else if label_of(s, v, n - 1) != 0 {
        label_of(s, v, n - 1)
    } else if s[n - 1] == v && v != 0 {
        1 + seen_count(s, n - 1)
    } else {
        0
    }
}

/// How many different digits the first `n` cells of `s` hold.
pub open spec fn seen_count(s: Seq<u8>, n: int) -> int
    decreases n,
{
    if n <= 0 {
        0
    } else if s[n - 1] != 0 && label_of(s, s[n - 1], n - 1) == 0 {
        seen_count(s, n - 1) + 1
    } else {
        seen_count(s, n - 1)
    }
}

/// The grid with its digits renamed in the order in which they are first
/// met; empty cells stay empty.
pub open spec fn relabeled(s: Seq<u8>) -> Seq<u8> {
    Seq::new(81, |i: int| if s[i] == 0 { 0u8 } else { label_of(s, s[i], i + 1) as u8 })
}

/// The grid under transform `t`, its digits renamed.
pub open spec fn canon(g: Seq<u8>, t: int) -> Seq<u8> {
    relabeled(transformed(g, t))
}

/// Whether `a` comes before `b` or is `b`, cell by cell from place `i` on.
pub open spec fn lex_le_from(a: Seq<u8>, b: Seq<u8>, i: int) -> bool
    decreases 81 - i,
{
    if i < 0 || i >= 81 {
        true
    } else if a[i] < b[i] {
        true
    } else if a[i] > b[i] {
        false
    } else {
        lex_le_from(a, b, i + 1)
    }
}

/// Whether `a` comes before `b` or is `b`, read cell by cell.
pub open spec fn lex_le(a: Seq<u8>, b: Seq<u8>) -> bool {
    lex_le_from(a, b, 0)
}

/// Whether `m` is the least of the grids that the symmetries of Sudoku make
/// of `g`.
pub open spec fn is_minlex(g: Seq<u8>, m: Seq<u8>) -> bool {
    &&& exists|t: int| 0 <= t < TRANSFORMS && m == #[trigger] canon(g, t)
    &&& forall|t: int| 0 <= t < TRANSFORMS ==> lex_le(m, #[trigger] canon(g, t))
}

/// The order goes through a grid in between.
pub proof fn lemma_lex_trans(a: Seq<u8>, b: Seq<u8>, c: Seq<u8>, i: int)
    requires
        0 <= i <= 81,
        lex_le_from(a, b, i),
        lex_le_from(b, c, i),
    ensures
        lex_le_from(a, c, i),
    decreases 81 - i,
{
    if i < 81 && a[i] == b[i] && b[i] == c[i] {
        lemma_lex_trans(a, b, c, i + 1);
    }
}

/// A grid comes before or is itself.
pub proof fn lemma_lex_refl(a: Seq<u8>, i: int)
    requires
        0 <= i <= 81,
    ensures
        lex_le_from(a, a, i),
    decreases 81 - i,
{
    if i < 81 {
        lemma_lex_refl(a, i + 1);
    }
}

/// Two grids that agree up to a place are in the order of what follows.
proof fn lemma_lex_prefix(a: Seq<u8>, b: Seq<u8>, i: int, k: int)
    requires
        0 <= i <= k <= 81,
        forall|j: int| i <= j < k ==> a[j] == b[j],
    ensures
        lex_le_from(a, b, i) == lex_le_from(a, b, k),
    decreases k - i,
{
    if i < k {
        lemma_lex_prefix(a, b, i + 1, k);
    }
}

/// The names stay below the count of the digits that were met.
proof fn lemma_labels(s: Seq<u8>, v: u8, n: int)
    requires
        0 <= n,
    ensures
        0 <= label_of(s, v, n) <= seen_count(s, n) <= n,
        v == 0 ==> label_of(s, v, n) == 0,
    decreases n,
{
    if n > 0 {
        lemma_labels(s, v, n - 1);
        lemma_labels(s, s[n - 1], n - 1);
    }
}

/// The `k`-th of three things in their `p`-th order: see [`perm3`].
fn nth_of(p: usize, k: usize) -> (r: usize)
    requires
        p < 6,
        k < 3,
    ensures
        r == perm3(p as int, k as int),
        r < 3,
{
    if p == 0 {
        k
    } else if p == 1 {
        if k == 0 { 0 } else if k == 1 { 2 } else { 1 }
    } else if p == 2 {
        if k == 0 { 1 } else if k == 1 { 0 } else { 2 }
    } else if p == 3 {
        if k == 0 { 1 } else if k == 1 { 2 } else { 0 }
    } else if p == 4 {
        if k == 0 { 2 } else if k == 1 { 0 } else { 1 }
    } else {
        if k == 0 { 2 } else if k == 1 { 1 } else { 0 }
    }
}

/// The nine lines in the order that `bands`, `first`, `second` and `third`
/// give: see [`source_line`].
fn lines(bands: usize, first: usize, second: usize, third: usize) -> (r: [usize; 9])
    requires
        bands < 6,
        first < 6,
        second < 6,
        third < 6,
    ensures
        forall|k: int|
            0 <= k < 9 ==> #[trigger] r[k] == source_line(bands as int, first as int, second as int, third as int, k)
                && r[k] < 9,
{
    let mut out = [0usize; 9];
    let mut k: usize = 0;
    while k < 9
        invariant
            k <= 9,
            bands < 6,
            first < 6,
            second < 6,
            third < 6,
            forall|j: int|
                0 <= j < k ==> #[trigger] out[j] == source_line(
                    bands as int,
                    first as int,
                    second as int,
                    third as int,
                    j,
                ) && out[j] < 9,
        decreases 9 - k,
    {
        let within = if k / 3 == 0 { first } else if k / 3 == 1 { second } else { third };
        out[k] = 3 * nth_of(bands, k / 3) + nth_of(within, k % 3);
        k += 1;
    }
    out
}

/// The least of the grids that the symmetries of Sudoku make of a grid:
/// the grid is taken through every order of bands, rows, stacks and columns,
/// as it is and with rows and columns exchanged, its digits renamed each
/// time in the order in which they are first met.
pub fn minlex(sudoku: &Sudoku) -> (r: Sudoku)
    ensures
        is_minlex(sudoku@, r@),
{
    let mut best = candidate(sudoku, 0, None).unwrap();
    let ghost mut best_t: int = 0;
    proof {
        lemma_lex_refl(best@, 0);
    }
    let mut t: usize = 1;
    while t < TRANSFORMS
        invariant
            1 <= t <= TRANSFORMS,
            0 <= best_t < t,
            best@ == canon(sudoku@, best_t),
            forall|u: int| 0 <= u < t ==> lex_le(best@, #[trigger] canon(sudoku@, u)),
        decreases TRANSFORMS - t,
    {
        let ghost old_best = best@;
        match candidate(sudoku, t, Some(&best)) {
            None => {},
            Some(found) => {
                best = found;
                proof {
                    best_t = t as int;
                    lemma_lex_refl(best@, 0);
                    assert forall|u: int| 0 <= u < t + 1 implies lex_le(best@, #[trigger] canon(sudoku@, u)) by {
                        if u < t {
                            lemma_lex_trans(best@, old_best, canon(sudoku@, u), 0);
                        }
                    }
                }
            },
        }
        t += 1;
    }
    best
}

/// The grid under transform `t`, its digits renamed, unless it comes after
/// `limit` or is `limit`: then nothing.
fn candidate(sudoku: &Sudoku, t: usize, limit: Option<&Sudoku>) -> (r: Option<Sudoku>)
    requires
        t < TRANSFORMS,
    ensures
        match r {
            Some(found) => found@ == canon(sudoku@, t as int) && (limit matches Some(l) ==> lex_le(found@, l@)),
            None => limit matches Some(l) && lex_le(l@, canon(sudoku@, t as int)),
        },
{
    let flip = t / ORDERINGS;
    let u = t % ORDERINGS;
    let rows = lines(u % 6, (u / 6) % 6, (u / 36) % 6, (u / 216) % 6);
    let cols = lines((u / 1_296) % 6, (u / 7_776) % 6, (u / 46_656) % 6, (u / 279_936) % 6);
    let ghost source = transformed(sudoku@, t as int);
    let ghost target = canon(sudoku@, t as int);
    let mut labels = [0u8; 256];
    let mut next: u8 = 1;
    let mut out = [0u8; 81];
    // whether the grid is known to come before the limit
    let mut below = limit.is_none();
    let mut i: usize = 0;
    while i < 81
        invariant
            i <= 81,
            t < TRANSFORMS,
            flip == t / ORDERINGS,
            u == t % ORDERINGS,
            source == transformed(sudoku@, t as int),
            target == canon(sudoku@, t as int),
            forall|k: int|
                0 <= k < 9 ==> #[trigger] rows[k] == source_line(
                    (u % 6) as int,
                    ((u / 6) % 6) as int,
                    ((u / 36) % 6) as int,
                    ((u / 216) % 6) as int,
                    k,
                ) && rows[k] < 9,
            forall|k: int|
                0 <= k < 9 ==> #[trigger] cols[k] == source_line(
                    ((u / 1_296) % 6) as int,
                    ((u / 7_776) % 6) as int,
                    ((u / 46_656) % 6) as int,
                    ((u / 279_936) % 6) as int,
                    k,
                ) && cols[k] < 9,
            forall|v: int| 0 <= v < 256 ==> #[trigger] labels[v] == label_of(source, v as u8, i as int),
            next == 1 + seen_count(source, i as int),
            forall|k: int| 0 <= k < i ==> #[trigger] out[k] == target[k],
            limit is None ==> below,
            limit matches Some(l) ==> (if below {
                lex_le(target, l@) && !lex_le(l@, target)
            } else {
                forall|k: int| 0 <= k < i ==> #[trigger] target[k] == l@[k]
            }),
        decreases 81 - i,
    {
        let (r, c) = (rows[i / 9], cols[i % 9]);
        let from = if flip == 0 { 9 * r + c } else { 9 * c + r };
        let v = sudoku.get(from);
        proof {
            assert(source[i as int] == v);
            lemma_labels(source, v, i as int);
            assert forall|w: int| 0 <= w < 256 implies #[trigger] label_of(source, w as u8, i + 1) == (if label_of(
                source,
                w as u8,
                i as int,
            ) != 0 {
                label_of(source, w as u8, i as int)
            } else if v == w && w != 0 {
                1 + seen_count(source, i as int)
            } else {
                0
            }) by {}
        }
        let label = if v == 0 {
            0
        } else {
            if labels[v as usize] == 0 {
                labels[v as usize] = next;
                next += 1;
            }
            labels[v as usize]
        };
        out[i] = label;
        proof {
            assert(target[i as int] == label);
        }
        if !below {
            let l = limit.unwrap();
            let bound = l.get(i);
            if label > bound {
                proof {
                    lemma_lex_prefix(l@, target, 0, i as int);
                }
                return None;
            }
            if label < bound {
                below = true;
                proof {
                    lemma_lex_prefix(target, l@, 0, i as int);
                    lemma_lex_prefix(l@, target, 0, i as int);
                }
            }
        }
        i += 1;
    }
    if !below {
        proof {
            let l = limit.unwrap();
            lemma_lex_prefix(l@, target, 0, 81);
        }
        return None;
    }
    let found = Sudoku(out);
    proof {
        assert(found@ =~= target);
    }
    Some(found)
}

} // verus!
