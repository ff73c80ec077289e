//! What the least grid has from the symmetries: the grids that they make of
//! a grid are the grids that they make of each of those.

use vstd::prelude::*;
use crate::minlex::{
    canon, is_minlex, label_of, lex_le, lex_le_from, perm3, relabeled, seen_count, source_cell,
    source_line, transformed,
};

verus! {

/// A name that a digit has it keeps, and a digit that was met has a name.
pub proof fn lemma_label_stays(s: Seq<u8>, v: u8, n: int, m: int)
    requires
        0 <= n <= m,
    ensures
        label_of(s, v, n) != 0 ==> label_of(s, v, m) == label_of(s, v, n),
        0 <= label_of(s, v, n) <= seen_count(s, n) <= n,
        forall|j: int| 0 <= j < n && s[j] == v && v != 0 ==> label_of(s, v, n) != 0,
    decreases m,
{
    if n < m {
        lemma_label_stays(s, v, n, m - 1);
    }
    lemma_label_bounds(s, v, n);
    lemma_label_met(s, v, n);
}

/// The names stay below the count of the digits that were met.
proof fn lemma_label_bounds(s: Seq<u8>, v: u8, n: int)
    requires
        0 <= n,
    ensures
        0 <= label_of(s, v, n) <= seen_count(s, n) <= n,
    decreases n,
{
    if n > 0 {
        lemma_label_bounds(s, v, n - 1);
        lemma_label_bounds(s, s[n - 1], n - 1);
    }
}

/// A digit that was met has a name.
proof fn lemma_label_met(s: Seq<u8>, v: u8, n: int)
    requires
        0 <= n,
    ensures
        forall|j: int| 0 <= j < n && s[j] == v && v != 0 ==> label_of(s, v, n) != 0,
    decreases n,
{
    if n > 0 {
        lemma_label_met(s, v, n - 1);
        lemma_label_bounds(s, v, n - 1);
    }
}

/// Two digits have two names.
pub proof fn lemma_label_apart(s: Seq<u8>, a: u8, b: u8, n: int)
    requires
        0 <= n,
        label_of(s, a, n) == label_of(s, b, n),
        label_of(s, a, n) != 0,
    ensures
        a == b,
    decreases n,
{
    if n > 0 {
        lemma_label_bounds(s, a, n - 1);
        lemma_label_bounds(s, b, n - 1);
        if label_of(s, a, n - 1) != 0 && label_of(s, b, n - 1) != 0 {
            lemma_label_apart(s, a, b, n - 1);
        }
    }
}

/// The digits of a grid with its digits renamed are the names that the
/// digits have in the end.
pub proof fn lemma_relabeled(s: Seq<u8>, j: int)
    requires
        0 <= j < 81,
    ensures
        relabeled(s)[j] == label_of(s, s[j], 81),
        s[j] != 0 <==> relabeled(s)[j] != 0,
        label_of(s, s[j], 81) <= 81,
{
    lemma_label_stays(s, s[j], j + 1, 81);
    lemma_label_bounds(s, s[j], 81);
    lemma_label_bounds(s, s[j], j + 1);
    if s[j] == 0 {
        lemma_label_none(s, 81);
    }
}

/// An empty cell has no name.
proof fn lemma_label_none(s: Seq<u8>, n: int)
    requires
        0 <= n,
    ensures
        label_of(s, 0, n) == 0,
    decreases n,
{
    if n > 0 {
        lemma_label_none(s, n - 1);
    }
}

/// Whether `w` is `z` with its digits renamed: empty cells stay empty, and
/// two digits get two names.
pub open spec fn renamed(z: Seq<u8>, w: Seq<u8>) -> bool {
    &&& forall|i: int| 0 <= i < 81 ==> (#[trigger] w[i] == 0 <==> z[i] == 0)
    &&& forall|i: int, j: int| 0 <= i < 81 && 0 <= j < 81 ==> (#[trigger] w[i] == #[trigger] w[j] <==> z[i] == z[j])
}

/// The names of the digits of a grid are those of the grid with its digits
/// renamed.
proof fn lemma_renamed_labels(z: Seq<u8>, w: Seq<u8>, n: int)
    requires
        renamed(z, w),
        0 <= n <= 81,
    ensures
        seen_count(w, n) == seen_count(z, n),
        forall|i: int| 0 <= i < 81 ==> label_of(w, #[trigger] w[i], n) == label_of(z, z[i], n),
    decreases n,
{
    if n > 0 {
        lemma_renamed_labels(z, w, n - 1);
        assert(label_of(w, w[n - 1], n - 1) == label_of(z, z[n - 1], n - 1));
        assert forall|i: int| 0 <= i < 81 implies label_of(w, #[trigger] w[i], n) == label_of(z, z[i], n) by {
            assert(label_of(w, w[i], n - 1) == label_of(z, z[i], n - 1));
            assert(w[n - 1] == w[i] <==> z[n - 1] == z[i]);
            assert(w[i] == 0 <==> z[i] == 0);
        }
    }
}

/// A grid with its digits renamed in the order in which they are first met
/// is the same whatever the digits were called before.
pub proof fn lemma_renamed(z: Seq<u8>, w: Seq<u8>)
    requires
        renamed(z, w),
    ensures
        relabeled(w) == relabeled(z),
{
    assert forall|i: int| 0 <= i < 81 implies relabeled(w)[i] == relabeled(z)[i] by {
        lemma_renamed_labels(z, w, i + 1);
        assert(label_of(w, w[i], i + 1) == label_of(z, z[i], i + 1));
        assert(w[i] == 0 <==> z[i] == 0);
    }
    assert(relabeled(w) =~= relabeled(z));
}

/// The renaming in the order in which the digits are first met is a
/// renaming.
pub proof fn lemma_relabeled_renamed(y: Seq<u8>)
    ensures
        renamed(y, relabeled(y)),
{
    let w = relabeled(y);
    assert forall|i: int| 0 <= i < 81 implies (#[trigger] w[i] == 0 <==> y[i] == 0) by {
        lemma_relabeled(y, i);
    }
    assert forall|i: int, j: int| 0 <= i < 81 && 0 <= j < 81 implies (#[trigger] w[i] == #[trigger] w[j] <==> y[i]
        == y[j]) by {
        lemma_relabeled(y, i);
        lemma_relabeled(y, j);
        if w[i] == w[j] && w[i] != 0 {
            lemma_label_apart(y, y[i], y[j], 81);
        }
    }
}

/// The order of three things in which the first comes `a`-th and the
/// second `b`-th.
pub open spec fn order_of(a: int, b: int) -> int {
    if a == 0 {
        if b == 1 { 0 } else { 1 }
    } else if a == 1 {
        if b == 0 { 2 } else { 3 }
    } else {
        if b == 0 { 4 } else { 5 }
    }
}

/// The order of three things that is their `q`-th order taken through
/// their `p`-th.
pub open spec fn orders_joined(p: int, q: int) -> int {
    order_of(perm3(p, perm3(q, 0)), perm3(p, perm3(q, 1)))
}

/// See [`orders_joined`].
pub proof fn lemma_orders_joined(p: int, q: int, k: int)
    requires
        0 <= p < 6,
        0 <= q < 6,
        0 <= k < 3,
    ensures
        0 <= orders_joined(p, q) < 6,
        0 <= perm3(q, k) < 3,
        perm3(orders_joined(p, q), k) == perm3(p, perm3(q, k)),
{
}

/// The line that comes `r`-th in the order of nine lines with number
/// `code`: the number holds the order of the bands and the orders of the
/// lines of the three bands.
pub open spec fn line(code: int, r: int) -> int {
    source_line(code % 6, (code / 6) % 6, (code / 36) % 6, (code / 216) % 6, r)
}

/// The order of the lines of band `k` in the order with number `code`.
pub open spec fn within_of(code: int, k: int) -> int {
    if k == 0 {
        (code / 6) % 6
    } else if k == 1 {
        (code / 36) % 6
    } else {
        (code / 216) % 6
    }
}

/// The number of the order of nine lines that is the order `c` taken
/// through the order `c0`.
pub open spec fn lines_joined(c0: int, c: int) -> int {
    orders_joined(c0 % 6, c % 6) + 6 * orders_joined(within_of(c0, perm3(c % 6, 0)), within_of(c, 0)) + 36
        * orders_joined(within_of(c0, perm3(c % 6, 1)), within_of(c, 1)) + 216 * orders_joined(
        within_of(c0, perm3(c % 6, 2)),
        within_of(c, 2),
    )
}

/// The numbers of four orders of three things make the number of an order
/// of nine lines, from which they are read again.
proof fn lemma_code(a: int, b: int, c: int, d: int)
    requires
        0 <= a < 6,
        0 <= b < 6,
        0 <= c < 6,
        0 <= d < 6,
    ensures
        0 <= a + 6 * b + 36 * c + 216 * d < 1_296,
        (a + 6 * b + 36 * c + 216 * d) % 6 == a,
        ((a + 6 * b + 36 * c + 216 * d) / 6) % 6 == b,
        ((a + 6 * b + 36 * c + 216 * d) / 36) % 6 == c,
        ((a + 6 * b + 36 * c + 216 * d) / 216) % 6 == d,
{
}

/// The parts of the number of an order of nine lines.
proof fn lemma_code_parts(code: int)
    requires
        0 <= code < 1_296,
    ensures
        0 <= code % 6 < 6,
        0 <= within_of(code, 0) < 6,
        0 <= within_of(code, 1) < 6,
        0 <= within_of(code, 2) < 6,
{
}

/// The line that comes at place `m` of band `k`.
proof fn lemma_line_at(b: int, w0: int, w1: int, w2: int, k: int, m: int)
    requires
        0 <= b < 6,
        0 <= w0 < 6,
        0 <= w1 < 6,
        0 <= w2 < 6,
        0 <= k < 3,
        0 <= m < 3,
    ensures
        source_line(b, w0, w1, w2, 3 * k + m) == 3 * perm3(b, k) + perm3(
            if k == 0 { w0 } else if k == 1 { w1 } else { w2 },
            m,
        ),
        0 <= perm3(b, k) < 3,
        0 <= perm3(if k == 0 { w0 } else if k == 1 { w1 } else { w2 }, m) < 3,
{
    assert((3 * k + m) / 3 == k && (3 * k + m) % 3 == m);
}

/// See [`lines_joined`].
pub proof fn lemma_lines_joined(c0: int, c: int, r: int)
    requires
        0 <= c0 < 1_296,
        0 <= c < 1_296,
        0 <= r < 9,
    ensures
        0 <= lines_joined(c0, c) < 1_296,
        0 <= line(c, r) < 9,
        line(c0, line(c, r)) == line(lines_joined(c0, c), r),
{
    let (k, m) = (r / 3, r % 3);
    assert(r == 3 * k + m && 0 <= k < 3 && 0 <= m < 3);
    let b = c % 6;
    let b0 = c0 % 6;
    lemma_code_parts(c);
    lemma_code_parts(c0);
    let (w, kk) = (within_of(c, k), perm3(b, k));
    lemma_line_at(b, within_of(c, 0), within_of(c, 1), within_of(c, 2), k, m);
    let mm = perm3(w, m);
    let mid = 3 * kk + mm;
    assert(line(c, r) == mid);
    let w0 = within_of(c0, kk);
    lemma_line_at(b0, within_of(c0, 0), within_of(c0, 1), within_of(c0, 2), kk, mm);
    assert(line(c0, mid) == 3 * perm3(b0, kk) + perm3(w0, mm));
    lemma_orders_joined(b0, b, 0);
    lemma_orders_joined(b0, b, 1);
    lemma_orders_joined(b0, b, 2);
    lemma_orders_joined(b0, b, k);
    lemma_orders_joined(within_of(c0, perm3(b, 0)), within_of(c, 0), 0);
    lemma_orders_joined(within_of(c0, perm3(b, 1)), within_of(c, 1), 0);
    lemma_orders_joined(within_of(c0, perm3(b, 2)), within_of(c, 2), 0);
    lemma_orders_joined(w0, w, m);
    let (j0, j1, j2, j3) = (
        orders_joined(b0, b),
        orders_joined(within_of(c0, perm3(b, 0)), within_of(c, 0)),
        orders_joined(within_of(c0, perm3(b, 1)), within_of(c, 1)),
        orders_joined(within_of(c0, perm3(b, 2)), within_of(c, 2)),
    );
    let j = lines_joined(c0, c);
    assert(j == j0 + 6 * j1 + 36 * j2 + 216 * j3);
    lemma_code(j0, j1, j2, j3);
    lemma_line_at(j0, j1, j2, j3, k, m);
    assert(within_of(j, 0) == j1 && within_of(j, 1) == j2 && within_of(j, 2) == j3);
    assert(line(j, r) == 3 * perm3(j0, k) + perm3(if k == 0 { j1 } else if k == 1 { j2 } else { j3 }, m));
}

/// How the number of a transform is made of the numbers of the orders of
/// its rows and columns and of whether it exchanges them.
proof fn lemma_transform_parts(t: int)
    requires
        0 <= t < 3_359_232,
    ensures
        0 <= rows_of(t) < 1_296,
        0 <= cols_of(t) < 1_296,
        0 <= t / 1_679_616 <= 1,
        rows_of(t) % 6 == (t % 1_679_616) % 6,
        (rows_of(t) / 6) % 6 == ((t % 1_679_616) / 6) % 6,
        (rows_of(t) / 36) % 6 == ((t % 1_679_616) / 36) % 6,
        (rows_of(t) / 216) % 6 == ((t % 1_679_616) / 216) % 6,
        cols_of(t) % 6 == ((t % 1_679_616) / 1_296) % 6,
        (cols_of(t) / 6) % 6 == ((t % 1_679_616) / 7_776) % 6,
        (cols_of(t) / 36) % 6 == ((t % 1_679_616) / 46_656) % 6,
        (cols_of(t) / 216) % 6 == ((t % 1_679_616) / 279_936) % 6,
{
    let u = t % 1_679_616;
    lemma_low_part(u);
    lemma_high_part(u);
}

/// The lower part of a number has the lower places of the number.
proof fn lemma_low_part(u: int)
    requires
        0 <= u,
    ensures
        (u % 1_296) % 6 == u % 6,
        ((u % 1_296) / 6) % 6 == (u / 6) % 6,
        ((u % 1_296) / 36) % 6 == (u / 36) % 6,
        ((u % 1_296) / 216) % 6 == (u / 216) % 6,
{
    let q = u / 1_296;
    let r = u % 1_296;
    assert(u == 1_296 * q + r);
    assert(u / 6 == 216 * q + r / 6);
    assert(u / 36 == 36 * q + r / 36);
    assert(u / 216 == 6 * q + r / 216);
}

/// The upper part of a number has the upper places of the number.
proof fn lemma_high_part(u: int)
    requires
        0 <= u,
    ensures
        (u / 1_296) / 6 == u / 7_776,
        (u / 1_296) / 36 == u / 46_656,
        (u / 1_296) / 216 == u / 279_936,
{
}

/// A transform with given orders of its rows and columns.
proof fn lemma_transform_made(rc: int, cc: int, x: int)
    requires
        0 <= rc < 1_296,
        0 <= cc < 1_296,
        0 <= x <= 1,
    ensures
        0 <= rc + 1_296 * cc + 1_679_616 * x < 3_359_232,
        rows_of(rc + 1_296 * cc + 1_679_616 * x) == rc,
        cols_of(rc + 1_296 * cc + 1_679_616 * x) == cc,
        (rc + 1_296 * cc + 1_679_616 * x) / 1_679_616 == x,
{
}

/// The number of the orders of the rows of transform `t`.
pub open spec fn rows_of(t: int) -> int {
    (t % 1_679_616) % 1_296
}

/// The number of the orders of the columns of transform `t`.
pub open spec fn cols_of(t: int) -> int {
    (t % 1_679_616) / 1_296
}

/// The cell that comes to cell `i` under a transform, by the numbers of
/// the orders of its rows and columns.
pub proof fn lemma_source_cell(t: int, i: int)
    requires
        0 <= t < 3_359_232,
        0 <= i < 81,
    ensures
        0 <= rows_of(t) < 1_296,
        0 <= cols_of(t) < 1_296,
        0 <= line(rows_of(t), i / 9) < 9,
        0 <= line(cols_of(t), i % 9) < 9,
        0 <= source_cell(t, i) < 81,
        source_cell(t, i) == (if t / 1_679_616 == 0 {
            9 * line(rows_of(t), i / 9) + line(cols_of(t), i % 9)
        } else {
            9 * line(cols_of(t), i % 9) + line(rows_of(t), i / 9)
        }),
{
    lemma_transform_parts(t);
    let (rc, cc) = (rows_of(t), cols_of(t));
    lemma_lines_joined(0, rc, i / 9);
    lemma_lines_joined(0, cc, i % 9);
}

/// The transform that is transform `t0` followed by transform `t`.
pub open spec fn joined(t0: int, t: int) -> int {
    if t / 1_679_616 == 0 {
        lines_joined(rows_of(t0), rows_of(t)) + 1_296 * lines_joined(cols_of(t0), cols_of(t)) + 1_679_616 * (t0
            / 1_679_616)
    } else {
        lines_joined(cols_of(t0), rows_of(t)) + 1_296 * lines_joined(rows_of(t0), cols_of(t)) + 1_679_616 * (1 - t0
            / 1_679_616)
    }
}

/// A transform of a transform is a transform.
pub proof fn lemma_joined(t0: int, t: int, i: int)
    requires
        0 <= t0 < 3_359_232,
        0 <= t < 3_359_232,
        0 <= i < 81,
    ensures
        0 <= joined(t0, t) < 3_359_232,
        0 <= source_cell(t, i) < 81,
        source_cell(t0, source_cell(t, i)) == source_cell(joined(t0, t), i),
{
    let j = joined(t0, t);
    let mid = source_cell(t, i);
    lemma_source_cell(t, i);
    lemma_source_cell(t0, mid);
    lemma_transform_parts(t);
    lemma_transform_parts(t0);
    let (r, c) = (line(rows_of(t), i / 9), line(cols_of(t), i % 9));
    if t / 1_679_616 == 0 {
        lemma_lines_joined(rows_of(t0), rows_of(t), i / 9);
        lemma_lines_joined(cols_of(t0), cols_of(t), i % 9);
        lemma_transform_made(
            lines_joined(rows_of(t0), rows_of(t)),
            lines_joined(cols_of(t0), cols_of(t)),
            t0 / 1_679_616,
        );
        assert(mid == 9 * r + c);
        assert(mid / 9 == r && mid % 9 == c);
    } else {
        lemma_lines_joined(cols_of(t0), rows_of(t), i / 9);
        lemma_lines_joined(rows_of(t0), cols_of(t), i % 9);
        lemma_transform_made(
            lines_joined(cols_of(t0), rows_of(t)),
            lines_joined(rows_of(t0), cols_of(t)),
            1 - t0 / 1_679_616,
        );
        assert(mid == 9 * c + r);
        assert(mid / 9 == c && mid % 9 == r);
    }
    lemma_source_cell(j, i);
}

/// The order of three things that takes their `p`-th order back.
pub open spec fn order_back(p: int) -> int {
    if p == 3 {
        4
    } else if p == 4 {
        3
    } else {
        p
    }
}

/// The number of the order of nine lines that takes the order `c` back.
pub open spec fn lines_back(c: int) -> int {
    order_back(c % 6) + 6 * order_back(within_of(c, perm3(order_back(c % 6), 0))) + 36 * order_back(
        within_of(c, perm3(order_back(c % 6), 1)),
    ) + 216 * order_back(within_of(c, perm3(order_back(c % 6), 2)))
}

/// See [`lines_back`].
proof fn lemma_lines_back(c: int)
    requires
        0 <= c < 1_296,
    ensures
        0 <= lines_back(c) < 1_296,
        lines_joined(c, lines_back(c)) == 0,
{
    lemma_code_parts(c);
    let b = c % 6;
    let bb = order_back(b);
    let (v0, v1, v2) = (
        order_back(within_of(c, perm3(bb, 0))),
        order_back(within_of(c, perm3(bb, 1))),
        order_back(within_of(c, perm3(bb, 2))),
    );
    lemma_code(bb, v0, v1, v2);
    let back = lines_back(c);
    assert(back == bb + 6 * v0 + 36 * v1 + 216 * v2);
    assert(back % 6 == bb && within_of(back, 0) == v0 && within_of(back, 1) == v1 && within_of(back, 2) == v2);
    assert(orders_joined(b, bb) == 0);
    assert(orders_joined(within_of(c, perm3(bb, 0)), v0) == 0);
    assert(orders_joined(within_of(c, perm3(bb, 1)), v1) == 0);
    assert(orders_joined(within_of(c, perm3(bb, 2)), v2) == 0);
}

/// The transform that takes transform `t` back.
pub open spec fn undone(t: int) -> int {
    if t / 1_679_616 == 0 {
        lines_back(rows_of(t)) + 1_296 * lines_back(cols_of(t))
    } else {
        lines_back(cols_of(t)) + 1_296 * lines_back(rows_of(t)) + 1_679_616
    }
}

/// A transform after the transform that takes it back leaves every cell
/// where it is.
pub proof fn lemma_undone(t: int, i: int)
    requires
        0 <= t < 3_359_232,
        0 <= i < 81,
    ensures
        0 <= undone(t) < 3_359_232,
        0 <= source_cell(undone(t), i) < 81,
        source_cell(t, source_cell(undone(t), i)) == i,
{
    lemma_transform_parts(t);
    lemma_lines_back(rows_of(t));
    lemma_lines_back(cols_of(t));
    let back = undone(t);
    if t / 1_679_616 == 0 {
        lemma_transform_made(lines_back(rows_of(t)), lines_back(cols_of(t)), 0);
    } else {
        lemma_transform_made(lines_back(cols_of(t)), lines_back(rows_of(t)), 1);
    }
    lemma_joined(t, back, i);
    assert(joined(t, back) == 0);
    lemma_source_cell(0, i);
    assert(line(0, i / 9) == i / 9);
    assert(line(0, i % 9) == i % 9);
}

/// Two grids that come before each other are one grid.
pub proof fn lemma_lex_same(a: Seq<u8>, b: Seq<u8>, i: int)
    requires
        0 <= i <= 81,
        a.len() == 81,
        b.len() == 81,
        lex_le_from(a, b, i),
        lex_le_from(b, a, i),
    ensures
        forall|j: int| i <= j < 81 ==> a[j] == b[j],
    decreases 81 - i,
{
    if i < 81 {
        lemma_lex_same(a, b, i + 1);
    }
}

/// The grids that the symmetries make of a grid `h`, which is grid `g`
/// under transform `t0` with its digits renamed, are grids that they make
/// of `g`.
pub proof fn lemma_canon_joined(g: Seq<u8>, t0: int, h: Seq<u8>, t: int)
    requires
        0 <= t0 < 3_359_232,
        0 <= t < 3_359_232,
        renamed(transformed(g, t0), h),
    ensures
        0 <= joined(t0, t) < 3_359_232,
        canon(h, t) == canon(g, joined(t0, t)),
{
    let z = transformed(g, joined(t0, t));
    let w = transformed(h, t);
    lemma_joined(t0, t, 0);
    assert forall|i: int| 0 <= i < 81 implies z[i] == transformed(g, t0)[source_cell(t, i)] && 0 <= source_cell(t, i)
        < 81 by {
        lemma_joined(t0, t, i);
    }
    assert(renamed(z, w));
    lemma_renamed(z, w);
}

/// The grids that the symmetries make of a grid `g` are grids that they
/// make of `h`, which is `g` under transform `t0` with its digits renamed.
pub proof fn lemma_canon_back(g: Seq<u8>, t0: int, h: Seq<u8>, t1: int) -> (t: int)
    requires
        0 <= t0 < 3_359_232,
        0 <= t1 < 3_359_232,
        renamed(transformed(g, t0), h),
    ensures
        0 <= t < 3_359_232,
        canon(h, t) == canon(g, t1),
{
    lemma_undone(t0, 0);
    let t = joined(undone(t0), t1);
    lemma_joined(undone(t0), t1, 0);
    lemma_canon_joined(g, t0, h, t);
    assert forall|i: int| 0 <= i < 81 implies source_cell(joined(t0, t), i) == source_cell(t1, i) by {
        lemma_joined(t0, t, i);
        lemma_joined(undone(t0), t1, i);
        lemma_undone(t0, source_cell(t1, i));
    }
    assert(transformed(g, joined(t0, t)) =~= transformed(g, t1));
    t
}

/// A grid and the grid that a symmetry makes of it have the same least
/// grid: `h` is `g` under transform `t0` with its digits renamed, `m1` the
/// least grid of `g` and `m2` that of `h`.
pub proof fn lemma_minlex_invariant(g: Seq<u8>, t0: int, h: Seq<u8>, m1: Seq<u8>, m2: Seq<u8>)
    requires
        0 <= t0 < 3_359_232,
        renamed(transformed(g, t0), h),
        is_minlex(g, m1),
        is_minlex(h, m2),
    ensures
        m1 == m2,
{
    let t2 = choose|t: int| 0 <= t < 3_359_232 && m2 == #[trigger] canon(h, t);
    lemma_canon_joined(g, t0, h, t2);
    assert(lex_le(m1, canon(g, joined(t0, t2))));
    let t1 = choose|t: int| 0 <= t < 3_359_232 && m1 == #[trigger] canon(g, t);
    let t = lemma_canon_back(g, t0, h, t1);
    assert(lex_le(m2, canon(h, t)));
    lemma_lex_same(m1, m2, 0);
    assert(m1 =~= m2);
}

/// The least grid of a least grid is that grid: `m` is the least grid of
/// `g`, and `mm` that of `m`.
pub proof fn lemma_minlex_idempotent(g: Seq<u8>, m: Seq<u8>, mm: Seq<u8>)
    requires
        is_minlex(g, m),
        is_minlex(m, mm),
    ensures
        mm == m,
{
    let t0 = choose|t: int| 0 <= t < 3_359_232 && m == #[trigger] canon(g, t);
    lemma_relabeled_renamed(transformed(g, t0));
    lemma_minlex_invariant(g, t0, m, m, mm);
}

} // verus!
