//! How much of a search is done, as the places of a number between 0 and 1.
//!
//! Each place is a pair: how many of the steps of a level are done, and how
//! many steps the level has. The places of `[(0, 1), (1, 2), (2, 3)]` stand
//! for a half and two thirds of the other half.

use vstd::prelude::*;
use vstd::arithmetic::div_mod::{lemma_div_is_ordered, lemma_div_pos_is_pos};

verus! {

/// Whether each place has at least one step and no more steps done than
/// it has.
pub open spec fn digits_ok(digits: Seq<(usize, usize)>) -> bool {
    forall|i: int| 0 <= i < digits.len() ==> (#[trigger] digits[i]).0 <= digits[i].1 && digits[i].1 >= 1
}

/// Whether the places of `a` stand for no more than those of `b`: `a` has
/// no place, or their first places are of the same level and `a` has fewer
/// steps done there, or as many and the places that follow are in order.
pub open spec fn digits_le(a: Seq<(usize, usize)>, b: Seq<(usize, usize)>) -> bool
    decreases a.len(),
{
    if a.len() == 0 {
        true
    } else if b.len() == 0 {
        false
    } else {
        a[0].1 == b[0].1 && (a[0].0 < b[0].0 || (a[0].0 == b[0].0 && digits_le(a.drop_first(), b.drop_first())))
    }
}

/// The places stand for no more than themselves.
pub proof fn lemma_digits_le_refl(a: Seq<(usize, usize)>)
    ensures
        digits_le(a, a),
    decreases a.len(),
{
    if a.len() > 0 {
        lemma_digits_le_refl(a.drop_first());
    }
}

/// The order goes through places in between.
pub proof fn lemma_digits_le_trans(a: Seq<(usize, usize)>, b: Seq<(usize, usize)>, c: Seq<(usize, usize)>)
    requires
        digits_le(a, b),
        digits_le(b, c),
    ensures
        digits_le(a, c),
    decreases a.len(),
{
    if a.len() > 0 && a[0].0 == b[0].0 && b[0].0 == c[0].0 {
        lemma_digits_le_trans(a.drop_first(), b.drop_first(), c.drop_first());
    }
}

/// Places stand for no more than they do with further places behind.
pub proof fn lemma_digits_le_extend(a: Seq<(usize, usize)>, b: Seq<(usize, usize)>)
    ensures
        digits_le(a, a + b),
    decreases a.len(),
{
    if a.len() > 0 {
        lemma_digits_le_extend(a.drop_first(), b);
        assert((a + b).drop_first() =~= a.drop_first() + b);
    }
}

/// Places that start alike are in the order of what follows.
pub proof fn lemma_digits_le_prefix(p: Seq<(usize, usize)>, a: Seq<(usize, usize)>, b: Seq<(usize, usize)>)
    requires
        digits_le(a, b),
    ensures
        digits_le(p + a, p + b),
    decreases p.len(),
{
    if p.len() > 0 {
        lemma_digits_le_prefix(p.drop_first(), a, b);
        assert((p + a).drop_first() =~= p.drop_first() + a);
        assert((p + b).drop_first() =~= p.drop_first() + b);
    } else {
        assert(p + a =~= a);
        assert(p + b =~= b);
    }
}

/// The position of an observer of length `length` for the progress that
/// the places stand for: the progress times the length, rounded down. The
/// places are read from the last to the first: each place adds its count of
/// done steps and divides by its count of steps.
pub open spec fn position_of(digits: Seq<(usize, usize)>, length: int) -> int
    decreases digits.len(),
{
    if digits.len() == 0 {
        0
    } else {
        let rest = position_of(digits.drop_first(), length);
        let whole = (digits[0].0 * length + rest) / (digits[0].1 as int);
        if whole > length {
            length
        } else {
            whole
        }
    }
}

/// The position is within the length.
pub proof fn lemma_position_bounds(digits: Seq<(usize, usize)>, length: int)
    requires
        digits_ok(digits),
        0 <= length,
    ensures
        0 <= position_of(digits, length) <= length,
    decreases digits.len(),
{
    if digits.len() > 0 {
        let rest = digits.drop_first();
        assert(digits_ok(rest)) by {
            assert forall|i: int| 0 <= i < rest.len() implies (#[trigger] rest[i]).0 <= rest[i].1 && rest[i].1 >= 1 by {
                assert(rest[i] == digits[i + 1]);
            }
        }
        lemma_position_bounds(rest, length);
        let sum = digits[0].0 * length + position_of(rest, length);
        assert(0 <= digits[0].0 * length) by (nonlinear_arith)
            requires
                0 <= digits[0].0,
                0 <= length,
        ;
        lemma_div_pos_is_pos(sum, digits[0].1 as int);
    }
}

/// Places that stand for no more give a position that is no further.
pub proof fn lemma_position_ordered(a: Seq<(usize, usize)>, b: Seq<(usize, usize)>, length: int)
    requires
        digits_ok(a),
        digits_ok(b),
        digits_le(a, b),
        0 <= length,
    ensures
        position_of(a, length) <= position_of(b, length),
    decreases a.len(),
{
    lemma_position_bounds(b, length);
    if a.len() > 0 {
        let (ra, rb) = (a.drop_first(), b.drop_first());
        assert(digits_ok(ra)) by {
            assert forall|i: int| 0 <= i < ra.len() implies (#[trigger] ra[i]).0 <= ra[i].1 && ra[i].1 >= 1 by {
                assert(ra[i] == a[i + 1]);
            }
        }
        assert(digits_ok(rb)) by {
            assert forall|i: int| 0 <= i < rb.len() implies (#[trigger] rb[i]).0 <= rb[i].1 && rb[i].1 >= 1 by {
                assert(rb[i] == b[i + 1]);
            }
        }
        lemma_position_bounds(ra, length);
        lemma_position_bounds(rb, length);
        let n = a[0].1 as int;
        let sum_a = a[0].0 * length + position_of(ra, length);
        let sum_b = b[0].0 * length + position_of(rb, length);
        if a[0].0 == b[0].0 {
            lemma_position_ordered(ra, rb, length);
        } else {
            assert(a[0].0 * length + length <= b[0].0 * length) by (nonlinear_arith)
                requires
                    a[0].0 + 1 <= b[0].0,
                    0 <= length,
            ;
        }
        assert(sum_a <= sum_b);
        lemma_div_is_ordered(sum_a, sum_b, n);
    }
}

/// A search that is wholly done is at the end of the observer.
pub proof fn lemma_position_done(length: int)
    requires
        0 <= length,
    ensures
        position_of(seq![(1usize, 1usize)], length) == length,
{
    let d = seq![(1usize, 1usize)];
    assert(d.drop_first() =~= Seq::<(usize, usize)>::empty());
    assert(position_of(d.drop_first(), length) == 0);
    assert(d[0] == (1usize, 1usize));
    assert(1 * length == length) by (nonlinear_arith);
    assert(length / 1 == length) by (nonlinear_arith);
}

/// The position of an observer of length `length`: see [`position_of`].
pub fn position(digits: &Vec<(usize, usize)>, length: u64) -> (r: u64)
    requires
        digits_ok(digits@),
    ensures
        r == position_of(digits@, length as int),
        r <= length,
{
    let mut pos: u64 = 0;
    let mut i = digits.len();
    proof {
        assert(digits@.subrange(digits@.len() as int, digits@.len() as int) =~= Seq::<(usize, usize)>::empty());
    }
    while i > 0
        invariant
            i <= digits@.len(),
            pos <= length,
            pos == position_of(digits@.subrange(i as int, digits@.len() as int), length as int),
            digits_ok(digits@),
        decreases i,
    {
        i -= 1;
        let (done, width) = digits[i];
        proof {
            let tail = digits@.subrange(i as int, digits@.len() as int);
            assert(tail.drop_first() =~= digits@.subrange(i + 1, digits@.len() as int));
            assert(tail[0] == digits@[i as int]);
            assert(done as int * length as int <= usize::MAX as int * u64::MAX as int) by (nonlinear_arith)
                requires
                    0 <= done <= usize::MAX,
                    0 <= length <= u64::MAX,
            ;
        }
        let sum: u128 = (done as u128) * (length as u128) + (pos as u128);
        let whole: u128 = sum / (width as u128);
        pos = if whole > length as u128 {
            length
        } else {
            whole as u64
        };
    }
    proof {
        assert(digits@.subrange(0, digits@.len() as int) =~= digits@);
    }
    pos
}

} // verus!
