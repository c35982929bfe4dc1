//! Arithmetic and finite-set facts shared by the grid algorithms.
use vstd::prelude::*;

verus! {

/// A row-major index built from in-range coordinates stays inside the grid.
pub proof fn lemma_index_in_range(x: int, y: int, w: int, h: int)
    requires
        0 <= x < w,
        0 <= y < h,
    ensures
        0 <= y * w + x < w * h,
        y * w + x <= (h - 1) * w + (w - 1),
{
    assert(y * w <= (h - 1) * w) by (nonlinear_arith)
        requires
            0 <= y <= h - 1,
            0 < w,
    ;
    assert((h - 1) * w + w == w * h) by (nonlinear_arith);
    assert(0 <= y * w) by (nonlinear_arith)
        requires
            0 <= y,
            0 < w,
    ;
}

/// A row-major index determines its coordinates.
pub proof fn lemma_index_decode(x: int, y: int, w: int)
    requires
        0 <= x < w,
        0 <= y,
    ensures
        (y * w + x) / w == y,
        (y * w + x) % w == x,
{
    vstd::arithmetic::div_mod::lemma_fundamental_div_mod_converse(y * w + x, w, y, x);
}

/// Two in-range coordinate pairs with the same row-major index are equal.
pub proof fn lemma_index_injective(x1: int, y1: int, x2: int, y2: int, w: int)
    requires
        0 <= x1 < w,
        0 <= x2 < w,
        0 <= y1,
        0 <= y2,
        y1 * w + x1 == y2 * w + x2,
    ensures
        x1 == x2,
        y1 == y2,
{
    lemma_index_decode(x1, y1, w);
    lemma_index_decode(x2, y2, w);
}

/// Every index below `w * h` is the row-major index of exactly one cell.
pub proof fn lemma_index_encode(i: int, w: int, h: int)
    requires
        0 <= i < w * h,
        0 <= w,
        0 <= h,
    ensures
        0 <= i % w < w,
        0 <= i / w < h,
        (i / w) * w + i % w == i,
{
    assert(w > 0) by (nonlinear_arith)
        requires
            0 <= i < w * h,
            0 <= w,
            0 <= h,
    ;
    vstd::arithmetic::div_mod::lemma_fundamental_div_mod(i, w);
    vstd::arithmetic::div_mod::lemma_mod_bound(i, w);
    vstd::arithmetic::div_mod::lemma_div_pos_is_pos(i, w);
    assert(i / w < h) by {
        if i / w >= h {
            assert(w * (i / w) >= w * h) by (nonlinear_arith)
                requires
                    i / w >= h,
                    w > 0,
            ;
        }
    }
    assert((i / w) * w == w * (i / w)) by (nonlinear_arith);
}

/// The natural numbers below `n`, as a set of `usize`.
pub open spec fn below(n: nat) -> Set<usize> {
    Set::new(|i: usize| (i as nat) < n)
}

/// `below(n)` is finite and has `n` elements, as long as `n` fits in `usize`.
pub proof fn lemma_below_len(n: nat)
    requires
        n <= usize::MAX,
    ensures
        below(n).finite(),
        below(n).len() == n,
    decreases n,
{
    if n == 0 {
        assert(below(0) =~= Set::<usize>::empty());
    } else {
        let m = (n - 1) as nat;
        lemma_below_len(m);
        assert(below(n) =~= below(m).insert(m as usize));
    }
}

/// A set of indices below `n` has at most `n` elements.
pub proof fn lemma_bounded_set_len(s: Set<usize>, n: nat)
    requires
        n <= usize::MAX,
        forall|i: usize| s.contains(i) ==> (i as nat) < n,
    ensures
        s.finite(),
        s.len() <= n,
{
    lemma_below_len(n);
    assert(s.subset_of(below(n)));
    vstd::set_lib::lemma_len_subset(s, below(n));
}

/// The number that times `bot` gives `top`, if there is one.
pub fn exact_quotient(top: i128, bot: i128) -> (found: Option<i128>)
    requires
        bot != 0,
        i128::MIN < top,
        i128::MIN < bot,
    ensures
        match found {
            Some(q) => q * bot == top,
            None => forall|f: int| #[trigger] (f * bot) != top,
        },
{
    let size: u128 = if top < 0 {
        (-top) as u128
    } else {
        top as u128
    };
    let unit: u128 = if bot < 0 {
        (-bot) as u128
    } else {
        bot as u128
    };
    if size % unit != 0 {
        proof {
            assert forall|f: int| #[trigger] (f * bot) != top by {
                if f * bot == top {
                    let g = if f < 0 {
                        -f
                    } else {
                        f
                    };
                    assert(g * unit == size) by (nonlinear_arith)
                        requires
                            f * bot == top,
                            g == (if f < 0 {
                                -f
                            } else {
                                f
                            }),
                            unit == (if bot < 0 {
                                -bot
                            } else {
                                bot as int
                            }),
                            size == (if top < 0 {
                                -top
                            } else {
                                top as int
                            }),
                    ;
                    vstd::arithmetic::div_mod::lemma_mod_multiples_basic(g, unit as int);
                }
            }
        }
        return None;
    }
    let times = size / unit;
    proof {
        vstd::arithmetic::div_mod::lemma_fundamental_div_mod(size as int, unit as int);
        assert(times <= size) by (nonlinear_arith)
            requires
                size == unit * times + 0,
                unit >= 1,
                times >= 0,
        ;
    }
    let q: i128 = if (top < 0) != (bot < 0) {
        -(times as i128)
    } else {
        times as i128
    };
    proof {
        assert(q * bot == top) by (nonlinear_arith)
            requires
                size == unit * times,
                unit == (if bot < 0 {
                    -bot
                } else {
                    bot as int
                }),
                size == (if top < 0 {
                    -top
                } else {
                    top as int
                }),
                q == (if (top < 0) != (bot < 0) {
                    -times
                } else {
                    times as int
                }),
        ;
    }
    Some(q)
}

} // verus!
