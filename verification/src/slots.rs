//! The balanced split of a day's amount over its unit slots.
//!
//! A day of capacity `w` holding amount `a` is read as `w` slots. Every slot
//! carries `a / w`, and the first `a % w` slots carry one unit more. Nothing
//! of this is stored: it is computed from `w` and `a` whenever it is needed.

use vstd::prelude::*;
use vstd::math::{max, min};

verus! {

/// What slot `k` of the balanced split carries, the slots counted from zero.
pub open spec fn slot_load(w: int, a: int, k: int) -> int {
    if k < a % w {
        a / w + 1
    } else {
        a / w
    }
}

/// What the first `p` slots carry, added up slot by slot.
pub open spec fn slots_sum(w: int, a: int, p: int) -> int
    decreases p,
{
    if p <= 0 {
        0
    } else {
        slots_sum(w, a, p - 1) + slot_load(w, a, p - 1)
    }
}

/// What the first `p` slots of the balanced split carry together.
pub open spec fn frozen_load(w: int, a: int, p: int) -> int {
    p * (a / w) + min(p, a % w)
}

/// What the slots after the first `p` carry together.
pub open spec fn free_load(w: int, a: int, p: int) -> int {
    a - frozen_load(w, a, p)
}

/// The rate below which the slots after the first `p` may not be refilled:
/// the common part `a / w`, raised by each odd unit that lies beyond the
/// first `p` slots.
pub open spec fn head_rate(w: int, a: int, p: int) -> int {
    a / w + max(a % w - p, 0)
}

/// The load per unit of capacity of a whole day, rounded up; zero for a day
/// without capacity.
pub open spec fn ceil_rate(w: int, a: int) -> int {
    if w <= 0 {
        0
    } else if a % w > 0 {
        a / w + 1
    } else {
        a / w
    }
}

/// Quotient and remainder of a non-negative amount by a positive capacity.
pub proof fn lemma_quotient_remainder(w: int, a: int)
    requires
        w > 0,
        a >= 0,
    ensures
        a == w * (a / w) + a % w,
        0 <= a % w < w,
        0 <= a / w <= a,
{
    vstd::arithmetic::div_mod::lemma_fundamental_div_mod(a, w);
    vstd::arithmetic::div_mod::lemma_mod_pos_bound(a, w);
    let q = a / w;
    let r = a % w;
    assert(0 <= q <= a) by (nonlinear_arith)
        requires
            a == w * q + r,
            0 <= r < w,
            a >= 0,
            w > 0,
    ;
}

/// The frozen load is the sum of the first `p` slots, and all the slots of a
/// day together carry the day's amount.
pub proof fn lemma_frozen_is_slots_sum(w: int, a: int, p: int)
    requires
        w > 0,
        a >= 0,
        0 <= p <= w,
    ensures
        frozen_load(w, a, p) == slots_sum(w, a, p),
        slots_sum(w, a, w) == a,
    decreases w - p,
{
    lemma_quotient_remainder(w, a);
    lemma_slots_sum(w, a, p);
    lemma_slots_sum(w, a, w);
    assert(w * (a / w) == (a / w) * w) by (nonlinear_arith);
}

/// The first `p` slots carry `p` times the common part and one unit more for
/// each of them that is among the first `a % w`.
proof fn lemma_slots_sum(w: int, a: int, p: int)
    requires
        w > 0,
        a >= 0,
        0 <= p,
    ensures
        slots_sum(w, a, p) == p * (a / w) + min(p, a % w),
    decreases p,
{
    lemma_quotient_remainder(w, a);
    if p > 0 {
        lemma_slots_sum(w, a, p - 1);
        assert(p * (a / w) == (p - 1) * (a / w) + a / w) by (nonlinear_arith);
    } else {
        assert(p * (a / w) == 0) by (nonlinear_arith)
            requires
                p == 0,
        ;
    }
}

/// The free part of a day, written without the frozen part, and its bounds.
pub proof fn lemma_free_load(w: int, a: int, p: int)
    requires
        0 <= p < w,
        a >= 0,
    ensures
        free_load(w, a, p) == (w - p) * (a / w) + max(a % w - p, 0),
        0 <= (w - p) * (a / w) <= free_load(w, a, p) <= a,
        0 <= frozen_load(w, a, p) <= a,
        a / w <= head_rate(w, a, p) <= a,
        p >= a % w ==> head_rate(w, a, p) == a / w,
{
    lemma_quotient_remainder(w, a);
    let q = a / w;
    let r = a % w;
    assert((w - p) * q == w * q - p * q) by (nonlinear_arith);
    assert(0 <= p * q) by (nonlinear_arith)
        requires
            0 <= p,
            0 <= q,
    ;
    assert(0 <= (w - p) * q) by (nonlinear_arith)
        requires
            p < w,
            0 <= q,
    ;
    assert(q <= w * q) by (nonlinear_arith)
        requires
            0 < w,
            0 <= q,
    ;
}

/// The free part of a day of capacity `w` holding `a`, its first `p` slots
/// frozen.
pub fn free_part(w: u32, a: u32, p: u32) -> (free: u32)
    requires
        p < w,
    ensures
        free == free_load(w as int, a as int, p as int),
{
    proof {
        lemma_free_load(w as int, a as int, p as int);
        lemma_quotient_remainder(w as int, a as int);
    }
    let odd: u32 = a % w;
    let beyond: u32 = if odd > p { odd - p } else { 0 };
    (w - p) * (a / w) + beyond
}

/// The rate that a day of capacity `w` holding `a` asks of a refill of its
/// slots after the first `p`.
pub fn head_floor(w: u32, a: u32, p: u32) -> (rate: u32)
    requires
        p < w,
    ensures
        rate == head_rate(w as int, a as int, p as int),
{
    proof {
        lemma_free_load(w as int, a as int, p as int);
        lemma_quotient_remainder(w as int, a as int);
    }
    let odd: u32 = a % w;
    let beyond: u32 = if odd > p { odd - p } else { 0 };
    a / w + beyond
}

/// The rounded-up rate of a whole day; zero for a day without capacity.
pub fn rate_ceiling(w: u32, a: u32) -> (rate: u32)
    ensures
        rate == ceil_rate(w as int, a as int),
{
    if w == 0 {
        0
    } else {
        proof {
            lemma_quotient_remainder(w as int, a as int);
            if a % w > 0 {
                assert(a as int / w as int + 1 <= a) by (nonlinear_arith)
                    requires
                        a as int == w as int * (a as int / w as int) + a as int % w as int,
                        a as int % w as int > 0,
                        w > 0,
                        0 <= a as int / w as int,
                ;
            }
        }
        if a % w > 0 {
            a / w + 1
        } else {
            a / w
        }
    }
}

} // verus!
