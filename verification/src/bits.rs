//! Alignment arithmetic on offsets and lengths.

use vstd::prelude::*;

verus! {

/// Whether `v` is a multiple of `align`.
pub open spec fn is_aligned(align: int, v: int) -> bool {
    align > 0 && v % align == 0
}

/// The smallest multiple of `align` that is not below `v`.
#[verifier::opaque]
pub open spec fn spec_align_up(align: int, v: int) -> int {
    ((v + align - 1) / align) * align
}

/// The largest multiple of `align` that is not above `v`.
#[verifier::opaque]
pub open spec fn spec_align_down(align: int, v: int) -> int {
    (v / align) * align
}

/// `spec_align_down` rounds to a multiple of `align` within one step below `v`.
pub proof fn lemma_align_down(align: int, v: int)
    requires
        align > 0,
        v >= 0,
    ensures
        is_aligned(align, spec_align_down(align, v)),
        spec_align_down(align, v) <= v < spec_align_down(align, v) + align,
        spec_align_down(align, v) >= 0,
        is_aligned(align, v) ==> spec_align_down(align, v) == v,
{
    reveal(spec_align_down);
    vstd::arithmetic::div_mod::lemma_fundamental_div_mod(v, align);
    vstd::arithmetic::div_mod::lemma_mod_multiples_basic(v / align, align);
    vstd::arithmetic::div_mod::lemma_mod_bound(v, align);
    vstd::arithmetic::div_mod::lemma_div_pos_is_pos(v, align);
    vstd::arithmetic::mul::lemma_mul_is_commutative(align, v / align);
    vstd::arithmetic::mul::lemma_mul_nonnegative(v / align, align);
}

/// `spec_align_up` rounds to a multiple of `align` within one step above `v`.
pub proof fn lemma_align_up(align: int, v: int)
    requires
        align > 0,
        v >= 0,
    ensures
        is_aligned(align, spec_align_up(align, v)),
        v <= spec_align_up(align, v) < v + align,
        is_aligned(align, v) ==> spec_align_up(align, v) == v,
{
    reveal(spec_align_up);
    reveal(spec_align_down);
    let w = v + align - 1;
    lemma_align_down(align, w);
    if is_aligned(align, v) {
        vstd::arithmetic::div_mod::lemma_fundamental_div_mod(v, align);
        vstd::arithmetic::div_mod::lemma_fundamental_div_mod_converse(w, align, v / align, align - 1);
    }
}

/// Rounds `v` down to a multiple of `align`.
pub fn align_down(align: usize, v: usize) -> (r: usize)
    requires
        align > 0,
    ensures
        r == spec_align_down(align as int, v as int),
{
    proof {
        reveal(spec_align_down);
        lemma_align_down(align as int, v as int);
    }
    (v / align) * align
}

/// Rounds `v` up to a multiple of `align`, or `None` where that multiple does
/// not fit in `usize`.
pub fn checked_align_up(align: usize, v: usize) -> (r: Option<usize>)
    requires
        align > 0,
    ensures
        match r {
            Some(a) => a == spec_align_up(align as int, v as int),
            None => spec_align_up(align as int, v as int) > usize::MAX,
        },
{
    proof {
        reveal(spec_align_down);
        lemma_align_up(align as int, v as int);
        lemma_align_down(align as int, v as int);
    }
    let down: usize = (v / align) * align;
    if down == v {
        Some(v)
    } else if down > usize::MAX - align {
        proof {
            lemma_align_up_between(align as int, v as int);
        }
        None
    } else {
        proof {
            lemma_align_up_between(align as int, v as int);
        }
        Some(down + align)
    }
}

/// Where `v` is no multiple of `align`, rounding up lands one step above rounding down.
pub proof fn lemma_align_up_between(align: int, v: int)
    requires
        align > 0,
        v >= 0,
    ensures
        !is_aligned(align, v) ==> spec_align_up(align, v) == spec_align_down(align, v) + align,
        is_aligned(align, v) ==> spec_align_up(align, v) == v,
{
    reveal(spec_align_up);
    reveal(spec_align_down);
    lemma_align_up(align, v);
    lemma_align_down(align, v);
    if !is_aligned(align, v) {
        let q = v / align;
        let r = v % align;
        vstd::arithmetic::div_mod::lemma_fundamental_div_mod(v, align);
        vstd::arithmetic::div_mod::lemma_mod_bound(v, align);
        vstd::arithmetic::mul::lemma_mul_is_commutative(align, q);
        // v + align - 1 == align * (q + 1) + (r - 1)
        vstd::arithmetic::mul::lemma_mul_is_distributive_add(align, q, 1);
        vstd::arithmetic::div_mod::lemma_fundamental_div_mod_converse(v + align - 1, align, q + 1, r - 1);
        vstd::arithmetic::mul::lemma_mul_is_commutative(align, q + 1);
        vstd::arithmetic::mul::lemma_mul_is_distributive_add_other_way(align, q, 1);
    }
}

/// Rounding up stays at or below every multiple of `align` that `v` does not
/// exceed.
pub proof fn lemma_align_up_le_multiple(align: int, v: int, m: int)
    requires
        align > 0,
        0 <= v <= m,
        m % align == 0,
    ensures
        spec_align_up(align, v) <= m,
{
    lemma_align_up(align, v);
    let up = spec_align_up(align, v);
    if up > m {
        vstd::arithmetic::div_mod::lemma_fundamental_div_mod(up, align);
        vstd::arithmetic::div_mod::lemma_fundamental_div_mod(m, align);
        let a = up / align;
        let b = m / align;
        assert(up == align * a && m == align * b);
        assert(a > b) by (nonlinear_arith)
            requires
                align * a > align * b,
                align > 0,
        ;
        assert(align * a >= align * b + align) by (nonlinear_arith)
            requires
                a >= b + 1,
                align > 0,
        ;
    }
}

/// Rounds `v` up to a multiple of `align`.
pub fn align_up(align: usize, v: usize) -> (r: usize)
    requires
        align > 0,
        spec_align_up(align as int, v as int) <= usize::MAX,
    ensures
        r == spec_align_up(align as int, v as int),
{
    match checked_align_up(align, v) {
        Some(a) => a,
        None => v,
    }
}

} // verus!
