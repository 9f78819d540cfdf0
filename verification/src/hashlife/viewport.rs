//! Viewport geometry: the padding and alignment that let the four quadrants of
//! a bitmap be filled independently.

use vstd::prelude::*;

verus! {

/// `ceil(a / b)` for `b > 0`.
pub open spec fn ceil_div(a: int, b: int) -> int {
    (a + b - 1) / b
}

/// The smallest multiple of 8 that is at least `a`.
pub open spec fn round_up8(a: int) -> int {
    (a + 7) / 8 * 8
}

/// `dim` padded so that `ceil(dim / scale)` is a multiple of 8: the larger of
/// `dim` and the smallest raw dimension that maps to the padded aggregate count.
pub open spec fn spec_pad_to_agg_multiple(dim: int, scale: int) -> int {
    let min_dim = (round_up8(ceil_div(dim, scale)) - 1) * scale + 1;
    if dim >= min_dim {
        dim
    } else {
        min_dim
    }
}

proof fn lemma_ceil_div_bounds(a: int, b: int)
    requires
        a >= 1,
        b >= 1,
    ensures
        ceil_div(a, b) >= 1,
        (ceil_div(a, b) - 1) * b < a,
        a <= ceil_div(a, b) * b,
        ceil_div(a, b) <= a,
{
    let q = ceil_div(a, b);
    vstd::arithmetic::div_mod::lemma_fundamental_div_mod(a + b - 1, b);
    let r = (a + b - 1) % b;
    assert(a + b - 1 == b * q + r);
    assert(0 <= r < b);
    assert(q * b == b * q) by (nonlinear_arith);
    assert((q - 1) * b == q * b - b) by (nonlinear_arith);
    assert(q >= 1) by (nonlinear_arith)
        requires
            a + b - 1 == b * q + r,
            0 <= r < b,
            a >= 1,
            b >= 1,
    ;
    assert(q <= a) by (nonlinear_arith)
        requires
            a + b - 1 == b * q + r,
            0 <= r < b,
            a >= 1,
            b >= 1,
    ;
}

proof fn lemma_ceil_div_of_form(p: int, b: int)
    requires
        p >= 1,
        b >= 1,
    ensures
        ceil_div((p - 1) * b + 1, b) == p,
{
    assert((p - 1) * b + 1 + b - 1 == p * b) by (nonlinear_arith);
    vstd::arithmetic::div_mod::lemma_div_multiples_vanish(p, b);
    assert(p * b == b * p) by (nonlinear_arith);
}

proof fn lemma_ceil_div_unique(a: int, b: int, p: int)
    requires
        a >= 1,
        b >= 1,
        (p - 1) * b < a <= p * b,
    ensures
        ceil_div(a, b) == p,
{
    lemma_ceil_div_bounds(a, b);
    let q = ceil_div(a, b);
    assert((q - 1) * b < a <= q * b);
    if q < p {
        assert(q * b <= (p - 1) * b) by (nonlinear_arith)
            requires
                q <= p - 1,
                b >= 1,
        ;
    } else if q > p {
        assert(p * b <= (q - 1) * b) by (nonlinear_arith)
            requires
                p <= q - 1,
                b >= 1,
        ;
    }
}

/// The padded dimension covers `dim` and maps to a multiple of 8 aggregate units.
pub proof fn lemma_pad_properties(dim: int, scale: int)
    requires
        dim >= 1,
        scale >= 1,
    ensures
        spec_pad_to_agg_multiple(dim, scale) >= dim,
        ceil_div(spec_pad_to_agg_multiple(dim, scale), scale) % 8 == 0,
        spec_pad_to_agg_multiple(dim, scale) <= dim + 8 * scale,
{
    let a = ceil_div(dim, scale);
    lemma_ceil_div_bounds(dim, scale);
    let p = round_up8(a);
    assert(p >= a && p % 8 == 0 && p < a + 8) by {
        vstd::arithmetic::div_mod::lemma_fundamental_div_mod(a + 7, 8);
    }
    let min_dim = (p - 1) * scale + 1;
    lemma_ceil_div_of_form(p, scale);
    assert((p - 1) * scale <= (a + 6) * scale) by (nonlinear_arith)
        requires
            p - 1 <= a + 6,
            scale >= 1,
    ;
    assert((a + 6) * scale == (a - 1) * scale + 7 * scale) by (nonlinear_arith);
    if dim >= min_dim {
        assert(dim <= a * scale);
        assert(a * scale <= p * scale) by (nonlinear_arith)
            requires
                a <= p,
                scale >= 1,
        ;
        lemma_ceil_div_unique(dim, scale, p);
    }
}

/// Pads a raw-cell dimension so that `ceil(dim / scale)` is a multiple of 8.
pub fn pad_to_agg_multiple(dim: u64, scale: u32) -> (r: u64)
    requires
        dim + 8 * scale <= u64::MAX,
        1 <= scale,
    ensures
        r == spec_pad_to_agg_multiple(dim as int, scale as int),
{
    if dim == 0 {
        proof {
            vstd::arithmetic::div_mod::lemma_small_mod((scale - 1) as nat, scale as nat);
            vstd::arithmetic::div_mod::lemma_fundamental_div_mod((scale - 1) as int, scale as int);
            assert(ceil_div(0, scale as int) == 0) by (nonlinear_arith)
                requires
                    (scale - 1) as int == scale * ((scale - 1) as int / scale as int) + (scale - 1) as int % scale as int,
                    (scale - 1) as int % scale as int == (scale - 1) as int,
                    scale >= 1,
            ;
        }
        return 0;
    }
    let s = scale as u64;
    let agg = (dim + s - 1) / s;
    proof {
        lemma_ceil_div_bounds(dim as int, s as int);
    }
    let agg_padded = (agg + 7) / 8 * 8;
    assert(agg_padded >= agg && agg_padded <= agg + 7) by {
        vstd::arithmetic::div_mod::lemma_fundamental_div_mod(agg + 7, 8);
    }
    assert((agg_padded - 1) * s <= (agg + 6) * s) by (nonlinear_arith)
        requires
            agg_padded - 1 <= agg + 6,
            s >= 1,
    ;
    assert((agg + 6) * s == (agg - 1) * s + 7 * s) by (nonlinear_arith);
    let min_dim = (agg_padded - 1) * s + 1;
    if dim >= min_dim {
        dim
    } else {
        min_dim
    }
}

/// The viewport alignment: the origin moves left/up so that
/// `(center.0 - hvx_a) % (8 scale) == 0` and `(center.1 - hvy_a) % scale == 0`,
/// and each dimension grows by the shift and is then padded.
pub open spec fn spec_align_dx(center0: i64, hvx: u64, unit: int) -> int {
    ((hvx as i64) as int - center0 as int) % unit
}

/// Aligns a viewport so that the four quadrant fills meet on byte boundaries.
/// Returns `(hvx_a, hvy_a, vw_a, vh_a)`: the origin shifted left/up by
/// `dx = (hvx - center.0) mod 8 scale` and `dy = (hvy - center.1) mod scale`,
/// and the dimensions `vw + dx`, `vh + dy` padded with `pad_to_agg_multiple`.
pub fn align_viewport(center: (i64, i64), hvx: u64, hvy: u64, vw: u32, vh: u32, scale: u32) -> (r:
    (u64, u64, u32, u32))
    requires
        1 <= scale <= 0x1FFF_FFFF,
        i64::MIN <= (hvx as i64) as int - center.0 as int <= i64::MAX,
        i64::MIN <= (hvy as i64) as int - center.1 as int <= i64::MAX,
        spec_align_dx(center.0, hvx, 8 * scale as int) <= hvx,
        spec_align_dx(center.1, hvy, scale as int) <= hvy,
        vw >= 1 || spec_align_dx(center.0, hvx, 8 * scale as int) >= 1,
        vh >= 1 || spec_align_dx(center.1, hvy, scale as int) >= 1,
    ensures
        ({
            let dx = spec_align_dx(center.0, hvx, 8 * scale as int);
            let dy = spec_align_dx(center.1, hvy, scale as int);
            &&& r.0 == hvx - dx
            &&& r.1 == hvy - dy
            &&& r.2 == spec_pad_to_agg_multiple(vw + dx, scale as int) as u32
            &&& r.3 == spec_pad_to_agg_multiple(vh + dy, scale as int) as u32
        }),
        ((hvx as i64) as int - (hvx - r.0) - center.0 as int) % (8 * scale as int) == 0,
        ((hvy as i64) as int - (hvy - r.1) - center.1 as int) % (scale as int) == 0,
        r.0 <= hvx,
        r.1 <= hvy,
{
    let unit_x = (8 * scale) as u64;
    let unit_y = scale as u64;
    let diff_x = hvx as i64 - center.0;
    let dx = match diff_x.checked_rem_euclid(unit_x as i64) {
        Some(d) => d as u64,
        None => 0,
    };
    let hvx_a = hvx - dx;
    let diff_y = hvy as i64 - center.1;
    let dy = match diff_y.checked_rem_euclid(unit_y as i64) {
        Some(d) => d as u64,
        None => 0,
    };
    let hvy_a = hvy - dy;
    proof {
        let ux = 8 * scale as int;
        let uy = scale as int;
        assert(dx as int == (diff_x as int) % ux);
        assert(dy as int == (diff_y as int) % uy);
        vstd::arithmetic::div_mod::lemma_fundamental_div_mod(diff_x as int, ux);
        vstd::arithmetic::div_mod::lemma_fundamental_div_mod(diff_y as int, uy);
        let kx = (diff_x as int) / ux;
        let ky = (diff_y as int) / uy;
        assert(diff_x as int - dx as int == ux * kx);
        vstd::arithmetic::div_mod::lemma_mod_multiples_basic(kx, ux);
        assert((ux * kx) % ux == 0) by {
            assert(ux * kx == kx * ux) by (nonlinear_arith);
        }
        assert(diff_y as int - dy as int == uy * ky);
        vstd::arithmetic::div_mod::lemma_mod_multiples_basic(ky, uy);
        assert((uy * ky) % uy == 0) by {
            assert(uy * ky == ky * uy) by (nonlinear_arith);
        }
    }
    let vw_a = pad_to_agg_multiple(vw as u64 + dx, scale) as u32;
    let vh_a = pad_to_agg_multiple(vh as u64 + dy, scale) as u32;
    (hvx_a, hvy_a, vw_a, vh_a)
}

/// The aligned viewport's seams fall on byte boundaries, it covers the
/// requested viewport, and its aggregate row length is a multiple of 8
/// (when the padded sizes fit in 32 bits).
pub proof fn lemma_align_viewport_covers(center: (i64, i64), hvx: u64, hvy: u64, vw: u32, vh: u32, scale: u32)
    requires
        1 <= scale <= 0x1FFF_FFFF,
        spec_align_dx(center.0, hvx, 8 * scale as int) <= hvx,
        spec_align_dx(center.1, hvy, scale as int) <= hvy,
        vw >= 1,
        vh >= 1,
    ensures
        ({
            let dx = spec_align_dx(center.0, hvx, 8 * scale as int);
            let dy = spec_align_dx(center.1, hvy, scale as int);
            let w = spec_pad_to_agg_multiple(vw + dx, scale as int);
            let h = spec_pad_to_agg_multiple(vh + dy, scale as int);
            &&& (hvx - dx) + w >= hvx + vw
            &&& (hvy - dy) + h >= hvy + vh
            &&& ceil_div(w, scale as int) % 8 == 0
            &&& ceil_div(h, scale as int) % 8 == 0
        }),
{
    let dx = spec_align_dx(center.0, hvx, 8 * scale as int);
    let dy = spec_align_dx(center.1, hvy, scale as int);
    vstd::arithmetic::div_mod::lemma_mod_bound((hvx as i64) as int - center.0 as int, 8 * scale as int);
    vstd::arithmetic::div_mod::lemma_mod_bound((hvy as i64) as int - center.1 as int, scale as int);
    lemma_pad_properties(vw + dx, scale as int);
    lemma_pad_properties(vh + dy, scale as int);
}

} // verus!
