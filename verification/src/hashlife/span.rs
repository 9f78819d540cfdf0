//! Many generations at once: a universe read as a generation of a pattern on
//! the plane, and what keeps that reading true across the jumps of
//! `HashLife::step_n`.

use vstd::prelude::*;
use crate::arith::{pow2, lemma_pow2_mono, lemma_pow2_small, lemma_pow2_32_64, lemma_pow2_add};
use crate::hashlife::two64;
use crate::hashlife::evolve::{evolve, shifted, later, lemma_evolve_dead, lemma_evolve_shift,
    lemma_evolve_later, node_fn};
use crate::hashlife::cache::{alive_at, FALSE_NODE, TRUE_NODE};
use crate::hashlife::life::HashLife;
use crate::hashlife::advance::{rim_live, lemma_rim_clear};
use crate::hashlife::evolve::sentinels_ok;
use crate::hashlife::life::wrap64;

verus! {

/// `v` modulo 2^64, read as an offset in `[-2^63, 2^63)`.
pub open spec fn centred(v: int) -> int {
    let r = v % two64();
    if r >= two64() / 2 {
        r - two64()
    } else {
        r
    }
}

/// Every live cell of generation `t` of `f` lies in the square `[lo, hi)^2`.
pub open spec fn inside(f: spec_fn(int, int) -> bool, t: nat, lo: int, hi: int) -> bool {
    forall|a: int, b: int| #[trigger] evolve(f, t, a, b) ==> lo <= a < hi && lo <= b < hi
}

/// If generation `s` of `f` lies in a square of side `w = hi - lo`, generation
/// `s + g` lies in that square grown by `w / 2` on every side, for `g <= w`.
pub open spec fn spreads_within(f: spec_fn(int, int) -> bool, s: nat, g: nat, lo: int, hi: int) -> bool {
    inside(f, s, lo, hi) && g <= hi - lo ==> inside(f, s + g, lo - (hi - lo) / 2, hi + (hi - lo) / 2)
}

/// Over its first `n` generations, pattern `f` never outgrows a square it
/// fills by more than half the square's side within as many generations as
/// that side.
pub open spec fn spread_ok(f: spec_fn(int, int) -> bool, n: nat) -> bool {
    forall|s: nat, g: nat, lo: int, hi: int| s + g <= n ==> #[trigger] spreads_within(f, s, g, lo, hi)
}

/// `v` and `c` are the same modulo 2^64, and `c` lies in `[-2^63, 2^63)`.
pub proof fn lemma_centred(v: int, c: int, k: int)
    requires
        v == c + k * two64(),
        -two64() / 2 <= c < two64() / 2,
    ensures
        centred(v) == c,
{
    let m = two64();
    if c >= 0 {
        vstd::arithmetic::div_mod::lemma_fundamental_div_mod_converse(v, m, k, c);
    } else {
        vstd::arithmetic::div_mod::lemma_fundamental_div_mod_converse(v, m, k - 1, c + m);
    }
}

/// Nothing moves faster than one cell a generation.
pub proof fn lemma_light_speed(f: spec_fn(int, int) -> bool, lo: int, hi: int, t: nat)
    requires
        inside(f, 0, lo, hi),
    ensures
        inside(f, t, lo - t, hi + t),
{
    assert forall|a: int, b: int| #[trigger] evolve(f, t, a, b) implies lo - t <= a < hi + t && lo - t <= b < hi + t by {
        if !(lo - t <= a < hi + t && lo - t <= b < hi + t) {
            assert forall|p: int, q: int| a - t <= p < a + t + 1 && b - t <= q < b + t + 1 implies !#[trigger] f(p, q) by {
                if f(p, q) {
                    assert(evolve(f, 0, p, q));
                }
            }
            lemma_evolve_dead(f, t, a - t, b - t, a + t + 1, b + t + 1, a, b);
        }
    }
}

/// A pattern with no live cell has none later.
pub proof fn lemma_all_dead(f: spec_fn(int, int) -> bool, t: nat, a: int, b: int)
    requires
        forall|p: int, q: int| !#[trigger] f(p, q),
    ensures
        !evolve(f, t, a, b),
{
    lemma_evolve_dead(f, t, a - t, b - t, a + t + 1, b + t + 1, a, b);
}


/// Universe `h` is generation `s` of pattern `f` laid on the wrapping plane
/// with the pattern's origin at `(ox, oy)`: each plane cell reads the
/// pattern at its offset from `(ox, oy)`, taken in `[-2^63, 2^63)`.
pub open spec fn holds_gen(h: HashLife, f: spec_fn(int, int) -> bool, s: nat, ox: int, oy: int) -> bool {
    forall|x: u64, y: u64| #[trigger] h.alive(x, y) == evolve(f, s, centred(x - ox), centred(y - oy))
}

/// The plane cell at offset `v` from `o`: `x` with `x + q 2^64 == o + v`.
pub proof fn lemma_pick(o: int, v: int) -> (r: (u64, int))
    ensures
        r.0 + r.1 * two64() == o + v,
        (r.0 - o) % two64() == v % two64(),
{
    let m = two64();
    vstd::arithmetic::div_mod::lemma_fundamental_div_mod(o + v, m);
    vstd::arithmetic::div_mod::lemma_mod_pos_bound(0, m);
    let q = (o + v) / m;
    let xi = (o + v) % m;
    assert(0 <= xi < m) by {
        vstd::arithmetic::div_mod::lemma_mod_bound(o + v, m);
    }
    let x = xi as u64;
    assert(x - o == m * (-q) + v) by (nonlinear_arith)
        requires
            o + v == m * q + xi,
            x == xi,
    ;
    vstd::arithmetic::div_mod::lemma_mod_multiples_vanish(-q, v, m);
    assert(x + q * m == o + v) by (nonlinear_arith)
        requires
            o + v == m * q + xi,
            x == xi,
    ;
    (x, q)
}

/// Powers of two up to the plane's width.
pub proof fn lemma_pow2_big()
    ensures
        pow2(59) == 0x800_0000_0000_0000,
        pow2(60) == 0x1000_0000_0000_0000,
        pow2(61) == 0x2000_0000_0000_0000,
        pow2(62) == 0x4000_0000_0000_0000,
        pow2(64) == two64(),
{
    lemma_pow2_32_64();
    lemma_pow2_small();
    lemma_pow2_add(62, 2);
    lemma_pow2_add(61, 1);
    lemma_pow2_add(60, 1);
    lemma_pow2_add(59, 1);
}

/// A universe is generation 0 of its own block, laid at its corner.
pub proof fn lemma_holds_start(h: HashLife)
    requires
        h.depth <= 60,
    ensures
        holds_gen(h, h.block(), 0, h.origin_x(), h.origin_y()),
{
    lemma_pow2_big();
    lemma_pow2_mono(h.depth as nat, 60);
    let m = two64();
    assert forall|x: u64, y: u64| #[trigger] h.alive(x, y) == evolve(h.block(), 0, centred(x - h.origin_x()), centred(y
        - h.origin_y())) by {
        let rx = (x - h.origin_x()) % m;
        let ry = (y - h.origin_y()) % m;
        vstd::arithmetic::div_mod::lemma_mod_bound(x - h.origin_x(), m);
        vstd::arithmetic::div_mod::lemma_mod_bound(y - h.origin_y(), m);
    }
}

/// A universe holding generation `s` of `f` holds its block, moved by the
/// distance `D` between the two origins, as generation `s` of `f`.
pub proof fn lemma_block_of_gen(e: HashLife, f: spec_fn(int, int) -> bool, s: nat, ox: int, oy: int, d0: nat)
    requires
        holds_gen(e, f, s, ox, oy),
        inside(f, 0, 0, pow2(d0) as int),
        ox == e.center.0 - pow2(d0) / 2,
        oy == e.center.1 - pow2(d0) / 2,
        d0 <= 60,
        e.depth <= 62,
        s < 0x1_0000_0000,
    ensures
        e.origin_x() - ox == e.origin_y() - oy,
        forall|a: int, b: int|
            #[trigger] e.block()(a, b) == evolve(f, s, a + (e.origin_x() - ox), b + (e.origin_x() - ox)),
{
    let m = two64();
    let dd = e.origin_x() - ox;
    let side = pow2(e.depth as nat) as int;
    lemma_pow2_big();
    lemma_pow2_mono(e.depth as nat, 62);
    lemma_pow2_mono(d0, 60);
    lemma_light_speed(f, 0, pow2(d0) as int, s);
    assert forall|a: int, b: int| #[trigger] e.block()(a, b) == evolve(f, s, a + dd, b + dd) by {
        if 0 <= a < side && 0 <= b < side {
            let (x, qx) = lemma_pick(e.origin_x(), a);
            let (y, qy) = lemma_pick(e.origin_y(), b);
            vstd::arithmetic::div_mod::lemma_small_mod(a as nat, m as nat);
            vstd::arithmetic::div_mod::lemma_small_mod(b as nat, m as nat);
            lemma_centred(x - ox, a + dd, -qx);
            lemma_centred(y - oy, b + dd, -qy);
            assert(e.alive(x, y) == e.block()(a, b));
        } else if evolve(f, s, a + dd, b + dd) {
            let (x, qx) = lemma_pick(e.origin_x(), a);
            let (y, qy) = lemma_pick(e.origin_y(), b);
            lemma_centred(x - ox, a + dd, -qx);
            lemma_centred(y - oy, b + dd, -qy);
            assert(e.alive(x, y));
            if a < 0 {
                vstd::arithmetic::div_mod::lemma_fundamental_div_mod_converse(a, m, -1, a + m);
            } else if a >= side {
                vstd::arithmetic::div_mod::lemma_small_mod(a as nat, m as nat);
            } else if b < 0 {
                vstd::arithmetic::div_mod::lemma_fundamental_div_mod_converse(b, m, -1, b + m);
            } else {
                vstd::arithmetic::div_mod::lemma_small_mod(b as nat, m as nat);
            }
        }
    }
}

/// After a jump of `g` generations from a universe `e` holding generation `s`
/// of `f`, the result `nn` (the centre of `e`'s block, one level down) holds
/// generation `s + g`: `e`'s live cells lay in the central quarter (or `e`
/// spans the whole reach of the pattern), and `f` spreads by at most half a
/// square's side in as many generations, so nothing left the centre.
pub proof fn lemma_jump_holds(
    e: HashLife,
    nn: HashLife,
    f: spec_fn(int, int) -> bool,
    s: nat,
    g: nat,
    big_n: nat,
    ox: int,
    oy: int,
    d0: nat,
)
    requires
        holds_gen(e, f, s, ox, oy),
        inside(f, 0, 0, pow2(d0) as int),
        ox == e.center.0 - pow2(d0) / 2,
        oy == e.center.1 - pow2(d0) / 2,
        d0 <= 60,
        spread_ok(f, big_n),
        s + g <= big_n,
        big_n < 0x1_0000_0000,
        sentinels_ok(e.cache.nodes@),
        3 <= e.depth <= 62,
        1 <= g <= pow2((e.depth - 2) as nat),
        e.root == FALSE_NODE || e.depth == 62 || (e.root != TRUE_NODE && e.depth >= 4 && !rim_live(e.cache.nodes@, e.root)),
        nn.center == e.center,
        nn.depth + 1 == e.depth,
        forall|a: int, b: int|
            0 <= a < pow2(nn.depth as nat) && 0 <= b < pow2(nn.depth as nat) ==> #[trigger] alive_at(
                nn.cache.nodes@,
                nn.root,
                nn.depth as nat,
                a,
                b,
            ) == evolve(e.block(), g, a + pow2((e.depth - 2) as nat), b + pow2((e.depth - 2) as nat)),
    ensures
        holds_gen(nn, f, s + g, ox, oy),
{
    let m = two64();
    let l = e.depth as nat;
    let ee = pow2((l - 3) as nat) as int;
    let qq = pow2((l - 2) as nat) as int;
    let dd = e.origin_x() - ox;
    lemma_pow2_big();
    lemma_pow2_mono(l, 62);
    lemma_pow2_mono(d0, 60);
    lemma_pow2_mono((l - 3) as nat, 59);
    assert(pow2(l) == 2 * pow2((l - 1) as nat));
    assert(pow2((l - 1) as nat) == 2 * pow2((l - 2) as nat));
    assert(pow2((l - 2) as nat) == 2 * pow2((l - 3) as nat));
    lemma_block_of_gen(e, f, s, ox, oy, d0);
    let blk = e.block();
    // the jump, read in the pattern's frame
    assert forall|a: int, b: int| #[trigger] evolve(blk, g, a, b) == evolve(f, s + g, a + dd, b + dd) by {
        assert(blk =~= shifted(later(f, s), dd, dd));
        lemma_evolve_shift(later(f, s), dd, dd, g, a, b);
        lemma_evolve_later(f, s, g, a + dd, b + dd);
    }
    // generation s + g lies in the result square
    assert(inside(f, s + g, 2 * ee + dd, 6 * ee + dd)) by {
        if e.root == FALSE_NODE {
            assert forall|a: int, b: int| #[trigger] evolve(f, s + g, a, b) implies 2 * ee + dd <= a < 6 * ee + dd && 2
                * ee + dd <= b < 6 * ee + dd by {
                assert forall|p: int, q: int| !#[trigger] blk(p, q) by {
                }
                lemma_all_dead(blk, g, a - dd, b - dd);
                assert(evolve(blk, g, a - dd, b - dd) == evolve(f, s + g, a - dd + dd, b - dd + dd));
                assert(a - dd + dd == a && b - dd + dd == b);
            }
        } else if e.depth == 62 {
            lemma_light_speed(f, 0, pow2(d0) as int, s + g);
        } else {
            assert forall|a: int, b: int| #[trigger] evolve(f, s, a, b) implies 3 * ee + dd <= a < 5 * ee + dd && 3 * ee
                + dd <= b < 5 * ee + dd by {
                assert(blk(a - dd, b - dd) == evolve(f, s, a - dd + dd, b - dd + dd));
                assert(a - dd + dd == a && b - dd + dd == b);
                lemma_rim_clear(e.cache.nodes@, e.root, l, a - dd, b - dd);
            }
            assert(spreads_within(f, s, g, 3 * ee + dd, 5 * ee + dd));
        }
    }
    // the new origin is a quarter of the old width in
    assert(nn.origin_x() == e.origin_x() + qq);
    assert(nn.origin_y() == e.origin_y() + qq);
    let half = pow2(nn.depth as nat) as int;
    assert(half == 4 * ee);
    assert forall|x: u64, y: u64| #[trigger] nn.alive(x, y) == evolve(f, s + g, centred(x - ox), centred(y - oy)) by {
        let rx = (x - nn.origin_x()) % m;
        let ry = (y - nn.origin_y()) % m;
        vstd::arithmetic::div_mod::lemma_fundamental_div_mod(x - nn.origin_x(), m);
        vstd::arithmetic::div_mod::lemma_fundamental_div_mod(y - nn.origin_y(), m);
        vstd::arithmetic::div_mod::lemma_mod_bound(x - nn.origin_x(), m);
        vstd::arithmetic::div_mod::lemma_mod_bound(y - nn.origin_y(), m);
        let kx = (x - nn.origin_x()) / m;
        let ky = (y - nn.origin_y()) / m;
        assert(x - ox == rx + qq + dd + kx * m) by (nonlinear_arith)
            requires
                x - nn.origin_x() == m * kx + rx,
                nn.origin_x() == ox + dd + qq,
        ;
        assert(y - oy == ry + qq + dd + ky * m) by (nonlinear_arith)
            requires
                y - nn.origin_y() == m * ky + ry,
                nn.origin_y() == oy + dd + qq,
        ;
        if rx < half && ry < half {
            lemma_centred(x - ox, rx + qq + dd, kx);
            lemma_centred(y - oy, ry + qq + dd, ky);
            assert(nn.alive(x, y) == alive_at(nn.cache.nodes@, nn.root, nn.depth as nat, rx, ry));
            assert(evolve(blk, g, rx + qq, ry + qq) == evolve(f, s + g, rx + qq + dd, ry + qq + dd));
        } else {
            let cx = centred(x - ox);
            let cy = centred(y - oy);
            if evolve(f, s + g, cx, cy) {
                // cx is x - ox less some multiple of 2^64, and lies in the result square
                vstd::arithmetic::div_mod::lemma_fundamental_div_mod(x - ox, m);
                vstd::arithmetic::div_mod::lemma_fundamental_div_mod(y - oy, m);
                vstd::arithmetic::div_mod::lemma_mod_bound(x - ox, m);
                vstd::arithmetic::div_mod::lemma_mod_bound(y - oy, m);
                let jx = if (x - ox) % m >= m / 2 { (x - ox) / m + 1 } else { (x - ox) / m };
                let jy = if (y - oy) % m >= m / 2 { (y - oy) / m + 1 } else { (y - oy) / m };
                assert(cx == x - ox - jx * m) by (nonlinear_arith)
                    requires
                        x - ox == m * ((x - ox) / m) + (x - ox) % m,
                        cx == if (x - ox) % m >= m / 2 { (x - ox) % m - m } else { (x - ox) % m },
                        jx == if (x - ox) % m >= m / 2 { (x - ox) / m + 1 } else { (x - ox) / m },
                ;
                assert(cy == y - oy - jy * m) by (nonlinear_arith)
                    requires
                        y - oy == m * ((y - oy) / m) + (y - oy) % m,
                        cy == if (y - oy) % m >= m / 2 { (y - oy) % m - m } else { (y - oy) % m },
                        jy == if (y - oy) % m >= m / 2 { (y - oy) / m + 1 } else { (y - oy) / m },
                ;
                assert(2 * ee + dd <= cx < 6 * ee + dd && 2 * ee + dd <= cy < 6 * ee + dd);
                assert(cx - qq - dd - rx == (kx - jx) * m) by (nonlinear_arith)
                    requires
                        cx == x - ox - jx * m,
                        x - ox == rx + qq + dd + kx * m,
                ;
                assert(cy - qq - dd - ry == (ky - jy) * m) by (nonlinear_arith)
                    requires
                        cy == y - oy - jy * m,
                        y - oy == ry + qq + dd + ky * m,
                ;
                assert(kx - jx == 0) by (nonlinear_arith)
                    requires
                        cx - qq - dd - rx == (kx - jx) * m,
                        -m < cx - qq - dd - rx < m,
                        m > 0,
                ;
                assert(ky - jy == 0) by (nonlinear_arith)
                    requires
                        cy - qq - dd - ry == (ky - jy) * m,
                        -m < cy - qq - dd - ry < m,
                        m > 0,
                ;
            }
        }
    }
}

/// The offset of a neighbour: one more or less, unless that crosses the edge
/// of `[-2^63, 2^63)`, where it wraps round.
pub proof fn lemma_centred_step(x: u64, dx: int, o: int)
    requires
        -1 <= dx <= 1,
    ensures
        ({
            let c = centred(x - o);
            let c2 = centred(wrap64(x + dx) - o);
            let m = two64();
            &&& -m / 2 <= c < m / 2
            &&& -m / 2 <= c + dx < m / 2 ==> c2 == c + dx
            &&& c + dx >= m / 2 ==> c2 == c + dx - m
            &&& c + dx < -m / 2 ==> c2 == c + dx + m
        }),
{
    let m = two64();
    let c = centred(x - o);
    vstd::arithmetic::div_mod::lemma_fundamental_div_mod(x - o, m);
    vstd::arithmetic::div_mod::lemma_mod_bound(x - o, m);
    let j = if (x - o) % m >= m / 2 { (x - o) / m + 1 } else { (x - o) / m };
    assert(c == x - o - j * m) by (nonlinear_arith)
        requires
            x - o == m * ((x - o) / m) + (x - o) % m,
            c == if (x - o) % m >= m / 2 { (x - o) % m - m } else { (x - o) % m },
            j == if (x - o) % m >= m / 2 { (x - o) / m + 1 } else { (x - o) / m },
    ;
    vstd::arithmetic::div_mod::lemma_fundamental_div_mod(x + dx, m);
    vstd::arithmetic::div_mod::lemma_mod_bound(x + dx, m);
    let w = wrap64(x + dx);
    let q = (x + dx) / m;
    assert(w == x + dx - m * q);
    assert(w - o == (c + dx) + (j - q) * m) by (nonlinear_arith)
        requires
            w == x + dx - m * q,
            c == x - o - j * m,
    ;
    if -m / 2 <= c + dx < m / 2 {
        lemma_centred(w - o, c + dx, j - q);
    } else if c + dx >= m / 2 {
        assert(w - o == (c + dx - m) + (j - q + 1) * m) by (nonlinear_arith)
            requires
                w - o == (c + dx) + (j - q) * m,
        ;
        lemma_centred(w - o, c + dx - m, j - q + 1);
    } else {
        assert(w - o == (c + dx + m) + (j - q - 1) * m) by (nonlinear_arith)
            requires
                w - o == (c + dx) + (j - q) * m,
        ;
        lemma_centred(w - o, c + dx + m, j - q - 1);
    }
}

/// One generation of the wrapping plane is one generation of the pattern it
/// holds, the pattern staying far from the plane's edge.
pub proof fn lemma_step_bridge(h: HashLife, f: spec_fn(int, int) -> bool, s: nat, ox: int, oy: int, d0: nat)
    requires
        holds_gen(h, f, s, ox, oy),
        inside(f, 0, 0, pow2(d0) as int),
        d0 <= 60,
        s + 1 < 0x1_0000_0000,
    ensures
        forall|x: u64, y: u64| #[trigger] h.life_next(x, y) == evolve(f, s + 1, centred(x - ox), centred(y - oy)),
{
    let m = two64();
    lemma_pow2_big();
    lemma_pow2_mono(d0, 60);
    lemma_light_speed(f, 0, pow2(d0) as int, s);
    lemma_light_speed(f, 0, pow2(d0) as int, s + 1);
    assert forall|x: u64, y: u64| #[trigger] h.life_next(x, y) == evolve(f, s + 1, centred(x - ox), centred(y - oy)) by {
        let c = centred(x - ox);
        let d = centred(y - oy);
        lemma_centred_step(x, -1, ox);
        lemma_centred_step(x, 1, ox);
        lemma_centred_step(y, -1, oy);
        lemma_centred_step(y, 1, oy);
        lemma_centred_step(x, 0, ox);
        lemma_centred_step(y, 0, oy);
        assert(wrap64(x + 0) == x) by {
            vstd::arithmetic::div_mod::lemma_small_mod(x as nat, m as nat);
        }
        assert(wrap64(y + 0) == y) by {
            vstd::arithmetic::div_mod::lemma_small_mod(y as nat, m as nat);
        }
        let xm = wrap64(x - 1);
        let xp = wrap64(x + 1);
        let ym = wrap64(y - 1);
        let yp = wrap64(y + 1);
        assert(h.alive(xm, ym) == evolve(f, s, centred(xm - ox), centred(ym - oy)));
        assert(h.alive(x, ym) == evolve(f, s, c, centred(ym - oy)));
        assert(h.alive(xp, ym) == evolve(f, s, centred(xp - ox), centred(ym - oy)));
        assert(h.alive(xm, y) == evolve(f, s, centred(xm - ox), d));
        assert(h.alive(xp, y) == evolve(f, s, centred(xp - ox), d));
        assert(h.alive(xm, yp) == evolve(f, s, centred(xm - ox), centred(yp - oy)));
        assert(h.alive(x, yp) == evolve(f, s, c, centred(yp - oy)));
        assert(h.alive(xp, yp) == evolve(f, s, centred(xp - ox), centred(yp - oy)));
        assert(h.alive(x, y) == evolve(f, s, c, d));
        if -0x4000_0000_0000_0000 <= c < 0x4000_0000_0000_0000 && -0x4000_0000_0000_0000 <= d < 0x4000_0000_0000_0000 {
        } else {
            // far from the pattern: all nine cells are dead, now and next
            assert(!evolve(f, s + 1, c, d));
            assert(!h.alive(xm, ym));
            assert(!h.alive(x, ym));
            assert(!h.alive(xp, ym));
            assert(!h.alive(xm, y));
            assert(!h.alive(xp, y));
            assert(!h.alive(xm, yp));
            assert(!h.alive(x, yp));
            assert(!h.alive(xp, yp));
            assert(!h.alive(x, y));
        }
    }
}

} // verus!
