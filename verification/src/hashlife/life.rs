//! The HashLife universe: a quadtree root of some depth placed around a
//! centre on the (wrapping) 64-bit plane, with its caches and statistics.

use vstd::prelude::*;
use ahash::AHashMap;
use crate::arith::{pow2, lemma_pow2_mono, lemma_pow2_small, lemma_shl_u64, lemma_pow2_32_64};
use crate::hashlife::two64;
use crate::hashlife::cache::{HashLifeCache, FALSE_NODE, TRUE_NODE, alive_at, spec_count};
use crate::hashlife::maps::{slow_map, slow_new, slow_len, slow_clear, slow_shrink, arena_shrink, pair_shrink,
    count_shrink};
use crate::hashlife::advance::{fast_ok, slow_ok, advance_node, needs_expansion, lemma_slow_frame, lemma_keep_valid};
use crate::hashlife::tree::{cells_seq, collect_alive, count_cells, get_cell_at, set_cell_at, expand_node,
    lemma_extended_trans, build_quadtree, build_quadtree_from_cells, key_x, key_y, cells_within};
use crate::hashlife::{coord_unpack, coord_pack, spec_coord_pack};
use crate::hashlife::laws::{flat_has, window_ok, lemma_window_alive};
use crate::hashlife::viewport::{align_viewport, spec_align_dx, spec_pad_to_agg_multiple};
use crate::hashlife::fill::{fill_viewport, fill_aggregated_viewport, filled, covers, bit_at, only_set_below, sat64,
    true_fill_bytes};
use crate::hashlife::evolve::{evolve, node_fn, shifted, later};
use crate::hashlife::span::{holds_gen, inside, spread_ok};
use crate::hashlife::rules::{life_rule, b2i};

verus! {

/// A HashLife universe.
pub struct HashLife {
    /// The node arena and its caches.
    pub cache: HashLifeCache,
    /// The root node.
    pub root: u32,
    /// The centre of the root's block.
    pub center: (i64, i64),
    /// The root's level: the block is `2^depth` cells wide.
    pub depth: u32,
    /// The older tier of the single-step cache.
    pub slow_cache_n: AHashMap<u64, u32>,
    /// The current tier of the single-step cache.
    pub slow_cache_n1: AHashMap<u64, u32>,
    /// Single-step cache hits in the current step.
    pub slow_cache_hits: u64,
    /// Single-step cache misses in the current step.
    pub slow_cache_misses: u64,
    /// The single-step cache's size after the last step.
    pub last_cache_size: u32,
    /// The last step's hit rate in tenths of a percent.
    pub last_cache_hit_rate: u32,
    /// The number of nodes left allocated by the last collection.
    pub last_gc_live_len: u32,
    /// The generation count of the last multi-generation step.
    pub last_step_count: u32,
    /// Collections since the slow-cache tiers were last rotated.
    pub rotate_count: u32,
}

/// The deepest a universe grows.
pub const MAX_DEPTH: u32 = 62;

/// `v` as an unsigned 64-bit value modulo 2^64.
pub fn wrap_i64(v: i64) -> (r: u64)
    ensures
        r as int == v as int % two64(),
{
    if v >= 0 {
        proof {
            vstd::arithmetic::div_mod::lemma_small_mod(v as nat, two64() as nat);
        }
        v as u64
    } else {
        proof {
            vstd::arithmetic::div_mod::lemma_fundamental_div_mod_converse(v as int, two64(), -1, v + two64());
        }
        let m: i64 = -(v + 1);
        u64::MAX - (m as u64)
    }
}

/// `v` read as a signed 64-bit value (the same value modulo 2^64).
pub fn unwrap_i64(v: u64) -> (r: i64)
    ensures
        r as int % two64() == v as int,
        v <= i64::MAX ==> r == v,
{
    if v <= i64::MAX as u64 {
        proof {
            vstd::arithmetic::div_mod::lemma_small_mod(v as nat, two64() as nat);
        }
        v as i64
    } else {
        let m = u64::MAX - v;
        let r: i64 = -(m as i64) - 1;
        proof {
            vstd::arithmetic::div_mod::lemma_fundamental_div_mod_converse(r as int, two64(), -1, v as int);
        }
        r
    }
}

/// The expansion test `needs_expansion` makes of a universe's root.
pub open spec fn needs_expansion_spec(h: HashLife) -> bool {
    h.root != FALSE_NODE && (h.root == TRUE_NODE || h.depth <= 3 || crate::hashlife::advance::rim_live(h.cache.nodes@, h.root))
}

/// `v` modulo 2^64, as a `u64`.
pub open spec fn wrap64(v: int) -> u64 {
    (v % two64()) as u64
}

/// How far an expansion moves the block's corner: half the old width.
pub open spec fn exp_off(depth: u32) -> int {
    if depth >= 1 {
        pow2((depth - 1) as nat) as int
    } else {
        1
    }
}

/// Moving the corner back by `q` moves every offset back by `q`, modulo 2^64.
pub proof fn lemma_wrap_shift(x: int, o: int, q: int)
    requires
        0 <= q < two64(),
    ensures
        ({
            let u = (x - (o - q)) % two64();
            (x - o) % two64() == if u >= q { u - q } else { u - q + two64() }
        }),
{
    let m = two64();
    let u = (x - (o - q)) % m;
    let k = (x - (o - q)) / m;
    vstd::arithmetic::div_mod::lemma_fundamental_div_mod(x - (o - q), m);
    assert(x - o == k * m + (u - q));
    if u >= q {
        vstd::arithmetic::div_mod::lemma_fundamental_div_mod_converse(x - o, m, k, u - q);
    } else {
        assert(x - o == (k - 1) * m + (u - q + m)) by (nonlinear_arith)
            requires
                x - o == k * m + (u - q),
        ;
        vstd::arithmetic::div_mod::lemma_fundamental_div_mod_converse(x - o, m, k - 1, u - q + m);
    }
}

/// The offset of a neighbour, modulo 2^64: one more or less than the cell's,
/// wrapping at the ends.
pub proof fn lemma_wrap_neighbour(x: u64, dx: int, o: int)
    requires
        -1 <= dx <= 1,
    ensures
        ({
            let m = two64();
            let r = (x - o) % m;
            (wrap64(x + dx) - o) % m == if r + dx < 0 {
                m - 1
            } else if r + dx >= m {
                0
            } else {
                r + dx
            }
        }),
{
    let m = two64();
    let r = (x - o) % m;
    let w = (x + dx) % m;
    vstd::arithmetic::div_mod::lemma_fundamental_div_mod(x + dx, m);
    vstd::arithmetic::div_mod::lemma_fundamental_div_mod(x - o, m);
    let k1 = (x + dx) / m;
    let k2 = (x - o) / m;
    assert(wrap64(x + dx) as int == w);
    assert(w - o == (k2 - k1) * m + (r + dx)) by (nonlinear_arith)
        requires
            x + dx == k1 * m + w,
            x - o == k2 * m + r,
    ;
    if r + dx < 0 {
        assert(w - o == (k2 - k1 - 1) * m + (m - 1)) by (nonlinear_arith)
            requires
                w - o == (k2 - k1) * m + (r + dx),
                r + dx == -1,
        ;
        vstd::arithmetic::div_mod::lemma_fundamental_div_mod_converse(w - o, m, k2 - k1 - 1, m - 1);
    } else if r + dx >= m {
        assert(w - o == (k2 - k1 + 1) * m + 0) by (nonlinear_arith)
            requires
                w - o == (k2 - k1) * m + (r + dx),
                r + dx == m,
        ;
        vstd::arithmetic::div_mod::lemma_fundamental_div_mod_converse(w - o, m, k2 - k1 + 1, 0);
    } else {
        vstd::arithmetic::div_mod::lemma_fundamental_div_mod_converse(w - o, m, k2 - k1, r + dx);
    }
}

/// The cells of the expanded universe `e` one generation on, cut to the
/// central half, are Life's next generation of the plane: the block's live
/// cells lie in its central quarter (or there are none), so nothing is cut.
proof fn lemma_step_core(e: HashLife, n: HashLife, h0: HashLife)
    requires
        3 <= e.depth < MAX_DEPTH,
        crate::hashlife::evolve::sentinels_ok(e.cache.nodes@),
        e.root != TRUE_NODE,
        e.root == FALSE_NODE || (e.depth >= 4 && !crate::hashlife::advance::rim_live(e.cache.nodes@, e.root)),
        forall|x: u64, y: u64| #[trigger] e.alive(x, y) == h0.alive(x, y),
        n.center == e.center,
        n.depth + 1 == e.depth,
        forall|a: int, b: int|
            0 <= a < pow2(n.depth as nat) && 0 <= b < pow2(n.depth as nat) ==> #[trigger] alive_at(
                n.cache.nodes@,
                n.root,
                n.depth as nat,
                a,
                b,
            ) == evolve(e.block(), 1, a + pow2((e.depth - 2) as nat), b + pow2((e.depth - 2) as nat)),
    ensures
        forall|x: u64, y: u64| #[trigger] n.alive(x, y) == h0.life_next(x, y),
{
    let d = e.depth as nat;
    let f = e.block();
    let m = two64();
    let qq = pow2((d - 2) as nat) as int;
    let ee = pow2((d - 3) as nat) as int;
    assert(pow2(d) == 2 * pow2((d - 1) as nat));
    assert(pow2((d - 1) as nat) == 2 * pow2((d - 2) as nat));
    assert(pow2((d - 2) as nat) == 2 * pow2((d - 3) as nat));
    lemma_pow2_mono(0, (d - 3) as nat);
    lemma_pow2_mono(d, 61);
    lemma_pow2_32_64();
    crate::arith::lemma_pow2_add(61, 3);
    lemma_pow2_small();
    assert(pow2(64) == pow2(61) * 8);
    // the block's live cells
    assert forall|a: int, b: int| #[trigger] f(a, b) implies 3 * ee <= a < 5 * ee && 3 * ee <= b < 5 * ee by {
        crate::hashlife::advance::lemma_rim_clear(e.cache.nodes@, e.root, d, a, b);
    }
    // the new corner is a quarter of the width in
    assert(n.origin_x() == e.origin_x() + qq);
    assert(n.origin_y() == e.origin_y() + qq);
    assert forall|x: u64, y: u64| #[trigger] n.alive(x, y) == h0.life_next(x, y) by {
        let r = (x - e.origin_x()) % m;
        let s = (y - e.origin_y()) % m;
        n.lemma_alive_block(x, y);
        e.lemma_alive_block(x, y);
        lemma_wrap_shift(x as int, n.origin_x(), qq);
        lemma_wrap_shift(y as int, n.origin_y(), qq);
        // the new cell is the old block's cell one generation on
        assert(n.alive(x, y) == evolve(f, 1, r, s)) by {
            if qq <= r < 3 * qq && qq <= s < 3 * qq {
                assert(alive_at(n.cache.nodes@, n.root, n.depth as nat, r - qq, s - qq) == evolve(f, 1, r, s));
            } else {
                crate::hashlife::evolve::lemma_evolve_dead(f, 1, r - 1, s - 1, r + 2, s + 2, r, s);
            }
        }
        // its neighbourhood is the old plane's
        assert(f(r, s) == h0.alive(x, y));
        lemma_wrap_neighbour(x, -1, e.origin_x());
        lemma_wrap_neighbour(x, 1, e.origin_x());
        lemma_wrap_neighbour(y, -1, e.origin_y());
        lemma_wrap_neighbour(y, 1, e.origin_y());
        e.lemma_alive_block(wrap64(x - 1), wrap64(y - 1));
        e.lemma_alive_block(x, wrap64(y - 1));
        e.lemma_alive_block(wrap64(x + 1), wrap64(y - 1));
        e.lemma_alive_block(wrap64(x - 1), y);
        e.lemma_alive_block(wrap64(x + 1), y);
        e.lemma_alive_block(wrap64(x - 1), wrap64(y + 1));
        e.lemma_alive_block(x, wrap64(y + 1));
        e.lemma_alive_block(wrap64(x + 1), wrap64(y + 1));
        assert(f(r - 1, s - 1) == h0.alive(wrap64(x - 1), wrap64(y - 1)));
        assert(f(r, s - 1) == h0.alive(x, wrap64(y - 1)));
        assert(f(r + 1, s - 1) == h0.alive(wrap64(x + 1), wrap64(y - 1)));
        assert(f(r - 1, s) == h0.alive(wrap64(x - 1), y));
        assert(f(r + 1, s) == h0.alive(wrap64(x + 1), y));
        assert(f(r - 1, s + 1) == h0.alive(wrap64(x - 1), wrap64(y + 1)));
        assert(f(r, s + 1) == h0.alive(x, wrap64(y + 1)));
        assert(f(r + 1, s + 1) == h0.alive(wrap64(x + 1), wrap64(y + 1)));
        assert(evolve(f, 0, r, s) == f(r, s));
        assert(evolve(f, 0, r - 1, s - 1) == f(r - 1, s - 1));
        assert(evolve(f, 0, r, s - 1) == f(r, s - 1));
        assert(evolve(f, 0, r + 1, s - 1) == f(r + 1, s - 1));
        assert(evolve(f, 0, r - 1, s) == f(r - 1, s));
        assert(evolve(f, 0, r + 1, s) == f(r + 1, s));
        assert(evolve(f, 0, r - 1, s + 1) == f(r - 1, s + 1));
        assert(evolve(f, 0, r, s + 1) == f(r, s + 1));
        assert(evolve(f, 0, r + 1, s + 1) == f(r + 1, s + 1));
    }
}

impl HashLife {
    /// A cell is alive when its offset from the corner, modulo 2^64, is a
    /// live cell of the block.
    pub proof fn lemma_alive_block(&self, x: u64, y: u64)
        ensures
            self.alive(x, y) == self.block()((x - self.origin_x()) % two64(), (y - self.origin_y()) % two64()),
    {
    }
}

impl HashLife {
    /// The universe's invariant.
    pub open spec fn wf(&self) -> bool {
        &&& self.cache.wf()
        &&& fast_ok(&self.cache)
        &&& slow_ok(&self.cache, self.slow_cache_n)
        &&& slow_ok(&self.cache, self.slow_cache_n1)
        &&& self.cache.valid(self.root)
        &&& self.depth <= MAX_DEPTH
        &&& (self.depth == 0 ==> self.root <= 1)
        &&& self.rotate_count <= 32
    }

    /// The width of the block: `2^depth`.
    pub open spec fn side(&self) -> int {
        pow2(self.depth as nat) as int
    }

    /// The block's top-left corner (before wrapping).
    pub open spec fn origin_x(&self) -> int {
        self.center.0 - pow2(self.depth as nat) / 2
    }

    pub open spec fn origin_y(&self) -> int {
        self.center.1 - pow2(self.depth as nat) / 2
    }

    /// The live cells, packed, in the order the quadtree lists them.
    pub open spec fn cells(&self) -> Seq<u128> {
        cells_seq(self.cache.nodes@, self.root, self.depth as nat, self.origin_x(), self.origin_y())
    }

    /// Cell `(x, y)` of the plane lies in the block (modulo 2^64).
    pub open spec fn in_block(&self, x: u64, y: u64) -> bool {
        &&& (x - self.origin_x()) % two64() < self.side()
        &&& (y - self.origin_y()) % two64() < self.side()
    }

    /// Cell `(x, y)` of the plane is alive: it lies in the block (modulo 2^64)
    /// and the block has it alive.
    pub open spec fn alive(&self, x: u64, y: u64) -> bool {
        let rx = (x - self.origin_x()) % two64();
        let ry = (y - self.origin_y()) % two64();
        &&& rx < self.side()
        &&& ry < self.side()
        &&& alive_at(self.cache.nodes@, self.root, self.depth as nat, rx, ry)
    }

    /// The block as a pattern on the plane, its corner on the origin.
    pub open spec fn block(&self) -> spec_fn(int, int) -> bool {
        node_fn(self.cache.nodes@, self.root, self.depth as nat)
    }

    /// Cell `(x, y)` one generation on by B3/S23, its neighbours taken on the
    /// wrapping 64-bit plane.
    pub open spec fn life_next(&self, x: u64, y: u64) -> bool {
        life_rule(
            self.alive(x, y),
            b2i(self.alive(wrap64(x - 1), wrap64(y - 1))) + b2i(self.alive(x, wrap64(y - 1))) + b2i(
                self.alive(wrap64(x + 1), wrap64(y - 1)),
            ) + b2i(self.alive(wrap64(x - 1), y)) + b2i(self.alive(wrap64(x + 1), y)) + b2i(
                self.alive(wrap64(x - 1), wrap64(y + 1)),
            ) + b2i(self.alive(x, wrap64(y + 1))) + b2i(self.alive(wrap64(x + 1), wrap64(y + 1))),
        )
    }

    /// An empty universe.
    pub fn new() -> (h: Self)
        ensures
            h.wf(),
            h.root == FALSE_NODE,
            h.depth == 0,
            h.center == (0i64, 0i64),
            !h.cache.exhausted,
            h.cells() == Seq::<u128>::empty(),
    {
        let cache = HashLifeCache::new();
        HashLife {
            cache,
            root: FALSE_NODE,
            center: (0, 0),
            depth: 0,
            slow_cache_n: slow_new(),
            slow_cache_n1: slow_new(),
            slow_cache_hits: 0,
            slow_cache_misses: 0,
            last_cache_size: 0,
            last_cache_hit_rate: 0,
            last_gc_live_len: 0,
            last_step_count: 0,
            rotate_count: 0,
        }
    }

    /// Whether the universe has no live cell (its root is FALSE).
    pub fn is_empty(&self) -> (r: bool)
        ensures
            r == (self.root == FALSE_NODE),
            r ==> self.cells() == Seq::<u128>::empty(),
    {
        self.root == FALSE_NODE
    }

    /// The centre of the block.
    pub fn center(&self) -> (r: (i64, i64))
        ensures
            r == self.center,
    {
        self.center
    }

    /// The root's level.
    pub fn depth(&self) -> (r: u32)
        ensures
            r == self.depth,
    {
        self.depth
    }

    /// The width of the block, `2^depth`.
    pub fn size(&self) -> (r: usize)
        requires
            self.depth < usize::BITS,
        ensures
            r as int == self.side(),
    {
        proof {
            crate::arith::lemma_shl_usize(self.depth as usize);
        }
        1usize << self.depth
    }

    /// The width of the block as a `u64`.
    pub fn side_u64(&self) -> (r: u64)
        requires
            self.depth <= MAX_DEPTH,
        ensures
            r as int == self.side(),
    {
        proof {
            lemma_shl_u64(self.depth as u64);
        }
        1u64 << self.depth
    }

    /// The block's top-left corner modulo 2^64.
    pub fn origin(&self) -> (r: (u64, u64))
        requires
            self.depth <= MAX_DEPTH,
        ensures
            r.0 as int == self.origin_x() % two64(),
            r.1 as int == self.origin_y() % two64(),
    {
        let half = self.side_u64() / 2;
        let cx = wrap_i64(self.center.0);
        let cy = wrap_i64(self.center.1);
        let ox = cx.wrapping_sub(half);
        let oy = cy.wrapping_sub(half);
        proof {
            vstd::arithmetic::div_mod::lemma_sub_mod_noop(self.center.0 as int, half as int, two64());
            vstd::arithmetic::div_mod::lemma_sub_mod_noop(self.center.1 as int, half as int, two64());
            vstd::arithmetic::div_mod::lemma_small_mod(half as nat, two64() as nat);
            if cx < half {
                vstd::arithmetic::div_mod::lemma_fundamental_div_mod_converse(cx - half, two64(), -1, cx - half + two64());
            } else {
                vstd::arithmetic::div_mod::lemma_small_mod((cx - half) as nat, two64() as nat);
            }
            if cy < half {
                vstd::arithmetic::div_mod::lemma_fundamental_div_mod_converse(cy - half, two64(), -1, cy - half + two64());
            } else {
                vstd::arithmetic::div_mod::lemma_small_mod((cy - half) as nat, two64() as nat);
            }
        }
        (ox, oy)
    }

    /// The number of live cells (memoized in the count cache).
    pub fn cell_count(&mut self) -> (r: usize)
        requires
            old(self).wf(),
            spec_count(old(self).cache.nodes@, old(self).root, old(self).depth as nat) <= usize::MAX,
        ensures
            final(self).wf(),
            r == spec_count(old(self).cache.nodes@, old(self).root, old(self).depth as nat),
            final(self).cells() == old(self).cells(),
            final(self).root == old(self).root,
            final(self).depth == old(self).depth,
            final(self).center == old(self).center,
            final(self).cache.nodes@ == old(self).cache.nodes@,
            final(self).last_cache_size == old(self).last_cache_size,
            final(self).last_cache_hit_rate == old(self).last_cache_hit_rate,
    {
        let ghost c0 = self.cache;
        let r = count_cells(&mut self.cache, self.root, self.depth);
        proof {
            crate::hashlife::advance::lemma_caches_frame(&c0, &self.cache, self.slow_cache_n, self.slow_cache_n1);
        }
        r
    }

    /// The number of live cells (the same count as `cell_count`).
    pub fn alive_count(&mut self) -> (r: usize)
        requires
            old(self).wf(),
            spec_count(old(self).cache.nodes@, old(self).root, old(self).depth as nat) <= usize::MAX,
        ensures
            final(self).wf(),
            r == spec_count(old(self).cache.nodes@, old(self).root, old(self).depth as nat),
            final(self).cells() == old(self).cells(),
            final(self).root == old(self).root,
            final(self).depth == old(self).depth,
            final(self).center == old(self).center,
            final(self).cache.nodes@ == old(self).cache.nodes@,
            final(self).last_cache_size == old(self).last_cache_size,
            final(self).last_cache_hit_rate == old(self).last_cache_hit_rate,
    {
        let ghost c0 = self.cache;
        let r = count_cells(&mut self.cache, self.root, self.depth);
        proof {
            crate::hashlife::advance::lemma_caches_frame(&c0, &self.cache, self.slow_cache_n, self.slow_cache_n1);
        }
        r
    }

    /// All live cells as packed plane coordinates.
    pub fn collect_alive(&self) -> (r: Vec<u128>)
        requires
            self.wf(),
            self.depth <= 31,
        ensures
            r@ == self.cells(),
    {
        self.to_flat()
    }

    /// All live cells as packed plane coordinates.
    pub fn to_flat(&self) -> (r: Vec<u128>)
        requires
            self.wf(),
            self.depth <= 31,
        ensures
            r@ == self.cells(),
    {
        let mut result: Vec<u128> = Vec::new();
        let (ox, oy) = self.origin();
        collect_alive(&self.cache, self.root, self.depth, ox, oy, &mut result);
        proof {
            assert(result@ =~= cells_seq(self.cache.nodes@, self.root, self.depth as nat, ox as int, oy as int));
            vstd::arithmetic::div_mod::lemma_small_mod(ox as nat, two64() as nat);
            vstd::arithmetic::div_mod::lemma_small_mod(oy as nat, two64() as nat);
            vstd::arithmetic::div_mod::lemma_mod_twice(self.origin_x(), two64());
            vstd::arithmetic::div_mod::lemma_mod_twice(self.origin_y(), two64());
            crate::hashlife::tree::lemma_cells_seq_shift(self.cache.nodes@, self.root, self.depth as nat, ox as int,
                oy as int, self.origin_x(), self.origin_y());
        }
        result
    }

    /// Releases spare capacity of every map and vector; contents are unchanged.
    pub fn shrink_caches(&mut self)
        requires
            old(self).wf(),
        ensures
            final(self).wf(),
            final(self).cache.nodes@ == old(self).cache.nodes@,
            final(self).root == old(self).root,
            final(self).depth == old(self).depth,
            final(self).center == old(self).center,
            final(self).cache.exhausted == old(self).cache.exhausted,
            slow_map(final(self).slow_cache_n) == slow_map(old(self).slow_cache_n),
            slow_map(final(self).slow_cache_n1) == slow_map(old(self).slow_cache_n1),
            crate::hashlife::maps::arena_map(final(self).cache.arena) == crate::hashlife::maps::arena_map(old(self).cache.arena),
            crate::hashlife::maps::pair_map(final(self).cache.fast_cache) == crate::hashlife::maps::pair_map(old(self).cache.fast_cache),
            crate::hashlife::maps::count_map(final(self).cache.count_cache) == crate::hashlife::maps::count_map(old(self).cache.count_cache),
            forall|x: u64, y: u64| #[trigger] final(self).alive(x, y) == old(self).alive(x, y),
    {
        arena_shrink(&mut self.cache.arena);
        count_shrink(&mut self.cache.count_cache);
        pair_shrink(&mut self.cache.fast_cache);
        slow_shrink(&mut self.slow_cache_n);
        slow_shrink(&mut self.slow_cache_n1);
    }

    /// Whether plane cell `(x, y)` is alive.
    pub fn get_cell(&self, x: u64, y: u64) -> (r: bool)
        requires
            self.wf(),
            self.depth <= 32,
        ensures
            r == self.alive(x, y),
    {
        let (ox, oy) = self.origin();
        let size = self.side_u64();
        let rx = x.wrapping_sub(ox);
        let ry = y.wrapping_sub(oy);
        proof {
            lemma_wrapping_sub_mod(x, ox, self.origin_x());
            lemma_wrapping_sub_mod(y, oy, self.origin_y());
        }
        if rx >= size || ry >= size {
            return false;
        }
        proof {
            lemma_pow2_mono(self.depth as nat, 32);
            lemma_pow2_32_64();
        }
        get_cell_at(&self.cache, self.root, self.depth, rx as u32, ry as u32)
    }
}

/// `x - o` computed with wrapping is `x` minus any `v` congruent to `o`, modulo 2^64.
/// Setting block cell `(rx, ry)`, the offset of plane cell `(x, y)`, leaves
/// every other plane cell as it was.
proof fn lemma_set_frame(pre: HashLife, post: HashLife, x: u64, y: u64, rx: u64, ry: u64, alive: bool)
    requires
        post.depth == pre.depth,
        post.center == pre.center,
        rx as int == (x - pre.origin_x()) % two64(),
        ry as int == (y - pre.origin_y()) % two64(),
        forall|xx: int, yy: int|
            0 <= xx < pre.side() && 0 <= yy < pre.side() ==> #[trigger] alive_at(post.cache.nodes@, post.root, pre.depth as nat, xx, yy)
                == if xx == rx && yy == ry {
                alive
            } else {
                alive_at(pre.cache.nodes@, pre.root, pre.depth as nat, xx, yy)
            },
    ensures
        forall|a: u64, b: u64| (a != x || b != y) ==> #[trigger] post.alive(a, b) == pre.alive(a, b),
{
    assert forall|a: u64, b: u64| (a != x || b != y) implies #[trigger] post.alive(a, b) == pre.alive(a, b) by {
        let ra = (a - pre.origin_x()) % two64();
        let rb = (b - pre.origin_y()) % two64();
        vstd::arithmetic::div_mod::lemma_mod_bound(a - pre.origin_x(), two64());
        vstd::arithmetic::div_mod::lemma_mod_bound(b - pre.origin_y(), two64());
        if ra < pre.side() && rb < pre.side() {
            if ra == rx && rb == ry {
                lemma_sub_mod_inj(a, x, pre.origin_x());
                lemma_sub_mod_inj(b, y, pre.origin_y());
            }
            assert(alive_at(post.cache.nodes@, post.root, pre.depth as nat, ra, rb) == alive_at(
                pre.cache.nodes@,
                pre.root,
                pre.depth as nat,
                ra,
                rb,
            ));
        }
    }
}

/// Packing is one to one.
pub proof fn lemma_coord_pack_inj(a: u64, b: u64, x: u64, y: u64)
    requires
        spec_coord_pack(a, b) == spec_coord_pack(x, y),
    ensures
        a == x && b == y,
{
    let m = two64();
    vstd::arithmetic::div_mod::lemma_fundamental_div_mod_converse(spec_coord_pack(a, b) as int, m, b as int, a as int);
    vstd::arithmetic::div_mod::lemma_fundamental_div_mod_converse(spec_coord_pack(x, y) as int, m, y as int, x as int);
}

/// Two coordinates at the same offset (modulo 2^64) from one origin are equal.
proof fn lemma_sub_mod_inj(a: u64, x: u64, v: int)
    requires
        (a - v) % two64() == (x - v) % two64(),
    ensures
        a == x,
{
    let m = two64();
    vstd::arithmetic::div_mod::lemma_mod_equivalence(a - v, x - v, m);
    assert((a - x) % m == 0);
    if a > x {
        vstd::arithmetic::div_mod::lemma_small_mod((a - x) as nat, m as nat);
    } else if a < x {
        vstd::arithmetic::div_mod::lemma_fundamental_div_mod_converse(a - x, m, -1, a - x + m);
    }
}

proof fn lemma_wrapping_sub_mod(x: u64, o: u64, v: int)
    requires
        o as int == v % two64(),
    ensures
        vstd::wrapping::u64_specs::wrapping_sub(x, o) as int == (x - v) % two64(),
{
    vstd::arithmetic::div_mod::lemma_sub_mod_noop(x as int, v, two64());
    vstd::arithmetic::div_mod::lemma_small_mod(x as nat, two64() as nat);
    if x < o {
        vstd::arithmetic::div_mod::lemma_fundamental_div_mod_converse(x - o, two64(), -1, x - o + two64());
    } else {
        vstd::arithmetic::div_mod::lemma_small_mod((x - o) as nat, two64() as nat);
    }
}


/// Grows `bits` with zero bytes to at least `n` bytes.
pub fn grow_zeroed(bits: &mut Vec<u8>, n: usize)
    ensures
        final(bits)@.len() == if old(bits)@.len() < n { n as int } else { old(bits)@.len() as int },
        final(bits)@.subrange(0, old(bits)@.len() as int) == old(bits)@,
        forall|i: int| old(bits)@.len() <= i < final(bits)@.len() ==> #[trigger] final(bits)@[i] == 0,
{
    while bits.len() < n
        invariant
            old(bits)@.len() <= bits@.len(),
            old(bits)@.len() < n ==> bits@.len() <= n,
            old(bits)@.len() >= n ==> bits@.len() == old(bits)@.len(),
            bits@.subrange(0, old(bits)@.len() as int) == old(bits)@,
            forall|i: int| old(bits)@.len() <= i < bits@.len() ==> #[trigger] bits@[i] == 0,
        decreases n - bits@.len(),
    {
        let ghost before = bits@;
        bits.push(0);
        proof {
            assert(bits@.subrange(0, old(bits)@.len() as int) =~= before.subrange(0, old(bits)@.len() as int));
        }
    }
}

/// `hits / total` in tenths of a percent, rounded half up.
pub fn hit_rate_permille(hits: u64, total: u128) -> (r: u32)
    requires
        hits <= total,
        0 < total <= 0x2_0000_0000_0000_0000,
    ensures
        r as int == (2000 * hits + total) / (2 * total),
{
    let num: u128 = 2000 * (hits as u128) + total;
    let den: u128 = 2 * total;
    let q = num / den;
    proof {
        assert(num <= 2001 * total) by (nonlinear_arith)
            requires
                num == 2000 * hits + total,
                hits <= total,
        ;
        assert(q <= 1000) by (nonlinear_arith)
            requires
                q == num / den,
                num <= 2001 * total,
                den == 2 * total,
                total > 0,
        ;
    }
    q as u32
}

/// The largest `k` with `2^k <= v`.
pub fn floor_log2(v: u32) -> (k: u32)
    requires
        v >= 1,
    ensures
        k < 32,
        pow2(k as nat) <= v < pow2(k as nat + 1),
{
    let mut p: u32 = 1;
    let mut k: u32 = 0;
    proof {
        lemma_pow2_small();
    }
    while p <= v / 2
        invariant
            1 <= p <= v,
            p == pow2(k as nat),
            k < 32,
        decreases v - p,
    {
        proof {
            assert(pow2(k as nat + 1) == 2 * pow2(k as nat));
            if k >= 31 {
                lemma_pow2_mono(31, k as nat);
                lemma_pow2_32_64();
                assert(pow2(31) * 2 == pow2(32));
            }
        }
        p = p * 2;
        k = k + 1;
    }
    proof {
        assert(pow2(k as nat + 1) == 2 * pow2(k as nat));
    }
    k
}

impl HashLife {
    /// After an expansion the block is the old one moved in by half its width,
    /// and the live cells of the plane are the same.
    proof fn lemma_expanded(&self, h0: HashLife)
        requires
            h0.wf(),
            h0.depth < MAX_DEPTH,
            self.depth == h0.depth + 1,
            self.center == h0.center,
            h0.cache.extended_by(&self.cache),
            !self.cache.exhausted,
            forall|x: int, y: int|
                0 <= x < pow2(h0.depth as nat + 1) && 0 <= y < pow2(h0.depth as nat + 1) ==> #[trigger] alive_at(
                    self.cache.nodes@,
                    self.root,
                    h0.depth as nat + 1,
                    x,
                    y,
                ) == crate::hashlife::tree::expanded_alive(h0.cache.nodes@, h0.root, h0.depth as nat, x, y),
            h0.root == FALSE_NODE ==> self.root == FALSE_NODE,
        ensures
            self.block() == shifted(h0.block(), -exp_off(h0.depth), -exp_off(h0.depth)),
            forall|x: u64, y: u64| #[trigger] self.alive(x, y) == h0.alive(x, y),
    {
        let d = h0.depth as nat;
        let q = exp_off(h0.depth);
        let f0 = h0.block();
        let f1 = self.block();
        assert(pow2(d + 1) == 2 * pow2(d));
        lemma_pow2_mono(d, 61);
        lemma_pow2_32_64();
        lemma_pow2_mono(61, 64);
        if d >= 1 {
            assert(pow2(d) == 2 * pow2((d - 1) as nat));
        }
        assert forall|a: int, b: int| #[trigger] f1(a, b) == shifted(f0, -q, -q)(a, b) by {
        }
        assert(f1 =~= shifted(f0, -q, -q));
        assert forall|x: u64, y: u64| #[trigger] self.alive(x, y) == h0.alive(x, y) by {
            self.lemma_alive_block(x, y);
            h0.lemma_alive_block(x, y);
            if h0.root == FALSE_NODE {
            } else {
                let m = two64();
                assert(self.origin_x() == h0.origin_x() - q);
                assert(self.origin_y() == h0.origin_y() - q);
                lemma_wrap_shift(x as int, h0.origin_x(), q);
                lemma_wrap_shift(y as int, h0.origin_y(), q);
                let u = (x - self.origin_x()) % m;
                let v = (y - self.origin_y()) % m;
                assert(self.alive(x, y) == f0(u - q, v - q));
                assert(q <= pow2(61));
                crate::arith::lemma_pow2_add(61, 3);
                lemma_pow2_small();
                assert(pow2(64) == pow2(61) * 8);
                assert(m - q >= pow2(d));
                if u >= q && v >= q {
                } else if u < q {
                    assert(!f0(u - q, v - q));
                    assert(!f0(u - q + m, (y - h0.origin_y()) % m));
                } else {
                    assert(!f0(u - q, v - q));
                    assert(!f0((x - h0.origin_x()) % m, v - q + m));
                }
            }
        }
    }

    /// Grows the root one level, keeping the centre.
    fn expand_once(&mut self)
        requires
            old(self).wf(),
            old(self).depth < MAX_DEPTH,
        ensures
            final(self).wf(),
            final(self).depth == old(self).depth + 1,
            final(self).center == old(self).center,
            old(self).cache.extended_by(&final(self).cache),
            final(self).slow_cache_n == old(self).slow_cache_n,
            final(self).slow_cache_n1 == old(self).slow_cache_n1,
            final(self).root != TRUE_NODE,
            !final(self).cache.exhausted ==> final(self).block() == shifted(
                old(self).block(),
                -exp_off(old(self).depth),
                -exp_off(old(self).depth),
            ),
            !final(self).cache.exhausted ==> forall|x: u64, y: u64|
                #[trigger] final(self).alive(x, y) == old(self).alive(x, y),
            final(self).last_step_count == old(self).last_step_count,
    {
        let ghost c0 = self.cache;
        self.root = expand_node(&mut self.cache, self.root, self.depth);
        self.depth = self.depth + 1;
        proof {
            crate::hashlife::advance::lemma_caches_frame(&c0, &self.cache, self.slow_cache_n, self.slow_cache_n1);
            if !self.cache.exhausted {
                self.lemma_expanded(*old(self));
            }
        }
    }

    /// Collects garbage and, every so often, retires the old slow-cache tier:
    /// when the old tier has fallen below three times the current one after
    /// 16 collections, or after 32 collections in any case.
    pub fn rotate_caches(&mut self)
        requires
            old(self).wf(),
        ensures
            final(self).wf(),
            final(self).root == old(self).root,
            final(self).depth == old(self).depth,
            final(self).center == old(self).center,
            final(self).cells() == old(self).cells(),
            final(self).cache.exhausted == old(self).cache.exhausted,
            final(self).block() == old(self).block(),
            forall|x: u64, y: u64| #[trigger] final(self).alive(x, y) == old(self).alive(x, y),
            final(self).last_gc_live_len == crate::hashlife::gc::ones(final(self).cache.issued@),
            final(self).rotate_count == 0 || final(self).rotate_count == old(self).rotate_count + 1,
            old(self).rotate_count + 1 > 32 ==> final(self).rotate_count == 0,
            old(self).rotate_count + 1 <= 16 ==> final(self).rotate_count == old(self).rotate_count + 1,
            final(self).rotate_count == 0 ==> slow_map(final(self).slow_cache_n1).dom().is_empty() && slow_map(
                final(self).slow_cache_n,
            ).submap_of(slow_map(old(self).slow_cache_n1)),
            final(self).rotate_count != 0 && old(self).rotate_count + 1 > 16 ==> slow_map(final(self).slow_cache_n).dom().len()
                >= 3 * slow_map(final(self).slow_cache_n1).dom().len(),
            final(self).rotate_count != 0 ==> slow_map(final(self).slow_cache_n).submap_of(slow_map(old(self).slow_cache_n))
                && slow_map(final(self).slow_cache_n1).submap_of(slow_map(old(self).slow_cache_n1)),
            crate::hashlife::maps::pair_map(final(self).cache.fast_cache).submap_of(
                crate::hashlife::maps::pair_map(old(self).cache.fast_cache),
            ),
            crate::hashlife::maps::count_map(final(self).cache.count_cache).submap_of(
                crate::hashlife::maps::count_map(old(self).cache.count_cache),
            ),
            final(self).last_step_count == old(self).last_step_count,
    {
        self.rotate_count = self.rotate_count + 1;
        let ghost c0 = self.cache;
        self.last_gc_live_len = self.cache.gc(self.root, &mut self.slow_cache_n1, &mut self.slow_cache_n);
        proof {
            assert(self.block() =~= old(self).block());
        }
        let n_len = slow_len(&self.slow_cache_n);
        let n1_len = slow_len(&self.slow_cache_n1);
        if ((n_len as u128) < (n1_len as u128) * 3 && self.rotate_count > 16) || self.rotate_count > 32 {
            std::mem::swap(&mut self.slow_cache_n, &mut self.slow_cache_n1);
            slow_clear(&mut self.slow_cache_n1);
            self.rotate_count = 0;
        }
    }

    /// Records the hit statistics of the step just made and resets the counters.
    fn record_stats(&mut self, keep_when_idle: bool)
        ensures
            final(self).slow_cache_hits == 0,
            final(self).slow_cache_misses == 0,
            final(self).cache == old(self).cache,
            final(self).root == old(self).root,
            final(self).depth == old(self).depth,
            final(self).center == old(self).center,
            final(self).slow_cache_n == old(self).slow_cache_n,
            final(self).slow_cache_n1 == old(self).slow_cache_n1,
            final(self).rotate_count == old(self).rotate_count,
            final(self).last_step_count == old(self).last_step_count,
    {
        let hits = self.slow_cache_hits;
        let total: u128 = hits as u128 + self.slow_cache_misses as u128;
        let cache_size: u128 = slow_len(&self.slow_cache_n) as u128 + slow_len(&self.slow_cache_n1) as u128;
        if total > 0 {
            self.last_cache_size = cache_size as u32;
            self.last_cache_hit_rate = hit_rate_permille(hits, total);
        } else if !keep_when_idle {
            self.last_cache_size = 0;
            self.last_cache_hit_rate = 0;
        }
        self.slow_cache_hits = 0;
        self.slow_cache_misses = 0;
    }

    /// Grows the root until its rim is empty and it is more than 8 wide (or
    /// the depth limit is reached), keeping the live cells.
    fn grow_to_advance(&mut self) -> (off: Ghost<int>)
        requires
            old(self).wf(),
        ensures
            final(self).wf(),
            final(self).center == old(self).center,
            old(self).cache.extended_by(&final(self).cache),
            final(self).depth >= 3,
            final(self).depth >= old(self).depth,
            final(self).depth < MAX_DEPTH ==> !needs_expansion_spec(*final(self)),
            old(self).root != TRUE_NODE ==> final(self).root != TRUE_NODE,
            !final(self).cache.exhausted ==> final(self).block() == shifted(
                old(self).block(),
                -off@,
                -off@,
            ),
            !final(self).cache.exhausted ==> forall|x: u64, y: u64|
                #[trigger] final(self).alive(x, y) == old(self).alive(x, y),
            final(self).last_step_count == old(self).last_step_count,
    {
        let ghost f0 = self.block();
        let ghost mut off: int = 0;
        while (needs_expansion(&self.cache, self.root, self.depth) || self.depth < 3) && self.depth < MAX_DEPTH
            invariant
                self.wf(),
                self.last_step_count == old(self).last_step_count,
                self.center == old(self).center,
                old(self).cache.extended_by(&self.cache),
                self.depth >= old(self).depth,
                old(self).root != TRUE_NODE ==> self.root != TRUE_NODE,
                !self.cache.exhausted ==> self.block() == shifted(f0, -off, -off),
                !self.cache.exhausted ==> forall|x: u64, y: u64| #[trigger] self.alive(x, y) == old(self).alive(x, y),
                f0 == old(self).block(),
            decreases MAX_DEPTH - self.depth,
        {
            let ghost pre = *self;
            self.expand_once();
            proof {
                lemma_extended_trans(&old(self).cache, &pre.cache, &self.cache);
                let q = exp_off(pre.depth);
                if !self.cache.exhausted {
                    assert(shifted(shifted(f0, -off, -off), -q, -q) =~= shifted(f0, -(off + q), -(off + q)));
                }
                off = off + q;
            }
        }
        Ghost(off)
    }

    /// Grows the root while its rim is live (up to the depth limit), keeping
    /// the live cells.
    fn regrow(&mut self)
        requires
            old(self).wf(),
        ensures
            final(self).wf(),
            final(self).center == old(self).center,
            final(self).depth >= old(self).depth,
            old(self).cache.exhausted ==> final(self).cache.exhausted,
            !final(self).cache.exhausted ==> forall|x: u64, y: u64|
                #[trigger] final(self).alive(x, y) == old(self).alive(x, y),
            old(self).cache.extended_by(&final(self).cache),
            final(self).depth < MAX_DEPTH ==> !needs_expansion_spec(*final(self)),
            !needs_expansion_spec(*old(self)) || old(self).depth >= MAX_DEPTH ==> *final(self) == *old(self),
            old(self).root != TRUE_NODE ==> final(self).root != TRUE_NODE,
            final(self).last_step_count == old(self).last_step_count,
    {
        while needs_expansion(&self.cache, self.root, self.depth) && self.depth < MAX_DEPTH
            invariant
                self.wf(),
                self.last_step_count == old(self).last_step_count,
                self.center == old(self).center,
                self.depth >= old(self).depth,
                old(self).cache.extended_by(&self.cache),
                old(self).root != TRUE_NODE ==> self.root != TRUE_NODE,
                !self.cache.exhausted ==> forall|x: u64, y: u64|
                    #[trigger] self.alive(x, y) == old(self).alive(x, y),
                !needs_expansion_spec(*old(self)) || old(self).depth >= MAX_DEPTH ==> *self == *old(self),
            decreases MAX_DEPTH - self.depth,
        {
            let ghost pre = *self;
            self.expand_once();
            proof {
                lemma_extended_trans(&old(self).cache, &pre.cache, &self.cache);
            }
        }
    }

    /// Advances the universe one generation: grows the root until its rim is
    /// empty and it is at least 8 wide, advances it (the centre one level down),
    /// collects garbage, and grows it again while its rim is live.
    ///
    /// The live cells become Life's next generation of the plane, unless the
    /// node index space ran out or the root reached the depth limit.
    #[verifier::rlimit(100)]
    #[verifier::spinoff_prover]
    pub fn step(&mut self)
        requires
            old(self).wf(),
        ensures
            final(self).wf(),
            final(self).center == old(self).center,
            old(self).root == FALSE_NODE ==> *final(self) == *old(self),
            old(self).cache.exhausted ==> final(self).cache.exhausted,
            !final(self).cache.exhausted && final(self).depth + 1 < MAX_DEPTH ==> forall|x: u64, y: u64|
                #[trigger] final(self).alive(x, y) == old(self).life_next(x, y),
            final(self).last_step_count == old(self).last_step_count,
    {
        if self.is_empty() {
            return;
        }
        let ghost law = true;
        let off = self.grow_to_advance();
        let ghost e = *self;
        let root = advance_node(
            &mut self.cache,
            &mut self.slow_cache_n,
            &mut self.slow_cache_n1,
            self.root,
            self.depth,
            0,
            &mut self.slow_cache_hits,
            &mut self.slow_cache_misses,
        );
        self.root = root;
        self.depth = self.depth - 1;
        let ghost ok = law && !self.cache.exhausted && e.depth < MAX_DEPTH;
        proof {
            if ok {
                self.lemma_step_taken(e, *old(self), off@);
            }
        }
        let ghost n = *self;
        self.record_stats(false);
        self.rotate_caches();
        let ghost r0 = *self;
        self.regrow();
        proof {
            if law && !self.cache.exhausted && self.depth + 1 < MAX_DEPTH {
                assert(ok);
                assert forall|x: u64, y: u64| #[trigger] self.alive(x, y) == old(self).life_next(x, y) by {
                    assert(r0.alive(x, y) == n.alive(x, y));
                    assert(self.alive(x, y) == r0.alive(x, y));
                }
            }
        }
    }

    /// The universe right after the jump of `step` (from the expanded `e`):
    /// its cells are Life's next generation of `h0`.
    proof fn lemma_step_taken(&self, e: HashLife, h0: HashLife, off: int)
        requires
            e.wf(),
            self.wf(),
            h0.wf(),
            h0.root != FALSE_NODE,
            e.root != TRUE_NODE,
            !self.cache.exhausted,
            e.cache.extended_by(&self.cache),
            e.block() == shifted(h0.block(), -off, -off),
            forall|x: u64, y: u64| #[trigger] e.alive(x, y) == h0.alive(x, y),
            3 <= e.depth < MAX_DEPTH,
            !needs_expansion_spec(e),
            self.center == e.center,
            self.depth + 1 == e.depth,
            crate::hashlife::window::node_premise(e.cache.nodes@, e.root, e.depth, 0) ==> crate::hashlife::evolve::jump_ok(
                self.cache.nodes@,
                e.root,
                e.depth as nat,
                pow2(crate::hashlife::window::node_exp(e.depth, 0)),
                self.root,
            ),
            e.root == FALSE_NODE ==> self.root == FALSE_NODE,
        ensures
            forall|x: u64, y: u64| #[trigger] self.alive(x, y) == h0.life_next(x, y),
    {
        let d = e.depth as nat;
        let f = e.block();
        let qq = pow2((d - 2) as nat) as int;
        assert(pow2(d) == 2 * pow2((d - 1) as nat));
        assert(pow2((d - 1) as nat) == 2 * pow2((d - 2) as nat));
        assert(crate::hashlife::window::node_exp(e.depth, 0) == 0);
        lemma_pow2_small();
        crate::hashlife::window::lemma_node_fn_frame(&e.cache, &self.cache, e.root, d);
        if e.root != FALSE_NODE {
            assert(e.depth >= 4);
        }
        assert forall|a: int, b: int|
            0 <= a < pow2(self.depth as nat) && 0 <= b < pow2(self.depth as nat) implies #[trigger] alive_at(
                self.cache.nodes@,
                self.root,
                self.depth as nat,
                a,
                b,
            ) == evolve(f, 1, a + qq, b + qq) by {
            if e.root == FALSE_NODE {
                crate::hashlife::evolve::lemma_evolve_dead(f, 1, a + qq - 1, b + qq - 1, a + qq + 2, b + qq + 2, a + qq, b + qq);
            } else {
                crate::hashlife::evolve::lemma_jump_elim(self.cache.nodes@, e.root, d, 1, self.root, a, b);
            }
        }
        lemma_step_core(e, *self, h0);
    }

    /// The universe right after a jump of `2^k` generations of `step_n` (from
    /// the grown `e`): it holds generation `s + 2^k` of `f`.
    #[verifier::rlimit(40)]
    proof fn lemma_jump_taken(
        &self,
        e: HashLife,
        f: spec_fn(int, int) -> bool,
        s: nat,
        k: u32,
        big_n: nat,
        ox: int,
        oy: int,
        d0: nat,
    )
        requires
            e.wf(),
            e.cache.extended_by(&self.cache),
            holds_gen(e, f, s, ox, oy),
            inside(f, 0, 0, pow2(d0) as int),
            ox == e.center.0 - pow2(d0) / 2,
            oy == e.center.1 - pow2(d0) / 2,
            d0 <= 60,
            spread_ok(f, big_n),
            s + pow2(k as nat) <= big_n,
            big_n < 0x1_0000_0000,
            1 <= k,
            k + 2 <= e.depth,
            e.root == FALSE_NODE || e.depth == MAX_DEPTH || !needs_expansion_spec(e),
            e.root == FALSE_NODE ==> self.root == FALSE_NODE,
            self.center == e.center,
            self.depth + 1 == e.depth,
            crate::hashlife::window::node_premise(e.cache.nodes@, e.root, e.depth, k) ==> crate::hashlife::evolve::jump_ok(
                self.cache.nodes@,
                e.root,
                e.depth as nat,
                pow2(crate::hashlife::window::node_exp(e.depth, k)),
                self.root,
            ),
        ensures
            holds_gen(*self, f, s + pow2(k as nat), ox, oy),
    {
        let l = e.depth as nat;
        let g = pow2(k as nat);
        let dd = e.origin_x() - ox;
        assert(crate::hashlife::window::node_exp(e.depth, k) == k as nat);
        lemma_pow2_mono(k as nat, (l - 2) as nat);
        lemma_pow2_mono(0, k as nat);
        crate::hashlife::span::lemma_block_of_gen(e, f, s, ox, oy, d0);
        let blk = e.block();
        assert(blk =~= shifted(later(f, s), dd, dd));
        crate::hashlife::window::lemma_node_fn_frame(&e.cache, &self.cache, e.root, l);
        let qq = pow2((l - 2) as nat) as int;
        assert forall|a: int, b: int|
            0 <= a < pow2(self.depth as nat) && 0 <= b < pow2(self.depth as nat) implies #[trigger] alive_at(
                self.cache.nodes@,
                self.root,
                self.depth as nat,
                a,
                b,
            ) == evolve(blk, g, a + qq, b + qq) by {
            crate::hashlife::evolve::lemma_jump_elim(self.cache.nodes@, e.root, l, g, self.root, a, b);
        }
        crate::hashlife::span::lemma_jump_holds(e, *self, f, s, g, big_n, ox, oy, d0);
    }

    /// Advances the universe `n` generations: in jumps of the largest power of
    /// two not above what remains (the root grown deep enough for the jump),
    /// then single steps for a last generation.
    ///
    /// The live cells become generation `n` of the block (read from the old
    /// corner, offsets taken in `[-2^63, 2^63)`) when the root is at most 60
    /// levels deep, the pattern never outgrows a square
    /// it fills by more than half its side within as many generations as that
    /// side (`spread_ok`), the node index space did not run out, and, for odd
    /// `n`, the root ends below the depth limit.
    pub fn step_n(&mut self, n: u32)
        requires
            old(self).wf(),
        ensures
            final(self).wf(),
            final(self).center == old(self).center,
            (old(self).root == FALSE_NODE || n == 0) ==> *final(self) == *old(self),
            old(self).root != FALSE_NODE && n > 0 ==> final(self).last_step_count == n,
            old(self).depth <= 60 && spread_ok(
                old(self).block(),
                n as nat,
            ) && !final(self).cache.exhausted && (n % 2 == 1 ==> final(self).depth + 1 < MAX_DEPTH) ==> holds_gen(
                *final(self),
                old(self).block(),
                n as nat,
                old(self).origin_x(),
                old(self).origin_y(),
            ),
    {
        let ghost f = old(self).block();
        let ghost ox = old(self).origin_x();
        let ghost oy = old(self).origin_y();
        let ghost d0 = old(self).depth as nat;
        let ghost law = old(self).depth <= 60 && spread_ok(f, n as nat);
        proof {
            assert forall|a: int, b: int| #[trigger] evolve(f, 0, a, b) implies 0 <= a < pow2(d0) && 0 <= b < pow2(d0) by {
            }
        }
        if self.is_empty() || n == 0 {
            proof {
                if law {
                    if n == 0 {
                        crate::hashlife::span::lemma_holds_start(*self);
                    } else {
                        assert forall|x: u64, y: u64| #[trigger] self.alive(x, y) == evolve(f, n as nat, crate::hashlife::span::centred(x - ox),
                            crate::hashlife::span::centred(y - oy)) by {
                            assert forall|p: int, q: int| !#[trigger] f(p, q) by {
                            }
                            crate::hashlife::span::lemma_all_dead(f, n as nat, crate::hashlife::span::centred(x - ox),
                                crate::hashlife::span::centred(y - oy));
                        }
                    }
                }
            }
            return;
        }
        self.last_step_count = n;
        proof {
            if law {
                crate::hashlife::span::lemma_holds_start(*self);
                assert(self.block() == f);
            }
        }
        let mut remaining = n;
        while remaining >= 2
            invariant
                self.wf(),
                self.last_step_count == n,
                self.center == old(self).center,
                remaining <= n,
                remaining % 2 == n % 2,
                old(self).cache.extended_by(&self.cache),
                inside(f, 0, 0, pow2(d0) as int),
                ox == old(self).center.0 - pow2(d0) / 2,
                oy == old(self).center.1 - pow2(d0) / 2,
                law ==> d0 <= 60 && spread_ok(f, n as nat),
                law && !self.cache.exhausted ==> holds_gen(*self, f, (n - remaining) as nat, ox, oy),
            decreases remaining,
        {
            let k = floor_log2(remaining);
            proof {
                lemma_pow2_small();
                if k == 0 {
                    assert(remaining < 2);
                }
                lemma_shl_u64(k as u64);
            }
            let advance_gens: u32 = 1u32 << k;
            proof {
                crate::arith::lemma_shl_u32(k);
            }
            let needed_depth = k + 2;
            let ghost s0 = *self;
            while self.depth < needed_depth && self.depth < MAX_DEPTH
                invariant
                    self.wf(),
                    self.last_step_count == n,
                    self.center == old(self).center,
                        s0.cache.extended_by(&self.cache),
                    s0.root != TRUE_NODE ==> self.root != TRUE_NODE,
                    !self.cache.exhausted ==> forall|x: u64, y: u64|
                        #[trigger] self.alive(x, y) == s0.alive(x, y),
                decreases MAX_DEPTH - self.depth,
            {
                let ghost pre = *self;
                self.expand_once();
                proof {
                    lemma_extended_trans(&s0.cache, &pre.cache, &self.cache);
                }
            }
            while needs_expansion(&self.cache, self.root, self.depth) && self.depth < MAX_DEPTH
                invariant
                    self.wf(),
                    self.last_step_count == n,
                    self.center == old(self).center,
                    self.depth >= needed_depth,
                        s0.cache.extended_by(&self.cache),
                    s0.root != TRUE_NODE ==> self.root != TRUE_NODE,
                    !self.cache.exhausted ==> forall|x: u64, y: u64|
                        #[trigger] self.alive(x, y) == s0.alive(x, y),
                decreases MAX_DEPTH - self.depth,
            {
                let ghost pre = *self;
                self.expand_once();
                proof {
                    lemma_extended_trans(&s0.cache, &pre.cache, &self.cache);
                }
            }
            let ghost e = *self;
            proof {
                lemma_extended_trans(&old(self).cache, &s0.cache, &self.cache);
                if law && !self.cache.exhausted {
                    assert(holds_gen(e, f, (n - remaining) as nat, ox, oy));
                }
            }
            let root = advance_node(
                &mut self.cache,
                &mut self.slow_cache_n,
                &mut self.slow_cache_n1,
                self.root,
                self.depth,
                k,
                &mut self.slow_cache_hits,
                &mut self.slow_cache_misses,
            );
            self.root = root;
            self.depth = self.depth - 1;
            proof {
                lemma_extended_trans(&old(self).cache, &e.cache, &self.cache);
                if law && !self.cache.exhausted {
                    self.lemma_jump_taken(e, f, (n - remaining) as nat, k, n as nat, ox, oy, d0);
                    assert((n - remaining) as nat + pow2(k as nat) == (n - (remaining - advance_gens)) as nat);
                }
            }
            remaining = remaining - advance_gens;
            proof {
                assert(advance_gens % 2 == 0) by {
                    assert(pow2(k as nat) == 2 * pow2((k - 1) as nat));
                }
            }
            let ghost nn = *self;
            self.record_stats(true);
            let ghost s1 = *self;
            proof {
                if law && !self.cache.exhausted {
                    assert forall|x: u64, y: u64| #[trigger] s1.alive(x, y) == evolve(f, (n - remaining) as nat,
                        crate::hashlife::span::centred(x - ox), crate::hashlife::span::centred(y - oy)) by {
                        assert(s1.alive(x, y) == nn.alive(x, y));
                    }
                }
            }
            while needs_expansion(&self.cache, self.root, self.depth) && self.depth < MAX_DEPTH
                invariant
                    self.wf(),
                    self.last_step_count == n,
                    self.center == old(self).center,
                        s1.cache.extended_by(&self.cache),
                    s1.root != TRUE_NODE ==> self.root != TRUE_NODE,
                    !self.cache.exhausted ==> forall|x: u64, y: u64|
                        #[trigger] self.alive(x, y) == s1.alive(x, y),
                decreases MAX_DEPTH - self.depth,
            {
                let ghost pre = *self;
                self.expand_once();
                proof {
                    lemma_extended_trans(&s1.cache, &pre.cache, &self.cache);
                }
            }
            proof {
                lemma_extended_trans(&old(self).cache, &s1.cache, &self.cache);
                if law && !self.cache.exhausted {
                    assert(!s1.cache.exhausted);
                    assert forall|x: u64, y: u64| #[trigger] self.alive(x, y) == evolve(f, (n - remaining) as nat,
                        crate::hashlife::span::centred(x - ox), crate::hashlife::span::centred(y - oy)) by {
                        assert(self.alive(x, y) == s1.alive(x, y));
                    }
                }
            }
        }
        if remaining == 0 {
            self.rotate_caches();
            proof {
                if law && !self.cache.exhausted {
                    assert(holds_gen(*self, f, n as nat, ox, oy));
                }
            }
            return;
        }
        let ghost pre = *self;
        proof {
            assert(remaining == 1);
            if law && !self.cache.exhausted {
                crate::hashlife::span::lemma_block_of_gen(*self, f, (n - 1) as nat, ox, oy, d0);
                let dd = self.origin_x() - ox;
                assert(self.block() =~= shifted(later(f, (n - 1) as nat), dd, dd));
                crate::hashlife::span::lemma_step_bridge(*self, f, (n - 1) as nat, ox, oy, d0);
            }
        }
        self.step();
        proof {
            if law && !self.cache.exhausted && self.depth + 1 < MAX_DEPTH {
                assert(!pre.cache.exhausted);
                assert forall|x: u64, y: u64| #[trigger] self.alive(x, y) == evolve(f, n as nat, crate::hashlife::span::centred(x - ox),
                    crate::hashlife::span::centred(y - oy)) by {
                    assert(self.alive(x, y) == pre.life_next(x, y));
                }
            }
        }
    }
}


/// The smallest power of two at least `n`, with its exponent.
pub fn next_power_of2(n: u64) -> (r: (u64, u32))
    requires
        n <= 0x8000_0000,
    ensures
        r.0 == pow2(r.1 as nat),
        r.1 <= 31,
        n <= r.0,
        r.0 == 1 || r.0 / 2 < n,
{
    let mut p: u64 = 1;
    let mut k: u32 = 0;
    proof {
        lemma_pow2_small();
    }
    while p < n
        invariant
            p == pow2(k as nat),
            k <= 31,
            p == 1 || p / 2 < n,
            n <= 0x8000_0000,
            p <= 0x1_0000_0000,
        decreases 32 - k,
    {
        proof {
            assert(pow2(k as nat + 1) == 2 * pow2(k as nat));
            if k >= 31 {
                lemma_pow2_mono(31, k as nat);
                lemma_pow2_32_64();
                lemma_pow2_mono(31, 32);
                assert(pow2(31) * 2 == pow2(32));
                assert(false);
            }
        }
        assert(p * 2 <= 0x1_0000_0000);
        p = p * 2;
        k = k + 1;
    }
    (p, k)
}

/// The listing's bounding box is less than `2^31` wide in each direction,
/// and its cells lie below `2^64 - 2^31` (so that a square of side up to
/// `2^31` at its least corner does not wrap).
pub open spec fn flat_in_range(data: Seq<u128>) -> bool {
    &&& forall|i: int| 0 <= i < data.len() ==> key_x(#[trigger] data[i]) < 0xFFFF_FFFF_8000_0000 && key_y(data[i])
        < 0xFFFF_FFFF_8000_0000
    &&& forall|i: int, j: int|
        0 <= i < data.len() && 0 <= j < data.len() ==> key_x(#[trigger] data[i]) - key_x(#[trigger] data[j]) < 0x8000_0000
            && key_y(data[i]) - key_y(data[j]) < 0x8000_0000
}

/// A `size` x `size` grid of zero bytes.
fn zero_grid(size: usize) -> (g: Vec<Vec<u8>>)
    ensures
        g@.len() == size,
        forall|r: int| 0 <= r < size ==> (#[trigger] g@[r])@.len() == size,
        forall|r: int, c: int| 0 <= r < size && 0 <= c < size ==> #[trigger] g@[r]@[c] == 0,
{
    let mut g: Vec<Vec<u8>> = Vec::with_capacity(size);
    let mut r: usize = 0;
    while r < size
        invariant
            r <= size,
            g@.len() == r,
            forall|k: int| 0 <= k < r ==> (#[trigger] g@[k])@.len() == size,
            forall|k: int, c: int| 0 <= k < r && 0 <= c < size ==> #[trigger] g@[k]@[c] == 0,
        decreases size - r,
    {
        let mut row: Vec<u8> = Vec::with_capacity(size);
        let mut c: usize = 0;
        while c < size
            invariant
                c <= size,
                row@.len() == c,
                forall|k: int| 0 <= k < c ==> #[trigger] row@[k] == 0,
            decreases size - c,
        {
            row.push(0);
            c = c + 1;
        }
        g.push(row);
        r = r + 1;
    }
    g
}

/// The `size` x `size` 0/1 grid of the listed cells, cell `(x, y)` at row
/// `y - (min_y - oy)`, column `x - (min_x - ox)`.
fn fill_grid(data: &[u128], min_x: u64, min_y: u64, ox: u64, oy: u64, size: u64) -> (g: Vec<Vec<u8>>)
    requires
        size <= 4096,
        ox < size,
        oy < size,
        forall|a: int| 0 <= a < data@.len() ==> min_x <= key_x(#[trigger] data@[a]) < min_x - ox + size && min_y
            <= key_y(data@[a]) < min_y - oy + size,
    ensures
        g@.len() == size,
        forall|r: int| 0 <= r < size ==> (#[trigger] g@[r])@.len() == size,
        forall|r: int, c: int| 0 <= r < size && 0 <= c < size ==> (#[trigger] g@[r]@[c] == 1) == flat_has(data@,
            min_x - ox + c, min_y - oy + r),
{
    let usize_size = size as usize;
    let mut grid = zero_grid(usize_size);
    let mut j: usize = 0;
    while j < data.len()
        invariant
            j <= data@.len(),
            size <= 4096,
            usize_size == size,
            ox < size,
            oy < size,
            grid@.len() == size,
            forall|r: int| 0 <= r < size ==> (#[trigger] grid@[r])@.len() == size,
            forall|a: int| 0 <= a < data@.len() ==> min_x <= key_x(#[trigger] data@[a]) < min_x - ox + size && min_y
                <= key_y(data@[a]) < min_y - oy + size,
            forall|r: int, c: int| 0 <= r < size && 0 <= c < size ==> (#[trigger] grid@[r]@[c] == 1) == flat_has(
                data@.take(j as int), min_x - ox + c, min_y - oy + r),
            forall|r: int, c: int| 0 <= r < size && 0 <= c < size ==> #[trigger] grid@[r]@[c] <= 1,
        decreases data@.len() - j,
    {
        let (x, y) = coord_unpack(data[j]);
        let row = (y - min_y + oy) as usize;
        let col = (x - min_x + ox) as usize;
        let ghost g0 = grid@;
        let ghost pre = data@.take(j as int);
        let ghost cur = data@.take(j as int + 1);
        grid[row].set(col, 1);
        proof {
            assert(key_x(data@[j as int]) == x && key_y(data@[j as int]) == y);
            assert forall|r: int, c: int| 0 <= r < size && 0 <= c < size implies (#[trigger] grid@[r]@[c] == 1) == flat_has(
                cur, min_x - ox + c, min_y - oy + r) && grid@[r]@[c] <= 1 by {
                if r == row as int && c == col as int {
                    assert(cur[j as int] == data@[j as int]);
                } else {
                    assert(grid@[r]@[c] == g0[r]@[c]);
                    if flat_has(cur, min_x - ox + c, min_y - oy + r) {
                        let i = choose|i: int| 0 <= i < cur.len() && #[trigger] key_x(cur[i]) == min_x - ox + c && key_y(cur[i])
                            == min_y - oy + r;
                        if i < j {
                            assert(pre[i] == cur[i]);
                        }
                    }
                    if flat_has(pre, min_x - ox + c, min_y - oy + r) {
                        let i = choose|i: int| 0 <= i < pre.len() && #[trigger] key_x(pre[i]) == min_x - ox + c && key_y(pre[i])
                            == min_y - oy + r;
                        assert(cur[i] == pre[i]);
                    }
                }
            }
        }
        j = j + 1;
    }
    proof {
        assert(data@.take(data@.len() as int) =~= data@);
    }
    grid
}

/// Growing a root one level keeps it showing the listed cells, from a square
/// moved up and left by the growth of the half-width.
proof fn lemma_expand_window(old_nodes: Seq<crate::hashlife::cache::LifeNode>, new_nodes: Seq<crate::hashlife::cache::LifeNode>,
    tree: u32, tree2: u32, d: nat, wx: int, wy: int, data: Seq<u128>)
    requires
        window_ok(old_nodes, tree, d, wx, wy, data),
        forall|a: int, b: int| 0 <= a < pow2(d + 1) && 0 <= b < pow2(d + 1) ==> #[trigger] alive_at(new_nodes, tree2, d + 1, a, b)
            == crate::hashlife::tree::expanded_alive(old_nodes, tree, d, a, b),
        d == 0 ==> tree <= 1,
    ensures
        window_ok(new_nodes, tree2, d + 1, wx - (pow2(d + 1) / 2 - pow2(d) / 2), wy - (pow2(d + 1) / 2 - pow2(d) / 2), data),
        tree2 != TRUE_NODE,
{
    let p = pow2(d) as int;
    let p1 = pow2(d + 1) as int;
    let sh = p1 / 2 - p / 2;
    lemma_pow2_small();
    crate::arith::lemma_pow2_add(d, 1);
    assert(p1 == 2 * p);
    lemma_pow2_mono(0, d);
    if d > 0 {
        crate::arith::lemma_pow2_add((d - 1) as nat, 1);
        assert(p == 2 * pow2((d - 1) as nat));
    }
    assert(sh == if d == 0 { 1 } else { pow2((d - 1) as nat) as int });
    assert forall|a: int, b: int| 0 <= a < p1 && 0 <= b < p1 implies #[trigger] alive_at(new_nodes, tree2, d + 1, a, b)
        == flat_has(data, wx - sh + a, wy - sh + b) by {
        let e = crate::hashlife::tree::expanded_alive(old_nodes, tree, d, a, b);
        if flat_has(data, wx - sh + a, wy - sh + b) {
            let i = choose|i: int| 0 <= i < data.len() && #[trigger] key_x(data[i]) == wx - sh + a && key_y(data[i]) == wy - sh + b;
            assert(wx <= key_x(data[i]) < wx + p);
            assert(alive_at(old_nodes, tree, d, a - sh, b - sh) == flat_has(data, wx + (a - sh), wy + (b - sh)));
        } else {
            if tree != FALSE_NODE {
                if sh <= a < sh + p && sh <= b < sh + p {
                    assert(alive_at(old_nodes, tree, d, a - sh, b - sh) == flat_has(data, wx + (a - sh), wy + (b - sh)));
                }
            }
        }
    }
    assert(alive_at(new_nodes, tree2, d + 1, 0, 0) == false);
}

/// The root of a small pattern: the 0/1 grid of the cells, centred in its
/// `size` x `size` square, built into a node and grown to at least 8 wide.
fn small_tree(data: &[u128], min_x: u64, min_y: u64, ox: u64, oy: u64, size: u64, depth: u32) -> (r: (HashLifeCache, u32, u32))
    requires
        size as nat == pow2(depth as nat),
        size <= 4096,
        depth <= 12,
        ox < size,
        oy < size,
        forall|a: int| 0 <= a < data@.len() ==> min_x <= key_x(#[trigger] data@[a]) < min_x - ox + size && min_y
            <= key_y(data@[a]) < min_y - oy + size,
    ensures
        r.0.wf(),
        r.0.valid(r.1),
        fast_ok(&r.0),
        3 <= r.2 <= 31,
        r.2 == 0 ==> r.1 <= 1,
        r.2 as nat >= depth,
        !r.0.exhausted ==> window_ok(r.0.nodes@, r.1, r.2 as nat, min_x - ox - (pow2(r.2 as nat)
            / 2 - size / 2), min_y - oy - (pow2(r.2 as nat) / 2 - size / 2), data@),
{
    let usize_size = size as usize;
    let grid = fill_grid(data, min_x, min_y, ox, oy, size);
    let mut cache = HashLifeCache::new();
    let mut tree = build_quadtree(&mut cache, grid.as_slice(), 0, 0, usize_size, usize_size);
    let mut d = depth;
    let ghost wx0 = min_x - ox;
    let ghost wy0 = min_y - oy;
    proof {
        if d == 0 {
            lemma_pow2_small();
        }
        if !cache.exhausted {
            assert forall|a: int, b: int| 0 <= a < pow2(depth as nat) && 0 <= b < pow2(depth as nat) implies #[trigger] alive_at(
                cache.nodes@, tree, depth as nat, a, b) == flat_has(data@, wx0 + a, wy0 + b) by {
                assert(grid@[0 + b]@[0 + a] == 1 <==> flat_has(data@, min_x - ox + a, min_y - oy + b));
            }
        }
    }
    while d < 3
        invariant
            cache.wf(),
            cache.valid(tree),
            fast_ok(&cache),
            d == 0 ==> tree <= 1,
            depth <= d <= 31,
            size as nat == pow2(depth as nat),
            !cache.exhausted ==> window_ok(cache.nodes@, tree, d as nat, wx0 - (pow2(d as nat) / 2
                - size / 2), wy0 - (pow2(d as nat) / 2 - size / 2), data@),
        decreases 3 - d,
    {
        let ghost c0 = cache;
        let ghost t0 = tree;
        tree = expand_node(&mut cache, tree, d);
        proof {
            crate::hashlife::advance::lemma_fast_frame(&c0, &cache);
            if !cache.exhausted {
                assert(!c0.exhausted);
                let sh0 = pow2(d as nat) / 2 - size / 2;
                lemma_expand_window(c0.nodes@, cache.nodes@, t0, tree, d as nat, wx0 - sh0, wy0 - sh0, data@);
                let sh = pow2(d as nat + 1) / 2 - pow2(d as nat) / 2;
                assert(wx0 - sh0 - sh == wx0 - (pow2((d + 1) as nat) / 2 - size / 2));
            }
        }
        d = d + 1;
    }
    (cache, tree, d)
}

/// The block's corner computed through the wrapped centre is congruent to
/// the square's corner.
proof fn lemma_center_congruent(min_x: u64, ox: u64, half: u64, center: i64, h2: int)
    requires
        center as int % two64() == ((min_x - ox) % two64() + half) % two64(),
        half < two64(),
    ensures
        (min_x - ox - (h2 - half)) % two64() == (center - h2) % two64(),
{
    let m = two64();
    vstd::arithmetic::div_mod::lemma_add_mod_noop(min_x - ox, half as int, m);
    vstd::arithmetic::div_mod::lemma_mod_twice(min_x - ox, m);
    vstd::arithmetic::div_mod::lemma_sub_mod_noop(center as int, h2, m);
    vstd::arithmetic::div_mod::lemma_sub_mod_noop(min_x - ox + half, h2, m);
    assert(min_x - ox - (h2 - half) == min_x - ox + half - h2);
}

/// The root built straight from the list shows the listed cells from the
/// square at the list's least coordinates.
proof fn lemma_large_window(nodes: Seq<crate::hashlife::cache::LifeNode>, tree: u32, depth: nat, min_x: u64, min_y: u64,
    size: int, data: Seq<u128>)
    requires
        size == pow2(depth),
        min_x + size <= two64(),
        min_y + size <= two64(),
        forall|x: int, y: int| 0 <= x < size && 0 <= y < size ==> #[trigger] alive_at(nodes, tree, depth, x, y)
            == data.contains(crate::hashlife::tree::cell_key(min_x + x, min_y + y)),
        forall|a: int| 0 <= a < data.len() ==> min_x <= key_x(#[trigger] data[a]) < min_x + size && min_y <= key_y(data[a])
            < min_y + size,
    ensures
        window_ok(nodes, tree, depth, min_x as int, min_y as int, data),
{
    assert forall|a: int, b: int| 0 <= a < pow2(depth) && 0 <= b < pow2(depth) implies #[trigger] alive_at(nodes, tree, depth,
        a, b) == flat_has(data, min_x + a, min_y + b) by {
        let p = min_x + a;
        let q = min_y + b;
        crate::hashlife::laws::lemma_flat_has_pack(data, p as u64, q as u64);
        vstd::arithmetic::div_mod::lemma_small_mod(p as nat, two64() as nat);
        vstd::arithmetic::div_mod::lemma_small_mod(q as nat, two64() as nat);
        assert(crate::hashlife::tree::cell_key(p, q) == spec_coord_pack(p as u64, q as u64));
    }
}

/// The universe of a large pattern is alive exactly at the listed cells.
proof fn lemma_large_alive(hf: HashLife, data: Seq<u128>, min_x: u64, min_y: u64, size: int, half: u64)
    requires
        size == pow2(hf.depth as nat),
        half == size / 2,
        hf.depth <= 31,
        min_x + size <= two64(),
        min_y + size <= two64(),
        size <= 0x8000_0000,
        hf.center.0 as int % two64() == min_x + half,
        hf.center.1 as int % two64() == min_y + half,
        forall|x: int, y: int| 0 <= x < size && 0 <= y < size ==> #[trigger] alive_at(hf.cache.nodes@, hf.root, hf.depth as nat,
            x, y) == data.contains(crate::hashlife::tree::cell_key(min_x + x, min_y + y)),
        forall|a: int| 0 <= a < data.len() ==> min_x <= key_x(#[trigger] data[a]) < min_x + size && min_y <= key_y(data[a])
            < min_y + size,
    ensures
        forall|x: u64, y: u64| #[trigger] hf.alive(x, y) == data.contains(spec_coord_pack(x, y)),
{
    lemma_large_window(hf.cache.nodes@, hf.root, hf.depth as nat, min_x, min_y, size, data);
    lemma_origin_congruent(min_x, half, hf.center.0);
    lemma_origin_congruent(min_y, half, hf.center.1);
    lemma_window_alive(hf, data, min_x as int, min_y as int);
}

/// The universe of a small pattern is alive exactly at the listed cells.
proof fn lemma_small_alive(hf: HashLife, data: Seq<u128>, min_x: u64, min_y: u64, ox: u64, oy: u64, size: u64, half: u64)
    requires
        hf.depth <= 31,
        half == size / 2,
        size <= 4096,
        hf.center.0 as int % two64() == ((min_x - ox) % two64() + half) % two64(),
        hf.center.1 as int % two64() == ((min_y - oy) % two64() + half) % two64(),
        window_ok(hf.cache.nodes@, hf.root, hf.depth as nat, min_x - ox - (pow2(hf.depth as nat) / 2 - size / 2), min_y - oy - (
        pow2(hf.depth as nat) / 2 - size / 2), data),
    ensures
        forall|x: u64, y: u64| #[trigger] hf.alive(x, y) == data.contains(spec_coord_pack(x, y)),
{
    let h2 = (pow2(hf.depth as nat) / 2) as int;
    lemma_center_congruent(min_x, ox, half, hf.center.0, h2);
    lemma_center_congruent(min_y, oy, half, hf.center.1, h2);
    lemma_window_alive(hf, data, min_x - ox - (h2 - half), min_y - oy - (h2 - half));
}

/// A centre `half` past `v` puts the block's corner (half a block back) at `v`
/// modulo 2^64.
proof fn lemma_origin_congruent(v: u64, half: u64, center: i64)
    requires
        v + half < two64(),
        center as int % two64() == v + half,
    ensures
        (v as int) % two64() == (center - half) % two64(),
{
    let m = two64();
    vstd::arithmetic::div_mod::lemma_small_mod(v as nat, m as nat);
    vstd::arithmetic::div_mod::lemma_small_mod((v + half) as nat, m as nat);
    vstd::arithmetic::div_mod::lemma_sub_mod_noop(center as int, half as int, m);
    vstd::arithmetic::div_mod::lemma_sub_mod_noop((v + half) as int, half as int, m);
}

impl HashLife {
    /// The universe of a large pattern: its root built straight from the list
    /// over the `size` x `size` square at the least coordinates.
    fn from_flat_large(data: &[u128], min_x: u64, min_y: u64, size: u64, depth: u32) -> (h: Self)
        requires
            size as nat == pow2(depth as nat),
            4096 < size <= 0x8000_0000,
            depth <= 31,
            min_x < 0xFFFF_FFFF_8000_0000,
            min_y < 0xFFFF_FFFF_8000_0000,
            forall|a: int| 0 <= a < data@.len() ==> min_x <= key_x(#[trigger] data@[a]) < min_x + size && min_y
                <= key_y(data@[a]) < min_y + size,
        ensures
            h.wf(),
            h.depth >= 3,
            !h.cache.exhausted ==> forall|x: u64, y: u64| #[trigger] h.alive(x, y) == data@.contains(spec_coord_pack(x, y)),
    {
        let mut cache = HashLifeCache::new();
        let tree = build_quadtree_from_cells(&mut cache, data, min_x, min_y, size as u32, depth);
        let half = size / 2;
        let center = (unwrap_i64(min_x.wrapping_add(half)), unwrap_i64(min_y.wrapping_add(half)));
        proof {
            assert(depth > 3) by {
                if depth <= 12 {
                    lemma_pow2_mono(depth as nat, 12);
                    lemma_pow2_small();
                    crate::arith::lemma_pow2_add(6, 6);
                }
            }
        }
        let mut hf = Self::assemble(cache, tree, center, depth);
        proof {
            if !hf.cache.exhausted {
                lemma_large_alive(hf, data@, min_x, min_y, size as int, half);
            }
        }
        hf.shrink_caches();
        hf
    }

    /// A square at most 4096 wide is at most 12 levels deep.
    proof fn lemma_small_depth(depth: u32)
        requires
            pow2(depth as nat) <= 4096,
        ensures
            depth <= 12,
    {
        if depth > 12 {
            lemma_pow2_mono(13, depth as nat);
            crate::arith::lemma_pow2_add(12, 1);
            crate::arith::lemma_pow2_add(6, 6);
            crate::arith::lemma_pow2_add(3, 3);
            crate::arith::lemma_pow2_add(2, 1);
            lemma_pow2_small();
        }
    }

    /// The universe of a small pattern (see `small_tree`), centred on its
    /// square.
    #[verifier::spinoff_prover]
    #[verifier::rlimit(100)]
    fn from_flat_small(data: &[u128], min_x: u64, min_y: u64, max_x: u64, max_y: u64, size: u64, depth: u32) -> (h: Self)
        requires
            size as nat == pow2(depth as nat),
            size <= 4096,
            depth <= 31,
            min_x <= max_x,
            min_y <= max_y,
            max_x - min_x + 1 <= size,
            max_y - min_y + 1 <= size,
            forall|a: int| 0 <= a < data@.len() ==> min_x <= key_x(#[trigger] data@[a]) <= max_x && min_y <= key_y(data@[a])
                <= max_y,
        ensures
            h.wf(),
            h.depth >= 3,
            !h.cache.exhausted ==> forall|x: u64, y: u64| #[trigger] h.alive(x, y)
                == data@.contains(spec_coord_pack(x, y)),
    {
        let span_x = max_x - min_x + 1;
        let span_y = max_y - min_y + 1;
        let ox = (size - span_x) / 2;
        let oy = (size - span_y) / 2;
        proof {
            assert forall|a: int| 0 <= a < data@.len() implies min_x <= key_x(#[trigger] data@[a]) < min_x - ox + size && min_y
                <= key_y(data@[a]) < min_y - oy + size by {
                assert(key_x(data@[a]) <= max_x);
                assert(key_y(data@[a]) <= max_y);
            }
            Self::lemma_small_depth(depth);
        }
        let (cache, tree, d) = small_tree(data, min_x, min_y, ox, oy, size, depth);
        let origin_x = min_x.wrapping_sub(ox);
        let origin_y = min_y.wrapping_sub(oy);
        let half = size / 2;
        let mut hf = Self::assemble(cache, tree, (unwrap_i64(origin_x.wrapping_add(half)), unwrap_i64(origin_y.wrapping_add(half))),
            d);
        proof {
            if !hf.cache.exhausted {
                lemma_small_alive(hf, data@, min_x, min_y, ox, oy, size, half);
            }
        }
        let ghost h0 = hf;
        hf.shrink_caches();
        proof {
            if !hf.cache.exhausted {
                assert forall|x: u64, y: u64| #[trigger] hf.alive(x, y) == data@.contains(spec_coord_pack(x, y)) by {
                    assert(hf.alive(x, y) == h0.alive(x, y));
                }
            }
        }
        hf
    }

    /// A universe with fresh single-step caches around `root`.
    fn assemble(cache: HashLifeCache, root: u32, center: (i64, i64), depth: u32) -> (h: Self)
        requires
            cache.wf(),
            fast_ok(&cache),
            cache.valid(root),
            depth <= MAX_DEPTH,
            depth == 0 ==> root <= 1,
        ensures
            h.wf(),
            h.cache == cache,
            h.root == root,
            h.center == center,
            h.depth == depth,
    {
        HashLife {
            cache,
            root,
            center,
            depth,
            slow_cache_n: slow_new(),
            slow_cache_n1: slow_new(),
            slow_cache_hits: 0,
            slow_cache_misses: 0,
            last_cache_size: 0,
            last_cache_hit_rate: 0,
            last_gc_live_len: 0,
            last_step_count: 0,
            rotate_count: 0,
        }
    }

    /// A universe holding exactly the listed cells (packed plane coordinates):
    /// the root is built over the smallest power-of-two square around them
    /// (from a 0/1 grid with the pattern centred when that square is at most
    /// 4096 wide, straight from the list otherwise) and grown to at least 8
    /// wide.
    #[verifier::rlimit(100)]
    #[verifier::spinoff_prover]
    pub fn from_flat(data: &[u128]) -> (h: Self)
        requires
            flat_in_range(data@),
        ensures
            h.wf(),
            data@.len() == 0 ==> h.root == FALSE_NODE && h.depth == 0,
            data@.len() > 0 ==> h.depth >= 3,
            !h.cache.exhausted ==> forall|x: u64, y: u64| #[trigger] h.alive(x, y)
                == data@.contains(spec_coord_pack(x, y)),
    {
        if data.len() == 0 {
            return Self::new();
        }
        let mut min_x: u64 = u64::MAX;
        let mut min_y: u64 = u64::MAX;
        let mut max_x: u64 = 0;
        let mut max_y: u64 = 0;
        let mut i: usize = 0;
        while i < data.len()
            invariant
                0 < data@.len(),
                i <= data@.len(),
                flat_in_range(data@),
                i == 0 ==> min_x == u64::MAX && min_y == u64::MAX && max_x == 0 && max_y == 0,
                i > 0 ==> exists|a: int| 0 <= a < i && key_x(data@[a]) == min_x,
                i > 0 ==> exists|a: int| 0 <= a < i && key_y(data@[a]) == min_y,
                i > 0 ==> exists|a: int| 0 <= a < i && key_x(data@[a]) == max_x,
                i > 0 ==> exists|a: int| 0 <= a < i && key_y(data@[a]) == max_y,
                forall|a: int| 0 <= a < i ==> min_x <= key_x(#[trigger] data@[a]) <= max_x && min_y <= key_y(data@[a]) <= max_y,
            decreases data@.len() - i,
        {
            let (x, y) = coord_unpack(data[i]);
            if x < min_x {
                min_x = x;
            }
            if y < min_y {
                min_y = y;
            }
            if x > max_x {
                max_x = x;
            }
            if y > max_y {
                max_y = y;
            }
            i = i + 1;
        }
        proof {
            let a1 = choose|a: int| 0 <= a < data@.len() && key_x(data@[a]) == min_x;
            let a2 = choose|a: int| 0 <= a < data@.len() && key_x(data@[a]) == max_x;
            let b1 = choose|a: int| 0 <= a < data@.len() && key_y(data@[a]) == min_y;
            let b2 = choose|a: int| 0 <= a < data@.len() && key_y(data@[a]) == max_y;
            assert(key_x(data@[a1]) < 0xFFFF_FFFF_8000_0000 && key_y(data@[b1]) < 0xFFFF_FFFF_8000_0000);
            assert(key_x(data@[a2]) - key_x(data@[a1]) < 0x8000_0000);
            assert(key_y(data@[b2]) - key_y(data@[b1]) < 0x8000_0000);
        }
        let span_x = max_x - min_x + 1;
        let span_y = max_y - min_y + 1;
        let span = if span_x > span_y { span_x } else { span_y };
        let (size, depth) = next_power_of2(span);
        if size > 4096 {
            proof {
                lemma_pow2_mono(depth as nat, 31);
                lemma_pow2_32_64();
                assert forall|a: int| 0 <= a < data@.len() implies min_x <= key_x(#[trigger] data@[a]) < min_x + size
                    && min_y <= key_y(data@[a]) < min_y + size by {
                    assert(key_x(data@[a]) <= max_x);
                    assert(key_y(data@[a]) <= max_y);
                }
            }
            return Self::from_flat_large(data, min_x, min_y, size, depth);
        }
        proof {
            assert forall|a: int| 0 <= a < data@.len() implies min_x <= key_x(#[trigger] data@[a]) <= max_x && min_y
                <= key_y(data@[a]) <= max_y by {}
        }
        Self::from_flat_small(data, min_x, min_y, max_x, max_y, size, depth)
    }
}


/// What `align_viewport` needs of its arguments.
pub open spec fn align_ok(center: (i64, i64), hvx: u64, hvy: u64, vw: u32, vh: u32, scale: u32) -> bool {
    &&& 1 <= scale <= 0x1FFF_FFFF
    &&& i64::MIN <= (hvx as i64) as int - center.0 as int <= i64::MAX
    &&& i64::MIN <= (hvy as i64) as int - center.1 as int <= i64::MAX
    &&& spec_align_dx(center.0, hvx, 8 * scale as int) <= hvx
    &&& spec_align_dx(center.1, hvy, scale as int) <= hvy
    &&& (vw >= 1 || spec_align_dx(center.0, hvx, 8 * scale as int) >= 1)
    &&& (vh >= 1 || spec_align_dx(center.1, hvy, scale as int) >= 1)
}

/// The bytes of the bitmap of a `vw` x `vh` viewport shown at `scale`
/// (one bit per `scale` x `scale` square).
pub open spec fn bitmap_bytes(vw: u32, vh: u32, scale: u32) -> int {
    if scale > 1 {
        ((vw + scale - 1) / (scale as int) * ((vh + scale - 1) / (scale as int)) + 7) / 8
    } else {
        (vw * vh + 7) / 8
    }
}

/// The byte count of the bitmap of a viewport.
fn bitmap_len(vw: u32, vh: u32, scale: u32) -> (r: u64)
    requires
        scale >= 1,
    ensures
        r == bitmap_bytes(vw, vh, scale),
{
    if scale > 1 {
        let s = scale as u64;
        let agg_w = (vw as u64 + s - 1) / s;
        let agg_h = (vh as u64 + s - 1) / s;
        proof {
            assert(agg_w <= 0xFFFF_FFFF) by (nonlinear_arith)
                requires
                    agg_w as int == (vw + s - 1) / (s as int),
                    s >= 2,
                    vw <= 0xFFFF_FFFF,
            ;
            assert(agg_h <= 0xFFFF_FFFF) by (nonlinear_arith)
                requires
                    agg_h as int == (vh + s - 1) / (s as int),
                    s >= 2,
                    vh <= 0xFFFF_FFFF,
            ;
            assert(agg_w * agg_h <= 0xFFFF_FFFFu64 * 0xFFFF_FFFFu64) by (nonlinear_arith)
                requires
                    agg_w <= 0xFFFF_FFFF,
                    agg_h <= 0xFFFF_FFFF,
            ;
        }
        (agg_w * agg_h + 7) / 8
    } else {
        proof {
            assert(vw as u64 * vh as u64 <= 0xFFFF_FFFFu64 * 0xFFFF_FFFFu64) by (nonlinear_arith);
        }
        (vw as u64 * vh as u64 + 7) / 8
    }
}

impl HashLife {
    /// The viewport to fill: byte-aligned with `align_viewport` when the bitmap
    /// exceeds 64 KiB and the root is at least 8 wide (the case in which its
    /// four quadrants may be filled separately), else the viewport as given.
    pub fn aligned_viewport(&self, hvx: u64, hvy: u64, vw: u32, vh: u32, scale: u32) -> (r: (u64, u64, u32, u32))
        requires
            scale >= 1,
            bitmap_bytes(vw, vh, scale) > 65536 && self.depth >= 3 ==> align_ok(self.center, hvx, hvy, vw, vh, scale),
        ensures
            !(bitmap_bytes(vw, vh, scale) > 65536 && self.depth >= 3) ==> r == (hvx, hvy, vw, vh),
            bitmap_bytes(vw, vh, scale) > 65536 && self.depth >= 3 ==> ({
                let dx = spec_align_dx(self.center.0, hvx, 8 * scale as int);
                let dy = spec_align_dx(self.center.1, hvy, scale as int);
                &&& r.0 == hvx - dx
                &&& r.1 == hvy - dy
                &&& r.2 == spec_pad_to_agg_multiple(vw + dx, scale as int) as u32
                &&& r.3 == spec_pad_to_agg_multiple(vh + dy, scale as int) as u32
            }),
    {
        let len = bitmap_len(vw, vh, scale);
        if len > 64 * 1024 && self.depth >= 3 {
            align_viewport(self.center, hvx, hvy, vw, vh, scale)
        } else {
            (hvx, hvy, vw, vh)
        }
    }

    /// Sets plane cell `(x, y)` to `alive`. An empty universe is rebuilt around
    /// the cell (nothing to do when clearing; the cell must then lie below
    /// `2^64 - 2^31`). Otherwise the root grows until
    /// the cell lies in its block and it is at least 8 wide (32 levels at most:
    /// farther cells are left as they are), and the cell is set in it.
    pub fn set_cell(&mut self, x: u64, y: u64, alive: bool)
        requires
            old(self).wf(),
            old(self).root == FALSE_NODE && alive ==> x < 0xFFFF_FFFF_8000_0000 && y < 0xFFFF_FFFF_8000_0000,
        ensures
            final(self).wf(),
            old(self).root == FALSE_NODE && !alive ==> *final(self) == *old(self),
            old(self).root != FALSE_NODE ==> final(self).center == old(self).center,
            old(self).root != FALSE_NODE && old(self).depth <= 32 ==> final(self).cache.exhausted || final(self).depth == 32
                || final(self).alive(x, y) == alive,
            old(self).root != FALSE_NODE && old(self).depth <= 32 ==> final(self).cache.exhausted || final(self).alive(x, y)
                == alive || (final(self).depth == 32 && !final(self).in_block(x, y)),
            old(self).root == FALSE_NODE && alive && !final(self).cache.exhausted ==> final(self).alive(x, y),
            old(self).root != FALSE_NODE && old(self).depth > 32 ==> *final(self) == *old(self),
            old(self).alive(x, y) && old(self).depth <= 32 && !final(self).cache.exhausted ==> final(self).alive(x, y) == alive,
            old(self).root != FALSE_NODE && old(self).cache.exhausted ==> final(self).cache.exhausted,
            !final(self).cache.exhausted ==> forall|a: u64, b: u64|
                (a != x || b != y) ==> #[trigger] final(self).alive(a, b) == old(self).alive(a, b),
            old(self).root != FALSE_NODE ==> final(self).depth >= old(self).depth,
    {
        if self.is_empty() {
            if !alive {
                return;
            }
            let cell = coord_pack(x, y);
            let mut v: Vec<u128> = Vec::new();
            v.push(cell);
            proof {
                let c = cell as int;
                assert(c == x + y * two64());
                vstd::arithmetic::div_mod::lemma_fundamental_div_mod_converse(c, two64(), y as int, x as int);
                assert(key_x(v@[0]) == x && key_y(v@[0]) == y);
            }
            *self = HashLife::from_flat(v.as_slice());
            proof {
                assert(v@.contains(spec_coord_pack(x, y))) by {
                    assert(v@[0] == spec_coord_pack(x, y));
                }
                assert forall|a: u64, b: u64| (a != x || b != y) && !self.cache.exhausted implies !#[trigger] self.alive(
                    a,
                    b,
                ) by {
                    if v@.contains(spec_coord_pack(a, b)) {
                        assert(v@[0] == spec_coord_pack(a, b));
                        lemma_coord_pack_inj(a, b, x, y);
                    }
                }
                assert forall|a: u64, b: u64| !#[trigger] old(self).alive(a, b) by {}
            }
            return;
        }
        loop
            invariant
                self.wf(),
                self.center == old(self).center,
                old(self).root != FALSE_NODE,
                old(self).depth <= 32 ==> self.depth <= 32,
                self.depth >= old(self).depth,
                !self.cache.exhausted ==> forall|a: u64, b: u64| #[trigger] self.alive(a, b) == old(self).alive(a, b),
                old(self).cache.exhausted ==> self.cache.exhausted,
                old(self).depth > 32 ==> *self == *old(self),
            decreases MAX_DEPTH - self.depth,
        {
            let (ox, oy) = self.origin();
            let size = self.side_u64();
            let rx = x.wrapping_sub(ox);
            let ry = y.wrapping_sub(oy);
            proof {
                lemma_wrapping_sub_mod(x, ox, self.origin_x());
                lemma_wrapping_sub_mod(y, oy, self.origin_y());
            }
            if rx < size && ry < size && self.depth >= 3 && self.depth <= 32 {
                proof {
                    lemma_pow2_mono(self.depth as nat, 32);
                    lemma_pow2_32_64();
                }
                let ghost c0 = self.cache;
                let ghost pre = *self;
                self.root = set_cell_at(&mut self.cache, self.root, self.depth, rx as u32, ry as u32, alive);
                proof {
                    crate::hashlife::advance::lemma_caches_frame(&c0, &self.cache, self.slow_cache_n, self.slow_cache_n1);
                    if !self.cache.exhausted {
                        lemma_set_frame(pre, *self, x, y, rx, ry, alive);
                    }
                }
                return;
            }
            if self.depth >= 32 {
                proof {
                    if old(self).depth <= 32 {
                        assert(self.depth >= 3) by {
                            assert(self.depth == 32);
                        }
                        assert(!self.in_block(x, y));
                        if old(self).alive(x, y) && !self.cache.exhausted {
                            assert(self.alive(x, y));
                            assert(self.in_block(x, y));
                        }
                    }
                }
                return;
            }
            self.expand_once();
        }
    }
}


impl HashLife {
    /// Draws the live cells into the bitmap of the `vw` x `vh` viewport at
    /// `(vx, vy)` (one bit per cell, row by row), first growing the buffer to
    /// `ceil(vw vh / 8)` bytes. Returns the number of bytes written by uniform
    /// live blocks (see `true_fill_bytes`), capped at `u64::MAX`.
    pub fn populate_viewport(&self, vx: u64, vy: u64, vw: u32, vh: u32, bits: &mut Vec<u8>) -> (tf: u64)
        requires
            self.wf(),
            self.depth <= 31,
            self.origin_x() % two64() + self.side() <= u64::MAX,
            self.origin_y() % two64() + self.side() <= u64::MAX,
            vx + vw <= u64::MAX,
            vy + vh <= u64::MAX,
            vw * vh + 7 <= usize::MAX,
            forall|p: int|
                0 <= p < 8 * old(bits)@.len() && covers(p, vx as int, vy as int, vw as int, vh as int,
                    self.origin_x() % two64(), self.origin_y() % two64(), self.side()) ==> !#[trigger] bit_at(old(bits)@, p),
        ensures
            final(bits)@.len() == if old(bits)@.len() < (vw * vh + 7) / 8 { (vw * vh + 7) / 8 } else { old(bits)@.len() as int },
            exists|grown: Seq<u8>|
                grown.len() == final(bits)@.len() && grown.subrange(0, old(bits)@.len() as int) == old(bits)@ && (forall|i: int|
                    old(bits)@.len() <= i < grown.len() ==> #[trigger] grown[i] == 0) && filled(self.cache.nodes@, self.root,
                    self.depth as nat, self.origin_x() % two64(), self.origin_y() % two64(), vx as int, vy as int, vw as int,
                    vh as int, grown, final(bits)@),
            tf as int == sat64(
                true_fill_bytes(self.cache.nodes@, self.root, self.depth as nat, self.origin_x() % two64(), self.origin_y()
                    % two64(), vx as int, vy as int, vw as int, vh as int),
            ),
    {
        let bits_len = ((vw as u64 * vh as u64 + 7) / 8) as usize;
        grow_zeroed(bits, bits_len);
        let ghost grown = bits@;
        let (ox, oy) = self.origin();
        proof {
            assert forall|p: int|
                covers(p, vx as int, vy as int, vw as int, vh as int, ox as int, oy as int, pow2(self.depth as nat) as int) implies !#[trigger] bit_at(
                grown,
                p,
            ) by {
                assert(p < vw * vh);
                let m = vw * vh;
                assert(p / 8 < (m + 7) / 8) by (nonlinear_arith)
                    requires
                        0 <= p < m,
                ;
                assert(bits_len as int == (m + 7) / 8);
                assert(p / 8 < grown.len());
                if p < 8 * old(bits)@.len() {
                    assert(grown.subrange(0, old(bits)@.len() as int)[p / 8] == grown[p / 8]);
                    assert(grown[p / 8] == old(bits)@[p / 8]);
                    assert(covers(p, vx as int, vy as int, vw as int, vh as int, self.origin_x() % two64(),
                        self.origin_y() % two64(), self.side()));
                    assert(!bit_at(old(bits)@, p));
                    assert(bit_at(grown, p) == bit_at(old(bits)@, p));
                } else {
                    assert(p / 8 >= old(bits)@.len());
                    assert(grown[p / 8] == 0);
                    let k: u8 = (p % 8) as u8;
                    crate::hashlife::fill::lemma_full_byte(0u8, k);
                    assert(!bit_at(grown, p));
                }
            }
        }
        let tf = fill_viewport(&self.cache, self.root, self.depth, ox, oy, vx, vy, vw, vh, bits.as_mut_slice());
        proof {
            assert(grown.subrange(0, old(bits)@.len() as int) =~= old(bits)@);
        }
        tf
    }
}


impl HashLife {
    /// Draws the live cells into the aggregated bitmap of the `vw` x `vh`
    /// viewport at `(vx, vy)`: one bit per `scale` x `scale` square, the
    /// bitmap `ceil(vw / scale)` bits wide and `ceil(vh / scale)` high, the
    /// buffer first grown to hold it. Bits are only ever set, and only inside
    /// the bitmap; every live cell of the viewport lights its pixel.
    pub fn populate_aggregated_viewport(&self, vx: u64, vy: u64, vw: u32, vh: u32, scale: u32, agg: &mut Vec<u8>)
        requires
            self.wf(),
            self.depth <= 31,
            scale >= 1,
            self.origin_x() % two64() + self.side() <= u64::MAX,
            self.origin_y() % two64() + self.side() <= u64::MAX,
            vx + vw <= u64::MAX,
            vy + vh <= u64::MAX,
            vw * vh + 7 <= usize::MAX,
        ensures
            ({
                let len = (((vw + scale - 1) / (scale as int)) * ((vh + scale - 1) / (scale as int)) + 7) / 8;
                final(agg)@.len() == if old(agg)@.len() < len { len } else { old(agg)@.len() as int }
            }),
            exists|grown: Seq<u8>|
                grown.len() == final(agg)@.len() && grown.subrange(0, old(agg)@.len() as int) == old(agg)@ && (forall|i: int|
                    old(agg)@.len() <= i < grown.len() ==> #[trigger] grown[i] == 0) && only_set_below(grown, final(agg)@,
                    ((vw + scale - 1) / (scale as int)) * ((vh + scale - 1) / (scale as int))),
            forall|x: u64, y: u64|
                #[trigger] self.alive(x, y) && crate::hashlife::fill::agg_shows(vx as int, vy as int, vw as int, vh as int,
                    scale as int, (vw + scale - 1) / (scale as int), (vh + scale - 1) / (scale as int), x as int, y as int)
                    ==> bit_at(final(agg)@, crate::hashlife::fill::agg_pixel(vx as int, vy as int, scale as int, (vw + scale - 1)
                    / (scale as int), x as int, y as int)),
            forall|p: int|
                0 <= p < 8 * final(agg)@.len() && #[trigger] bit_at(final(agg)@, p) && !(p < 8 * old(agg)@.len() && bit_at(
                    old(agg)@,
                    p,
                )) ==> exists|x: u64, y: u64|
                    #[trigger] self.alive(x, y) && crate::hashlife::fill::agg_shows(vx as int, vy as int, vw as int, vh as int,
                        scale as int, (vw + scale - 1) / (scale as int), (vh + scale - 1) / (scale as int), x as int, y as int)
                        && crate::hashlife::fill::agg_pixel(vx as int, vy as int, scale as int, (vw + scale - 1) / (scale as int),
                        x as int, y as int) == p,
    {
        let s = scale as u64;
        let agg_w = (vw as u64 + s - 1) / s;
        let agg_h = (vh as u64 + s - 1) / s;
        proof {
            assert(agg_w <= vw) by (nonlinear_arith)
                requires
                    agg_w as int == (vw + s - 1) / (s as int),
                    s >= 1,
            ;
            assert(agg_h <= vh) by (nonlinear_arith)
                requires
                    agg_h as int == (vh + s - 1) / (s as int),
                    s >= 1,
            ;
            assert(agg_w * agg_h <= vw * vh) by (nonlinear_arith)
                requires
                    agg_w <= vw,
                    agg_h <= vh,
            ;
        }
        let prod = agg_w * agg_h;
        let agg_len = ((prod + 7) / 8) as usize;
        grow_zeroed(agg, agg_len);
        let ghost grown = agg@;
        let (ox, oy) = self.origin();
        fill_aggregated_viewport(&self.cache, self.root, self.depth, ox, oy, vx, vy, vw, vh, scale, agg_w as u32,
            agg_h as u32, agg.as_mut_slice());
        proof {
            assert(grown.subrange(0, old(agg)@.len() as int) =~= old(agg)@);
            let m = two64();
            assert forall|p: int|
                0 <= p < 8 * agg@.len() && #[trigger] bit_at(agg@, p) && !(p < 8 * old(agg)@.len() && bit_at(old(agg)@, p))
                    implies exists|x: u64, y: u64|
                    #[trigger] self.alive(x, y) && crate::hashlife::fill::agg_shows(vx as int, vy as int, vw as int, vh as int,
                        scale as int, agg_w as int, agg_h as int, x as int, y as int) && crate::hashlife::fill::agg_pixel(
                        vx as int,
                        vy as int,
                        scale as int,
                        agg_w as int,
                        x as int,
                        y as int,
                    ) == p by {
                if p < 8 * old(agg)@.len() {
                    assert(grown.subrange(0, old(agg)@.len() as int)[p / 8] == grown[p / 8]);
                    assert(bit_at(grown, p) == bit_at(old(agg)@, p));
                } else {
                    assert(grown[p / 8] == 0);
                    let k: u8 = (p % 8) as u8;
                    crate::hashlife::fill::lemma_full_byte(0u8, k);
                    assert(!bit_at(grown, p));
                }
                assert(crate::hashlife::fill::agg_lit(self.cache.nodes@, self.root, self.depth as nat, ox as int, oy as int,
                    vx as int, vy as int, vw as int, vh as int, scale as int, agg_w as int, agg_h as int, p));
                let (xi, yi) = choose|xi: int, yi: int|
                    crate::hashlife::fill::node_cell(self.cache.nodes@, self.root, self.depth as nat, ox as int, oy as int, xi, yi)
                        && crate::hashlife::fill::agg_shows(vx as int, vy as int, vw as int, vh as int, scale as int, agg_w as int,
                        agg_h as int, xi, yi) && crate::hashlife::fill::agg_pixel(vx as int, vy as int, scale as int, agg_w as int,
                        xi, yi) == p;
                let x = xi as u64;
                let y = yi as u64;
                vstd::arithmetic::div_mod::lemma_sub_mod_noop(x as int, self.origin_x(), m);
                vstd::arithmetic::div_mod::lemma_sub_mod_noop(y as int, self.origin_y(), m);
                vstd::arithmetic::div_mod::lemma_small_mod(x as nat, m as nat);
                vstd::arithmetic::div_mod::lemma_small_mod(y as nat, m as nat);
                vstd::arithmetic::div_mod::lemma_small_mod((x - ox) as nat, m as nat);
                vstd::arithmetic::div_mod::lemma_small_mod((y - oy) as nat, m as nat);
                assert(self.alive(x, y));
            }
            assert forall|x: u64, y: u64|
                #[trigger] self.alive(x, y) && crate::hashlife::fill::agg_shows(vx as int, vy as int, vw as int, vh as int,
                    scale as int, agg_w as int, agg_h as int, x as int, y as int) implies crate::hashlife::fill::node_cell(
                self.cache.nodes@,
                self.root,
                self.depth as nat,
                ox as int,
                oy as int,
                x as int,
                y as int,
            ) by {
                vstd::arithmetic::div_mod::lemma_sub_mod_noop(x as int, self.origin_x(), m);
                vstd::arithmetic::div_mod::lemma_sub_mod_noop(y as int, self.origin_y(), m);
                vstd::arithmetic::div_mod::lemma_small_mod(x as nat, m as nat);
                vstd::arithmetic::div_mod::lemma_small_mod(y as nat, m as nat);
                if x < ox {
                    vstd::arithmetic::div_mod::lemma_fundamental_div_mod_converse(x - ox, m, -1, x - ox + m);
                } else {
                    vstd::arithmetic::div_mod::lemma_small_mod((x - ox) as nat, m as nat);
                }
                if y < oy {
                    vstd::arithmetic::div_mod::lemma_fundamental_div_mod_converse(y - oy, m, -1, y - oy + m);
                } else {
                    vstd::arithmetic::div_mod::lemma_small_mod((y - oy) as nat, m as nat);
                }
            }
        }
    }
}

} // verus!
