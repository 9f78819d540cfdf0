//! The node arena of the quadtree: hash-consed nodes addressed by `u32`
//! indices, a free list of recovered indices, and the memo caches.

use vstd::prelude::*;
use std::collections::VecDeque;
use ahash::AHashMap;
use crate::arith::pow2;
use crate::hashlife::maps::{arena_map, count_map, pair_map, slow_map, slow_key_node, marked, arena_with_capacity, arena_get, arena_insert, arena_shrink, pair_new, pair_get, pair_insert, pair_retain_marked, pair_shrink, count_new, count_get, count_insert, count_retain_marked, count_shrink, slow_new, slow_get, slow_insert, slow_remove, slow_len, slow_clear, slow_keys, slow_retain_marked, slow_shrink};
use crate::hashlife::rules::{build_rule_table, is_rule_table};

verus! {

/// FALSE_NODE: the all-dead block of any size.
pub const FALSE_NODE: u32 = 0;

/// TRUE_NODE: the all-alive block of any size.
pub const TRUE_NODE: u32 = 1;

/// Masks of the four 2x2 quadrants of a 4x4 word.
pub const MASK_NW: u16 = 0xCC00;
pub const MASK_NE: u16 = 0x3300;
pub const MASK_SW: u16 = 0x00CC;
pub const MASK_SE: u16 = 0x0033;

/// A quadtree node: four children and whether it is known to be empty.
#[derive(Clone, Copy)]
pub struct LifeNode {
    pub north_west: u32,
    pub north_east: u32,
    pub south_west: u32,
    pub south_east: u32,
    pub is_empty: bool,
}

/// The zeroed node: all children FALSE, marked empty.
pub open spec fn spec_empty_node() -> LifeNode {
    LifeNode { north_west: 0, north_east: 0, south_west: 0, south_east: 0, is_empty: true }
}

/// The zeroed node (fills free slots).
pub fn empty_node() -> (n: LifeNode)
    ensures
        n == spec_empty_node(),
{
    LifeNode { north_west: 0, north_east: 0, south_west: 0, south_east: 0, is_empty: true }
}

/// Child `q` (0 NW, 1 NE, 2 SW, 3 SE) of a node value.
pub open spec fn node_child(n: LifeNode, q: int) -> u32 {
    if q == 0 {
        n.north_west
    } else if q == 1 {
        n.north_east
    } else if q == 2 {
        n.south_west
    } else {
        n.south_east
    }
}

/// The node stored at `idx` (the zeroed node past the end).
pub open spec fn node_at(nodes: Seq<LifeNode>, idx: u32) -> LifeNode {
    if (idx as int) < nodes.len() {
        nodes[idx as int]
    } else {
        spec_empty_node()
    }
}

/// Child `q` of node `idx`.
pub open spec fn child_of(nodes: Seq<LifeNode>, idx: u32, q: int) -> u32 {
    node_child(node_at(nodes, idx), q)
}

/// The quadrant (0 NW, 1 NE, 2 SW, 3 SE) of `(x, y)` in a block of half-size `h`.
pub open spec fn quadrant(x: int, y: int, h: int) -> int {
    (if y >= h { 2int } else { 0int }) + (if x >= h { 1int } else { 0int })
}

/// Whether cell `(x, y)` (both in `0 .. 2^level`) of node `idx`, read as a block
/// of side `2^level`, is alive. FALSE and TRUE are uniform blocks of any size;
/// any other node at level 0 is a live cell.
pub open spec fn alive_at(nodes: Seq<LifeNode>, idx: u32, level: nat, x: int, y: int) -> bool
    decreases level,
{
    if idx == FALSE_NODE {
        false
    } else if idx == TRUE_NODE {
        true
    } else if level == 0 {
        true
    } else {
        let h = pow2((level - 1) as nat) as int;
        alive_at(
            nodes,
            child_of(nodes, idx, quadrant(x, y, h)),
            (level - 1) as nat,
            if x >= h { x - h } else { x },
            if y >= h { y - h } else { y },
        )
    }
}

/// The number of live cells of node `idx` read at `level`.
pub open spec fn spec_count(nodes: Seq<LifeNode>, idx: u32, level: nat) -> nat
    decreases level,
{
    if idx == FALSE_NODE {
        0
    } else if idx == TRUE_NODE {
        pow2(2 * level)
    } else if level == 0 {
        1
    } else {
        spec_count(nodes, child_of(nodes, idx, 0), (level - 1) as nat) + spec_count(
            nodes,
            child_of(nodes, idx, 1),
            (level - 1) as nat,
        ) + spec_count(nodes, child_of(nodes, idx, 2), (level - 1) as nat) + spec_count(
            nodes,
            child_of(nodes, idx, 3),
            (level - 1) as nat,
        )
    }
}

/// Node `idx` has children `(nw, ne, sw, se)`: literally, or as the collapsed
/// uniform sentinel.
pub open spec fn node_is(nodes: Seq<LifeNode>, idx: u32, nw: u32, ne: u32, sw: u32, se: u32) -> bool {
    ||| (idx == FALSE_NODE && nw == FALSE_NODE && ne == FALSE_NODE && sw == FALSE_NODE && se == FALSE_NODE)
    ||| (idx == TRUE_NODE && nw == TRUE_NODE && ne == TRUE_NODE && sw == TRUE_NODE && se == TRUE_NODE)
    ||| (idx >= 2 && child_of(nodes, idx, 0) == nw && child_of(nodes, idx, 1) == ne && child_of(nodes, idx, 2)
        == sw && child_of(nodes, idx, 3) == se)
}

/// The indices waiting in the reuse queue, front buffer first.
pub open spec fn queued(bufs: Seq<Vec<u32>>) -> Seq<u32>
    decreases bufs.len(),
{
    if bufs.len() == 0 {
        Seq::empty()
    } else {
        bufs[0]@ + queued(bufs.subrange(1, bufs.len() as int))
    }
}

pub proof fn lemma_queued_push(bufs: Seq<Vec<u32>>, b: Vec<u32>)
    ensures
        queued(bufs.push(b)) == queued(bufs) + b@,
    decreases bufs.len(),
{
    if bufs.len() == 0 {
        let tail = bufs.push(b).subrange(1, 1);
        assert(tail.len() == 0);
        assert(queued(tail) == Seq::<u32>::empty());
        assert(bufs.push(b)[0] == b);
        assert(queued(bufs.push(b)) == b@ + queued(tail));
        assert(queued(bufs) == Seq::<u32>::empty());
        assert(queued(bufs.push(b)) =~= queued(bufs) + b@);
    } else {
        let rest = bufs.subrange(1, bufs.len() as int);
        lemma_queued_push(rest, b);
        assert(bufs.push(b).subrange(1, bufs.len() as int + 1) =~= rest.push(b));
        assert(queued(bufs.push(b)) =~= bufs[0]@ + (queued(rest) + b@));
    }
}

/// Free-list state: hand out fresh indices, or recovered ones first.
pub enum AllocState {
    Index,
    Reuse,
}

/// The HashLife arena and canonicalization cache.
pub struct HashLifeCache {
    /// Canonicalization map: children -> node index.
    pub arena: AHashMap<[u32; 4], u32>,
    /// Node storage, indexed by node index.
    pub nodes: Vec<LifeNode>,
    /// One byte per index: 1 when the index is currently allocated.
    pub issued: Vec<u8>,
    /// `(node, level) -> node` results of the multi-generation advance.
    pub fast_cache: AHashMap<(u32, u32), u32>,
    /// `(node, depth) -> population`.
    pub count_cache: AHashMap<(u32, u32), usize>,
    /// The recovered buffer being handed out.
    pub freed: Vec<u32>,
    /// Recovered buffers waiting to be handed out.
    pub reuse: VecDeque<Vec<u32>>,
    /// The next fresh index (the length of `nodes`).
    pub next_idx: u32,
    /// Free-list state.
    pub alloc: AllocState,
    /// The B3/S23 rule table over 4x4 blocks.
    pub rules: Vec<u16>,
    /// Set once the 32-bit index space has run out; from then on new nodes
    /// cannot be made and the results that need them are not meaningful.
    pub exhausted: bool,
}

impl HashLifeCache {
    /// Index `idx` names an allocated node.
    pub open spec fn valid(&self, idx: u32) -> bool {
        (idx as int) < self.nodes.len() && self.issued[idx as int] == 1
    }

    /// The pending (recovered, not yet reissued) indices.
    pub open spec fn pending(&self) -> Seq<u32> {
        self.freed@ + queued(self.reuse@)
    }

    /// Where in `pending()` the next recovered index is taken from: the end
    /// of `freed`, or else the end of the first queued buffer.
    pub open spec fn take_pos(&self) -> int {
        if self.freed@.len() > 0 {
            self.freed@.len() - 1
        } else {
            self.reuse@[0]@.len() - 1
        }
    }

    pub open spec fn wf(&self) -> bool {
        &&& self.nodes.len() == self.issued.len()
        &&& 2 <= self.nodes.len() <= u32::MAX
        &&& self.exhausted ==> self.nodes.len() == u32::MAX
        &&& self.next_idx as int == self.nodes.len()
        &&& self.nodes[0] == spec_empty_node()
        &&& self.nodes[1] == (LifeNode { north_west: 1, north_east: 1, south_west: 1, south_east: 1, is_empty: false })
        &&& self.issued[0] == 1 && self.issued[1] == 1
        &&& forall|i: int| 0 <= i < self.nodes.len() ==> #[trigger] self.issued[i] <= 1
        &&& forall|i: int|
            2 <= i < self.nodes.len() && #[trigger] self.issued[i] == 1 ==> {
                &&& self.valid(self.nodes[i].north_west)
                &&& self.valid(self.nodes[i].north_east)
                &&& self.valid(self.nodes[i].south_west)
                &&& self.valid(self.nodes[i].south_east)
                &&& !self.nodes[i].is_empty
            }
        &&& forall|i: int| 0 <= i < self.nodes.len() && #[trigger] self.issued[i] == 0 ==> self.nodes[i] == spec_empty_node()
        &&& forall|k: [u32; 4]|
            #[trigger] arena_map(self.arena).dom().contains(k) ==> {
                let v = arena_map(self.arena)[k];
                &&& self.valid(v)
                &&& node_is(self.nodes@, v, k[0], k[1], k[2], k[3])
            }
        &&& arena_map(self.arena).dom().contains([0u32, 0, 0, 0]) && arena_map(self.arena)[[0u32, 0, 0, 0]] == 0
        &&& arena_map(self.arena).dom().contains([1u32, 1, 1, 1]) && arena_map(self.arena)[[1u32, 1, 1, 1]] == 1
        &&& self.pending().no_duplicates()
        &&& forall|j: int|
            0 <= j < self.pending().len() ==> (#[trigger] self.pending()[j] as int) < self.nodes.len()
                && self.issued[self.pending()[j] as int] == 0
        &&& (self.alloc matches AllocState::Index ==> self.freed@.len() == 0 && self.reuse@.len() == 0)
        &&& forall|j: int| 0 <= j < self.reuse@.len() ==> (#[trigger] self.reuse@[j])@.len() > 0
        &&& is_rule_table(self.rules@)
        &&& forall|k: (u32, u32)|
            #[trigger] count_map(self.count_cache).dom().contains(k) ==> self.valid(k.0) && count_map(
                self.count_cache,
            )[k] as nat == spec_count(self.nodes@, k.0, k.1 as nat)
    }

    /// `c2` keeps every node allocated in `self` unchanged (and possibly more).
    pub open spec fn extended_by(&self, c2: &HashLifeCache) -> bool {
        &&& self.nodes.len() <= c2.nodes.len()
        &&& forall|i: int|
            0 <= i < self.nodes.len() && #[trigger] self.issued[i] == 1 ==> c2.issued[i] == 1 && c2.nodes[i]
                == self.nodes[i]
        &&& (self.exhausted ==> c2.exhausted)
        &&& c2.rules@ == self.rules@
    }

    /// An empty cache: the two sentinels, no memo entries, the rule table.
    pub fn new() -> (c: Self)
        ensures
            c.wf(),
            !c.exhausted,
            c.nodes.len() == 2,
            pair_map(c.fast_cache).dom().is_empty(),
            count_map(c.count_cache).dom().is_empty(),
    {
        let mut arena = arena_with_capacity(65536);
        let nodes = vec![
            empty_node(),
            LifeNode { north_west: 1, north_east: 1, south_west: 1, south_east: 1, is_empty: false },
        ];
        let issued = vec![1u8, 1u8];
        arena_insert(&mut arena, [0, 0, 0, 0], 0);
        arena_insert(&mut arena, [1, 1, 1, 1], 1);
        let c = HashLifeCache {
            arena,
            nodes,
            issued,
            fast_cache: pair_new(),
            count_cache: count_new(),
            freed: Vec::new(),
            reuse: VecDeque::new(),
            next_idx: 2,
            alloc: AllocState::Index,
            rules: build_rule_table(),
            exhausted: false,
        };
        proof {
            assert(c.pending() =~= Seq::<u32>::empty());
            assert forall|k: [u32; 4]| #[trigger] arena_map(c.arena).dom().contains(k) implies {
                let v = arena_map(c.arena)[k];
                &&& c.valid(v)
                &&& node_is(c.nodes@, v, k[0], k[1], k[2], k[3])
            } by {
                if k == [0u32, 0, 0, 0] {
                } else {
                    assert(k == [1u32, 1, 1, 1]);
                }
            }
        }
        c
    }

    /// The node stored at `idx` (the zeroed node past the end).
    pub fn get_node(&self, idx: u32) -> (n: LifeNode)
        ensures
            n == node_at(self.nodes@, idx),
    {
        if (idx as usize) < self.nodes.len() {
            self.nodes[idx as usize]
        } else {
            empty_node()
        }
    }

    /// The north-west child of `idx`.
    pub fn nw(&self, idx: u32) -> (r: u32)
        ensures
            r == child_of(self.nodes@, idx, 0),
    {
        self.get_node(idx).north_west
    }

    /// The north-east child of `idx`.
    pub fn ne(&self, idx: u32) -> (r: u32)
        ensures
            r == child_of(self.nodes@, idx, 1),
    {
        self.get_node(idx).north_east
    }

    /// The south-west child of `idx`.
    pub fn sw(&self, idx: u32) -> (r: u32)
        ensures
            r == child_of(self.nodes@, idx, 2),
    {
        self.get_node(idx).south_west
    }

    /// The south-east child of `idx`.
    pub fn se(&self, idx: u32) -> (r: u32)
        ensures
            r == child_of(self.nodes@, idx, 3),
    {
        self.get_node(idx).south_east
    }

    /// The stored emptiness flag of `idx` (true past the end).
    pub fn is_empty_check(&self, idx: u32) -> (r: bool)
        ensures
            r == node_at(self.nodes@, idx).is_empty,
    {
        self.get_node(idx).is_empty
    }

    fn child_empty(&self, i: u32) -> (r: bool)
        requires
            self.wf(),
            self.valid(i),
        ensures
            r == (i == FALSE_NODE),
    {
        if i == FALSE_NODE {
            true
        } else if (i as usize) < self.nodes.len() {
            self.nodes[i as usize].is_empty
        } else {
            true
        }
    }

    /// Takes the index for a new node: the recovered index at `take_pos` when
    /// one is pending, else the next fresh index (`None` once the 32-bit
    /// index space is used up). Only the allocation state changes.
    fn take_index(&mut self) -> (r: Option<u32>)
        requires
            old(self).wf(),
        ensures
            final(self).nodes == old(self).nodes,
            final(self).issued == old(self).issued,
            final(self).arena == old(self).arena,
            final(self).fast_cache == old(self).fast_cache,
            final(self).count_cache == old(self).count_cache,
            final(self).rules == old(self).rules,
            final(self).exhausted == old(self).exhausted,
            forall|j: int| 0 <= j < final(self).reuse@.len() ==> (#[trigger] final(self).reuse@[j])@.len() > 0,
            final(self).alloc matches AllocState::Index ==> final(self).freed@.len() == 0 && final(self).reuse@.len() == 0,
            old(self).pending().len() > 0 ==> {
                &&& 0 <= old(self).take_pos() < old(self).pending().len()
                &&& r == Some(old(self).pending()[old(self).take_pos()])
                &&& final(self).pending() == old(self).pending().remove(old(self).take_pos())
                &&& final(self).next_idx == old(self).next_idx
            },
            old(self).pending().len() == 0 ==> {
                &&& final(self).pending().len() == 0
                &&& (old(self).next_idx == u32::MAX ==> r is None && final(self).next_idx == old(self).next_idx)
                &&& (old(self).next_idx < u32::MAX ==> r == Some(old(self).next_idx) && final(self).next_idx == old(
                    self,
                ).next_idx + 1)
            },
    {
        let ghost old_pending = self.pending();
        match self.alloc {
            AllocState::Index => {
                proof {
                    assert(queued(old(self).reuse@) =~= Seq::<u32>::empty());
                    assert(old_pending.len() == 0);
                }
                if self.next_idx == u32::MAX {
                    return None;
                }
                let i = self.next_idx;
                self.next_idx = self.next_idx + 1;
                Some(i)
            },
            AllocState::Reuse => match self.freed.pop() {
                Some(i) => {
                    proof {
                        assert(old_pending == old(self).freed@ + queued(old(self).reuse@));
                        assert(old(self).freed@ =~= self.freed@.push(i));
                        assert(old_pending[self.freed@.len() as int] == i);
                        assert(self.pending() =~= old_pending.remove(self.freed@.len() as int));
                    }
                    Some(i)
                },
                None => match self.reuse.pop_front() {
                    Some(b) => {
                        proof {
                            assert(old(self).reuse@.len() > 0);
                            assert(old(self).reuse@[0] == b);
                            assert(queued(old(self).reuse@) == b@ + queued(self.reuse@));
                            assert(b@.len() > 0);
                            assert(forall|j: int| 0 <= j < self.reuse@.len() ==> self.reuse@[j] == old(self).reuse@[j + 1]);
                        }
                        self.freed = b;
                        let i = match self.freed.pop() {
                            Some(i) => i,
                            None => {
                                proof {
                                    assert(false);
                                }
                                0
                            },
                        };
                        proof {
                            assert(old_pending =~= b@ + queued(self.reuse@));
                            assert(b@ =~= self.freed@.push(i));
                            assert(old_pending[self.freed@.len() as int] == i);
                            assert(self.pending() =~= old_pending.remove(self.freed@.len() as int));
                        }
                        Some(i)
                    },
                    None => {
                        proof {
                            assert(queued(old(self).reuse@) =~= Seq::<u32>::empty());
                        }
                        self.alloc = AllocState::Index;
                        if self.next_idx == u32::MAX {
                            return None;
                        }
                        let i = self.next_idx;
                        self.next_idx = self.next_idx + 1;
                        Some(i)
                    },
                },
            },
        }
    }

    /// The canonical node with children `(nw, ne, sw, se)`: a uniform sentinel,
    /// the node already made with these children, or a new one (taking a
    /// recovered index before a fresh one).
    #[verifier::rlimit(100)]
    #[verifier::spinoff_prover]
    pub fn find_or_create(&mut self, nw: u32, ne: u32, sw: u32, se: u32) -> (r: u32)
        requires
            old(self).wf(),
            old(self).valid(nw),
            old(self).valid(ne),
            old(self).valid(sw),
            old(self).valid(se),
        ensures
            final(self).wf(),
            final(self).valid(r),
            old(self).extended_by(&*final(self)),
            final(self).exhausted || node_is(final(self).nodes@, r, nw, ne, sw, se),
            (nw == FALSE_NODE && ne == FALSE_NODE && sw == FALSE_NODE && se == FALSE_NODE) ==> r == FALSE_NODE
                && *final(self) == *old(self),
            (nw == TRUE_NODE && ne == TRUE_NODE && sw == TRUE_NODE && se == TRUE_NODE) ==> r == TRUE_NODE
                && *final(self) == *old(self),
            final(self).fast_cache == old(self).fast_cache,
            pair_map(final(self).fast_cache) == pair_map(old(self).fast_cache),
            count_map(final(self).count_cache) == count_map(old(self).count_cache),
            r == TRUE_NODE ==> nw == TRUE_NODE && ne == TRUE_NODE && sw == TRUE_NODE && se == TRUE_NODE,
            final(self).exhausted && !old(self).exhausted ==> r == FALSE_NODE && old(self).nodes.len() == u32::MAX
                && old(self).pending().len() == 0,
            !(nw == FALSE_NODE && ne == FALSE_NODE && sw == FALSE_NODE && se == FALSE_NODE) && !(nw == TRUE_NODE
                && ne == TRUE_NODE && sw == TRUE_NODE && se == TRUE_NODE) && arena_map(old(self).arena).dom().contains(
                [nw, ne, sw, se],
            ) ==> r == arena_map(old(self).arena)[[nw, ne, sw, se]] && *final(self) == *old(self),
            !(nw == FALSE_NODE && ne == FALSE_NODE && sw == FALSE_NODE && se == FALSE_NODE) && !(nw == TRUE_NODE
                && ne == TRUE_NODE && sw == TRUE_NODE && se == TRUE_NODE) && !arena_map(old(self).arena).dom().contains(
                [nw, ne, sw, se],
            ) && !final(self).exhausted ==> {
                &&& old(self).pending().len() > 0 ==> r == old(self).pending()[old(self).take_pos()]
                    && final(self).pending() == old(self).pending().remove(old(self).take_pos())
                    && final(self).nodes.len() == old(self).nodes.len()
                &&& old(self).pending().len() == 0 ==> r == old(self).nodes.len()
                    && final(self).nodes.len() == old(self).nodes.len() + 1 && final(self).pending().len() == 0
                &&& arena_map(final(self).arena) == arena_map(old(self).arena).insert([nw, ne, sw, se], r)
            },
    {
        if nw == FALSE_NODE && ne == FALSE_NODE && sw == FALSE_NODE && se == FALSE_NODE {
            return FALSE_NODE;
        }
        if nw == TRUE_NODE && ne == TRUE_NODE && sw == TRUE_NODE && se == TRUE_NODE {
            return TRUE_NODE;
        }
        let key = [nw, ne, sw, se];
        match arena_get(&self.arena, &key) {
            Some(idx) => {
                proof {
                    assert(arena_map(self.arena).dom().contains(key));
                    assert(node_is(self.nodes@, idx, key[0], key[1], key[2], key[3]));
                }
                return idx;
            },
            None => {},
        }
        let is_empty = self.child_empty(nw) && self.child_empty(ne) && self.child_empty(sw)
            && self.child_empty(se);
        let ghost old_pending = self.pending();
        let idx: u32 = match self.take_index() {
            Some(i) => i,
            None => {
                self.exhausted = true;
                return FALSE_NODE;
            },
        };
        let node = LifeNode {
            north_west: nw,
            north_east: ne,
            south_west: sw,
            south_east: se,
            is_empty,
        };
        let i = idx as usize;
        if i >= self.nodes.len() {
            self.nodes.push(node);
            self.issued.push(1);
        } else {
            self.issued.set(i, 1);
            self.nodes.set(i, node);
        }
        arena_insert(&mut self.arena, key, idx);
        proof {
            let c0 = *old(self);
            let c1 = *self;
            assert(c0.extended_by(&c1));
            assert forall|k: (u32, u32)| #[trigger] count_map(self.count_cache).dom().contains(k) implies self.valid(k.0)
                && count_map(self.count_cache)[k] as nat == spec_count(self.nodes@, k.0, k.1 as nat) by {
                lemma_count_frame(&c0, &c1, k.0, k.1 as nat);
            }
            assert forall|j: int| 2 <= j < self.nodes.len() && #[trigger] self.issued[j] == 1 implies {
                &&& self.valid(self.nodes[j].north_west)
                &&& self.valid(self.nodes[j].north_east)
                &&& self.valid(self.nodes[j].south_west)
                &&& self.valid(self.nodes[j].south_east)
                &&& !self.nodes[j].is_empty
            } by {
                if j != idx as int {
                    assert(c0.issued[j] == 1);
                }
            }
            let old_len = old(self).nodes.len();
            assert(idx >= 2);
            assert(old(self).issued[idx as int] == 0 || idx as int == old_len);
            assert forall|j: int| 0 <= j < self.pending().len() implies (#[trigger] self.pending()[j] as int)
                < self.nodes.len() && self.issued[self.pending()[j] as int] == 0 by {
                if old_pending.len() > 0 {
                    let p = self.pending()[j];
                    assert(old_pending.contains(p));
                    assert(p != idx) by {
                        let k = choose|k: int| 0 <= k < old_pending.len() && old_pending[k] == p;
                        assert(old_pending.no_duplicates());
                    }
                } else {
                    assert(old_pending.contains(self.pending()[j]));
                }
            }
            assert forall|k: [u32; 4]| #[trigger] arena_map(self.arena).dom().contains(k) implies {
                let v = arena_map(self.arena)[k];
                &&& self.valid(v)
                &&& node_is(self.nodes@, v, k[0], k[1], k[2], k[3])
            } by {
                if k != key {
                    let v = arena_map(old(self).arena)[k];
                    assert(old(self).valid(v));
                    assert(v != idx);
                }
            }
            if old_pending.len() > 0 {
                assert(self.pending().no_duplicates()) by {
                    assert(old_pending.no_duplicates());
                }
            }
            assert(forall|j: int| 0 <= j < self.nodes.len() ==> #[trigger] self.issued[j] <= 1);
            assert(forall|j: int| 0 <= j < self.nodes.len() && #[trigger] self.issued[j] == 0 ==> self.nodes[j] == spec_empty_node());
            assert(self.nodes[0] == spec_empty_node());
            assert(self.next_idx as int == self.nodes.len());
            assert(forall|j: int| 0 <= j < self.reuse@.len() ==> (#[trigger] self.reuse@[j])@.len() > 0);
        }
        idx
    }
}

/// Nodes that stay allocated keep what they denote.
pub proof fn lemma_alive_frame(c1: &HashLifeCache, c2: &HashLifeCache, idx: u32, level: nat, x: int, y: int)
    requires
        c1.wf(),
        c1.extended_by(c2),
        c1.valid(idx),
    ensures
        alive_at(c2.nodes@, idx, level, x, y) == alive_at(c1.nodes@, idx, level, x, y),
    decreases level,
{
    if idx >= 2 && level > 0 {
        let h = pow2((level - 1) as nat) as int;
        let q = quadrant(x, y, h);
        assert(c2.nodes@[idx as int] == c1.nodes@[idx as int]);
        let c = child_of(c1.nodes@, idx, q);
        lemma_alive_frame(c1, c2, c, (level - 1) as nat, if x >= h { x - h } else { x }, if y >= h { y - h } else { y });
    }
}

/// Nodes that stay allocated keep their population.
/// A node read at `level` holds at most `4^level` live cells.
pub proof fn lemma_count_bound(nodes: Seq<LifeNode>, idx: u32, level: nat)
    ensures
        spec_count(nodes, idx, level) <= pow2(2 * level),
    decreases level,
{
    if idx != FALSE_NODE && idx != TRUE_NODE && level > 0 {
        let l1 = (level - 1) as nat;
        lemma_count_bound(nodes, child_of(nodes, idx, 0), l1);
        lemma_count_bound(nodes, child_of(nodes, idx, 1), l1);
        lemma_count_bound(nodes, child_of(nodes, idx, 2), l1);
        lemma_count_bound(nodes, child_of(nodes, idx, 3), l1);
        crate::arith::lemma_pow2_add(2, 2 * l1);
        crate::arith::lemma_pow2_small();
        assert(2 * level == 2 + 2 * l1);
    }
}

pub proof fn lemma_count_frame(c1: &HashLifeCache, c2: &HashLifeCache, idx: u32, level: nat)
    requires
        c1.wf(),
        c1.extended_by(c2),
        c1.valid(idx),
    ensures
        spec_count(c2.nodes@, idx, level) == spec_count(c1.nodes@, idx, level),
    decreases level,
{
    if idx >= 2 && level > 0 {
        assert(c2.nodes@[idx as int] == c1.nodes@[idx as int]);
        lemma_count_frame(c1, c2, child_of(c1.nodes@, idx, 0), (level - 1) as nat);
        lemma_count_frame(c1, c2, child_of(c1.nodes@, idx, 1), (level - 1) as nat);
        lemma_count_frame(c1, c2, child_of(c1.nodes@, idx, 2), (level - 1) as nat);
        lemma_count_frame(c1, c2, child_of(c1.nodes@, idx, 3), (level - 1) as nat);
    }
}

} // verus!
