//! Garbage collection of the node arena: mark what the root and the slow
//! caches reach, free the rest into the reuse queue, prune the caches.

use vstd::prelude::*;
use ahash::AHashMap;
use crate::hashlife::cache::{HashLifeCache, LifeNode, AllocState, FALSE_NODE, TRUE_NODE, alive_at, spec_count,
    child_of, node_at, queued, lemma_queued_push, spec_empty_node, empty_node};
use crate::hashlife::maps::{arena_map, pair_map, count_map, slow_map, marked, is_marked, slow_keys,
    arena_retain_marked, arena_get, arena_insert, pair_retain_marked, count_retain_marked, slow_retain_marked};
use crate::hashlife::advance::{fast_ok, slow_ok};

verus! {

/// The number of zero bytes of `s`.
pub open spec fn zeros(s: Seq<u8>) -> nat
    decreases s.len(),
{
    if s.len() == 0 {
        0
    } else {
        zeros(s.drop_last()) + if s.last() == 0 { 1nat } else { 0nat }
    }
}

/// The number of set (nonzero) bytes of `s`.
pub open spec fn ones(s: Seq<u8>) -> nat {
    (s.len() - zeros(s)) as nat
}

proof fn lemma_zeros_le(s: Seq<u8>)
    ensures
        zeros(s) <= s.len(),
    decreases s.len(),
{
    if s.len() > 0 {
        lemma_zeros_le(s.drop_last());
    }
}

proof fn lemma_zeros_mark(s: Seq<u8>, i: int)
    requires
        0 <= i < s.len(),
        s[i] == 0,
    ensures
        zeros(s.update(i, 1)) + 1 == zeros(s),
    decreases s.len(),
{
    let t = s.update(i, 1);
    if i == s.len() - 1 {
        assert(t.drop_last() =~= s.drop_last());
    } else {
        assert(t.drop_last() =~= s.drop_last().update(i, 1));
        lemma_zeros_mark(s.drop_last(), i);
    }
}

/// Child `q` (0..4: north-west, north-east, south-west, south-east) of node `n`.
pub open spec fn kid(n: LifeNode, q: int) -> u32 {
    if q == 0 {
        n.north_west
    } else if q == 1 {
        n.north_east
    } else if q == 2 {
        n.south_west
    } else {
        n.south_east
    }
}

/// Node `to` is `from`, or lies below it within `fuel` steps from a node to
/// one of its children (the empty node has none).
pub open spec fn reach(nodes: Seq<LifeNode>, from: u32, to: u32, fuel: nat) -> bool
    decreases fuel,
{
    from == to || (fuel > 0 && (from as int) < nodes.len() && !nodes[from as int].is_empty && (reach(
        nodes,
        kid(nodes[from as int], 0),
        to,
        (fuel - 1) as nat,
    ) || reach(nodes, kid(nodes[from as int], 1), to, (fuel - 1) as nat) || reach(
        nodes,
        kid(nodes[from as int], 2),
        to,
        (fuel - 1) as nat,
    ) || reach(nodes, kid(nodes[from as int], 3), to, (fuel - 1) as nat)))
}

/// Node `to` can be reached from node `from` by going down to children.
pub open spec fn reachable(nodes: Seq<LifeNode>, from: u32, to: u32) -> bool {
    exists|fuel: nat| #[trigger] reach(nodes, from, to, fuel)
}

/// A child of a reachable node is reachable.
proof fn lemma_reach_kid(nodes: Seq<LifeNode>, from: u32, p: u32, fuel: nat, q: int)
    requires
        reach(nodes, from, p, fuel),
        (p as int) < nodes.len(),
        !nodes[p as int].is_empty,
        0 <= q < 4,
    ensures
        reach(nodes, from, kid(nodes[p as int], q), fuel + 1),
    decreases fuel,
{
    let k = kid(nodes[p as int], q);
    if from == p {
        assert(reach(nodes, k, k, fuel));
        assert(reach(nodes, kid(nodes[from as int], q), k, fuel));
    } else {
        let n = nodes[from as int];
        if reach(nodes, kid(n, 0), p, (fuel - 1) as nat) {
            lemma_reach_kid(nodes, kid(n, 0), p, (fuel - 1) as nat, q);
        } else if reach(nodes, kid(n, 1), p, (fuel - 1) as nat) {
            lemma_reach_kid(nodes, kid(n, 1), p, (fuel - 1) as nat, q);
        } else if reach(nodes, kid(n, 2), p, (fuel - 1) as nat) {
            lemma_reach_kid(nodes, kid(n, 2), p, (fuel - 1) as nat, q);
        } else {
            lemma_reach_kid(nodes, kid(n, 3), p, (fuel - 1) as nat, q);
        }
    }
}

/// What a closed set of marks holds, it holds with everything below.
proof fn lemma_reach_marked(c: &HashLifeCache, live: Seq<u8>, from: u32, to: u32, fuel: nat)
    requires
        marks_closed(c, live),
        marked(live, from),
        reach(c.nodes@, from, to, fuel),
    ensures
        marked(live, to),
    decreases fuel,
{
    if from != to {
        let n = c.nodes@[from as int];
        assert(c.nodes[from as int] == n);
        if reach(c.nodes@, kid(n, 0), to, (fuel - 1) as nat) {
            lemma_reach_marked(c, live, kid(n, 0), to, (fuel - 1) as nat);
        } else if reach(c.nodes@, kid(n, 1), to, (fuel - 1) as nat) {
            lemma_reach_marked(c, live, kid(n, 1), to, (fuel - 1) as nat);
        } else if reach(c.nodes@, kid(n, 2), to, (fuel - 1) as nat) {
            lemma_reach_marked(c, live, kid(n, 2), to, (fuel - 1) as nat);
        } else {
            lemma_reach_marked(c, live, kid(n, 3), to, (fuel - 1) as nat);
        }
    }
}

/// Every marked node is allocated and its children are marked.
pub open spec fn marks_closed(c: &HashLifeCache, live: Seq<u8>) -> bool {
    &&& live.len() == c.nodes.len()
    &&& forall|i: int| 0 <= i < live.len() && #[trigger] live[i] != 0 ==> c.issued[i] == 1
    &&& forall|i: int|
        0 <= i < live.len() && live[i] != 0 ==> {
            &&& marked(live, (#[trigger] c.nodes[i]).north_west)
            &&& marked(live, c.nodes[i].north_east)
            &&& marked(live, c.nodes[i].south_west)
            &&& marked(live, c.nodes[i].south_east)
        }
}

/// Child `v` of a marked node is marked or still waiting on the stack.
pub open spec fn reached(live: Seq<u8>, stack: Seq<u32>, v: u32) -> bool {
    marked(live, v) || stack.contains(v)
}

proof fn lemma_pop_reached(live: Seq<u8>, stack: Seq<u32>, idx: u32, v: u32)
    requires
        stack.len() > 0,
        stack.last() == idx,
        reached(live, stack, v),
        marked(live, idx),
    ensures
        reached(live, stack.drop_last(), v),
{
    if !marked(live, v) {
        let k = choose|k: int| 0 <= k < stack.len() && stack[k] == v;
        if k < stack.len() - 1 {
            assert(stack.drop_last()[k] == v);
        }
    }
}

proof fn lemma_push_reached(live: Seq<u8>, stack: Seq<u32>, x: u32, v: u32)
    requires
        reached(live, stack, v),
    ensures
        reached(live, stack.push(x), v),
        reached(live, stack.push(x), x),
{
    if !marked(live, v) {
        let k = choose|k: int| 0 <= k < stack.len() && stack[k] == v;
        assert(stack.push(x)[k] == v);
    }
    assert(stack.push(x)[stack.len() as int] == x);
}

/// The four children of marked node `i` are marked or waiting on the stack.
pub open spec fn kids_reached(c: &HashLifeCache, live: Seq<u8>, stack: Seq<u32>, i: int) -> bool {
    &&& reached(live, stack, c.nodes[i].north_west)
    &&& reached(live, stack, c.nodes[i].north_east)
    &&& reached(live, stack, c.nodes[i].south_west)
    &&& reached(live, stack, c.nodes[i].south_east)
}

/// The state of a walk from `root` that started from the marks `live0`.
pub open spec fn walk_inv(c: &HashLifeCache, live: Seq<u8>, stack: Seq<u32>, root: u32, live0: Seq<u8>) -> bool {
    &&& c.wf()
    &&& live.len() == c.nodes.len()
    &&& live0.len() == live.len()
    &&& forall|i: int| 0 <= i < live.len() && #[trigger] live[i] != 0 ==> c.issued[i] == 1
    &&& forall|i: int| 0 <= i < live.len() && live[i] != 0 ==> #[trigger] kids_reached(c, live, stack, i)
    &&& forall|k: int| 0 <= k < stack.len() ==> c.valid(#[trigger] stack[k])
    &&& reached(live, stack, root)
    &&& forall|i: int| 0 <= i < live0.len() && #[trigger] live0[i] != 0 ==> live[i] != 0
    &&& forall|i: int| 0 <= i < live.len() && #[trigger] live[i] != 0 ==> live0[i] != 0 || reachable(c.nodes@, root, i as u32)
    &&& forall|k: int| 0 <= k < stack.len() ==> reachable(c.nodes@, root, #[trigger] stack[k])
}

proof fn lemma_kids_pop(c: &HashLifeCache, live: Seq<u8>, stack: Seq<u32>, idx: u32, i: int)
    requires
        stack.len() > 0,
        stack.last() == idx,
        kids_reached(c, live, stack, i),
        marked(live, idx),
    ensures
        kids_reached(c, live, stack.drop_last(), i),
{
    lemma_pop_reached(live, stack, idx, c.nodes[i].north_west);
    lemma_pop_reached(live, stack, idx, c.nodes[i].north_east);
    lemma_pop_reached(live, stack, idx, c.nodes[i].south_west);
    lemma_pop_reached(live, stack, idx, c.nodes[i].south_east);
}

proof fn lemma_kids_push(c: &HashLifeCache, live: Seq<u8>, stack: Seq<u32>, x: u32, i: int)
    requires
        kids_reached(c, live, stack, i),
    ensures
        kids_reached(c, live, stack.push(x), i),
{
    lemma_push_reached(live, stack, x, c.nodes[i].north_west);
    lemma_push_reached(live, stack, x, c.nodes[i].north_east);
    lemma_push_reached(live, stack, x, c.nodes[i].south_west);
    lemma_push_reached(live, stack, x, c.nodes[i].south_east);
}

impl HashLifeCache {
    /// One step of the walk: pop a node; if it is new, mark it and push its
    /// children.
    fn walk_step(&self, live: &mut Vec<u8>, stack: &mut Vec<u32>, Ghost(root): Ghost<u32>, Ghost(live0): Ghost<Seq<u8>>)
        requires
            walk_inv(self, old(live)@, old(stack)@, root, live0),
            old(stack)@.len() > 0,
        ensures
            walk_inv(self, final(live)@, final(stack)@, root, live0),
            5 * zeros(final(live)@) + final(stack)@.len() < 5 * zeros(old(live)@) + old(stack)@.len(),
    {
        let ghost s0 = stack@;
        let ghost l0 = live@;
        let idx = stack.pop().unwrap();
        proof {
            assert(stack@ == s0.drop_last());
            assert(self.valid(s0[s0.len() - 1]));
            assert(reachable(self.nodes@, root, s0[s0.len() - 1]));
            assert forall|k: int| 0 <= k < stack@.len() implies reachable(self.nodes@, root, #[trigger] stack@[k]) by {
                assert(stack@[k] == s0[k]);
            }
        }
        if live[idx as usize] != 0 {
            proof {
                assert forall|i: int| 0 <= i < live@.len() && live@[i] != 0 implies #[trigger] kids_reached(
                    self,
                    live@,
                    stack@,
                    i,
                ) by {
                    lemma_kids_pop(self, l0, s0, idx, i);
                }
                lemma_pop_reached(l0, s0, idx, root);
            }
            return;
        }
        proof {
            lemma_zeros_mark(live@, idx as int);
        }
        live.set(idx as usize, 1);
        let ghost l1 = live@;
        proof {
            assert forall|i: int| 0 <= i < live0.len() && #[trigger] live0[i] != 0 implies l1[i] != 0 by {
                assert(l0[i] != 0);
            }
            assert forall|i: int| 0 <= i < l1.len() && #[trigger] l1[i] != 0 implies live0[i] != 0 || reachable(
                self.nodes@,
                root,
                i as u32,
            ) by {
                if i != idx as int {
                    assert(l0[i] != 0);
                }
            }
            assert forall|v: u32| reached(l0, s0, v) implies reached(l1, s0, v) by {}
            assert forall|i: int| 0 <= i < l1.len() && l1[i] != 0 && i != idx implies #[trigger] kids_reached(
                self,
                l1,
                stack@,
                i,
            ) by {
                assert(l0[i] != 0);
                assert(kids_reached(self, l0, s0, i));
                assert(kids_reached(self, l1, s0, i));
                lemma_kids_pop(self, l1, s0, idx, i);
            }
            lemma_pop_reached(l1, s0, idx, root);
        }
        let node = self.nodes[idx as usize];
        if node.is_empty {
            proof {
                assert(idx == 0);
                assert(node == spec_empty_node());
                assert(kids_reached(self, l1, stack@, idx as int));
            }
            return;
        }
        proof {
            crate::hashlife::advance::lemma_children_valid(self, idx);
            let f = choose|f: nat| #[trigger] reach(self.nodes@, root, idx, f);
            assert(self.nodes@[idx as int] == node);
            lemma_reach_kid(self.nodes@, root, idx, f, 0);
            lemma_reach_kid(self.nodes@, root, idx, f, 1);
            lemma_reach_kid(self.nodes@, root, idx, f, 2);
            lemma_reach_kid(self.nodes@, root, idx, f, 3);
            assert(reachable(self.nodes@, root, node.north_west));
            assert(reachable(self.nodes@, root, node.north_east));
            assert(reachable(self.nodes@, root, node.south_west));
            assert(reachable(self.nodes@, root, node.south_east));
        }
        let ghost t0 = stack@;
        stack.push(node.north_west);
        stack.push(node.north_east);
        stack.push(node.south_west);
        stack.push(node.south_east);
        proof {
            let t1 = t0.push(node.north_west);
            let t2 = t1.push(node.north_east);
            let t3 = t2.push(node.south_west);
            let t4 = t3.push(node.south_east);
            assert(stack@ == t4);
            assert forall|i: int| 0 <= i < l1.len() && l1[i] != 0 && i != idx implies #[trigger] kids_reached(
                self,
                l1,
                t4,
                i,
            ) by {
                lemma_kids_push(self, l1, t0, node.north_west, i);
                lemma_kids_push(self, l1, t1, node.north_east, i);
                lemma_kids_push(self, l1, t2, node.south_west, i);
                lemma_kids_push(self, l1, t3, node.south_east, i);
            }
            assert(t4[t0.len() as int] == node.north_west);
            assert(t4[t0.len() as int + 1] == node.north_east);
            assert(t4[t0.len() as int + 2] == node.south_west);
            assert(t4[t0.len() as int + 3] == node.south_east);
            assert(self.nodes[idx as int] == node);
            assert(kids_reached(self, l1, t4, idx as int));
            lemma_push_reached(l1, t0, node.north_west, root);
            lemma_push_reached(l1, t1, node.north_east, root);
            lemma_push_reached(l1, t2, node.south_west, root);
            lemma_push_reached(l1, t3, node.south_east, root);
            assert forall|k: int| 0 <= k < t4.len() implies self.valid(#[trigger] t4[k]) by {
                if k < t0.len() {
                    assert(t4[k] == t0[k]);
                }
            }
            assert forall|k: int| 0 <= k < t4.len() implies reachable(self.nodes@, root, #[trigger] t4[k]) by {
                if k < t0.len() {
                    assert(t4[k] == t0[k]);
                }
            }
        }
    }

    /// Marks in `live` (one byte per node index) every node reachable from
    /// `root`, stopping at nodes already marked.
    pub fn walk_tree(&self, root: u32, live: &mut Vec<u8>)
        requires
            self.wf(),
            self.valid(root),
            marks_closed(self, old(live)@),
        ensures
            marks_closed(self, final(live)@),
            marked(final(live)@, root),
            forall|i: int| 0 <= i < old(live)@.len() && #[trigger] old(live)@[i] != 0 ==> final(live)@[i] != 0,
            forall|i: int|
                0 <= i < final(live)@.len() && #[trigger] final(live)@[i] != 0 ==> old(live)@[i] != 0 || reachable(
                    self.nodes@,
                    root,
                    i as u32,
                ),
    {
        let ghost live0 = live@;
        let mut stack: Vec<u32> = Vec::new();
        stack.push(root);
        proof {
            assert(stack@[0] == root);
            assert(reach(self.nodes@, root, root, 0));
            assert forall|i: int| 0 <= i < live@.len() && live@[i] != 0 implies #[trigger] kids_reached(
                self,
                live@,
                stack@,
                i,
            ) by {}
        }
        while stack.len() > 0
            invariant
                walk_inv(self, live@, stack@, root, live0),
            decreases 5 * zeros(live@) + stack@.len(),
        {
            self.walk_step(live, &mut stack, Ghost(root), Ghost(live0));
        }
        proof {
            assert forall|i: int| 0 <= i < live@.len() && #[trigger] live@[i] != 0 implies {
                &&& marked(live@, self.nodes[i].north_west)
                &&& marked(live@, self.nodes[i].north_east)
                &&& marked(live@, self.nodes[i].south_west)
                &&& marked(live@, self.nodes[i].south_east)
            } by {
                assert(kids_reached(self, live@, stack@, i));
            }
        }
    }
}

/// The same bytes of `a` and `b` are zero.
proof fn lemma_same_zeros(a: Seq<u8>, b: Seq<u8>)
    requires
        a.len() == b.len(),
        forall|i: int| 0 <= i < a.len() ==> (a[i] == 0) == (b[i] == 0),
    ensures
        zeros(a) == zeros(b),
    decreases a.len(),
{
    if a.len() > 0 {
        lemma_same_zeros(a.drop_last(), b.drop_last());
    }
}

/// Slot `j` after the sweep: cleared if it was allocated and unmarked, else unchanged.
pub open spec fn swept_at(c0: &HashLifeCache, c: &HashLifeCache, live: Seq<u8>, j: int) -> bool {
    if c0.issued[j] == 1 && live[j] == 0 {
        c.issued[j] == 0 && c.nodes[j] == spec_empty_node()
    } else {
        c.issued[j] == c0.issued[j] && c.nodes[j] == c0.nodes[j]
    }
}

/// Slot `j` is untouched.
pub open spec fn same_at(c0: &HashLifeCache, c: &HashLifeCache, j: int) -> bool {
    c.issued[j] == c0.issued[j] && c.nodes[j] == c0.nodes[j]
}

/// The marks of `c1` kept in `c2`: same length, and every marked node is
/// unchanged.
pub open spec fn kept(c1: &HashLifeCache, c2: &HashLifeCache, live: Seq<u8>) -> bool {
    &&& c2.nodes.len() == c1.nodes.len()
    &&& forall|i: int|
        0 <= i < c1.nodes.len() && live[i] != 0 ==> #[trigger] c2.nodes[i] == c1.nodes[i] && c2.issued[i]
            == c1.issued[i]
}

/// A marked node denotes the same block in a cache that kept the marks.
pub proof fn lemma_alive_kept(c1: &HashLifeCache, c2: &HashLifeCache, live: Seq<u8>, idx: u32, level: nat, x: int, y: int)
    requires
        marks_closed(c1, live),
        kept(c1, c2, live),
        marked(live, idx),
    ensures
        alive_at(c2.nodes@, idx, level, x, y) == alive_at(c1.nodes@, idx, level, x, y),
    decreases level,
{
    if idx >= 2 && level > 0 {
        let h = crate::arith::pow2((level - 1) as nat) as int;
        let q = crate::hashlife::cache::quadrant(x, y, h);
        assert(c2.nodes@[idx as int] == c1.nodes@[idx as int]);
        assert(live[idx as int] != 0);
        let ch = child_of(c1.nodes@, idx, q);
        lemma_alive_kept(c1, c2, live, ch, (level - 1) as nat, if x >= h { x - h } else { x }, if y >= h { y - h } else { y });
    }
}

/// A marked node keeps its population in a cache that kept the marks.
pub proof fn lemma_count_kept(c1: &HashLifeCache, c2: &HashLifeCache, live: Seq<u8>, idx: u32, level: nat)
    requires
        marks_closed(c1, live),
        kept(c1, c2, live),
        marked(live, idx),
    ensures
        spec_count(c2.nodes@, idx, level) == spec_count(c1.nodes@, idx, level),
    decreases level,
{
    if idx >= 2 && level > 0 {
        assert(c2.nodes@[idx as int] == c1.nodes@[idx as int]);
        assert(live[idx as int] != 0);
        lemma_count_kept(c1, c2, live, child_of(c1.nodes@, idx, 0), (level - 1) as nat);
        lemma_count_kept(c1, c2, live, child_of(c1.nodes@, idx, 1), (level - 1) as nat);
        lemma_count_kept(c1, c2, live, child_of(c1.nodes@, idx, 2), (level - 1) as nat);
        lemma_count_kept(c1, c2, live, child_of(c1.nodes@, idx, 3), (level - 1) as nat);
    }
}

/// A marked node lists the same cells in a cache that kept the marks.
pub proof fn lemma_cells_kept(c1: &HashLifeCache, c2: &HashLifeCache, live: Seq<u8>, idx: u32, level: nat, ox: int, oy: int)
    requires
        marks_closed(c1, live),
        kept(c1, c2, live),
        marked(live, idx),
    ensures
        crate::hashlife::tree::cells_seq(c2.nodes@, idx, level, ox, oy) == crate::hashlife::tree::cells_seq(c1.nodes@, idx, level, ox, oy),
    decreases level,
{
    if idx >= 2 && level > 0 {
        let h = crate::arith::pow2((level - 1) as nat) as int;
        let d = (level - 1) as nat;
        assert(c2.nodes@[idx as int] == c1.nodes@[idx as int]);
        assert(live[idx as int] != 0);
        lemma_cells_kept(c1, c2, live, child_of(c1.nodes@, idx, 0), d, ox, oy);
        lemma_cells_kept(c1, c2, live, child_of(c1.nodes@, idx, 1), d, ox + h, oy);
        lemma_cells_kept(c1, c2, live, child_of(c1.nodes@, idx, 2), d, ox, oy + h);
        lemma_cells_kept(c1, c2, live, child_of(c1.nodes@, idx, 3), d, ox + h, oy + h);
    }
}

/// A mark vector of `n` zero bytes.
fn zero_marks(n: usize) -> (v: Vec<u8>)
    ensures
        v@.len() == n,
        forall|i: int| 0 <= i < n ==> #[trigger] v@[i] == 0,
{
    let mut v: Vec<u8> = Vec::with_capacity(n);
    let mut i: usize = 0;
    while i < n
        invariant
            i <= n,
            v@.len() == i,
            forall|j: int| 0 <= j < i ==> #[trigger] v@[j] == 0,
        decreases n - i,
    {
        v.push(0);
        i = i + 1;
    }
    v
}

/// The number of set bytes of `live`.
fn count_marks(live: &Vec<u8>) -> (r: u32)
    requires
        live@.len() <= u32::MAX,
    ensures
        r == ones(live@),
{
    let mut cnt: u32 = 0;
    let mut i: usize = 0;
    while i < live.len()
        invariant
            i <= live@.len(),
            live@.len() <= u32::MAX,
            cnt == ones(live@.take(i as int)),
        decreases live@.len() - i,
    {
        proof {
            let t = live@.take(i as int + 1);
            assert(t.drop_last() =~= live@.take(i as int));
            lemma_zeros_le(live@.take(i as int));
            lemma_zeros_le(t);
        }
        if live[i] != 0 {
            cnt = cnt + 1;
        }
        i = i + 1;
    }
    proof {
        assert(live@.take(live@.len() as int) =~= live@);
    }
    cnt
}

/// Node `i` survives a collection from `root` with slow-cache keys `keys1`
/// and `keys2`: it lies below one of the two sentinels, the root, or the
/// allocated node of a key.
pub open spec fn gc_live(c: &HashLifeCache, root: u32, keys1: Set<u64>, keys2: Set<u64>, i: u32) -> bool {
    ||| reachable(c.nodes@, FALSE_NODE, i)
    ||| reachable(c.nodes@, TRUE_NODE, i)
    ||| walk_live(c, root, keys1, keys2, i)
}

/// Node `i` is what the walk from `root` marks: it lies below the root or
/// below the allocated node of a key of either slow cache.
pub open spec fn walk_live(c: &HashLifeCache, root: u32, keys1: Set<u64>, keys2: Set<u64>, i: u32) -> bool {
    ||| reachable(c.nodes@, root, i)
    ||| key_reaches(c, keys1, i)
    ||| key_reaches(c, keys2, i)
}

/// Node `i` is a slot of the arena and survives the collection (see `gc_live`).
pub open spec fn survives(c: &HashLifeCache, root: u32, keys1: Set<u64>, keys2: Set<u64>, i: u32) -> bool {
    (i as int) < c.nodes.len() && gc_live(c, root, keys1, keys2, i)
}

/// Node `i` lies below the allocated node of one of the keys.
pub open spec fn key_reaches(c: &HashLifeCache, keys: Set<u64>, i: u32) -> bool {
    exists|k: u64|
        #[trigger] keys.contains(k) && c.valid(crate::hashlife::maps::slow_key_node(k)) && reachable(
            c.nodes@,
            crate::hashlife::maps::slow_key_node(k),
            i,
        )
}

impl HashLifeCache {
    /// Marks everything reachable from the node of slow-cache key `k`, if that
    /// node is still allocated.
    fn mark_key(&self, k: u64, live: &mut Vec<u8>)
        requires
            self.wf(),
            marks_closed(self, old(live)@),
        ensures
            marks_closed(self, final(live)@),
            forall|i: int| 0 <= i < old(live)@.len() && #[trigger] old(live)@[i] != 0 ==> final(live)@[i] != 0,
            self.valid(crate::hashlife::maps::slow_key_node(k)) ==> marked(final(live)@, crate::hashlife::maps::slow_key_node(k)),
            forall|i: int|
                0 <= i < final(live)@.len() && #[trigger] final(live)@[i] != 0 ==> old(live)@[i] != 0 || (self.valid(
                    crate::hashlife::maps::slow_key_node(k),
                ) && reachable(self.nodes@, crate::hashlife::maps::slow_key_node(k), i as u32)),
    {
        let node = (k >> 32) as u32;
        assert(node == (k / 0x1_0000_0000) as u32) by (bit_vector)
            requires
                node == (k >> 32) as u32,
        ;
        if (node as usize) < self.nodes.len() && self.issued[node as usize] == 1 {
            self.walk_tree(node, live);
        }
    }

    /// Marks every node reachable from the keys of slow cache `m` that are
    /// still allocated.
    fn walk_slow_keys(&self, m: &AHashMap<u64, u32>, live: &mut Vec<u8>)
        requires
            self.wf(),
            marks_closed(self, old(live)@),
        ensures
            marks_closed(self, final(live)@),
            forall|i: int| 0 <= i < old(live)@.len() && #[trigger] old(live)@[i] != 0 ==> final(live)@[i] != 0,
            forall|k: u64|
                #[trigger] slow_map(*m).dom().contains(k) && self.valid(crate::hashlife::maps::slow_key_node(k))
                    ==> marked(final(live)@, crate::hashlife::maps::slow_key_node(k)),
            forall|i: int|
                0 <= i < final(live)@.len() && #[trigger] final(live)@[i] != 0 ==> old(live)@[i] != 0 || key_reaches(
                    self,
                    slow_map(*m).dom(),
                    i as u32,
                ),
    {
        let keys = slow_keys(m);
        let ghost l0 = live@;
        let mut i: usize = 0;
        while i < keys.len()
            invariant
                self.wf(),
                i <= keys@.len(),
                marks_closed(self, live@),
                l0.len() == live@.len(),
                forall|j: int| 0 <= j < l0.len() && #[trigger] l0[j] != 0 ==> live@[j] != 0,
                forall|j: int|
                    0 <= j < i && self.valid(crate::hashlife::maps::slow_key_node(#[trigger] keys@[j])) ==> marked(
                        live@,
                        crate::hashlife::maps::slow_key_node(keys@[j]),
                    ),
                keys@.to_set() == slow_map(*m).dom(),
                forall|j: int|
                    0 <= j < live@.len() && #[trigger] live@[j] != 0 ==> l0[j] != 0 || key_reaches(
                        self,
                        slow_map(*m).dom(),
                        j as u32,
                    ),
            decreases keys@.len() - i,
        {
            let ghost lb = live@;
            self.mark_key(keys[i], live);
            proof {
                assert forall|j: int| 0 <= j < l0.len() && #[trigger] l0[j] != 0 implies live@[j] != 0 by {
                    assert(lb[j] != 0);
                }
                assert forall|j: int|
                    0 <= j < i + 1 && self.valid(crate::hashlife::maps::slow_key_node(#[trigger] keys@[j])) implies marked(
                    live@,
                    crate::hashlife::maps::slow_key_node(keys@[j]),
                ) by {
                    if j < i {
                        let v = crate::hashlife::maps::slow_key_node(keys@[j]);
                        assert(lb[v as int] != 0);
                    }
                }
                assert forall|j: int| 0 <= j < live@.len() && #[trigger] live@[j] != 0 implies l0[j] != 0 || key_reaches(
                    self,
                    slow_map(*m).dom(),
                    j as u32,
                ) by {
                    if lb[j] == 0 {
                        let k = keys@[i as int];
                        assert(keys@.to_set().contains(k));
                        assert(slow_map(*m).dom().contains(k));
                    }
                }
            }
            i = i + 1;
        }
        proof {
            assert forall|k: u64|
                #[trigger] slow_map(*m).dom().contains(k) && self.valid(crate::hashlife::maps::slow_key_node(k))
                    implies marked(live@, crate::hashlife::maps::slow_key_node(k)) by {
                assert(keys@.to_set().contains(k));
                let j = choose|j: int| 0 <= j < keys@.len() && keys@[j] == k;
            }
        }
    }

    /// Marks the live nodes: the sentinels, everything the root reaches, and
    /// everything reached from the allocated key nodes of both slow caches.
    pub fn walk_tree_threaded(&self, root: u32, slow_cache_n1: &AHashMap<u64, u32>, slow_cache_n: &AHashMap<u64, u32>) -> (live: Vec<u8>)
        requires
            self.wf(),
            self.valid(root),
        ensures
            marks_closed(self, live@),
            marked(live@, root),
            forall|i: u32|
                (i as int) < live@.len() ==> (#[trigger] marked(live@, i) <==> walk_live(
                    self,
                    root,
                    slow_map(*slow_cache_n1).dom(),
                    slow_map(*slow_cache_n).dom(),
                    i,
                )),
    {
        let mut live = zero_marks(self.nodes.len());
        let ghost l0 = live@;
        self.walk_tree(root, &mut live);
        let ghost l3 = live@;
        self.walk_slow_keys(slow_cache_n, &mut live);
        let ghost l4 = live@;
        self.walk_slow_keys(slow_cache_n1, &mut live);
        proof {
            assert(l3[root as int] != 0);
            assert(l4[root as int] != 0);
            let k1 = slow_map(*slow_cache_n1).dom();
            let k2 = slow_map(*slow_cache_n).dom();
            assert forall|i: u32| (i as int) < live@.len() implies (#[trigger] marked(live@, i) <==> walk_live(
                self,
                root,
                k1,
                k2,
                i,
            )) by {
                if marked(live@, i) {
                    assert(l4[i as int] != 0 || key_reaches(self, k1, i));
                    if l4[i as int] != 0 {
                        assert(l3[i as int] != 0 || key_reaches(self, k2, i));
                        if l3[i as int] != 0 {
                            assert(l0[i as int] == 0);
                            assert(reachable(self.nodes@, root, i));
                        }
                    }
                }
                if walk_live(self, root, k1, k2, i) {
                    if reachable(self.nodes@, root, i) {
                        let f = choose|f: nat| #[trigger] reach(self.nodes@, root, i, f);
                        lemma_reach_marked(self, live@, root, i, f);
                    } else if key_reaches(self, k1, i) {
                        let k = choose|k: u64| #[trigger] k1.contains(k) && self.valid(crate::hashlife::maps::slow_key_node(k))
                            && reachable(self.nodes@, crate::hashlife::maps::slow_key_node(k), i);
                        let v = crate::hashlife::maps::slow_key_node(k);
                        let f = choose|f: nat| #[trigger] reach(self.nodes@, v, i, f);
                        lemma_reach_marked(self, live@, v, i, f);
                    } else {
                        let k = choose|k: u64| #[trigger] k2.contains(k) && self.valid(crate::hashlife::maps::slow_key_node(k))
                            && reachable(self.nodes@, crate::hashlife::maps::slow_key_node(k), i);
                        let v = crate::hashlife::maps::slow_key_node(k);
                        assert(marked(l4, v));
                        let f = choose|f: nat| #[trigger] reach(self.nodes@, v, i, f);
                        lemma_reach_marked(self, live@, v, i, f);
                    }
                }
            }
        }
        live
    }

    /// Clears every allocated, unmarked slot; returns the cleared indices in
    /// increasing order.
    fn sweep(&mut self, live: &Vec<u8>) -> (fv: Vec<u32>)
        requires
            live@.len() == old(self).nodes.len(),
            old(self).nodes.len() == old(self).issued.len(),
            old(self).nodes.len() <= u32::MAX,
        ensures
            final(self).nodes.len() == old(self).nodes.len(),
            final(self).issued.len() == old(self).issued.len(),
            forall|i: int| 0 <= i < old(self).nodes.len() ==> #[trigger] swept_at(&*old(self), &*final(self), live@, i),
            forall|k: int|
                0 <= k < fv@.len() ==> (#[trigger] fv@[k] as int) < old(self).nodes.len() && old(self).issued[fv@[k] as int]
                    == 1 && live@[fv@[k] as int] == 0,
            forall|a: int, b: int| 0 <= a < b < fv@.len() ==> #[trigger] fv@[a] < #[trigger] fv@[b],
            forall|j: int| 0 <= j < old(self).nodes.len() && old(self).issued[j] == 1 && live@[j] == 0 ==> fv@.contains(
                j as u32,
            ),
            final(self).arena == old(self).arena,
            final(self).fast_cache == old(self).fast_cache,
            final(self).count_cache == old(self).count_cache,
            final(self).freed == old(self).freed,
            final(self).reuse == old(self).reuse,
            final(self).next_idx == old(self).next_idx,
            final(self).alloc == old(self).alloc,
            final(self).rules == old(self).rules,
            final(self).exhausted == old(self).exhausted,
    {
        let mut fv: Vec<u32> = Vec::new();
        let ghost c0 = *self;
        let n = self.nodes.len();
        let mut i: usize = 0;
        while i < n
            invariant
                n == old(self).nodes.len(),
                n <= u32::MAX,
                i <= n,
                live@.len() == n,
                self.nodes.len() == n,
                self.issued.len() == n,
                old(self).issued.len() == n,
                c0 == *old(self),
                forall|j: int| 0 <= j < i ==> #[trigger] swept_at(&c0, &*self, live@, j),
                forall|j: int| i <= j < n ==> #[trigger] same_at(&c0, &*self, j),
                forall|k: int|
                    0 <= k < fv@.len() ==> (#[trigger] fv@[k] as int) < i && old(self).issued[fv@[k] as int] == 1
                        && live@[fv@[k] as int] == 0,
                forall|a: int, b: int| 0 <= a < b < fv@.len() ==> #[trigger] fv@[a] < #[trigger] fv@[b],
                forall|j: int| 0 <= j < i && old(self).issued[j] == 1 && live@[j] == 0 ==> fv@.contains(j as u32),
                self.arena == old(self).arena,
                self.fast_cache == old(self).fast_cache,
                self.count_cache == old(self).count_cache,
                self.freed == old(self).freed,
                self.reuse == old(self).reuse,
                self.next_idx == old(self).next_idx,
                self.alloc == old(self).alloc,
                self.rules == old(self).rules,
                self.exhausted == old(self).exhausted,
            decreases n - i,
        {
            let ghost cb = *self;
            let ghost fv0 = fv@;
            proof {
                assert(same_at(&c0, &cb, i as int));
            }
            if self.issued[i] == 1 && live[i] == 0 {
                self.nodes.set(i, empty_node());
                self.issued.set(i, 0);
                fv.push(i as u32);
                proof {
                    assert(fv@[fv0.len() as int] == i as u32);
                }
            }
            proof {
                assert forall|j: int| 0 <= j < i + 1 && old(self).issued[j] == 1 && live@[j] == 0 implies fv@.contains(
                    j as u32,
                ) by {
                    if j < i {
                        let k = choose|k: int| 0 <= k < fv0.len() && fv0[k] == j as u32;
                        assert(fv@[k] == j as u32);
                    }
                }
                assert(swept_at(&c0, &*self, live@, i as int));
                assert forall|j: int| 0 <= j < i + 1 implies #[trigger] swept_at(&c0, &*self, live@, j) by {
                    if j < i {
                        assert(swept_at(&c0, &cb, live@, j));
                    }
                }
                assert forall|j: int| i + 1 <= j < n implies #[trigger] same_at(&c0, &*self, j) by {
                    assert(same_at(&c0, &cb, j));
                }
            }
            i = i + 1;
        }
        fv
    }
}

/// The node slots after a sweep of the marks `live` keep the arena's shape.
proof fn lemma_swept_nodes(c0: &HashLifeCache, c2: &HashLifeCache, live: Seq<u8>)
    requires
        c0.wf(),
        marks_closed(c0, live),
        marked(live, FALSE_NODE),
        marked(live, TRUE_NODE),
        c2.nodes.len() == c0.nodes.len(),
        c2.issued.len() == c0.issued.len(),
        forall|i: int| 0 <= i < c0.nodes.len() ==> #[trigger] swept_at(c0, c2, live, i),
    ensures
        kept(c0, c2, live),
        c2.nodes[0] == spec_empty_node(),
        c2.nodes[1] == (LifeNode { north_west: 1, north_east: 1, south_west: 1, south_east: 1, is_empty: false }),
        c2.issued[0] == 1 && c2.issued[1] == 1,
        forall|i: int| 0 <= i < c2.nodes.len() ==> #[trigger] c2.issued[i] <= 1,
        forall|i: int|
            2 <= i < c2.nodes.len() && #[trigger] c2.issued[i] == 1 ==> {
                &&& c2.valid(c2.nodes[i].north_west)
                &&& c2.valid(c2.nodes[i].north_east)
                &&& c2.valid(c2.nodes[i].south_west)
                &&& c2.valid(c2.nodes[i].south_east)
                &&& !c2.nodes[i].is_empty
            },
        forall|i: int| 0 <= i < c2.nodes.len() && #[trigger] c2.issued[i] == 0 ==> c2.nodes[i] == spec_empty_node(),
        forall|i: int| 0 <= i < c2.nodes.len() ==> (#[trigger] c2.issued[i] == 1) == (live[i] != 0),
        forall|v: u32| marked(live, v) ==> #[trigger] c2.valid(v),
{
    assert(swept_at(c0, c2, live, 0));
    assert(swept_at(c0, c2, live, 1));
    assert forall|i: int| 0 <= i < c0.nodes.len() && live[i] != 0 implies #[trigger] c2.nodes[i] == c0.nodes[i] && c2.issued[i]
        == c0.issued[i] by {
        assert(swept_at(c0, c2, live, i));
    }
    assert forall|i: int| 0 <= i < c2.nodes.len() implies (#[trigger] c2.issued[i] == 1) == (live[i] != 0) by {
        assert(swept_at(c0, c2, live, i));
        if live[i] != 0 {
            assert(c0.issued[i] == 1);
        }
    }
    assert forall|v: u32| marked(live, v) implies #[trigger] c2.valid(v) by {
        assert(swept_at(c0, c2, live, v as int));
        assert(c0.issued[v as int] == 1);
    }
    assert forall|i: int| 0 <= i < c2.nodes.len() implies #[trigger] c2.issued[i] <= 1 by {
        assert(swept_at(c0, c2, live, i));
    }
    assert forall|i: int| 0 <= i < c2.nodes.len() && #[trigger] c2.issued[i] == 0 implies c2.nodes[i] == spec_empty_node() by {
        assert(swept_at(c0, c2, live, i));
    }
    assert forall|i: int|
        2 <= i < c2.nodes.len() && #[trigger] c2.issued[i] == 1 implies {
            &&& c2.valid(c2.nodes[i].north_west)
            &&& c2.valid(c2.nodes[i].north_east)
            &&& c2.valid(c2.nodes[i].south_west)
            &&& c2.valid(c2.nodes[i].south_east)
            &&& !c2.nodes[i].is_empty
        } by {
        assert(swept_at(c0, c2, live, i));
        assert(live[i] != 0);
        let n = c0.nodes[i];
        assert(marked(live, n.north_west));
        assert(marked(live, n.north_east));
        assert(marked(live, n.south_west));
        assert(marked(live, n.south_east));
        assert(c2.valid(n.north_west));
        assert(c2.valid(n.north_east));
        assert(c2.valid(n.south_west));
        assert(c2.valid(n.south_east));
    }
}

/// The blocks of marked nodes, and jumps between them, survive a sweep.
proof fn lemma_jump_kept(c1: &HashLifeCache, c2: &HashLifeCache, live: Seq<u8>, idx: u32, lv: nat, g: nat, r: u32)
    requires
        marks_closed(c1, live),
        kept(c1, c2, live),
        marked(live, idx),
        marked(live, r),
    ensures
        crate::hashlife::evolve::node_fn(c2.nodes@, idx, lv) == crate::hashlife::evolve::node_fn(c1.nodes@, idx, lv),
        crate::hashlife::evolve::jump_ok(c2.nodes@, idx, lv, g, r) == crate::hashlife::evolve::jump_ok(c1.nodes@, idx, lv, g, r),
{
    assert forall|a: int, b: int| #[trigger] crate::hashlife::evolve::node_fn(c2.nodes@, idx, lv)(a, b)
        == crate::hashlife::evolve::node_fn(c1.nodes@, idx, lv)(a, b) by {
        lemma_alive_kept(c1, c2, live, idx, lv, a, b);
    }
    assert(crate::hashlife::evolve::node_fn(c2.nodes@, idx, lv) =~= crate::hashlife::evolve::node_fn(c1.nodes@, idx, lv));
    assert forall|x: int, y: int| #[trigger] alive_at(c1.nodes@, r, (lv - 1) as nat, x, y) == alive_at(c2.nodes@, r, (lv - 1) as nat, x, y) by {
        lemma_alive_kept(c1, c2, live, r, (lv - 1) as nat, x, y);
    }
    crate::hashlife::evolve::lemma_jump_ext(c1.nodes@, c2.nodes@, idx, lv, g, r);
}

/// A memoized full jump between marked nodes stays sound through a sweep.
proof fn lemma_sound_kept(c1: &HashLifeCache, c2: &HashLifeCache, live: Seq<u8>, idx: u32, level: u32, r: u32)
    requires
        marks_closed(c1, live),
        kept(c1, c2, live),
        marked(live, idx),
        marked(live, r),
        c2.exhausted == c1.exhausted,
        crate::hashlife::window::fast_sound(c1.nodes@, c1.exhausted, idx, level, r),
    ensures
        crate::hashlife::window::fast_sound(c2.nodes@, c2.exhausted, idx, level, r),
{
    lemma_jump_kept(c1, c2, live, idx, level as nat, crate::arith::pow2((level - 2) as nat), r);
}

/// A slow-cache entry between marked nodes stays sound through a sweep.
proof fn lemma_slow_sound_kept(c1: &HashLifeCache, c2: &HashLifeCache, live: Seq<u8>, key: u64, r: u32)
    requires
        marks_closed(c1, live),
        kept(c1, c2, live),
        marked(live, crate::hashlife::maps::slow_key_node(key)),
        marked(live, r),
        c2.exhausted == c1.exhausted,
        crate::hashlife::window::slow_sound(c1.nodes@, c1.exhausted, key, r),
    ensures
        crate::hashlife::window::slow_sound(c2.nodes@, c2.exhausted, key, r),
{
    assert forall|idx: u32, level: u32, td: u32|
        #[trigger] crate::hashlife::window::slow_key_spec(idx, level, td) == key && crate::hashlife::window::key_ok(level, td)
            && !c2.exhausted && crate::hashlife::window::slow_premise(c2.nodes@, idx, level, td) implies crate::hashlife::evolve::jump_ok(
        c2.nodes@,
        idx,
        level as nat,
        crate::arith::pow2(crate::hashlife::window::slow_exp(level, td)),
        r,
    ) by {
        crate::hashlife::window::lemma_slow_key_unique(idx, level, td, idx, level, td);
        lemma_jump_kept(c1, c2, live, idx, level as nat, crate::arith::pow2(crate::hashlife::window::slow_exp(level, td)), r);
    }
}

impl HashLifeCache {
    /// Collects garbage: marks the sentinels, what `root` reaches and what the
    /// allocated slow-cache keys reach; frees every other allocated node (its
    /// slot cleared, its index queued for reuse before fresh ones); drops the
    /// cache entries whose key node or result was freed. Returns the number of
    /// nodes left allocated.
    #[verifier::rlimit(80)]
    #[verifier::spinoff_prover]
    pub fn gc(&mut self, root: u32, slow_cache_n1: &mut AHashMap<u64, u32>, slow_cache_n: &mut AHashMap<u64, u32>) -> (r: u32)
        requires
            old(self).wf(),
            fast_ok(&*old(self)),
            slow_ok(&*old(self), *old(slow_cache_n1)),
            slow_ok(&*old(self), *old(slow_cache_n)),
            old(self).valid(root),
        ensures
            final(self).wf(),
            fast_ok(&*final(self)),
            slow_ok(&*final(self), *final(slow_cache_n1)),
            slow_ok(&*final(self), *final(slow_cache_n)),
            final(self).valid(root),
            forall|level: nat, x: int, y: int|
                #[trigger] alive_at(final(self).nodes@, root, level, x, y) == alive_at(old(self).nodes@, root, level, x, y),
            forall|level: nat, ox: int, oy: int|
                #[trigger] crate::hashlife::tree::cells_seq(final(self).nodes@, root, level, ox, oy)
                    == crate::hashlife::tree::cells_seq(old(self).nodes@, root, level, ox, oy),
            final(self).nodes.len() == old(self).nodes.len(),
            final(self).rules == old(self).rules,
            final(self).exhausted == old(self).exhausted,
            pair_map(final(self).fast_cache).submap_of(pair_map(old(self).fast_cache)),
            count_map(final(self).count_cache).submap_of(count_map(old(self).count_cache)),
            slow_map(*final(slow_cache_n1)).submap_of(slow_map(*old(slow_cache_n1))),
            slow_map(*final(slow_cache_n)).submap_of(slow_map(*old(slow_cache_n))),
            r == ones(final(self).issued@),
            forall|i: int|
                0 <= i < old(self).nodes.len() ==> (#[trigger] final(self).issued[i] == 1 <==> old(self).issued[i] == 1
                    && gc_live(
                    &*old(self),
                    root,
                    slow_map(*old(slow_cache_n1)).dom(),
                    slow_map(*old(slow_cache_n)).dom(),
                    i as u32,
                )),
            forall|i: int|
                0 <= i < old(self).nodes.len() && survives(
                    &*old(self),
                    root,
                    slow_map(*old(slow_cache_n1)).dom(),
                    slow_map(*old(slow_cache_n)).dom(),
                    i as u32,
                ) ==> #[trigger] final(self).nodes[i] == old(self).nodes[i],
            arena_map(final(self).arena) == arena_map(old(self).arena).restrict(
                arena_map(old(self).arena).dom().filter(
                    |k: [u32; 4]|
                        survives(
                            &*old(self),
                            root,
                            slow_map(*old(slow_cache_n1)).dom(),
                            slow_map(*old(slow_cache_n)).dom(),
                            arena_map(old(self).arena)[k],
                        ),
                ),
            ),
            exists|fv: Seq<u32>|
                {
                    &&& final(self).pending() == old(self).pending() + fv
                    &&& forall|a: int, b: int| 0 <= a < b < fv.len() ==> #[trigger] fv[a] < #[trigger] fv[b]
                    &&& forall|i: u32|
                        #[trigger] fv.contains(i) <==> (i as int) < old(self).nodes.len() && old(self).issued[i as int] == 1
                            && !gc_live(
                            &*old(self),
                            root,
                            slow_map(*old(slow_cache_n1)).dom(),
                            slow_map(*old(slow_cache_n)).dom(),
                            i,
                        )
                },
            pair_map(final(self).fast_cache) == pair_map(old(self).fast_cache).restrict(
                pair_map(old(self).fast_cache).dom().filter(
                    |k: (u32, u32)|
                        survives(&*old(self), root, slow_map(*old(slow_cache_n1)).dom(), slow_map(*old(slow_cache_n)).dom(), k.0)
                            && survives(
                            &*old(self),
                            root,
                            slow_map(*old(slow_cache_n1)).dom(),
                            slow_map(*old(slow_cache_n)).dom(),
                            pair_map(old(self).fast_cache)[k],
                        ),
                ),
            ),
            count_map(final(self).count_cache) == count_map(old(self).count_cache).restrict(
                count_map(old(self).count_cache).dom().filter(
                    |k: (u32, u32)|
                        survives(&*old(self), root, slow_map(*old(slow_cache_n1)).dom(), slow_map(*old(slow_cache_n)).dom(), k.0),
                ),
            ),
            slow_map(*final(slow_cache_n)) == slow_map(*old(slow_cache_n)).restrict(
                slow_map(*old(slow_cache_n)).dom().filter(
                    |k: u64|
                        survives(
                            &*old(self),
                            root,
                            slow_map(*old(slow_cache_n1)).dom(),
                            slow_map(*old(slow_cache_n)).dom(),
                            crate::hashlife::maps::slow_key_node(k),
                        ) && survives(
                            &*old(self),
                            root,
                            slow_map(*old(slow_cache_n1)).dom(),
                            slow_map(*old(slow_cache_n)).dom(),
                            slow_map(*old(slow_cache_n))[k],
                        ),
                ),
            ),
            slow_map(*final(slow_cache_n1)) == slow_map(*old(slow_cache_n1)).restrict(
                slow_map(*old(slow_cache_n1)).dom().filter(
                    |k: u64|
                        survives(
                            &*old(self),
                            root,
                            slow_map(*old(slow_cache_n1)).dom(),
                            slow_map(*old(slow_cache_n)).dom(),
                            crate::hashlife::maps::slow_key_node(k),
                        ) && survives(
                            &*old(self),
                            root,
                            slow_map(*old(slow_cache_n1)).dom(),
                            slow_map(*old(slow_cache_n)).dom(),
                            slow_map(*old(slow_cache_n1))[k],
                        ),
                ),
            ),
    {
        let mut live = self.walk_tree_threaded(root, slow_cache_n1, slow_cache_n);
        let ghost lw = live@;
        self.walk_tree(FALSE_NODE, &mut live);
        let ghost lf = live@;
        self.walk_tree(TRUE_NODE, &mut live);
        proof {
            let k1 = slow_map(*slow_cache_n1).dom();
            let k2 = slow_map(*slow_cache_n).dom();
            assert forall|i: u32| (i as int) < live@.len() implies (#[trigger] marked(live@, i) <==> gc_live(
                self,
                root,
                k1,
                k2,
                i,
            )) by {
                if marked(live@, i) {
                    assert(lf[i as int] != 0 || reachable(self.nodes@, TRUE_NODE, i));
                    if lf[i as int] != 0 {
                        assert(lw[i as int] != 0 || reachable(self.nodes@, FALSE_NODE, i));
                        if lw[i as int] != 0 {
                            assert(marked(lw, i));
                        }
                    }
                }
                if gc_live(self, root, k1, k2, i) {
                    if reachable(self.nodes@, FALSE_NODE, i) {
                        let f = choose|f: nat| #[trigger] reach(self.nodes@, FALSE_NODE, i, f);
                        lemma_reach_marked(self, live@, FALSE_NODE, i, f);
                    } else if reachable(self.nodes@, TRUE_NODE, i) {
                        let f = choose|f: nat| #[trigger] reach(self.nodes@, TRUE_NODE, i, f);
                        lemma_reach_marked(self, live@, TRUE_NODE, i, f);
                    } else {
                        assert(marked(lw, i));
                    }
                }
            }
        }
        let ghost c0 = *self;
        let freed_vec = self.sweep(&live);
        let ghost c1 = *self;
        proof {
            lemma_swept_nodes(&c0, &c1, live@);
        }
        pair_retain_marked(&mut self.fast_cache, &live);
        slow_retain_marked(slow_cache_n, &live);
        slow_retain_marked(slow_cache_n1, &live);
        arena_retain_marked(&mut self.arena, &live);
        if arena_get(&self.arena, &[0, 0, 0, 0]).is_none() {
            arena_insert(&mut self.arena, [0, 0, 0, 0], 0);
        }
        if arena_get(&self.arena, &[1, 1, 1, 1]).is_none() {
            arena_insert(&mut self.arena, [1, 1, 1, 1], 1);
        }
        count_retain_marked(&mut self.count_cache, &live);
        let live_len = count_marks(&live);
        let ghost c2 = *self;
        if freed_vec.len() > 0 {
            match self.alloc {
                AllocState::Index => {
                    self.freed = freed_vec;
                    self.alloc = AllocState::Reuse;
                },
                AllocState::Reuse => {
                    self.reuse.push_back(freed_vec);
                },
            }
        }
        proof {
            let c3 = *self;
            let l = live@;
            assert(kept(&c0, &c3, l));
            // arena
            assert forall|k: [u32; 4]| #[trigger] arena_map(c3.arena).dom().contains(k) implies {
                let v = arena_map(c3.arena)[k];
                &&& c3.valid(v)
                &&& crate::hashlife::cache::node_is(c3.nodes@, v, k[0], k[1], k[2], k[3])
            } by {
                let v = arena_map(c3.arena)[k];
                if arena_map(c0.arena).dom().contains(k) && arena_map(c0.arena)[k] == v && marked(l, v) {
                    assert(c3.valid(v));
                    if v >= 2 {
                        assert(c3.nodes@[v as int] == c0.nodes@[v as int]);
                    }
                }
            }
            // count cache
            assert forall|k: (u32, u32)| #[trigger] count_map(c3.count_cache).dom().contains(k) implies c3.valid(k.0)
                && count_map(c3.count_cache)[k] as nat == spec_count(c3.nodes@, k.0, k.1 as nat) by {
                assert(marked(l, k.0));
                lemma_count_kept(&c0, &c3, l, k.0, k.1 as nat);
            }
            // pending indices
            let fvs = freed_vec@;
            assert(fvs.no_duplicates()) by {
                assert forall|a: int, b: int| 0 <= a < fvs.len() && 0 <= b < fvs.len() && a != b implies fvs[a] != fvs[b] by {
                    if a < b {
                        assert(fvs[a] < fvs[b]);
                    } else {
                        assert(fvs[b] < fvs[a]);
                    }
                }
            }
            if fvs.len() > 0 {
                if c2.alloc is Index {
                    assert(queued(c3.reuse@) =~= Seq::<u32>::empty());
                    assert(c3.pending() =~= fvs);
                } else {
                    assert(c3.reuse@ =~= c2.reuse@.push(freed_vec));
                    lemma_queued_push(c2.reuse@, freed_vec);
                    assert(c3.pending() =~= c0.pending() + fvs);
                    assert forall|a: int, b: int| 0 <= a < c0.pending().len() && 0 <= b < fvs.len() implies c0.pending()[a]
                        != fvs[b] by {
                        assert(c0.issued[c0.pending()[a] as int] == 0);
                    }
                    vstd::seq_lib::lemma_no_dup_in_concat(c0.pending(), fvs);
                    assert forall|j: int| 0 <= j < c3.reuse@.len() implies (#[trigger] c3.reuse@[j])@.len() > 0 by {
                        if j < c2.reuse@.len() {
                            assert(c3.reuse@[j] == c2.reuse@[j]);
                        }
                    }
                }
            }
            assert forall|j: int| 0 <= j < c3.pending().len() implies (#[trigger] c3.pending()[j] as int) < c3.nodes.len()
                && c3.issued[c3.pending()[j] as int] == 0 by {
                let p = c3.pending()[j];
                assert(c3.nodes == c1.nodes && c3.issued == c1.issued);
                if fvs.len() > 0 && c2.alloc is Index {
                    assert(fvs[j] == p);
                    assert(swept_at(&c0, &c1, l, p as int));
                    assert(swept_at(&c0, &c3, l, p as int));
                } else if fvs.len() > 0 && j >= c0.pending().len() {
                    assert(fvs[j - c0.pending().len()] == p);
                    assert(swept_at(&c0, &c1, l, p as int));
                    assert(swept_at(&c0, &c3, l, p as int));
                } else {
                    assert(c0.pending()[j] == p);
                    assert(c0.issued[p as int] == 0);
                    assert(swept_at(&c0, &c3, l, p as int));
                }
            }
            assert(c3.wf());
            // multi-generation cache
            assert forall|k: (u32, u32)| #[trigger] pair_map(c3.fast_cache).dom().contains(k) implies {
                &&& c3.valid(pair_map(c3.fast_cache)[k])
                &&& c3.valid(k.0)
                &&& crate::hashlife::window::fast_sound(c3.nodes@, c3.exhausted, k.0, k.1, pair_map(c3.fast_cache)[k])
            } by {
                assert(pair_map(c0.fast_cache).dom().contains(k));
                let v = pair_map(c0.fast_cache)[k];
                assert(marked(l, k.0) && marked(l, v));
                lemma_sound_kept(&c0, &c3, l, k.0, k.1, v);
            }
            // the two slow-cache tiers
            assert forall|k: u64| #[trigger] slow_map(*slow_cache_n).dom().contains(k) implies {
                &&& c3.valid(slow_map(*slow_cache_n)[k])
                &&& c3.valid(crate::hashlife::maps::slow_key_node(k))
                &&& crate::hashlife::window::slow_sound(c3.nodes@, c3.exhausted, k, slow_map(*slow_cache_n)[k])
            } by {
                assert(slow_map(*old(slow_cache_n)).dom().contains(k));
                let v = slow_map(*old(slow_cache_n))[k];
                assert(marked(l, crate::hashlife::maps::slow_key_node(k)) && marked(l, v));
                lemma_slow_sound_kept(&c0, &c3, l, k, v);
            }
            assert forall|k: u64| #[trigger] slow_map(*slow_cache_n1).dom().contains(k) implies {
                &&& c3.valid(slow_map(*slow_cache_n1)[k])
                &&& c3.valid(crate::hashlife::maps::slow_key_node(k))
                &&& crate::hashlife::window::slow_sound(c3.nodes@, c3.exhausted, k, slow_map(*slow_cache_n1)[k])
            } by {
                assert(slow_map(*old(slow_cache_n1)).dom().contains(k));
                let v = slow_map(*old(slow_cache_n1))[k];
                assert(marked(l, crate::hashlife::maps::slow_key_node(k)) && marked(l, v));
                lemma_slow_sound_kept(&c0, &c3, l, k, v);
            }
            // the root's block
            assert forall|level: nat, x: int, y: int|
                #[trigger] alive_at(c3.nodes@, root, level, x, y) == alive_at(c0.nodes@, root, level, x, y) by {
                lemma_alive_kept(&c0, &c3, l, root, level, x, y);
            }
            assert forall|level: nat, ox: int, oy: int|
                #[trigger] crate::hashlife::tree::cells_seq(c3.nodes@, root, level, ox, oy)
                    == crate::hashlife::tree::cells_seq(c0.nodes@, root, level, ox, oy) by {
                lemma_cells_kept(&c0, &c3, l, root, level, ox, oy);
            }
            // the count of allocated nodes
            assert forall|i: int| 0 <= i < l.len() implies (l[i] == 0) == (c3.issued@[i] == 0) by {
                assert(c3.issued[i] <= 1);
            }
            lemma_same_zeros(l, c3.issued@);
            // what survives
            let k1 = slow_map(*old(slow_cache_n1)).dom();
            let k2 = slow_map(*old(slow_cache_n)).dom();
            assert forall|i: u32| #[trigger] marked(l, i) == survives(&c0, root, k1, k2, i) by {}
            assert forall|i: int| 0 <= i < c0.nodes.len() implies (#[trigger] c3.issued[i] == 1 <==> c0.issued[i] == 1
                && gc_live(&c0, root, k1, k2, i as u32)) by {
                assert(swept_at(&c0, &c1, l, i));
                assert(c3.issued[i] == c1.issued[i]);
                assert(marked(l, i as u32) == survives(&c0, root, k1, k2, i as u32));
            }
            let fm = pair_map(c0.fast_cache);
            assert(fm.dom().filter(|k: (u32, u32)| marked(l, k.0) && marked(l, fm[k])) =~= fm.dom().filter(
                |k: (u32, u32)| survives(&c0, root, k1, k2, k.0) && survives(&c0, root, k1, k2, fm[k]),
            ));
            assert forall|i: int| 0 <= i < c0.nodes.len() && survives(&c0, root, k1, k2, i as u32) implies #[trigger] c3.nodes[i]
                == c0.nodes[i] by {
                assert(marked(l, i as u32));
            }
            let am = arena_map(c0.arena);
            let af = am.restrict(am.dom().filter(|k: [u32; 4]| survives(&c0, root, k1, k2, am[k])));
            assert(am.dom().filter(|k: [u32; 4]| marked(l, am[k])) =~= am.dom().filter(
                |k: [u32; 4]| survives(&c0, root, k1, k2, am[k]),
            ));
            assert(arena_map(c3.arena) =~= af);
            let fvs = freed_vec@;
            assert forall|i: u32| #[trigger] fvs.contains(i) <==> (i as int) < c0.nodes.len() && c0.issued[i as int] == 1
                && !gc_live(&c0, root, k1, k2, i) by {
                if fvs.contains(i) {
                    let k = choose|k: int| 0 <= k < fvs.len() && fvs[k] == i;
                    assert(l[i as int] == 0);
                    assert(!marked(l, i));
                }
                if (i as int) < c0.nodes.len() && c0.issued[i as int] == 1 && !gc_live(&c0, root, k1, k2, i) {
                    assert(!marked(l, i));
                }
            }
            assert(c3.pending() == c0.pending() + fvs);
            let cm = count_map(c0.count_cache);
            assert(cm.dom().filter(|k: (u32, u32)| marked(l, k.0)) =~= cm.dom().filter(
                |k: (u32, u32)| survives(&c0, root, k1, k2, k.0),
            ));
            let sn = slow_map(*old(slow_cache_n));
            assert(sn.dom().filter(|k: u64| marked(l, crate::hashlife::maps::slow_key_node(k)) && marked(l, sn[k]))
                =~= sn.dom().filter(
                |k: u64| survives(&c0, root, k1, k2, crate::hashlife::maps::slow_key_node(k)) && survives(&c0, root, k1, k2, sn[k]),
            ));
            let sn1 = slow_map(*old(slow_cache_n1));
            assert(sn1.dom().filter(|k: u64| marked(l, crate::hashlife::maps::slow_key_node(k)) && marked(l, sn1[k]))
                =~= sn1.dom().filter(
                |k: u64| survives(&c0, root, k1, k2, crate::hashlife::maps::slow_key_node(k)) && survives(&c0, root, k1, k2, sn1[k]),
            ));
        }
        live_len
    }
}

} // verus!
