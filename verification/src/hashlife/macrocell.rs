//! Macrocell (MC) text of a quadtree: nodes written children first, each
//! numbered in the order it is written; blocks of at most 8x8 cells as
//! pictures of eight rows of eight `*` (live) or `.` (dead), each row ended
//! by `$`; larger nodes as "level nw ne sw se". The empty and full blocks are
//! never written and go by the numbers 0 and 1.

use vstd::prelude::*;
use vstd::string::StringExecFns;
use crate::arith::{pow2, lemma_pow2_mono, lemma_pow2_small, lemma_shl_u32, lemma_pow2_add};
use crate::hashlife::cache::{HashLifeCache, FALSE_NODE, TRUE_NODE, alive_at, child_of, quadrant};
use crate::hashlife::tree::get_cell_at;
use crate::hashlife::life::HashLife;
use crate::export::{decimal, push_decimal};

verus! {

/// The level of the blocks written as pictures.
pub const LEAF_DEPTH: u32 = 3;

/// The character of picture cell `(x, y)` of a node of `depth <= 3`, each
/// cell of the node drawn as a square of `8 / 2^depth` characters.
pub open spec fn leaf_char(nodes: Seq<crate::hashlife::cache::LifeNode>, idx: u32, depth: nat, x: int, y: int) -> char {
    let sc = 8int / (pow2(depth) as int);
    if alive_at(nodes, idx, depth, x / sc, y / sc) {
        '*'
    } else {
        '.'
    }
}

/// Picture rows `y` to 7, then the newline.
pub open spec fn leaf_rows(nodes: Seq<crate::hashlife::cache::LifeNode>, idx: u32, depth: nat, y: int) -> Seq<char>
    decreases 8 - y,
{
    if y >= 8 {
        seq!['\n']
    } else {
        Seq::new(8, |x: int| leaf_char(nodes, idx, depth, x, y)) + seq!['$'] + leaf_rows(nodes, idx, depth, y + 1)
    }
}

/// The line of a node written after its children.
pub open spec fn node_line(depth: nat, nw: nat, ne: nat, sw: nat, se: nat) -> Seq<char> {
    decimal(depth) + seq![' '] + decimal(nw) + seq![' '] + decimal(ne) + seq![' '] + decimal(sw) + seq![' '] + decimal(se)
        + seq!['\n']
}

/// The MC text of node `idx` read at `depth` when `counter` nodes were
/// written before it: the text, the node's number, and the last number used.
#[verifier::opaque]
pub open spec fn mc_node(nodes: Seq<crate::hashlife::cache::LifeNode>, idx: u32, depth: nat, counter: nat) -> (Seq<char>, nat, nat)
    decreases depth,
{
    if idx == FALSE_NODE || idx == TRUE_NODE {
        (Seq::empty(), idx as nat, counter)
    } else if depth <= LEAF_DEPTH {
        (leaf_rows(nodes, idx, depth, 0), counter + 1, counter + 1)
    } else {
        let d = (depth - 1) as nat;
        let r0 = mc_node(nodes, child_of(nodes, idx, 0), d, counter);
        let r1 = mc_node(nodes, child_of(nodes, idx, 1), d, r0.2);
        let r2 = mc_node(nodes, child_of(nodes, idx, 2), d, r1.2);
        let r3 = mc_node(nodes, child_of(nodes, idx, 3), d, r2.2);
        let id = r3.2 + 1;
        (r0.0 + r1.0 + r2.0 + r3.0 + node_line(depth, r0.1, r1.1, r2.1, r3.1), id, id)
    }
}

/// Writing a node read at `depth` uses at most `2^(2 depth + 1) - 1` numbers.
pub proof fn lemma_mc_count(nodes: Seq<crate::hashlife::cache::LifeNode>, idx: u32, depth: nat, counter: nat)
    ensures
        counter <= mc_node(nodes, idx, depth, counter).2 <= counter + pow2(2 * depth + 1) - 1,
        mc_node(nodes, idx, depth, counter).1 <= mc_node(nodes, idx, depth, counter).2 || idx <= 1,
        idx <= 1 ==> mc_node(nodes, idx, depth, counter).1 == idx,
    decreases depth,
{
    reveal(mc_node);
    lemma_pow2_mono(1, 2 * depth + 1);
    lemma_pow2_small();
    if idx != FALSE_NODE && idx != TRUE_NODE && depth > LEAF_DEPTH {
        let d = (depth - 1) as nat;
        let r0 = mc_node(nodes, child_of(nodes, idx, 0), d, counter);
        let r1 = mc_node(nodes, child_of(nodes, idx, 1), d, r0.2);
        let r2 = mc_node(nodes, child_of(nodes, idx, 2), d, r1.2);
        lemma_mc_count(nodes, child_of(nodes, idx, 0), d, counter);
        lemma_mc_count(nodes, child_of(nodes, idx, 1), d, r0.2);
        lemma_mc_count(nodes, child_of(nodes, idx, 2), d, r1.2);
        lemma_mc_count(nodes, child_of(nodes, idx, 3), d, r2.2);
        lemma_pow2_add(2, 2 * d + 1);
        assert(2 * depth + 1 == 2 + (2 * d + 1));
    }
}

/// One step of `mc_node`.
pub proof fn lemma_mc_unfold(nodes: Seq<crate::hashlife::cache::LifeNode>, idx: u32, depth: nat, counter: nat)
    ensures
        mc_node(nodes, idx, depth, counter) == if idx == FALSE_NODE || idx == TRUE_NODE {
            (Seq::<char>::empty(), idx as nat, counter)
        } else if depth <= LEAF_DEPTH {
            (leaf_rows(nodes, idx, depth, 0), counter + 1, counter + 1)
        } else {
            let d = (depth - 1) as nat;
            let r0 = mc_node(nodes, child_of(nodes, idx, 0), d, counter);
            let r1 = mc_node(nodes, child_of(nodes, idx, 1), d, r0.2);
            let r2 = mc_node(nodes, child_of(nodes, idx, 2), d, r1.2);
            let r3 = mc_node(nodes, child_of(nodes, idx, 3), d, r2.2);
            let id = r3.2 + 1;
            (r0.0 + r1.0 + r2.0 + r3.0 + node_line(depth, r0.1, r1.1, r2.1, r3.1), id, id)
        },
{
    reveal(mc_node);
}

/// The line of a node above the picture level lists its level, then the
/// numbers of its four children in the order north-west, north-east,
/// south-west, south-east, each separated by one space and the line ended by
/// a newline, after the children's own text: the second number is that of the
/// child covering the block's top-right quarter (`x` from `2^(depth-1)`, `y`
/// below it), the third that of the bottom-left quarter.
pub proof fn lemma_mc_line_order(nodes: Seq<crate::hashlife::cache::LifeNode>, idx: u32, depth: nat, counter: nat)
    requires
        idx != FALSE_NODE,
        idx != TRUE_NODE,
        depth > LEAF_DEPTH,
    ensures
        ({
            let d = (depth - 1) as nat;
            let h = pow2(d) as int;
            let nw = child_of(nodes, idx, 0);
            let ne = child_of(nodes, idx, 1);
            let sw = child_of(nodes, idx, 2);
            let se = child_of(nodes, idx, 3);
            let r0 = mc_node(nodes, nw, d, counter);
            let r1 = mc_node(nodes, ne, d, r0.2);
            let r2 = mc_node(nodes, sw, d, r1.2);
            let r3 = mc_node(nodes, se, d, r2.2);
            &&& mc_node(nodes, idx, depth, counter).0 == r0.0 + r1.0 + r2.0 + r3.0 + decimal(depth) + seq![' '] + decimal(
                r0.1,
            ) + seq![' '] + decimal(r1.1) + seq![' '] + decimal(r2.1) + seq![' '] + decimal(r3.1) + seq!['\n']
            &&& mc_node(nodes, idx, depth, counter).1 == r3.2 + 1
            &&& mc_node(nodes, idx, depth, counter).2 == r3.2 + 1
            &&& forall|x: int, y: int|
                0 <= x < h && 0 <= y < h ==> {
                    &&& #[trigger] alive_at(nodes, idx, depth, x, y) == alive_at(nodes, nw, d, x, y)
                    &&& alive_at(nodes, idx, depth, x + h, y) == alive_at(nodes, ne, d, x, y)
                    &&& alive_at(nodes, idx, depth, x, y + h) == alive_at(nodes, sw, d, x, y)
                    &&& alive_at(nodes, idx, depth, x + h, y + h) == alive_at(nodes, se, d, x, y)
                }
        }),
{
    lemma_mc_unfold(nodes, idx, depth, counter);
    let d = (depth - 1) as nat;
    let h = pow2(d) as int;
    assert forall|x: int, y: int| 0 <= x < h && 0 <= y < h implies {
        &&& #[trigger] alive_at(nodes, idx, depth, x, y) == alive_at(nodes, child_of(nodes, idx, 0), d, x, y)
        &&& alive_at(nodes, idx, depth, x + h, y) == alive_at(nodes, child_of(nodes, idx, 1), d, x, y)
        &&& alive_at(nodes, idx, depth, x, y + h) == alive_at(nodes, child_of(nodes, idx, 2), d, x, y)
        &&& alive_at(nodes, idx, depth, x + h, y + h) == alive_at(nodes, child_of(nodes, idx, 3), d, x, y)
    } by {
        assert(quadrant(x, y, h) == 0);
        assert(quadrant(x + h, y, h) == 1);
        assert(quadrant(x, y + h, h) == 2);
        assert(quadrant(x + h, y + h, h) == 3);
    }
    let r0 = mc_node(nodes, child_of(nodes, idx, 0), d, counter);
    let r1 = mc_node(nodes, child_of(nodes, idx, 1), d, r0.2);
    let r2 = mc_node(nodes, child_of(nodes, idx, 2), d, r1.2);
    let r3 = mc_node(nodes, child_of(nodes, idx, 3), d, r2.2);
    assert(r0.0 + r1.0 + r2.0 + r3.0 + node_line(depth, r0.1, r1.1, r2.1, r3.1) =~= r0.0 + r1.0 + r2.0 + r3.0 + decimal(depth)
        + seq![' '] + decimal(r0.1) + seq![' '] + decimal(r1.1) + seq![' '] + decimal(r2.1) + seq![' '] + decimal(r3.1)
        + seq!['\n']);
}

proof fn lemma_leaf_rows_at(nodes: Seq<crate::hashlife::cache::LifeNode>, idx: u32, depth: nat, y: int)
    requires
        0 <= y <= 8,
    ensures
        leaf_rows(nodes, idx, depth, y).len() == 9 * (8 - y) + 1,
        leaf_rows(nodes, idx, depth, y)[9 * (8 - y)] == '\n',
        forall|r: int, x: int|
            y <= r < 8 && 0 <= x < 8 ==> #[trigger] leaf_rows(nodes, idx, depth, y)[9 * (r - y) + x] == leaf_char(
                nodes,
                idx,
                depth,
                x,
                r,
            ),
        forall|r: int| y <= r < 8 ==> #[trigger] leaf_rows(nodes, idx, depth, y)[9 * (r - y) + 8] == '$',
    decreases 8 - y,
{
    if y < 8 {
        lemma_leaf_rows_at(nodes, idx, depth, y + 1);
        let row = Seq::new(8, |x: int| leaf_char(nodes, idx, depth, x, y));
        let rest = leaf_rows(nodes, idx, depth, y + 1);
        let t = leaf_rows(nodes, idx, depth, y);
        assert(t == row + seq!['$'] + rest);
        assert(t[9 * (8 - y)] == rest[9 * (8 - (y + 1))]);
        assert forall|r: int, x: int| y <= r < 8 && 0 <= x < 8 implies #[trigger] t[9 * (r - y) + x] == leaf_char(
            nodes,
            idx,
            depth,
            x,
            r,
        ) by {
            if r > y {
                assert(t[9 * (r - y) + x] == rest[9 * (r - (y + 1)) + x]);
            }
        }
        assert forall|r: int| y <= r < 8 implies #[trigger] t[9 * (r - y) + 8] == '$' by {
            if r > y {
                assert(t[9 * (r - y) + 8] == rest[9 * (r - (y + 1)) + 8]);
            }
        }
    }
}

/// A node at the picture level (at most 8 cells wide) is written as eight
/// rows of eight characters, each row ended by `$`, then a newline: the
/// character at column `x` of row `y` is `*` exactly when the cell covering
/// it is alive, each cell drawn as a square of `8 / 2^depth` characters.
pub proof fn lemma_mc_leaf_picture(nodes: Seq<crate::hashlife::cache::LifeNode>, idx: u32, depth: nat, counter: nat)
    requires
        idx != FALSE_NODE,
        idx != TRUE_NODE,
        depth <= LEAF_DEPTH,
    ensures
        ({
            let t = mc_node(nodes, idx, depth, counter).0;
            let sc = 8int / (pow2(depth) as int);
            &&& t.len() == 73
            &&& t[72] == '\n'
            &&& forall|y: int| 0 <= y < 8 ==> #[trigger] t[9 * y + 8] == '$'
            &&& forall|x: int, y: int|
                0 <= x < 8 && 0 <= y < 8 ==> (#[trigger] t[9 * y + x] == '*' <==> alive_at(nodes, idx, depth, x / sc, y / sc))
            &&& forall|x: int, y: int| 0 <= x < 8 && 0 <= y < 8 ==> (t[9 * y + x] == '*' || #[trigger] t[9 * y + x] == '.')
            &&& mc_node(nodes, idx, depth, counter).1 == counter + 1
            &&& mc_node(nodes, idx, depth, counter).2 == counter + 1
        }),
{
    lemma_mc_unfold(nodes, idx, depth, counter);
    lemma_leaf_rows_at(nodes, idx, depth, 0);
    let t = mc_node(nodes, idx, depth, counter).0;
    assert forall|x: int, y: int| 0 <= x < 8 && 0 <= y < 8 implies t[9 * y + x] == leaf_char(nodes, idx, depth, x, y) by {
        assert(t[9 * (y - 0) + x] == leaf_char(nodes, idx, depth, x, y));
    }
    assert forall|y: int| 0 <= y < 8 implies #[trigger] t[9 * y + 8] == '$' by {
        assert(t[9 * (y - 0) + 8] == '$');
    }
    let sc = 8int / (pow2(depth) as int);
    assert forall|x: int, y: int| 0 <= x < 8 && 0 <= y < 8 implies (#[trigger] t[9 * y + x] == '*' <==> alive_at(
        nodes,
        idx,
        depth,
        x / sc,
        y / sc,
    )) && (t[9 * y + x] == '*' || t[9 * y + x] == '.') by {
        assert(t[9 * y + x] == leaf_char(nodes, idx, depth, x, y));
    }
    assert(t[72] == t[9 * (8 - 0)]);
}

/// The empty and the full block are written as nothing, under the numbers 0
/// and 1, and use no number.
pub proof fn lemma_mc_sentinels(nodes: Seq<crate::hashlife::cache::LifeNode>, depth: nat, counter: nat)
    ensures
        mc_node(nodes, FALSE_NODE, depth, counter) == (Seq::<char>::empty(), 0nat, counter),
        mc_node(nodes, TRUE_NODE, depth, counter) == (Seq::<char>::empty(), 1nat, counter),
{
    lemma_mc_unfold(nodes, FALSE_NODE, depth, counter);
    lemma_mc_unfold(nodes, TRUE_NODE, depth, counter);
}

/// Appends the picture of node `idx` at `depth <= 3`.
fn push_leaf(cache: &HashLifeCache, idx: u32, depth: u32, out: &mut String)
    requires
        depth <= LEAF_DEPTH,
    ensures
        final(out)@ == old(out)@ + leaf_rows(cache.nodes@, idx, depth as nat, 0),
{
    proof {
        lemma_shl_u32(depth);
        lemma_pow2_mono(depth as nat, 3);
        lemma_pow2_small();
        lemma_pow2_add(1, 2);
        lemma_pow2_mono(0, depth as nat);
    }
    let size = 1u32 << depth;
    let sc = 8 / size;
    assert(sc >= 1) by (nonlinear_arith)
        requires
            1 <= size <= 8,
            sc == 8u32 / size,
    ;
    let ghost o0 = out@;
    let mut y: u32 = 0;
    while y < 8
        invariant
            y <= 8,
            depth <= LEAF_DEPTH,
            size as nat == pow2(depth as nat),
            1 <= size <= 8,
            sc == 8int / (size as int),
            sc >= 1,
            o0 + leaf_rows(cache.nodes@, idx, depth as nat, 0) == out@ + leaf_rows(cache.nodes@, idx, depth as nat, y as int),
        decreases 8 - y,
    {
        let ghost o1 = out@;
        let mut x: u32 = 0;
        while x < 8
            invariant
                x <= 8,
                y < 8,
                depth <= LEAF_DEPTH,
                size as nat == pow2(depth as nat),
                1 <= size <= 8,
                sc == 8int / (size as int),
                sc >= 1,
                out@ == o1 + Seq::new(x as nat, |xx: int| leaf_char(cache.nodes@, idx, depth as nat, xx, y as int)),
            decreases 8 - x,
        {
            let gx = if size > 0 { x / sc } else { x };
            let gy = if size > 0 { y / sc } else { y };
            let alive = get_cell_at(cache, idx, depth, gx, gy);
            let ghost o2 = out@;
            if alive {
                proof { reveal_strlit("*"); }
                out.append("*");
            } else {
                proof { reveal_strlit("."); }
                out.append(".");
            }
            proof {
                assert(out@ =~= o1 + Seq::new((x + 1) as nat, |xx: int| leaf_char(cache.nodes@, idx, depth as nat, xx, y as int)));
            }
            x = x + 1;
        }
        let ghost o3 = out@;
        out.append("$");
        proof {
            reveal_strlit("$");
            assert(out@ =~= o1 + Seq::new(8, |xx: int| leaf_char(cache.nodes@, idx, depth as nat, xx, y as int)) + seq!['$']);
            assert(leaf_rows(cache.nodes@, idx, depth as nat, y as int) == Seq::new(8, |xx: int| leaf_char(cache.nodes@, idx,
                depth as nat, xx, y as int)) + seq!['$'] + leaf_rows(cache.nodes@, idx, depth as nat, y + 1));
            assert(o0 + leaf_rows(cache.nodes@, idx, depth as nat, 0) =~= out@ + leaf_rows(cache.nodes@, idx, depth as nat, y + 1));
        }
        y = y + 1;
    }
    let ghost o4 = out@;
    out.append("\n");
    proof {
        reveal_strlit("\n");
        assert(out@ =~= o0 + leaf_rows(cache.nodes@, idx, depth as nat, 0));
    }
}

/// Writes node `idx` read at `depth` (children first, see `mc_node`),
/// numbering from `counter + 1`; returns the node's number.
#[verifier::rlimit(40)]
pub fn export_mc_node(cache: &HashLifeCache, node_idx: u32, depth: u32, counter: &mut u64, out: &mut String) -> (r: u64)
    requires
        depth <= 32,
        *old(counter) + pow2(2 * depth as nat + 1) <= u64::MAX,
    ensures
        ({
            let m = mc_node(cache.nodes@, node_idx, depth as nat, *old(counter) as nat);
            &&& final(out)@ == old(out)@ + m.0
            &&& r == m.1
            &&& *final(counter) == m.2
        }),
    decreases depth,
{
    proof {
        lemma_mc_count(cache.nodes@, node_idx, depth as nat, *old(counter) as nat);
        lemma_mc_unfold(cache.nodes@, node_idx, depth as nat, *old(counter) as nat);
    }
    if node_idx == FALSE_NODE || node_idx == TRUE_NODE {
        return node_idx as u64;
    }
    if depth <= LEAF_DEPTH {
        *counter = *counter + 1;
        let id = *counter;
        push_leaf(cache, node_idx, depth, out);
        return id;
    }
    let node = cache.get_node(node_idx);
    let d = depth - 1;
    let ghost nodes = cache.nodes@;
    let ghost c0 = *counter as nat;
    let ghost o0 = out@;
    let ghost r0 = mc_node(nodes, child_of(nodes, node_idx, 0), d as nat, c0);
    let ghost r1 = mc_node(nodes, child_of(nodes, node_idx, 1), d as nat, r0.2);
    let ghost r2 = mc_node(nodes, child_of(nodes, node_idx, 2), d as nat, r1.2);
    let ghost r3 = mc_node(nodes, child_of(nodes, node_idx, 3), d as nat, r2.2);
    proof {
        lemma_pow2_add(2, 2 * d as nat + 1);
        lemma_pow2_small();
        assert(2 * depth as nat + 1 == 2 + (2 * d as nat + 1));
        lemma_mc_count(nodes, child_of(nodes, node_idx, 0), d as nat, c0);
        lemma_mc_count(nodes, child_of(nodes, node_idx, 1), d as nat, r0.2);
        lemma_mc_count(nodes, child_of(nodes, node_idx, 2), d as nat, r1.2);
        lemma_mc_count(nodes, child_of(nodes, node_idx, 3), d as nat, r2.2);
        lemma_mc_unfold(nodes, node_idx, depth as nat, c0);
    }
    let nw = export_mc_node(cache, node.north_west, d, counter, out);
    let ne = export_mc_node(cache, node.north_east, d, counter, out);
    let sw = export_mc_node(cache, node.south_west, d, counter, out);
    let se = export_mc_node(cache, node.south_east, d, counter, out);
    assert(out@ == o0 + r0.0 + r1.0 + r2.0 + r3.0);
    *counter = *counter + 1;
    let id = *counter;
    let ghost o1 = out@;
    push_decimal(out, depth as u64);
    out.append(" ");
    push_decimal(out, nw);
    out.append(" ");
    push_decimal(out, ne);
    out.append(" ");
    push_decimal(out, sw);
    out.append(" ");
    push_decimal(out, se);
    out.append("\n");
    proof {
        reveal_strlit(" ");
        reveal_strlit("\n");
        assert(out@ =~= o1 + node_line(depth as nat, nw as nat, ne as nat, sw as nat, se as nat));
        assert(out@ =~= o0 + (r0.0 + r1.0 + r2.0 + r3.0 + node_line(depth as nat, r0.1, r1.1, r2.1, r3.1)));
    }
    id
}

/// The MC text of a universe: the format line, the population, the origin
/// line, the nodes (see `mc_node`) and the root's number; an empty universe
/// (or one of a single cell's level) has population 0 and no nodes.
pub open spec fn mc_text(h: HashLife) -> Seq<char> {
    if h.root == FALSE_NODE || h.depth == 0 {
        "[M2]\n"@ + "Cells=0\n"@
    } else {
        let m = mc_node(h.cache.nodes@, h.root, h.depth as nat, 0);
        "[M2]\n"@ + "Cells="@ + decimal(h.cells().len()) + "\n"@ + "# origin = 0 0\n"@ + m.0 + "# root = "@ + decimal(m.1)
            + "\n"@
    }
}

impl HashLife {
    /// The universe as MC text (see `mc_text`).
    pub fn export_mc(&self) -> (r: String)
        requires
            self.wf(),
            self.depth <= 31,
        ensures
            r@ == mc_text(*self),
    {
        let mut out = String::new();
        out.append("[M2]\n");
        if self.root == FALSE_NODE || self.depth == 0 {
            out.append("Cells=0\n");
            return out;
        }
        let pop = self.to_flat().len();
        out.append("Cells=");
        push_decimal(&mut out, pop as u64);
        out.append("\n");
        out.append("# origin = 0 0\n");
        let mut counter: u64 = 0;
        proof {
            lemma_pow2_mono(2 * self.depth as nat + 1, 63);
            crate::arith::lemma_pow2_32_64();
            lemma_pow2_add(63, 1);
            lemma_pow2_small();
        }
        let ghost o1 = out@;
        let root_id = export_mc_node(&self.cache, self.root, self.depth, &mut counter, &mut out);
        let ghost o2 = out@;
        out.append("# root = ");
        push_decimal(&mut out, root_id);
        out.append("\n");
        proof {
            assert(out@ =~= mc_text(*self));
        }
        out
    }
}

} // verus!
