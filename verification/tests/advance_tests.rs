use std::collections::HashMap;
use std::collections::HashSet;

use ahash::AHashMap;
use game_of_life::hashlife::advance::{advance_node, encode_level3, needs_expansion};
use game_of_life::hashlife::cache::{HashLifeCache, FALSE_NODE, TRUE_NODE};
use game_of_life::hashlife::coord_pack;
use game_of_life::hashlife::coord_unpack;
use game_of_life::hashlife::life::HashLife;
use game_of_life::hashlife::tree::{build_quadtree, collect_alive, expand_node, get_cell_at};

fn pack(x: u32, y: u32) -> u128 {
    coord_pack(x as u64, y as u64)
}

fn step_flat(alive: &HashSet<u128>) -> HashSet<u128> {
    let mut counts: HashMap<u128, u32> = HashMap::new();
    for &cell in alive {
        let (x, y) = coord_unpack(cell);
        for dy in -1i64..=1 {
            for dx in -1i64..=1 {
                if dx == 0 && dy == 0 {
                    continue;
                }
                let n = coord_pack((x as i64 + dx) as u64, (y as i64 + dy) as u64);
                *counts.entry(n).or_insert(0) += 1;
            }
        }
    }
    let mut next = HashSet::new();
    for (&cell, &c) in &counts {
        if c == 3 || (c == 2 && alive.contains(&cell)) {
            next.insert(cell);
        }
    }
    next
}

/// Live cells of node `idx` (read at `depth`) with its corner at `(ox, oy)`.
fn cells_at(cache: &HashLifeCache, idx: u32, depth: u32, ox: u64, oy: u64) -> HashSet<u128> {
    let mut out = Vec::new();
    collect_alive(cache, idx, depth, ox, oy, &mut out);
    out.into_iter().collect()
}

fn advance_grid_once(pattern: &[(u32, u32)], side: usize, level: u32) {
    let flat: HashSet<u128> = pattern.iter().map(|&(x, y)| pack(x, y)).collect();
    let flat_next = step_flat(&flat);
    let mut cache = HashLifeCache::new();
    let mut grid = vec![vec![0u8; side]; side];
    for &(x, y) in pattern {
        grid[y as usize][x as usize] = 1;
    }
    let tree = build_quadtree(&mut cache, &grid, 0, 0, side, side);
    let result = advance_node(&mut cache, &mut AHashMap::new(), &mut AHashMap::new(), tree, level, 0, &mut 0, &mut 0);
    let q = (side / 4) as u64;
    let got = cells_at(&cache, result, level - 1, q, q);
    let expected: HashSet<u128> = flat_next
        .into_iter()
        .filter(|&c| {
            let (x, y) = coord_unpack(c);
            x >= q && x < 3 * q && y >= q && y < 3 * q
        })
        .collect();
    assert_eq!(got, expected, "level {}", level);
}

#[test]
fn test_advance_slow_level4() {
    advance_grid_once(&[(6, 6), (7, 6), (8, 6), (6, 7), (6, 8), (7, 8), (8, 8)], 16, 4);
}

#[test]
fn test_advance_slow_level5() {
    advance_grid_once(&[(14, 14), (15, 14), (16, 14), (14, 15), (14, 16), (15, 16), (16, 16)], 32, 5);
}

fn pi_heptamino_gen(gens: usize) -> HashSet<u128> {
    let mut flat: HashSet<u128> = [(100, 100), (101, 100), (102, 100), (100, 101), (100, 102), (101, 102), (102, 102)]
        .iter()
        .map(|&(x, y)| pack(x, y))
        .collect();
    for _ in 0..gens {
        flat = step_flat(&flat);
    }
    flat
}

#[test]
fn test_advance_slow_level7_gen22() {
    let flat = pi_heptamino_gen(22);
    let flat_next = step_flat(&flat);
    let hf = HashLife::from_flat(&flat.iter().copied().collect::<Vec<_>>());
    let center = hf.center;
    let mut cache = hf.cache;
    let mut root = hf.root;
    let mut depth = hf.depth;
    while needs_expansion(&cache, root, depth) || depth < 3 {
        root = expand_node(&mut cache, root, depth);
        depth += 1;
    }
    let result = advance_node(&mut cache, &mut AHashMap::new(), &mut AHashMap::new(), root, depth, 0, &mut 0, &mut 0);
    let result_depth = depth - 1;
    let result_size = 1u64 << result_depth;
    let tree_size = 1u64 << depth;
    let offset = (tree_size - result_size) / 2;
    let origin_x = (center.0 - (tree_size as i64 / 2) + offset as i64) as u64;
    let origin_y = (center.1 - (tree_size as i64 / 2) + offset as i64) as u64;
    let got = cells_at(&cache, result, result_depth, origin_x, origin_y);
    assert_eq!(got, flat_next);
}

/// The non-empty nodes of `level` in the tree, with their corners.
fn find_nodes(cache: &HashLifeCache, idx: u32, depth: u32, level: u32, ax: i64, ay: i64, out: &mut Vec<(u32, i64, i64)>) {
    if idx == FALSE_NODE || idx == TRUE_NODE {
        return;
    }
    if depth == level {
        out.push((idx, ax, ay));
        return;
    }
    let node = cache.get_node(idx);
    let half = 1i64 << (depth - 1);
    find_nodes(cache, node.north_west, depth - 1, level, ax, ay, out);
    find_nodes(cache, node.north_east, depth - 1, level, ax + half, ay, out);
    find_nodes(cache, node.south_west, depth - 1, level, ax, ay + half, out);
    find_nodes(cache, node.south_east, depth - 1, level, ax + half, ay + half, out);
}

fn encode_4x4_from_grid(flat: &HashSet<u128>, tx: u32, ty: u32) -> u16 {
    let mut bits = 0u16;
    for r in 0..4u32 {
        for c in 0..4u32 {
            if flat.contains(&pack(tx + c, ty + r)) {
                bits |= 1 << (15 - (r * 4 + c));
            }
        }
    }
    bits
}

#[test]
fn test_pi_heptamino_base_case() {
    let flat = pi_heptamino_gen(22);
    let flat_next = step_flat(&flat);
    let mut hf = HashLife::from_flat(&flat.iter().copied().collect::<Vec<_>>());
    let origin_x = hf.center.0 - (hf.size() as i64 / 2);
    let origin_y = hf.center.1 - (hf.size() as i64 / 2);
    // every non-empty level-3 node encodes its 8x8 block, and advances it
    // one generation to the centred 4x4
    let mut l3 = Vec::new();
    find_nodes(&hf.cache, hf.root, hf.depth, 3, origin_x, origin_y, &mut l3);
    assert!(!l3.is_empty());
    for &(idx, ax, ay) in &l3 {
        let q = encode_level3(&hf.cache, idx);
        assert_eq!(q.nw, encode_4x4_from_grid(&flat, ax as u32, ay as u32));
        assert_eq!(q.ne, encode_4x4_from_grid(&flat, (ax + 4) as u32, ay as u32));
        assert_eq!(q.sw, encode_4x4_from_grid(&flat, ax as u32, (ay + 4) as u32));
        assert_eq!(q.se, encode_4x4_from_grid(&flat, (ax + 4) as u32, (ay + 4) as u32));
        let r = advance_node(&mut hf.cache, &mut AHashMap::new(), &mut AHashMap::new(), idx, 3, 0, &mut 0, &mut 0);
        for y in 0..4u32 {
            for x in 0..4u32 {
                let expected = flat_next.contains(&pack(ax as u32 + 2 + x, ay as u32 + 2 + y));
                assert_eq!(get_cell_at(&hf.cache, r, 2, x, y), expected, "node at ({}, {})", ax, ay);
            }
        }
    }
    // and every non-empty level-4 node advances to the centred 8x8
    let mut l4 = Vec::new();
    find_nodes(&hf.cache, hf.root, hf.depth, 4, origin_x, origin_y, &mut l4);
    for &(idx, ax, ay) in &l4 {
        let r = advance_node(&mut hf.cache, &mut AHashMap::new(), &mut AHashMap::new(), idx, 4, 0, &mut 0, &mut 0);
        let got = cells_at(&hf.cache, r, 3, (ax + 4) as u64, (ay + 4) as u64);
        let expected: HashSet<u128> = flat_next
            .iter()
            .copied()
            .filter(|&c| {
                let (x, y) = coord_unpack(c);
                x as i64 >= ax + 4 && (x as i64) < ax + 12 && y as i64 >= ay + 4 && (y as i64) < ay + 12
            })
            .collect();
        assert_eq!(got, expected, "level-4 node at ({}, {})", ax, ay);
    }
}

#[test]
fn all_alive_node_centre_dies() {
    let mut cache = HashLifeCache::new();
    let r = advance_node(&mut cache, &mut AHashMap::new(), &mut AHashMap::new(), TRUE_NODE, 5, 0, &mut 0, &mut 0);
    assert_eq!(r, FALSE_NODE);
    assert!(needs_expansion(&cache, TRUE_NODE, 6));
    // a full 4x4 square steps like B3/S23: only its corners survive
    let square: Vec<u128> = (0..4u64).flat_map(|y| (0..4u64).map(move |x| coord_pack(50 + x, 50 + y))).collect();
    let mut h = HashLife::from_flat(&square);
    let before: HashSet<u128> = h.to_flat().into_iter().collect();
    assert_eq!(before, square.iter().copied().collect::<HashSet<u128>>());
    h.step();
    let expected = step_flat(&square.iter().copied().collect());
    assert_eq!(h.to_flat().into_iter().collect::<HashSet<u128>>(), expected);
}
