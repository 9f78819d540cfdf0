use std::collections::HashMap;
use std::collections::HashSet;

use game_of_life::hashlife::coord_pack;
use game_of_life::hashlife::cache::{HashLifeCache, TRUE_NODE};
use game_of_life::hashlife::fill::fill_viewport;
use game_of_life::hashlife::life::HashLife;
use game_of_life::hashlife::viewport::align_viewport;

fn pack(x: u32, y: u32) -> u128 {
    (y as u128) << 64 | x as u128
}

fn unpack(cell: u128) -> (u64, u64) {
    ((cell & ((1u128 << 64) - 1)) as u64, (cell >> 64) as u64)
}

/// One generation of Life on a plain set of cells.
fn step_flat(alive: &HashSet<u128>) -> HashSet<u128> {
    let mut counts: HashMap<u128, u32> = HashMap::new();
    for &cell in alive {
        let (x, y) = unpack(cell);
        for dy in -1i64..=1 {
            for dx in -1i64..=1 {
                if dx == 0 && dy == 0 {
                    continue;
                }
                let nx = x.wrapping_add(dx as u64);
                let ny = y.wrapping_add(dy as u64);
                let key = pack(nx as u32, ny as u32);
                *counts.entry(key).or_insert(0u32) += 1;
            }
        }
    }
    let mut next = HashSet::new();
    for &cell in alive {
        let c = counts.get(&cell).copied().unwrap_or(0);
        if c == 2 || c == 3 {
            next.insert(cell);
        }
    }
    for (&cell, &c) in &counts {
        if !alive.contains(&cell) && c == 3 {
            next.insert(cell);
        }
    }
    next
}

fn test_pattern(name: &str, pattern: &[(u32, u32)], gens: usize) {
    let flat_initial: HashSet<u128> = pattern.iter().map(|&(x, y)| pack(x, y)).collect();
    let mut flat: HashSet<u128> = flat_initial.clone();
    let mut hf = HashLife::from_flat(&flat_initial.iter().copied().collect::<Vec<_>>());
    for i in 0..gens {
        let hf_before: HashSet<u128> = hf.to_flat().into_iter().collect();
        assert_eq!(flat, hf_before, "{} tree mismatch at gen {} (before step)", name, i);
        let flat_next = step_flat(&flat);
        hf.step();
        let hf_result: HashSet<u128> = hf.to_flat().into_iter().collect();
        assert_eq!(flat_next, hf_result, "{} step mismatch gen {}->{}", name, i, i + 1);
        flat = flat_next;
    }
}

#[test]
fn test_blinker() {
    test_pattern("blinker", &[(100, 100), (100, 101), (100, 102)], 10);
}

#[test]
fn test_glider() {
    test_pattern("glider", &[(100, 100), (101, 101), (99, 102), (100, 102), (101, 102)], 20);
}

#[test]
fn test_pi_heptamino() {
    test_pattern(
        "pi_heptamino",
        &[(100, 100), (101, 100), (102, 100), (100, 101), (102, 101), (100, 102), (102, 102)],
        30,
    );
}

#[test]
fn test_populate_viewport() {
    let cells: Vec<u128> = vec![
        pack(100, 100),
        pack(101, 100),
        pack(102, 100),
        pack(100, 101),
        pack(100, 102),
        pack(101, 102),
        pack(102, 102),
    ];
    let hf = HashLife::from_flat(&cells);
    let mut bits = vec![0u8; (20 * 20 + 7) / 8];
    hf.populate_viewport(95, 95, 20, 20, &mut bits);
    let mut set_bits = 0;
    for &b in &bits {
        set_bits += b.count_ones() as usize;
    }
    assert!(set_bits >= 7, "Expected at least 7 set bits, got {}", set_bits);
    let mut hf2 = HashLife::from_flat(&cells);
    hf2.step();
    let mut bits2 = vec![0u8; (20 * 20 + 7) / 8];
    hf2.populate_viewport(95, 95, 20, 20, &mut bits2);
    let mut set_bits2 = 0;
    for &b in &bits2 {
        set_bits2 += b.count_ones() as usize;
    }
    assert!(set_bits2 >= 7, "Expected at least 7 set bits after step, got {}", set_bits2);
}

#[test]
fn test_multi_gen_advance() {
    let pattern = [(100, 100), (101, 100), (102, 100), (100, 101), (102, 101), (100, 102), (101, 102)];
    let cells: Vec<u128> = pattern.iter().map(|&(x, y)| coord_pack(x, y)).collect();
    let mut hf1 = HashLife::from_flat(&cells);
    for _ in 0..8 {
        hf1.step();
    }
    let cells1 = hf1.to_flat();
    let mut hf2 = HashLife::from_flat(&cells);
    hf2.step_n(8);
    let cells2 = hf2.to_flat();
    assert_eq!(cells1, cells2, "Multi-gen advance doesn't match single-gen steps");
}

#[test]
fn test_multi_gen_heptamino() {
    let pattern = [(100, 100), (101, 100), (100, 101), (101, 101), (102, 101), (100, 102), (101, 102)];
    let cells: Vec<u128> = pattern.iter().map(|&(x, y)| coord_pack(x, y)).collect();
    let mut hf1 = HashLife::from_flat(&cells);
    for _ in 0..16 {
        hf1.step();
    }
    let cells1 = hf1.to_flat();
    let mut hf2 = HashLife::from_flat(&cells);
    hf2.step_n(16);
    let cells2 = hf2.to_flat();
    assert_eq!(cells1, cells2, "Multi-gen heptamino doesn't match single-gen steps");
}

#[test]
fn test_freelist_gc() {
    let pattern = [(101, 100), (103, 101), (100, 102), (101, 102), (104, 102), (105, 102), (106, 102)];
    let cells: Vec<u128> = pattern.iter().map(|&(x, y)| coord_pack(x, y)).collect();
    let mut hf1 = HashLife::from_flat(&cells);
    hf1.step_n(5000);
    let cells1 = hf1.to_flat();
    let mut hf2 = HashLife::from_flat(&cells);
    for _ in 0..5000 {
        hf2.step();
    }
    let cells2 = hf2.to_flat();
    assert_eq!(cells1, cells2, "Freelist GC corruption");
}

#[test]
fn test_block_population() {
    let pattern = [(100u64, 100u64), (101, 100), (100, 101), (101, 101)];
    let cells: Vec<u128> = pattern.iter().map(|&(x, y)| coord_pack(x, y)).collect();
    let mut hf = HashLife::from_flat(&cells);
    assert_eq!(hf.alive_count(), 4, "fresh block population");
    for g in 1..=3u32 {
        hf.step();
        assert_eq!(hf.alive_count(), 4, "block population after gen {}", g);
    }
    let mut full: Vec<u128> = Vec::new();
    for y in 0..8u64 {
        for x in 0..8u64 {
            full.push(coord_pack(100 + x, 100 + y));
        }
    }
    let mut hf2 = HashLife::from_flat(&full);
    assert_eq!(hf2.alive_count(), 64, "full 8x8 population");
}

#[test]
fn test_align_viewport_scale1() {
    let center = (100i64, 200i64);
    let (hvx_a, hvy_a, vw_a, vh_a) = align_viewport(center, 12345, 67890, 100, 100, 1);
    assert_eq!((center.0 - hvx_a as i64).rem_euclid(8), 0, "vertical seam not byte-aligned");
    assert_eq!(vw_a % 8, 0, "vw_a not multiple of 8");
    assert!(hvx_a <= 12345, "hvx_a should be <= hvx");
    assert!(hvy_a <= 67890, "hvy_a should be <= hvy");
    assert!(hvx_a + vw_a as u64 >= 12345 + 100, "aligned viewport should cover requested x");
    assert!(hvy_a + vh_a as u64 >= 67890 + 100, "aligned viewport should cover requested y");
}

#[test]
fn test_align_viewport_scale2() {
    let center = (100i64, 200i64);
    let (hvx_a, hvy_a, vw_a, vh_a) = align_viewport(center, 12345, 67890, 100, 100, 2);
    assert_eq!((center.0 - hvx_a as i64).rem_euclid(16), 0, "vertical seam not aligned (scale=2)");
    assert_eq!((center.1 - hvy_a as i64).rem_euclid(2), 0, "horizontal seam not aligned (scale=2)");
    assert_eq!(((vw_a as u64 + 1) / 2) % 8, 0, "agg_w not multiple of 8 (scale=2)");
    assert_eq!(((vh_a as u64 + 1) / 2) % 8, 0, "agg_h not multiple of 8 (scale=2)");
    assert!(hvx_a <= 12345, "hvx_a should be <= hvx");
    assert!(hvy_a <= 67890, "hvy_a should be <= hvy");
    assert!(hvx_a + vw_a as u64 >= 12345 + 100, "aligned viewport should cover requested x");
    assert!(hvy_a + vh_a as u64 >= 67890 + 100, "aligned viewport should cover requested y");
}

#[test]
fn test_aligned_viewport_small() {
    let cells: Vec<u128> = vec![coord_pack(100, 100)];
    let hf = HashLife::from_flat(&cells);
    let (hvx_a, hvy_a, vw_a, vh_a) = hf.aligned_viewport(12345, 67890, 100, 100, 1);
    assert_eq!((hvx_a, hvy_a, vw_a, vh_a), (12345, 67890, 100, 100), "small viewport should be unchanged");
}

#[test]
fn test_aligned_viewport_large() {
    let mut cells = Vec::new();
    for x in 0..16u64 {
        for y in 0..16u64 {
            cells.push(coord_pack(x, y));
        }
    }
    let hf = HashLife::from_flat(&cells);
    assert!(hf.depth >= 3, "tree should be depth >= 3, got {}", hf.depth);
    let (hvx_a, _hvy_a, vw_a, _vh_a) = hf.aligned_viewport(12345, 67890, 1000, 1000, 1);
    let center = hf.center;
    assert_eq!((center.0 - hvx_a as i64).rem_euclid(8), 0, "vertical seam not byte-aligned");
    assert_eq!(vw_a % 8, 0, "vw_a not multiple of 8");
    assert!(hvx_a <= 12345, "hvx_a should be <= hvx");
    assert!(hvx_a + vw_a as u64 >= 12345 + 1000, "aligned viewport should cover requested x");
}

#[test]
fn test_true_fill_exact_small_aligned() {
    let mut cells = Vec::new();
    for y in 0..32u64 {
        for x in 0..32u64 {
            cells.push(coord_pack(x, y));
        }
    }
    let hf = HashLife::from_flat(&cells);
    let (vx, vy, vw, vh) = hf.aligned_viewport(0, 0, 32, 32, 1);
    let mut bits = vec![0u8; (vw as usize) * (vh as usize) / 8];
    hf.populate_viewport(vx, vy, vw, vh, &mut bits);
    assert_eq!(bits, vec![0xFFu8; bits.len()], "32x32 true block must fill viewport fully");
}

#[test]
fn test_true_fill_exact_offset_head_tail() {
    let mut cells = Vec::new();
    for y in 0..32u64 {
        for x in 0..32u64 {
            cells.push(coord_pack(x + 3, y + 5));
        }
    }
    let hf = HashLife::from_flat(&cells);
    let (vx, vy, vw, vh) = hf.aligned_viewport(0, 0, 30, 30, 1);
    let mut bits = vec![0u8; (vw as usize) * (vh as usize) / 8];
    hf.populate_viewport(vx, vy, vw, vh, &mut bits);
    let mut exp = vec![0u8; bits.len()];
    let x0 = 3u64.max(vx) - vx;
    let x1 = 35u64.min(vx + vw as u64) - vx;
    let y0 = 5u64.max(vy) - vy;
    let y1 = 35u64.min(vy + vh as u64) - vy;
    for y in y0..y1 {
        for x in x0..x1 {
            let p = y * vw as u64 + x;
            exp[(p as usize) >> 3] |= 1 << (p & 7);
        }
    }
    assert_eq!(bits, exp, "offset true block: head/tail byte masks wrong");
}

#[test]
fn test_true_fill_exact_single_path_sse2() {
    let mut cells = Vec::new();
    for y in 0..256u64 {
        for x in 0..256u64 {
            cells.push(coord_pack(x, y));
        }
    }
    let hf = HashLife::from_flat(&cells);
    let (vx, vy, vw, vh) = hf.aligned_viewport(0, 0, 256, 256, 1);
    let mut bits = vec![0u8; (vw as usize) * (vh as usize) / 8];
    hf.populate_viewport(vx, vy, vw, vh, &mut bits);
    assert_eq!(bits, vec![0xFFu8; bits.len()], "256x256 true block (SSE2 middle) must be all 0xFF");
}

#[test]
fn test_true_fill_exact_parallel_sse2() {
    let mut cells = Vec::new();
    for y in 0..256u64 {
        for x in 0..256u64 {
            cells.push(coord_pack(x, y));
        }
    }
    let hf = HashLife::from_flat(&cells);
    let (vx, vy, vw, vh) = hf.aligned_viewport(0, 0, 1024, 1024, 1);
    let mut bits = vec![0u8; (vw as usize) * (vh as usize) / 8];
    hf.populate_viewport(vx, vy, vw, vh, &mut bits);
    let mut exp = vec![0u8; bits.len()];
    let x0 = 0u64.max(vx) - vx;
    let x1 = 256u64.min(vx + vw as u64) - vx;
    let y0 = 0u64.max(vy) - vy;
    let y1 = 256u64.min(vy + vh as u64) - vy;
    for y in y0..y1 {
        for x in x0..x1 {
            exp[((y * vw as u64 + x) as usize) >> 3] |= 1 << (x as u32 & 7);
        }
    }
    assert_eq!(bits, exp, "parallel-path true fill: block must be 0xFF, rest zero");
}

#[test]
fn fill_viewport_counts_bytes_of_uniform_blocks() {
    let cache = HashLifeCache::new();
    // An all-alive 8x8 block over an 8x8 viewport: one byte a row.
    let mut bits = vec![0u8; 8];
    let tf = fill_viewport(&cache, TRUE_NODE, 3, 0, 0, 0, 0, 8, 8, &mut bits);
    assert_eq!(tf, 8);
    assert!(bits.iter().all(|&b| b == 0xFF));
    // A 4x4 block at column 3 of a 10-wide viewport, 3 rows seen: rows span
    // 1, 2 and 2 bytes.
    let mut bits = vec![0u8; 4];
    let tf = fill_viewport(&cache, TRUE_NODE, 2, 3, 0, 0, 0, 10, 3, &mut bits);
    assert_eq!(tf, 5);
}

#[test]
fn set_cell_leaves_other_cells() {
    let mut hf = HashLife::new();
    let base: u64 = 9_000_000_000_000_000_000;
    hf.set_cell(base, base, true);
    hf.set_cell(base + 5, base + 3, true);
    hf.set_cell(base + 40, base - 7, true);
    assert!(hf.get_cell(base, base));
    assert!(hf.get_cell(base + 5, base + 3));
    assert!(hf.get_cell(base + 40, base - 7));
    assert!(!hf.get_cell(base + 1, base));
    hf.set_cell(base + 5, base + 3, false);
    assert!(!hf.get_cell(base + 5, base + 3));
    assert!(hf.get_cell(base, base));
    assert!(hf.get_cell(base + 40, base - 7));
}

#[test]
fn pad_of_zero_is_zero() {
    assert_eq!(game_of_life::hashlife::viewport::pad_to_agg_multiple(0, 1), 0);
    assert_eq!(game_of_life::hashlife::viewport::pad_to_agg_multiple(0, 5), 0);
    assert_eq!(game_of_life::hashlife::viewport::pad_to_agg_multiple(1, 1), 8);
}

#[test]
fn find_or_create_numbers_new_nodes_in_order() {
    let mut c = HashLifeCache::new();
    assert_eq!(c.find_or_create(1, 0, 0, 0), 2);
    assert_eq!(c.find_or_create(2, 0, 0, 2), 3);
    assert_eq!(c.find_or_create(1, 0, 0, 0), 2);
    let n = c.get_node(2);
    assert_eq!((n.north_west, n.north_east, n.south_west, n.south_east, n.is_empty), (1, 0, 0, 0, false));
    assert_eq!(c.find_or_create(0, 0, 0, 0), 0);
    assert_eq!(c.find_or_create(1, 1, 1, 1), 1);
}

#[test]
fn walk_marks_what_the_root_reaches() {
    let mut c = HashLifeCache::new();
    let a = c.find_or_create(TRUE_NODE, 0, 0, 0);
    let b = c.find_or_create(a, 0, 0, a);
    let d = c.find_or_create(0, TRUE_NODE, 0, 0);
    assert_eq!((a, b, d), (2, 3, 4));
    let empty: ahash::AHashMap<u64, u32> = ahash::AHashMap::new();
    assert_eq!(c.walk_tree_threaded(b, &empty, &empty), vec![1, 1, 1, 1, 0]);
    // From the all-alive node alone, the empty node is not reached.
    assert_eq!(c.walk_tree_threaded(TRUE_NODE, &empty, &empty), vec![0, 1, 0, 0, 0]);
}

#[test]
fn gc_frees_unreachable_nodes_for_reuse() {
    let mut c = HashLifeCache::new();
    let a = c.find_or_create(TRUE_NODE, 0, 0, 0);
    let b = c.find_or_create(a, 0, 0, a);
    let d = c.find_or_create(0, TRUE_NODE, 0, 0);
    let e = c.find_or_create(d, d, 0, 0);
    assert_eq!((d, e), (4, 5));
    let mut n1: ahash::AHashMap<u64, u32> = ahash::AHashMap::new();
    let mut n: ahash::AHashMap<u64, u32> = ahash::AHashMap::new();
    assert_eq!(c.gc(b, &mut n1, &mut n), 4);
    // The freed indices 4 and 5 are taken again before a fresh one.
    let f = c.find_or_create(0, 0, TRUE_NODE, 0);
    let g = c.find_or_create(0, 0, 0, TRUE_NODE);
    let h = c.find_or_create(f, g, 0, 0);
    let mut got = vec![f, g];
    got.sort();
    assert_eq!(got, vec![4, 5]);
    assert_eq!(h, 6);
    assert_eq!(c.find_or_create(a, 0, 0, a), b);
}

#[test]
fn from_flat_accepts_coordinates_past_two_to_the_63() {
    let base: u64 = (1u64 << 63) + 5;
    let cells: Vec<u128> = vec![
        coord_pack(base, base + 1),
        coord_pack(base + 1, base + 2),
        coord_pack(base + 2, base),
        coord_pack(base + 2, base + 1),
        coord_pack(base + 2, base + 2),
    ];
    let hf = HashLife::from_flat(&cells);
    let mut got = hf.to_flat();
    got.sort();
    let mut want = cells.clone();
    want.sort();
    assert_eq!(got, want);
    assert!(hf.get_cell(base + 2, base));
    assert!(!hf.get_cell(base, base));
}
