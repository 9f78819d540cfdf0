use std::collections::HashMap;
use std::collections::HashSet;

use game_of_life::actions::Action;
use game_of_life::bloom::BloomFilter;
use game_of_life::coord::Coord;
use game_of_life::export::export_rle;
use game_of_life::grid::Grid;
use game_of_life::step::tile_key;

fn cells_of(g: &Grid) -> HashSet<(u32, u32)> {
    g.alive.iter().map(|&k| Coord::unpack(k)).collect()
}

/// One generation of Life on a plain set of cells.
fn life_step(alive: &HashSet<(u32, u32)>) -> HashSet<(u32, u32)> {
    let mut counts: HashMap<(u32, u32), u32> = HashMap::new();
    for &(x, y) in alive {
        for dy in -1i64..=1 {
            for dx in -1i64..=1 {
                if dx == 0 && dy == 0 {
                    continue;
                }
                let n = ((x as i64 + dx) as u32, (y as i64 + dy) as u32);
                *counts.entry(n).or_insert(0) += 1;
            }
        }
    }
    let mut next = HashSet::new();
    for (&c, &n) in &counts {
        if n == 3 || (n == 2 && alive.contains(&c)) {
            next.insert(c);
        }
    }
    next
}

fn load(g: &mut Grid, cells: &[(i64, i64)], ax: i64, ay: i64) {
    g.load_pattern(cells, ax, ay);
}

fn run_against_reference(cells: &[(i64, i64)], at: i64, gens: usize) {
    let mut g = Grid::new();
    load(&mut g, cells, at, at);
    let mut reference: HashSet<(u32, u32)> = cells.iter().map(|&(x, y)| ((x + at) as u32, (y + at) as u32)).collect();
    assert_eq!(cells_of(&g), reference);
    for gen in 0..gens {
        g.step();
        reference = life_step(&reference);
        assert_eq!(cells_of(&g), reference, "generation {}", gen + 1);
        assert_eq!(g.generation as usize, gen + 1);
    }
}

#[test]
fn grid_blinker_oscillates() {
    run_against_reference(&[(0, 0), (1, 0), (2, 0)], 1000, 6);
}

#[test]
fn grid_glider_matches_reference() {
    run_against_reference(&[(1, 0), (2, 1), (0, 2), (1, 2), (2, 2)], 1002, 40);
}

#[test]
fn grid_r_pentomino_matches_reference() {
    run_against_reference(&[(1, 0), (2, 0), (0, 1), (1, 1), (1, 2)], 1002, 120);
}

#[test]
fn grid_small_patterns_follow_life() {
    // Patterns whose cells mark only a few tiles still step by B3/S23.
    run_against_reference(&[(1, 0), (2, 1), (0, 2), (1, 2), (2, 2)], 1000, 12);
    let mut g = Grid::new();
    g.toggle(2_000_000_010, 2_000_000_010);
    g.step();
    assert!(g.alive.is_empty());
    assert!(!g.contains_alive(Grid::k(2_000_000_010, 2_000_000_010)));
    assert_eq!(g.generation, 1);
}

#[test]
fn grid_block_is_still() {
    let mut g = Grid::new();
    load(&mut g, &[(0, 0), (1, 0), (0, 1), (1, 1)], 500, 500);
    let before = cells_of(&g);
    for _ in 0..5 {
        g.step();
    }
    assert_eq!(cells_of(&g), before);
    assert_eq!(g.births, 0);
    assert_eq!(g.deaths, 0);
}

#[test]
fn grid_blinker_counts_births_and_deaths() {
    let mut g = Grid::new();
    load(&mut g, &[(0, 0), (1, 0), (2, 0)], 100, 100);
    g.step();
    assert_eq!(g.births, 2);
    assert_eq!(g.deaths, 2);
    assert_eq!(g.alive.len(), 3);
}

#[test]
fn grid_toggle_flips_a_cell() {
    let mut g = Grid::new();
    g.toggle(10, 20);
    assert!(g.contains_alive(Grid::k(10, 20)));
    g.toggle(10, 20);
    assert!(!g.contains_alive(Grid::k(10, 20)));
    assert_eq!(g.alive.len(), 0);
}

#[test]
fn grid_clear_resets_everything() {
    let mut g = Grid::new();
    load(&mut g, &[(0, 0), (1, 0), (2, 0)], 100, 100);
    g.step();
    g.clear();
    assert_eq!(g.alive.len(), 0);
    assert_eq!(g.generation, 0);
    assert!(g.active_tiles.is_empty());
}

#[test]
fn grid_insert_remove_keep_index() {
    let mut g = Grid::new();
    for i in 0..10u32 {
        g.insert_alive(Grid::k(i + 5, 7));
    }
    g.remove_alive(Grid::k(8, 7));
    g.remove_alive(Grid::k(14, 7));
    assert_eq!(g.alive.len(), 8);
    for (i, &k) in g.alive.iter().enumerate() {
        assert_eq!(g.alive_index[&k], i);
    }
    assert!(!g.contains_alive(Grid::k(8, 7)));
}

#[test]
fn grid_mark_active_edge_cell() {
    let mut tiles = HashSet::new();
    // (7, 4): x at a tile's right edge, y at a tile's top edge.
    Grid::mark_active(Grid::k(7, 4), &mut tiles);
    let expected: HashSet<u64> = [Grid::k(4, 4), Grid::k(8, 4), Grid::k(4, 0), Grid::k(8, 0)].into_iter().collect();
    assert_eq!(tiles, expected);
}

#[test]
fn grid_mod_tile_and_tile_key() {
    assert_eq!(Grid::mod_tile(Grid::k(13, 22)), (1, 2));
    assert_eq!(tile_key(Grid::k(13, 22)), Grid::k(12, 20));
    assert_eq!(Grid::unpack(Grid::k(0xDEAD, 0xBEEF)), (0xDEAD, 0xBEEF));
}

#[test]
fn bloom_has_no_false_negatives() {
    let mut b = BloomFilter::empty();
    b.resize(100);
    let keys: Vec<u64> = (0..100u32).map(|i| Grid::k(i * 7 + 3, i * 13 + 1)).collect();
    for &k in &keys {
        b.insert(k);
    }
    for &k in &keys {
        assert!(b.contains(k));
    }
    // 8 * 100 bits rounded up to a power of two.
    assert_eq!(b.size_bits, 1024);
    assert_eq!(b.bits.len(), 16);
}

#[test]
fn bloom_without_storage_answers_no() {
    let mut b = BloomFilter::empty();
    b.insert(Grid::k(1, 2));
    assert!(!b.contains(Grid::k(1, 2)));
    b.resize(0);
    assert_eq!(b.size_bits, 0);
}

#[test]
fn grid_snapshot_header_and_bits() {
    let mut g = Grid::new();
    load(&mut g, &[(0, 0), (1, 0), (2, 0)], 10, 20);
    let snap = g.snapshot(8, 18, 16, 8, 1);
    let field = |i: usize| u32::from_be_bytes([snap[4 * i], snap[4 * i + 1], snap[4 * i + 2], snap[4 * i + 3]]);
    assert_eq!(field(0), 0);
    assert_eq!(field(1), 16);
    assert_eq!(field(2), 8);
    assert_eq!(field(3), 3);
    assert_eq!(field(5), 16);
    assert_eq!(field(10), 1);
    assert_eq!(field(11), 0);
    assert_eq!(snap.len(), 48 + 16 + 16);
    let bits = &snap[48..64];
    // cells (10,20),(11,20),(12,20) -> row 2, columns 2..5 -> bits 34, 35, 36
    let mut expected = vec![0u8; 16];
    for p in [34usize, 35, 36] {
        expected[p >> 3] |= 1 << (p & 7);
    }
    assert_eq!(bits, &expected[..]);
}

#[test]
fn grid_snapshot_scaled() {
    let mut g = Grid::new();
    load(&mut g, &[(0, 0), (5, 5)], 100, 100);
    let snap = g.snapshot(100, 100, 8, 8, 4);
    let field = |i: usize| u32::from_be_bytes([snap[4 * i], snap[4 * i + 1], snap[4 * i + 2], snap[4 * i + 3]]);
    assert_eq!(field(1), 2);
    assert_eq!(field(2), 2);
    assert_eq!(field(5), 1);
    // squares (0,0) and (1,1) of a 2x2 map -> bits 0 and 3
    assert_eq!(snap[48], 0b1001);
}

#[test]
fn export_rle_of_glider() {
    let cells = vec![(1u64, 0u64), (2, 1), (0, 2), (1, 2), (2, 2)];
    assert_eq!(export_rle(&cells), "x = 3, y = 3, rule = B3/S23\nbob$2bo$3o$!");
}

#[test]
fn export_rle_empty_and_long_runs() {
    assert_eq!(export_rle(&[]), "b!");
    let cells = vec![(0u64, 0u64), (11, 0)];
    assert_eq!(export_rle(&cells), "x = 12, y = 1, rule = B3/S23\no10bo$!");
}

#[test]
fn grid_export_pattern_uses_rle() {
    let mut g = Grid::new();
    load(&mut g, &[(0, 0), (1, 0), (2, 0)], 10, 20);
    assert_eq!(g.export_pattern().unwrap(), "x = 3, y = 1, rule = B3/S23\n3o$!");
}

#[test]
fn actions_step_and_toggle_engine() {
    let mut g = Grid::new();
    load(&mut g, &[(0, 0), (1, 0), (2, 0)], 1000, 1000);
    g.apply_action(Action::Step);
    assert_eq!(g.generation, 1);
    let expected: HashSet<(u32, u32)> = [(1001, 999), (1001, 1000), (1001, 1001)].into_iter().collect();
    assert_eq!(cells_of(&g), expected);
    g.apply_action(Action::ToggleHashlife);
    assert!(g.hashlife_mode);
    assert!(g.hashlife.is_some());
    g.apply_action(Action::BatchStep(3));
    assert_eq!(g.generation, 4);
    g.apply_action(Action::ToggleHashlife);
    assert!(!g.hashlife_mode);
    assert!(g.hashlife.is_none());
    let back: HashSet<(u32, u32)> = [(1000, 1000), (1001, 1000), (1002, 1000)].into_iter().collect();
    assert_eq!(cells_of(&g), back);
    g.apply_action(Action::BatchStep(2));
    assert_eq!(cells_of(&g), back);
    g.apply_action(Action::Clear);
    assert_eq!(g.alive.len(), 0);
    assert_eq!(g.generation, 0);
}

#[test]
fn actions_load_cells_skips_duplicates() {
    let mut g = Grid::new();
    g.load_cells(&[(0, 0), (0, 0), (1, 0)], 50, 50);
    assert_eq!(g.alive.len(), 2);
    g.load_cells(&[(1, 0), (2, 0)], 50, 50);
    assert_eq!(g.alive.len(), 3);
}

#[test]
fn grid_can_snapshot_a_plain_viewport() {
    let mut g = Grid::new();
    load(&mut g, &[(0, 0), (1, 0), (2, 0)], 100, 100);
    assert!(g.can_snapshot(90, 90, 530, 300));
}

#[test]
fn bloom_sizes_round_up_to_a_power_of_two() {
    let mut b = BloomFilter::empty();
    b.resize(1);
    assert_eq!((b.size_bits, b.bits.len()), (64, 1));
    b.resize(16);
    assert_eq!((b.size_bits, b.bits.len()), (128, 2));
    b.resize(17);
    assert_eq!((b.size_bits, b.bits.len()), (256, 4));
    b.insert(Grid::k(5, 5));
    assert!(b.contains(Grid::k(5, 5)));
}

#[test]
fn grid_remove_alive_moves_last_cell_into_slot() {
    let mut g = Grid::new();
    for i in 0..5u32 {
        g.insert_alive(Grid::k(i + 10, 3));
    }
    g.remove_alive(Grid::k(11, 3));
    let expected = vec![Grid::k(10, 3), Grid::k(14, 3), Grid::k(12, 3), Grid::k(13, 3)];
    assert_eq!(g.alive, expected);
    g.remove_alive(Grid::k(13, 3));
    assert_eq!(g.alive, vec![Grid::k(10, 3), Grid::k(14, 3), Grid::k(12, 3)]);
}

#[test]
fn grid_toggle_and_load_keep_counters() {
    let mut g = Grid::new();
    load(&mut g, &[(0, 0), (1, 0), (2, 0)], 100, 100);
    g.step();
    assert_eq!((g.births, g.deaths), (2, 2));
    g.toggle(300, 300);
    assert_eq!((g.births, g.deaths), (2, 2));
    let before = g.alive.clone();
    g.load_pattern(&[(0, 0), (5, 5)], 400, 400);
    assert_eq!((g.births, g.deaths), (2, 2));
    let mut expected = before;
    expected.push(Grid::k(400, 400));
    expected.push(Grid::k(405, 405));
    assert_eq!(g.alive, expected);
}

#[test]
fn grid_clear_resets_filter_sizes() {
    let mut g = Grid::new();
    load(&mut g, &[(0, 0), (1, 0), (2, 0)], 100, 100);
    assert!(g.active_bloom.size_bits > 0);
    g.clear();
    assert_eq!(g.active_bloom.size_bits, 0);
    assert_eq!(g.expanded_bloom.size_bits, 0);
    assert!(g.active_bloom.bits.is_empty());
    assert!(g.expanded_bloom.bits.is_empty());
}

#[test]
fn actions_batch_step_follows_life() {
    // A glider run through single steps and batches matches Life throughout.
    let cells = [(1i64, 0i64), (2, 1), (0, 2), (1, 2), (2, 2)];
    let mut g = Grid::new();
    load(&mut g, &cells, 5000, 5000);
    let mut reference: HashSet<(u32, u32)> = cells.iter().map(|&(x, y)| ((x + 5000) as u32, (y + 5000) as u32)).collect();
    for batch in [1u64, 3, 4, 7] {
        g.apply_action(Action::BatchStep(batch));
        for _ in 0..batch {
            reference = life_step(&reference);
        }
        assert_eq!(cells_of(&g), reference);
    }
    assert_eq!(g.generation, 15);
    g.apply_action(Action::Step);
    reference = life_step(&reference);
    assert_eq!(cells_of(&g), reference);
}

#[test]
fn actions_engine_switch_keeps_the_cells() {
    let cells = [(1i64, 0i64), (2, 1), (0, 2), (1, 2), (2, 2), (40, 7)];
    let mut g = Grid::new();
    load(&mut g, &cells, 3000, 3000);
    let before = cells_of(&g);
    g.apply_action(Action::ToggleHashlife);
    assert!(g.hashlife_mode);
    g.apply_action(Action::ToggleHashlife);
    assert!(!g.hashlife_mode);
    assert_eq!(cells_of(&g), before);
}

#[test]
fn grid_randomize_places_drawn_cells_once() {
    let mut g = Grid::new();
    load(&mut g, &[(0, 0)], 10, 10);
    let picks = [(0i64, 0i64), (1, 2), (0, 0), (-3, 1)];
    assert!(g.randomize(100, 200, &picks));
    assert_eq!(g.alive, vec![Grid::k(100, 200), Grid::k(101, 202), Grid::k(97, 201)]);
    assert_eq!(g.generation, 0);
    assert!(!g.contains_alive(Grid::k(10, 10)));
    // A cell on the plane's edge is refused and nothing changes.
    let kept = g.alive.clone();
    assert!(!g.randomize(0, 5, &[(0, 0)]));
    assert_eq!(g.alive, kept);
}

#[test]
fn grid_steps_cells_next_to_the_edge() {
    // A lone cell one cell from the plane's edge dies like any other.
    let mut g = Grid::new();
    g.toggle(1, 500);
    g.apply_action(Action::Step);
    assert!(g.alive.is_empty());
    assert_eq!(g.generation, 1);
    // A blinker lying along the edge column oscillates.
    let mut g = Grid::new();
    load(&mut g, &[(1, 0), (1, 1), (1, 2)], 1, 700);
    g.step();
    assert_eq!(g.generation, 1);
    let expected: HashSet<(u32, u32)> = [(1, 701), (2, 701), (3, 701)].into_iter().collect();
    assert_eq!(cells_of(&g), expected);
}

#[test]
fn grid_step_refused_when_an_edge_cell_would_be_born() {
    let mut g = Grid::new();
    load(&mut g, &[(0, 0), (0, 1), (0, 2)], 1, 300);
    let before = cells_of(&g);
    g.apply_action(Action::Step);
    assert_eq!(g.generation, 0);
    assert_eq!(cells_of(&g), before);
}
