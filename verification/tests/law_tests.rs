use std::collections::HashMap;
use std::collections::HashSet;

use game_of_life::hashlife::coord_pack;
use game_of_life::hashlife::coord_unpack;
use game_of_life::hashlife::grid_to_hashlife;
use game_of_life::hashlife::hashlife_to_grid;
use game_of_life::hashlife::life::floor_log2;
use game_of_life::hashlife::life::hit_rate_permille;
use game_of_life::hashlife::life::next_power_of2;
use game_of_life::hashlife::life::unwrap_i64;
use game_of_life::hashlife::life::wrap_i64;
use game_of_life::hashlife::life::HashLife;

fn cells_of(h: &HashLife) -> HashSet<(u64, u64)> {
    h.to_flat().into_iter().map(coord_unpack).collect()
}

/// One generation of Life on a plain set of cells (no wrap-around needed here).
fn life_step(alive: &HashSet<(u64, u64)>) -> HashSet<(u64, u64)> {
    let mut counts: HashMap<(u64, u64), u32> = HashMap::new();
    for &(x, y) in alive {
        for dy in -1i64..=1 {
            for dx in -1i64..=1 {
                if dx == 0 && dy == 0 {
                    continue;
                }
                let n = ((x as i64 + dx) as u64, (y as i64 + dy) as u64);
                *counts.entry(n).or_insert(0) += 1;
            }
        }
    }
    let mut next = HashSet::new();
    for (&c, &n) in &counts {
        if n == 3 || (n == 2 && alive.contains(&c)) {
            next.insert(c);
        }
    }
    next
}

fn universe(cells: &[(u64, u64)]) -> HashLife {
    let packed: Vec<u128> = cells.iter().map(|&(x, y)| coord_pack(x, y)).collect();
    HashLife::from_flat(&packed)
}

#[test]
fn hashlife_r_pentomino_steps_follow_life() {
    let start = [(501u64, 500u64), (502, 500), (500, 501), (501, 501), (501, 502)];
    let mut h = universe(&start);
    let mut reference: HashSet<(u64, u64)> = start.iter().copied().collect();
    for gen in 0..60 {
        h.step();
        reference = life_step(&reference);
        assert_eq!(cells_of(&h), reference, "generation {}", gen + 1);
    }
}

#[test]
fn hashlife_from_flat_to_flat_round_trip() {
    let cells = [(7u64, 9u64), (8, 9), (40, 3), (41, 60), (100, 100), (12, 77)];
    let h = universe(&cells);
    let expected: HashSet<(u64, u64)> = cells.iter().copied().collect();
    assert_eq!(cells_of(&h), expected);
    assert_eq!(h.to_flat().len(), cells.len());
}

#[test]
fn hashlife_set_cell_then_get_cell() {
    let mut h = universe(&[(50, 50), (51, 50), (52, 50)]);
    h.set_cell(60, 45, true);
    assert!(h.get_cell(60, 45));
    h.set_cell(51, 50, false);
    assert!(!h.get_cell(51, 50));
    assert!(h.get_cell(50, 50));
    let expected: HashSet<(u64, u64)> = [(50, 50), (52, 50), (60, 45)].into_iter().collect();
    assert_eq!(cells_of(&h), expected);
}

#[test]
fn hashlife_set_cell_on_empty_universe() {
    let mut h = HashLife::new();
    assert!(h.is_empty());
    h.set_cell(3, 4, false);
    assert!(h.is_empty());
    h.set_cell(3, 4, true);
    assert!(h.get_cell(3, 4));
    assert_eq!(h.to_flat(), vec![coord_pack(3, 4)]);
}

#[test]
fn hashlife_export_mc_header() {
    let h = universe(&[(10, 10), (11, 10), (12, 10)]);
    let text = h.export_mc();
    assert!(text.starts_with("[M2]\nCells=3\n# origin = 0 0\n"), "{}", text);
    assert!(text.contains("# root = "));
    assert!(text.ends_with("\n"));
    let empty = HashLife::new().export_mc();
    assert_eq!(empty, "[M2]\nCells=0\n");
}

#[test]
fn coord_pack_and_unpack_are_inverse() {
    for &(x, y) in &[(0u64, 0u64), (1, 2), (u64::MAX, 7), (0xDEAD_BEEF, u64::MAX)] {
        assert_eq!(coord_unpack(coord_pack(x, y)), (x, y));
    }
    assert_eq!(coord_pack(1, 2), 1u128 + (2u128 << 64));
}

#[test]
fn grid_and_hashlife_coordinates_round_trip() {
    for &(x, y) in &[(0u64, 0u64), (5, 9), (u64::MAX, 3), (1 << 40, 1 << 63)] {
        let (hx, hy) = grid_to_hashlife(x, y);
        assert_eq!(hashlife_to_grid(hx, hy), (x, y));
    }
}

#[test]
fn wrap_and_unwrap_i64() {
    assert_eq!(wrap_i64(-1), u64::MAX);
    assert_eq!(wrap_i64(i64::MIN), 1u64 << 63);
    assert_eq!(wrap_i64(42), 42);
    for &v in &[0i64, -5, i64::MAX, i64::MIN, 123456789] {
        assert_eq!(unwrap_i64(wrap_i64(v)), v);
    }
}

#[test]
fn power_and_logarithm_helpers() {
    assert_eq!(floor_log2(1), 0);
    assert_eq!(floor_log2(1023), 9);
    assert_eq!(floor_log2(1024), 10);
    assert_eq!(next_power_of2(0), (1, 0));
    assert_eq!(next_power_of2(5), (8, 3));
    assert_eq!(next_power_of2(64), (64, 6));
    assert_eq!(hit_rate_permille(1, 3), 333);
    assert_eq!(hit_rate_permille(2, 3), 667);
    assert_eq!(hit_rate_permille(5, 5), 1000);
}

#[test]
fn hashlife_step_n_zero_leaves_universe() {
    let start = [(100u64, 100u64), (101, 100), (102, 100), (102, 99), (101, 98)];
    let mut h = universe(&start);
    h.step_n(0);
    let expected: HashSet<(u64, u64)> = start.iter().copied().collect();
    assert_eq!(cells_of(&h), expected);
}

#[test]
fn hashlife_step_n_follows_life_for_glider_and_r_pentomino() {
    let glider = [(201u64, 200u64), (202, 201), (200, 202), (201, 202), (202, 202)];
    let r_pentomino = [(501u64, 500u64), (502, 500), (500, 501), (501, 501), (501, 502)];
    for (start, gens) in [(&glider[..], 37u32), (&r_pentomino[..], 50u32)] {
        let mut h = universe(start);
        h.step_n(gens);
        let mut reference: HashSet<(u64, u64)> = start.iter().copied().collect();
        for _ in 0..gens {
            reference = life_step(&reference);
        }
        assert_eq!(cells_of(&h), reference, "{} generations", gens);
        assert_eq!(h.last_step_count, gens);
    }
}
