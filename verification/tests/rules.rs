use falling_sand::cells::{
    gravity, nudge, random_dir, update_cell, update_cell_with, Cell, Flips, GravityResult, IGNITION_HEAT,
};
use falling_sand::game::{prepare, GameState};

fn flips(left: bool, right: bool, up: bool, down: bool, tie: bool) -> Flips {
    Flips { left, right, up, down, tie }
}

/// Two grids of `size` blocks a side, all air, with no block dirty.
fn settled_pair(size: i32) -> (GameState, GameState) {
    let fresh = GameState::new(size);
    let mut a = GameState::new(size);
    let mut b = GameState::new(size);
    prepare(&fresh, &mut a);
    prepare(&fresh, &mut b);
    (a, b)
}

fn count(grid: &GameState, cell: Cell) -> usize {
    let side = grid.size() * 8;
    let mut n = 0;
    for y in 0..side {
        for x in 0..side {
            if grid.read_cell(x, y) == Ok(cell) {
                n += 1;
            }
        }
    }
    n
}

#[test]
fn no_flips_are_all_false() {
    assert_eq!(Flips::none(), flips(false, false, false, false, false));
    assert_eq!(IGNITION_HEAT, 30);
}

#[test]
fn nudge_moves_each_axis_by_its_two_flips() {
    for bits in 0..16 {
        let left = bits & 1 != 0;
        let right = bits & 2 != 0;
        let up = bits & 4 != 0;
        let down = bits & 8 != 0;
        let dx = (right as i32) - (left as i32);
        let dy = (down as i32) - (up as i32);
        assert_eq!(nudge(10, 20, flips(left, right, up, down, false)), (10 + dx, 20 + dy));
        assert_eq!(nudge(10, 20, flips(left, right, up, down, true)), (10 + dx, 20 + dy));
    }
}

#[test]
fn nudge_exact_values() {
    assert_eq!(nudge(5, 5, flips(true, false, false, false, false)), (4, 5));
    assert_eq!(nudge(5, 5, flips(false, true, false, false, false)), (6, 5));
    assert_eq!(nudge(5, 5, flips(false, false, true, false, false)), (5, 4));
    assert_eq!(nudge(5, 5, flips(false, false, false, true, false)), (5, 6));
    assert_eq!(nudge(5, 5, flips(true, true, true, true, false)), (5, 5));
    assert_eq!(nudge(0, 0, flips(true, false, true, false, false)), (-1, -1));
    assert_eq!(nudge(i32::MAX - 1, i32::MIN + 1, flips(false, true, true, false, false)), (i32::MAX, i32::MIN));
}

#[test]
fn random_dir_stays_next_to_the_cell() {
    let mut seen_other = false;
    let first = random_dir(3, -4);
    for _ in 0..400 {
        let (x, y) = random_dir(3, -4);
        assert!((2..=4).contains(&x));
        assert!((-5..=-3).contains(&y));
        if (x, y) != first {
            seen_other = true;
        }
    }
    assert!(seen_other);
}

#[test]
fn gravity_falls_straight_down_first() {
    let (read, mut write) = settled_pair(1);
    for right in [false, true] {
        let (_, mut w) = settled_pair(1);
        assert_eq!(gravity(Cell::Sand, 3, 3, right, &read, &mut w), GravityResult::Falling);
        assert_eq!(w.read_cell(3, 4), Ok(Cell::Sand));
        assert_eq!(count(&w, Cell::Sand), 1);
        assert!(w.get_block(0, 0).unwrap().is_dirty());
    }
    assert_eq!(gravity(Cell::Wood { fuel: 2 }, 0, 0, false, &read, &mut write), GravityResult::Falling);
    assert_eq!(write.read_cell(0, 1), Ok(Cell::Wood { fuel: 2 }));
    assert_eq!(write.read_cell(0, 0), Ok(Cell::Air));
}

#[test]
fn gravity_takes_the_diagonal_the_coin_picks() {
    let (mut read, _) = settled_pair(1);
    read.write_cell(Cell::Wood { fuel: 1 }, 3, 4, false).unwrap();
    let (_, mut left) = settled_pair(1);
    assert_eq!(gravity(Cell::Sand, 3, 3, false, &read, &mut left), GravityResult::Falling);
    assert_eq!(left.read_cell(2, 4), Ok(Cell::Sand));
    assert_eq!(count(&left, Cell::Sand), 1);
    let (_, mut right) = settled_pair(1);
    assert_eq!(gravity(Cell::Sand, 3, 3, true, &read, &mut right), GravityResult::Falling);
    assert_eq!(right.read_cell(4, 4), Ok(Cell::Sand));
    assert_eq!(count(&right, Cell::Sand), 1);
}

#[test]
fn gravity_does_not_try_the_other_diagonal() {
    let (mut read, _) = settled_pair(1);
    read.write_cell(Cell::Sand, 3, 4, false).unwrap();
    read.write_cell(Cell::Sand, 2, 4, false).unwrap();
    let (_, mut write) = settled_pair(1);
    // Right is free, but the coin picked left.
    assert_eq!(gravity(Cell::Sand, 3, 3, false, &read, &mut write), GravityResult::OnGround);
    assert_eq!(write.read_cell(3, 3), Ok(Cell::Sand));
    assert_eq!(write.read_cell(4, 4), Ok(Cell::Air));
    assert_eq!(count(&write, Cell::Sand), 1);
    assert!(!write.get_block(0, 0).unwrap().is_dirty());
}

#[test]
fn gravity_rests_when_boxed_in() {
    let (mut read, _) = settled_pair(1);
    read.write_cell(Cell::Sand, 2, 4, false).unwrap();
    read.write_cell(Cell::Wood { fuel: 9 }, 3, 4, false).unwrap();
    read.write_cell(Cell::Fire { heat: 1 }, 4, 4, false).unwrap();
    for right in [false, true] {
        let (_, mut write) = settled_pair(1);
        assert_eq!(gravity(Cell::Sand, 3, 3, right, &read, &mut write), GravityResult::OnGround);
        assert_eq!(write.read_cell(3, 3), Ok(Cell::Sand));
        assert_eq!(count(&write, Cell::Sand), 1);
        assert_eq!(count(&write, Cell::Air), 63);
        assert!(!write.get_block(0, 0).unwrap().is_dirty());
    }
}

#[test]
fn gravity_rests_on_the_floor() {
    let (read, _) = settled_pair(1);
    for right in [false, true] {
        let (_, mut write) = settled_pair(1);
        assert_eq!(gravity(Cell::Sand, 3, 7, right, &read, &mut write), GravityResult::OnGround);
        assert_eq!(write.read_cell(3, 7), Ok(Cell::Sand));
        assert!(!write.get_block(0, 0).unwrap().is_dirty());
    }
}

#[test]
fn gravity_does_not_leave_the_grid_sideways() {
    let (mut read, _) = settled_pair(1);
    read.write_cell(Cell::Sand, 0, 4, false).unwrap();
    read.write_cell(Cell::Sand, 7, 4, false).unwrap();
    let (_, mut write) = settled_pair(1);
    assert_eq!(gravity(Cell::Sand, 0, 3, false, &read, &mut write), GravityResult::OnGround);
    assert_eq!(gravity(Cell::Sand, 7, 3, true, &read, &mut write), GravityResult::OnGround);
    assert_eq!(write.read_cell(0, 3), Ok(Cell::Sand));
    assert_eq!(write.read_cell(7, 3), Ok(Cell::Sand));
    assert_eq!(count(&write, Cell::Sand), 2);
}

#[test]
fn gravity_avoids_a_place_already_taken() {
    let (read, mut write) = settled_pair(1);
    write.write_cell(Cell::Sand, 3, 4, true).unwrap();
    // Below is air in `read` but taken in `write`: the diagonal is next.
    assert_eq!(gravity(Cell::Sand, 3, 3, true, &read, &mut write), GravityResult::Falling);
    assert_eq!(write.read_cell(3, 4), Ok(Cell::Sand));
    assert_eq!(write.read_cell(4, 4), Ok(Cell::Sand));
    assert_eq!(write.read_cell(3, 3), Ok(Cell::Air));
    assert_eq!(count(&write, Cell::Sand), 2);
}

#[test]
fn gravity_at_the_end_of_the_integers() {
    let (read, mut write) = settled_pair(1);
    assert_eq!(gravity(Cell::Sand, 0, i32::MAX, true, &read, &mut write), GravityResult::OnGround);
    assert_eq!(gravity(Cell::Sand, i32::MAX, 0, true, &read, &mut write), GravityResult::OnGround);
    assert_eq!(gravity(Cell::Sand, i32::MIN, 0, false, &read, &mut write), GravityResult::OnGround);
    assert_eq!(count(&write, Cell::Air), 64);
    // From just above the grid a cell falls in.
    assert_eq!(gravity(Cell::Sand, 2, -1, true, &read, &mut write), GravityResult::Falling);
    assert_eq!(write.read_cell(2, 0), Ok(Cell::Sand));
}

#[test]
fn air_does_nothing() {
    let (read, mut write) = settled_pair(1);
    update_cell_with(&Cell::Air, 3, 3, flips(true, true, true, true, true), &read, &mut write);
    update_cell(&Cell::Air, 3, 3, &read, &mut write);
    assert_eq!(count(&write, Cell::Air), 64);
    assert!(!write.get_block(0, 0).unwrap().is_dirty());
}

#[test]
fn sand_rule_uses_tie_for_the_side() {
    let (mut read, _) = settled_pair(1);
    read.write_cell(Cell::Sand, 3, 3, false).unwrap();
    read.write_cell(Cell::Sand, 3, 4, false).unwrap();
    let (_, mut left) = settled_pair(1);
    update_cell_with(&Cell::Sand, 3, 3, flips(false, true, false, false, false), &read, &mut left);
    assert_eq!(left.read_cell(2, 4), Ok(Cell::Sand));
    let (_, mut right) = settled_pair(1);
    update_cell_with(&Cell::Sand, 3, 3, flips(true, false, false, false, true), &read, &mut right);
    assert_eq!(right.read_cell(4, 4), Ok(Cell::Sand));
}

#[test]
fn wood_without_fuel_becomes_air() {
    let (mut read, mut write) = settled_pair(1);
    read.write_cell(Cell::Wood { fuel: 0 }, 3, 3, false).unwrap();
    write.write_cell(Cell::Sand, 3, 3, false).unwrap();
    update_cell_with(&Cell::Wood { fuel: 0 }, 3, 3, Flips::none(), &read, &mut write);
    assert_eq!(write.read_cell(3, 3), Ok(Cell::Air));
    write.write_cell(Cell::Sand, 3, 3, false).unwrap();
    update_cell_with(&Cell::Wood { fuel: -5 }, 3, 3, Flips::none(), &read, &mut write);
    assert_eq!(write.read_cell(3, 3), Ok(Cell::Air));
    assert!(!write.get_block(0, 0).unwrap().is_dirty());
}

#[test]
fn wood_catches_from_the_chosen_neighbor_only() {
    let (mut read, _) = settled_pair(1);
    read.write_cell(Cell::Wood { fuel: 5 }, 5, 5, false).unwrap();
    read.write_cell(Cell::Fire { heat: 3 }, 6, 5, false).unwrap();
    let (_, mut lit) = settled_pair(1);
    update_cell_with(&Cell::Wood { fuel: 5 }, 5, 5, flips(false, true, false, false, false), &read, &mut lit);
    assert_eq!(lit.read_cell(5, 5), Ok(Cell::Fire { heat: 30 }));
    assert!(lit.get_block(0, 0).unwrap().is_dirty());
    assert_eq!(count(&lit, Cell::Air), 63);
    // Any other neighbor, the cell itself included, leaves the wood as it is.
    for bits in 0..16 {
        let f = flips(bits & 1 != 0, bits & 2 != 0, bits & 4 != 0, bits & 8 != 0, false);
        if nudge(5, 5, f) == (6, 5) {
            continue;
        }
        let (_, mut kept) = settled_pair(1);
        update_cell_with(&Cell::Wood { fuel: 5 }, 5, 5, f, &read, &mut kept);
        assert_eq!(kept.read_cell(5, 5), Ok(Cell::Wood { fuel: 5 }));
        assert!(!kept.get_block(0, 0).unwrap().is_dirty());
    }
}

#[test]
fn wood_at_the_edge_looks_outside_and_stays() {
    let (mut read, mut write) = settled_pair(1);
    read.write_cell(Cell::Wood { fuel: 2 }, 0, 0, false).unwrap();
    update_cell_with(&Cell::Wood { fuel: 2 }, 0, 0, flips(true, false, true, false, false), &read, &mut write);
    assert_eq!(write.read_cell(0, 0), Ok(Cell::Wood { fuel: 2 }));
}

#[test]
fn fire_without_heat_becomes_air() {
    let (read, mut write) = settled_pair(1);
    write.write_cell(Cell::Sand, 2, 2, false).unwrap();
    update_cell_with(&Cell::Fire { heat: 0 }, 2, 2, flips(false, true, false, false, true), &read, &mut write);
    assert_eq!(write.read_cell(2, 2), Ok(Cell::Air));
    assert_eq!(count(&write, Cell::Air), 64);
    assert!(!write.get_block(0, 0).unwrap().is_dirty());
}

#[test]
fn fire_moves_into_air_and_loses_one_or_two() {
    let (mut read, _) = settled_pair(1);
    read.write_cell(Cell::Fire { heat: 10 }, 2, 2, false).unwrap();
    let (_, mut one) = settled_pair(1);
    update_cell_with(&Cell::Fire { heat: 10 }, 2, 2, flips(false, true, false, true, false), &read, &mut one);
    assert_eq!(one.read_cell(3, 3), Ok(Cell::Fire { heat: 9 }));
    assert_eq!(one.read_cell(2, 2), Ok(Cell::Air));
    assert_eq!(count(&one, Cell::Air), 63);
    assert!(one.get_block(0, 0).unwrap().is_dirty());
    let (_, mut two) = settled_pair(1);
    update_cell_with(&Cell::Fire { heat: 10 }, 2, 2, flips(true, false, false, false, true), &read, &mut two);
    assert_eq!(two.read_cell(1, 2), Ok(Cell::Fire { heat: 8 }));
    assert_eq!(two.read_cell(2, 2), Ok(Cell::Air));
    assert_eq!(count(&two, Cell::Air), 63);
}

#[test]
fn fire_stays_and_loses_one_when_the_neighbor_is_not_air() {
    let (mut read, _) = settled_pair(1);
    read.write_cell(Cell::Fire { heat: 10 }, 0, 2, false).unwrap();
    read.write_cell(Cell::Sand, 1, 2, false).unwrap();
    // Towards sand, towards itself, and towards the outside.
    for f in [
        flips(false, true, false, false, true),
        flips(false, false, false, false, true),
        flips(true, true, true, true, false),
        flips(true, false, false, false, true),
    ] {
        let (_, mut write) = settled_pair(1);
        update_cell_with(&Cell::Fire { heat: 10 }, 0, 2, f, &read, &mut write);
        assert_eq!(write.read_cell(0, 2), Ok(Cell::Fire { heat: 9 }));
        assert_eq!(count(&write, Cell::Air), 63);
        assert!(write.get_block(0, 0).unwrap().is_dirty());
    }
}

#[test]
fn fire_of_heat_one_cools_to_zero() {
    let (mut read, mut write) = settled_pair(1);
    read.write_cell(Cell::Fire { heat: 1 }, 4, 4, false).unwrap();
    update_cell_with(&Cell::Fire { heat: 1 }, 4, 4, Flips::none(), &read, &mut write);
    assert_eq!(write.read_cell(4, 4), Ok(Cell::Fire { heat: 0 }));
    let (_, mut moved) = settled_pair(1);
    update_cell_with(&Cell::Fire { heat: 1 }, 4, 4, flips(false, false, true, false, true), &read, &mut moved);
    assert_eq!(moved.read_cell(4, 3), Ok(Cell::Fire { heat: -1 }));
}

#[test]
fn rules_outside_the_grid_store_nothing() {
    let (read, mut write) = settled_pair(1);
    let all = flips(true, false, true, false, true);
    update_cell_with(&Cell::Wood { fuel: 1 }, 40, 40, all, &read, &mut write);
    update_cell_with(&Cell::Fire { heat: 5 }, -3, 2, all, &read, &mut write);
    update_cell_with(&Cell::Fire { heat: 5 }, i32::MAX, i32::MAX, all, &read, &mut write);
    update_cell_with(&Cell::Wood { fuel: 5 }, i32::MIN, i32::MIN, all, &read, &mut write);
    update_cell_with(&Cell::Sand, i32::MIN, i32::MAX, all, &read, &mut write);
    update_cell(&Cell::Fire { heat: 5 }, i32::MAX, i32::MIN, &read, &mut write);
    assert_eq!(count(&write, Cell::Air), 64);
    assert!(!write.get_block(0, 0).unwrap().is_dirty());
}

#[test]
fn random_rule_gives_one_of_the_outcomes() {
    let (mut read, _) = settled_pair(1);
    read.write_cell(Cell::Fire { heat: 10 }, 3, 3, false).unwrap();
    let mut moved = false;
    let mut stayed = false;
    for _ in 0..400 {
        let (_, mut write) = settled_pair(1);
        update_cell(&Cell::Fire { heat: 10 }, 3, 3, &read, &mut write);
        assert_eq!(count(&write, Cell::Air), 63);
        if write.read_cell(3, 3) == Ok(Cell::Fire { heat: 9 }) {
            stayed = true;
        } else {
            moved = true;
            let mut found = 0;
            for y in 2..=4 {
                for x in 2..=4 {
                    let cell = write.read_cell(x, y).unwrap();
                    if cell != Cell::Air {
                        assert!(cell == Cell::Fire { heat: 9 } || cell == Cell::Fire { heat: 8 });
                        found += 1;
                    }
                }
            }
            assert_eq!(found, 1);
        }
    }
    assert!(moved && stayed);
}

#[test]
fn random_sand_falls_when_it_can() {
    let (mut read, _) = settled_pair(1);
    read.write_cell(Cell::Sand, 3, 3, false).unwrap();
    for _ in 0..20 {
        let (_, mut write) = settled_pair(1);
        update_cell(&Cell::Sand, 3, 3, &read, &mut write);
        assert_eq!(write.read_cell(3, 4), Ok(Cell::Sand));
        assert_eq!(count(&write, Cell::Sand), 1);
    }
}

#[test]
fn gravity_wakes_the_block_up_and_away_from_the_coin() {
    let (read, _) = settled_pair(2);
    // Straight down from (8, 8) with the coin on the right: wakes (7, 7).
    let (_, mut w) = settled_pair(2);
    assert_eq!(gravity(Cell::Sand, 8, 8, true, &read, &mut w), GravityResult::Falling);
    assert_eq!(w.read_cell(8, 9), Ok(Cell::Sand));
    assert!(w.get_block(1, 1).unwrap().is_dirty());
    assert!(w.get_block(0, 0).unwrap().is_dirty());
    assert!(!w.get_block(1, 0).unwrap().is_dirty());
    assert!(!w.get_block(0, 1).unwrap().is_dirty());
    // With the coin on the left: wakes (9, 7).
    let (_, mut w) = settled_pair(2);
    assert_eq!(gravity(Cell::Sand, 8, 8, false, &read, &mut w), GravityResult::Falling);
    assert!(w.get_block(1, 1).unwrap().is_dirty());
    assert!(w.get_block(1, 0).unwrap().is_dirty());
    assert!(!w.get_block(0, 0).unwrap().is_dirty());
    assert!(!w.get_block(0, 1).unwrap().is_dirty());
    assert_eq!(count(&w, Cell::Sand), 1);
    assert_eq!(count(&w, Cell::Air), 255);
}

#[test]
fn gravity_wakes_on_a_diagonal_fall_too() {
    let (mut read, _) = settled_pair(2);
    read.write_cell(Cell::Wood { fuel: 1 }, 7, 8, false).unwrap();
    let (_, mut w) = settled_pair(2);
    // Down is taken; the coin picks right: falls to (8, 8), wakes (6, 6).
    assert_eq!(gravity(Cell::Sand, 7, 7, true, &read, &mut w), GravityResult::Falling);
    assert_eq!(w.read_cell(8, 8), Ok(Cell::Sand));
    assert!(w.get_block(1, 1).unwrap().is_dirty());
    assert!(w.get_block(0, 0).unwrap().is_dirty());
    assert!(!w.get_block(1, 0).unwrap().is_dirty());
    assert!(!w.get_block(0, 1).unwrap().is_dirty());
}

#[test]
fn gravity_wakes_no_cell_outside_the_grid() {
    let (read, _) = settled_pair(2);
    let (_, mut w) = settled_pair(2);
    // From (0, 7) with the coin on the right the cell to wake is (-1, 6).
    assert_eq!(gravity(Cell::Sand, 0, 7, true, &read, &mut w), GravityResult::Falling);
    assert!(w.get_block(0, 1).unwrap().is_dirty());
    assert!(!w.get_block(0, 0).unwrap().is_dirty());
    // From the top row the cell to wake lies above the grid.
    let (_, mut top) = settled_pair(2);
    assert_eq!(gravity(Cell::Sand, 12, 0, false, &read, &mut top), GravityResult::Falling);
    assert!(top.get_block(1, 0).unwrap().is_dirty());
    assert!(!top.get_block(0, 0).unwrap().is_dirty());
    assert!(!top.get_block(0, 1).unwrap().is_dirty());
    assert!(!top.get_block(1, 1).unwrap().is_dirty());
}
