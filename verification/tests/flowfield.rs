use battlefield::flowfield::{FlowField, UNREACHABLE};
use battlefield::grid::{Grid, TileKind};

#[test]
fn directions_point_toward_goal_on_clear_grid() {
    let grid = Grid::new_grass(16, 16);
    let ff = FlowField::generate(&grid, 8, 8);
    // Cell to the left of goal should point right
    assert_eq!(ff.direction_at(7, 8), (1, 0));
    // Cell above goal should point down
    assert_eq!(ff.direction_at(8, 7), (0, 1));
    // Cell diagonal should point diagonally
    assert_eq!(ff.direction_at(7, 7), (1, 1));
    // Goal itself should be (0, 0)
    assert_eq!(ff.direction_at(8, 8), (0, 0));
}

#[test]
fn routes_around_impassable_wall() {
    let mut grid = Grid::new_grass(16, 16);
    // Wall of water blocking direct horizontal path at x=5, y=0..6
    for y in 0..6 {
        grid.set(5, y, TileKind::Water);
    }
    let ff = FlowField::generate(&grid, 8, 3);
    // Cell at (4, 3) can't go right (wall at 5,3), should route around
    let dir = ff.direction_at(4, 3);
    // Should not point directly right into the wall
    assert_ne!(dir, (1, 0));
    // Should still be reachable
    assert_ne!(ff.cost_at(4, 3), u32::MAX);
}

#[test]
fn unreachable_cell_returns_zero() {
    let mut grid = Grid::new_grass(8, 8);
    // Surround cell (5, 4) with water
    for x in 4..7 {
        grid.set(x, 3, TileKind::Water);
        grid.set(x, 5, TileKind::Water);
    }
    grid.set(4, 4, TileKind::Water);
    grid.set(6, 4, TileKind::Water);
    // Goal is outside the pocket
    let ff = FlowField::generate(&grid, 0, 0);
    assert_eq!(ff.direction_at(5, 4), (0, 0));
    assert_eq!(ff.cost_at(5, 4), u32::MAX);
}

#[test]
fn forest_cells_have_higher_integration_cost() {
    let mut grid = Grid::new_grass(16, 16);
    // Path through forest at (5, 8)
    grid.set(5, 8, TileKind::Forest);
    let ff = FlowField::generate(&grid, 8, 8);
    // Grass cell at same distance
    let grass_cost = ff.cost_at(5, 8);
    // Compare to a grass cell at symmetric position
    let sym_cost = ff.cost_at(11, 8);
    // Forest should cost more (movement_cost=2 vs 1 for grass)
    assert!(grass_cost > sym_cost);
}

#[test]
fn multi_source_routes_to_nearest_goal() {
    let grid = Grid::new_grass(16, 16);
    // Two equal-weight goals: left (2, 8) and right (13, 8)
    let ff = FlowField::generate_multi_source(&grid, &[(2, 8, 0), (13, 8, 0)]);
    // Cell at (3, 8) is 1 tile from left goal — should point left
    assert_eq!(ff.direction_at(3, 8), (-1, 0));
    // Cell at (12, 8) is 1 tile from right goal — should point right
    assert_eq!(ff.direction_at(12, 8), (1, 0));
    // Both goal cells themselves are (0, 0)
    assert_eq!(ff.direction_at(2, 8), (0, 0));
    assert_eq!(ff.direction_at(13, 8), (0, 0));
}

#[test]
fn multi_source_score_biases_routing() {
    let grid = Grid::new_grass(20, 10);
    // Goal A at (2, 5) initial_cost=0 (high priority)
    // Goal B at (17, 5) initial_cost=50 (low priority)
    // Cell at (10, 5): 8 tiles from A (cost ~16), 7 tiles from B (cost ~14 + 50 = 64)
    // Net: should flow toward A despite being slightly closer to B in raw distance
    let ff = FlowField::generate_multi_source(&grid, &[(2, 5, 0), (17, 5, 50)]);
    let dir = ff.direction_at(10, 5);
    assert_eq!(
        dir,
        (-1, 0),
        "score bias should redirect toward higher-priority goal A"
    );
}

#[test]
fn exact_costs_on_open_grass() {
    let grid = Grid::new_grass(10, 10);
    let ff = FlowField::generate(&grid, 0, 0);
    assert_eq!(ff.cost_at(0, 0), 0);
    // Three cardinal steps of cost 2.
    assert_eq!(ff.cost_at(3, 0), 6);
    // Two diagonal steps of cost 3.
    assert_eq!(ff.cost_at(2, 2), 6);
    // One diagonal and two cardinal steps.
    assert_eq!(ff.cost_at(3, 1), 7);
}

#[test]
fn forest_entry_costs_double() {
    let mut grid = Grid::new_grass(4, 1);
    grid.set(1, 0, TileKind::Forest);
    let ff = FlowField::generate(&grid, 0, 0);
    // Entering forest: 2 * 2, then grass: 2.
    assert_eq!(ff.cost_at(1, 0), 4);
    assert_eq!(ff.cost_at(2, 0), 6);
}

#[test]
fn out_of_grid_queries_are_neutral() {
    let grid = Grid::new_grass(4, 4);
    let ff = FlowField::generate(&grid, 1, 1);
    assert_eq!(ff.cost_at(4, 0), UNREACHABLE);
    assert_eq!(ff.direction_at(0, 9), (0, 0));
}

#[test]
fn impassable_goal_is_ignored() {
    let mut grid = Grid::new_grass(5, 5);
    grid.set(2, 2, TileKind::Rock);
    let ff = FlowField::generate(&grid, 2, 2);
    for y in 0..5 {
        for x in 0..5 {
            assert_eq!(ff.cost_at(x, y), UNREACHABLE);
            assert_eq!(ff.direction_at(x, y), (0, 0));
        }
    }
}

#[test]
fn diagonal_corner_cutting_is_blocked() {
    let mut grid = Grid::new_grass(3, 3);
    grid.set(1, 0, TileKind::Water);
    let ff = FlowField::generate(&grid, 0, 0);
    // (1, 1) may not cut the corner past the water at (1, 0): it must go left
    // and then up (2 + 2) instead of one diagonal step (3).
    assert_eq!(ff.cost_at(1, 1), 4);
    assert_eq!(ff.direction_at(1, 1), (-1, 0));
}

#[test]
fn following_directions_reaches_the_goal() {
    let mut grid = Grid::new_grass(12, 12);
    for y in 0..10 {
        grid.set(6, y, TileKind::Water);
    }
    let ff = FlowField::generate(&grid, 10, 2);
    let (mut x, mut y) = (1u32, 1u32);
    let mut steps = 0;
    while (x, y) != (10, 2) {
        let before = ff.cost_at(x, y);
        let (dx, dy) = ff.direction_at(x, y);
        assert_ne!((dx, dy), (0, 0));
        x = (x as i32 + dx as i32) as u32;
        y = (y as i32 + dy as i32) as u32;
        assert!(ff.cost_at(x, y) < before);
        steps += 1;
        assert!(steps < 200);
    }
}
