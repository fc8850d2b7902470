use raytracer::grid::{cell_index, fill_for_cell, homogenize_plan, Fill, MAX_RING};

fn grid(width: usize, height: usize, reached: &[(usize, usize)]) -> Vec<bool> {
    let mut sentinel = vec![true; width * height];
    for &(x, y) in reached {
        sentinel[x + y * width] = false;
    }
    sentinel
}

#[test]
fn reached_cell_gets_no_fill() {
    let sentinel = grid(5, 5, &[(2, 2)]);
    assert_eq!(fill_for_cell(&sentinel, 5, 12), None);
}

#[test]
fn neighbour_on_first_ring_fills() {
    let sentinel = grid(5, 5, &[(3, 2)]);
    assert_eq!(fill_for_cell(&sentinel, 5, 12), Some(Fill { source: 13, ring: 1 }));
}

#[test]
fn ring_walk_starts_at_lower_left_and_goes_right() {
    // (1,1) comes before (3,3) on the first ring around (2,2).
    let sentinel = grid(5, 5, &[(3, 3), (1, 1)]);
    assert_eq!(fill_for_cell(&sentinel, 5, 12), Some(Fill { source: 6, ring: 1 }));
    // right edge before top edge: (3,2) before (2,3)
    let sentinel = grid(5, 5, &[(2, 3), (3, 2)]);
    assert_eq!(fill_for_cell(&sentinel, 5, 12), Some(Fill { source: 13, ring: 1 }));
    // top edge before left edge: (2,3) before (1,2)
    let sentinel = grid(5, 5, &[(1, 2), (2, 3)]);
    assert_eq!(fill_for_cell(&sentinel, 5, 12), Some(Fill { source: 17, ring: 1 }));
}

#[test]
fn neighbour_on_second_ring_fills_with_double_penalty() {
    let sentinel = grid(5, 5, &[(4, 4)]);
    let fill = fill_for_cell(&sentinel, 5, 12).unwrap();
    assert_eq!(fill, Fill { source: 24, ring: 2 });
    assert_eq!(fill.penalty_db(), 6);
    assert_eq!(Fill { source: 0, ring: 1 }.penalty_db(), 3);
}

#[test]
fn nearer_ring_wins_over_earlier_walk_position() {
    let sentinel = grid(5, 5, &[(0, 0), (2, 3)]);
    assert_eq!(fill_for_cell(&sentinel, 5, 12), Some(Fill { source: 17, ring: 1 }));
}

#[test]
fn isolated_sentinel_stays() {
    // The only reached cell is three rings away from (3,3).
    let sentinel = grid(7, 7, &[(0, 0)]);
    assert_eq!(fill_for_cell(&sentinel, 7, 24), None);
    let plan = homogenize_plan(&sentinel, 7);
    assert_eq!(plan[24], None);
}

#[test]
fn search_stops_at_grid_edge() {
    // A cell on the border has no whole ring inside the grid.
    let sentinel = grid(5, 5, &[(1, 1)]);
    assert_eq!(fill_for_cell(&sentinel, 5, 0), None);
    // (1,1)'s second ring would leave the grid, so a cell two away is not used.
    let sentinel = grid(5, 5, &[(3, 3)]);
    assert_eq!(fill_for_cell(&sentinel, 5, 6), None);
}

#[test]
fn settled_grid_plan_is_empty() {
    let sentinel = vec![false; 30];
    let plan = homogenize_plan(&sentinel, 6);
    assert_eq!(plan.len(), 30);
    assert!(plan.iter().all(|f| f.is_none()));
}

#[test]
fn plan_matches_cellwise_fills() {
    let sentinel = grid(6, 5, &[(2, 2), (5, 0)]);
    let plan = homogenize_plan(&sentinel, 6);
    assert_eq!(plan.len(), 30);
    for i in 0..30 {
        assert_eq!(plan[i], fill_for_cell(&sentinel, 6, i));
    }
    assert_eq!(plan[14], None);
    assert_eq!(plan[21], Some(Fill { source: 14, ring: 1 }));
    assert_eq!(plan[0], None);
    assert!(MAX_RING == 2);
}

#[test]
fn plan_reads_snapshot_not_its_own_fills() {
    // (1,1) borrows from (2,2); (1,2)'s rings hold only (2,2) too, never a fill.
    let sentinel = grid(8, 8, &[(4, 4)]);
    let plan = homogenize_plan(&sentinel, 8);
    assert_eq!(plan[3 + 3 * 8], Some(Fill { source: 36, ring: 1 }));
    assert_eq!(plan[2 + 2 * 8], Some(Fill { source: 36, ring: 2 }));
    assert_eq!(plan[1 + 1 * 8], None);
}

#[test]
fn cell_index_inside_and_outside() {
    assert_eq!(cell_index(3, 2, 10, 121), Some(23));
    assert_eq!(cell_index(0, 12, 10, 121), Some(120));
    assert_eq!(cell_index(1, 12, 10, 121), None);
    assert_eq!(cell_index(0, 13, 10, 121), None);
    assert_eq!(cell_index(usize::MAX, 1, 10, 121), None);
    assert_eq!(cell_index(0, usize::MAX, 10, usize::MAX), None);
}
