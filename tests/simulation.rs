use falling_sand::grid::Grid;
use falling_sand::material::{Color, Material, Position, Sand};

const SAND: Option<Material> = Some(Material::Sand(Sand));

fn p(x: usize, y: usize) -> Position {
    Position::new(x, y)
}

fn occupied(g: &Grid) -> Vec<(usize, usize)> {
    let mut v = Vec::new();
    for y in 0..g.height() {
        for x in 0..g.width() {
            if g.get(p(x, y)).is_some() {
                v.push((x, y));
            }
        }
    }
    v
}

fn grid_with(w: usize, h: usize, cells: &[(usize, usize)]) -> Grid {
    let mut g = Grid::new(w, h);
    for &(x, y) in cells {
        g.set(p(x, y), SAND);
    }
    g
}

#[test]
fn new_grid_is_empty() {
    let g = Grid::new(4, 3);
    assert_eq!(g.width(), 4);
    assert_eq!(g.height(), 3);
    assert!(occupied(&g).is_empty());
}

#[test]
fn zero_area_grid_updates() {
    let mut g = Grid::new(0, 5);
    g.update();
    assert_eq!(g.width(), 0);
    assert!(g.draw().is_empty());
}

#[test]
fn set_then_get_returns_material() {
    let mut g = Grid::new(3, 3);
    g.set(p(2, 1), SAND);
    assert_eq!(g.get(p(2, 1)), SAND);
    assert_eq!(g.get(p(1, 1)), None);
    g.set(p(2, 1), None);
    assert_eq!(g.get(p(2, 1)), None);
}

#[test]
fn set_overwrites_occupied_cell() {
    let mut g = Grid::new(2, 2);
    g.set(p(0, 0), SAND);
    g.set(p(0, 0), SAND);
    assert_eq!(occupied(&g), vec![(0, 0)]);
}

#[test]
fn empty_grid_stays_empty() {
    let mut g = Grid::new(5, 4);
    g.update();
    g.update();
    assert!(occupied(&g).is_empty());
}

#[test]
fn lone_sand_falls_one_cell() {
    let mut g = grid_with(5, 4, &[(2, 1)]);
    g.update();
    assert_eq!(g.get(p(2, 2)), SAND);
    assert_eq!(g.get(p(2, 1)), None);
    assert_eq!(occupied(&g), vec![(2, 2)]);
}

#[test]
fn sand_in_edge_columns_falls() {
    let mut g = grid_with(3, 3, &[(0, 0), (2, 0)]);
    g.update();
    assert_eq!(occupied(&g), vec![(0, 1), (2, 1)]);
}

#[test]
fn sand_on_bottom_row_rests() {
    let mut g = grid_with(3, 3, &[(1, 2)]);
    g.update();
    assert_eq!(occupied(&g), vec![(1, 2)]);
}

#[test]
fn sand_slides_down_left() {
    let mut g = grid_with(3, 3, &[(1, 1), (1, 2)]);
    g.update();
    assert_eq!(occupied(&g), vec![(0, 2), (1, 2)]);
}

#[test]
fn sand_slides_down_right() {
    let mut g = grid_with(3, 3, &[(1, 1), (0, 2), (1, 2)]);
    g.update();
    assert_eq!(occupied(&g), vec![(0, 2), (1, 2), (2, 2)]);
}

#[test]
fn blocked_sand_rests() {
    let mut g = grid_with(3, 3, &[(1, 1), (0, 2), (1, 2), (2, 2)]);
    g.update();
    assert_eq!(occupied(&g), vec![(1, 1), (0, 2), (1, 2), (2, 2)]);
}

#[test]
fn sand_at_left_wall_blocked_below_slides_right() {
    let mut g = grid_with(2, 2, &[(0, 0), (0, 1)]);
    g.update();
    assert_eq!(occupied(&g), vec![(0, 1), (1, 1)]);
}

#[test]
fn later_particle_wins_shared_destination() {
    // (0, 0) slides down-right into (1, 1); (1, 0) falls into (1, 1) and,
    // coming later in scan order, overwrites it.
    let mut g = grid_with(3, 2, &[(0, 0), (1, 0), (0, 1)]);
    g.update();
    assert_eq!(occupied(&g), vec![(0, 1), (1, 1)]);
}

#[test]
fn column_stacking_builds_pile_from_floor() {
    let (w, h, x) = (7usize, 6usize, 3usize);
    let mut g = Grid::new(w, h);
    for _ in 0..60 {
        if g.get(p(x, 0)).is_none() {
            g.set(p(x, 0), SAND);
        }
        g.update();
    }
    for _ in 0..20 {
        g.update();
    }
    let cells = occupied(&g);
    assert!(cells.contains(&(x, h - 1)));
    assert!(cells.len() > h);
    // every particle rests on the floor or on another particle
    for &(cx, cy) in &cells {
        assert!(cy == h - 1 || g.get(p(cx, cy + 1)).is_some());
    }
    // the column under the drop point is filled from the floor upward
    let mut top = h - 1;
    while top > 0 && g.get(p(x, top - 1)).is_some() {
        top -= 1;
    }
    for y in top..h {
        assert!(g.get(p(x, y)).is_some());
    }
    assert!(top < h - 1);
}

#[test]
fn settled_grid_is_unchanged_by_updates() {
    let mut g = grid_with(3, 2, &[(1, 0), (0, 1), (1, 1), (2, 1)]);
    let before = occupied(&g);
    for _ in 0..3 {
        g.update();
        assert_eq!(occupied(&g), before);
    }
}

#[test]
fn sand_update_chooses_target() {
    let g = grid_with(3, 3, &[(1, 1), (1, 2)]);
    assert_eq!(Sand.update(&g, p(1, 1)), p(0, 2));
    assert_eq!(Sand.update(&g, p(1, 2)), p(1, 2));
    let m = Material::Sand(Sand);
    assert_eq!(m.next_position(&g, p(1, 1)), p(0, 2));
}

#[test]
fn sand_color_is_tan() {
    let c = Color { r: 198, g: 178, b: 128 };
    assert_eq!(Sand.color(), c);
    assert_eq!(Material::Sand(Sand).color(), c);
}

#[test]
fn draw_lists_occupied_cells_in_scan_order() {
    let g = grid_with(3, 3, &[(2, 2), (1, 0), (0, 2)]);
    let tan = Color { r: 198, g: 178, b: 128 };
    assert_eq!(g.draw(), vec![(p(1, 0), tan), (p(0, 2), tan), (p(2, 2), tan)]);
    assert!(Grid::new(2, 2).draw().is_empty());
}

#[test]
fn grains_dropped_one_at_a_time_all_settle_into_pile() {
    let (w, h, x) = (7usize, 6usize, 3usize);
    let mut g = Grid::new(w, h);
    let n = 12usize;
    for _ in 0..n {
        assert!(g.get(p(x, 0)).is_none());
        g.set(p(x, 0), SAND);
        loop {
            let before = occupied(&g);
            g.update();
            if occupied(&g) == before {
                break;
            }
        }
    }
    let cells = occupied(&g);
    assert_eq!(cells.len(), n);
    assert!(g.get(p(x, h - 1)).is_some());
    for &(cx, cy) in &cells {
        assert!(cy == h - 1 || g.get(p(cx, cy + 1)).is_some());
    }
}
