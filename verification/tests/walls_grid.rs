use ink_ribbon::walls::{filled_runs, grid_corners, grid_faces, EdgeDir, GridFace};

fn grid(rows: &[&str]) -> Vec<Vec<bool>> {
    rows.iter().map(|r| r.chars().map(|c| c == '#').collect()).collect()
}

fn count(faces: &[GridFace], dir: EdgeDir) -> usize {
    faces.iter().filter(|f| f.dir == dir).count()
}

fn face(dir: EdgeDir, line: usize, start: usize, end: usize) -> GridFace {
    GridFace { dir, line, start, end }
}

#[test]
fn union_boundary_drops_shared_and_internal_edges() {
    // Two abutting bars, (0,0,100,40) and (100,0,100,40): grid lines x 0, 100,
    // 200 and y 0, 40, both cells inside -> one outline.
    let g = grid(&["##"]);
    let faces = grid_faces(&g);
    assert_eq!(faces.len(), 4);
    assert_eq!(count(&faces, EdgeDir::Up), 1);
    assert_eq!(grid_corners(&faces).len(), 4);

    // Overlapping bars (0..100 and 50..150) compress to three inside cells.
    let g = grid(&["###"]);
    assert_eq!(grid_faces(&g).len(), 4);
}

#[test]
fn sub_carves_a_hole() {
    // (0,0,100,100) minus (40,40,20,20): a 3x3 grid with its centre outside.
    let g = grid(&["###", "#.#", "###"]);
    let faces = grid_faces(&g);
    // Outer boundary (4) plus the four faces of the hole.
    assert_eq!(faces.len(), 8);
    assert_eq!(count(&faces, EdgeDir::Up), 2);
    assert_eq!(grid_corners(&faces).len(), 8);
}

#[test]
fn region_rects_fill_and_carve() {
    let runs = filled_runs(&grid(&["#"]));
    assert_eq!(runs, vec![(0, 0, 1)]);
    // The carved square leaves two runs in the middle row, none over the hole.
    let runs = filled_runs(&grid(&["###", "#.#", "###"]));
    assert_eq!(runs, vec![(0, 0, 3), (1, 0, 1), (1, 2, 3), (2, 0, 3)]);
}

#[test]
fn faces_come_in_row_then_column_order() {
    let g = grid(&["##.", "#.."]);
    let faces = grid_faces(&g);
    assert_eq!(
        faces,
        vec![
            face(EdgeDir::Up, 0, 0, 2),
            face(EdgeDir::Down, 1, 1, 2),
            face(EdgeDir::Down, 2, 0, 1),
            face(EdgeDir::Left, 0, 0, 2),
            face(EdgeDir::Right, 1, 1, 2),
            face(EdgeDir::Right, 2, 0, 1),
        ]
    );
}

#[test]
fn a_concave_corner_gets_its_miter() {
    // An L: the inner corner at grid point (1, 1) gets the square facing in.
    let g = grid(&["##.", "#.."]);
    let corners = grid_corners(&grid_faces(&g));
    assert_eq!(
        corners,
        vec![(0, 0, 1, 1), (0, 2, 1, -1), (1, 1, -1, -1), (1, 2, -1, -1), (2, 0, -1, 1), (2, 1, -1, -1)]
    );
    let mut sorted = corners.clone();
    sorted.sort();
    sorted.dedup();
    assert_eq!(sorted, corners);
}

#[test]
fn an_empty_grid_has_no_faces() {
    assert!(grid_faces(&Vec::new()).is_empty());
    assert!(grid_faces(&grid(&["...", "..."])).is_empty());
    assert!(filled_runs(&grid(&["..", ".."])).is_empty());
    assert!(grid_corners(&Vec::new()).is_empty());
}

#[test]
fn a_t_junction_gets_both_miters() {
    // A bar with a stub below its middle: the stub's sides end on the bar's
    // bottom face.
    let g = grid(&["###", ".#."]);
    let corners = grid_corners(&grid_faces(&g));
    assert!(corners.contains(&(1, 1, 1, -1)));
    assert!(corners.contains(&(2, 1, -1, -1)));
}

#[test]
fn a_rectangular_union_is_one_outline() {
    // Two overlapping bars and a third below them filling a rectangle: every
    // cell of the compressed grid is inside.
    let g = grid(&["###", "###"]);
    let faces = grid_faces(&g);
    assert_eq!(
        faces,
        vec![
            face(EdgeDir::Up, 0, 0, 3),
            face(EdgeDir::Down, 2, 0, 3),
            face(EdgeDir::Left, 0, 0, 2),
            face(EdgeDir::Right, 3, 0, 2),
        ]
    );
    assert_eq!(grid_corners(&faces), vec![(0, 0, 1, 1), (0, 2, 1, -1), (3, 0, -1, 1), (3, 2, -1, -1)]);
}
