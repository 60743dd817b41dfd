use rand::rngs::StdRng;
use rand::SeedableRng;
use wavefunction_collapse::colored_wires::Connection;
use wavefunction_collapse::grid::{Contradiction, TileGrid};
use wavefunction_collapse::tile::{TileChoice, UndecidedTile};

type Tile = TileChoice<Connection>;

const A: Connection = Connection::Red;
const B: Connection = Connection::Blue;
const NONE: Connection = Connection::Black;

/// A tile of a corridor: a label to the left and one to the right.
fn span(left: Connection, right: Connection) -> Tile {
    TileChoice {
        connections: [NONE, right, NONE, left],
        weight: 1,
        texture: "",
        flipx: false,
        flipy: false,
        rot90: false,
    }
}

fn cell_of(tiles: Vec<Tile>) -> UndecidedTile<Connection> {
    UndecidedTile::from_tiles(tiles).unwrap()
}

fn tiles_at(grid: &TileGrid<Connection>, x: i32, y: i32) -> Vec<Tile> {
    grid.possible_tiles(x, y).unwrap().clone()
}

#[test]
fn straight_corridor() {
    let catalog = vec![span(A, A), span(B, B), span(A, B), span(B, A)];
    let mut grid = TileGrid::new(3, 1, cell_of(catalog.clone())).unwrap();
    assert_eq!(tiles_at(&grid, 0, 0), catalog);
    assert_eq!(tiles_at(&grid, 1, 0), catalog);
    assert_eq!(tiles_at(&grid, 2, 0), catalog);
    assert_eq!(grid.force_choice(1, 0, 0), Ok(()));
    assert_eq!(tiles_at(&grid, 1, 0), vec![span(A, A)]);
    assert_eq!(tiles_at(&grid, 0, 0), vec![span(A, A), span(B, A)]);
    assert_eq!(tiles_at(&grid, 2, 0), vec![span(A, A), span(A, B)]);
    for tile in tiles_at(&grid, 0, 0) {
        assert_eq!(tile.connections[1], A);
    }
    for tile in tiles_at(&grid, 2, 0) {
        assert_eq!(tile.connections[3], A);
    }
    assert!(grid.is_consistent());
}

#[test]
fn corridor_collapse_by_draw_keeps_the_ends_in_line() {
    let catalog = vec![span(A, A), span(B, B), span(A, B), span(B, A)];
    let mut rng = StdRng::seed_from_u64(11);
    for _ in 0..40 {
        let mut grid = TileGrid::new(3, 1, cell_of(catalog.clone())).unwrap();
        assert_eq!(grid.collapse_and_propegate(1, 0, &mut rng), Ok(()));
        let middle = tiles_at(&grid, 1, 0);
        assert_eq!(middle.len(), 1);
        assert!(catalog.contains(&middle[0]));
        for tile in tiles_at(&grid, 0, 0) {
            assert_eq!(tile.connections[1], middle[0].connections[3]);
        }
        for tile in tiles_at(&grid, 2, 0) {
            assert_eq!(tile.connections[3], middle[0].connections[1]);
        }
        assert_eq!(tiles_at(&grid, 0, 0).len(), 2);
        assert_eq!(tiles_at(&grid, 2, 0).len(), 2);
        assert!(grid.is_consistent());
    }
}

#[test]
fn shift_preserves_interior() {
    // Every row is of one colour, and the rows do not constrain each other.
    let catalog = vec![span(A, A), span(B, B)];
    let mut grid = TileGrid::new(5, 5, cell_of(catalog.clone())).unwrap();
    let rows = [0usize, 1, 1, 0, 1];
    for (j, choice) in rows.iter().enumerate() {
        assert_eq!(grid.force_choice(2, j as i32, *choice), Ok(()));
    }
    for i in 0..5 {
        for j in 0..5 {
            assert_eq!(tiles_at(&grid, i, j), vec![catalog[rows[j as usize]]]);
        }
    }
    let before = grid.clone();
    assert_eq!(grid.shift(1, 0), Ok(()));
    assert_eq!(grid.width(), 5);
    assert_eq!(grid.height(), 5);
    for i in 0..4 {
        for j in 0..5 {
            assert_eq!(tiles_at(&grid, i, j), tiles_at(&before, i + 1, j));
        }
    }
    for j in 0..5 {
        let expected: Vec<Tile> = catalog
            .iter()
            .filter(|tile| tile.connections[3] == tiles_at(&grid, 3, j)[0].connections[1])
            .cloned()
            .collect();
        assert_eq!(tiles_at(&grid, 4, j), expected);
        assert_eq!(tiles_at(&grid, 4, j), vec![catalog[rows[j as usize]]]);
    }
    assert!(grid.is_consistent());
}

#[test]
fn shift_down_brings_in_unconstrained_rows() {
    let catalog = vec![span(A, A), span(B, B)];
    let mut grid = TileGrid::new(3, 3, cell_of(catalog.clone())).unwrap();
    assert_eq!(grid.force_choice(0, 0, 0), Ok(()));
    assert_eq!(grid.force_choice(0, 1, 1), Ok(()));
    assert_eq!(grid.force_choice(0, 2, 0), Ok(()));
    let before = grid.clone();
    assert_eq!(grid.shift(0, 1), Ok(()));
    for i in 0..3 {
        assert_eq!(tiles_at(&grid, i, 0), tiles_at(&before, i, 1));
        assert_eq!(tiles_at(&grid, i, 1), tiles_at(&before, i, 2));
        assert_eq!(tiles_at(&grid, i, 2), catalog);
    }
    assert_eq!(grid.shift(0, -2), Ok(()));
    for i in 0..3 {
        assert_eq!(tiles_at(&grid, i, 0), catalog);
        assert_eq!(tiles_at(&grid, i, 1), catalog);
        assert_eq!(tiles_at(&grid, i, 2), vec![span(B, B)]);
    }
    assert_eq!(grid.shift(7, 0), Ok(()));
    for i in 0..3 {
        for j in 0..3 {
            assert_eq!(tiles_at(&grid, i, j), catalog);
        }
    }
}

#[test]
fn contradiction() {
    // The only tile shows A to the right and B to the left: no two fit.
    let catalog = vec![span(B, A)];
    let res = TileGrid::new(2, 1, cell_of(catalog.clone()));
    match res {
        Err(Contradiction { x, y }) => {
            assert!(x == 0 || x == 1);
            assert_eq!(y, 0);
        },
        Ok(_) => panic!("two cells that cannot lie side by side were accepted"),
    }
    let alone = TileGrid::new(1, 1, cell_of(catalog.clone())).unwrap();
    assert_eq!(tiles_at(&alone, 0, 0), catalog);
}

#[test]
fn contradiction_on_growth_names_a_cell_and_leaves_no_cell_empty() {
    let catalog = vec![span(B, A)];
    let mut grid = TileGrid::new(1, 1, cell_of(catalog.clone())).unwrap();
    let res = grid.expand_to(2, 1);
    let at = res.unwrap_err();
    assert!(grid.contains(at.x, at.y));
    assert_eq!(grid.width(), 2);
    assert_eq!(tiles_at(&grid, 0, 0), catalog);
    assert_eq!(tiles_at(&grid, 1, 0), catalog);
    assert!(!grid.is_consistent());
    assert!(!grid.is_stable(at.x, at.y));
    assert_eq!(grid.restrict_tile(at.x, at.y), Err(at));
}

#[test]
fn contradiction_by_forced_choice() {
    let catalog = vec![span(A, A), span(B, B)];
    let mut grid = TileGrid::new(2, 1, cell_of(catalog.clone())).unwrap();
    assert_eq!(grid.force_choice(0, 0, 0), Ok(()));
    assert_eq!(tiles_at(&grid, 1, 0), vec![span(A, A)]);
    // The left cell is set back and then forced to the other colour.
    grid.unrestrict_tile(0, 0);
    let res = grid.force_choice(0, 0, 1);
    assert!(res.is_err());
    let at = res.unwrap_err();
    assert_eq!((at.x, at.y), (1, 0));
    assert_eq!(tiles_at(&grid, 1, 0), vec![span(A, A)]);
}
