use rand::rngs::StdRng;
use rand::SeedableRng;
use wavefunction_collapse::colored_wires::Connection;
use wavefunction_collapse::grid::{Contradiction, TileGrid};
use wavefunction_collapse::tile::{Connect, TileChoice, UndecidedTile};

type Tile = TileChoice<Connection>;

const R: Connection = Connection::Red;
const G: Connection = Connection::Green;
const K: Connection = Connection::Black;

fn piece(up: Connection, right: Connection, down: Connection, left: Connection, weight: u32) -> Tile {
    TileChoice {
        connections: [up, right, down, left],
        weight,
        texture: "",
        flipx: false,
        flipy: false,
        rot90: false,
    }
}

fn cell_of(tiles: Vec<Tile>) -> UndecidedTile<Connection> {
    UndecidedTile::from_tiles(tiles).unwrap()
}

fn tiles_at(grid: &TileGrid<Connection>, x: i32, y: i32) -> Vec<Tile> {
    grid.possible_tiles(x, y).unwrap().clone()
}

fn total(grid: &TileGrid<Connection>) -> usize {
    let mut n = 0;
    for (x, y) in grid.all_cells() {
        n += grid.possible_tiles(x, y).unwrap().len();
    }
    n
}

/// Plain, and a wire that runs from left to right, from top to bottom, or
/// ends at the right.
fn wires() -> Vec<Tile> {
    vec![
        piece(K, K, K, K, 5),
        piece(K, R, K, R, 3),
        piece(R, K, R, K, 2),
        piece(K, K, K, R, 1),
    ]
}

#[test]
fn a_cell_is_never_empty_and_never_too_long() {
    assert!(UndecidedTile::<Connection>::from_tiles(Vec::new()).is_none());
    let cell = cell_of(wires());
    assert_eq!(cell.len(), 4);
    assert!(!cell.is_collapsed());
    assert_eq!(cell.possible_tiles(), &wires());
    assert_eq!(cell.weights(), vec![5, 3, 2, 1]);
    assert_eq!(cell.duplicate(), cell);
}

#[test]
fn select_settles_on_one_choice() {
    let mut cell = cell_of(wires());
    cell.select(9);
    assert_eq!(cell.possible_tiles(), &wires());
    cell.select(2);
    assert_eq!(cell.possible_tiles(), &vec![wires()[2]]);
    assert!(cell.is_collapsed());
    cell.select(1);
    assert_eq!(cell.possible_tiles(), &vec![wires()[2]]);
    cell.select(0);
    assert_eq!(cell.possible_tiles(), &vec![wires()[2]]);
}

#[test]
fn collapse_leaves_one_choice_of_those_before() {
    let mut rng = StdRng::seed_from_u64(3);
    let mut seen = [0usize; 4];
    for _ in 0..400 {
        let mut cell = cell_of(wires());
        cell.collapse(&mut rng);
        assert_eq!(cell.len(), 1);
        let drawn = cell.possible_tiles()[0];
        let index = wires().iter().position(|tile| *tile == drawn).unwrap();
        seen[index] += 1;
        let again = cell.clone();
        cell.collapse(&mut rng);
        assert_eq!(cell, again);
    }
    assert!(seen.iter().all(|n| *n > 0));
    assert!(seen[0] > seen[3]);
}

#[test]
fn a_choice_of_weight_zero_is_never_drawn() {
    let tiles = vec![piece(K, K, K, K, 0), piece(K, R, K, R, 4), piece(R, K, R, K, 0)];
    let mut rng = StdRng::seed_from_u64(5);
    for _ in 0..200 {
        let mut cell = cell_of(tiles.clone());
        cell.collapse(&mut rng);
        assert_eq!(cell.possible_tiles(), &vec![tiles[1]]);
    }
    let dead = vec![piece(K, K, K, K, 0), piece(K, R, K, R, 0)];
    let mut cell = cell_of(dead.clone());
    cell.collapse(&mut rng);
    assert_eq!(cell.possible_tiles(), &dead);
}

#[test]
fn new_grid_is_restricted_at_once() {
    // The stub shows green to the right, and nothing shows green to the
    // left: it can stand only where no cell lies to its right.
    let plain = piece(K, K, K, K, 5);
    let across = piece(K, R, K, R, 3);
    let stub = piece(K, G, K, K, 1);
    let grid = TileGrid::new(2, 2, cell_of(vec![plain, across, stub])).unwrap();
    assert_eq!(grid.width(), 2);
    assert_eq!(grid.height(), 2);
    assert_eq!(tiles_at(&grid, 0, 0), vec![plain, across]);
    assert_eq!(tiles_at(&grid, 0, 1), vec![plain, across]);
    assert_eq!(tiles_at(&grid, 1, 0), vec![plain, across, stub]);
    assert_eq!(tiles_at(&grid, 1, 1), vec![plain, across, stub]);
    assert!(grid.is_consistent());
    assert_eq!(total(&grid), 10);
    // Every tile of the other catalog finds its partners everywhere.
    let grid = TileGrid::new(2, 2, cell_of(wires())).unwrap();
    assert_eq!(total(&grid), 16);
    assert!(grid.is_consistent());
    assert_eq!(grid.fresh().possible_tiles(), &wires());
}

#[test]
fn dimensions_below_zero_count_as_zero() {
    let grid = TileGrid::new(-3, 4, cell_of(wires())).unwrap();
    assert_eq!((grid.width(), grid.height()), (0, 4));
    assert!(grid.all_cells().is_empty());
    assert!(grid.possible_tiles(0, 0).is_none());
    assert!(grid.is_consistent());
    let grid = TileGrid::new(2, 0, cell_of(wires())).unwrap();
    assert_eq!((grid.width(), grid.height()), (2, 0));
    assert!(!grid.contains(0, 0));
}

#[test]
fn cells_are_walked_by_columns() {
    let grid = TileGrid::new(2, 3, cell_of(wires())).unwrap();
    assert_eq!(grid.all_cells(), vec![(0, 0), (0, 1), (0, 2), (1, 0), (1, 1), (1, 2)]);
    assert!(grid.contains(1, 2));
    assert!(!grid.contains(2, 0));
    assert!(!grid.contains(0, 3));
    assert!(!grid.contains(-1, 0));
    assert!(grid.possible_tiles(0, -1).is_none());
}

#[test]
fn restrict_tile_is_exact_and_idempotent() {
    let red = piece(K, R, K, R, 1);
    let green = piece(K, G, K, G, 1);
    let plain = piece(K, K, K, K, 1);
    let mut grid = TileGrid::new(2, 1, cell_of(vec![red, plain, green])).unwrap();
    assert_eq!(grid.restrict_tile(0, 0), Ok(false));
    assert_eq!(grid.restrict_tile(5, 0), Ok(false));
    assert_eq!(grid.restrict_tile(0, -1), Ok(false));
    assert_eq!(tiles_at(&grid, 0, 0), vec![red, plain, green]);
    assert_eq!(grid.force_choice(1, 0, 2), Ok(()));
    assert_eq!(tiles_at(&grid, 0, 0), vec![green]);
    assert_eq!(tiles_at(&grid, 1, 0), vec![green]);
    // Give the left cell its choices back and restrict it by hand: the
    // first restriction strikes two, the second finds nothing to do.
    grid.unrestrict_tile(0, 0);
    assert_eq!(tiles_at(&grid, 0, 0), vec![red, plain, green]);
    assert!(!grid.is_stable(0, 0));
    assert!(grid.is_stable(1, 0));
    assert_eq!(grid.restrict_tile(0, 0), Ok(true));
    assert_eq!(tiles_at(&grid, 0, 0), vec![green]);
    assert_eq!(tiles_at(&grid, 1, 0), vec![green]);
    assert_eq!(grid.restrict_tile(0, 0), Ok(false));
    assert_eq!(tiles_at(&grid, 0, 0), vec![green]);
    assert!(grid.is_stable(0, 0));
}

#[test]
fn restrict_tile_reports_the_cell_and_keeps_its_choices() {
    let tiles = vec![piece(K, R, K, R, 1), piece(K, G, K, G, 1)];
    let mut grid = TileGrid::new(2, 1, cell_of(tiles.clone())).unwrap();
    assert_eq!(grid.force_choice(0, 0, 0), Ok(()));
    assert_eq!(tiles_at(&grid, 1, 0), vec![tiles[0]]);
    grid.unrestrict_tile(0, 0);
    assert_eq!(grid.force_choice(0, 0, 1), Err(Contradiction { x: 1, y: 0 }));
    assert_eq!(tiles_at(&grid, 0, 0), vec![tiles[1]]);
    assert_eq!(tiles_at(&grid, 1, 0), vec![tiles[0]]);
    assert_eq!(grid.restrict_tile(1, 0), Err(Contradiction { x: 1, y: 0 }));
    assert_eq!(grid.restrict_tile(0, 0), Err(Contradiction { x: 0, y: 0 }));
    assert_eq!(grid.restrict_grid().is_err(), true);
    // Setting the undecided cells back does not help, for both are decided.
    assert!(grid.unrestrict_grid().is_err());
    grid.unrestrict_tile(1, 0);
    assert_eq!(grid.unrestrict_grid(), Ok(()));
    assert_eq!(tiles_at(&grid, 0, 0), vec![tiles[1]]);
    assert_eq!(tiles_at(&grid, 1, 0), vec![tiles[1]]);
}

#[test]
fn propagation_only_shrinks_and_counts_its_steps() {
    let tiles = vec![piece(K, R, K, R, 1), piece(K, G, K, G, 1), piece(K, K, K, K, 1)];
    let mut grid = TileGrid::new(6, 1, cell_of(tiles.clone())).unwrap();
    let before = grid.clone();
    assert_eq!(total(&before), 18);
    // A seed brings its four neighbours with it, inside the grid or not.
    assert_eq!(grid.restrict_and_propegate(vec![(2, 0)]), Ok(5));
    assert_eq!(total(&grid), 18);
    assert_eq!(grid.restrict_and_propegate(vec![(9, 9), (-1, 0)]), Ok(2));
    assert_eq!(grid.restrict_and_propegate(Vec::new()), Ok(0));
    assert_eq!(grid.force_choice(0, 0, 0), Ok(()));
    for x in 0..6 {
        assert_eq!(tiles_at(&grid, x, 0), vec![tiles[0]]);
    }
    assert_eq!(total(&grid), 6);
    assert!(grid.is_consistent());
    for (x, y) in grid.all_cells() {
        let now = tiles_at(&grid, x, y);
        let then = tiles_at(&before, x, y);
        assert!(now.len() <= then.len());
        assert!(now.iter().all(|tile| then.contains(tile)));
    }
}

#[test]
fn steps_stay_within_the_bound() {
    let tiles = vec![piece(K, R, K, R, 1), piece(K, G, K, G, 1), piece(K, K, K, K, 1)];
    let mut grid = TileGrid::new(8, 1, cell_of(tiles.clone())).unwrap();
    assert_eq!(grid.force_choice(0, 0, 1), Ok(()));
    assert_eq!(total(&grid), 8);
    for x in 1..8 {
        grid.unrestrict_tile(x, 0);
    }
    assert_eq!(total(&grid), 22);
    let seeds = vec![(1, 0)];
    let steps = grid.restrict_and_propegate(seeds.clone()).unwrap();
    assert_eq!(total(&grid), 8);
    assert!(steps >= 7);
    assert!(steps <= 5 * seeds.len() + 4 * (22 - 8));
    for x in 0..8 {
        assert_eq!(tiles_at(&grid, x, 0), vec![tiles[1]]);
    }
    // Where nothing changes, the steps are the cells that were pending at
    // the start: each seed, and the neighbours that were not pending yet.
    let mut still = TileGrid::new(8, 1, cell_of(vec![tiles[1]])).unwrap();
    assert_eq!(still.restrict_and_propegate(still.all_cells()), Ok(33));
}

#[test]
fn expand_to_grows_and_shrinks() {
    let tiles = vec![piece(K, R, K, R, 1), piece(K, G, K, G, 1)];
    let mut grid = TileGrid::new(2, 1, cell_of(tiles.clone())).unwrap();
    assert_eq!(grid.force_choice(0, 0, 1), Ok(()));
    let before = grid.clone();
    assert_eq!(grid.expand_to(0, 5), Ok(()));
    assert_eq!(grid.expand_to(5, 0), Ok(()));
    assert_eq!(grid.expand_to(-1, -1), Ok(()));
    assert_eq!((grid.width(), grid.height()), (2, 1));
    assert_eq!(tiles_at(&grid, 1, 0), tiles_at(&before, 1, 0));
    assert_eq!(grid.expand_to(4, 2), Ok(()));
    assert_eq!((grid.width(), grid.height()), (4, 2));
    for x in 0..4 {
        // The first row goes on in the colour of its first cell; the second
        // row is new and free.
        assert_eq!(tiles_at(&grid, x, 0), vec![tiles[1]]);
        assert_eq!(tiles_at(&grid, x, 1), tiles);
    }
    assert!(grid.is_consistent());
    assert_eq!(grid.force_choice(3, 1, 0), Ok(()));
    assert_eq!(grid.expand_to(1, 2), Ok(()));
    assert_eq!((grid.width(), grid.height()), (1, 2));
    assert_eq!(tiles_at(&grid, 0, 0), vec![tiles[1]]);
    assert_eq!(tiles_at(&grid, 0, 1), vec![tiles[0]]);
    assert!(grid.possible_tiles(1, 0).is_none());
    assert_eq!(grid.expand_to(1, 1), Ok(()));
    assert_eq!(grid.all_cells(), vec![(0, 0)]);
}

#[test]
fn unrestrict_grid_keeps_the_decided_cells() {
    let tiles = vec![piece(K, R, K, R, 1), piece(K, G, K, G, 1), piece(K, K, K, K, 1)];
    let mut grid = TileGrid::new(3, 2, cell_of(tiles.clone())).unwrap();
    assert_eq!(grid.force_choice(0, 0, 0), Ok(()));
    for x in 0..3 {
        assert_eq!(tiles_at(&grid, x, 0), vec![tiles[0]]);
        assert_eq!(tiles_at(&grid, x, 1), tiles);
    }
    // Erase the middle of the first row: its neighbours hold it to red.
    grid.unrestrict_tile(1, 0);
    assert_eq!(tiles_at(&grid, 1, 0), tiles);
    assert_eq!(grid.unrestrict_grid(), Ok(()));
    assert_eq!(tiles_at(&grid, 1, 0), vec![tiles[0]]);
    // Erase the whole row: nothing holds it any more.
    grid.unrestrict_tile(0, 0);
    grid.unrestrict_tile(1, 0);
    grid.unrestrict_tile(2, 0);
    grid.unrestrict_tile(3, 0);
    assert_eq!(grid.unrestrict_grid(), Ok(()));
    for (x, y) in grid.all_cells() {
        assert_eq!(tiles_at(&grid, x, y), tiles);
    }
}

#[test]
fn restrict_grid_edges_looks_at_the_band() {
    let tiles = vec![piece(K, R, K, R, 1), piece(K, G, K, G, 1)];
    let mut grid = TileGrid::new(5, 1, cell_of(tiles.clone())).unwrap();
    assert_eq!(grid.force_choice(0, 0, 0), Ok(()));
    // Give the last two cells their choices back. The band of the last two
    // columns is restricted against the rest.
    grid.unrestrict_tile(3, 0);
    grid.unrestrict_tile(4, 0);
    assert!(!grid.is_consistent());
    assert_eq!(grid.restrict_grid_edges(0, 1, 0, 3), Ok(()));
    assert_eq!(tiles_at(&grid, 3, 0), vec![tiles[0]]);
    assert_eq!(tiles_at(&grid, 4, 0), vec![tiles[0]]);
    assert!(grid.is_consistent());
    // An empty band, far from the fault, mends nothing.
    grid.unrestrict_tile(4, 0);
    assert_eq!(grid.restrict_grid_edges(0, 1, 0, 5), Ok(()));
    assert_eq!(tiles_at(&grid, 4, 0), tiles);
    assert_eq!(grid.restrict_grid_edges(0, 1, 1, 5), Ok(()));
    assert_eq!(tiles_at(&grid, 4, 0), tiles);
    assert_eq!(grid.restrict_grid(), Ok(()));
    assert_eq!(tiles_at(&grid, 4, 0), vec![tiles[0]]);
}

#[test]
fn force_choice_outside_the_grid_or_the_list_does_nothing() {
    let mut grid = TileGrid::new(2, 2, cell_of(wires())).unwrap();
    let before = grid.clone();
    assert_eq!(grid.force_choice(2, 0, 0), Ok(()));
    assert_eq!(grid.force_choice(0, -1, 0), Ok(()));
    assert_eq!(grid.force_choice(0, 0, 4), Ok(()));
    let mut rng = StdRng::seed_from_u64(1);
    assert_eq!(grid.collapse_and_propegate(-1, 0, &mut rng), Ok(()));
    assert_eq!(grid.collapse_and_propegate(0, 2, &mut rng), Ok(()));
    for (x, y) in grid.all_cells() {
        assert_eq!(tiles_at(&grid, x, y), tiles_at(&before, x, y));
    }
}

#[test]
fn the_rule_is_asked_with_the_neighbours_label_first() {
    assert!(Connection::can_connect(R, R));
    assert!(!Connection::can_connect(R, G));
    assert!(Connection::same(K, K));
    assert!(!Connection::same(K, R));
}
