use rand::rngs::StdRng;
use rand::SeedableRng;
use wavefunction_collapse::colored_wires::Connection;
use wavefunction_collapse::grid::TileGrid;
use wavefunction_collapse::islands::Connection as Shore;
use wavefunction_collapse::pick::{SAMPLES, SCAN_LIMIT};
use wavefunction_collapse::tile::{TileChoice, UndecidedTile};

type Tile = TileChoice<Connection>;

const K: Connection = Connection::Black;

fn span(colour: Connection) -> Tile {
    TileChoice {
        connections: [K, colour, K, colour],
        weight: 1,
        texture: "",
        flipx: false,
        flipy: false,
        rot90: false,
    }
}

fn colours() -> Vec<Tile> {
    vec![
        span(Connection::Red),
        span(Connection::Green),
        span(Connection::Blue),
        span(Connection::Yellow),
    ]
}

/// Three rows that do not constrain each other: the first decided, the
/// two others with two choices per cell.
fn three_rows() -> TileGrid<Connection> {
    let all = colours();
    let mut grid = TileGrid::new(4, 3, UndecidedTile::from_tiles(vec![all[0], all[1]]).unwrap()).unwrap();
    grid.force_choice(0, 0, 0).unwrap();
    grid
}

#[test]
fn pick_prefers_the_cells_with_the_fewest_choices() {
    let all = colours();
    let mut grid = TileGrid::new(1, 3, UndecidedTile::from_tiles(all.clone()).unwrap()).unwrap();
    let mut rng = StdRng::seed_from_u64(21);
    // The rows are free of each other. All cells have four choices, and
    // every one of them is picked in the long run.
    let mut seen = [0usize; 3];
    for _ in 0..300 {
        let (x, y) = grid.pick_weighted(1, 0, &mut rng).unwrap();
        assert_eq!(x, 0);
        seen[y as usize] += 1;
    }
    assert!(seen.iter().all(|n| *n > 0));
    // Decide the first row. The others stay at four and share the picks.
    grid.force_choice(0, 0, 2).unwrap();
    for _ in 0..100 {
        let (x, y) = grid.pick_weighted(1, 0, &mut rng).unwrap();
        assert!(x == 0 && (y == 1 || y == 2));
    }
    grid.force_choice(0, 1, 0).unwrap();
    for _ in 0..50 {
        assert_eq!(grid.pick_weighted(1, 0, &mut rng), Some((0, 2)));
    }
    grid.force_choice(0, 2, 3).unwrap();
    assert_eq!(grid.pick_weighted(1, 0, &mut rng), None);
    assert_eq!(grid.pick_weighted(1, 1000, &mut rng), None);
    assert_eq!(grid.pick_index(&mut rng), None);
}

#[test]
fn pick_with_weights() {
    let grid = three_rows();
    let mut rng = StdRng::seed_from_u64(2);
    // One row is decided, the two others hold two choices per cell.
    for y in 0..3 {
        for x in 0..4 {
            assert_eq!(grid.possible_tiles(x, y).unwrap().len(), if y == 0 { 1 } else { 2 });
        }
    }
    for _ in 0..200 {
        let (x, y) = grid.pick_index(&mut rng).unwrap();
        assert!((0..4).contains(&x));
        assert!(y == 1 || y == 2);
    }
    // Without any weight there is no pick, though cells are undecided.
    assert_eq!(grid.pick_weighted(0, 0, &mut rng), None);
    assert_eq!(grid.pick_weighted(0, 7, &mut rng), None);
}

#[test]
fn pick_among_given_cells() {
    let all = colours();
    let mut grid = TileGrid::new(3, 2, UndecidedTile::from_tiles(all.clone()).unwrap()).unwrap();
    let mut rng = StdRng::seed_from_u64(8);
    // Take one colour out of the second row: it is left with fewer
    // choices than the first.
    grid.force_choice(0, 1, 1).unwrap();
    grid.unrestrict_tile(1, 1);
    grid.unrestrict_tile(2, 1);
    grid.restrict_grid().unwrap();
    assert_eq!(grid.possible_tiles(0, 0).unwrap().len(), 4);
    assert_eq!(grid.possible_tiles(1, 1).unwrap().len(), 1);
    // All of the first row compete alike; the decided cells and the cells
    // outside the grid do not compete.
    let sampled = vec![(0, 1), (1, 0), (5, 5), (1, 1), (-1, 0), (2, 0)];
    let mut seen = [0usize; 3];
    for _ in 0..200 {
        let (x, y) = grid.pick_among(&sampled, 3, 0, &mut rng).unwrap();
        assert_eq!(y, 0);
        assert!(x == 1 || x == 2);
        seen[x as usize] += 1;
    }
    assert!(seen[1] > 0 && seen[2] > 0);
    assert_eq!(grid.pick_among(&vec![(0, 1), (9, 9)], 3, 1, &mut rng), None);
    assert_eq!(grid.pick_among(&Vec::new(), 3, 1, &mut rng), None);
    assert_eq!(grid.pick_among(&vec![(2, 0)], 0, 5, &mut rng), None);
    assert_eq!(grid.pick_among(&vec![(2, 0)], 5, 0, &mut rng), Some((2, 0)));
}

#[test]
fn free_weight_lets_the_other_cells_in() {
    let all = colours();
    let mut grid = TileGrid::new(1, 2, UndecidedTile::from_tiles(all.clone()).unwrap()).unwrap();
    let mut rng = StdRng::seed_from_u64(13);
    let sampled = vec![(0, 0), (0, 1)];
    let narrow = TileGrid::new(1, 1, UndecidedTile::from_tiles(vec![all[0], all[1]]).unwrap())
        .unwrap();
    assert_eq!(narrow.pick_among(&sampled, 1, 0, &mut rng), Some((0, 0)));
    // Both cells hold four choices, so both are the least: the free weight
    // plays no part.
    let mut seen = [0usize; 2];
    for _ in 0..100 {
        let (_, y) = grid.pick_among(&sampled, 1, 1000, &mut rng).unwrap();
        seen[y as usize] += 1;
    }
    assert!(seen[0] > 10 && seen[1] > 10);
    grid.force_choice(0, 0, 0).unwrap();
    assert_eq!(grid.pick_among(&sampled, 1, 1000, &mut rng), Some((0, 1)));
}

#[test]
fn islands_pick_leans_to_the_free_cells() {
    let mut rng = StdRng::seed_from_u64(17);
    let mut grid = TileGrid::new(4, 4, UndecidedTile::<Shore>::new()).unwrap();
    // Settle a corner on land: its neighbours are narrowed, the far cells
    // are not.
    grid.force_choice(0, 0, 12).unwrap();
    let least = grid
        .all_cells()
        .iter()
        .map(|(x, y)| grid.possible_tiles(*x, *y).unwrap().len())
        .filter(|n| *n > 1)
        .min()
        .unwrap();
    let mut on_least = 0;
    let draws = 500;
    for _ in 0..draws {
        let (x, y) = grid.pick_index(&mut rng).unwrap();
        let open = grid.possible_tiles(x, y).unwrap().len();
        assert!(open > 1);
        if open == least {
            on_least += 1;
        }
    }
    // With the free weight a thousand times the restricted one, the least
    // cells are picked hardly ever.
    assert!(on_least * 20 < draws);
}

#[test]
fn a_large_grid_is_sampled() {
    assert_eq!(SCAN_LIMIT, 1000);
    assert_eq!(SAMPLES, 50);
    let all = colours();
    let mut grid = TileGrid::new(40, 30, UndecidedTile::from_tiles(all.clone()).unwrap()).unwrap();
    let mut rng = StdRng::seed_from_u64(4);
    let mut columns = std::collections::BTreeSet::new();
    let mut rows = std::collections::BTreeSet::new();
    for _ in 0..300 {
        let (x, y) = grid.pick_index(&mut rng).unwrap();
        assert!(grid.contains(x, y));
        assert!(grid.possible_tiles(x, y).unwrap().len() > 1);
        columns.insert(x);
        rows.insert(y);
    }
    assert!(columns.len() > 20);
    assert!(rows.len() > 15);
    assert!(columns.iter().all(|x| (0..40).contains(x)));
    assert!(rows.iter().all(|y| (0..30).contains(y)));
    // Decide all rows but the last: the picks fall into the last row, or
    // fail where no cell of it was drawn.
    for y in 0..29 {
        grid.force_choice(0, y, 1).unwrap();
    }
    let mut hits = 0;
    for _ in 0..200 {
        match grid.pick_index(&mut rng) {
            Some((x, y)) => {
                assert_eq!(y, 29);
                assert!((0..40).contains(&x));
                hits += 1;
            },
            None => {},
        }
    }
    assert!(hits > 100);
    for y in 29..30 {
        grid.force_choice(0, y, 1).unwrap();
    }
    assert_eq!(grid.pick_index(&mut rng), None);
}
