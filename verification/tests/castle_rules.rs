use rand::rngs::StdRng;
use rand::SeedableRng;
use wavefunction_collapse::castle::Connection as C;
use wavefunction_collapse::grid::TileGrid;
use wavefunction_collapse::tile::{Connect, UndecidedTile};

#[test]
fn castle_edges_connect_to_their_like() {
    let all = [
        C::DoorTop,
        C::DoorBottom,
        C::DoorRight,
        C::DoorLeft,
        C::WallLeft,
        C::WallRight,
        C::WallTop,
        C::WallInner,
        C::Ground,
        C::Sky,
    ];
    for a in all {
        for b in all {
            assert_eq!(C::can_connect(a, b), a == b);
            assert_eq!(C::same(a, b), a == b);
        }
    }
}

#[test]
fn castle_catalog() {
    let cell = UndecidedTile::<C>::new();
    let tiles = cell.possible_tiles();
    assert_eq!(tiles.len(), 18);
    assert_eq!(tiles[0].connections, [C::DoorLeft, C::DoorBottom, C::Ground, C::WallInner]);
    assert_eq!(tiles[0].texture, "Door L");
    assert_eq!(tiles[0].weight, 10);
    assert_eq!(tiles[3].connections, [C::WallInner, C::WallInner, C::DoorRight, C::DoorTop]);
    assert_eq!(tiles[6].texture, "Window 1");
    assert_eq!(tiles[6].weight, 2);
    assert_eq!(tiles[12].connections, [C::Sky, C::WallTop, C::WallInner, C::WallTop]);
    assert_eq!(tiles[12].weight, 100);
    assert_eq!(tiles[16].connections, [C::WallRight, C::WallTop, C::WallInner, C::WallInner]);
    assert_eq!(tiles[16].texture, "Wall RC");
    assert_eq!(tiles[17].connections, [C::Sky; 4]);
    assert_eq!(tiles[17].weight, 1);
    let textures: Vec<&str> = tiles.iter().map(|tile| tile.texture).collect();
    assert_eq!(
        textures,
        vec![
            "Door L", "Door R", "Door TL", "Door TR", "Wall 1", "Wall 2", "Window 1", "Window 2",
            "Wall L1", "Wall L2", "Wall R1", "Wall R2", "Wall T", "Wall TL", "Wall TR", "Wall LC",
            "Wall RC", "Sky",
        ]
    );
    assert!(tiles.iter().all(|tile| !tile.flipx && !tile.flipy && !tile.rot90));
    assert_eq!(cell.weights().iter().sum::<u32>(), 4 * 10 + 2 * 10 + 2 * 2 + 4 + 100 + 200 + 2 + 1);
}

#[test]
fn castle_doors_stand_on_the_ground() {
    let grid = TileGrid::new(3, 3, UndecidedTile::<C>::new()).unwrap();
    assert!(grid.is_consistent());
    for x in 0..3 {
        // Nothing shows ground upwards, so a door foot stands in the last
        // row only, and a door head on a foot or at the lower edge.
        for y in 0..3 {
            let tiles = grid.possible_tiles(x, y).unwrap();
            let feet = tiles.iter().filter(|tile| tile.connections[2] == C::Ground).count();
            let heads = tiles
                .iter()
                .filter(|tile| tile.connections[2] == C::DoorLeft || tile.connections[2] == C::DoorRight)
                .count();
            assert_eq!(feet > 0, y == 2);
            assert_eq!(heads > 0, y >= 1);
        }
    }
}

#[test]
fn generation_stays_consistent() {
    for seed in 0..6u64 {
        let mut rng = StdRng::seed_from_u64(seed);
        let mut grid = TileGrid::new(6, 6, UndecidedTile::<C>::new()).unwrap();
        let mut failed = false;
        for _ in 0..36 {
            let before = grid.clone();
            let Some((x, y)) = grid.pick_index(&mut rng) else {
                break;
            };
            assert!(before.possible_tiles(x, y).unwrap().len() > 1);
            match grid.collapse_and_propegate(x, y, &mut rng) {
                Ok(()) => {
                    assert!(grid.is_consistent());
                    let now = grid.possible_tiles(x, y).unwrap();
                    assert_eq!(now.len(), 1);
                    assert!(before.possible_tiles(x, y).unwrap().contains(&now[0]));
                    for (cx, cy) in grid.all_cells() {
                        let now = grid.possible_tiles(cx, cy).unwrap();
                        let then = before.possible_tiles(cx, cy).unwrap();
                        assert!(!now.is_empty());
                        assert!(now.len() <= then.len());
                        assert!(now.iter().all(|tile| then.contains(tile)));
                    }
                },
                Err(at) => {
                    assert!(grid.contains(at.x, at.y));
                    assert!(!grid.is_stable(at.x, at.y));
                    for (cx, cy) in grid.all_cells() {
                        assert!(!grid.possible_tiles(cx, cy).unwrap().is_empty());
                    }
                    failed = true;
                    break;
                },
            }
        }
        if !failed {
            assert!(grid.pick_index(&mut rng).is_none());
            for (cx, cy) in grid.all_cells() {
                assert_eq!(grid.possible_tiles(cx, cy).unwrap().len(), 1);
            }
        }
    }
}
