use wavefunction_collapse::islands::Connection as C;
use wavefunction_collapse::islands::{FREE_WEIGHT, RESTRICTED_WEIGHT};
use wavefunction_collapse::tile::{Connect, UndecidedTile};

#[test]
fn islands_edges() {
    let all = [C::Land, C::Water, C::BeachCW, C::BeachCCW];
    let expected = [
        [true, false, false, false],
        [false, true, false, false],
        [false, false, false, true],
        [false, false, true, false],
    ];
    for (i, a) in all.iter().enumerate() {
        for (j, b) in all.iter().enumerate() {
            assert_eq!(C::can_connect(*a, *b), expected[i][j]);
            assert_eq!(C::same(*a, *b), i == j);
        }
    }
}

#[test]
fn islands_catalog() {
    let cell = UndecidedTile::<C>::new();
    let tiles = cell.possible_tiles();
    assert_eq!(tiles.len(), 14);
    assert_eq!(tiles[0].connections, [C::Land, C::Water, C::BeachCW, C::BeachCCW]);
    assert_eq!((tiles[0].flipx, tiles[0].flipy, tiles[0].rot90), (false, false, false));
    assert_eq!(tiles[3].connections, [C::BeachCCW, C::BeachCW, C::Land, C::Water]);
    assert_eq!((tiles[3].flipx, tiles[3].flipy, tiles[3].rot90), (true, true, true));
    assert_eq!(tiles[5].connections, [C::BeachCW, C::Water, C::Water, C::BeachCCW]);
    assert_eq!(tiles[5].texture, "beach_water_corner");
    assert_eq!((tiles[5].flipx, tiles[5].flipy, tiles[5].rot90), (false, false, true));
    assert_eq!(tiles[10].connections, [C::BeachCCW, C::Land, C::Land, C::BeachCW]);
    assert_eq!(tiles[10].texture, "beach_land_corner");
    assert_eq!(tiles[12].connections, [C::Land; 4]);
    assert_eq!(tiles[13].connections, [C::Water; 4]);
    assert_eq!(cell.weights(), vec![10, 10, 10, 10, 1, 1, 1, 1, 1, 1, 1, 1, 30, 50]);
    assert_eq!(RESTRICTED_WEIGHT, 1);
    assert_eq!(FREE_WEIGHT, 1000);
}

