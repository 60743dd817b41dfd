use wavefunction_collapse::puzzle::Connection as C;
use wavefunction_collapse::puzzle::Shape;
use wavefunction_collapse::tile::{Connect, UndecidedTile};

#[test]
fn puzzle_edges() {
    let outs = [C::OrangeOut, C::PurpleOut, C::GreenOut, C::YellowOut];
    let ins = [C::OrangeIn, C::PurpleIn, C::GreenIn, C::YellowIn];
    let flats = [C::OrangeFlat, C::PurpleFlat, C::GreenFlat, C::YellowFlat];
    for a in outs {
        assert_eq!(a.shape_of(), Shape::Out);
        for b in outs {
            assert!(!C::can_connect(a, b));
        }
        for b in ins {
            assert!(C::can_connect(a, b));
            assert!(C::can_connect(b, a));
        }
        for b in flats {
            assert!(!C::can_connect(a, b));
            assert!(!C::can_connect(b, a));
        }
    }
    for a in ins {
        assert_eq!(a.shape_of(), Shape::In);
        for b in ins {
            assert!(!C::can_connect(a, b));
        }
        for b in flats {
            assert!(C::can_connect(a, b));
            assert!(C::can_connect(b, a));
        }
    }
    for a in flats {
        assert_eq!(a.shape_of(), Shape::Flat);
        for b in flats {
            assert!(C::can_connect(a, b));
        }
    }
    assert!(C::same(C::GreenIn, C::GreenIn));
    assert!(!C::same(C::GreenIn, C::YellowIn));
}

#[test]
fn puzzle_catalog() {
    let cell = UndecidedTile::<C>::new();
    let tiles = cell.possible_tiles();
    assert_eq!(tiles.len(), 16);
    assert_eq!(tiles[0].connections, [C::OrangeFlat, C::OrangeOut, C::OrangeIn, C::OrangeFlat]);
    assert_eq!(tiles[7].connections, [C::PurpleOut, C::PurpleIn, C::PurpleFlat, C::PurpleOut]);
    assert_eq!(tiles[7].texture, "2");
    assert_eq!((tiles[7].flipx, tiles[7].flipy, tiles[7].rot90), (true, true, true));
    assert_eq!(tiles[10].connections, [C::GreenOut, C::GreenFlat, C::GreenOut, C::GreenOut]);
    assert_eq!(tiles[15].connections, [C::YellowIn, C::YellowFlat, C::YellowFlat, C::YellowIn]);
    assert!(tiles.iter().all(|tile| tile.weight == 1));
    let textures: Vec<&str> = tiles.iter().map(|tile| tile.texture).collect();
    assert_eq!(
        textures,
        vec!["1", "1", "1", "1", "2", "2", "2", "2", "3", "3", "3", "3", "4", "4", "4", "4"]
    );
}

