//! The islands rule set: land and water, with beaches between them.

use crate::grid::TileGrid;
use crate::tile::{Connect, UndecidedTile};
use rand::rngs::StdRng;
use vstd::prelude::*;

verus! {

/// The edge labels of the island tiles. A beach edge runs clockwise or
/// counter-clockwise round the land.
#[derive(Clone, Copy, PartialEq, Eq, Debug, Hash, Structural)]
pub enum Connection {
    Land,
    Water,
    BeachCW,
    BeachCCW,
}

/// A tile of this rule set.
pub type TileChoice = crate::tile::TileChoice<Connection>;

/// The weight of a cell with the fewest choices left, when the next cell
/// to collapse is picked.
pub const RESTRICTED_WEIGHT: u32 = 1;

/// The weight of every other undecided cell.
pub const FREE_WEIGHT: u32 = 1000;

pub const BEACH_WEIGHT: u32 = 10;

pub const BEACH_WATER_WEIGHT: u32 = 1;

pub const BEACH_LAND_WEIGHT: u32 = 1;

pub const LAND_WEIGHT: u32 = 30;

pub const WATER_WEIGHT: u32 = 50;

impl Connect for Connection {
    /// Land lies against land and water against water; a beach edge lies
    /// against one that runs the other way.
    open spec fn connects(con1: Self, con2: Self) -> bool {
        match con1 {
            Connection::Land => con2 == Connection::Land,
            Connection::Water => con2 == Connection::Water,
            Connection::BeachCW => con2 == Connection::BeachCCW,
            Connection::BeachCCW => con2 == Connection::BeachCW,
        }
    }

    fn can_connect(con1: Self, con2: Self) -> (b: bool) {
        if con1 == Connection::Land || con1 == Connection::Water {
            return con1 == con2;
        } else if con1 == Connection::BeachCW {
            return con2 == Connection::BeachCCW;
        } else if con1 == Connection::BeachCCW {
            return con2 == Connection::BeachCW;
        } else {
            return false;
        }
    }

    fn same(con1: Self, con2: Self) -> (b: bool) {
        con1 == con2
    }
}

/// The tile with the given labels, up, right, down and left. A turned
/// tile is painted flipped both ways.
pub open spec fn placed(
    up: Connection,
    right: Connection,
    down: Connection,
    left: Connection,
    weight: u32,
    texture: &'static str,
    turned: bool,
    rot90: bool,
) -> TileChoice {
    TileChoice {
        connections: [up, right, down, left],
        weight,
        texture,
        flipx: turned,
        flipy: turned,
        rot90,
    }
}

/// The tiles, in the order in which a new cell holds them.
pub open spec fn catalog() -> Seq<TileChoice> {
    seq![
        placed(Connection::Land, Connection::Water, Connection::BeachCW, Connection::BeachCCW, BEACH_WEIGHT, "beach", false, false),
        placed(Connection::BeachCW, Connection::BeachCCW, Connection::Water, Connection::Land, BEACH_WEIGHT, "beach", false, true),
        placed(Connection::Water, Connection::Land, Connection::BeachCCW, Connection::BeachCW, BEACH_WEIGHT, "beach", true, false),
        placed(Connection::BeachCCW, Connection::BeachCW, Connection::Land, Connection::Water, BEACH_WEIGHT, "beach", true, true),
        placed(Connection::BeachCCW, Connection::Water, Connection::BeachCW, Connection::Water, BEACH_WATER_WEIGHT, "beach_water_corner", false, false),
        placed(Connection::BeachCW, Connection::Water, Connection::Water, Connection::BeachCCW, BEACH_WATER_WEIGHT, "beach_water_corner", false, true),
        placed(Connection::Water, Connection::BeachCCW, Connection::Water, Connection::BeachCW, BEACH_WATER_WEIGHT, "beach_water_corner", true, false),
        placed(Connection::Water, Connection::BeachCW, Connection::BeachCCW, Connection::Water, BEACH_WATER_WEIGHT, "beach_water_corner", true, true),
        placed(Connection::Land, Connection::BeachCCW, Connection::BeachCW, Connection::Land, BEACH_LAND_WEIGHT, "beach_land_corner", false, false),
        placed(Connection::BeachCW, Connection::Land, Connection::BeachCCW, Connection::Land, BEACH_LAND_WEIGHT, "beach_land_corner", false, true),
        placed(Connection::BeachCCW, Connection::Land, Connection::Land, Connection::BeachCW, BEACH_LAND_WEIGHT, "beach_land_corner", true, false),
        placed(Connection::Land, Connection::BeachCW, Connection::Land, Connection::BeachCCW, BEACH_LAND_WEIGHT, "beach_land_corner", true, true),
        placed(Connection::Land, Connection::Land, Connection::Land, Connection::Land, LAND_WEIGHT, "land", false, false),
        placed(Connection::Water, Connection::Water, Connection::Water, Connection::Water, WATER_WEIGHT, "water", false, false),
    ]
}

/// The tile with the given labels, made.
fn tile(
    up: Connection,
    right: Connection,
    down: Connection,
    left: Connection,
    weight: u32,
    texture: &'static str,
    turned: bool,
    rot90: bool,
) -> (made: TileChoice)
    ensures
        made == placed(up, right, down, left, weight, texture, turned, rot90),
{
    let connections = [up, right, down, left];
    assert(connections@ =~= [up, right, down, left]@);
    TileChoice { connections, weight, texture, flipx: turned, flipy: turned, rot90 }
}

impl UndecidedTile<Connection> {
    /// A cell to which every tile of the rule set is open.
    pub fn new() -> (cell: Self)
        ensures
            cell@ == catalog(),
            cell.wf(),
    {
        let mut possible_tiles = Vec::<TileChoice>::new();
        possible_tiles.push(tile(Connection::Land, Connection::Water, Connection::BeachCW, Connection::BeachCCW, BEACH_WEIGHT, "beach", false, false));
        possible_tiles.push(tile(Connection::BeachCW, Connection::BeachCCW, Connection::Water, Connection::Land, BEACH_WEIGHT, "beach", false, true));
        possible_tiles.push(tile(Connection::Water, Connection::Land, Connection::BeachCCW, Connection::BeachCW, BEACH_WEIGHT, "beach", true, false));
        possible_tiles.push(tile(Connection::BeachCCW, Connection::BeachCW, Connection::Land, Connection::Water, BEACH_WEIGHT, "beach", true, true));
        possible_tiles.push(tile(Connection::BeachCCW, Connection::Water, Connection::BeachCW, Connection::Water, BEACH_WATER_WEIGHT, "beach_water_corner", false, false));
        possible_tiles.push(tile(Connection::BeachCW, Connection::Water, Connection::Water, Connection::BeachCCW, BEACH_WATER_WEIGHT, "beach_water_corner", false, true));
        possible_tiles.push(tile(Connection::Water, Connection::BeachCCW, Connection::Water, Connection::BeachCW, BEACH_WATER_WEIGHT, "beach_water_corner", true, false));
        possible_tiles.push(tile(Connection::Water, Connection::BeachCW, Connection::BeachCCW, Connection::Water, BEACH_WATER_WEIGHT, "beach_water_corner", true, true));
        possible_tiles.push(tile(Connection::Land, Connection::BeachCCW, Connection::BeachCW, Connection::Land, BEACH_LAND_WEIGHT, "beach_land_corner", false, false));
        possible_tiles.push(tile(Connection::BeachCW, Connection::Land, Connection::BeachCCW, Connection::Land, BEACH_LAND_WEIGHT, "beach_land_corner", false, true));
        possible_tiles.push(tile(Connection::BeachCCW, Connection::Land, Connection::Land, Connection::BeachCW, BEACH_LAND_WEIGHT, "beach_land_corner", true, false));
        possible_tiles.push(tile(Connection::Land, Connection::BeachCW, Connection::Land, Connection::BeachCCW, BEACH_LAND_WEIGHT, "beach_land_corner", true, true));
        possible_tiles.push(tile(Connection::Land, Connection::Land, Connection::Land, Connection::Land, LAND_WEIGHT, "land", false, false));
        possible_tiles.push(tile(Connection::Water, Connection::Water, Connection::Water, Connection::Water, WATER_WEIGHT, "water", false, false));
        assert(possible_tiles@ =~= catalog());
        UndecidedTile::holding(possible_tiles)
    }
}

impl TileGrid<Connection> {
    /// Picks the cell to collapse next. The free weight is the larger one
    /// here, so that the pick falls mostly on cells that are not the most
    /// restricted, and the land comes out in scattered patches.
    pub fn pick_index(&self, rng: &mut StdRng) -> (res: Option<(i32, i32)>)
        requires
            self.wf(),
        ensures
            res matches Some(c) ==> self@.undecided(c.0 as int, c.1 as int),
            self@.width * self@.height <= crate::pick::SCAN_LIMIT ==> (res is None <==> forall|
                x: int,
                y: int,
            |
                !self@.undecided(x, y)),
    {
        self.pick_weighted(RESTRICTED_WEIGHT, FREE_WEIGHT, rng)
    }
}

} // verus!
