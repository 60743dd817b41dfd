//! The castle rule set: walls with doors and windows under an open sky.

use crate::grid::TileGrid;
use crate::tile::{Connect, UndecidedTile};
use rand::rngs::StdRng;
use vstd::prelude::*;

verus! {

/// The edge labels of the castle tiles.
#[derive(Clone, Copy, PartialEq, Eq, Debug, Hash, Structural)]
pub enum Connection {
    /// The side of the top of a door.
    DoorTop,
    /// The side of the bottom of a door.
    DoorBottom,
    /// The bottom of the right half of a door.
    DoorRight,
    /// The bottom of the left half of a door.
    DoorLeft,
    /// The left side of a wall, the wall lying to the right.
    WallLeft,
    /// The right side of a wall, the wall lying to the left.
    WallRight,
    /// The top of a wall.
    WallTop,
    /// The inside of a wall.
    WallInner,
    /// The ground.
    Ground,
    /// The sky.
    Sky,
}

/// A castle tile.
pub type TileChoice = crate::tile::TileChoice<Connection>;

/// The weight of a cell with the fewest choices left, when the next cell
/// to collapse is picked.
pub const RESTRICTED_WEIGHT: u32 = 1;

/// The weight of every other undecided cell.
pub const FREE_WEIGHT: u32 = 0;

pub const DOOR_WEIGHT: u32 = 10;

pub const WINDOW_WEIGHT: u32 = 2;

pub const WALL_WEIGHT: u32 = 10;

pub const EDGE_WEIGHT: u32 = 1;

pub const TOP_WEIGHT: u32 = 100;

pub const OUTER_CORNER_WEIGHT: u32 = 100;

pub const INNER_CORNER_WEIGHT: u32 = 1;

impl Connect for Connection {
    /// Castle edges connect to their like and to nothing else.
    open spec fn connects(con1: Self, con2: Self) -> bool {
        con1 == con2
    }

    fn can_connect(con1: Self, con2: Self) -> (b: bool) {
        if con1 == con2 {
            return true;
        }
        return false;
    }

    fn same(con1: Self, con2: Self) -> (b: bool) {
        con1 == con2
    }
}

/// The tile with the given labels, up, right, down and left, painted as
/// its texture stands.
pub open spec fn upright(
    up: Connection,
    right: Connection,
    down: Connection,
    left: Connection,
    weight: u32,
    texture: &'static str,
) -> TileChoice {
    TileChoice {
        connections: [up, right, down, left],
        weight,
        texture,
        flipx: false,
        flipy: false,
        rot90: false,
    }
}

/// The castle tiles, in the order in which a new cell holds them.
pub open spec fn catalog() -> Seq<TileChoice> {
    seq![
        upright(Connection::DoorLeft, Connection::DoorBottom, Connection::Ground, Connection::WallInner, DOOR_WEIGHT, "Door L"),
        upright(Connection::DoorRight, Connection::WallInner, Connection::Ground, Connection::DoorBottom, DOOR_WEIGHT, "Door R"),
        upright(Connection::WallInner, Connection::DoorTop, Connection::DoorLeft, Connection::WallInner, DOOR_WEIGHT, "Door TL"),
        upright(Connection::WallInner, Connection::WallInner, Connection::DoorRight, Connection::DoorTop, DOOR_WEIGHT, "Door TR"),
        upright(Connection::WallInner, Connection::WallInner, Connection::WallInner, Connection::WallInner, WALL_WEIGHT, "Wall 1"),
        upright(Connection::WallInner, Connection::WallInner, Connection::WallInner, Connection::WallInner, WALL_WEIGHT, "Wall 2"),
        upright(Connection::WallInner, Connection::WallInner, Connection::WallInner, Connection::WallInner, WINDOW_WEIGHT, "Window 1"),
        upright(Connection::WallInner, Connection::WallInner, Connection::WallInner, Connection::WallInner, WINDOW_WEIGHT, "Window 2"),
        upright(Connection::WallLeft, Connection::WallInner, Connection::WallLeft, Connection::Sky, EDGE_WEIGHT, "Wall L1"),
        upright(Connection::WallLeft, Connection::WallInner, Connection::WallLeft, Connection::Sky, EDGE_WEIGHT, "Wall L2"),
        upright(Connection::WallRight, Connection::Sky, Connection::WallRight, Connection::WallInner, EDGE_WEIGHT, "Wall R1"),
        upright(Connection::WallRight, Connection::Sky, Connection::WallRight, Connection::WallInner, EDGE_WEIGHT, "Wall R2"),
        upright(Connection::Sky, Connection::WallTop, Connection::WallInner, Connection::WallTop, TOP_WEIGHT, "Wall T"),
        upright(Connection::Sky, Connection::WallTop, Connection::WallLeft, Connection::Sky, OUTER_CORNER_WEIGHT, "Wall TL"),
        upright(Connection::Sky, Connection::Sky, Connection::WallRight, Connection::WallTop, OUTER_CORNER_WEIGHT, "Wall TR"),
        upright(Connection::WallLeft, Connection::WallInner, Connection::WallInner, Connection::WallTop, INNER_CORNER_WEIGHT, "Wall LC"),
        upright(Connection::WallRight, Connection::WallTop, Connection::WallInner, Connection::WallInner, INNER_CORNER_WEIGHT, "Wall RC"),
        upright(Connection::Sky, Connection::Sky, Connection::Sky, Connection::Sky, 1, "Sky"),
    ]
}

/// The tile with the given labels, made.
fn tile(
    up: Connection,
    right: Connection,
    down: Connection,
    left: Connection,
    weight: u32,
    texture: &'static str,
) -> (made: TileChoice)
    ensures
        made == upright(up, right, down, left, weight, texture),
{
    let connections = [up, right, down, left];
    assert(connections@ =~= [up, right, down, left]@);
    TileChoice { connections, weight, texture, flipx: false, flipy: false, rot90: false }
}

impl UndecidedTile<Connection> {
    /// A cell to which every castle tile is open.
    pub fn new() -> (cell: Self)
        ensures
            cell@ == catalog(),
            cell.wf(),
    {
        let mut possible_tiles = Vec::<TileChoice>::new();
        // Door
        possible_tiles.push(tile(Connection::DoorLeft, Connection::DoorBottom, Connection::Ground, Connection::WallInner, DOOR_WEIGHT, "Door L"));
        possible_tiles.push(tile(Connection::DoorRight, Connection::WallInner, Connection::Ground, Connection::DoorBottom, DOOR_WEIGHT, "Door R"));
        possible_tiles.push(tile(Connection::WallInner, Connection::DoorTop, Connection::DoorLeft, Connection::WallInner, DOOR_WEIGHT, "Door TL"));
        possible_tiles.push(tile(Connection::WallInner, Connection::WallInner, Connection::DoorRight, Connection::DoorTop, DOOR_WEIGHT, "Door TR"));
        // Wall and window
        possible_tiles.push(tile(Connection::WallInner, Connection::WallInner, Connection::WallInner, Connection::WallInner, WALL_WEIGHT, "Wall 1"));
        possible_tiles.push(tile(Connection::WallInner, Connection::WallInner, Connection::WallInner, Connection::WallInner, WALL_WEIGHT, "Wall 2"));
        possible_tiles.push(tile(Connection::WallInner, Connection::WallInner, Connection::WallInner, Connection::WallInner, WINDOW_WEIGHT, "Window 1"));
        possible_tiles.push(tile(Connection::WallInner, Connection::WallInner, Connection::WallInner, Connection::WallInner, WINDOW_WEIGHT, "Window 2"));
        // Edge
        possible_tiles.push(tile(Connection::WallLeft, Connection::WallInner, Connection::WallLeft, Connection::Sky, EDGE_WEIGHT, "Wall L1"));
        possible_tiles.push(tile(Connection::WallLeft, Connection::WallInner, Connection::WallLeft, Connection::Sky, EDGE_WEIGHT, "Wall L2"));
        possible_tiles.push(tile(Connection::WallRight, Connection::Sky, Connection::WallRight, Connection::WallInner, EDGE_WEIGHT, "Wall R1"));
        possible_tiles.push(tile(Connection::WallRight, Connection::Sky, Connection::WallRight, Connection::WallInner, EDGE_WEIGHT, "Wall R2"));
        possible_tiles.push(tile(Connection::Sky, Connection::WallTop, Connection::WallInner, Connection::WallTop, TOP_WEIGHT, "Wall T"));
        // Corner
        possible_tiles.push(tile(Connection::Sky, Connection::WallTop, Connection::WallLeft, Connection::Sky, OUTER_CORNER_WEIGHT, "Wall TL"));
        possible_tiles.push(tile(Connection::Sky, Connection::Sky, Connection::WallRight, Connection::WallTop, OUTER_CORNER_WEIGHT, "Wall TR"));
        possible_tiles.push(tile(Connection::WallLeft, Connection::WallInner, Connection::WallInner, Connection::WallTop, INNER_CORNER_WEIGHT, "Wall LC"));
        possible_tiles.push(tile(Connection::WallRight, Connection::WallTop, Connection::WallInner, Connection::WallInner, INNER_CORNER_WEIGHT, "Wall RC"));
        // Sky
        possible_tiles.push(tile(Connection::Sky, Connection::Sky, Connection::Sky, Connection::Sky, 1, "Sky"));
        assert(possible_tiles@ =~= catalog());
        UndecidedTile::holding(possible_tiles)
    }
}

impl TileGrid<Connection> {
    /// Picks the cell to collapse next, those with the fewest choices left
    /// first.
    pub fn pick_index(&self, rng: &mut StdRng) -> (res: Option<(i32, i32)>)
        requires
            self.wf(),
        ensures
            res matches Some(c) ==> self@.undecided(c.0 as int, c.1 as int),
            self@.width * self@.height <= crate::pick::SCAN_LIMIT ==> (res matches Some(c)
                ==> self@.least_undecided(c.0 as int, c.1 as int)),
            self@.width * self@.height <= crate::pick::SCAN_LIMIT ==> (res is None <==> forall|
                x: int,
                y: int,
            |
                !self@.undecided(x, y)),
    {
        let res = self.pick_weighted(RESTRICTED_WEIGHT, FREE_WEIGHT, rng);
        res
    }
}

} // verus!
