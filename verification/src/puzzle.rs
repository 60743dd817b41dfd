//! The puzzle rule set: pieces in four colours whose edges are knobs,
//! holes or straight.

use crate::grid::TileGrid;
use crate::tile::{Connect, UndecidedTile};
use rand::rngs::StdRng;
use vstd::prelude::*;

verus! {

/// The edge labels of the puzzle pieces: a colour and a shape.
#[derive(Clone, Copy, PartialEq, Eq, Debug, Hash, Structural)]
pub enum Connection {
    OrangeOut,
    OrangeIn,
    OrangeFlat,
    PurpleOut,
    PurpleIn,
    PurpleFlat,
    GreenOut,
    GreenIn,
    GreenFlat,
    YellowOut,
    YellowIn,
    YellowFlat,
}

/// A tile of this rule set.
pub type TileChoice = crate::tile::TileChoice<Connection>;

/// The weight of a cell with the fewest choices left, when the next cell
/// to collapse is picked.
pub const RESTRICTED_WEIGHT: u32 = 1;

/// The weight of every other undecided cell.
pub const FREE_WEIGHT: u32 = 0;

/// The shape of an edge of a puzzle piece.
#[derive(Clone, Copy, PartialEq, Eq, Debug, Structural)]
pub enum Shape {
    /// A knob.
    Out,
    /// A hole.
    In,
    /// A straight edge.
    Flat,
}

impl Connection {
    /// The shape of the edge, whatever its colour.
    pub open spec fn shape(self) -> Shape {
        match self {
            Connection::OrangeOut | Connection::PurpleOut | Connection::GreenOut | Connection::YellowOut => Shape::Out,
            Connection::OrangeIn | Connection::PurpleIn | Connection::GreenIn | Connection::YellowIn => Shape::In,
            Connection::OrangeFlat | Connection::PurpleFlat | Connection::GreenFlat | Connection::YellowFlat => Shape::Flat,
        }
    }

    /// The shape of the edge, computed.
    pub fn shape_of(self) -> (shape: Shape)
        ensures
            shape == self.shape(),
    {
        match self {
            Connection::OrangeOut | Connection::PurpleOut | Connection::GreenOut | Connection::YellowOut => Shape::Out,
            Connection::OrangeIn | Connection::PurpleIn | Connection::GreenIn | Connection::YellowIn => Shape::In,
            Connection::OrangeFlat | Connection::PurpleFlat | Connection::GreenFlat | Connection::YellowFlat => Shape::Flat,
        }
    }
}

impl Connect for Connection {
    /// A knob lies in a hole; a hole takes a knob or a straight edge; a
    /// straight edge lies against a straight edge or a hole. The colours
    /// play no part.
    open spec fn connects(con1: Self, con2: Self) -> bool {
        match con1.shape() {
            Shape::Out => con2.shape() == Shape::In,
            Shape::In => con2.shape() == Shape::Out || con2.shape() == Shape::Flat,
            Shape::Flat => con2.shape() == Shape::Flat || con2.shape() == Shape::In,
        }
    }

    fn can_connect(con1: Self, con2: Self) -> (b: bool) {
        let shape2 = con2.shape_of();
        match con1.shape_of() {
            Shape::Out => shape2 == Shape::In,
            Shape::In => shape2 == Shape::Out || shape2 == Shape::Flat,
            Shape::Flat => shape2 == Shape::Flat || shape2 == Shape::In,
        }
    }

    fn same(con1: Self, con2: Self) -> (b: bool) {
        con1 == con2
    }
}

/// The tile with the given labels, up, right, down and left. A turned
/// tile is painted flipped both ways.
pub open spec fn placed(
    up: Connection,
    right: Connection,
    down: Connection,
    left: Connection,
    weight: u32,
    texture: &'static str,
    turned: bool,
    rot90: bool,
) -> TileChoice {
    TileChoice {
        connections: [up, right, down, left],
        weight,
        texture,
        flipx: turned,
        flipy: turned,
        rot90,
    }
}

/// The tiles, in the order in which a new cell holds them.
pub open spec fn catalog() -> Seq<TileChoice> {
    seq![
        placed(Connection::OrangeFlat, Connection::OrangeOut, Connection::OrangeIn, Connection::OrangeFlat, 1, "1", false, false),
        placed(Connection::OrangeFlat, Connection::OrangeFlat, Connection::OrangeOut, Connection::OrangeIn, 1, "1", false, true),
        placed(Connection::OrangeIn, Connection::OrangeFlat, Connection::OrangeFlat, Connection::OrangeOut, 1, "1", true, false),
        placed(Connection::OrangeOut, Connection::OrangeIn, Connection::OrangeFlat, Connection::OrangeFlat, 1, "1", true, true),
        placed(Connection::PurpleOut, Connection::PurpleOut, Connection::PurpleIn, Connection::PurpleFlat, 1, "2", false, false),
        placed(Connection::PurpleFlat, Connection::PurpleOut, Connection::PurpleOut, Connection::PurpleIn, 1, "2", false, true),
        placed(Connection::PurpleIn, Connection::PurpleFlat, Connection::PurpleOut, Connection::PurpleOut, 1, "2", true, false),
        placed(Connection::PurpleOut, Connection::PurpleIn, Connection::PurpleFlat, Connection::PurpleOut, 1, "2", true, true),
        placed(Connection::GreenOut, Connection::GreenOut, Connection::GreenOut, Connection::GreenFlat, 1, "3", false, false),
        placed(Connection::GreenFlat, Connection::GreenOut, Connection::GreenOut, Connection::GreenOut, 1, "3", false, true),
        placed(Connection::GreenOut, Connection::GreenFlat, Connection::GreenOut, Connection::GreenOut, 1, "3", true, false),
        placed(Connection::GreenOut, Connection::GreenOut, Connection::GreenFlat, Connection::GreenOut, 1, "3", true, true),
        placed(Connection::YellowIn, Connection::YellowIn, Connection::YellowFlat, Connection::YellowFlat, 1, "4", false, false),
        placed(Connection::YellowFlat, Connection::YellowIn, Connection::YellowIn, Connection::YellowFlat, 1, "4", false, true),
        placed(Connection::YellowFlat, Connection::YellowFlat, Connection::YellowIn, Connection::YellowIn, 1, "4", true, false),
        placed(Connection::YellowIn, Connection::YellowFlat, Connection::YellowFlat, Connection::YellowIn, 1, "4", true, true),
    ]
}

/// The tile with the given labels, made.
fn tile(
    up: Connection,
    right: Connection,
    down: Connection,
    left: Connection,
    weight: u32,
    texture: &'static str,
    turned: bool,
    rot90: bool,
) -> (made: TileChoice)
    ensures
        made == placed(up, right, down, left, weight, texture, turned, rot90),
{
    let connections = [up, right, down, left];
    assert(connections@ =~= [up, right, down, left]@);
    TileChoice { connections, weight, texture, flipx: turned, flipy: turned, rot90 }
}

impl UndecidedTile<Connection> {
    /// A cell to which every tile of the rule set is open.
    pub fn new() -> (cell: Self)
        ensures
            cell@ == catalog(),
            cell.wf(),
    {
        let mut possible_tiles = Vec::<TileChoice>::new();
        possible_tiles.push(tile(Connection::OrangeFlat, Connection::OrangeOut, Connection::OrangeIn, Connection::OrangeFlat, 1, "1", false, false));
        possible_tiles.push(tile(Connection::OrangeFlat, Connection::OrangeFlat, Connection::OrangeOut, Connection::OrangeIn, 1, "1", false, true));
        possible_tiles.push(tile(Connection::OrangeIn, Connection::OrangeFlat, Connection::OrangeFlat, Connection::OrangeOut, 1, "1", true, false));
        possible_tiles.push(tile(Connection::OrangeOut, Connection::OrangeIn, Connection::OrangeFlat, Connection::OrangeFlat, 1, "1", true, true));
        possible_tiles.push(tile(Connection::PurpleOut, Connection::PurpleOut, Connection::PurpleIn, Connection::PurpleFlat, 1, "2", false, false));
        possible_tiles.push(tile(Connection::PurpleFlat, Connection::PurpleOut, Connection::PurpleOut, Connection::PurpleIn, 1, "2", false, true));
        possible_tiles.push(tile(Connection::PurpleIn, Connection::PurpleFlat, Connection::PurpleOut, Connection::PurpleOut, 1, "2", true, false));
        possible_tiles.push(tile(Connection::PurpleOut, Connection::PurpleIn, Connection::PurpleFlat, Connection::PurpleOut, 1, "2", true, true));
        possible_tiles.push(tile(Connection::GreenOut, Connection::GreenOut, Connection::GreenOut, Connection::GreenFlat, 1, "3", false, false));
        possible_tiles.push(tile(Connection::GreenFlat, Connection::GreenOut, Connection::GreenOut, Connection::GreenOut, 1, "3", false, true));
        possible_tiles.push(tile(Connection::GreenOut, Connection::GreenFlat, Connection::GreenOut, Connection::GreenOut, 1, "3", true, false));
        possible_tiles.push(tile(Connection::GreenOut, Connection::GreenOut, Connection::GreenFlat, Connection::GreenOut, 1, "3", true, true));
        possible_tiles.push(tile(Connection::YellowIn, Connection::YellowIn, Connection::YellowFlat, Connection::YellowFlat, 1, "4", false, false));
        possible_tiles.push(tile(Connection::YellowFlat, Connection::YellowIn, Connection::YellowIn, Connection::YellowFlat, 1, "4", false, true));
        possible_tiles.push(tile(Connection::YellowFlat, Connection::YellowFlat, Connection::YellowIn, Connection::YellowIn, 1, "4", true, false));
        possible_tiles.push(tile(Connection::YellowIn, Connection::YellowFlat, Connection::YellowFlat, Connection::YellowIn, 1, "4", true, true));
        assert(possible_tiles@ =~= catalog());
        UndecidedTile::holding(possible_tiles)
    }
}

impl TileGrid<Connection> {
    /// Picks the cell to collapse next, those with the fewest choices left
    /// first.
    pub fn pick_index(&self, rng: &mut StdRng) -> (res: Option<(i32, i32)>)
        requires
            self.wf(),
        ensures
            res matches Some(c) ==> self@.undecided(c.0 as int, c.1 as int),
            self@.width * self@.height <= crate::pick::SCAN_LIMIT ==> (res matches Some(c)
                ==> self@.least_undecided(c.0 as int, c.1 as int)),
            self@.width * self@.height <= crate::pick::SCAN_LIMIT ==> (res is None <==> forall|
                x: int,
                y: int,
            |
                !self@.undecided(x, y)),
    {
        self.pick_weighted(RESTRICTED_WEIGHT, FREE_WEIGHT, rng)
    }
}

} // verus!
