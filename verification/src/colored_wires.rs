//! The coloured wires rule set: wires in five colours on a black board,
//! which run straight, turn, and cross one another.

use crate::grid::TileGrid;
use crate::tile::{Connect, UndecidedTile};
use rand::rngs::StdRng;
use vstd::prelude::*;

verus! {

/// The edge labels of the wire tiles: the colour of the wire that leaves
/// through the edge, or black where none does.
#[derive(Clone, Copy, PartialEq, Eq, Debug, Hash, Structural)]
pub enum Connection {
    Black,
    Red,
    Green,
    Blue,
    Yellow,
    White,
}

/// A wire tile.
pub type TileChoice = crate::tile::TileChoice<Connection>;

/// The weight of a cell with the fewest choices left, when the next cell
/// to collapse is picked.
pub const RESTRICTED_WEIGHT: u32 = 1;

/// The weight of every other undecided cell.
pub const FREE_WEIGHT: u32 = 0;

/// The weight of a tile with one wire.
pub const WIRE_WEIGHT: u32 = 10000;

/// The weight of a tile on which two wires meet.
pub const CROSSING_WEIGHT: u32 = 1;

/// The number of wire colours.
pub const COLOURS: usize = 5;

impl Connect for Connection {
    /// A wire goes on in its colour, and black lies against black.
    open spec fn connects(con1: Self, con2: Self) -> bool {
        con1 == con2
    }

    fn can_connect(con1: Self, con2: Self) -> (b: bool) {
        return con1 == con2;
    }

    fn same(con1: Self, con2: Self) -> (b: bool) {
        con1 == con2
    }
}

/// The wire colours, in the order in which the tiles are listed.
pub open spec fn colour(i: int) -> Connection {
    if i == 0 {
        Connection::Red
    } else if i == 1 {
        Connection::Blue
    } else if i == 2 {
        Connection::Green
    } else if i == 3 {
        Connection::Yellow
    } else {
        Connection::White
    }
}

/// The tile with the given labels, up, right, down and left.
pub open spec fn labelled(
    up: Connection,
    right: Connection,
    down: Connection,
    left: Connection,
    weight: u32,
) -> TileChoice {
    TileChoice {
        connections: [up, right, down, left],
        weight,
        texture: "",
        flipx: false,
        flipy: false,
        rot90: false,
    }
}

/// The tile on which a wire of colour `c` leaves through the sides named
/// and through no other.
pub open spec fn wire(c: Connection, up: bool, right: bool, down: bool, left: bool) -> TileChoice {
    labelled(
        if up {
            c
        } else {
            Connection::Black
        },
        if right {
            c
        } else {
            Connection::Black
        },
        if down {
            c
        } else {
            Connection::Black
        },
        if left {
            c
        } else {
            Connection::Black
        },
        WIRE_WEIGHT,
    )
}

/// The tiles with one wire of colour `c`: the six on which it leaves
/// through two sides, and the one on which it leaves through all four.
pub open spec fn wires(c: Connection) -> Seq<TileChoice> {
    seq![
        wire(c, true, true, false, false),
        wire(c, true, false, true, false),
        wire(c, false, true, true, false),
        wire(c, true, false, false, true),
        wire(c, false, true, false, true),
        wire(c, false, false, true, true),
        wire(c, true, true, true, true),
    ]
}

/// The tiles on which a wire of colour `c1` meets one of colour `c2`.
pub open spec fn crossings(c1: Connection, c2: Connection) -> Seq<TileChoice> {
    seq![
        labelled(c1, c1, c2, c2, CROSSING_WEIGHT),
        labelled(c1, c2, c2, c1, CROSSING_WEIGHT),
        labelled(c1, c2, c1, c2, CROSSING_WEIGHT),
    ]
}

/// The one-wire tiles of the first `n` colours.
pub open spec fn wires_upto(n: int) -> Seq<TileChoice>
    decreases n,
{
    if n <= 0 {
        Seq::empty()
    } else {
        wires_upto(n - 1) + wires(colour(n - 1))
    }
}

/// The tiles on which a wire of colour number `i` meets one of another
/// colour among the first `n`.
pub open spec fn crossings_with(i: int, n: int) -> Seq<TileChoice>
    decreases n,
{
    if n <= 0 {
        Seq::empty()
    } else if i == n - 1 {
        crossings_with(i, n - 1)
    } else {
        crossings_with(i, n - 1) + crossings(colour(i), colour(n - 1))
    }
}

/// The crossing tiles of the first `n` colours, each with every other
/// colour.
pub open spec fn crossings_upto(n: int) -> Seq<TileChoice>
    decreases n,
{
    if n <= 0 {
        Seq::empty()
    } else {
        crossings_upto(n - 1) + crossings_with(n - 1, COLOURS as int)
    }
}

/// The tiles, in the order in which a new cell holds them: the one-wire
/// tiles colour by colour, then the crossings.
pub open spec fn catalog() -> Seq<TileChoice> {
    wires_upto(COLOURS as int) + crossings_upto(COLOURS as int)
}

/// The colour with the given number, computed.
fn colour_of(i: usize) -> (c: Connection)
    requires
        i < COLOURS,
    ensures
        c == colour(i as int),
{
    if i == 0 {
        Connection::Red
    } else if i == 1 {
        Connection::Blue
    } else if i == 2 {
        Connection::Green
    } else if i == 3 {
        Connection::Yellow
    } else {
        Connection::White
    }
}

/// The tile with the given labels, made.
fn tile(up: Connection, right: Connection, down: Connection, left: Connection, weight: u32) -> (made:
    TileChoice)
    ensures
        made == labelled(up, right, down, left, weight),
{
    let connections = [up, right, down, left];
    assert(connections@ =~= [up, right, down, left]@);
    TileChoice { connections, weight, texture: "", flipx: false, flipy: false, rot90: false }
}

/// The one-wire tile of colour `c`, made.
fn wire_tile(c: Connection, up: bool, right: bool, down: bool, left: bool) -> (made: TileChoice)
    ensures
        made == wire(c, up, right, down, left),
{
    let black = Connection::Black;
    tile(
        if up {
            c
        } else {
            black
        },
        if right {
            c
        } else {
            black
        },
        if down {
            c
        } else {
            black
        },
        if left {
            c
        } else {
            black
        },
        WIRE_WEIGHT,
    )
}

impl UndecidedTile<Connection> {
    /// A cell to which every wire tile is open.
    pub fn new() -> (cell: Self)
        ensures
            cell@ == catalog(),
            cell.wf(),
    {
        let mut possible_tiles = Vec::<TileChoice>::new();
        let mut i: usize = 0;
        while i < COLOURS
            invariant
                i <= COLOURS,
                possible_tiles@ == wires_upto(i as int),
                possible_tiles@.len() == 7 * i,
            decreases COLOURS - i,
        {
            let connection = colour_of(i);
            let ghost before = possible_tiles@;
            possible_tiles.push(wire_tile(connection, true, true, false, false));
            possible_tiles.push(wire_tile(connection, true, false, true, false));
            possible_tiles.push(wire_tile(connection, false, true, true, false));
            possible_tiles.push(wire_tile(connection, true, false, false, true));
            possible_tiles.push(wire_tile(connection, false, true, false, true));
            possible_tiles.push(wire_tile(connection, false, false, true, true));
            possible_tiles.push(wire_tile(connection, true, true, true, true));
            assert(possible_tiles@ =~= before + wires(connection));
            i += 1;
        }
        let mut i: usize = 0;
        while i < COLOURS
            invariant
                i <= COLOURS,
                possible_tiles@ == wires_upto(COLOURS as int) + crossings_upto(i as int),
                possible_tiles@.len() <= 35 + 15 * i,
            decreases COLOURS - i,
        {
            let con1 = colour_of(i);
            let ghost base = possible_tiles@;
            let mut j: usize = 0;
            while j < COLOURS
                invariant
                    i < COLOURS,
                    j <= COLOURS,
                    con1 == colour(i as int),
                    possible_tiles@ == base + crossings_with(i as int, j as int),
                    possible_tiles@.len() <= base.len() + 3 * j,
                decreases COLOURS - j,
            {
                let con2 = colour_of(j);
                let ghost before = possible_tiles@;
                if i != j {
                    possible_tiles.push(tile(con1, con1, con2, con2, CROSSING_WEIGHT));
                    possible_tiles.push(tile(con1, con2, con2, con1, CROSSING_WEIGHT));
                    possible_tiles.push(tile(con1, con2, con1, con2, CROSSING_WEIGHT));
                    assert(possible_tiles@ =~= before + crossings(con1, con2));
                    assert(possible_tiles@ =~= base + (crossings_with(i as int, j as int)
                        + crossings(con1, con2)));
                }
                j += 1;
            }
            assert(possible_tiles@ =~= wires_upto(COLOURS as int) + (crossings_upto(i as int)
                + crossings_with(i as int, COLOURS as int)));
            i += 1;
        }
        UndecidedTile::holding(possible_tiles)
    }
}

impl TileGrid<Connection> {
    /// Picks the cell to collapse next, those with the fewest choices left
    /// first.
    pub fn pick_index(&self, rng: &mut StdRng) -> (res: Option<(i32, i32)>)
        requires
            self.wf(),
        ensures
            res matches Some(c) ==> self@.undecided(c.0 as int, c.1 as int),
            self@.width * self@.height <= crate::pick::SCAN_LIMIT ==> (res matches Some(c)
                ==> self@.least_undecided(c.0 as int, c.1 as int)),
            self@.width * self@.height <= crate::pick::SCAN_LIMIT ==> (res is None <==> forall|
                x: int,
                y: int,
            |
                !self@.undecided(x, y)),
    {
        self.pick_weighted(RESTRICTED_WEIGHT, FREE_WEIGHT, rng)
    }
}

} // verus!
