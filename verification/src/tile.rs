//! Edge labels, tile choices and the cell that holds the choices still open.

use crate::random::draw_weighted;
use rand::rngs::StdRng;
use vstd::prelude::*;

verus! {

/// An edge label of a rule set: a plain tag, with the rule that says which
/// label may lie against which.
///
/// The rule need not be symmetric. The engine always asks
/// `can_connect(theirs, ours)`: the neighbour's label first, the label of
/// the tile under test second.
pub trait Connect: Copy {
    /// The rule itself, as contracts speak of it.
    spec fn connects(con1: Self, con2: Self) -> bool;

    /// Whether an edge labelled `con1` may lie against one labelled `con2`.
    fn can_connect(con1: Self, con2: Self) -> (b: bool)
        ensures
            b == Self::connects(con1, con2),
    ;

    /// Whether two labels are the same tag.
    fn same(con1: Self, con2: Self) -> (b: bool)
        ensures
            b == (con1 == con2),
    ;
}

/// One variant a cell may settle on: a label per side, in the order up,
/// right, down, left, and the weight with which it competes in a draw. The
/// remaining fields say how to paint it and mean nothing to the engine.
#[derive(Clone, Copy, PartialEq, Eq, Debug, Hash)]
pub struct TileChoice<C> {
    pub connections: [C; 4],
    pub weight: u32,
    pub texture: &'static str,
    pub flipx: bool,
    pub flipy: bool,
    pub rot90: bool,
}

/// The weights of a list of choices, in the same order.
pub open spec fn weights_of<C>(tiles: Seq<TileChoice<C>>) -> Seq<u32> {
    Seq::new(tiles.len(), |k: int| tiles[k].weight)
}

/// Whether a draw by weight over `tiles` has anything to draw.
pub open spec fn drawable<C>(tiles: Seq<TileChoice<C>>) -> bool {
    exists|k: int| 0 <= k < tiles.len() && (#[trigger] tiles[k]).weight > 0
}

/// A cell: the ordered list of the choices it may still settle on. The list
/// is never empty, and a cell with one choice left is decided.
#[derive(Clone, PartialEq, Debug)]
pub struct UndecidedTile<C> {
    possible_tiles: Vec<TileChoice<C>>,
}

impl<C> View for UndecidedTile<C> {
    type V = Seq<TileChoice<C>>;

    closed spec fn view(&self) -> Seq<TileChoice<C>> {
        self.possible_tiles@
    }
}

impl<C: Connect> UndecidedTile<C> {
    /// A cell holds at least one choice, and no more than a draw can index.
    pub open spec fn wf(&self) -> bool {
        1 <= self@.len() <= u32::MAX
    }

    /// The cell whose choices are `tiles`, in that order, or `None` where
    /// the list is empty or too long to draw from.
    pub fn from_tiles(tiles: Vec<TileChoice<C>>) -> (cell: Option<Self>)
        ensures
            cell is Some <==> 1 <= tiles@.len() <= u32::MAX,
            cell matches Some(c) ==> c@ == tiles@ && c.wf(),
    {
        if tiles.len() == 0 || tiles.len() > u32::MAX as usize {
            None
        } else {
            Some(UndecidedTile { possible_tiles: tiles })
        }
    }

    /// The cell whose choices are `tiles`, where that list is known to be
    /// one a cell may hold.
    pub(crate) fn holding(tiles: Vec<TileChoice<C>>) -> (cell: Self)
        requires
            1 <= tiles@.len() <= u32::MAX,
        ensures
            cell@ == tiles@,
            cell.wf(),
    {
        UndecidedTile { possible_tiles: tiles }
    }

    /// The choices still open.
    pub fn possible_tiles(&self) -> (tiles: &Vec<TileChoice<C>>)
        ensures
            tiles@ == self@,
    {
        &self.possible_tiles
    }

    /// The number of choices still open.
    pub fn len(&self) -> (n: usize)
        ensures
            n == self@.len(),
    {
        self.possible_tiles.len()
    }

    /// Whether one choice is left.
    pub fn is_collapsed(&self) -> (b: bool)
        ensures
            b == (self@.len() == 1),
    {
        self.possible_tiles.len() == 1
    }

    /// A cell with the same choices.
    pub fn duplicate(&self) -> (copy: Self)
        ensures
            copy@ == self@,
    {
        let mut tiles: Vec<TileChoice<C>> = Vec::new();
        let n = self.possible_tiles.len();
        let mut k: usize = 0;
        while k < n
            invariant
                n == self.possible_tiles@.len(),
                k <= n,
                tiles@ == self.possible_tiles@.take(k as int),
            decreases n - k,
        {
            tiles.push(self.possible_tiles[k]);
            k += 1;
        }
        UndecidedTile { possible_tiles: tiles }
    }

    /// The weights of the choices, in their order.
    pub fn weights(&self) -> (weights: Vec<u32>)
        ensures
            weights@ == weights_of(self@),
    {
        let mut weights: Vec<u32> = Vec::new();
        let n = self.possible_tiles.len();
        let mut k: usize = 0;
        while k < n
            invariant
                n == self.possible_tiles@.len(),
                k <= n,
                weights@ == weights_of(self.possible_tiles@.take(k as int)),
            decreases n - k,
        {
            weights.push(self.possible_tiles[k].weight);
            k += 1;
        }
        weights
    }

    /// Settles the cell on its choice number `index`. An index past the
    /// list leaves the cell as it is.
    pub fn select(&mut self, index: usize)
        ensures
            index < old(self)@.len() ==> final(self)@ == seq![old(self)@[index as int]],
            index >= old(self)@.len() ==> final(self)@ == old(self)@,
    {
        if index < self.possible_tiles.len() {
            let tile = self.possible_tiles[index];
            let mut only: Vec<TileChoice<C>> = Vec::new();
            only.push(tile);
            self.possible_tiles = only;
        }
    }

    /// Settles the cell by a draw among its choices, each with a chance
    /// proportional to its weight. A decided cell stays as it is, and so
    /// does a cell whose weights are all zero, for then no choice can be
    /// drawn.
    pub fn collapse(&mut self, rng: &mut StdRng)
        requires
            old(self).wf(),
        ensures
            final(self).wf(),
            old(self)@.len() == 1 || !drawable(old(self)@) ==> final(self)@ == old(self)@,
            old(self)@.len() > 1 && drawable(old(self)@) ==> exists|k: int|
                0 <= k < old(self)@.len() && (#[trigger] old(self)@[k]).weight > 0 && final(self)@
                    == seq![old(self)@[k]],
    {
        if self.possible_tiles.len() == 1 {
            return ;
        }
        let weights = self.weights();
        let drawn = draw_weighted(&weights, rng);
        match drawn {
            Ok(index) => {
                assert(weights@[index as int] == self@[index as int].weight);
                self.select(index);
            },
            Err(_) => {
                assert forall|k: int| 0 <= k < self@.len() implies !((#[trigger] self@[k]).weight
                    > 0) by {
                    assert(weights@[k] == self@[k].weight);
                }
            },
        }
    }
}

} // verus!
