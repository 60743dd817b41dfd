//! The mathematical model of a grid, over which every contract of the
//! engine is stated: what it means for a tile to fit beside its neighbours,
//! for a cell to be stable, for a board to be consistent, and what the
//! greatest consistent part of a board is.

use crate::tile::{Connect, TileChoice};
use vstd::prelude::*;

verus! {

/// The coordinates of the cell that lies beside `(x, y)` in `direction`:
/// 0 is up, 1 right, 2 down, 3 left, in the order of a tile's labels.
pub open spec fn neighbor(x: int, y: int, direction: int) -> (int, int) {
    if direction == 0 {
        (x, y - 1)
    } else if direction == 1 {
        (x + 1, y)
    } else if direction == 2 {
        (x, y + 1)
    } else {
        (x - 1, y)
    }
}

/// The side with which a neighbour in `direction` faces back.
pub open spec fn opposite(direction: int) -> int {
    if direction == 0 {
        2
    } else if direction == 1 {
        3
    } else if direction == 2 {
        0
    } else {
        1
    }
}

/// Whether two cells lie side by side.
pub open spec fn adjacent(x: int, y: int, nx: int, ny: int) -> bool {
    (nx, ny) == neighbor(x, y, 0) || (nx, ny) == neighbor(x, y, 1) || (nx, ny) == neighbor(x, y, 2)
        || (nx, ny) == neighbor(x, y, 3)
}

/// The coordinates of a cell as the engine holds them.
pub open spec fn at(x: int, y: int) -> (i32, i32) {
    (x as i32, y as i32)
}

/// The order in which a grid is walked: column after column, each from
/// its first row down.
pub open spec fn before(a: (i32, i32), b: (i32, i32)) -> bool {
    a.0 < b.0 || (a.0 == b.0 && a.1 < b.1)
}

/// Whether some choice of `domain` shows `label` on its side `side`.
pub open spec fn exposes<C: Connect>(domain: Seq<TileChoice<C>>, side: int, label: C) -> bool {
    exists|k: int| 0 <= k < domain.len() && (#[trigger] domain[k]).connections[side] == label
}

/// Whether `tile` finds a partner in `domain`, the choices of its neighbour
/// in `direction`: a choice whose facing label connects to the tile's own.
pub open spec fn supported<C: Connect>(
    tile: TileChoice<C>,
    direction: int,
    domain: Seq<TileChoice<C>>,
) -> bool {
    exists|k: int|
        0 <= k < domain.len() && C::connects(
            (#[trigger] domain[k]).connections[opposite(direction)],
            tile.connections[direction],
        )
}

/// Whether `shorter` is `longer` with some values struck out, each
/// wherever it occurs, and the rest left in order.
pub open spec fn struck<T>(shorter: Seq<T>, longer: Seq<T>) -> bool {
    shorter == longer.filter(|t: T| shorter.contains(t))
}

/// What a grid holds: its dimensions and, for the cell in column `x` and
/// row `y`, the list `cells[x][y]` of the choices still open to it.
#[verifier::ext_equal]
pub struct Board<C> {
    pub width: int,
    pub height: int,
    pub cells: Seq<Seq<Seq<TileChoice<C>>>>,
}

impl<C: Connect> Board<C> {
    /// The board is `width` columns of `height` cells each.
    pub open spec fn shaped(self) -> bool {
        &&& 0 <= self.width
        &&& 0 <= self.height
        &&& self.cells.len() == self.width
        &&& forall|x: int| 0 <= x < self.width ==> (#[trigger] self.cells[x]).len() == self.height
    }

    pub open spec fn in_bounds(self, x: int, y: int) -> bool {
        0 <= x < self.width && 0 <= y < self.height
    }

    /// The choices open to the cell at `(x, y)`.
    pub open spec fn cell(self, x: int, y: int) -> Seq<TileChoice<C>> {
        self.cells[x][y]
    }

    /// The board with the choices of one cell replaced.
    pub open spec fn with_cell(self, x: int, y: int, domain: Seq<TileChoice<C>>) -> Board<C> {
        Board {
            width: self.width,
            height: self.height,
            cells: self.cells.update(x, self.cells[x].update(y, domain)),
        }
    }

    /// Whether `tile`, placed at `(x, y)`, suits its neighbour in
    /// `direction`. Beyond the edge of the board nothing is asked.
    pub open spec fn fits(self, x: int, y: int, direction: int, tile: TileChoice<C>) -> bool {
        let (nx, ny) = neighbor(x, y, direction);
        self.in_bounds(nx, ny) ==> supported(tile, direction, self.cell(nx, ny))
    }

    /// Whether `tile`, placed at `(x, y)`, suits all four neighbours.
    pub open spec fn tile_ok(self, x: int, y: int, tile: TileChoice<C>) -> bool {
        &&& self.fits(x, y, 0, tile)
        &&& self.fits(x, y, 1, tile)
        &&& self.fits(x, y, 2, tile)
        &&& self.fits(x, y, 3, tile)
    }

    /// The choices of the cell at `(x, y)` that suit all four neighbours,
    /// in their order.
    pub open spec fn restricted(self, x: int, y: int) -> Seq<TileChoice<C>> {
        self.cell(x, y).filter(|tile: TileChoice<C>| self.tile_ok(x, y, tile))
    }

    /// Every choice of the cell at `(x, y)` suits all four neighbours.
    pub open spec fn stable(self, x: int, y: int) -> bool {
        forall|k: int|
            0 <= k < self.cell(x, y).len() ==> self.tile_ok(x, y, #[trigger] self.cell(x, y)[k])
    }

    /// Every cell is stable: each choice left anywhere has, in every
    /// neighbour on the board, a choice it connects to.
    pub open spec fn consistent(self) -> bool {
        forall|x: int, y: int| self.in_bounds(x, y) ==> #[trigger] self.stable(x, y)
    }

    /// No cell is empty.
    pub open spec fn full(self) -> bool {
        forall|x: int, y: int| self.in_bounds(x, y) ==> (#[trigger] self.cell(x, y)).len() > 0
    }

    /// Every choice of every cell is one of `catalog`.
    pub open spec fn drawn_from(self, catalog: Seq<TileChoice<C>>) -> bool {
        forall|x: int, y: int, k: int|
            self.in_bounds(x, y) && 0 <= k < self.cell(x, y).len() ==> catalog.contains(
                #[trigger] self.cell(x, y)[k],
            )
    }

    /// What holds of every grid over `catalog`: the board has its shape,
    /// no cell is empty or holds more choices than the catalog, and every
    /// choice is one of the catalog.
    pub open spec fn valid(self, catalog: Seq<TileChoice<C>>) -> bool {
        &&& self.shaped()
        &&& self.width <= i32::MAX
        &&& self.height <= i32::MAX
        &&& 1 <= catalog.len() <= u32::MAX
        &&& forall|x: int, y: int|
            self.in_bounds(x, y) ==> 1 <= (#[trigger] self.cell(x, y)).len() <= catalog.len()
        &&& self.drawn_from(catalog)
    }

    /// Whether `(x, y)` is one of `seeds` or lies beside one that is a cell
    /// of the board: whether propagation from `seeds` starts by looking at
    /// it.
    pub open spec fn seeded(self, seeds: Seq<(i32, i32)>, x: int, y: int) -> bool {
        exists|i: int|
            0 <= i < seeds.len() && ((#[trigger] seeds[i]) == at(x, y) || (self.in_bounds(
                seeds[i].0 as int,
                seeds[i].1 as int,
            ) && adjacent(seeds[i].0 as int, seeds[i].1 as int, x, y)))
    }

    /// Every cell that propagation from `seeds` does not start with is
    /// stable.
    pub open spec fn stable_outside(self, seeds: Seq<(i32, i32)>) -> bool {
        forall|x: int, y: int|
            self.in_bounds(x, y) && !self.seeded(seeds, x, y) ==> #[trigger] self.stable(x, y)
    }

    /// Every cell that is not among `pending` is stable.
    pub open spec fn stable_but(self, pending: Seq<(i32, i32)>) -> bool {
        forall|x: int, y: int|
            self.in_bounds(x, y) && !pending.contains(at(x, y)) ==> #[trigger] self.stable(x, y)
    }

    /// The boards have the same dimensions, and each cell of `self` holds
    /// only choices that the same cell of `outer` holds.
    pub open spec fn within(self, outer: Board<C>) -> bool {
        &&& self.width == outer.width
        &&& self.height == outer.height
        &&& forall|x: int, y: int, k: int|
            self.in_bounds(x, y) && 0 <= k < self.cell(x, y).len() ==> outer.cell(x, y).contains(
                #[trigger] self.cell(x, y)[k],
            )
    }

    /// The boards have the same dimensions, and each cell of `self` is the
    /// same cell of `earlier` with some choices struck out.
    pub open spec fn thinned_from(self, earlier: Board<C>) -> bool {
        &&& self.width == earlier.width
        &&& self.height == earlier.height
        &&& forall|x: int, y: int|
            self.in_bounds(x, y) ==> struck(#[trigger] self.cell(x, y), earlier.cell(x, y))
    }

    /// Nothing that could have stayed is missing from `later`: every
    /// consistent board within `self` is within `later` too.
    pub open spec fn retained_by(self, later: Board<C>) -> bool {
        forall|inner: Board<C>|
            inner.shaped() && inner.consistent() && #[trigger] inner.within(self) ==> inner.within(
                later,
            )
    }

    /// Whether `tile` at `(x, y)` belongs to some consistent board within
    /// `self`: whether propagation, however far it goes, can leave it.
    pub open spec fn viable(self, x: int, y: int, tile: TileChoice<C>) -> bool {
        exists|inner: Board<C>|
            inner.shaped() && inner.consistent() && #[trigger] inner.within(self) && inner.cell(
                x,
                y,
            ).contains(tile)
    }

    /// The greatest consistent board within `self`: each cell keeps, in
    /// order, its viable choices. This is what propagation arrives at.
    pub open spec fn kernel(self) -> Board<C> {
        Board {
            width: self.width,
            height: self.height,
            cells: Seq::new(
                self.width as nat,
                |x: int|
                    Seq::new(
                        self.height as nat,
                        |y: int| self.cell(x, y).filter(|tile: TileChoice<C>| self.viable(x, y, tile)),
                    ),
            ),
        }
    }

    /// Whether some consistent board within `self` leaves no cell empty:
    /// whether propagation can end without a contradiction.
    pub open spec fn restrictable(self) -> bool {
        exists|inner: Board<C>|
            inner.shaped() && inner.consistent() && inner.full() && #[trigger] inner.within(self)
    }

    /// What a propagation that started from `start` may have left,
    /// wherever it stopped: the cells of `start` thinned, and no choice
    /// struck that a consistent board within `start` holds.
    pub open spec fn propagation_of(self, start: Board<C>) -> bool {
        self.thinned_from(start) && start.retained_by(self)
    }

    /// What a propagation that started from `start` leaves when it ends
    /// well: the greatest consistent board within `start`, which has no
    /// empty cell.
    pub open spec fn settled_from(self, start: Board<C>) -> bool {
        self.consistent() && self == start.kernel() && start.restrictable()
    }

    /// No choice of the cell at `(x, y)` suits its neighbours.
    pub open spec fn stuck_at(self, x: int, y: int) -> bool {
        self.in_bounds(x, y) && self.restricted(x, y).len() == 0
    }

    /// Whether `(x, y)` is a cell outside the rectangle of the columns
    /// from `left` up to `right` and the rows from `top` up to `bottom`.
    pub open spec fn in_band(self, top: int, bottom: int, left: int, right: int, x: int, y: int) -> bool {
        self.in_bounds(x, y) && (x < left || x >= right || y < top || y >= bottom)
    }

    /// Every cell that neither lies in the band round the rectangle nor
    /// beside a cell of it is stable.
    pub open spec fn stable_off_band(self, top: int, bottom: int, left: int, right: int) -> bool {
        forall|x: int, y: int|
            self.in_bounds(x, y) && !self.in_band(top, bottom, left, right, x, y) && (forall|
                d: int,
            |
                0 <= d < 4 ==> !self.in_band(
                    top,
                    bottom,
                    left,
                    right,
                    #[trigger] neighbor(x, y, d).0,
                    neighbor(x, y, d).1,
                )) ==> #[trigger] self.stable(x, y)
    }

    /// The board of the given dimensions that shows `self` through a
    /// window moved by `(dx, dy)`: its cell `(x, y)` holds what the cell
    /// `(x + dx, y + dy)` of `self` holds, and `catalog` where `self` has
    /// no such cell.
    pub open spec fn window(
        self,
        width: int,
        height: int,
        dx: int,
        dy: int,
        catalog: Seq<TileChoice<C>>,
    ) -> Board<C> {
        Board {
            width,
            height,
            cells: Seq::new(
                width as nat,
                |x: int|
                    Seq::new(
                        height as nat,
                        |y: int|
                            if self.in_bounds(x + dx, y + dy) {
                                self.cell(x + dx, y + dy)
                            } else {
                                catalog
                            },
                    ),
            ),
        }
    }

    /// The board with every undecided cell set back to `catalog`.
    pub open spec fn unrestricted(self, catalog: Seq<TileChoice<C>>) -> Board<C> {
        Board {
            width: self.width,
            height: self.height,
            cells: Seq::new(
                self.width as nat,
                |x: int|
                    Seq::new(
                        self.height as nat,
                        |y: int|
                            if self.cell(x, y).len() > 1 {
                                catalog
                            } else {
                                self.cell(x, y)
                            },
                    ),
            ),
        }
    }

    /// Whether `(x, y)` is a cell with more than one choice left.
    pub open spec fn undecided(self, x: int, y: int) -> bool {
        self.in_bounds(x, y) && self.cell(x, y).len() > 1
    }

    /// Those of `cells` that are undecided cells of the board, in their
    /// order, each as often as it is named.
    pub open spec fn candidates(self, cells: Seq<(i32, i32)>) -> Seq<(i32, i32)> {
        cells.filter(|c: (i32, i32)| self.undecided(c.0 as int, c.1 as int))
    }

    /// Whether none of `cells` has fewer choices left than the cell
    /// `cells[k]`.
    pub open spec fn least_among(self, cells: Seq<(i32, i32)>, k: int) -> bool {
        forall|j: int|
            0 <= j < cells.len() ==> self.cell(cells[k].0 as int, cells[k].1 as int).len()
                <= self.cell((#[trigger] cells[j]).0 as int, cells[j].1 as int).len()
    }

    /// The weight with which `cells[k]` competes in the choice of the
    /// next cell to collapse: `restricted` where no other of `cells` has
    /// fewer choices left, `free` elsewhere.
    pub open spec fn selection_weight(
        self,
        cells: Seq<(i32, i32)>,
        k: int,
        restricted: u32,
        free: u32,
    ) -> u32 {
        if self.least_among(cells, k) {
            restricted
        } else {
            free
        }
    }

    /// Whether `(x, y)` is undecided and no undecided cell of the board
    /// has fewer choices left.
    pub open spec fn least_undecided(self, x: int, y: int) -> bool {
        self.undecided(x, y) && forall|ox: int, oy: int|
            self.undecided(ox, oy) ==> self.cell(x, y).len() <= (#[trigger] self.cell(
                ox,
                oy,
            )).len()
    }

    /// The weight with which the undecided cell `(x, y)` competes when
    /// the whole board is looked at.
    pub open spec fn pick_weight(self, x: int, y: int, restricted: u32, free: u32) -> u32 {
        if self.least_undecided(x, y) {
            restricted
        } else {
            free
        }
    }

    /// The number of choices on the board, all cells together.
    pub open spec fn size(self) -> nat {
        total_size(self.cells)
    }
}

/// The board of the given dimensions whose every cell holds `domain`.
pub open spec fn uniform<C>(width: int, height: int, domain: Seq<TileChoice<C>>) -> Board<C> {
    Board {
        width,
        height,
        cells: Seq::new(width as nat, |x: int| Seq::new(height as nat, |y: int| domain)),
    }
}

/// The number of choices in a column.
pub open spec fn column_size<T>(column: Seq<Seq<T>>) -> nat
    decreases column.len(),
{
    if column.len() == 0 {
        0
    } else {
        column_size(column.drop_last()) + column.last().len()
    }
}

/// The number of choices in a list of columns.
pub open spec fn total_size<T>(columns: Seq<Seq<Seq<T>>>) -> nat
    decreases columns.len(),
{
    if columns.len() == 0 {
        0
    } else {
        total_size(columns.drop_last()) + column_size(columns.last())
    }
}

} // verus!
