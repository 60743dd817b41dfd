//! The grid and its propagation engine.

use crate::board::{
    adjacent, at, before, exposes, neighbor, opposite, struck, supported, uniform, Board,
};
use crate::lemmas::{
    lemma_contradiction, lemma_filter_all, lemma_filter_membership, lemma_kernel_reached,
    lemma_pending_changed, lemma_pending_popped, lemma_replaced_stable_outside,
    lemma_restriction_step, lemma_struck_reflexive, lemma_struck_single, lemma_window_stable,
    lemma_with_cell, lemma_with_same_cell,
};
use crate::tile::{drawable, Connect, TileChoice, UndecidedTile};
use rand::rngs::StdRng;
use vstd::prelude::*;

verus! {

/// The one error of the engine: propagation left the cell at `(x, y)`
/// without a choice that suits its neighbours.
#[derive(Clone, Copy, PartialEq, Eq, Debug, Structural)]
pub struct Contradiction {
    pub x: i32,
    pub y: i32,
}

/// A grid of cells, stored by columns, with the cell that every new cell
/// starts as.
#[derive(Clone, Debug)]
pub struct TileGrid<C> {
    tilegrid: Vec<Vec<UndecidedTile<C>>>,
    width: i32,
    height: i32,
    fresh: UndecidedTile<C>,
}

impl<C> View for TileGrid<C> {
    type V = Board<C>;

    closed spec fn view(&self) -> Board<C> {
        Board {
            width: self.width as int,
            height: self.height as int,
            cells: Seq::new(
                self.tilegrid@.len(),
                |x: int| Seq::new(self.tilegrid@[x]@.len(), |y: int| self.tilegrid@[x]@[y]@),
            ),
        }
    }
}

/// The neighbour of an inner coordinate pair, computed.
fn neighbor_of(x: i32, y: i32, direction: usize) -> (n: (i32, i32))
    requires
        0 <= x < i32::MAX,
        0 <= y < i32::MAX,
        direction < 4,
    ensures
        (n.0 as int, n.1 as int) == neighbor(x as int, y as int, direction as int),
{
    if direction == 0 {
        (x, y - 1)
    } else if direction == 1 {
        (x + 1, y)
    } else if direction == 2 {
        (x, y + 1)
    } else {
        (x - 1, y)
    }
}

/// The side that faces back, computed.
fn opposite_of(direction: usize) -> (side: usize)
    requires
        direction < 4,
    ensures
        side < 4,
        side as int == opposite(direction as int),
{
    if direction == 0 {
        2
    } else if direction == 1 {
        3
    } else if direction == 2 {
        0
    } else {
        1
    }
}

/// Whether `label` is among `labels`.
fn holds_label<C: Connect>(labels: &Vec<C>, label: C) -> (found: bool)
    ensures
        found == labels@.contains(label),
{
    let mut i: usize = 0;
    while i < labels.len()
        invariant
            i <= labels.len(),
            forall|j: int| 0 <= j < i ==> labels@[j] != label,
        decreases labels.len() - i,
    {
        if C::same(labels[i], label) {
            return true;
        }
        i += 1;
    }
    false
}

/// Whether one of `theirs` connects to `ours`.
fn connects_any<C: Connect>(theirs: &Vec<C>, ours: C) -> (found: bool)
    ensures
        found == exists|i: int| 0 <= i < theirs@.len() && C::connects(#[trigger] theirs@[i], ours),
{
    let mut i: usize = 0;
    while i < theirs.len()
        invariant
            i <= theirs.len(),
            forall|j: int| 0 <= j < i ==> !C::connects(#[trigger] theirs@[j], ours),
        decreases theirs.len() - i,
    {
        if C::can_connect(theirs[i], ours) {
            return true;
        }
        i += 1;
    }
    false
}

/// The distinct labels that the choices of `tiles` show on `side`, each
/// once, in the order of their first appearance.
fn exposed_connections<C: Connect>(tiles: &Vec<TileChoice<C>>, side: usize) -> (labels: Vec<C>)
    requires
        side < 4,
    ensures
        labels@.no_duplicates(),
        forall|label: C| labels@.contains(label) <==> exposes(tiles@, side as int, label),
{
    let mut labels: Vec<C> = Vec::new();
    let mut k: usize = 0;
    while k < tiles.len()
        invariant
            side < 4,
            k <= tiles.len(),
            labels@.no_duplicates(),
            forall|label: C|
                labels@.contains(label) <==> exposes(tiles@.take(k as int), side as int, label),
        decreases tiles.len() - k,
    {
        let label = tiles[k].connections[side];
        let ghost before = labels@;
        let found = holds_label(&labels, label);
        if !found {
            labels.push(label);
        }
        proof {
            let shorter = tiles@.take(k as int);
            let longer = tiles@.take(k + 1);
            assert(longer[k as int].connections[side as int] == label);
            assert forall|other: C| labels@.contains(other) <==> exposes(
                longer,
                side as int,
                other,
            ) by {
                if exposes(longer, side as int, other) {
                    let j = choose|j: int|
                        0 <= j < longer.len() && (#[trigger] longer[j]).connections[side as int]
                            == other;
                    if j < k {
                        assert(shorter[j].connections[side as int] == other);
                        assert(before.contains(other));
                    }
                }
                if before.contains(other) {
                    let j = choose|j: int|
                        0 <= j < shorter.len() && (#[trigger] shorter[j]).connections[side as int]
                            == other;
                    assert(longer[j].connections[side as int] == other);
                }
                if labels@.contains(other) && !before.contains(other) {
                    assert(other == label);
                }
                if before.contains(other) {
                    let i = choose|i: int| 0 <= i < before.len() && before[i] == other;
                    assert(labels@[i] == other);
                }
                if other == label && !found {
                    assert(labels@[labels@.len() - 1] == other);
                }
            }
        }
        k += 1;
    }
    assert(tiles@.take(tiles@.len() as int) =~= tiles@);
    labels
}

/// Whether `tile` finds a partner among `theirs`, the choices of its
/// neighbour in `direction`, looked for choice by choice.
fn finds_partner<C: Connect>(tile: TileChoice<C>, direction: usize, theirs: &Vec<TileChoice<C>>) -> (found:
    bool)
    requires
        direction < 4,
    ensures
        found == supported(tile, direction as int, theirs@),
{
    let side = opposite_of(direction);
    let mut k: usize = 0;
    while k < theirs.len()
        invariant
            direction < 4,
            side as int == opposite(direction as int),
            k <= theirs.len(),
            forall|j: int|
                0 <= j < k ==> !C::connects(
                    (#[trigger] theirs@[j]).connections[side as int],
                    tile.connections[direction as int],
                ),
        decreases theirs.len() - k,
    {
        if C::can_connect(theirs[k].connections[side], tile.connections[direction]) {
            return true;
        }
        k += 1;
    }
    false
}

/// Whether `cell` is among `pending`.
fn is_pending(pending: &Vec<(i32, i32)>, cell: (i32, i32)) -> (found: bool)
    ensures
        found == pending@.contains(cell),
{
    let mut i: usize = 0;
    while i < pending.len()
        invariant
            i <= pending.len(),
            forall|j: int| 0 <= j < i ==> pending@[j] != cell,
        decreases pending.len() - i,
    {
        let other = pending[i];
        if other.0 == cell.0 && other.1 == cell.1 {
            return true;
        }
        i += 1;
    }
    false
}

/// Adds the four neighbours of `(x, y)` to `pending`, but for those that
/// are pending already.
fn push_neighbors(pending: &mut Vec<(i32, i32)>, x: i32, y: i32)
    requires
        0 <= x < i32::MAX,
        0 <= y < i32::MAX,
    ensures
        final(pending)@.len() <= old(pending)@.len() + 4,
        old(pending)@.len() <= final(pending)@.len(),
        forall|c: (i32, i32)| old(pending)@.contains(c) ==> final(pending)@.contains(c),
        forall|c: (i32, i32)|
            final(pending)@.contains(c) ==> old(pending)@.contains(c) || adjacent(
                x as int,
                y as int,
                c.0 as int,
                c.1 as int,
            ),
        forall|d: int|
            0 <= d < 4 ==> final(pending)@.contains(
                #[trigger] at(neighbor(x as int, y as int, d).0, neighbor(x as int, y as int, d).1),
            ),
{
    let mut direction: usize = 0;
    while direction < 4
        invariant
            0 <= x < i32::MAX,
            0 <= y < i32::MAX,
            direction <= 4,
            old(pending)@.len() <= pending@.len() <= old(pending)@.len() + direction,
            forall|c: (i32, i32)| old(pending)@.contains(c) ==> pending@.contains(c),
            forall|c: (i32, i32)|
                pending@.contains(c) ==> old(pending)@.contains(c) || adjacent(
                    x as int,
                    y as int,
                    c.0 as int,
                    c.1 as int,
                ),
            forall|d: int|
                0 <= d < direction ==> pending@.contains(
                    #[trigger] at(
                        neighbor(x as int, y as int, d).0,
                        neighbor(x as int, y as int, d).1,
                    ),
                ),
        decreases 4 - direction,
    {
        let beside = neighbor_of(x, y, direction);
        let ghost before = pending@;
        if !is_pending(pending, beside) {
            pending.push(beside);
            proof {
                assert(pending@[pending@.len() - 1] == beside);
                assert forall|c: (i32, i32)| before.contains(c) implies pending@.contains(c) by {
                    let i = choose|i: int| 0 <= i < before.len() && before[i] == c;
                    assert(pending@[i] == c);
                }
                assert forall|c: (i32, i32)| pending@.contains(c) implies before.contains(c) || c
                    == beside by {
                    let i = choose|i: int| 0 <= i < pending@.len() && pending@[i] == c;
                    if i < before.len() {
                        assert(before[i] == c);
                    }
                }
            }
        }
        assert(beside == at(
            neighbor(x as int, y as int, direction as int).0,
            neighbor(x as int, y as int, direction as int).1,
        ));
        direction += 1;
    }
}

/// The labels that a neighbour shows decide support as its choices do.
proof fn lemma_exposed_supports<C: Connect>(
    tile: TileChoice<C>,
    direction: int,
    domain: Seq<TileChoice<C>>,
    labels: Seq<C>,
)
    requires
        forall|label: C| labels.contains(label) <==> exposes(domain, opposite(direction), label),
    ensures
        supported(tile, direction, domain) <==> exists|i: int|
            0 <= i < labels.len() && C::connects(#[trigger] labels[i], tile.connections[direction]),
{
    let side = opposite(direction);
    let ours = tile.connections[direction];
    if supported(tile, direction, domain) {
        let j = choose|j: int|
            0 <= j < domain.len() && C::connects((#[trigger] domain[j]).connections[side], ours);
        let label = domain[j].connections[side];
        assert(exposes(domain, side, label));
        assert(labels.contains(label));
        let i = choose|i: int| 0 <= i < labels.len() && labels[i] == label;
        assert(C::connects(labels[i], ours));
    }
    if exists|i: int| 0 <= i < labels.len() && C::connects(#[trigger] labels[i], ours) {
        let i = choose|i: int| 0 <= i < labels.len() && C::connects(#[trigger] labels[i], ours);
        assert(labels.contains(labels[i]));
        assert(exposes(domain, side, labels[i]));
        let j = choose|j: int|
            0 <= j < domain.len() && (#[trigger] domain[j]).connections[side] == labels[i];
        assert(C::connects(domain[j].connections[side], ours));
    }
}

impl<C: Connect> TileGrid<C> {
    /// The choices that every new cell starts with.
    pub closed spec fn catalog(&self) -> Seq<TileChoice<C>> {
        self.fresh@
    }

    /// The grid is valid over its catalog.
    pub open spec fn wf(&self) -> bool {
        self@.valid(self.catalog())
    }

    /// What validity says of the stored columns.
    proof fn lemma_stored(&self)
        requires
            self.wf(),
        ensures
            0 <= self.width,
            0 <= self.height,
            self.tilegrid@.len() == self.width,
            self.fresh.wf(),
            forall|x: int| 0 <= x < self.width ==> (#[trigger] self.tilegrid@[x])@.len() == self.height,
            forall|x: int, y: int|
                0 <= x < self.width && 0 <= y < self.height ==> (#[trigger] self.tilegrid@[x]@[y]).wf()
                    && self.tilegrid@[x]@[y]@ == self@.cell(x, y),
    {
        assert forall|x: int| 0 <= x < self.width implies (#[trigger] self.tilegrid@[x])@.len()
            == self.height by {
            assert(self@.cells[x].len() == self.height);
        }
        assert forall|x: int, y: int| 0 <= x < self.width && 0 <= y < self.height implies (
        #[trigger] self.tilegrid@[x]@[y]).wf() && self.tilegrid@[x]@[y]@ == self@.cell(x, y) by {
            assert(self@.in_bounds(x, y));
            assert(self@.cells[x].len() == self.height);
            assert(1 <= self@.cell(x, y).len() <= self.catalog().len());
        }
    }

    /// The cell that every new cell starts as: it holds the catalog.
    pub fn fresh(&self) -> (cell: &UndecidedTile<C>)
        ensures
            cell@ == self.catalog(),
    {
        &self.fresh
    }

    /// The number of columns.
    pub fn width(&self) -> (w: i32)
        ensures
            w == self@.width,
    {
        self.width
    }

    /// The number of rows.
    pub fn height(&self) -> (h: i32)
        ensures
            h == self@.height,
    {
        self.height
    }

    /// Whether `(x, y)` is a cell of the grid.
    pub fn contains(&self, x: i32, y: i32) -> (b: bool)
        ensures
            b == self@.in_bounds(x as int, y as int),
    {
        0 <= x && x < self.width && 0 <= y && y < self.height
    }

    /// The choices still open to the cell at `(x, y)`, or `None` where the
    /// grid has no such cell.
    pub fn possible_tiles(&self, x: i32, y: i32) -> (tiles: Option<&Vec<TileChoice<C>>>)
        requires
            self.wf(),
        ensures
            tiles is Some <==> self@.in_bounds(x as int, y as int),
            tiles matches Some(list) ==> list@ == self@.cell(x as int, y as int),
    {
        if self.contains(x, y) {
            proof {
                self.lemma_stored();
            }
            Some(self.tilegrid[x as usize][y as usize].possible_tiles())
        } else {
            None
        }
    }

    /// Puts `cell` in the place of the cell at `(x, y)`.
    fn set_cell(&mut self, x: i32, y: i32, cell: UndecidedTile<C>)
        requires
            old(self).wf(),
            old(self)@.in_bounds(x as int, y as int),
            cell.wf(),
            cell@.len() <= old(self).catalog().len(),
            forall|k: int| 0 <= k < cell@.len() ==> old(self).catalog().contains(#[trigger] cell@[k]),
        ensures
            final(self).wf(),
            final(self).catalog() == old(self).catalog(),
            final(self)@ == old(self)@.with_cell(x as int, y as int, cell@),
    {
        proof {
            self.lemma_stored();
        }
        let ghost board = self@;
        let ghost domain = cell@;
        self.tilegrid[x as usize][y as usize] = cell;
        proof {
            let after = board.with_cell(x as int, y as int, domain);
            lemma_with_cell(board, x as int, y as int, domain);
            assert(self@.cells =~~= after.cells) by {
                assert forall|cx: int| 0 <= cx < after.cells.len() implies #[trigger] self@.cells[cx]
                    =~~= after.cells[cx] by {
                    assert(board.cells[cx].len() == board.height);
                }
            }
            assert(self@ == after);
            assert forall|ox: int, oy: int, k: int|
                after.in_bounds(ox, oy) && 0 <= k < after.cell(ox, oy).len()
                implies self.catalog().contains(#[trigger] after.cell(ox, oy)[k]) by {
                if ox != x || oy != y {
                    assert(after.cell(ox, oy) == board.cell(ox, oy));
                    assert(self.catalog().contains(board.cell(ox, oy)[k]));
                }
            }
            assert forall|ox: int, oy: int| after.in_bounds(ox, oy) implies 1 <= (
            #[trigger] after.cell(ox, oy)).len() <= self.catalog().len() by {
                if ox != x || oy != y {
                    assert(after.cell(ox, oy) == board.cell(ox, oy));
                    assert(1 <= board.cell(ox, oy).len() <= self.catalog().len());
                }
            }
        }
    }

    /// Marks the choices of the cell at `(x, y)` that find no partner in
    /// the neighbour in `direction`. A neighbour beyond the edge marks none.
    fn mark_unsupported(&self, x: i32, y: i32, direction: usize, marked: &mut Vec<bool>)
        requires
            self.wf(),
            self@.in_bounds(x as int, y as int),
            direction < 4,
            old(marked)@.len() == self@.cell(x as int, y as int).len(),
        ensures
            final(marked)@.len() == old(marked)@.len(),
            forall|k: int|
                0 <= k < old(marked)@.len() ==> #[trigger] final(marked)@[k] == (old(marked)@[k]
                    || !self@.fits(
                    x as int,
                    y as int,
                    direction as int,
                    self@.cell(x as int, y as int)[k],
                )),
    {
        proof {
            self.lemma_stored();
        }
        let (nx, ny) = neighbor_of(x, y, direction);
        if !self.contains(nx, ny) {
            return ;
        }
        let side = opposite_of(direction);
        let theirs = exposed_connections(
            self.tilegrid[nx as usize][ny as usize].possible_tiles(),
            side,
        );
        let tiles = self.tilegrid[x as usize][y as usize].possible_tiles();
        let ghost domain = self@.cell(nx as int, ny as int);
        let mut k: usize = 0;
        while k < tiles.len()
            invariant
                direction < 4,
                side as int == opposite(direction as int),
                self@.in_bounds(nx as int, ny as int),
                (nx as int, ny as int) == neighbor(x as int, y as int, direction as int),
                domain == self@.cell(nx as int, ny as int),
                tiles@ == self@.cell(x as int, y as int),
                forall|label: C| theirs@.contains(label) <==> exposes(domain, side as int, label),
                k <= tiles.len(),
                marked@.len() == old(marked)@.len(),
                marked@.len() == tiles@.len(),
                forall|j: int|
                    0 <= j < k ==> #[trigger] marked@[j] == (old(marked)@[j] || !self@.fits(
                        x as int,
                        y as int,
                        direction as int,
                        tiles@[j],
                    )),
                forall|j: int| k <= j < marked@.len() ==> #[trigger] marked@[j] == old(marked)@[j],
            decreases tiles.len() - k,
        {
            let tile = tiles[k];
            let found = connects_any(&theirs, tile.connections[direction]);
            proof {
                lemma_exposed_supports(tile, direction as int, domain, theirs@);
            }
            if !found {
                marked[k] = true;
            }
            k += 1;
        }
    }

    /// Restricts the cell at `(x, y)` to the choices that suit all four
    /// neighbours as they stand, and says whether any choice went. Where
    /// none would be left the cell keeps its choices and the contradiction
    /// is reported. Outside the grid nothing happens.
    pub fn restrict_tile(&mut self, x: i32, y: i32) -> (res: Result<bool, Contradiction>)
        requires
            old(self).wf(),
        ensures
            final(self).wf(),
            final(self).catalog() == old(self).catalog(),
            !old(self)@.in_bounds(x as int, y as int) ==> final(self)@ == old(self)@ && (
            res matches Ok(changed) && !changed),
            old(self)@.in_bounds(x as int, y as int) && old(self)@.restricted(
                x as int,
                y as int,
            ).len() == 0 ==> final(self)@ == old(self)@ && (res matches Err(c) && c.x == x && c.y
                == y),
            old(self)@.in_bounds(x as int, y as int) && old(self)@.restricted(
                x as int,
                y as int,
            ).len() > 0 ==> final(self)@ == old(self)@.with_cell(
                x as int,
                y as int,
                old(self)@.restricted(x as int, y as int),
            ) && (res matches Ok(changed) && changed == (old(self)@.restricted(
                x as int,
                y as int,
            ).len() < old(self)@.cell(x as int, y as int).len())),
    {
        if !self.contains(x, y) {
            return Ok(false);
        }
        proof {
            self.lemma_stored();
        }
        let ghost board = self@;
        let ghost domain = board.cell(x as int, y as int);
        let ghost suits = |tile: TileChoice<C>| board.tile_ok(x as int, y as int, tile);
        let n = self.tilegrid[x as usize][y as usize].len();
        let mut marked: Vec<bool> = Vec::new();
        while marked.len() < n
            invariant
                marked@.len() <= n,
                forall|j: int| 0 <= j < marked@.len() ==> !marked@[j],
            decreases n - marked.len(),
        {
            marked.push(false);
        }
        self.mark_unsupported(x, y, 0, &mut marked);
        self.mark_unsupported(x, y, 1, &mut marked);
        self.mark_unsupported(x, y, 2, &mut marked);
        self.mark_unsupported(x, y, 3, &mut marked);
        assert forall|j: int| 0 <= j < n implies marked@[j] == !suits(domain[j]) by {}
        let mut kept: Vec<TileChoice<C>> = Vec::new();
        let tiles = self.tilegrid[x as usize][y as usize].possible_tiles();
        let mut k: usize = 0;
        while k < n
            invariant
                n == tiles@.len(),
                marked@.len() == n,
                tiles@ == domain,
                k <= n,
                forall|j: int| 0 <= j < n ==> marked@[j] == !suits(domain[j]),
                kept@ == domain.take(k as int).filter(suits),
            decreases n - k,
        {
            proof {
                reveal(Seq::filter);
                assert(domain.take(k + 1).drop_last() =~= domain.take(k as int));
            }
            if !marked[k] {
                kept.push(tiles[k]);
            }
            k += 1;
        }
        proof {
            assert(domain.take(n as int) =~= domain);
            assert(kept@ == board.restricted(x as int, y as int));
            domain.lemma_filter_len(suits);
        }
        if kept.len() == 0 {
            Err(Contradiction { x, y })
        } else if kept.len() < n {
            let ghost left = kept@;
            proof {
                assert forall|k: int| 0 <= k < left.len() implies self.catalog().contains(
                    #[trigger] left[k],
                ) by {
                    lemma_filter_membership(domain, suits, left[k]);
                    assert(left.contains(left[k]));
                    let j = choose|j: int| 0 <= j < domain.len() && domain[j] == left[k];
                    assert(self.catalog().contains(board.cell(x as int, y as int)[j]));
                }
            }
            self.set_cell(x, y, UndecidedTile::holding(kept));
            Ok(true)
        } else {
            proof {
                lemma_filter_all(domain, suits);
                let after = board.with_cell(x as int, y as int, domain);
                assert(board.cells[x as int] =~= board.cells[x as int].update(y as int, domain));
                assert(board.cells =~= after.cells);
            }
            Ok(false)
        }
    }

    /// The cells that propagation from `seeds` starts with: the seeds, and
    /// the neighbours of each seed that is a cell of the grid.
    fn worklist(&self, seeds: &Vec<(i32, i32)>) -> (pending: Vec<(i32, i32)>)
        requires
            self.wf(),
        ensures
            pending@.len() <= 5 * seeds@.len(),
            forall|x: int, y: int|
                self@.in_bounds(x, y) && self@.seeded(seeds@, x, y) ==> pending@.contains(at(x, y)),
    {
        let mut pending: Vec<(i32, i32)> = Vec::new();
        let mut i: usize = 0;
        while i < seeds.len()
            invariant
                self.wf(),
                i <= seeds.len(),
                pending@.len() <= 5 * i,
                forall|x: int, y: int|
                    self@.in_bounds(x, y) && self@.seeded(seeds@.take(i as int), x, y)
                        ==> pending@.contains(at(x, y)),
            decreases seeds.len() - i,
        {
            let seed = seeds[i];
            let ghost before = pending@;
            pending.push(seed);
            let ghost pushed = pending@;
            assert(pushed[pushed.len() - 1] == seed);
            if self.contains(seed.0, seed.1) {
                push_neighbors(&mut pending, seed.0, seed.1);
            }
            proof {
                let shorter = seeds@.take(i as int);
                let longer = seeds@.take(i + 1);
                assert forall|c: (i32, i32)| before.contains(c) implies pending@.contains(c) by {
                    let j = choose|j: int| 0 <= j < before.len() && before[j] == c;
                    assert(pushed[j] == c);
                    assert(pushed.contains(c));
                }
                assert(pushed.contains(seed));
                assert(pending@.contains(seed));
                assert forall|x: int, y: int|
                    self@.in_bounds(x, y) && self@.seeded(longer, x, y) implies pending@.contains(
                    at(x, y),
                ) by {
                    let j = choose|j: int|
                        0 <= j < longer.len() && ((#[trigger] longer[j]) == at(x, y) || (
                        self@.in_bounds(longer[j].0 as int, longer[j].1 as int) && adjacent(
                            longer[j].0 as int,
                            longer[j].1 as int,
                            x,
                            y,
                        )));
                    if j < i {
                        assert(shorter[j] == longer[j]);
                        assert(self@.seeded(shorter, x, y));
                        assert(before.contains(at(x, y)));
                    } else {
                        assert(longer[j] == seed);
                        if seed != at(x, y) {
                            let sx = seed.0 as int;
                            let sy = seed.1 as int;
                            assert(pending@.contains(at(neighbor(sx, sy, 0).0, neighbor(sx, sy, 0).1)));
                            assert(pending@.contains(at(neighbor(sx, sy, 1).0, neighbor(sx, sy, 1).1)));
                            assert(pending@.contains(at(neighbor(sx, sy, 2).0, neighbor(sx, sy, 2).1)));
                            assert(pending@.contains(at(neighbor(sx, sy, 3).0, neighbor(sx, sy, 3).1)));
                        }
                    }
                }
            }
            i += 1;
        }
        assert(seeds@.take(seeds@.len() as int) =~= seeds@);
        pending
    }

    /// Restricts the cells named by `vec` and their neighbours, and goes on
    /// restricting the neighbours of every cell that lost a choice, until
    /// nothing changes. Returns the number of restrictions it made, or the
    /// cell at which no choice was left; the grid then stays as far as
    /// propagation had come.
    ///
    /// Whatever the seeds, no choice is struck that a consistent board
    /// within the grid holds. Where every cell away from the seeds was
    /// stable before, the grid ends as the greatest consistent board
    /// within what it was, and fails exactly where that board has an empty
    /// cell.
    pub fn restrict_and_propegate(&mut self, vec: Vec<(i32, i32)>) -> (res: Result<
        usize,
        Contradiction,
    >)
        requires
            old(self).wf(),
        ensures
            final(self).wf(),
            final(self).catalog() == old(self).catalog(),
            final(self)@.thinned_from(old(self)@),
            old(self)@.retained_by(final(self)@),
            res matches Ok(steps) ==> steps <= 5 * vec@.len() + 4 * (old(self)@.size() - final(self)@.size()),
            res is Ok && old(self)@.stable_outside(vec@) ==> final(self)@.consistent() && final(self)@ == old(self)@.kernel() && old(self)@.restrictable(),
            res matches Err(c) ==> final(self)@.in_bounds(c.x as int, c.y as int) && final(self)@.restricted(c.x as int, c.y as int).len() == 0 && !old(self)@.restrictable(),
    {
        let ghost first = self@;
        let mut todo_indices = self.worklist(&vec);
        let mut steps: usize = 0;
        proof {
            assert forall|x: int, y: int| first.in_bounds(x, y) implies struck(
                #[trigger] first.cell(x, y),
                first.cell(x, y),
            ) by {
                lemma_struck_reflexive(first.cell(x, y));
            }
        }
        while todo_indices.len() > 0
            invariant
                self.wf(),
                first.shaped(),
                self.catalog() == old(self).catalog(),
                first == old(self)@,
                self@.thinned_from(first),
                first.retained_by(self@),
                first.stable_outside(vec@) ==> self@.stable_but(todo_indices@),
                steps + todo_indices@.len() + 4 * self@.size() <= 5 * vec@.len() + 4 * first.size(),
            decreases 4 * self@.size() + todo_indices@.len(),
        {
            let ghost board = self@;
            let ghost pending = todo_indices@;
            let (x, y) = todo_indices.pop().unwrap();
            assert(pending.last() == (x, y));
            assert(todo_indices@ == pending.drop_last());
            if steps < usize::MAX {
                steps += 1;
            }
            match self.restrict_tile(x, y) {
                Ok(changed) => {
                    proof {
                        if board.in_bounds(x as int, y as int) {
                            lemma_restriction_step(first, board, x as int, y as int);
                        }
                    }
                    if changed {
                        push_neighbors(&mut todo_indices, x, y);
                        proof {
                            if first.stable_outside(vec@) {
                                lemma_pending_changed(board, pending, todo_indices@);
                            }
                        }
                    } else {
                        proof {
                            if first.stable_outside(vec@) {
                                if board.in_bounds(x as int, y as int) {
                                    lemma_filter_all(
                                        board.cell(x as int, y as int),
                                        |t: TileChoice<C>| board.tile_ok(x as int, y as int, t),
                                    );
                                    lemma_with_same_cell(board, x as int, y as int);
                                }
                                lemma_pending_popped(board, pending);
                            }
                        }
                    }
                },
                Err(c) => {
                    proof {
                        lemma_contradiction(first, board, x as int, y as int);
                    }
                    return Err(c);
                },
            }
        }
        proof {
            if first.stable_outside(vec@) {
                assert forall|x: int, y: int| self@.in_bounds(x, y) implies #[trigger] self@.stable(
                    x,
                    y,
                ) by {
                    assert(!todo_indices@.contains(at(x, y)));
                }
                lemma_kernel_reached(first, self@);
                assert(self@.full());
            }
        }
        Ok(steps)
    }

    /// The cells of the grid, column after column, each from its first row
    /// down.
    pub fn all_cells(&self) -> (cells: Vec<(i32, i32)>)
        requires
            self.wf(),
        ensures
            forall|k: int|
                0 <= k < cells@.len() ==> self@.in_bounds(
                    (#[trigger] cells@[k]).0 as int,
                    cells@[k].1 as int,
                ),
            forall|x: int, y: int| self@.in_bounds(x, y) ==> cells@.contains(#[trigger] at(x, y)),
            forall|k: int, l: int| 0 <= k < l < cells@.len() ==> before(cells@[k], cells@[l]),
            cells@.len() == self@.width * self@.height,
    {
        let mut cells: Vec<(i32, i32)> = Vec::new();
        let mut i: i32 = 0;
        while i < self.width
            invariant
                self.wf(),
                0 <= i <= self.width,
                cells@.len() == i * self.height,
                forall|k: int|
                    0 <= k < cells@.len() ==> self@.in_bounds(
                        (#[trigger] cells@[k]).0 as int,
                        cells@[k].1 as int,
                    ) && cells@[k].0 < i,
                forall|x: int, y: int|
                    self@.in_bounds(x, y) && x < i ==> cells@.contains(#[trigger] at(x, y)),
                forall|k: int, l: int| 0 <= k < l < cells@.len() ==> before(cells@[k], cells@[l]),
            decreases self.width - i,
        {
            let mut j: i32 = 0;
            while j < self.height
                invariant
                    self.wf(),
                    0 <= i < self.width,
                    0 <= j <= self.height,
                    cells@.len() == i * self.height + j,
                    forall|k: int|
                        0 <= k < cells@.len() ==> self@.in_bounds(
                            (#[trigger] cells@[k]).0 as int,
                            cells@[k].1 as int,
                        ) && (cells@[k].0 < i || (cells@[k].0 == i && cells@[k].1 < j)),
                    forall|x: int, y: int|
                        self@.in_bounds(x, y) && (x < i || (x == i && y < j)) ==> cells@.contains(
                            #[trigger] at(x, y),
                        ),
                    forall|k: int, l: int|
                        0 <= k < l < cells@.len() ==> before(cells@[k], cells@[l]),
                decreases self.height - j,
            {
                let ghost earlier = cells@;
                cells.push((i, j));
                proof {
                    assert(cells@[cells@.len() - 1] == at(i as int, j as int));
                    assert forall|x: int, y: int|
                        self@.in_bounds(x, y) && (x < i || (x == i && y < j + 1))
                        implies cells@.contains(#[trigger] at(x, y)) by {
                        if x < i || (x == i && y < j) {
                            assert(earlier.contains(at(x, y)));
                            let k = choose|k: int| 0 <= k < earlier.len() && earlier[k] == at(x, y);
                            assert(cells@[k] == at(x, y));
                        }
                    }
                }
                j += 1;
            }
            assert(i * self.height + self.height == (i + 1) * self.height) by (nonlinear_arith);
            i += 1;
        }
        cells
    }

    /// Restricts every cell and propagates until nothing changes. The
    /// grid ends as the greatest consistent board within what it was, and
    /// the call fails exactly where that board has an empty cell.
    pub fn restrict_grid(&mut self) -> (res: Result<(), Contradiction>)
        requires
            old(self).wf(),
        ensures
            final(self).wf(),
            final(self).catalog() == old(self).catalog(),
            final(self)@.propagation_of(old(self)@),
            res is Ok ==> final(self)@.settled_from(old(self)@),
            res matches Err(c) ==> final(self)@.stuck_at(c.x as int, c.y as int) && !old(self)@.restrictable(),
    {
        let todo_indices = self.all_cells();
        proof {
            assert forall|x: int, y: int| self@.in_bounds(x, y) implies self@.seeded(
                todo_indices@,
                x,
                y,
            ) by {
                assert(todo_indices@.contains(at(x, y)));
                let i = choose|i: int| 0 <= i < todo_indices@.len() && todo_indices@[i] == at(x, y);
                assert(todo_indices@[i] == at(x, y));
            }
        }
        match self.restrict_and_propegate(todo_indices) {
            Ok(_) => Ok(()),
            Err(c) => Err(c),
        }
    }

    /// Restricts the cells outside the rectangle of the columns from
    /// `left` up to `right` and the rows from `top` up to `bottom`, with
    /// the cells beside them, and propagates until nothing changes. Where
    /// the cells further in were stable, the grid ends as the greatest
    /// consistent board within what it was.
    pub fn restrict_grid_edges(&mut self, top: i32, bottom: i32, left: i32, right: i32) -> (res:
        Result<(), Contradiction>)
        requires
            old(self).wf(),
        ensures
            final(self).wf(),
            final(self).catalog() == old(self).catalog(),
            final(self)@.propagation_of(old(self)@),
            res is Ok && old(self)@.stable_off_band(
                top as int,
                bottom as int,
                left as int,
                right as int,
            ) ==> final(self)@.settled_from(old(self)@),
            res matches Err(c) ==> final(self)@.stuck_at(c.x as int, c.y as int) && !old(self)@.restrictable(),
    {
        let cells = self.all_cells();
        let mut todo_indices: Vec<(i32, i32)> = Vec::new();
        let mut k: usize = 0;
        while k < cells.len()
            invariant
                k <= cells.len(),
                forall|j: int|
                    0 <= j < k && self@.in_band(
                        top as int,
                        bottom as int,
                        left as int,
                        right as int,
                        (#[trigger] cells@[j]).0 as int,
                        cells@[j].1 as int,
                    ) ==> todo_indices@.contains(cells@[j]),
            decreases cells.len() - k,
        {
            let (i, j) = cells[k];
            let ghost earlier = todo_indices@;
            if i < left || i >= right || j < top || j >= bottom {
                todo_indices.push((i, j));
                assert(todo_indices@[todo_indices@.len() - 1] == cells@[k as int]);
            }
            proof {
                assert forall|c: (i32, i32)| earlier.contains(c) implies todo_indices@.contains(
                    c,
                ) by {
                    let n = choose|n: int| 0 <= n < earlier.len() && earlier[n] == c;
                    assert(todo_indices@[n] == c);
                }
            }
            k += 1;
        }
        proof {
            let board = self@;
            if board.stable_off_band(top as int, bottom as int, left as int, right as int) {
                assert forall|x: int, y: int|
                    board.in_bounds(x, y) && !board.seeded(todo_indices@, x, y)
                    implies #[trigger] board.stable(x, y) by {
                    if board.in_band(top as int, bottom as int, left as int, right as int, x, y) {
                        assert(cells@.contains(at(x, y)));
                        let n = choose|n: int| 0 <= n < cells@.len() && cells@[n] == at(x, y);
                        assert(todo_indices@.contains(cells@[n]));
                        let m = choose|m: int|
                            0 <= m < todo_indices@.len() && todo_indices@[m] == at(x, y);
                        assert(todo_indices@[m] == at(x, y));
                    }
                    assert forall|d: int| 0 <= d < 4 implies !board.in_band(
                        top as int,
                        bottom as int,
                        left as int,
                        right as int,
                        #[trigger] neighbor(x, y, d).0,
                        neighbor(x, y, d).1,
                    ) by {
                        let (nx, ny) = neighbor(x, y, d);
                        if board.in_band(
                            top as int,
                            bottom as int,
                            left as int,
                            right as int,
                            nx,
                            ny,
                        ) {
                            assert(cells@.contains(at(nx, ny)));
                            let n = choose|n: int| 0 <= n < cells@.len() && cells@[n] == at(nx, ny);
                            assert(todo_indices@.contains(cells@[n]));
                            let m = choose|m: int|
                                0 <= m < todo_indices@.len() && todo_indices@[m] == at(nx, ny);
                            assert(todo_indices@[m] == at(nx, ny));
                            assert(adjacent(nx, ny, x, y));
                        }
                    }
                }
            }
        }
        match self.restrict_and_propegate(todo_indices) {
            Ok(_) => Ok(()),
            Err(c) => Err(c),
        }
    }

    /// A grid of `width` columns and `height` rows, a dimension below zero
    /// counting as zero, whose every cell starts as `fresh` and is then
    /// restricted against its neighbours. The grid is the greatest
    /// consistent board within the one whose every cell holds all of
    /// `fresh`; where that board has an empty cell there is no grid, and
    /// a cell that was left without a choice is named.
    pub fn new(width: i32, height: i32, fresh: UndecidedTile<C>) -> (res: Result<
        Self,
        Contradiction,
    >)
        requires
            fresh.wf(),
        ensures
            res matches Ok(grid) ==> grid.wf() && grid.catalog() == fresh@ && grid@.settled_from(
                uniform(
                    if width > 0 {
                        width as int
                    } else {
                        0
                    },
                    if height > 0 {
                        height as int
                    } else {
                        0
                    },
                    fresh@,
                ),
            ),
            res matches Err(c) ==> 0 <= c.x < width && 0 <= c.y < height,
            res is Err ==> !uniform(
                if width > 0 {
                    width as int
                } else {
                    0
                },
                if height > 0 {
                    height as int
                } else {
                    0
                },
                fresh@,
            ).restrictable(),
    {
        let width = if width > 0 {
            width
        } else {
            0
        };
        let height = if height > 0 {
            height
        } else {
            0
        };
        let mut tilegrid: Vec<Vec<UndecidedTile<C>>> = Vec::new();
        let mut i: i32 = 0;
        while i < width
            invariant
                0 <= i <= width,
                0 <= height,
                tilegrid@.len() == i,
                forall|x: int| 0 <= x < i ==> (#[trigger] tilegrid@[x])@.len() == height,
                forall|x: int, y: int|
                    0 <= x < i && 0 <= y < height ==> (#[trigger] tilegrid@[x]@[y])@ == fresh@,
            decreases width - i,
        {
            let mut col: Vec<UndecidedTile<C>> = Vec::new();
            let mut j: i32 = 0;
            while j < height
                invariant
                    0 <= j <= height,
                    col@.len() == j,
                    forall|y: int| 0 <= y < j ==> (#[trigger] col@[y])@ == fresh@,
                decreases height - j,
            {
                col.push(fresh.duplicate());
                j += 1;
            }
            tilegrid.push(col);
            i += 1;
        }
        let mut output = TileGrid { tilegrid, width, height, fresh };
        proof {
            let start = uniform(width as int, height as int, output.fresh@);
            assert(output@.cells =~~= start.cells);
            assert(output@ == start);
            assert forall|x: int, y: int, k: int|
                start.in_bounds(x, y) && 0 <= k < start.cell(x, y).len()
                implies output.catalog().contains(#[trigger] start.cell(x, y)[k]) by {}
        }
        match output.restrict_grid() {
            Ok(()) => Ok(output),
            Err(c) => Err(c),
        }
    }

    /// The cells of a grid of the given dimensions that shows this one
    /// through a window moved by `(dx, dy)`.
    fn windowed(&self, width: i32, height: i32, dx: i32, dy: i32) -> (tilegrid: Vec<
        Vec<UndecidedTile<C>>,
    >)
        requires
            self.wf(),
            0 <= width,
            0 <= height,
        ensures
            tilegrid@.len() == width,
            forall|x: int| 0 <= x < width ==> (#[trigger] tilegrid@[x])@.len() == height,
            forall|x: int, y: int|
                0 <= x < width && 0 <= y < height ==> (#[trigger] tilegrid@[x]@[y])@ == (
                if self@.in_bounds(x + dx, y + dy) {
                    self@.cell(x + dx, y + dy)
                } else {
                    self.catalog()
                }),
    {
        proof {
            self.lemma_stored();
        }
        let mut tilegrid: Vec<Vec<UndecidedTile<C>>> = Vec::new();
        let mut i: i32 = 0;
        while i < width
            invariant
                self.wf(),
                0 <= i <= width,
                0 <= height,
                tilegrid@.len() == i,
                forall|x: int| 0 <= x < i ==> (#[trigger] tilegrid@[x])@.len() == height,
                forall|x: int, y: int|
                    0 <= x < i && 0 <= y < height ==> (#[trigger] tilegrid@[x]@[y])@ == (
                    if self@.in_bounds(x + dx, y + dy) {
                        self@.cell(x + dx, y + dy)
                    } else {
                        self.catalog()
                    }),
            decreases width - i,
        {
            let mut col: Vec<UndecidedTile<C>> = Vec::new();
            let mut j: i32 = 0;
            while j < height
                invariant
                    self.wf(),
                    0 <= i < width,
                    0 <= j <= height,
                    col@.len() == j,
                    forall|y: int|
                        0 <= y < j ==> (#[trigger] col@[y])@ == (if self@.in_bounds(i + dx, y + dy) {
                            self@.cell(i + dx, y + dy)
                        } else {
                            self.catalog()
                        }),
                decreases height - j,
            {
                let new_x: i64 = i as i64 + dx as i64;
                let new_y: i64 = j as i64 + dy as i64;
                if new_x < 0 || new_x >= self.width as i64 || new_y < 0 || new_y
                    >= self.height as i64 {
                    col.push(self.fresh.duplicate());
                } else {
                    proof {
                        self.lemma_stored();
                    }
                    col.push(self.tilegrid[new_x as usize][new_y as usize].duplicate());
                }
                j += 1;
            }
            tilegrid.push(col);
            i += 1;
        }
        tilegrid
    }

    /// Puts the window in the place of the grid.
    fn show_window(&mut self, width: i32, height: i32, dx: i32, dy: i32)
        requires
            old(self).wf(),
            0 <= width,
            0 <= height,
        ensures
            final(self).wf(),
            final(self).catalog() == old(self).catalog(),
            final(self)@ == old(self)@.window(
                width as int,
                height as int,
                dx as int,
                dy as int,
                old(self).catalog(),
            ),
    {
        let ghost board = self@;
        let ghost catalog = self.catalog();
        let tilegrid = self.windowed(width, height, dx, dy);
        self.tilegrid = tilegrid;
        self.width = width;
        self.height = height;
        proof {
            let seen = board.window(width as int, height as int, dx as int, dy as int, catalog);
            assert(self@.cells =~~= seen.cells);
            assert(self@ == seen);
            assert forall|x: int, y: int| seen.in_bounds(x, y) implies 1 <= (#[trigger] seen.cell(
                x,
                y,
            )).len() <= catalog.len() by {
                if board.in_bounds(x + dx, y + dy) {
                    assert(1 <= board.cell(x + dx, y + dy).len() <= catalog.len());
                }
            }
            assert forall|x: int, y: int, k: int|
                seen.in_bounds(x, y) && 0 <= k < seen.cell(x, y).len() implies catalog.contains(
                #[trigger] seen.cell(x, y)[k],
            ) by {
                if board.in_bounds(x + dx, y + dy) {
                    assert(catalog.contains(board.cell(x + dx, y + dy)[k]));
                }
            }
        }
    }

    /// Gives the grid `width` columns and `height` rows: cells beyond the
    /// new edge go, and each new cell starts with all choices of the
    /// catalog. The new cells and their neighbours are then restricted and
    /// the changes propagated. A dimension below one leaves the grid as it
    /// is.
    pub fn expand_to(&mut self, width: i32, height: i32) -> (res: Result<(), Contradiction>)
        requires
            old(self).wf(),
        ensures
            final(self).wf(),
            final(self).catalog() == old(self).catalog(),
            width < 1 || height < 1 ==> final(self)@ == old(self)@ && res is Ok,
            width >= 1 && height >= 1 ==> final(self)@.propagation_of(
                old(self)@.window(width as int, height as int, 0, 0, old(self).catalog()),
            ),
            width >= 1 && height >= 1 && res is Ok && old(self)@.consistent() ==> final(self)@.settled_from(
                old(self)@.window(width as int, height as int, 0, 0, old(self).catalog()),
            ),
            width >= 1 && height >= 1 ==> (res matches Err(c) ==> final(self)@.stuck_at(
                c.x as int,
                c.y as int,
            ) && !old(self)@.window(
                width as int,
                height as int,
                0,
                0,
                old(self).catalog(),
            ).restrictable()),
    {
        if width < 1 || height < 1 {
            return Ok(());
        }
        let old_width = self.width;
        let old_height = self.height;
        let ghost board = self@;
        let ghost catalog = self.catalog();
        self.show_window(width, height, 0, 0);
        let cells = self.all_cells();
        let mut to_propegate: Vec<(i32, i32)> = Vec::new();
        let mut k: usize = 0;
        while k < cells.len()
            invariant
                k <= cells.len(),
                forall|j: int|
                    0 <= j < k && ((#[trigger] cells@[j]).0 >= old_width || cells@[j].1
                        >= old_height) ==> to_propegate@.contains(cells@[j]),
            decreases cells.len() - k,
        {
            let (i, j) = cells[k];
            let ghost earlier = to_propegate@;
            if i >= old_width || j >= old_height {
                to_propegate.push((i, j));
                assert(to_propegate@[to_propegate@.len() - 1] == cells@[k as int]);
            }
            proof {
                assert forall|c: (i32, i32)| earlier.contains(c) implies to_propegate@.contains(
                    c,
                ) by {
                    let n = choose|n: int| 0 <= n < earlier.len() && earlier[n] == c;
                    assert(to_propegate@[n] == c);
                }
            }
            k += 1;
        }
        proof {
            let seen = self@;
            if board.consistent() {
                assert forall|x: int, y: int|
                    seen.in_bounds(x, y) && !seen.seeded(to_propegate@, x, y)
                    implies #[trigger] seen.stable(x, y) by {
                    if !board.in_bounds(x, y) {
                        assert(cells@.contains(at(x, y)));
                        let n = choose|n: int| 0 <= n < cells@.len() && cells@[n] == at(x, y);
                        assert(to_propegate@.contains(cells@[n]));
                        let m = choose|m: int|
                            0 <= m < to_propegate@.len() && to_propegate@[m] == at(x, y);
                        assert(to_propegate@[m] == at(x, y));
                    }
                    assert forall|d: int|
                        0 <= d < 4 && 0 <= (#[trigger] neighbor(x, y, d)).0 < width && 0
                            <= neighbor(x, y, d).1 < height implies board.in_bounds(
                        neighbor(x, y, d).0 + 0,
                        neighbor(x, y, d).1 + 0,
                    ) by {
                        let (nx, ny) = neighbor(x, y, d);
                        if !board.in_bounds(nx, ny) {
                            assert(cells@.contains(at(nx, ny)));
                            let n = choose|n: int| 0 <= n < cells@.len() && cells@[n] == at(nx, ny);
                            assert(to_propegate@.contains(cells@[n]));
                            let m = choose|m: int|
                                0 <= m < to_propegate@.len() && to_propegate@[m] == at(nx, ny);
                            assert(to_propegate@[m] == at(nx, ny));
                            assert(adjacent(nx, ny, x, y));
                        }
                    }
                    lemma_window_stable(board, width as int, height as int, 0, 0, catalog, x, y);
                }
            }
        }
        match self.restrict_and_propegate(to_propegate) {
            Ok(_) => Ok(()),
            Err(c) => Err(c),
        }
    }

    /// Moves the grid as a window over the plane: the cell at `(i, j)`
    /// takes what the cell at `(i + x, j + y)` held, and starts with all
    /// choices of the catalog where there was no such cell. The cells that
    /// came in at the edge and their neighbours are then restricted and the
    /// changes propagated.
    pub fn shift(&mut self, x: i32, y: i32) -> (res: Result<(), Contradiction>)
        requires
            old(self).wf(),
        ensures
            final(self).wf(),
            final(self).catalog() == old(self).catalog(),
            final(self)@.propagation_of(
                old(self)@.window(
                    old(self)@.width,
                    old(self)@.height,
                    x as int,
                    y as int,
                    old(self).catalog(),
                ),
            ),
            res is Ok && old(self)@.consistent() ==> final(self)@.settled_from(
                old(self)@.window(
                    old(self)@.width,
                    old(self)@.height,
                    x as int,
                    y as int,
                    old(self).catalog(),
                ),
            ),
            res matches Err(c) ==> final(self)@.stuck_at(c.x as int, c.y as int) && !old(self)@.window(
                old(self)@.width,
                old(self)@.height,
                x as int,
                y as int,
                old(self).catalog(),
            ).restrictable(),
    {
        let ghost board = self@;
        let ghost catalog = self.catalog();
        let width = self.width;
        let height = self.height;
        proof {
            self.lemma_stored();
        }
        self.show_window(width, height, x, y);
        let top: i32 = if y >= 0 {
            0
        } else if y <= -height {
            height
        } else {
            -y
        };
        let bottom: i32 = if y <= 0 {
            height
        } else if y >= height {
            0
        } else {
            height - y
        };
        let left: i32 = if x >= 0 {
            0
        } else if x <= -width {
            width
        } else {
            -x
        };
        let right: i32 = if x <= 0 {
            width
        } else if x >= width {
            0
        } else {
            width - x
        };
        proof {
            let seen = self@;
            if board.consistent() {
                assert forall|px: int, py: int|
                    seen.in_bounds(px, py) && !seen.in_band(
                        top as int,
                        bottom as int,
                        left as int,
                        right as int,
                        px,
                        py,
                    ) && (forall|d: int|
                        0 <= d < 4 ==> !seen.in_band(
                            top as int,
                            bottom as int,
                            left as int,
                            right as int,
                            #[trigger] neighbor(px, py, d).0,
                            neighbor(px, py, d).1,
                        )) implies #[trigger] seen.stable(px, py) by {
                    assert forall|d: int|
                        0 <= d < 4 && 0 <= (#[trigger] neighbor(px, py, d)).0 < width && 0
                            <= neighbor(px, py, d).1 < height implies board.in_bounds(
                        neighbor(px, py, d).0 + x,
                        neighbor(px, py, d).1 + y,
                    ) by {
                        assert(!seen.in_band(
                            top as int,
                            bottom as int,
                            left as int,
                            right as int,
                            neighbor(px, py, d).0,
                            neighbor(px, py, d).1,
                        ));
                    }
                    lemma_window_stable(
                        board,
                        width as int,
                        height as int,
                        x as int,
                        y as int,
                        catalog,
                        px,
                        py,
                    );
                }
            }
        }
        self.restrict_grid_edges(top, bottom, left, right)
    }

    /// Gives the cell at `(x, y)` all choices of the catalog again, and
    /// leaves its neighbours as they are. Outside the grid nothing happens.
    pub fn unrestrict_tile(&mut self, x: i32, y: i32)
        requires
            old(self).wf(),
        ensures
            final(self).wf(),
            final(self).catalog() == old(self).catalog(),
            old(self)@.in_bounds(x as int, y as int) ==> final(self)@ == old(self)@.with_cell(
                x as int,
                y as int,
                old(self).catalog(),
            ),
            !old(self)@.in_bounds(x as int, y as int) ==> final(self)@ == old(self)@,
    {
        if self.contains(x, y) {
            proof {
                self.lemma_stored();
            }
            let cell = self.fresh.duplicate();
            self.set_cell(x, y, cell);
        }
    }

    /// Settles the cell at `(x, y)` on its choice number `index`, then
    /// restricts it and its four neighbours and propagates the changes.
    /// Outside the grid, or past the choices of the cell, nothing happens.
    pub fn force_choice(&mut self, x: i32, y: i32, index: usize) -> (res: Result<
        (),
        Contradiction,
    >)
        requires
            old(self).wf(),
        ensures
            final(self).wf(),
            final(self).catalog() == old(self).catalog(),
            !(old(self)@.in_bounds(x as int, y as int) && index < old(self)@.cell(
                x as int,
                y as int,
            ).len()) ==> final(self)@ == old(self)@ && res is Ok,
            old(self)@.in_bounds(x as int, y as int) && index < old(self)@.cell(
                x as int,
                y as int,
            ).len() ==> ({
                let chosen = seq![old(self)@.cell(x as int, y as int)[index as int]];
                let start = old(self)@.with_cell(x as int, y as int, chosen);
                &&& final(self)@.propagation_of(start)
                &&& res is Ok && old(self)@.consistent() ==> final(self)@.settled_from(start)
                &&& res matches Err(c) ==> final(self)@.stuck_at(c.x as int, c.y as int)
                    && !start.restrictable()
            }),
    {
        if !self.contains(x, y) {
            return Ok(());
        }
        proof {
            self.lemma_stored();
        }
        if index >= self.tilegrid[x as usize][y as usize].len() {
            return Ok(());
        }
        let ghost board = self@;
        let mut cell = self.tilegrid[x as usize][y as usize].duplicate();
        cell.select(index);
        proof {
            assert(self.catalog().contains(board.cell(x as int, y as int)[index as int]));
        }
        self.set_cell(x, y, cell);
        let todo_indices = vec![(x, y), (x, y - 1), (x, y + 1), (x - 1, y), (x + 1, y)];
        proof {
            assert(todo_indices@[0] == at(x as int, y as int));
            if board.consistent() {
                lemma_replaced_stable_outside(
                    board,
                    x as int,
                    y as int,
                    seq![board.cell(x as int, y as int)[index as int]],
                    todo_indices@,
                );
            }
        }
        match self.restrict_and_propegate(todo_indices) {
            Ok(_) => Ok(()),
            Err(c) => Err(c),
        }
    }

    /// Settles the cell at `(x, y)` by a draw among its choices, weighted
    /// by their weights, then restricts it and its four neighbours and
    /// propagates the changes. A decided cell, and one whose weights are
    /// all zero, keeps its choices and is propagated from all the same.
    /// Outside the grid nothing happens.
    ///
    /// The choice drawn is the one that the cell holds afterwards: it is
    /// one of the choices that the cell held, with a weight above zero,
    /// and the grid is what propagation makes of the board with that
    /// choice in the cell.
    pub fn collapse_and_propegate(&mut self, x: i32, y: i32, rng: &mut StdRng) -> (res: Result<
        (),
        Contradiction,
    >)
        requires
            old(self).wf(),
        ensures
            final(self).wf(),
            final(self).catalog() == old(self).catalog(),
            !old(self)@.in_bounds(x as int, y as int) ==> final(self)@ == old(self)@ && res is Ok,
            old(self)@.in_bounds(x as int, y as int) ==> ({
                let before = old(self)@.cell(x as int, y as int);
                let after = final(self)@.cell(x as int, y as int);
                let drew = before.len() > 1 && drawable(before);
                let start = if drew {
                    old(self)@.with_cell(x as int, y as int, after)
                } else {
                    old(self)@
                };
                &&& drew ==> exists|k: int|
                    0 <= k < before.len() && (#[trigger] before[k]).weight > 0 && after
                        == seq![before[k]]
                &&& final(self)@.propagation_of(start)
                &&& res is Ok && old(self)@.consistent() ==> final(self)@.settled_from(start)
                &&& res matches Err(c) ==> final(self)@.stuck_at(c.x as int, c.y as int)
                    && !start.restrictable()
            }),
    {
        if !self.contains(x, y) {
            return Ok(());
        }
        proof {
            self.lemma_stored();
        }
        let ghost board = self@;
        let ghost before = board.cell(x as int, y as int);
        let mut cell = self.tilegrid[x as usize][y as usize].duplicate();
        cell.collapse(rng);
        let ghost drawn = cell@;
        proof {
            assert forall|k: int| 0 <= k < drawn.len() implies self.catalog().contains(
                #[trigger] drawn[k],
            ) by {
                if before.len() > 1 && drawable(before) {
                    let j = choose|j: int|
                        0 <= j < before.len() && (#[trigger] before[j]).weight > 0 && drawn
                            == seq![before[j]];
                    assert(self.catalog().contains(board.cell(x as int, y as int)[j]));
                } else {
                    assert(self.catalog().contains(board.cell(x as int, y as int)[k]));
                }
            }
        }
        self.set_cell(x, y, cell);
        let ghost start = self@;
        let todo_indices = vec![(x, y), (x, y - 1), (x, y + 1), (x - 1, y), (x + 1, y)];
        proof {
            assert(todo_indices@[0] == at(x as int, y as int));
            lemma_with_cell(board, x as int, y as int, drawn);
            if board.consistent() {
                lemma_replaced_stable_outside(board, x as int, y as int, drawn, todo_indices@);
            }
            if !(before.len() > 1 && drawable(before)) {
                lemma_with_same_cell(board, x as int, y as int);
            }
        }
        let res = self.restrict_and_propegate(todo_indices);
        proof {
            if before.len() > 1 && drawable(before) {
                let j = choose|j: int|
                    0 <= j < before.len() && (#[trigger] before[j]).weight > 0 && drawn
                        == seq![before[j]];
                let after = self@.cell(x as int, y as int);
                assert(struck(after, start.cell(x as int, y as int)));
                assert(after.len() > 0);
                lemma_struck_single(after, before[j]);
            }
        }
        match res {
            Ok(_) => Ok(()),
            Err(c) => Err(c),
        }
    }

    /// Gives every undecided cell all choices of the catalog again, then
    /// restricts the whole grid. The decided cells stay, and the grid ends
    /// as the greatest consistent board round them.
    pub fn unrestrict_grid(&mut self) -> (res: Result<(), Contradiction>)
        requires
            old(self).wf(),
        ensures
            final(self).wf(),
            final(self).catalog() == old(self).catalog(),
            final(self)@.propagation_of(old(self)@.unrestricted(old(self).catalog())),
            res is Ok ==> final(self)@.settled_from(old(self)@.unrestricted(old(self).catalog())),
            res matches Err(c) ==> final(self)@.stuck_at(c.x as int, c.y as int) && !old(self)@.unrestricted(old(self).catalog()).restrictable(),
    {
        proof {
            self.lemma_stored();
        }
        let ghost board = self@;
        let ghost catalog = self.catalog();
        let mut tilegrid: Vec<Vec<UndecidedTile<C>>> = Vec::new();
        let mut i: i32 = 0;
        while i < self.width
            invariant
                self.wf(),
                board == self@,
                catalog == self.catalog(),
                0 <= i <= self.width,
                tilegrid@.len() == i,
                forall|x: int| 0 <= x < i ==> (#[trigger] tilegrid@[x])@.len() == self.height,
                forall|x: int, y: int|
                    0 <= x < i && 0 <= y < self.height ==> (#[trigger] tilegrid@[x]@[y])@ == (
                    if board.cell(x, y).len() > 1 {
                        catalog
                    } else {
                        board.cell(x, y)
                    }),
            decreases self.width - i,
        {
            let mut col: Vec<UndecidedTile<C>> = Vec::new();
            let mut j: i32 = 0;
            while j < self.height
                invariant
                    self.wf(),
                    board == self@,
                    catalog == self.catalog(),
                    0 <= i < self.width,
                    0 <= j <= self.height,
                    col@.len() == j,
                    forall|y: int|
                        0 <= y < j ==> (#[trigger] col@[y])@ == (if board.cell(i as int, y).len()
                            > 1 {
                            catalog
                        } else {
                            board.cell(i as int, y)
                        }),
                decreases self.height - j,
            {
                proof {
                    self.lemma_stored();
                }
                if self.tilegrid[i as usize][j as usize].len() > 1 {
                    col.push(self.fresh.duplicate());
                } else {
                    col.push(self.tilegrid[i as usize][j as usize].duplicate());
                }
                j += 1;
            }
            tilegrid.push(col);
            i += 1;
        }
        self.tilegrid = tilegrid;
        proof {
            let start = board.unrestricted(catalog);
            assert(self@.cells =~~= start.cells);
            assert(self@ == start);
            assert forall|x: int, y: int| start.in_bounds(x, y) implies 1 <= (
            #[trigger] start.cell(x, y)).len() <= catalog.len() by {
                assert(1 <= board.cell(x, y).len() <= catalog.len());
            }
            assert forall|x: int, y: int, k: int|
                start.in_bounds(x, y) && 0 <= k < start.cell(x, y).len() implies catalog.contains(
                #[trigger] start.cell(x, y)[k],
            ) by {
                if board.cell(x, y).len() <= 1 {
                    assert(catalog.contains(board.cell(x, y)[k]));
                }
            }
        }
        self.restrict_grid()
    }

    /// Whether `tile`, placed at `(x, y)`, suits its neighbour in
    /// `direction`.
    fn tile_fits(&self, x: i32, y: i32, direction: usize, tile: TileChoice<C>) -> (b: bool)
        requires
            self.wf(),
            self@.in_bounds(x as int, y as int),
            direction < 4,
        ensures
            b == self@.fits(x as int, y as int, direction as int, tile),
    {
        proof {
            self.lemma_stored();
        }
        let (nx, ny) = neighbor_of(x, y, direction);
        if !self.contains(nx, ny) {
            return true;
        }
        finds_partner(tile, direction, self.tilegrid[nx as usize][ny as usize].possible_tiles())
    }

    /// Whether every choice of the cell at `(x, y)` suits all four
    /// neighbours, found by looking at every pair of choices. Outside the
    /// grid there is nothing to find at fault.
    pub fn is_stable(&self, x: i32, y: i32) -> (b: bool)
        requires
            self.wf(),
        ensures
            self@.in_bounds(x as int, y as int) ==> b == self@.stable(x as int, y as int),
            !self@.in_bounds(x as int, y as int) ==> b,
    {
        if !self.contains(x, y) {
            return true;
        }
        proof {
            self.lemma_stored();
        }
        let tiles = self.tilegrid[x as usize][y as usize].possible_tiles();
        let mut k: usize = 0;
        while k < tiles.len()
            invariant
                self.wf(),
                self@.in_bounds(x as int, y as int),
                tiles@ == self@.cell(x as int, y as int),
                k <= tiles.len(),
                forall|j: int| 0 <= j < k ==> self@.tile_ok(x as int, y as int, #[trigger] tiles@[j]),
            decreases tiles.len() - k,
        {
            let tile = tiles[k];
            if !(self.tile_fits(x, y, 0, tile) && self.tile_fits(x, y, 1, tile) && self.tile_fits(
                x,
                y,
                2,
                tile,
            ) && self.tile_fits(x, y, 3, tile)) {
                assert(!self@.tile_ok(x as int, y as int, self@.cell(x as int, y as int)[k as int]));
                return false;
            }
            k += 1;
        }
        true
    }

    /// Whether the grid is consistent, found by looking at every cell
    /// afresh.
    pub fn is_consistent(&self) -> (b: bool)
        requires
            self.wf(),
        ensures
            b == self@.consistent(),
    {
        let cells = self.all_cells();
        let mut k: usize = 0;
        while k < cells.len()
            invariant
                self.wf(),
                k <= cells.len(),
                forall|j: int|
                    0 <= j < cells@.len() ==> self@.in_bounds(
                        (#[trigger] cells@[j]).0 as int,
                        cells@[j].1 as int,
                    ),
                forall|j: int|
                    0 <= j < k ==> self@.stable((#[trigger] cells@[j]).0 as int, cells@[j].1 as int),
            decreases cells.len() - k,
        {
            let (x, y) = cells[k];
            if !self.is_stable(x, y) {
                return false;
            }
            k += 1;
        }
        proof {
            assert forall|x: int, y: int| self@.in_bounds(x, y) implies #[trigger] self@.stable(
                x,
                y,
            ) by {
                assert(cells@.contains(at(x, y)));
                let j = choose|j: int| 0 <= j < cells@.len() && cells@[j] == at(x, y);
                assert(self@.stable(cells@[j].0 as int, cells@[j].1 as int));
            }
        }
        true
    }
}

} // verus!
