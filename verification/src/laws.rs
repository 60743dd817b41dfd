//! What holds of the engine as a whole, stated over the model and proved.

use crate::board::{column_size, struck, total_size, Board};
use crate::lemmas::{
    lemma_filter_membership, lemma_filter_whole, lemma_restricted_stable, lemma_struck_filter,
    lemma_struck_smaller, lemma_with_cell,
};
use crate::tile::{Connect, TileChoice};
use vstd::prelude::*;

verus! {

/// Restriction is idempotent: a cell that was just restricted loses
/// nothing when it is restricted again, as long as no neighbour changed.
pub proof fn lemma_restrict_idempotent<C: Connect>(board: Board<C>, x: int, y: int)
    requires
        board.shaped(),
        board.in_bounds(x, y),
    ensures
        board.with_cell(x, y, board.restricted(x, y)).restricted(x, y) == board.restricted(x, y),
{
    let kept = board.restricted(x, y);
    let next = board.with_cell(x, y, kept);
    lemma_with_cell(board, x, y, kept);
    lemma_restricted_stable(board, x, y);
    lemma_filter_whole(kept, |t: TileChoice<C>| next.tile_ok(x, y, t));
}

/// Propagation is monotone: a board thinned from an earlier one has, in
/// every cell, no more choices than before and no choice that was not
/// there.
pub proof fn lemma_thinned_is_smaller<C: Connect>(later: Board<C>, earlier: Board<C>, x: int, y: int)
    requires
        later.thinned_from(earlier),
        later.in_bounds(x, y),
    ensures
        later.cell(x, y).len() <= earlier.cell(x, y).len(),
        forall|k: int|
            0 <= k < later.cell(x, y).len() ==> earlier.cell(x, y).contains(
                #[trigger] later.cell(x, y)[k],
            ),
{
    assert(struck(later.cell(x, y), earlier.cell(x, y)));
    lemma_struck_smaller(later.cell(x, y), earlier.cell(x, y));
}

/// Where a board has an undecided cell, one of its undecided cells has
/// the fewest choices left.
pub proof fn lemma_least_exists<C: Connect>(board: Board<C>, x: int, y: int) -> (least: (int, int))
    requires
        board.undecided(x, y),
    ensures
        board.least_undecided(least.0, least.1),
    decreases board.cell(x, y).len(),
{
    if board.least_undecided(x, y) {
        (x, y)
    } else {
        let (ox, oy) = choose|ox: int, oy: int|
            board.undecided(ox, oy) && (#[trigger] board.cell(ox, oy)).len() < board.cell(x, y).len();
        lemma_least_exists(board, ox, oy)
    }
}

/// The kernel of a board is consistent, is the board thinned, and holds
/// every consistent board within the board: it is the greatest of them.
/// So a grid that propagation has settled is consistent, whatever the
/// order in which the cells were looked at.
pub proof fn lemma_kernel_is_greatest<C: Connect>(board: Board<C>)
    requires
        board.shaped(),
    ensures
        board.kernel().shaped(),
        board.kernel().consistent(),
        board.kernel().thinned_from(board),
        board.retained_by(board.kernel()),
{
    let kernel = board.kernel();
    assert forall|x: int, y: int| kernel.in_bounds(x, y) implies struck(
        #[trigger] kernel.cell(x, y),
        board.cell(x, y),
    ) by {
        lemma_struck_filter(board.cell(x, y), |t: TileChoice<C>| board.viable(x, y, t));
    }
    assert forall|inner: Board<C>|
        inner.shaped() && inner.consistent() && #[trigger] inner.within(board) implies inner.within(
        kernel,
    ) by {
        assert forall|x: int, y: int, k: int|
            inner.in_bounds(x, y) && 0 <= k < inner.cell(x, y).len() implies kernel.cell(
            x,
            y,
        ).contains(#[trigger] inner.cell(x, y)[k]) by {
            let tile = inner.cell(x, y)[k];
            assert(inner.cell(x, y).contains(tile));
            assert(board.viable(x, y, tile));
            assert(board.cell(x, y).contains(tile));
            lemma_filter_membership(
                board.cell(x, y),
                |t: TileChoice<C>| board.viable(x, y, t),
                tile,
            );
        }
    }
    assert forall|x: int, y: int| kernel.in_bounds(x, y) implies #[trigger] kernel.stable(x, y) by {
        assert forall|k: int| 0 <= k < kernel.cell(x, y).len() implies kernel.tile_ok(
            x,
            y,
            #[trigger] kernel.cell(x, y)[k],
        ) by {
            let tile = kernel.cell(x, y)[k];
            assert(kernel.cell(x, y).contains(tile));
            lemma_filter_membership(
                board.cell(x, y),
                |t: TileChoice<C>| board.viable(x, y, t),
                tile,
            );
            let inner = choose|inner: Board<C>|
                inner.shaped() && inner.consistent() && #[trigger] inner.within(board)
                    && inner.cell(x, y).contains(tile);
            assert(inner.within(kernel));
            let i = choose|i: int| 0 <= i < inner.cell(x, y).len() && inner.cell(x, y)[i] == tile;
            crate::lemmas::lemma_inner_tile_ok(kernel, inner, x, y, i);
        }
    }
}

/// A column of cells, none with more than `bound` choices, holds no more
/// than `bound` choices a cell.
proof fn lemma_column_size_bound<T>(column: Seq<Seq<T>>, bound: nat)
    requires
        forall|y: int| 0 <= y < column.len() ==> (#[trigger] column[y]).len() <= bound,
    ensures
        column_size(column) <= column.len() * bound,
    decreases column.len(),
{
    if column.len() > 0 {
        let rest = column.drop_last();
        assert forall|y: int| 0 <= y < rest.len() implies (#[trigger] rest[y]).len() <= bound by {
            assert(rest[y] == column[y]);
        }
        lemma_column_size_bound(rest, bound);
        assert(rest.len() * bound + bound == column.len() * bound) by (nonlinear_arith)
            requires
                rest.len() + 1 == column.len(),
        ;
    }
}

/// Columns of `height` cells, none with more than `bound` choices, hold
/// no more than `height * bound` choices a column.
proof fn lemma_total_size_bound<T>(columns: Seq<Seq<Seq<T>>>, height: nat, bound: nat)
    requires
        forall|x: int| 0 <= x < columns.len() ==> (#[trigger] columns[x]).len() == height,
        forall|x: int, y: int|
            0 <= x < columns.len() && 0 <= y < height ==> (#[trigger] columns[x][y]).len() <= bound,
    ensures
        total_size(columns) <= columns.len() * (height * bound),
    decreases columns.len(),
{
    if columns.len() > 0 {
        let rest = columns.drop_last();
        assert forall|x: int| 0 <= x < rest.len() implies (#[trigger] rest[x]).len() == height by {
            assert(rest[x] == columns[x]);
        }
        assert forall|x: int, y: int| 0 <= x < rest.len() && 0 <= y < height implies (
        #[trigger] rest[x][y]).len() <= bound by {
            assert(rest[x] == columns[x]);
        }
        lemma_total_size_bound(rest, height, bound);
        let last = columns.last();
        assert forall|y: int| 0 <= y < last.len() implies (#[trigger] last[y]).len() <= bound by {
            assert(last[y] == columns[columns.len() - 1][y]);
        }
        lemma_column_size_bound(last, bound);
        assert(rest.len() * (height * bound) + height * bound == columns.len() * (height * bound))
            by (nonlinear_arith)
            requires
                rest.len() + 1 == columns.len(),
        ;
    }
}

/// Propagation halts within a bound that the grid and the catalog fix: a
/// valid board holds no more choices than its cells times the catalog,
/// and a propagation makes no more restrictions than five for each seed
/// and four for each choice that it strikes.
pub proof fn lemma_size_bound<C: Connect>(board: Board<C>, catalog: Seq<TileChoice<C>>)
    requires
        board.valid(catalog),
    ensures
        board.size() <= board.width * (board.height * catalog.len()),
{
    assert forall|x: int, y: int|
        0 <= x < board.cells.len() && 0 <= y < board.height implies (#[trigger] board.cells[x][y]).len()
        <= catalog.len() by {
        assert(board.in_bounds(x, y));
        assert(board.cell(x, y).len() <= catalog.len());
    }
    lemma_total_size_bound(board.cells, board.height as nat, catalog.len());
}

} // verus!
