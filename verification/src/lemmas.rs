//! Lemmas about lists with values struck out and about boards, on which
//! the proofs of the engine rest.

use crate::board::{adjacent, at, column_size, neighbor, struck, total_size, Board};
use crate::tile::{Connect, TileChoice};
use vstd::prelude::*;

verus! {

/// Two predicates that agree on the values of a list keep the same values.
pub proof fn lemma_filter_congruent<T>(s: Seq<T>, p: spec_fn(T) -> bool, q: spec_fn(T) -> bool)
    requires
        forall|i: int| 0 <= i < s.len() ==> p(#[trigger] s[i]) == q(s[i]),
    ensures
        s.filter(p) == s.filter(q),
    decreases s.len(),
{
    reveal(Seq::filter);
    if s.len() > 0 {
        lemma_filter_congruent(s.drop_last(), p, q);
    }
}

/// Filtering twice is filtering once by both predicates.
pub proof fn lemma_filter_twice<T>(
    s: Seq<T>,
    p: spec_fn(T) -> bool,
    q: spec_fn(T) -> bool,
    both: spec_fn(T) -> bool,
)
    requires
        forall|t: T| #[trigger] both(t) == (p(t) && q(t)),
    ensures
        s.filter(p).filter(q) == s.filter(both),
    decreases s.len(),
{
    reveal(Seq::filter);
    if s.len() > 0 {
        let rest = s.drop_last();
        lemma_filter_twice(rest, p, q, both);
        if p(s.last()) {
            assert(rest.filter(p).push(s.last()).drop_last() =~= rest.filter(p));
        }
    }
}

/// A filter that keeps the length keeps the list, and every value passes.
pub proof fn lemma_filter_all<T>(s: Seq<T>, p: spec_fn(T) -> bool)
    requires
        s.filter(p).len() == s.len(),
    ensures
        s.filter(p) == s,
        forall|i: int| 0 <= i < s.len() ==> p(#[trigger] s[i]),
    decreases s.len(),
{
    reveal(Seq::filter);
    if s.len() > 0 {
        let rest = s.drop_last();
        rest.lemma_filter_len(p);
        lemma_filter_all(rest, p);
        assert(s =~= rest.push(s.last()));
        assert forall|i: int| 0 <= i < s.len() implies p(#[trigger] s[i]) by {
            if i < rest.len() {
                assert(s[i] == rest[i]);
            }
        }
    } else {
        assert(s.filter(p) =~= s);
    }
}

/// A list whose every value passes is kept whole.
pub proof fn lemma_filter_whole<T>(s: Seq<T>, p: spec_fn(T) -> bool)
    requires
        forall|i: int| 0 <= i < s.len() ==> p(#[trigger] s[i]),
    ensures
        s.filter(p) == s,
    decreases s.len(),
{
    reveal(Seq::filter);
    if s.len() > 0 {
        let rest = s.drop_last();
        assert forall|i: int| 0 <= i < rest.len() implies p(#[trigger] rest[i]) by {
            assert(rest[i] == s[i]);
        }
        lemma_filter_whole(rest, p);
        assert(s =~= rest.push(s.last()));
    } else {
        assert(s.filter(p) =~= s);
    }
}

/// What a filter keeps: the values of the list that pass.
pub proof fn lemma_filter_membership<T>(s: Seq<T>, p: spec_fn(T) -> bool, t: T)
    ensures
        s.filter(p).contains(t) <==> s.contains(t) && p(t),
{
    let kept = s.filter(p);
    if kept.contains(t) {
        s.lemma_filter_contains_rev(p, t);
        let i = choose|i: int| 0 <= i < kept.len() && kept[i] == t;
        s.lemma_filter_pred(p, i);
    }
    if s.contains(t) && p(t) {
        let i = choose|i: int| 0 <= i < s.len() && s[i] == t;
        s.lemma_filter_contains(p, i);
    }
}

/// What a filter keeps is the list with the other values struck out.
pub proof fn lemma_struck_filter<T>(s: Seq<T>, p: spec_fn(T) -> bool)
    ensures
        struck(s.filter(p), s),
{
    let kept = s.filter(p);
    let q = |t: T| kept.contains(t);
    assert forall|i: int| 0 <= i < s.len() implies p(#[trigger] s[i]) == q(s[i]) by {
        lemma_filter_membership(s, p, s[i]);
        assert(s.contains(s[i]));
    }
    lemma_filter_congruent(s, p, q);
}

/// A list is itself with nothing struck out.
pub proof fn lemma_struck_reflexive<T>(s: Seq<T>)
    ensures
        struck(s, s),
{
    let q = |t: T| s.contains(t);
    assert forall|i: int| 0 <= i < s.len() implies q(#[trigger] s[i]) by {
        assert(s.contains(s[i]));
    }
    lemma_filter_whole(s, q);
}

/// Striking out loses values and adds none.
pub proof fn lemma_struck_smaller<T>(shorter: Seq<T>, longer: Seq<T>)
    requires
        struck(shorter, longer),
    ensures
        shorter.len() <= longer.len(),
        forall|k: int| 0 <= k < shorter.len() ==> longer.contains(#[trigger] shorter[k]),
{
    let q = |t: T| shorter.contains(t);
    longer.lemma_filter_len(q);
    assert forall|k: int| 0 <= k < shorter.len() implies longer.contains(#[trigger] shorter[k]) by {
        assert(shorter.contains(shorter[k]));
        lemma_filter_membership(longer, q, shorter[k]);
    }
}

/// Of a single value nothing can be struck out but the value itself.
pub proof fn lemma_struck_single<T>(shorter: Seq<T>, only: T)
    requires
        struck(shorter, seq![only]),
        shorter.len() > 0,
    ensures
        shorter == seq![only],
{
    let longer = seq![only];
    lemma_struck_smaller(shorter, longer);
    assert(longer.contains(shorter[0]));
    let i = choose|i: int| 0 <= i < longer.len() && longer[i] == shorter[0];
    assert(shorter[0] == only);
    assert(shorter =~= longer);
}

/// Striking out from what was struck out is striking out.
pub proof fn lemma_struck_transitive<T>(a: Seq<T>, b: Seq<T>, c: Seq<T>)
    requires
        struck(b, a),
        struck(c, b),
    ensures
        struck(c, a),
{
    let in_b = |t: T| b.contains(t);
    let in_c = |t: T| c.contains(t);
    let both = |t: T| in_b(t) && in_c(t);
    lemma_filter_twice(a, in_b, in_c, both);
    assert forall|i: int| 0 <= i < a.len() implies both(#[trigger] a[i]) == in_c(a[i]) by {
        if c.contains(a[i]) {
            lemma_filter_membership(b, in_c, a[i]);
        }
    }
    lemma_filter_congruent(a, both, in_c);
}

/// Replacing one cell touches that cell and no other.
pub proof fn lemma_with_cell<C: Connect>(
    board: Board<C>,
    x: int,
    y: int,
    domain: Seq<TileChoice<C>>,
)
    requires
        board.shaped(),
        board.in_bounds(x, y),
    ensures
        board.with_cell(x, y, domain).shaped(),
        board.with_cell(x, y, domain).cell(x, y) == domain,
        forall|ox: int, oy: int|
            board.in_bounds(ox, oy) && (ox != x || oy != y) ==> #[trigger] board.with_cell(
                x,
                y,
                domain,
            ).cell(ox, oy) == board.cell(ox, oy),
{
    let changed = board.with_cell(x, y, domain);
    assert forall|cx: int| 0 <= cx < changed.width implies (#[trigger] changed.cells[cx]).len()
        == changed.height by {
        assert(board.cells[cx].len() == board.height);
    }
}

/// Replacing a cell by what it holds changes nothing.
pub proof fn lemma_with_same_cell<C: Connect>(board: Board<C>, x: int, y: int)
    requires
        board.shaped(),
        board.in_bounds(x, y),
    ensures
        board.with_cell(x, y, board.cell(x, y)) == board,
{
    assert(board.cells[x].update(y, board.cell(x, y)) =~= board.cells[x]);
    assert(board.with_cell(x, y, board.cell(x, y)).cells =~= board.cells);
}

/// Whether a tile suits its neighbours depends on the neighbours alone:
/// replacing a cell that is not beside `(x, y)` changes nothing for it.
pub proof fn lemma_tile_ok_frame<C: Connect>(
    board: Board<C>,
    cx: int,
    cy: int,
    domain: Seq<TileChoice<C>>,
    x: int,
    y: int,
    tile: TileChoice<C>,
)
    requires
        board.shaped(),
        board.in_bounds(cx, cy),
        !adjacent(x, y, cx, cy),
    ensures
        board.with_cell(cx, cy, domain).tile_ok(x, y, tile) == board.tile_ok(x, y, tile),
{
    lemma_with_cell(board, cx, cy, domain);
    let changed = board.with_cell(cx, cy, domain);
    assert forall|d: int| 0 <= d < 4 implies changed.fits(x, y, d, tile) == board.fits(
        x,
        y,
        d,
        tile,
    ) by {
        let (nx, ny) = neighbor(x, y, d);
        if board.in_bounds(nx, ny) {
            assert(changed.cell(nx, ny) == board.cell(nx, ny));
        }
    }
}

/// A cell that was just restricted is stable.
pub proof fn lemma_restricted_stable<C: Connect>(board: Board<C>, x: int, y: int)
    requires
        board.shaped(),
        board.in_bounds(x, y),
    ensures
        board.with_cell(x, y, board.restricted(x, y)).stable(x, y),
{
    let kept = board.restricted(x, y);
    let changed = board.with_cell(x, y, kept);
    lemma_with_cell(board, x, y, kept);
    assert forall|k: int| 0 <= k < changed.cell(x, y).len() implies changed.tile_ok(
        x,
        y,
        #[trigger] changed.cell(x, y)[k],
    ) by {
        let tile = kept[k];
        board.cell(x, y).lemma_filter_pred(|t: TileChoice<C>| board.tile_ok(x, y, t), k);
        lemma_tile_ok_frame(board, x, y, kept, x, y, tile);
    }
}

/// In a consistent board within `board`, every choice suits its
/// neighbours in `board` as well, for `board` offers it at least the same
/// partners.
pub proof fn lemma_inner_tile_ok<C: Connect>(
    board: Board<C>,
    inner: Board<C>,
    x: int,
    y: int,
    k: int,
)
    requires
        inner.shaped(),
        inner.consistent(),
        inner.within(board),
        inner.in_bounds(x, y),
        0 <= k < inner.cell(x, y).len(),
    ensures
        board.tile_ok(x, y, inner.cell(x, y)[k]),
{
    let tile = inner.cell(x, y)[k];
    assert(inner.stable(x, y));
    assert(inner.tile_ok(x, y, tile));
    assert forall|d: int| 0 <= d < 4 implies board.fits(x, y, d, tile) by {
        let (nx, ny) = neighbor(x, y, d);
        if board.in_bounds(nx, ny) {
            assert(inner.fits(x, y, d, tile));
            let j = choose|j: int|
                0 <= j < inner.cell(nx, ny).len() && C::connects(
                    (#[trigger] inner.cell(nx, ny)[j]).connections[crate::board::opposite(d)],
                    tile.connections[d],
                );
            let partner = inner.cell(nx, ny)[j];
            assert(board.cell(nx, ny).contains(partner));
            let i = choose|i: int| 0 <= i < board.cell(nx, ny).len() && board.cell(nx, ny)[i] == partner;
            assert(C::connects(
                board.cell(nx, ny)[i].connections[crate::board::opposite(d)],
                tile.connections[d],
            ));
        }
    }
}

/// Restricting a cell strikes out nothing of a consistent board within.
pub proof fn lemma_inner_survives<C: Connect>(board: Board<C>, inner: Board<C>, x: int, y: int)
    requires
        board.shaped(),
        board.in_bounds(x, y),
        inner.shaped(),
        inner.consistent(),
        inner.within(board),
    ensures
        inner.within(board.with_cell(x, y, board.restricted(x, y))),
{
    let kept = board.restricted(x, y);
    let changed = board.with_cell(x, y, kept);
    lemma_with_cell(board, x, y, kept);
    assert forall|ox: int, oy: int, k: int|
        inner.in_bounds(ox, oy) && 0 <= k < inner.cell(ox, oy).len() implies changed.cell(
        ox,
        oy,
    ).contains(#[trigger] inner.cell(ox, oy)[k]) by {
        let tile = inner.cell(ox, oy)[k];
        assert(board.cell(ox, oy).contains(tile));
        if ox == x && oy == y {
            lemma_inner_tile_ok(board, inner, x, y, k);
            lemma_filter_membership(
                board.cell(x, y),
                |t: TileChoice<C>| board.tile_ok(x, y, t),
                tile,
            );
        } else {
            assert(changed.cell(ox, oy) == board.cell(ox, oy));
        }
    }
}

/// The size of a column after one of its cells was replaced.
pub proof fn lemma_column_size_update<T>(column: Seq<Seq<T>>, y: int, domain: Seq<T>)
    requires
        0 <= y < column.len(),
    ensures
        column_size(column.update(y, domain)) == column_size(column) - column[y].len()
            + domain.len(),
    decreases column.len(),
{
    let changed = column.update(y, domain);
    if y == column.len() - 1 {
        assert(changed.drop_last() =~= column.drop_last());
    } else {
        lemma_column_size_update(column.drop_last(), y, domain);
        assert(changed.drop_last() =~= column.drop_last().update(y, domain));
    }
}

/// The size of a list of columns after one column was replaced.
pub proof fn lemma_total_size_update<T>(columns: Seq<Seq<Seq<T>>>, x: int, column: Seq<Seq<T>>)
    requires
        0 <= x < columns.len(),
    ensures
        total_size(columns.update(x, column)) == total_size(columns) - column_size(columns[x])
            + column_size(column),
    decreases columns.len(),
{
    let changed = columns.update(x, column);
    if x == columns.len() - 1 {
        assert(changed.drop_last() =~= columns.drop_last());
    } else {
        lemma_total_size_update(columns.drop_last(), x, column);
        assert(changed.drop_last() =~= columns.drop_last().update(x, column));
    }
}

/// The size of a board after one of its cells was replaced.
pub proof fn lemma_size_with_cell<C: Connect>(
    board: Board<C>,
    x: int,
    y: int,
    domain: Seq<TileChoice<C>>,
)
    requires
        board.shaped(),
        board.in_bounds(x, y),
    ensures
        board.with_cell(x, y, domain).size() == board.size() - board.cell(x, y).len()
            + domain.len(),
{
    lemma_column_size_update(board.cells[x], y, domain);
    lemma_total_size_update(board.cells, x, board.cells[x].update(y, domain));
}

/// One restriction keeps what the propagation has kept so far: the board
/// is still the first one thinned, and no consistent board within the
/// first one has lost a choice.
pub proof fn lemma_restriction_step<C: Connect>(first: Board<C>, board: Board<C>, x: int, y: int)
    requires
        board.shaped(),
        board.in_bounds(x, y),
        board.thinned_from(first),
        first.retained_by(board),
    ensures
        board.with_cell(x, y, board.restricted(x, y)).thinned_from(first),
        first.retained_by(board.with_cell(x, y, board.restricted(x, y))),
        board.with_cell(x, y, board.restricted(x, y)).size() == board.size() - board.cell(
            x,
            y,
        ).len() + board.restricted(x, y).len(),
{
    let kept = board.restricted(x, y);
    let next = board.with_cell(x, y, kept);
    lemma_with_cell(board, x, y, kept);
    lemma_size_with_cell(board, x, y, kept);
    assert forall|ox: int, oy: int| next.in_bounds(ox, oy) implies struck(
        #[trigger] next.cell(ox, oy),
        first.cell(ox, oy),
    ) by {
        assert(struck(board.cell(ox, oy), first.cell(ox, oy)));
        if ox == x && oy == y {
            lemma_struck_filter(board.cell(x, y), |t: TileChoice<C>| board.tile_ok(x, y, t));
            lemma_struck_transitive(first.cell(x, y), board.cell(x, y), kept);
        } else {
            assert(next.cell(ox, oy) == board.cell(ox, oy));
        }
    }
    assert forall|inner: Board<C>|
        inner.shaped() && inner.consistent() && #[trigger] inner.within(first) implies inner.within(
        next,
    ) by {
        assert(inner.within(board));
        lemma_inner_survives(board, inner, x, y);
    }
}

/// After a cell was looked at and found stable, or lies outside the
/// board, it need not be pending.
pub proof fn lemma_pending_popped<C: Connect>(board: Board<C>, pending: Seq<(i32, i32)>)
    requires
        board.width <= i32::MAX,
        board.height <= i32::MAX,
        board.stable_but(pending),
        pending.len() > 0,
        board.in_bounds(pending.last().0 as int, pending.last().1 as int) ==> board.stable(
            pending.last().0 as int,
            pending.last().1 as int,
        ),
    ensures
        board.stable_but(pending.drop_last()),
{
    let rest = pending.drop_last();
    assert forall|x: int, y: int| board.in_bounds(x, y) && !rest.contains(at(x, y)) implies #[trigger] board.stable(
        x,
        y,
    ) by {
        if pending.contains(at(x, y)) {
            let i = choose|i: int| 0 <= i < pending.len() && pending[i] == at(x, y);
            if i < rest.len() {
                assert(rest[i] == at(x, y));
            }
        }
    }
}

/// After a cell was restricted and lost a choice, the cells beside it
/// must be looked at again, and no others.
pub proof fn lemma_pending_changed<C: Connect>(
    board: Board<C>,
    pending: Seq<(i32, i32)>,
    later: Seq<(i32, i32)>,
)
    requires
        board.shaped(),
        board.width <= i32::MAX,
        board.height <= i32::MAX,
        board.stable_but(pending),
        pending.len() > 0,
        board.in_bounds(pending.last().0 as int, pending.last().1 as int),
        forall|c: (i32, i32)| pending.drop_last().contains(c) ==> later.contains(c),
        forall|d: int|
            0 <= d < 4 ==> later.contains(
                #[trigger] at(
                    neighbor(pending.last().0 as int, pending.last().1 as int, d).0,
                    neighbor(pending.last().0 as int, pending.last().1 as int, d).1,
                ),
            ),
    ensures
        board.with_cell(
            pending.last().0 as int,
            pending.last().1 as int,
            board.restricted(pending.last().0 as int, pending.last().1 as int),
        ).stable_but(later),
{
    let x = pending.last().0 as int;
    let y = pending.last().1 as int;
    let rest = pending.drop_last();
    let kept = board.restricted(x, y);
    let next = board.with_cell(x, y, kept);
    lemma_with_cell(board, x, y, kept);
    assert forall|px: int, py: int| next.in_bounds(px, py) && !later.contains(at(px, py)) implies #[trigger] next.stable(
        px,
        py,
    ) by {
        if px == x && py == y {
            lemma_restricted_stable(board, x, y);
        } else if adjacent(x, y, px, py) {
            assert(later.contains(at(neighbor(x, y, 0).0, neighbor(x, y, 0).1)));
            assert(later.contains(at(neighbor(x, y, 1).0, neighbor(x, y, 1).1)));
            assert(later.contains(at(neighbor(x, y, 2).0, neighbor(x, y, 2).1)));
            assert(later.contains(at(neighbor(x, y, 3).0, neighbor(x, y, 3).1)));
        } else {
            if pending.contains(at(px, py)) {
                let i = choose|i: int| 0 <= i < pending.len() && pending[i] == at(px, py);
                if i < rest.len() {
                    assert(rest[i] == at(px, py));
                }
            }
            assert(board.stable(px, py));
            assert(next.cell(px, py) == board.cell(px, py));
            assert forall|k: int| 0 <= k < next.cell(px, py).len() implies next.tile_ok(
                px,
                py,
                #[trigger] next.cell(px, py)[k],
            ) by {
                lemma_tile_ok_frame(board, x, y, kept, px, py, board.cell(px, py)[k]);
            }
        }
    }
}

/// Propagation that ends in a consistent board has arrived at the
/// greatest one: each cell holds, in order, its viable choices.
pub proof fn lemma_kernel_reached<C: Connect>(first: Board<C>, last: Board<C>)
    requires
        first.shaped(),
        last.shaped(),
        last.consistent(),
        last.thinned_from(first),
        first.retained_by(last),
    ensures
        last == first.kernel(),
        last.within(first),
{
    let kernel = first.kernel();
    assert forall|x: int, y: int, k: int|
        last.in_bounds(x, y) && 0 <= k < last.cell(x, y).len() implies first.cell(x, y).contains(
        #[trigger] last.cell(x, y)[k],
    ) by {
        assert(struck(last.cell(x, y), first.cell(x, y)));
        lemma_struck_smaller(last.cell(x, y), first.cell(x, y));
    }
    assert(last.within(first));
    assert forall|x: int| 0 <= x < first.width implies #[trigger] last.cells[x] =~~= kernel.cells[x] by {
        assert forall|y: int| 0 <= y < first.height implies #[trigger] last.cells[x][y]
            == kernel.cells[x][y] by {
            let domain = first.cell(x, y);
            let left = last.cell(x, y);
            let stays = |t: TileChoice<C>| left.contains(t);
            let viable = |t: TileChoice<C>| first.viable(x, y, t);
            assert(last.in_bounds(x, y));
            assert(struck(left, domain));
            assert forall|i: int| 0 <= i < domain.len() implies stays(#[trigger] domain[i])
                == viable(domain[i]) by {
                let tile = domain[i];
                if left.contains(tile) {
                    assert(last.within(first) && last.cell(x, y).contains(tile));
                }
                if first.viable(x, y, tile) {
                    let inner = choose|inner: Board<C>|
                        inner.shaped() && inner.consistent() && #[trigger] inner.within(first)
                            && inner.cell(x, y).contains(tile);
                    assert(inner.within(last));
                    let j = choose|j: int| 0 <= j < inner.cell(x, y).len() && inner.cell(x, y)[j] == tile;
                    assert(last.cell(x, y).contains(inner.cell(x, y)[j]));
                }
            }
            lemma_filter_congruent(domain, stays, viable);
        }
    }
    assert(last.cells =~~= kernel.cells);
}

/// A cell that no choice suits shows that the first board had no
/// consistent part without an empty cell.
pub proof fn lemma_contradiction<C: Connect>(first: Board<C>, board: Board<C>, x: int, y: int)
    requires
        board.shaped(),
        board.in_bounds(x, y),
        first.retained_by(board),
        board.restricted(x, y).len() == 0,
    ensures
        !first.restrictable(),
{
    if first.restrictable() {
        let inner = choose|inner: Board<C>|
            inner.shaped() && inner.consistent() && inner.full() && #[trigger] inner.within(first);
        assert(inner.within(board));
        assert(inner.cell(x, y).len() > 0);
        let tile = inner.cell(x, y)[0];
        lemma_inner_tile_ok(board, inner, x, y, 0);
        assert(board.cell(x, y).contains(tile));
        lemma_filter_membership(board.cell(x, y), |t: TileChoice<C>| board.tile_ok(x, y, t), tile);
        let kept = board.restricted(x, y);
        assert(kept.contains(tile));
    }
}

/// A stable cell stays stable when a cell that is not beside it changes.
pub proof fn lemma_stable_frame<C: Connect>(
    board: Board<C>,
    cx: int,
    cy: int,
    domain: Seq<TileChoice<C>>,
    x: int,
    y: int,
)
    requires
        board.shaped(),
        board.in_bounds(cx, cy),
        board.in_bounds(x, y),
        board.stable(x, y),
        x != cx || y != cy,
        !adjacent(cx, cy, x, y),
    ensures
        board.with_cell(cx, cy, domain).stable(x, y),
{
    let next = board.with_cell(cx, cy, domain);
    lemma_with_cell(board, cx, cy, domain);
    assert(next.cell(x, y) == board.cell(x, y));
    assert forall|k: int| 0 <= k < next.cell(x, y).len() implies next.tile_ok(
        x,
        y,
        #[trigger] next.cell(x, y)[k],
    ) by {
        lemma_tile_ok_frame(board, cx, cy, domain, x, y, board.cell(x, y)[k]);
    }
}

/// After one cell of a consistent board was replaced, the cells away
/// from it are stable still.
pub proof fn lemma_replaced_stable_outside<C: Connect>(
    board: Board<C>,
    x: int,
    y: int,
    domain: Seq<TileChoice<C>>,
    seeds: Seq<(i32, i32)>,
)
    requires
        board.shaped(),
        board.consistent(),
        board.in_bounds(x, y),
        seeds.contains(at(x, y)),
        board.width <= i32::MAX,
        board.height <= i32::MAX,
    ensures
        board.with_cell(x, y, domain).stable_outside(seeds),
{
    let next = board.with_cell(x, y, domain);
    lemma_with_cell(board, x, y, domain);
    let i = choose|i: int| 0 <= i < seeds.len() && seeds[i] == at(x, y);
    assert forall|px: int, py: int|
        next.in_bounds(px, py) && !next.seeded(seeds, px, py) implies #[trigger] next.stable(
        px,
        py,
    ) by {
        assert(seeds[i] == at(x, y));
        assert(px != x || py != y);
        assert(!adjacent(x, y, px, py));
        assert(board.stable(px, py));
        lemma_stable_frame(board, x, y, domain, px, py);
    }
}

/// Seen through a window, a cell of a consistent board is stable where
/// it and all its neighbours in the window are cells of that board.
pub proof fn lemma_window_stable<C: Connect>(
    board: Board<C>,
    width: int,
    height: int,
    dx: int,
    dy: int,
    catalog: Seq<TileChoice<C>>,
    x: int,
    y: int,
)
    requires
        board.shaped(),
        board.consistent(),
        0 <= width,
        0 <= height,
        0 <= x < width,
        0 <= y < height,
        board.in_bounds(x + dx, y + dy),
        forall|d: int|
            0 <= d < 4 && 0 <= (#[trigger] neighbor(x, y, d)).0 < width && 0 <= neighbor(x, y, d).1
                < height ==> board.in_bounds(neighbor(x, y, d).0 + dx, neighbor(x, y, d).1 + dy),
    ensures
        board.window(width, height, dx, dy, catalog).stable(x, y),
{
    let seen = board.window(width, height, dx, dy, catalog);
    assert(seen.cell(x, y) == board.cell(x + dx, y + dy));
    assert(board.stable(x + dx, y + dy));
    assert forall|k: int| 0 <= k < seen.cell(x, y).len() implies seen.tile_ok(
        x,
        y,
        #[trigger] seen.cell(x, y)[k],
    ) by {
        let tile = board.cell(x + dx, y + dy)[k];
        assert(board.tile_ok(x + dx, y + dy, tile));
        assert forall|d: int| 0 <= d < 4 implies seen.fits(x, y, d, tile) by {
            let (nx, ny) = neighbor(x, y, d);
            if seen.in_bounds(nx, ny) {
                assert(neighbor(x + dx, y + dy, d) == (nx + dx, ny + dy));
                assert(board.in_bounds(nx + dx, ny + dy));
                assert(board.fits(x + dx, y + dy, d, tile));
                assert(seen.cell(nx, ny) == board.cell(nx + dx, ny + dy));
            }
        }
    }
}

} // verus!
