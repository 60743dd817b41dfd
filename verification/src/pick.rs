//! The choice of the next cell to collapse: among the undecided cells,
//! those with the fewest choices left compete with one weight and all
//! others with another, and a draw by weight decides.

use crate::board::{at, Board};
use crate::grid::TileGrid;
use crate::random::{draw_below, draw_weighted};
use crate::tile::Connect;
use rand::rngs::StdRng;
use vstd::prelude::*;

verus! {

/// The number of cells up to which the whole grid is looked at.
pub const SCAN_LIMIT: i64 = 1000;

/// The number of cells drawn from a grid that is larger.
pub const SAMPLES: usize = 50;

/// Where every cell of the board is among `cells`, a candidate competes
/// with the weight that it has on the board as a whole.
proof fn lemma_scan_weight<C: Connect>(
    board: Board<C>,
    cells: Seq<(i32, i32)>,
    k: int,
    restricted: u32,
    free: u32,
)
    requires
        board.width <= i32::MAX,
        board.height <= i32::MAX,
        forall|x: int, y: int| board.in_bounds(x, y) ==> cells.contains(#[trigger] at(x, y)),
        0 <= k < board.candidates(cells).len(),
    ensures
        board.undecided(board.candidates(cells)[k].0 as int, board.candidates(cells)[k].1 as int),
        board.selection_weight(board.candidates(cells), k, restricted, free) == board.pick_weight(
            board.candidates(cells)[k].0 as int,
            board.candidates(cells)[k].1 as int,
            restricted,
            free,
        ),
{
    let open = |c: (i32, i32)| board.undecided(c.0 as int, c.1 as int);
    let found = board.candidates(cells);
    let x = found[k].0 as int;
    let y = found[k].1 as int;
    cells.lemma_filter_pred(open, k);
    if board.least_among(found, k) {
        assert forall|ox: int, oy: int| board.undecided(ox, oy) implies board.cell(x, y).len() <= (
        #[trigger] board.cell(ox, oy)).len() by {
            assert(cells.contains(at(ox, oy)));
            let i = choose|i: int| 0 <= i < cells.len() && cells[i] == at(ox, oy);
            cells.lemma_filter_contains(open, i);
            let j = choose|j: int| 0 <= j < found.len() && found[j] == at(ox, oy);
            assert(board.cell(found[k].0 as int, found[k].1 as int).len() <= board.cell(
                found[j].0 as int,
                found[j].1 as int,
            ).len());
        }
    }
    if board.least_undecided(x, y) {
        assert forall|j: int| 0 <= j < found.len() implies board.cell(
            found[k].0 as int,
            found[k].1 as int,
        ).len() <= board.cell((#[trigger] found[j]).0 as int, found[j].1 as int).len() by {
            cells.lemma_filter_pred(open, j);
        }
    }
}

impl<C: Connect> TileGrid<C> {
    /// The number of choices left to the cell at `(x, y)`, and zero
    /// outside the grid.
    fn open_choices(&self, x: i32, y: i32) -> (n: usize)
        requires
            self.wf(),
        ensures
            self@.in_bounds(x as int, y as int) ==> n == self@.cell(x as int, y as int).len(),
            !self@.in_bounds(x as int, y as int) ==> n == 0,
    {
        match self.possible_tiles(x, y) {
            Some(tiles) => tiles.len(),
            None => 0,
        }
    }

    /// Those of `sampled` that are undecided cells, in their order.
    fn candidates_among(&self, sampled: &Vec<(i32, i32)>) -> (candidate_indices: Vec<(i32, i32)>)
        requires
            self.wf(),
        ensures
            candidate_indices@ == self@.candidates(sampled@),
    {
        let ghost open = |c: (i32, i32)| self@.undecided(c.0 as int, c.1 as int);
        let mut candidate_indices: Vec<(i32, i32)> = Vec::new();
        let mut k: usize = 0;
        while k < sampled.len()
            invariant
                self.wf(),
                k <= sampled.len(),
                open == |c: (i32, i32)| self@.undecided(c.0 as int, c.1 as int),
                candidate_indices@ == sampled@.take(k as int).filter(open),
            decreases sampled.len() - k,
        {
            proof {
                reveal(Seq::filter);
                assert(sampled@.take(k + 1).drop_last() =~= sampled@.take(k as int));
            }
            let (x, y) = sampled[k];
            if self.open_choices(x, y) > 1 {
                candidate_indices.push((x, y));
            }
            k += 1;
        }
        assert(sampled@.take(sampled@.len() as int) =~= sampled@);
        candidate_indices
    }

    /// The weights with which `candidate_indices` compete: the fewest
    /// choices seen so far are tracked, and whenever a cell has fewer, the
    /// cells before it fall back to the free weight.
    fn selection_weights(
        &self,
        candidate_indices: &Vec<(i32, i32)>,
        restricted_weight: u32,
        free_weight: u32,
    ) -> (weights: Vec<u32>)
        requires
            self.wf(),
            forall|k: int|
                0 <= k < candidate_indices@.len() ==> self@.in_bounds(
                    (#[trigger] candidate_indices@[k]).0 as int,
                    candidate_indices@[k].1 as int,
                ),
        ensures
            weights@.len() == candidate_indices@.len(),
            forall|k: int|
                0 <= k < weights@.len() ==> #[trigger] weights@[k] == self@.selection_weight(
                    candidate_indices@,
                    k,
                    restricted_weight,
                    free_weight,
                ),
    {
        let ghost cells = candidate_indices@;
        let ghost board = self@;
        let mut weights: Vec<u32> = Vec::new();
        let mut least_seen: usize = 0;
        let mut total_seen: usize = 0;
        while total_seen < candidate_indices.len()
            invariant
                self.wf(),
                board == self@,
                cells == candidate_indices@,
                total_seen <= cells.len(),
                weights@.len() == total_seen,
                forall|k: int|
                    0 <= k < cells.len() ==> board.in_bounds(
                        (#[trigger] cells[k]).0 as int,
                        cells[k].1 as int,
                    ),
                forall|j: int|
                    0 <= j < total_seen ==> least_seen <= board.cell(
                        (#[trigger] cells[j]).0 as int,
                        cells[j].1 as int,
                    ).len(),
                total_seen > 0 ==> exists|j: int|
                    0 <= j < total_seen && least_seen == board.cell(
                        (#[trigger] cells[j]).0 as int,
                        cells[j].1 as int,
                    ).len(),
                forall|j: int|
                    0 <= j < total_seen ==> #[trigger] weights@[j] == (if board.cell(
                        cells[j].0 as int,
                        cells[j].1 as int,
                    ).len() == least_seen {
                        restricted_weight
                    } else {
                        free_weight
                    }),
            decreases cells.len() - total_seen,
        {
            let (x, y) = candidate_indices[total_seen];
            let open = match self.possible_tiles(x, y) {
                Some(tiles) => tiles.len(),
                None => 0,
            };
            assert(board.in_bounds(cells[total_seen as int].0 as int, cells[total_seen as int].1 as int));
            if total_seen == 0 || open < least_seen {
                least_seen = open;
                let mut fallen: Vec<u32> = Vec::new();
                while fallen.len() < total_seen
                    invariant
                        fallen@.len() <= total_seen,
                        forall|j: int| 0 <= j < fallen@.len() ==> fallen@[j] == free_weight,
                    decreases total_seen - fallen.len(),
                {
                    fallen.push(free_weight);
                }
                weights = fallen;
                weights.push(restricted_weight);
            } else if open == least_seen {
                weights.push(restricted_weight);
            } else {
                weights.push(free_weight);
            }
            total_seen += 1;
        }
        proof {
            assert forall|k: int| 0 <= k < weights@.len() implies #[trigger] weights@[k]
                == board.selection_weight(cells, k, restricted_weight, free_weight) by {
                let own = board.cell(cells[k].0 as int, cells[k].1 as int).len();
                if own == least_seen {
                    assert(board.least_among(cells, k));
                } else {
                    let j = choose|j: int|
                        0 <= j < total_seen && least_seen == board.cell(
                            (#[trigger] cells[j]).0 as int,
                            cells[j].1 as int,
                        ).len();
                    assert(!board.least_among(cells, k));
                }
            }
        }
        weights
    }

    /// Picks one of the undecided cells among `sampled` by a draw in which
    /// each competes with its selection weight. There is no pick where no
    /// candidate has a weight above zero, and so where none of `sampled`
    /// is undecided.
    pub fn pick_among(
        &self,
        sampled: &Vec<(i32, i32)>,
        restricted_weight: u32,
        free_weight: u32,
        rng: &mut StdRng,
    ) -> (res: Option<(i32, i32)>)
        requires
            self.wf(),
            sampled@.len() <= u32::MAX,
        ensures
            res matches Some(c) ==> exists|k: int|
                0 <= k < self@.candidates(sampled@).len() && #[trigger] self@.candidates(
                    sampled@,
                )[k] == c && self@.selection_weight(
                    self@.candidates(sampled@),
                    k,
                    restricted_weight,
                    free_weight,
                ) > 0,
            res is None <==> forall|k: int|
                0 <= k < self@.candidates(sampled@).len() ==> self@.selection_weight(
                    self@.candidates(sampled@),
                    k,
                    restricted_weight,
                    free_weight,
                ) == 0,
    {
        let candidate_indices = self.candidates_among(sampled);
        let ghost cells = candidate_indices@;
        proof {
            let open = |c: (i32, i32)| self@.undecided(c.0 as int, c.1 as int);
            sampled@.lemma_filter_len(open);
            assert forall|k: int| 0 <= k < cells.len() implies self@.in_bounds(
                (#[trigger] cells[k]).0 as int,
                cells[k].1 as int,
            ) by {
                sampled@.lemma_filter_pred(open, k);
            }
        }
        if candidate_indices.len() == 0 {
            return None;
        }
        let weights = self.selection_weights(&candidate_indices, restricted_weight, free_weight);
        match draw_weighted(&weights, rng) {
            Ok(index) => {
                assert(cells[index as int] == candidate_indices@[index as int]);
                assert(weights@[index as int] > 0);
                Some(candidate_indices[index])
            },
            Err(_) => {
                assert forall|k: int| 0 <= k < cells.len() implies self@.selection_weight(
                    cells,
                    k,
                    restricted_weight,
                    free_weight,
                ) == 0 by {
                    assert(weights@[k] == 0);
                }
                None
            },
        }
    }

    /// Picks the cell to collapse next. A grid of up to `SCAN_LIMIT`
    /// cells is looked at as a whole: every undecided cell competes, those
    /// with the fewest choices left with `restricted_weight` and the
    /// others with `free_weight`. Of a larger grid `SAMPLES` cells are
    /// drawn, and the undecided ones among them compete in the same way,
    /// so that the pick is a guess there and may fail though undecided
    /// cells exist.
    pub fn pick_weighted(&self, restricted_weight: u32, free_weight: u32, rng: &mut StdRng) -> (res:
        Option<(i32, i32)>)
        requires
            self.wf(),
        ensures
            res matches Some(c) ==> self@.undecided(c.0 as int, c.1 as int),
            self@.width * self@.height <= SCAN_LIMIT ==> (res matches Some(c) ==> self@.pick_weight(
                c.0 as int,
                c.1 as int,
                restricted_weight,
                free_weight,
            ) > 0),
            self@.width * self@.height <= SCAN_LIMIT ==> (res is None <==> forall|x: int, y: int|
                #[trigger] self@.undecided(x, y) ==> self@.pick_weight(
                    x,
                    y,
                    restricted_weight,
                    free_weight,
                ) == 0),
            self@.width * self@.height <= SCAN_LIMIT && restricted_weight > 0 ==> (res is None
                <==> forall|x: int, y: int| !self@.undecided(x, y)),
    {
        proof {
            if restricted_weight > 0 && (forall|x: int, y: int| #[trigger]
                self@.undecided(x, y) ==> self@.pick_weight(
                    x,
                    y,
                    restricted_weight,
                    free_weight,
                ) == 0) {
                assert forall|x: int, y: int| !self@.undecided(x, y) by {
                    if self@.undecided(x, y) {
                        let least = crate::laws::lemma_least_exists(self@, x, y);
                        assert(self@.undecided(least.0, least.1));
                    }
                }
            }
        }
        let width = self.width();
        let height = self.height();
        assert(0 <= width * height <= 0x4000_0000_0000_0000) by (nonlinear_arith)
            requires
                0 <= width <= 0x7fff_ffff,
                0 <= height <= 0x7fff_ffff,
        ;
        let ghost open = |c: (i32, i32)| self@.undecided(c.0 as int, c.1 as int);
        if (width as i64) * (height as i64) <= SCAN_LIMIT {
            let cells = self.all_cells();
            let res = self.pick_among(&cells, restricted_weight, free_weight, rng);
            proof {
                let found = self@.candidates(cells@);
                assert forall|k: int| 0 <= k < found.len() implies self@.undecided(
                    (#[trigger] found[k]).0 as int,
                    found[k].1 as int,
                ) && self@.selection_weight(found, k, restricted_weight, free_weight)
                    == self@.pick_weight(
                    found[k].0 as int,
                    found[k].1 as int,
                    restricted_weight,
                    free_weight,
                ) by {
                    lemma_scan_weight(self@, cells@, k, restricted_weight, free_weight);
                }
                if res is None {
                    assert forall|x: int, y: int| #[trigger] self@.undecided(x, y) implies self@.pick_weight(
                        x,
                        y,
                        restricted_weight,
                        free_weight,
                    ) == 0 by {
                        assert(cells@.contains(at(x, y)));
                        let i = choose|i: int| 0 <= i < cells@.len() && cells@[i] == at(x, y);
                        cells@.lemma_filter_contains(open, i);
                        let j = choose|j: int| 0 <= j < found.len() && found[j] == at(x, y);
                        assert(self@.undecided(found[j].0 as int, found[j].1 as int));
                    }
                } else {
                    let c = res->0;
                    let k = choose|k: int|
                        0 <= k < found.len() && #[trigger] found[k] == c && self@.selection_weight(
                            found,
                            k,
                            restricted_weight,
                            free_weight,
                        ) > 0;
                    assert(self@.undecided(found[k].0 as int, found[k].1 as int));
                }
            }
            res
        } else {
            assert(width > 0 && height > 0) by (nonlinear_arith)
                requires
                    0 <= width,
                    0 <= height,
                    width * height > 1000,
            ;
            let mut sampled: Vec<(i32, i32)> = Vec::new();
            while sampled.len() < SAMPLES
                invariant
                    width > 0,
                    height > 0,
                    sampled@.len() <= SAMPLES,
                decreases SAMPLES - sampled.len(),
            {
                let x = draw_below(width, rng);
                let y = draw_below(height, rng);
                sampled.push((x, y));
            }
            let res = self.pick_among(&sampled, restricted_weight, free_weight, rng);
            proof {
                if res is Some {
                    let c = res->0;
                    let found = self@.candidates(sampled@);
                    let k = choose|k: int|
                        0 <= k < found.len() && #[trigger] found[k] == c && self@.selection_weight(
                            found,
                            k,
                            restricted_weight,
                            free_weight,
                        ) > 0;
                    sampled@.lemma_filter_pred(open, k);
                }
            }
            res
        }
    }
}

} // verus!
