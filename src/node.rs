//! Partially collapsed images: grids whose cells are each resolved to a tile, dead, or still
//! a list of competing candidate tiles.
use crate::matrix::{direction_between, lemma_offset_in_bounds, lemma_offset_injective, Matrix};
use crate::model::TID;
use std::collections::HashSet;
use vstd::prelude::*;
use vstd::std_specs::hash::group_hash_axioms;

verus! {

broadcast use group_hash_axioms;

/// Target type of image generation: a tile id per position, or `None` where unresolved.
pub type IDMatrix = Matrix<Option<usize>>;

/// The state of one cell: a tile (`This(Some(_))`), no legal tile (`This(None)`), or a list
/// of candidate tiles (`These(_)`).
#[derive(Debug, PartialEq, Eq)]
pub enum Tile {
    This(Option<usize>),
    These(Vec<usize>),
}

/// Mathematical cell state.
pub enum Domain {
    Fixed(usize),
    Impossible,
    Candidates(Seq<usize>),
}

impl View for Tile {
    type V = Domain;

    open spec fn view(&self) -> Domain {
        match self {
            Tile::This(Some(t)) => Domain::Fixed(*t),
            Tile::This(None) => Domain::Impossible,
            Tile::These(v) => Domain::Candidates(v@),
        }
    }
}

impl Default for Tile {
    fn default() -> (r: Self)
        ensures
            r == Tile::This(None),
    {
        Tile::This(None)
    }
}

impl Clone for Tile {
    fn clone(&self) -> (r: Self)
        ensures
            r@ == self@,
    {
        match self {
            Tile::This(t) => Tile::This(*t),
            Tile::These(v) => Tile::These(v.clone()),
        }
    }
}

/// Number of candidates left in a cell (zero for a resolved or dead cell).
pub open spec fn choices(d: Domain) -> nat {
    match d {
        Domain::Candidates(s) => s.len(),
        _ => 0,
    }
}

/// The cell state that a list of remaining candidates stands for: no candidate is a dead
/// cell, one candidate is a resolved cell, more remain candidates.
pub open spec fn normalize(s: Seq<usize>) -> Domain {
    if s.len() == 0 {
        Domain::Impossible
    } else if s.len() == 1 {
        Domain::Fixed(s[0])
    } else {
        Domain::Candidates(s)
    }
}

/// The candidates of `s` that `allowed` admits, in their order in `s`.
pub open spec fn admitted(s: Seq<usize>, allowed: Set<usize>) -> Seq<usize> {
    s.filter(|a: usize| allowed.contains(a))
}

/// A cell narrowed by `allowed`: candidate lists are filtered and normalized; resolved and
/// dead cells stay as they are.
pub open spec fn narrowed(d: Domain, allowed: Set<usize>) -> Domain {
    match d {
        Domain::Candidates(s) => normalize(admitted(s, allowed)),
        _ => d,
    }
}

/// The range `0..n` of tile ids.
pub open spec fn all_ids(n: nat) -> Seq<usize> {
    Seq::new(n, |i: int| i as usize)
}

/// No cell holds a candidate list.
pub open spec fn no_candidates(cells: Seq<Domain>) -> bool {
    forall|i: int| 0 <= i < cells.len() ==> !(#[trigger] cells[i] is Candidates)
}

/// Every cell is resolved to a tile.
pub open spec fn all_fixed(cells: Seq<Domain>) -> bool {
    forall|i: int| 0 <= i < cells.len() ==> #[trigger] cells[i] is Fixed
}

/// Cell `i` is the first cell, in storage order, among those with the fewest candidates.
pub open spec fn is_selection(cells: Seq<Domain>, i: int) -> bool {
    &&& 0 <= i < cells.len()
    &&& cells[i] is Candidates
    &&& forall|j: int|
        0 <= j < cells.len() && #[trigger] cells[j] is Candidates ==> choices(cells[i]) <= choices(
            cells[j],
        )
    &&& forall|j: int|
        0 <= j < i && #[trigger] cells[j] is Candidates ==> choices(cells[i]) < choices(cells[j])
}

/// A partially collapsed image. A graph with the nodes as "partially realized images" and edges
/// are "set" and "unset" operations on a tile in the image, i.e. nodes separated by one edge
/// differ at one tile.
pub type Node = Matrix<Tile>;

impl Matrix<Tile> {
    /// The cell states in storage order.
    pub open spec fn cells(&self) -> Seq<Domain> {
        self.data@.map_values(|t: Tile| t@)
    }

    /// Construct an uncollapsed image with t options for every position.
    pub fn empty(cols: usize, rows: usize, t: usize) -> (r: Self)
        requires
            cols * rows <= usize::MAX,
        ensures
            r.cols == cols,
            r.rows == rows,
            r.wf(),
            r.cells() == Seq::new(
                (cols * rows) as nat,
                |i: int| Domain::Candidates(all_ids(t as nat)),
            ),
    {
        let n: usize = cols * rows;
        let mut data: Vec<Tile> = Vec::new();
        let mut i: usize = 0;
        while i < n
            invariant
                i <= n,
                data@.len() == i,
                forall|j: int|
                    0 <= j < i ==> (#[trigger] data@[j])@ == Domain::Candidates(all_ids(t as nat)),
            decreases n - i,
        {
            let mut ids: Vec<usize> = Vec::new();
            let mut k: usize = 0;
            while k < t
                invariant
                    k <= t,
                    ids@ == all_ids(k as nat),
                decreases t - k,
            {
                ids.push(k);
                k = k + 1;
                assert(ids@ =~= all_ids(k as nat));
            }
            data.push(Tile::These(ids));
            i = i + 1;
        }
        let r = Matrix { rows, cols, data };
        assert(cols * rows == rows * cols) by (nonlinear_arith);
        assert(r.cells() =~= Seq::new(
            (cols * rows) as nat,
            |i: int| Domain::Candidates(all_ids(t as nat)),
        ));
        r
    }

    /// Return true if the node is fully collapsed, i.e. each position is Tile::This(None) or
    /// Tile::This(Some(_)).
    pub fn complete(&self) -> (r: bool)
        ensures
            r == no_candidates(self.cells()),
    {
        let mut i: usize = 0;
        while i < self.data.len()
            invariant
                i <= self.data@.len(),
                forall|j: int| 0 <= j < i ==> !(#[trigger] self.cells()[j] is Candidates),
            decreases self.data@.len() - i,
        {
            if let Tile::These(_) = &self.data[i] {
                assert(self.cells()[i as int] is Candidates);
                return false;
            }
            i = i + 1;
        }
        true
    }

    /// Return true if the node is fully defined, i.e. each position is Tile::This(Some(_)).
    pub fn good(&self) -> (r: bool)
        ensures
            r == all_fixed(self.cells()),
    {
        let mut i: usize = 0;
        while i < self.data.len()
            invariant
                i <= self.data@.len(),
                forall|j: int| 0 <= j < i ==> #[trigger] self.cells()[j] is Fixed,
            decreases self.data@.len() - i,
        {
            match &self.data[i] {
                Tile::This(None) => {
                    assert(!(self.cells()[i as int] is Fixed));
                    return false;
                },
                Tile::These(_) => {
                    assert(!(self.cells()[i as int] is Fixed));
                    return false;
                },
                _ => {},
            }
            i = i + 1;
        }
        true
    }

    /// Returns the position with the fewest options to choose from, i.e. among the cells
    /// holding Tile::These(v), the first in storage order with the smallest v.len(); None
    /// when no cell holds candidates.
    pub fn min_choices(&self) -> (r: Option<(usize, usize)>)
        requires
            self.wf(),
        ensures
            r is None <==> no_candidates(self.cells()),
            r matches Some((x, y)) ==> self.contains(x as int, y as int) && is_selection(
                self.cells(),
                self.offset(x as int, y as int),
            ),
    {
        let mut out: Option<(usize, usize)> = None;
        let mut min: Option<usize> = None;
        let ghost mut best: int = -1;
        let mut i: usize = 0;
        while i < self.data.len()
            invariant
                self.wf(),
                i <= self.data@.len(),
                out is None <==> best == -1,
                min is None <==> best == -1,
                best == -1 ==> forall|j: int| 0 <= j < i ==> !(#[trigger] self.cells()[j] is Candidates),
                best != -1 ==> 0 <= best < i,
                best != -1 ==> self.cells()[best] is Candidates,
                best != -1 ==> min is Some && min->0 == choices(self.cells()[best]),
                best != -1 ==> out == Some(((best % self.cols as int) as usize, (best / self.cols as int) as usize)),
                best != -1 ==> self.contains(best % self.cols as int, best / self.cols as int),
                best != -1 ==> self.offset(best % self.cols as int, best / self.cols as int) == best,
                best != -1 ==> forall|j: int|
                    0 <= j < i && #[trigger] self.cells()[j] is Candidates ==> choices(self.cells()[best])
                        <= choices(self.cells()[j]),
                best != -1 ==> forall|j: int|
                    0 <= j < best && #[trigger] self.cells()[j] is Candidates ==> choices(
                        self.cells()[best],
                    ) < choices(self.cells()[j]),
            decreases self.data@.len() - i,
        {
            proof {
                assert(self.cells()[i as int] == self.data@[i as int]@);
            }
            if let Tile::These(neighbors) = &self.data[i] {
                proof {
                    lemma_position_of(i as int, self.cols as int, self.rows as int);
                    assert(self.cells()[i as int] == Domain::Candidates(neighbors@));
                }
                let x: usize = i % self.cols;
                let y: usize = i / self.cols;
                match min {
                    None => {
                        min = Some(neighbors.len());
                        out = Some((x, y));
                        proof {
                            best = i as int;
                        }
                    },
                    Some(m) => {
                        if neighbors.len() < m {
                            min = Some(neighbors.len());
                            out = Some((x, y));
                            proof {
                                assert(choices(self.cells()[i as int]) < choices(self.cells()[best]));
                                assert forall|j: int|
                                    0 <= j < i && #[trigger] self.cells()[j] is Candidates implies choices(
                                        self.cells()[i as int],
                                    ) < choices(self.cells()[j]) by {
                                    assert(choices(self.cells()[best]) <= choices(self.cells()[j]));
                                }
                                best = i as int;
                            }
                        }
                    },
                }
                proof {
                    assert(choices(self.cells()[i as int]) == neighbors@.len());
                    assert(self.contains(best % self.cols as int, best / self.cols as int));
                    assert(out == Some(((best % self.cols as int) as usize, (best / self.cols as int) as usize)));
                }
            }
            i = i + 1;
        }
        out
    }

    /// Set (x, y) to t and propagate the consequences to the 4-neighbors of (x, y): each one
    /// still holding candidates keeps only those observed in that direction of t.
    pub fn collapse(&mut self, x: usize, y: usize, t: usize, tid: &TID)
        requires
            old(self).wf(),
            old(self).contains(x as int, y as int),
            choices_of(old(self).cells()[old(self).offset(x as int, y as int)]).contains(t),
            t < tid.tiles(),
        ensures
            final(self).rows == old(self).rows,
            final(self).cols == old(self).cols,
            final(self).wf(),
            forall|h: int, k: int|
                #![trigger final(self).cells()[old(self).offset(h, k)]]
                old(self).contains(h, k) ==> final(self).cells()[old(self).offset(h, k)]
                    == collapsed_cell(old(self).cells()[old(self).offset(h, k)], x as int, y as int, h, k, t, *tid),
            final(self).cells() == collapsed_grid(old(self).cells(), old(self).cols as int, x as int, y as int, t, *tid),
            forall|h: int, k: int|
                #![trigger final(self).cells()[old(self).offset(h, k)]]
                old(self).contains(h, k) && !(old(self).cells()[old(self).offset(h, k)] is Candidates)
                    ==> final(self).cells()[old(self).offset(h, k)] == old(self).cells()[old(self).offset(h, k)],
    {
        let ghost before = self.cells();
        self.set(x, y, Tile::This(Some(t)));
        proof {
            assert forall|h: int, k: int| old(self).contains(h, k) implies self.cells()[old(self).offset(h, k)]
                == if h == x && k == y { Domain::Fixed(t) } else { before[old(self).offset(h, k)] } by {
                lemma_offset_injective(self.cols as int, h, k, x as int, y as int);
                lemma_offset_in_bounds(self.cols as int, self.rows as int, h, k);
                lemma_offset_in_bounds(self.cols as int, self.rows as int, x as int, y as int);
                let o = old(self).offset(h, k);
                assert(self.cells()[o] == self.data@[o]@);
                assert(before[o] == old(self).data@[o]@);
                if h == x && k == y {
                    assert(self.data@[o] == Tile::This(Some(t)));
                } else {
                    assert(self.data@[o] == old(self).data@[o]);
                }
            }
        }
        let mut d: usize = 0;
        while d < 4
            invariant
                self.wf(),
                self.rows == old(self).rows,
                self.cols == old(self).cols,
                before == old(self).cells(),
                old(self).contains(x as int, y as int),
                t < tid.tiles(),
                d <= 4,
                forall|h: int, k: int|
                    #![trigger self.cells()[old(self).offset(h, k)]]
                    old(self).contains(h, k) ==> self.cells()[old(self).offset(h, k)] == if h == x && k == y {
                        Domain::Fixed(t)
                    } else if 0 <= direction_between(x as int, y as int, h, k) < d {
                        narrowed(before[old(self).offset(h, k)], tid.hood(t as int, direction_between(x as int, y as int, h, k)))
                    } else {
                        before[old(self).offset(h, k)]
                    },
            decreases 4 - d,
        {
            let ghost mid = self.cells();
            let (inside, h, k) = if d == 0 {
                (x + 1 < self.cols, x + 1, y)
            } else if d == 1 {
                (y > 0, x, if y > 0 { y - 1 } else { 0 })
            } else if d == 2 {
                (x > 0, if x > 0 { x - 1 } else { 0 }, y)
            } else {
                (y + 1 < self.rows, x, y + 1)
            };
            if inside {
                proof {
                    lemma_offset_in_bounds(self.cols as int, self.rows as int, h as int, k as int);
                    assert(mid[old(self).offset(h as int, k as int)] == before[old(self).offset(h as int, k as int)]);
                }
                self.narrow(h, k, tid.neighborhood(t, d));
            }
            proof {
                assert forall|h2: int, k2: int| old(self).contains(h2, k2) implies #[trigger] self.cells()[old(self).offset(h2, k2)]
                    == if h2 == x && k2 == y {
                    Domain::Fixed(t)
                } else if 0 <= direction_between(x as int, y as int, h2, k2) < d + 1 {
                    narrowed(before[old(self).offset(h2, k2)], tid.hood(t as int, direction_between(x as int, y as int, h2, k2)))
                } else {
                    before[old(self).offset(h2, k2)]
                } by {
                    lemma_offset_in_bounds(self.cols as int, self.rows as int, h2, k2);
                    let o2 = old(self).offset(h2, k2);
                    if inside {
                        lemma_offset_injective(self.cols as int, h2, k2, h as int, k as int);
                        lemma_offset_in_bounds(self.cols as int, self.rows as int, h as int, k as int);
                        if !(h2 == h && k2 == k) {
                            assert(self.cells()[o2] == mid[o2]);
                        }
                    } else {
                        assert(direction_between(x as int, y as int, h2, k2) != d);
                    }
                }
            }
            d = d + 1;
        }
        proof {
            let g = collapsed_grid(before, self.cols as int, x as int, y as int, t, *tid);
            assert forall|j: int| 0 <= j < self.cells().len() implies self.cells()[j] == g[j] by {
                lemma_position_of(j, self.cols as int, self.rows as int);
                assert(old(self).offset(j % self.cols as int, j / self.cols as int) == j);
            }
            assert(self.cells() =~= g);
        }
    }

    /// Narrow the cell at (h, k), if it holds candidates, to those in `allowed`.
    fn narrow(&mut self, h: usize, k: usize, allowed: HashSet<usize>)
        requires
            old(self).wf(),
            old(self).contains(h as int, k as int),
        ensures
            final(self).rows == old(self).rows,
            final(self).cols == old(self).cols,
            final(self).wf(),
            final(self).cells() == old(self).cells().update(
                old(self).offset(h as int, k as int),
                narrowed(old(self).cells()[old(self).offset(h as int, k as int)], allowed@),
            ),
    {
        proof {
            lemma_offset_in_bounds(self.cols as int, self.rows as int, h as int, k as int);
        }
        if let Tile::These(neighbors) = self.at(h, k) {
            let ts = intersection(neighbors, allowed);
            self.set(h, k, ts);
            assert(self.cells() =~= old(self).cells().update(
                old(self).offset(h as int, k as int),
                narrowed(old(self).cells()[old(self).offset(h as int, k as int)], allowed@),
            ));
        } else {
            assert(self.cells() =~= old(self).cells().update(
                old(self).offset(h as int, k as int),
                narrowed(old(self).cells()[old(self).offset(h as int, k as int)], allowed@),
            ));
        }
    }

    /// Compute an IDMatrix representation: the tile of each resolved cell, None elsewhere.
    pub fn to_idmatrix(&self) -> (r: IDMatrix)
        ensures
            r.rows == self.rows,
            r.cols == self.cols,
            r.data@ == self.cells().map_values(|d: Domain| projection(d)),
    {
        let mut data: Vec<Option<usize>> = Vec::new();
        let mut i: usize = 0;
        while i < self.data.len()
            invariant
                i <= self.data@.len(),
                data@ == self.cells().take(i as int).map_values(|d: Domain| projection(d)),
            decreases self.data@.len() - i,
        {
            let v = match &self.data[i] {
                Tile::This(Some(t)) => Some(*t),
                _ => None,
            };
            data.push(v);
            i = i + 1;
            assert(data@ =~= self.cells().take(i as int).map_values(|d: Domain| projection(d)));
        }
        assert(self.cells().take(i as int) =~= self.cells());
        Matrix { rows: self.rows, cols: self.cols, data }
    }
}

/// The candidate list of a cell, empty for a resolved or dead cell.
pub open spec fn choices_of(d: Domain) -> Seq<usize> {
    match d {
        Domain::Candidates(s) => s,
        _ => Seq::empty(),
    }
}

/// The result-grid entry for a cell: its tile where resolved, `None` otherwise.
pub open spec fn projection(d: Domain) -> Option<usize> {
    match d {
        Domain::Fixed(t) => Some(t),
        _ => None,
    }
}

/// The state of the cell at `(h, k)` after the cell at `(x, y)` is collapsed to tile `t` under
/// the model `tid`: the collapsed cell is resolved to `t`, each 4-neighbor in direction `d` is
/// narrowed by the tiles observed in direction `d` of `t`, and every other cell is kept.
pub open spec fn collapsed_cell(before: Domain, x: int, y: int, h: int, k: int, t: usize, tid: TID) -> Domain {
    if h == x && k == y {
        Domain::Fixed(t)
    } else if direction_between(x, y, h, k) >= 0 {
        narrowed(before, tid.hood(t as int, direction_between(x, y, h, k)))
    } else {
        before
    }
}

/// The whole grid after the cell at `(x, y)` is collapsed to `t`, for a grid of `cols`
/// columns stored row by row.
pub open spec fn collapsed_grid(cells: Seq<Domain>, cols: int, x: int, y: int, t: usize, tid: TID) -> Seq<Domain> {
    Seq::new(cells.len(), |j: int| collapsed_cell(cells[j], x, y, j % cols, j / cols, t, tid))
}

/// Position of the `i`-th entry of the storage of a `cols` x `rows` matrix.
pub proof fn lemma_position_of(i: int, cols: int, rows: int)
    requires
        0 <= i < rows * cols,
        0 <= cols,
        0 <= rows,
    ensures
        cols > 0,
        0 <= i % cols < cols,
        0 <= i / cols < rows,
        i % cols + (i / cols) * cols == i,
{
    if cols == 0 {
        assert(rows * cols == 0) by (nonlinear_arith)
            requires
                cols == 0,
        ;
    }
    vstd::arithmetic::div_mod::lemma_fundamental_div_mod(i, cols);
    assert(cols * (i / cols) == (i / cols) * cols) by (nonlinear_arith);
    assert(0 <= i / cols) by (nonlinear_arith)
        requires
            0 <= i,
            0 < cols,
    ;
    assert(i / cols < rows) by (nonlinear_arith)
        requires
            i == cols * (i / cols) + i % cols,
            0 <= i % cols,
            i < rows * cols,
            0 < cols,
    ;
}

/// Narrowing normalizes: a list of several candidates cut down to one becomes that tile,
/// resolved, and cut down to none becomes a dead cell; a narrowed cell never holds a single
/// candidate.
pub proof fn lemma_narrowing_normalizes(s: Seq<usize>, allowed: Set<usize>)
    requires
        s.len() > 1,
    ensures
        admitted(s, allowed).len() == 1 ==> narrowed(Domain::Candidates(s), allowed) == Domain::Fixed(
            admitted(s, allowed)[0],
        ),
        admitted(s, allowed).len() == 0 ==> narrowed(Domain::Candidates(s), allowed) == Domain::Impossible,
        narrowed(Domain::Candidates(s), allowed) is Candidates ==> choices(
            narrowed(Domain::Candidates(s), allowed),
        ) >= 2,
{
}

/// A grid every cell of which is resolved has no candidates left.
pub proof fn lemma_resolved_is_complete(cells: Seq<Domain>)
    requires
        all_fixed(cells),
    ensures
        no_candidates(cells),
{
    assert forall|i: int| 0 <= i < cells.len() implies !(#[trigger] cells[i] is Candidates) by {
        assert(cells[i] is Fixed);
    }
}

/// Specialized function to compute the intersection of a candidate list and a set of
/// allowed tiles as a cell: the candidates that the set admits, in their order, normalized.
fn intersection(as_: Vec<usize>, bs: HashSet<usize>) -> (r: Tile)
    ensures
        r@ == normalize(admitted(as_@, bs@)),
        admitted(as_@, bs@).len() == 0 ==> r@ == Domain::Impossible,
        admitted(as_@, bs@).len() == 1 ==> r@ == Domain::Fixed(admitted(as_@, bs@)[0]),
        r@ is Candidates ==> choices(r@) >= 2,
{
    let mut ts: Vec<usize> = Vec::new();
    let mut i: usize = 0;
    while i < as_.len()
        invariant
            i <= as_@.len(),
            ts@ == admitted(as_@.take(i as int), bs@),
        decreases as_@.len() - i,
    {
        let a = as_[i];
        let keep = bs.contains(&a);
        if keep {
            ts.push(a);
        }
        proof {
            reveal(Seq::filter);
            assert(as_@.take(i + 1).drop_last() =~= as_@.take(i as int));
            assert(as_@.take(i + 1).last() == a);
            assert(keep == bs@.contains(a));
            assert(ts@ == admitted(as_@.take(i + 1), bs@));
        }
        i = i + 1;
    }
    proof {
        assert(as_@.take(i as int) =~= as_@);
    }
    match ts.len() {
        0 => Tile::This(None),
        1 => Tile::This(ts.pop()),
        _ => Tile::These(ts),
    }
}

} // verus!
