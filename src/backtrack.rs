//! Constrained backtracking search: from a seed grid, enumerate every fully resolved grid
//! reachable by collapsing, depth first, the cell with the fewest remaining candidates.
use crate::model::TID;
use crate::node::{
    admitted, all_fixed, choices, choices_of, collapsed_grid, is_selection, narrowed, no_candidates,
    projection, Domain, IDMatrix, Node, Tile,
};
use vstd::prelude::*;

verus! {

/// Weight of a cell in the termination measure: a candidate list counts one more than its
/// length; resolved and dead cells count nothing.
pub open spec fn weight(d: Domain) -> nat {
    match d {
        Domain::Candidates(s) => s.len() + 1,
        _ => 0,
    }
}

/// Total weight of a grid.
pub open spec fn size(cells: Seq<Domain>) -> nat
    decreases cells.len(),
{
    if cells.len() == 0 {
        0
    } else {
        size(cells.drop_last()) + weight(cells.last())
    }
}

/// n!
pub open spec fn fact(n: nat) -> nat
    decreases n,
{
    if n == 0 {
        1
    } else {
        n * fact((n - 1) as nat)
    }
}

/// Termination measure of a work list: each grid of total weight w counts w!, which exceeds
/// what all of its children count together.
pub open spec fn load(stack: Seq<Seq<Domain>>) -> nat
    decreases stack.len(),
{
    if stack.len() == 0 {
        0
    } else {
        load(stack.drop_last()) + fact(size(stack.last()))
    }
}

/// The cell that the search branches on: the first among those with the fewest candidates.
pub open spec fn selection(cells: Seq<Domain>) -> int {
    choose|i: int| is_selection(cells, i)
}

/// The grids a branching step forks from `cells`: one per candidate of the selected cell, in
/// candidate order, each collapsed there to that candidate.
pub open spec fn children(cells: Seq<Domain>, cols: int, tid: TID) -> Seq<Seq<Domain>> {
    let i = selection(cells);
    let s = choices_of(cells[i]);
    Seq::new(s.len(), |j: int| collapsed_grid(cells, cols, i % cols, i / cols, s[j], tid))
}

/// What a finished grid contributes to the output: its projection when every cell is
/// resolved, nothing otherwise.
pub open spec fn emitted(cells: Seq<Domain>) -> Seq<Seq<Option<usize>>> {
    if all_fixed(cells) {
        seq![cells.map_values(|d: Domain| projection(d))]
    } else {
        Seq::empty()
    }
}

/// The result grids, in order, of running the search on a work list whose top is its last
/// grid: a grid without candidates is classified and dropped from the list; any other grid
/// is replaced by its children, the last of them on top.
pub open spec fn outcome(stack: Seq<Seq<Domain>>, cols: int, tid: TID) -> Seq<Seq<Option<usize>>>
    decreases load(stack),
{
    if stack.len() == 0 {
        Seq::empty()
    } else {
        let g = stack.last();
        let rest = stack.drop_last();
        if no_candidates(g) {
            proof {
                lemma_finished_lighter(stack);
            }
            emitted(g) + outcome(rest, cols, tid)
        } else {
            proof {
                lemma_children_lighter(stack, cols, tid);
            }
            outcome(rest + children(g, cols, tid), cols, tid)
        }
    }
}

pub proof fn lemma_fact_positive(n: nat)
    ensures
        fact(n) >= 1,
    decreases n,
{
    if n > 0 {
        lemma_fact_positive((n - 1) as nat);
        assert(n * fact((n - 1) as nat) >= 1) by (nonlinear_arith)
            requires
                n >= 1,
                fact((n - 1) as nat) >= 1,
        ;
    }
}

pub proof fn lemma_fact_monotone(a: nat, b: nat)
    requires
        a <= b,
    ensures
        fact(a) <= fact(b),
    decreases b,
{
    if a < b {
        lemma_fact_monotone(a, (b - 1) as nat);
        lemma_fact_positive((b - 1) as nat);
        assert(fact((b - 1) as nat) <= b * fact((b - 1) as nat)) by (nonlinear_arith)
            requires
                b >= 1,
                fact((b - 1) as nat) >= 1,
        ;
    }
}

pub proof fn lemma_load_append(a: Seq<Seq<Domain>>, b: Seq<Seq<Domain>>)
    ensures
        load(a + b) == load(a) + load(b),
    decreases b.len(),
{
    if b.len() > 0 {
        assert((a + b).drop_last() =~= a + b.drop_last());
        lemma_load_append(a, b.drop_last());
    } else {
        assert(a + b =~= a);
    }
}

pub proof fn lemma_load_bounded(cs: Seq<Seq<Domain>>, m: nat)
    requires
        forall|j: int| 0 <= j < cs.len() ==> size(#[trigger] cs[j]) <= m,
    ensures
        load(cs) <= cs.len() * fact(m),
    decreases cs.len(),
{
    if cs.len() > 0 {
        lemma_load_bounded(cs.drop_last(), m);
        lemma_fact_monotone(size(cs.last()), m);
        assert((cs.len() - 1) * fact(m) + fact(m) == cs.len() * fact(m)) by (nonlinear_arith);
    }
}

pub proof fn lemma_weight_bounded(cells: Seq<Domain>, i: int)
    requires
        0 <= i < cells.len(),
    ensures
        weight(cells[i]) <= size(cells),
    decreases cells.len(),
{
    if i < cells.len() - 1 {
        lemma_weight_bounded(cells.drop_last(), i);
    }
}

/// A grid no cell of which weighs more than in `a`, and whose cell `i` weighs nothing, is
/// lighter than `a` by at least the weight of `a[i]`.
pub proof fn lemma_size_pointwise(a: Seq<Domain>, b: Seq<Domain>, i: int)
    requires
        a.len() == b.len(),
        0 <= i < a.len(),
        forall|j: int| 0 <= j < a.len() ==> weight(#[trigger] b[j]) <= weight(a[j]),
        weight(b[i]) == 0,
    ensures
        size(b) + weight(a[i]) <= size(a),
    decreases a.len(),
{
    if i < a.len() - 1 {
        lemma_size_pointwise(a.drop_last(), b.drop_last(), i);
        lemma_size_dominated(a.drop_last(), b.drop_last());
    } else {
        lemma_size_dominated(a.drop_last(), b.drop_last());
    }
}

pub proof fn lemma_size_dominated(a: Seq<Domain>, b: Seq<Domain>)
    requires
        a.len() == b.len(),
        forall|j: int| 0 <= j < a.len() ==> weight(#[trigger] b[j]) <= weight(a[j]),
    ensures
        size(b) <= size(a),
    decreases a.len(),
{
    if a.len() > 0 {
        lemma_size_dominated(a.drop_last(), b.drop_last());
    }
}

/// Narrowing a cell never makes it heavier.
pub proof fn lemma_narrowed_lighter(d: Domain, allowed: Set<usize>)
    ensures
        weight(narrowed(d, allowed)) <= weight(d),
{
    if let Domain::Candidates(s) = d {
        s.lemma_filter_len(|a: usize| allowed.contains(a));
    }
}

/// The first minimal candidate cell among the first `n` cells, or -1 when they hold none.
spec fn best_in(cells: Seq<Domain>, n: int) -> int
    decreases n,
{
    if n <= 0 {
        -1
    } else {
        let b = best_in(cells, n - 1);
        if cells[n - 1] is Candidates && (b == -1 || choices(cells[n - 1]) < choices(cells[b])) {
            n - 1
        } else {
            b
        }
    }
}

proof fn lemma_best_in(cells: Seq<Domain>, n: int)
    requires
        0 <= n <= cells.len(),
    ensures
        best_in(cells, n) == -1 <==> forall|j: int| 0 <= j < n ==> !(#[trigger] cells[j] is Candidates),
        best_in(cells, n) != -1 ==> {
            let b = best_in(cells, n);
            &&& 0 <= b < n
            &&& cells[b] is Candidates
            &&& forall|j: int|
                0 <= j < n && #[trigger] cells[j] is Candidates ==> choices(cells[b]) <= choices(cells[j])
            &&& forall|j: int|
                0 <= j < b && #[trigger] cells[j] is Candidates ==> choices(cells[b]) < choices(cells[j])
        },
    decreases n,
{
    if n > 0 {
        lemma_best_in(cells, n - 1);
    }
}

/// A grid holding candidates has exactly one selected cell.
pub proof fn lemma_selection(cells: Seq<Domain>, i: int)
    requires
        !no_candidates(cells),
    ensures
        is_selection(cells, selection(cells)),
        is_selection(cells, i) ==> i == selection(cells),
{
    lemma_best_in(cells, cells.len() as int);
    assert(is_selection(cells, best_in(cells, cells.len() as int)));
    let s = selection(cells);
    if is_selection(cells, i) && i != s {
        if i < s {
            assert(choices(cells[s]) < choices(cells[i]));
        } else {
            assert(choices(cells[i]) < choices(cells[s]));
        }
    }
}

/// A grid has no candidates left exactly when it has no cell to select.
pub proof fn lemma_complete_iff_no_selection(cells: Seq<Domain>)
    ensures
        no_candidates(cells) <==> !exists|i: int| is_selection(cells, i),
{
    if !no_candidates(cells) {
        lemma_selection(cells, 0);
    }
}

pub proof fn lemma_finished_lighter(stack: Seq<Seq<Domain>>)
    requires
        stack.len() > 0,
    ensures
        load(stack.drop_last()) < load(stack),
{
    lemma_fact_positive(size(stack.last()));
}

/// Replacing the top grid of a work list by its children lowers the load.
pub proof fn lemma_children_lighter(stack: Seq<Seq<Domain>>, cols: int, tid: TID)
    requires
        stack.len() > 0,
        !no_candidates(stack.last()),
    ensures
        load(stack.drop_last() + children(stack.last(), cols, tid)) < load(stack),
{
    let g = stack.last();
    let rest = stack.drop_last();
    lemma_selection(g, 0);
    let i = selection(g);
    let k = choices(g[i]);
    let m = size(g);
    let cs = children(g, cols, tid);
    lemma_weight_bounded(g, i);
    assert forall|j: int| 0 <= j < cs.len() implies size(#[trigger] cs[j]) + k + 1 <= m by {
        let c = cs[j];
        assert forall|q: int| 0 <= q < g.len() implies weight(#[trigger] c[q]) <= weight(g[q]) by {
            let before = g[q];
            if !(q % cols == i % cols && q / cols == i / cols)
                && crate::matrix::direction_between(i % cols, i / cols, q % cols, q / cols) >= 0 {
                lemma_narrowed_lighter(
                    before,
                    tid.hood(choices_of(g[i])[j] as int, crate::matrix::direction_between(i % cols, i / cols, q % cols, q / cols)),
                );
            }
        }
        lemma_size_pointwise(g, c, i);
    }
    lemma_load_bounded(cs, (m - 1) as nat);
    lemma_load_append(rest, cs);
    lemma_fact_positive((m - 1) as nat);
    assert(k * fact((m - 1) as nat) < m * fact((m - 1) as nat)) by (nonlinear_arith)
        requires
            k < m,
            fact((m - 1) as nat) >= 1,
    ;
}

/// The cell states of each grid of a work list.
pub open spec fn stack_cells(stack: Seq<Node>) -> Seq<Seq<Domain>> {
    stack.map_values(|g: Node| g.cells())
}

/// Every candidate of every cell is below `n`.
pub open spec fn candidates_below(cells: Seq<Domain>, n: int) -> bool {
    forall|i: int, j: int|
        0 <= i < cells.len() && 0 <= j < choices_of(cells[i]).len() ==> #[trigger] choices_of(
            cells[i],
        )[j] < n
}

/// A grid of the given shape whose candidates are all tiles of a model of `n` tiles.
pub open spec fn fits(g: Node, cols: usize, rows: usize, n: int) -> bool {
    &&& g.wf()
    &&& g.cols == cols
    &&& g.rows == rows
    &&& candidates_below(g.cells(), n)
}

/// Collapsing keeps every candidate among the candidates it had.
pub proof fn lemma_collapsed_below(cells: Seq<Domain>, cols: int, x: int, y: int, t: usize, tid: TID, n: int)
    requires
        candidates_below(cells, n),
    ensures
        candidates_below(collapsed_grid(cells, cols, x, y, t, tid), n),
{
    let g = collapsed_grid(cells, cols, x, y, t, tid);
    assert forall|i: int, j: int|
        0 <= i < g.len() && 0 <= j < choices_of(g[i]).len() implies #[trigger] choices_of(g[i])[j] < n by {
        if let Domain::Candidates(s) = cells[i] {
            let allowed = tid.hood(t as int, crate::matrix::direction_between(x, y, i % cols, i / cols));
            let f = admitted(s, allowed);
            if choices_of(g[i]) == f {
                assert(f.contains(f[j]));
                s.lemma_filter_contains_rev(|a: usize| allowed.contains(a), f[j]);
                let q = choose|q: int| 0 <= q < s.len() && s[q] == f[j];
                assert(choices_of(cells[i])[q] < n);
            }
        }
    }
}

/// Given a seed grid, enumerate ALL fully resolved grids reachable from it: depth first over an
/// explicit work list, branching on the first cell with the fewest candidates, and keeping the
/// grids whose cells all end up resolved.
pub fn search(seed: Node, tis: TID) -> (r: Vec<IDMatrix>)
    requires
        seed.wf(),
        candidates_below(seed.cells(), tis.tiles()),
    ensures
        r@.map_values(|m: IDMatrix| m.data@) == outcome(seq![seed.cells()], seed.cols as int, tis),
        forall|i: int| 0 <= i < r@.len() ==> (#[trigger] r@[i]).rows == seed.rows && r@[i].cols == seed.cols,
{
    let ghost cols = seed.cols;
    let ghost rows = seed.rows;
    let ghost start = seq![seed.cells()];
    let mut out: Vec<IDMatrix> = Vec::new();
    let mut active: Vec<Node> = Vec::new();
    active.push(seed);
    assert(stack_cells(active@) =~= start);
    while active.len() > 0
        invariant
            forall|i: int| 0 <= i < active@.len() ==> fits(#[trigger] active@[i], cols, rows, tis.tiles()),
            forall|i: int| 0 <= i < out@.len() ==> (#[trigger] out@[i]).rows == rows && out@[i].cols == cols,
            out@.map_values(|m: IDMatrix| m.data@) + outcome(stack_cells(active@), cols as int, tis)
                == outcome(start, cols as int, tis),
        decreases load(stack_cells(active@)),
    {
        let ghost before = active@;
        let ghost done = out@.map_values(|m: IDMatrix| m.data@);
        let img = active.pop().unwrap();
        let ghost g = img.cells();
        let ghost rest = active@;
        proof {
            assert(stack_cells(before).last() == g);
            assert(stack_cells(before).drop_last() =~= stack_cells(rest));
            assert(fits(before[before.len() - 1], cols, rows, tis.tiles()));
        }
        if img.complete() {
            proof {
                lemma_finished_lighter(stack_cells(before));
            }
            if img.good() {
                out.push(img.to_idmatrix());
                proof {
                    assert(out@.map_values(|m: IDMatrix| m.data@) =~= done + emitted(g));
                }
            } else {
                proof {
                    assert(emitted(g) =~= Seq::<Seq<Option<usize>>>::empty());
                    assert(done + emitted(g) =~= done);
                }
            }
            proof {
                assert(done + emitted(g) + outcome(stack_cells(rest), cols as int, tis) =~= done + (emitted(g)
                    + outcome(stack_cells(rest), cols as int, tis)));
            }
        } else {
            if let Some((x, y)) = img.min_choices() {
                let ghost sel = img.offset(x as int, y as int);
                proof {
                    lemma_selection(g, sel);
                    vstd::arithmetic::div_mod::lemma_fundamental_div_mod_converse(sel, cols as int, y as int, x as int);
                }
                if let Tile::These(tiles) = img.at(x, y) {
                    let ghost kids = children(g, cols as int, tis);
                    let mut j: usize = 0;
                    while j < tiles.len()
                        invariant
                            j <= tiles@.len(),
                            tiles@ == choices_of(g[sel]),
                            kids == children(g, cols as int, tis),
                            kids.len() == tiles@.len(),
                            sel == selection(g),
                            sel == img.offset(x as int, y as int),
                            x as int == sel % (cols as int),
                            y as int == sel / (cols as int),
                            fits(img, cols, rows, tis.tiles()),
                            g == img.cells(),
                            0 <= sel < g.len(),
                            img.contains(x as int, y as int),
                            stack_cells(active@) == stack_cells(rest) + kids.take(j as int),
                            forall|i: int| 0 <= i < active@.len() ==> fits(#[trigger] active@[i], cols, rows, tis.tiles()),
                        decreases tiles@.len() - j,
                    {
                        let mut fork = img.clone();
                        proof {
                            assert(fork.cells() =~= g);
                            assert(tiles@[j as int] < tis.tiles());
                            assert(choices_of(g[sel])[j as int] == tiles@[j as int]);
                            assert(fork.offset(x as int, y as int) == sel);
                            assert(choices_of(fork.cells()[fork.offset(x as int, y as int)]).contains(tiles@[j as int]));
                        }
                        fork.collapse(x, y, tiles[j], &tis);
                        proof {
                            lemma_collapsed_below(g, cols as int, x as int, y as int, tiles@[j as int], tis, tis.tiles());
                        }
                        let ghost pre = active@;
                        active.push(fork);
                        proof {
                            assert(kids.take(j + 1) =~= kids.take(j as int).push(kids[j as int]));
                            assert(stack_cells(active@) =~= stack_cells(pre).push(fork.cells()));
                        }
                        j = j + 1;
                    }
                    proof {
                        assert(kids.take(j as int) =~= kids);
                        lemma_children_lighter(stack_cells(before), cols as int, tis);
                    }
                }
            }
        }
    }
    proof {
        assert(stack_cells(active@) =~= Seq::<Seq<Domain>>::empty());
        assert(outcome(stack_cells(active@), cols as int, tis) =~= Seq::<Seq<Option<usize>>>::empty());
        assert(out@.map_values(|m: IDMatrix| m.data@) + Seq::<Seq<Option<usize>>>::empty()
            =~= out@.map_values(|m: IDMatrix| m.data@));
    }
    out
}

/// Determinism: two runs of the search on the same seed grid and model give the same result
/// grids in the same order.
pub proof fn lemma_search_deterministic(seed: Node, tis: TID, r1: Seq<IDMatrix>, r2: Seq<IDMatrix>)
    requires
        r1.map_values(|m: IDMatrix| m.data@) == outcome(seq![seed.cells()], seed.cols as int, tis),
        r2.map_values(|m: IDMatrix| m.data@) == outcome(seq![seed.cells()], seed.cols as int, tis),
    ensures
        r1.len() == r2.len(),
        forall|i: int| 0 <= i < r1.len() ==> (#[trigger] r1[i]).data@ == r2[i].data@,
{
    let v1 = r1.map_values(|m: IDMatrix| m.data@);
    let v2 = r2.map_values(|m: IDMatrix| m.data@);
    assert(v1.len() == r1.len() && v2.len() == r2.len());
    assert forall|i: int| 0 <= i < r1.len() implies (#[trigger] r1[i]).data@ == r2[i].data@ by {
        assert(r1.map_values(|m: IDMatrix| m.data@)[i] == r2.map_values(|m: IDMatrix| m.data@)[i]);
    }
}

} // verus!
