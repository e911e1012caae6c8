//! Fragments: every legal 3x3 neighborhood around a seed tile, enumerated by composing the
//! neighbor sets of the adjacency model, without general search.
//!
//! A plan lists the nine cells of a fragment in the order they are chosen. Entry `j` is
//! `(position, from, dir, from2, dir2)`: cell `j` goes to flat position `position` of the 3x3
//! grid and takes every tile that lies both in direction `dir` of the tile chosen for entry
//! `from` and in direction `dir2` of the tile chosen for entry `from2` (both earlier entries).
//! Entry 0 is the seed; its constraints are not read. A cell with a single constraint repeats it.
use crate::matrix::{in_grid, step, Matrix};
use crate::model::{closed_ids, symmetric, TID};
use crate::node::IDMatrix;
use vstd::prelude::*;
use vstd::std_specs::hash::group_hash_axioms;

verus! {

broadcast use group_hash_axioms;

/// One entry of a plan: `(position, from, dir, from2, dir2)`.
pub type Slot = (usize, usize, usize, usize, usize);

/// The entries of a plan refer only to earlier entries and to the four directions.
pub open spec fn plan_wf(plan: Seq<Slot>) -> bool {
    &&& plan.len() >= 1
    &&& forall|j: int|
        1 <= j < plan.len() ==> {
            let (p, a, d, b, e) = #[trigger] plan[j];
            &&& a < j
            &&& b < j
            &&& d < 4
            &&& e < 4
        }
}

/// Tile `c` meets both constraints of entry `j` given the tiles `a` chosen so far.
pub open spec fn admits(tid: TID, plan: Seq<Slot>, a: Seq<usize>, j: int, c: usize) -> bool {
    &&& tid.hood(a[plan[j].1 as int] as int, plan[j].2 as int).contains(c)
    &&& tid.hood(a[plan[j].3 as int] as int, plan[j].4 as int).contains(c)
}

/// The tiles `a` meet the constraints of every entry they cover, after the seed.
pub open spec fn valid_prefix(tid: TID, plan: Seq<Slot>, a: Seq<usize>) -> bool {
    &&& 1 <= a.len() <= plan.len()
    &&& forall|j: int| 1 <= j < a.len() ==> admits(tid, plan, a, j, #[trigger] a[j])
}

/// A full choice of tiles for the plan, extending `prefix`.
pub open spec fn completes(tid: TID, plan: Seq<Slot>, prefix: Seq<usize>, a: Seq<usize>) -> bool {
    &&& a.len() == plan.len()
    &&& valid_prefix(tid, plan, a)
    &&& a.subrange(0, prefix.len() as int) == prefix
}

/// Every tile chosen so far is a tile of the model.
pub open spec fn known_tiles(tid: TID, a: Seq<usize>) -> bool {
    forall|j: int| 0 <= j < a.len() ==> (#[trigger] a[j]) < tid.tiles()
}

/// `v` occurs among the first `n` entries of `s`.
pub open spec fn seen(s: Seq<usize>, n: int, v: usize) -> bool {
    exists|i: int| 0 <= i < n && s[i] == v
}

/// Emitted sequences, viewed.
pub open spec fn views(out: Seq<Vec<usize>>) -> Seq<Seq<usize>> {
    out.map_values(|v: Vec<usize>| v@)
}

/// Append to `out`, in some order and once each, every full choice of tiles for `plan` that
/// extends `chosen`.
fn extend(tid: &TID, plan: &Vec<Slot>, chosen: &mut Vec<usize>, out: &mut Vec<Vec<usize>>)
    requires
        plan_wf(plan@),
        valid_prefix(*tid, plan@, old(chosen)@),
        known_tiles(*tid, old(chosen)@),
        closed_ids(tid.hoods()),
    ensures
        final(chosen)@ == old(chosen)@,
        final(out)@.len() >= old(out)@.len(),
        final(out)@.subrange(0, old(out)@.len() as int) == old(out)@,
        forall|k: int|
            old(out)@.len() <= k < final(out)@.len() ==> completes(*tid, plan@, old(chosen)@, #[trigger] final(out)@[k]@),
        forall|a: Seq<usize>|
            completes(*tid, plan@, old(chosen)@, a) ==> #[trigger] views(final(out)@.subrange(old(out)@.len() as int, final(out)@.len() as int)).contains(a),
        views(final(out)@.subrange(old(out)@.len() as int, final(out)@.len() as int)).no_duplicates(),
    decreases plan@.len() - old(chosen)@.len(),
{
    let ghost start = out@.len();
    let p = chosen.len();
    if p == plan.len() {
        out.push(chosen.clone());
        proof {
            assert(out@[start as int]@ =~= old(chosen)@);
            assert(views(out@.subrange(start as int, out@.len() as int)) =~= seq![old(chosen)@]);
            assert(out@.subrange(0, start as int) =~= old(out)@);
            assert(old(chosen)@.subrange(0, p as int) =~= old(chosen)@);
            assert(completes(*tid, plan@, old(chosen)@, out@[start as int]@));
            assert forall|a: Seq<usize>| completes(*tid, plan@, old(chosen)@, a) implies #[trigger] views(
                out@.subrange(start as int, out@.len() as int),
            ).contains(a) by {
                assert(a.subrange(0, a.len() as int) =~= a);
                assert(views(out@.subrange(start as int, out@.len() as int))[0] == a);
            }
        }
        return;
    }
    let (_, from, dir, from2, dir2) = plan[p];
    proof {
        assert(1 <= p);
        assert(from < p && from2 < p && dir < 4 && dir2 < 4);
        assert(chosen@[from as int] < tid.tiles());
        assert(chosen@[from2 as int] < tid.tiles());
    }
    let first = tid.hood_ref(chosen[from], dir);
    let second = tid.hood_ref(chosen[from2], dir2);
    let ghost base = chosen@;
    for c in it: first.iter()
        invariant
            chosen@ == base,
            base == old(chosen)@,
            p == base.len(),
            p < plan@.len(),
            plan@[p as int] == (plan@[p as int].0, from, dir, from2, dir2),
            plan_wf(plan@),
            valid_prefix(*tid, plan@, base),
            known_tiles(*tid, base),
            closed_ids(tid.hoods()),
            first@ == tid.hood(base[from as int] as int, dir as int),
            second@ == tid.hood(base[from2 as int] as int, dir2 as int),
            from < p,
            dir < 4,
            it.seq().unref().no_duplicates(),
            forall|i: int| 0 <= i < it.seq().len() ==> first@.contains(#[trigger] it.seq().unref()[i]),
            forall|u: usize| first@.contains(u) ==> exists|i: int| 0 <= i < it.seq().len() && it.seq().unref()[i] == u,
            out@.len() >= start,
            out@.subrange(0, start as int) == old(out)@,
            forall|k: int| start <= k < out@.len() ==> completes(*tid, plan@, base, #[trigger] out@[k]@),
            forall|k: int|
                start <= k < out@.len() ==> seen(it.seq().unref(), it.index(), (#[trigger] out@[k]@)[p as int]),
            forall|a: Seq<usize>|
                completes(*tid, plan@, base, a) && (exists|i: int| 0 <= i < it.index() && it.seq().unref()[i] == a[p as int])
                    ==> #[trigger] views(out@.subrange(start as int, out@.len() as int)).contains(a),
            views(out@.subrange(start as int, out@.len() as int)).no_duplicates(),
    {
        let ghost idx = it.index();
        let ghost mid = out@;
        proof {
            assert(0 <= idx < it.seq().len());
            assert(it.seq()[idx] == c);
            assert(it.seq().unref()[idx] == *c);
        }
        if second.contains(c) {
            chosen.push(*c);
            proof {
                assert(first@.contains(*c));
                assert(chosen@[from as int] == base[from as int]);
                assert(chosen@[from2 as int] == base[from2 as int]);
                assert(admits(*tid, plan@, chosen@, p as int, *c));
                assert forall|j: int| 1 <= j < chosen@.len() implies admits(*tid, plan@, chosen@, j, #[trigger] chosen@[j]) by {
                    if j < p {
                        let (q, a1, d1, a2, d2) = plan@[j];
                        assert(chosen@[a1 as int] == base[a1 as int]);
                        assert(chosen@[a2 as int] == base[a2 as int]);
                        assert(admits(*tid, plan@, base, j, base[j]));
                    }
                }
            }
            extend(tid, plan, chosen, out);
            let ghost ext = chosen@;
            chosen.pop();
            proof {
                let old_new = views(mid.subrange(start as int, mid.len() as int));
                let rec_new = views(out@.subrange(mid.len() as int, out@.len() as int));
                let all_new = views(out@.subrange(start as int, out@.len() as int));
                assert(out@.subrange(0, mid.len() as int) == mid);
                assert(all_new =~= old_new + rec_new);
                assert(out@.subrange(0, start as int) =~= mid.subrange(0, start as int));
                assert forall|k: int| start <= k < out@.len() implies completes(*tid, plan@, base, #[trigger] out@[k]@) && exists|i: int|
                    0 <= i <= idx && it.seq().unref()[i] == out@[k]@[p as int] by {
                    if k < mid.len() {
                        assert(out@.subrange(0, mid.len() as int)[k] == out@[k]);
                        assert(out@[k] == mid[k]);
                        assert(completes(*tid, plan@, base, mid[k]@));
                        let i0 = choose|i: int| 0 <= i < idx && it.seq().unref()[i] == mid[k]@[p as int];
                        assert(it.seq().unref()[i0] == out@[k]@[p as int]);
                    } else {
                        let w = out@[k]@;
                        assert(completes(*tid, plan@, ext, w));
                        assert(ext =~= base.push(*c));
                        assert(w.subrange(0, p as int) =~= w.subrange(0, p + 1).subrange(0, p as int));
                        assert(ext.subrange(0, p as int) =~= base);
                        assert(w[p as int] == w.subrange(0, p + 1)[p as int]);
                        assert(w[p as int] == *c);
                        assert(it.seq().unref()[idx] == out@[k]@[p as int]);
                    }
                }
                assert forall|a: Seq<usize>|
                    completes(*tid, plan@, base, a) && (exists|i: int| 0 <= i <= idx && it.seq().unref()[i] == a[p as int])
                        implies #[trigger] all_new.contains(a) by {
                    let i = choose|i: int| 0 <= i <= idx && it.seq().unref()[i] == a[p as int];
                    if i < idx {
                        assert(old_new.contains(a));
                        let q = choose|q: int| 0 <= q < old_new.len() && old_new[q] == a;
                        assert(all_new[q] == a);
                    } else {
                        assert(a.subrange(0, p + 1) =~= ext);
                        assert(completes(*tid, plan@, ext, a));
                        assert(rec_new.contains(a));
                        let q = choose|q: int| 0 <= q < rec_new.len() && rec_new[q] == a;
                        assert(all_new[old_new.len() + q] == a);
                    }
                }
                assert forall|q1: int, q2: int| 0 <= q1 < old_new.len() && 0 <= q2 < rec_new.len() implies old_new[q1]
                    != rec_new[q2] by {
                    let k1 = start + q1;
                    let k2 = mid.len() + q2;
                    assert(old_new[q1] == mid[k1]@);
                    assert(rec_new[q2] == out@[k2]@);
                    let w2 = out@[k2]@;
                    assert(completes(*tid, plan@, ext, w2));
                    assert(w2[p as int] == w2.subrange(0, p + 1)[p as int]);
                    let i1 = choose|i: int| 0 <= i < idx + 1 && it.seq().unref()[i] == mid[k1]@[p as int];
                    assert(i1 != idx);
                }
                lemma_no_duplicates_concat(old_new, rec_new);
            }
        } else {
            proof {
                assert forall|k: int| start <= k < out@.len() implies completes(*tid, plan@, base, #[trigger] out@[k]@) && exists|i: int|
                    0 <= i <= idx && it.seq().unref()[i] == out@[k]@[p as int] by {
                    let i0 = choose|i: int| 0 <= i < idx && it.seq().unref()[i] == out@[k]@[p as int];
                    assert(it.seq().unref()[i0] == out@[k]@[p as int]);
                }
                assert forall|a: Seq<usize>|
                    completes(*tid, plan@, base, a) && (exists|i: int| 0 <= i <= idx && it.seq().unref()[i] == a[p as int])
                        implies #[trigger] views(out@.subrange(start as int, out@.len() as int)).contains(a) by {
                    let i = choose|i: int| 0 <= i <= idx && it.seq().unref()[i] == a[p as int];
                    if i == idx {
                        assert(admits(*tid, plan@, a, p as int, a[p as int]));
                        assert(a[from2 as int] == a.subrange(0, p as int)[from2 as int]);
                    }
                }
            }
        }
    }
    proof {
        assert forall|a: Seq<usize>| completes(*tid, plan@, old(chosen)@, a) implies #[trigger] views(
            out@.subrange(start as int, out@.len() as int),
        ).contains(a) by {
            assert(admits(*tid, plan@, a, p as int, a[p as int]));
            assert(a[from as int] == a.subrange(0, p as int)[from as int]);
            assert(first@.contains(a[p as int]));
        }
    }
}

/// The plan's positions are nine distinct cells of the 3x3 grid.
pub open spec fn plan_positions(plan: Seq<Slot>) -> bool {
    &&& plan.len() == 9
    &&& forall|j: int| 0 <= j < 9 ==> (#[trigger] plan[j]).0 < 9
    &&& forall|j: int, k: int| 0 <= j < k < 9 ==> (#[trigger] plan[j]).0 != (#[trigger] plan[k]).0
}

/// The 3x3 result grid holding the first `n` chosen tiles at their planned positions.
pub open spec fn place(plan: Seq<Slot>, a: Seq<usize>, n: nat) -> Seq<Option<usize>>
    decreases n,
{
    if n == 0 {
        Seq::new(9, |i: int| None)
    } else {
        place(plan, a, (n - 1) as nat).update(plan[n - 1].0 as int, Some(a[n - 1]))
    }
}

/// The 3x3 result grid of a full choice of tiles.
pub open spec fn layout(plan: Seq<Slot>, a: Seq<usize>) -> Seq<Option<usize>> {
    place(plan, a, 9)
}

/// Every cell of a 3x3 grid holds a tile.
pub open spec fn filled(g: Seq<Option<usize>>) -> bool {
    &&& g.len() == 9
    &&& forall|i: int| 0 <= i < 9 ==> (#[trigger] g[i]) is Some
}

/// Every cell holds a tile, and every two adjacent cells are legal neighbors in the model:
/// the tile at `(x, y)` sees the tile one step away in direction `d` among its neighbors in
/// direction `d`.
pub open spec fn fragment_closed(g: Seq<Option<usize>>, tid: TID) -> bool {
    &&& filled(g)
    &&& forall|x: int, y: int, d: int|
        in_grid(3, 3, x, y) && 0 <= d < 4 && in_grid(3, 3, #[trigger] step(x, y, d).0, step(x, y, d).1) ==> tid.hood(
            g[x + 3 * y]->0 as int,
            d,
        ).contains(g[step(x, y, d).0 + 3 * step(x, y, d).1]->0)
}

/// With distinct positions, each chosen tile stays where it was placed.
pub proof fn lemma_place(plan: Seq<Slot>, a: Seq<usize>, n: nat, j: int)
    requires
        plan_positions(plan),
        n <= 9,
        0 <= j < n,
        a.len() >= n,
    ensures
        place(plan, a, n).len() == 9,
        place(plan, a, n)[plan[j].0 as int] == Some(a[j]),
    decreases n,
{
    let prev = place(plan, a, (n - 1) as nat);
    assert(place(plan, a, n) == prev.update(plan[n - 1].0 as int, Some(a[n - 1])));
    assert(plan[n - 1].0 < 9);
    if n > 1 {
        lemma_place(plan, a, (n - 1) as nat, 0);
    } else {
        assert(prev.len() == 9);
    }
    if j < n - 1 {
        lemma_place(plan, a, (n - 1) as nat, j);
        assert(plan[j].0 != plan[n - 1].0);
    }
}

/// Two full choices with the same layout are the same choice.
pub proof fn lemma_layout_injective(plan: Seq<Slot>, a: Seq<usize>, b: Seq<usize>)
    requires
        plan_positions(plan),
        a.len() == 9,
        b.len() == 9,
        layout(plan, a) == layout(plan, b),
    ensures
        a == b,
{
    assert forall|j: int| 0 <= j < 9 implies a[j] == b[j] by {
        lemma_place(plan, a, 9, j);
        lemma_place(plan, b, 9, j);
    }
    assert(a =~= b);
}

/// A valid choice starting from a tile of the model holds only tiles of the model.
pub proof fn lemma_known_tiles(tid: TID, plan: Seq<Slot>, a: Seq<usize>, n: int)
    requires
        plan_wf(plan),
        valid_prefix(tid, plan, a),
        closed_ids(tid.hoods()),
        a[0] < tid.tiles(),
        0 <= n <= a.len(),
    ensures
        forall|j: int| 0 <= j < n ==> (#[trigger] a[j]) < tid.tiles(),
    decreases n,
{
    if n > 1 {
        lemma_known_tiles(tid, plan, a, n - 1);
        let j = n - 1;
        assert(admits(tid, plan, a, j, a[j]));
        assert(plan[j].1 < j);
        assert(a[plan[j].1 as int] < tid.tiles());
    }
}

/// Lay out a full choice of tiles as a 3x3 result grid.
fn arrange(plan: &Vec<Slot>, a: &Vec<usize>) -> (r: IDMatrix)
    requires
        plan_positions(plan@),
        a@.len() == 9,
    ensures
        r.rows == 3,
        r.cols == 3,
        r.data@ == layout(plan@, a@),
{
    let mut data: Vec<Option<usize>> = Vec::new();
    let mut i: usize = 0;
    while i < 9
        invariant
            i <= 9,
            data@ == Seq::new(i as nat, |k: int| None::<usize>),
        decreases 9 - i,
    {
        data.push(None);
        i = i + 1;
        assert(data@ =~= Seq::new(i as nat, |k: int| None::<usize>));
    }
    let mut j: usize = 0;
    while j < 9
        invariant
            j <= 9,
            plan_positions(plan@),
            a@.len() == 9,
            data@ == place(plan@, a@, j as nat),
        decreases 9 - j,
    {
        proof {
            if j > 0 {
                lemma_place(plan@, a@, j as nat, 0);
            }
        }
        let pos = plan[j].0;
        data.set(pos, Some(a[j]));
        j = j + 1;
    }
    Matrix { rows: 3, cols: 3, data }
}

/// The 3x3 grids of all full choices of tiles for `plan` that start from seed tile `t`.
pub open spec fn fragment_set(tid: TID, plan: Seq<Slot>, t: usize) -> Set<Seq<Option<usize>>> {
    Set::new(|g: Seq<Option<usize>>| exists|a: Seq<usize>| completes(tid, plan, seq![t], a) && layout(plan, a) == g)
}

/// Laying out a duplicate-free list of all full choices gives each fragment once.
proof fn lemma_fragment_set(tid: TID, plan: Seq<Slot>, t: usize, found: Seq<Seq<usize>>, ds: Seq<Seq<Option<usize>>>)
    requires
        plan_positions(plan),
        ds.len() == found.len(),
        forall|q: int| 0 <= q < ds.len() ==> #[trigger] ds[q] == layout(plan, found[q]),
        forall|q: int| 0 <= q < found.len() ==> completes(tid, plan, seq![t], #[trigger] found[q]),
        forall|a: Seq<usize>| completes(tid, plan, seq![t], a) ==> #[trigger] found.contains(a),
        found.no_duplicates(),
    ensures
        ds.no_duplicates(),
        ds.to_set() == fragment_set(tid, plan, t),
{
    assert forall|i: int, j: int| 0 <= i < ds.len() && 0 <= j < ds.len() && i != j implies ds[i] != ds[j] by {
        if ds[i] == ds[j] {
            lemma_layout_injective(plan, found[i], found[j]);
        }
    }
    assert forall|g: Seq<Option<usize>>| ds.to_set().contains(g) <==> fragment_set(tid, plan, t).contains(g) by {
        if ds.to_set().contains(g) {
            assert(ds.contains(g));
            let q = choose|q: int| 0 <= q < ds.len() && ds[q] == g;
            assert(completes(tid, plan, seq![t], found[q]) && layout(plan, found[q]) == g);
        }
        if fragment_set(tid, plan, t).contains(g) {
            let a = choose|a: Seq<usize>| completes(tid, plan, seq![t], a) && layout(plan, a) == g;
            assert(found.contains(a));
            let q = choose|q: int| 0 <= q < found.len() && found[q] == a;
            assert(ds[q] == g);
        }
    }
    assert(ds.to_set() =~= fragment_set(tid, plan, t));
}

/// Every fragment of a plan around seed tile `t`, once each, in some order.
fn fragments(t: usize, tid: &TID, plan: &Vec<Slot>) -> (r: Vec<IDMatrix>)
    requires
        plan_wf(plan@),
        plan_positions(plan@),
        t < tid.tiles(),
        closed_ids(tid.hoods()),
    ensures
        forall|i: int| 0 <= i < r@.len() ==> (#[trigger] r@[i]).rows == 3 && r@[i].cols == 3,
        r@.map_values(|m: IDMatrix| m.data@).no_duplicates(),
        r@.map_values(|m: IDMatrix| m.data@).to_set() == fragment_set(*tid, plan@, t),
{
    let mut chosen: Vec<usize> = Vec::new();
    chosen.push(t);
    let mut found: Vec<Vec<usize>> = Vec::new();
    proof {
        assert(chosen@ =~= seq![t]);
    }
    extend(tid, plan, &mut chosen, &mut found);
    proof {
        assert(found@.subrange(0, found@.len() as int) =~= found@);
    }
    let mut out: Vec<IDMatrix> = Vec::new();
    let mut k: usize = 0;
    while k < found.len()
        invariant
            k <= found@.len(),
            out@.len() == k,
            plan_positions(plan@),
            forall|q: int| 0 <= q < found@.len() ==> completes(*tid, plan@, seq![t], #[trigger] found@[q]@),
            forall|q: int|
                0 <= q < k ==> (#[trigger] out@[q]).rows == 3 && out@[q].cols == 3 && out@[q].data@ == layout(plan@, found@[q]@),
        decreases found@.len() - k,
    {
        let m = arrange(plan, &found[k]);
        out.push(m);
        k = k + 1;
    }
    proof {
        let ds = out@.map_values(|m: IDMatrix| m.data@);
        assert forall|q: int| 0 <= q < ds.len() implies #[trigger] ds[q] == layout(plan@, views(found@)[q]) by {
            assert(out@[q].data@ == layout(plan@, found@[q]@));
        }
        assert forall|q: int| 0 <= q < views(found@).len() implies completes(*tid, plan@, seq![t], #[trigger] views(found@)[q]) by {
            assert(completes(*tid, plan@, seq![t], found@[q]@));
        }
        lemma_fragment_set(*tid, plan@, t, views(found@), ds);
    }
    out
}

/// The center plan: the seed in the middle; its four direct neighbors are chosen first, then each corner from the two edge tiles beside it.
pub open spec fn center_plan_spec() -> Seq<Slot> {
    seq![(4, 0, 0, 0, 0), (5, 0, 0, 0, 0), (1, 0, 1, 0, 1), (3, 0, 2, 0, 2), (7, 0, 3, 0, 3), (2, 1, 1, 2, 0), (0, 2, 2, 3, 1), (6, 3, 3, 4, 2), (8, 4, 0, 1, 3)]
}

fn center_plan() -> (r: Vec<Slot>)
    ensures
        r@ == center_plan_spec(),
{
    let mut r: Vec<Slot> = Vec::new();
    r.push((4, 0, 0, 0, 0));
    r.push((5, 0, 0, 0, 0));
    r.push((1, 0, 1, 0, 1));
    r.push((3, 0, 2, 0, 2));
    r.push((7, 0, 3, 0, 3));
    r.push((2, 1, 1, 2, 0));
    r.push((0, 2, 2, 3, 1));
    r.push((6, 3, 3, 4, 2));
    r.push((8, 4, 0, 1, 3));
    assert(r@ =~= center_plan_spec());
    r
}

/// The 3x3 grid of a full choice of tiles for the center plan.
pub proof fn lemma_center_layout(a: Seq<usize>)
    requires
        a.len() == 9,
    ensures
        layout(center_plan_spec(), a) == seq![Some(a[6]), Some(a[2]), Some(a[5]), Some(a[3]), Some(a[0]), Some(a[1]), Some(a[7]), Some(a[4]), Some(a[8])],
{
    reveal_with_fuel(place, 10);
    assert(layout(center_plan_spec(), a) =~= seq![Some(a[6]), Some(a[2]), Some(a[5]), Some(a[3]), Some(a[0]), Some(a[1]), Some(a[7]), Some(a[4]), Some(a[8])]);
}

/// Closure of the center plan: in a symmetric model, the grid of every full choice of tiles
/// for it is filled and all its adjacent cells are legal neighbors.
#[verifier::spinoff_prover]
#[verifier::rlimit(60)]
pub proof fn lemma_center_closed(tid: TID, t: usize, a: Seq<usize>)
    requires
        symmetric(tid.hoods()),
        closed_ids(tid.hoods()),
        t < tid.tiles(),
        completes(tid, center_plan_spec(), seq![t], a),
    ensures
        fragment_closed(layout(center_plan_spec(), a), tid),
{
    let plan = center_plan_spec();
    assert(plan_wf(plan));
    assert(a[0] == seq![t][0]);
    lemma_known_tiles(tid, plan, a, 9);
    lemma_center_layout(a);
    let g = layout(plan, a);
    assert forall|x: int, y: int, d: int|
        in_grid(3, 3, x, y) && 0 <= d < 4 && in_grid(3, 3, #[trigger] step(x, y, d).0, step(x, y, d).1) implies tid.hood(
        g[x + 3 * y]->0 as int,
        d,
    ).contains(g[step(x, y, d).0 + 3 * step(x, y, d).1]->0) by {
        if x == 0 && y == 0 && d == 0 {
            assert(admits(tid, plan, a, 6, a[6]));
            assert(a[6] < tid.tiles() && a[2] < tid.tiles());
            assert(tid.hood(a[2] as int, 2).contains(a[6]));
            assert(g[0] == Some(a[6]) && g[1] == Some(a[2]));
            assert(tid.hood(a[6] as int, 0).contains(a[2]));
        } else if x == 0 && y == 0 && d == 3 {
            assert(admits(tid, plan, a, 6, a[6]));
            assert(a[6] < tid.tiles() && a[3] < tid.tiles());
            assert(tid.hood(a[3] as int, 1).contains(a[6]));
            assert(g[0] == Some(a[6]) && g[3] == Some(a[3]));
            assert(tid.hood(a[6] as int, 3).contains(a[3]));
        } else if x == 0 && y == 1 && d == 0 {
            assert(admits(tid, plan, a, 3, a[3]));
            assert(a[3] < tid.tiles() && a[0] < tid.tiles());
            assert(tid.hood(a[0] as int, 2).contains(a[3]));
            assert(g[3] == Some(a[3]) && g[4] == Some(a[0]));
            assert(tid.hood(a[3] as int, 0).contains(a[0]));
        } else if x == 0 && y == 1 && d == 1 {
            assert(admits(tid, plan, a, 6, a[6]));
            assert(a[3] < tid.tiles() && a[6] < tid.tiles());
            assert(g[3] == Some(a[3]) && g[0] == Some(a[6]));
            assert(tid.hood(a[3] as int, 1).contains(a[6]));
        } else if x == 0 && y == 1 && d == 3 {
            assert(admits(tid, plan, a, 7, a[7]));
            assert(a[3] < tid.tiles() && a[7] < tid.tiles());
            assert(g[3] == Some(a[3]) && g[6] == Some(a[7]));
            assert(tid.hood(a[3] as int, 3).contains(a[7]));
        } else if x == 0 && y == 2 && d == 0 {
            assert(admits(tid, plan, a, 7, a[7]));
            assert(a[7] < tid.tiles() && a[4] < tid.tiles());
            assert(tid.hood(a[4] as int, 2).contains(a[7]));
            assert(g[6] == Some(a[7]) && g[7] == Some(a[4]));
            assert(tid.hood(a[7] as int, 0).contains(a[4]));
        } else if x == 0 && y == 2 && d == 1 {
            assert(admits(tid, plan, a, 7, a[7]));
            assert(a[7] < tid.tiles() && a[3] < tid.tiles());
            assert(tid.hood(a[3] as int, 3).contains(a[7]));
            assert(g[6] == Some(a[7]) && g[3] == Some(a[3]));
            assert(tid.hood(a[7] as int, 1).contains(a[3]));
        } else if x == 1 && y == 0 && d == 0 {
            assert(admits(tid, plan, a, 5, a[5]));
            assert(a[2] < tid.tiles() && a[5] < tid.tiles());
            assert(g[1] == Some(a[2]) && g[2] == Some(a[5]));
            assert(tid.hood(a[2] as int, 0).contains(a[5]));
        } else if x == 1 && y == 0 && d == 2 {
            assert(admits(tid, plan, a, 6, a[6]));
            assert(a[2] < tid.tiles() && a[6] < tid.tiles());
            assert(g[1] == Some(a[2]) && g[0] == Some(a[6]));
            assert(tid.hood(a[2] as int, 2).contains(a[6]));
        } else if x == 1 && y == 0 && d == 3 {
            assert(admits(tid, plan, a, 2, a[2]));
            assert(a[2] < tid.tiles() && a[0] < tid.tiles());
            assert(tid.hood(a[0] as int, 1).contains(a[2]));
            assert(g[1] == Some(a[2]) && g[4] == Some(a[0]));
            assert(tid.hood(a[2] as int, 3).contains(a[0]));
        } else if x == 1 && y == 1 && d == 0 {
            assert(admits(tid, plan, a, 1, a[1]));
            assert(a[0] < tid.tiles() && a[1] < tid.tiles());
            assert(g[4] == Some(a[0]) && g[5] == Some(a[1]));
            assert(tid.hood(a[0] as int, 0).contains(a[1]));
        } else if x == 1 && y == 1 && d == 1 {
            assert(admits(tid, plan, a, 2, a[2]));
            assert(a[0] < tid.tiles() && a[2] < tid.tiles());
            assert(g[4] == Some(a[0]) && g[1] == Some(a[2]));
            assert(tid.hood(a[0] as int, 1).contains(a[2]));
        } else if x == 1 && y == 1 && d == 2 {
            assert(admits(tid, plan, a, 3, a[3]));
            assert(a[0] < tid.tiles() && a[3] < tid.tiles());
            assert(g[4] == Some(a[0]) && g[3] == Some(a[3]));
            assert(tid.hood(a[0] as int, 2).contains(a[3]));
        } else if x == 1 && y == 1 && d == 3 {
            assert(admits(tid, plan, a, 4, a[4]));
            assert(a[0] < tid.tiles() && a[4] < tid.tiles());
            assert(g[4] == Some(a[0]) && g[7] == Some(a[4]));
            assert(tid.hood(a[0] as int, 3).contains(a[4]));
        } else if x == 1 && y == 2 && d == 0 {
            assert(admits(tid, plan, a, 8, a[8]));
            assert(a[4] < tid.tiles() && a[8] < tid.tiles());
            assert(g[7] == Some(a[4]) && g[8] == Some(a[8]));
            assert(tid.hood(a[4] as int, 0).contains(a[8]));
        } else if x == 1 && y == 2 && d == 1 {
            assert(admits(tid, plan, a, 4, a[4]));
            assert(a[4] < tid.tiles() && a[0] < tid.tiles());
            assert(tid.hood(a[0] as int, 3).contains(a[4]));
            assert(g[7] == Some(a[4]) && g[4] == Some(a[0]));
            assert(tid.hood(a[4] as int, 1).contains(a[0]));
        } else if x == 1 && y == 2 && d == 2 {
            assert(admits(tid, plan, a, 7, a[7]));
            assert(a[4] < tid.tiles() && a[7] < tid.tiles());
            assert(g[7] == Some(a[4]) && g[6] == Some(a[7]));
            assert(tid.hood(a[4] as int, 2).contains(a[7]));
        } else if x == 2 && y == 0 && d == 2 {
            assert(admits(tid, plan, a, 5, a[5]));
            assert(a[5] < tid.tiles() && a[2] < tid.tiles());
            assert(tid.hood(a[2] as int, 0).contains(a[5]));
            assert(g[2] == Some(a[5]) && g[1] == Some(a[2]));
            assert(tid.hood(a[5] as int, 2).contains(a[2]));
        } else if x == 2 && y == 0 && d == 3 {
            assert(admits(tid, plan, a, 5, a[5]));
            assert(a[5] < tid.tiles() && a[1] < tid.tiles());
            assert(tid.hood(a[1] as int, 1).contains(a[5]));
            assert(g[2] == Some(a[5]) && g[5] == Some(a[1]));
            assert(tid.hood(a[5] as int, 3).contains(a[1]));
        } else if x == 2 && y == 1 && d == 1 {
            assert(admits(tid, plan, a, 5, a[5]));
            assert(a[1] < tid.tiles() && a[5] < tid.tiles());
            assert(g[5] == Some(a[1]) && g[2] == Some(a[5]));
            assert(tid.hood(a[1] as int, 1).contains(a[5]));
        } else if x == 2 && y == 1 && d == 2 {
            assert(admits(tid, plan, a, 1, a[1]));
            assert(a[1] < tid.tiles() && a[0] < tid.tiles());
            assert(tid.hood(a[0] as int, 0).contains(a[1]));
            assert(g[5] == Some(a[1]) && g[4] == Some(a[0]));
            assert(tid.hood(a[1] as int, 2).contains(a[0]));
        } else if x == 2 && y == 1 && d == 3 {
            assert(admits(tid, plan, a, 8, a[8]));
            assert(a[1] < tid.tiles() && a[8] < tid.tiles());
            assert(g[5] == Some(a[1]) && g[8] == Some(a[8]));
            assert(tid.hood(a[1] as int, 3).contains(a[8]));
        } else if x == 2 && y == 2 && d == 1 {
            assert(admits(tid, plan, a, 8, a[8]));
            assert(a[8] < tid.tiles() && a[1] < tid.tiles());
            assert(tid.hood(a[1] as int, 3).contains(a[8]));
            assert(g[8] == Some(a[8]) && g[5] == Some(a[1]));
            assert(tid.hood(a[8] as int, 1).contains(a[1]));
        } else if x == 2 && y == 2 && d == 2 {
            assert(admits(tid, plan, a, 8, a[8]));
            assert(a[8] < tid.tiles() && a[4] < tid.tiles());
            assert(tid.hood(a[4] as int, 0).contains(a[8]));
            assert(g[8] == Some(a[8]) && g[7] == Some(a[4]));
            assert(tid.hood(a[8] as int, 2).contains(a[4]));
        }
    }
}

/// The side plan: the seed in the middle of the top row; its three direct neighbors are chosen first, then the remaining cells from the tiles already placed beside them.
pub open spec fn side_plan_spec() -> Seq<Slot> {
    seq![(1, 0, 0, 0, 0), (2, 0, 0, 0, 0), (0, 0, 2, 0, 2), (4, 0, 3, 0, 3), (3, 2, 3, 3, 2), (5, 1, 3, 3, 0), (7, 3, 3, 3, 3), (6, 4, 3, 6, 2), (8, 6, 0, 5, 3)]
}

fn side_plan() -> (r: Vec<Slot>)
    ensures
        r@ == side_plan_spec(),
{
    let mut r: Vec<Slot> = Vec::new();
    r.push((1, 0, 0, 0, 0));
    r.push((2, 0, 0, 0, 0));
    r.push((0, 0, 2, 0, 2));
    r.push((4, 0, 3, 0, 3));
    r.push((3, 2, 3, 3, 2));
    r.push((5, 1, 3, 3, 0));
    r.push((7, 3, 3, 3, 3));
    r.push((6, 4, 3, 6, 2));
    r.push((8, 6, 0, 5, 3));
    assert(r@ =~= side_plan_spec());
    r
}

/// The 3x3 grid of a full choice of tiles for the side plan.
pub proof fn lemma_side_layout(a: Seq<usize>)
    requires
        a.len() == 9,
    ensures
        layout(side_plan_spec(), a) == seq![Some(a[2]), Some(a[0]), Some(a[1]), Some(a[4]), Some(a[3]), Some(a[5]), Some(a[7]), Some(a[6]), Some(a[8])],
{
    reveal_with_fuel(place, 10);
    assert(layout(side_plan_spec(), a) =~= seq![Some(a[2]), Some(a[0]), Some(a[1]), Some(a[4]), Some(a[3]), Some(a[5]), Some(a[7]), Some(a[6]), Some(a[8])]);
}

/// Closure of the side plan: in a symmetric model, the grid of every full choice of tiles
/// for it is filled and all its adjacent cells are legal neighbors.
#[verifier::spinoff_prover]
#[verifier::rlimit(60)]
pub proof fn lemma_side_closed(tid: TID, t: usize, a: Seq<usize>)
    requires
        symmetric(tid.hoods()),
        closed_ids(tid.hoods()),
        t < tid.tiles(),
        completes(tid, side_plan_spec(), seq![t], a),
    ensures
        fragment_closed(layout(side_plan_spec(), a), tid),
{
    let plan = side_plan_spec();
    assert(plan_wf(plan));
    assert(a[0] == seq![t][0]);
    lemma_known_tiles(tid, plan, a, 9);
    lemma_side_layout(a);
    let g = layout(plan, a);
    assert forall|x: int, y: int, d: int|
        in_grid(3, 3, x, y) && 0 <= d < 4 && in_grid(3, 3, #[trigger] step(x, y, d).0, step(x, y, d).1) implies tid.hood(
        g[x + 3 * y]->0 as int,
        d,
    ).contains(g[step(x, y, d).0 + 3 * step(x, y, d).1]->0) by {
        if x == 0 && y == 0 && d == 0 {
            assert(admits(tid, plan, a, 2, a[2]));
            assert(a[2] < tid.tiles() && a[0] < tid.tiles());
            assert(tid.hood(a[0] as int, 2).contains(a[2]));
            assert(g[0] == Some(a[2]) && g[1] == Some(a[0]));
            assert(tid.hood(a[2] as int, 0).contains(a[0]));
        } else if x == 0 && y == 0 && d == 3 {
            assert(admits(tid, plan, a, 4, a[4]));
            assert(a[2] < tid.tiles() && a[4] < tid.tiles());
            assert(g[0] == Some(a[2]) && g[3] == Some(a[4]));
            assert(tid.hood(a[2] as int, 3).contains(a[4]));
        } else if x == 0 && y == 1 && d == 0 {
            assert(admits(tid, plan, a, 4, a[4]));
            assert(a[4] < tid.tiles() && a[3] < tid.tiles());
            assert(tid.hood(a[3] as int, 2).contains(a[4]));
            assert(g[3] == Some(a[4]) && g[4] == Some(a[3]));
            assert(tid.hood(a[4] as int, 0).contains(a[3]));
        } else if x == 0 && y == 1 && d == 1 {
            assert(admits(tid, plan, a, 4, a[4]));
            assert(a[4] < tid.tiles() && a[2] < tid.tiles());
            assert(tid.hood(a[2] as int, 3).contains(a[4]));
            assert(g[3] == Some(a[4]) && g[0] == Some(a[2]));
            assert(tid.hood(a[4] as int, 1).contains(a[2]));
        } else if x == 0 && y == 1 && d == 3 {
            assert(admits(tid, plan, a, 7, a[7]));
            assert(a[4] < tid.tiles() && a[7] < tid.tiles());
            assert(g[3] == Some(a[4]) && g[6] == Some(a[7]));
            assert(tid.hood(a[4] as int, 3).contains(a[7]));
        } else if x == 0 && y == 2 && d == 0 {
            assert(admits(tid, plan, a, 7, a[7]));
            assert(a[7] < tid.tiles() && a[6] < tid.tiles());
            assert(tid.hood(a[6] as int, 2).contains(a[7]));
            assert(g[6] == Some(a[7]) && g[7] == Some(a[6]));
            assert(tid.hood(a[7] as int, 0).contains(a[6]));
        } else if x == 0 && y == 2 && d == 1 {
            assert(admits(tid, plan, a, 7, a[7]));
            assert(a[7] < tid.tiles() && a[4] < tid.tiles());
            assert(tid.hood(a[4] as int, 3).contains(a[7]));
            assert(g[6] == Some(a[7]) && g[3] == Some(a[4]));
            assert(tid.hood(a[7] as int, 1).contains(a[4]));
        } else if x == 1 && y == 0 && d == 0 {
            assert(admits(tid, plan, a, 1, a[1]));
            assert(a[0] < tid.tiles() && a[1] < tid.tiles());
            assert(g[1] == Some(a[0]) && g[2] == Some(a[1]));
            assert(tid.hood(a[0] as int, 0).contains(a[1]));
        } else if x == 1 && y == 0 && d == 2 {
            assert(admits(tid, plan, a, 2, a[2]));
            assert(a[0] < tid.tiles() && a[2] < tid.tiles());
            assert(g[1] == Some(a[0]) && g[0] == Some(a[2]));
            assert(tid.hood(a[0] as int, 2).contains(a[2]));
        } else if x == 1 && y == 0 && d == 3 {
            assert(admits(tid, plan, a, 3, a[3]));
            assert(a[0] < tid.tiles() && a[3] < tid.tiles());
            assert(g[1] == Some(a[0]) && g[4] == Some(a[3]));
            assert(tid.hood(a[0] as int, 3).contains(a[3]));
        } else if x == 1 && y == 1 && d == 0 {
            assert(admits(tid, plan, a, 5, a[5]));
            assert(a[3] < tid.tiles() && a[5] < tid.tiles());
            assert(g[4] == Some(a[3]) && g[5] == Some(a[5]));
            assert(tid.hood(a[3] as int, 0).contains(a[5]));
        } else if x == 1 && y == 1 && d == 1 {
            assert(admits(tid, plan, a, 3, a[3]));
            assert(a[3] < tid.tiles() && a[0] < tid.tiles());
            assert(tid.hood(a[0] as int, 3).contains(a[3]));
            assert(g[4] == Some(a[3]) && g[1] == Some(a[0]));
            assert(tid.hood(a[3] as int, 1).contains(a[0]));
        } else if x == 1 && y == 1 && d == 2 {
            assert(admits(tid, plan, a, 4, a[4]));
            assert(a[3] < tid.tiles() && a[4] < tid.tiles());
            assert(g[4] == Some(a[3]) && g[3] == Some(a[4]));
            assert(tid.hood(a[3] as int, 2).contains(a[4]));
        } else if x == 1 && y == 1 && d == 3 {
            assert(admits(tid, plan, a, 6, a[6]));
            assert(a[3] < tid.tiles() && a[6] < tid.tiles());
            assert(g[4] == Some(a[3]) && g[7] == Some(a[6]));
            assert(tid.hood(a[3] as int, 3).contains(a[6]));
        } else if x == 1 && y == 2 && d == 0 {
            assert(admits(tid, plan, a, 8, a[8]));
            assert(a[6] < tid.tiles() && a[8] < tid.tiles());
            assert(g[7] == Some(a[6]) && g[8] == Some(a[8]));
            assert(tid.hood(a[6] as int, 0).contains(a[8]));
        } else if x == 1 && y == 2 && d == 1 {
            assert(admits(tid, plan, a, 6, a[6]));
            assert(a[6] < tid.tiles() && a[3] < tid.tiles());
            assert(tid.hood(a[3] as int, 3).contains(a[6]));
            assert(g[7] == Some(a[6]) && g[4] == Some(a[3]));
            assert(tid.hood(a[6] as int, 1).contains(a[3]));
        } else if x == 1 && y == 2 && d == 2 {
            assert(admits(tid, plan, a, 7, a[7]));
            assert(a[6] < tid.tiles() && a[7] < tid.tiles());
            assert(g[7] == Some(a[6]) && g[6] == Some(a[7]));
            assert(tid.hood(a[6] as int, 2).contains(a[7]));
        } else if x == 2 && y == 0 && d == 2 {
            assert(admits(tid, plan, a, 1, a[1]));
            assert(a[1] < tid.tiles() && a[0] < tid.tiles());
            assert(tid.hood(a[0] as int, 0).contains(a[1]));
            assert(g[2] == Some(a[1]) && g[1] == Some(a[0]));
            assert(tid.hood(a[1] as int, 2).contains(a[0]));
        } else if x == 2 && y == 0 && d == 3 {
            assert(admits(tid, plan, a, 5, a[5]));
            assert(a[1] < tid.tiles() && a[5] < tid.tiles());
            assert(g[2] == Some(a[1]) && g[5] == Some(a[5]));
            assert(tid.hood(a[1] as int, 3).contains(a[5]));
        } else if x == 2 && y == 1 && d == 1 {
            assert(admits(tid, plan, a, 5, a[5]));
            assert(a[5] < tid.tiles() && a[1] < tid.tiles());
            assert(tid.hood(a[1] as int, 3).contains(a[5]));
            assert(g[5] == Some(a[5]) && g[2] == Some(a[1]));
            assert(tid.hood(a[5] as int, 1).contains(a[1]));
        } else if x == 2 && y == 1 && d == 2 {
            assert(admits(tid, plan, a, 5, a[5]));
            assert(a[5] < tid.tiles() && a[3] < tid.tiles());
            assert(tid.hood(a[3] as int, 0).contains(a[5]));
            assert(g[5] == Some(a[5]) && g[4] == Some(a[3]));
            assert(tid.hood(a[5] as int, 2).contains(a[3]));
        } else if x == 2 && y == 1 && d == 3 {
            assert(admits(tid, plan, a, 8, a[8]));
            assert(a[5] < tid.tiles() && a[8] < tid.tiles());
            assert(g[5] == Some(a[5]) && g[8] == Some(a[8]));
            assert(tid.hood(a[5] as int, 3).contains(a[8]));
        } else if x == 2 && y == 2 && d == 1 {
            assert(admits(tid, plan, a, 8, a[8]));
            assert(a[8] < tid.tiles() && a[5] < tid.tiles());
            assert(tid.hood(a[5] as int, 3).contains(a[8]));
            assert(g[8] == Some(a[8]) && g[5] == Some(a[5]));
            assert(tid.hood(a[8] as int, 1).contains(a[5]));
        } else if x == 2 && y == 2 && d == 2 {
            assert(admits(tid, plan, a, 8, a[8]));
            assert(a[8] < tid.tiles() && a[6] < tid.tiles());
            assert(tid.hood(a[6] as int, 0).contains(a[8]));
            assert(g[8] == Some(a[8]) && g[7] == Some(a[6]));
            assert(tid.hood(a[8] as int, 2).contains(a[6]));
        }
    }
}

/// The corner plan: the seed in the top-left corner; its two direct neighbors are chosen first, then the remaining cells from the tiles already placed beside them.
pub open spec fn corner_plan_spec() -> Seq<Slot> {
    seq![(0, 0, 0, 0, 0), (1, 0, 0, 0, 0), (3, 0, 3, 0, 3), (4, 2, 0, 1, 3), (5, 3, 0, 3, 0), (7, 3, 3, 3, 3), (2, 1, 0, 4, 1), (8, 4, 3, 5, 0), (6, 2, 3, 5, 2)]
}

fn corner_plan() -> (r: Vec<Slot>)
    ensures
        r@ == corner_plan_spec(),
{
    let mut r: Vec<Slot> = Vec::new();
    r.push((0, 0, 0, 0, 0));
    r.push((1, 0, 0, 0, 0));
    r.push((3, 0, 3, 0, 3));
    r.push((4, 2, 0, 1, 3));
    r.push((5, 3, 0, 3, 0));
    r.push((7, 3, 3, 3, 3));
    r.push((2, 1, 0, 4, 1));
    r.push((8, 4, 3, 5, 0));
    r.push((6, 2, 3, 5, 2));
    assert(r@ =~= corner_plan_spec());
    r
}

/// The 3x3 grid of a full choice of tiles for the corner plan.
pub proof fn lemma_corner_layout(a: Seq<usize>)
    requires
        a.len() == 9,
    ensures
        layout(corner_plan_spec(), a) == seq![Some(a[0]), Some(a[1]), Some(a[6]), Some(a[2]), Some(a[3]), Some(a[4]), Some(a[8]), Some(a[5]), Some(a[7])],
{
    reveal_with_fuel(place, 10);
    assert(layout(corner_plan_spec(), a) =~= seq![Some(a[0]), Some(a[1]), Some(a[6]), Some(a[2]), Some(a[3]), Some(a[4]), Some(a[8]), Some(a[5]), Some(a[7])]);
}

/// Closure of the corner plan: in a symmetric model, the grid of every full choice of tiles
/// for it is filled and all its adjacent cells are legal neighbors.
#[verifier::spinoff_prover]
#[verifier::rlimit(60)]
pub proof fn lemma_corner_closed(tid: TID, t: usize, a: Seq<usize>)
    requires
        symmetric(tid.hoods()),
        closed_ids(tid.hoods()),
        t < tid.tiles(),
        completes(tid, corner_plan_spec(), seq![t], a),
    ensures
        fragment_closed(layout(corner_plan_spec(), a), tid),
{
    let plan = corner_plan_spec();
    assert(plan_wf(plan));
    assert(a[0] == seq![t][0]);
    lemma_known_tiles(tid, plan, a, 9);
    lemma_corner_layout(a);
    let g = layout(plan, a);
    assert forall|x: int, y: int, d: int|
        in_grid(3, 3, x, y) && 0 <= d < 4 && in_grid(3, 3, #[trigger] step(x, y, d).0, step(x, y, d).1) implies tid.hood(
        g[x + 3 * y]->0 as int,
        d,
    ).contains(g[step(x, y, d).0 + 3 * step(x, y, d).1]->0) by {
        if x == 0 && y == 0 && d == 0 {
            assert(admits(tid, plan, a, 1, a[1]));
            assert(a[0] < tid.tiles() && a[1] < tid.tiles());
            assert(g[0] == Some(a[0]) && g[1] == Some(a[1]));
            assert(tid.hood(a[0] as int, 0).contains(a[1]));
        } else if x == 0 && y == 0 && d == 3 {
            assert(admits(tid, plan, a, 2, a[2]));
            assert(a[0] < tid.tiles() && a[2] < tid.tiles());
            assert(g[0] == Some(a[0]) && g[3] == Some(a[2]));
            assert(tid.hood(a[0] as int, 3).contains(a[2]));
        } else if x == 0 && y == 1 && d == 0 {
            assert(admits(tid, plan, a, 3, a[3]));
            assert(a[2] < tid.tiles() && a[3] < tid.tiles());
            assert(g[3] == Some(a[2]) && g[4] == Some(a[3]));
            assert(tid.hood(a[2] as int, 0).contains(a[3]));
        } else if x == 0 && y == 1 && d == 1 {
            assert(admits(tid, plan, a, 2, a[2]));
            assert(a[2] < tid.tiles() && a[0] < tid.tiles());
            assert(tid.hood(a[0] as int, 3).contains(a[2]));
            assert(g[3] == Some(a[2]) && g[0] == Some(a[0]));
            assert(tid.hood(a[2] as int, 1).contains(a[0]));
        } else if x == 0 && y == 1 && d == 3 {
            assert(admits(tid, plan, a, 8, a[8]));
            assert(a[2] < tid.tiles() && a[8] < tid.tiles());
            assert(g[3] == Some(a[2]) && g[6] == Some(a[8]));
            assert(tid.hood(a[2] as int, 3).contains(a[8]));
        } else if x == 0 && y == 2 && d == 0 {
            assert(admits(tid, plan, a, 8, a[8]));
            assert(a[8] < tid.tiles() && a[5] < tid.tiles());
            assert(tid.hood(a[5] as int, 2).contains(a[8]));
            assert(g[6] == Some(a[8]) && g[7] == Some(a[5]));
            assert(tid.hood(a[8] as int, 0).contains(a[5]));
        } else if x == 0 && y == 2 && d == 1 {
            assert(admits(tid, plan, a, 8, a[8]));
            assert(a[8] < tid.tiles() && a[2] < tid.tiles());
            assert(tid.hood(a[2] as int, 3).contains(a[8]));
            assert(g[6] == Some(a[8]) && g[3] == Some(a[2]));
            assert(tid.hood(a[8] as int, 1).contains(a[2]));
        } else if x == 1 && y == 0 && d == 0 {
            assert(admits(tid, plan, a, 6, a[6]));
            assert(a[1] < tid.tiles() && a[6] < tid.tiles());
            assert(g[1] == Some(a[1]) && g[2] == Some(a[6]));
            assert(tid.hood(a[1] as int, 0).contains(a[6]));
        } else if x == 1 && y == 0 && d == 2 {
            assert(admits(tid, plan, a, 1, a[1]));
            assert(a[1] < tid.tiles() && a[0] < tid.tiles());
            assert(tid.hood(a[0] as int, 0).contains(a[1]));
            assert(g[1] == Some(a[1]) && g[0] == Some(a[0]));
            assert(tid.hood(a[1] as int, 2).contains(a[0]));
        } else if x == 1 && y == 0 && d == 3 {
            assert(admits(tid, plan, a, 3, a[3]));
            assert(a[1] < tid.tiles() && a[3] < tid.tiles());
            assert(g[1] == Some(a[1]) && g[4] == Some(a[3]));
            assert(tid.hood(a[1] as int, 3).contains(a[3]));
        } else if x == 1 && y == 1 && d == 0 {
            assert(admits(tid, plan, a, 4, a[4]));
            assert(a[3] < tid.tiles() && a[4] < tid.tiles());
            assert(g[4] == Some(a[3]) && g[5] == Some(a[4]));
            assert(tid.hood(a[3] as int, 0).contains(a[4]));
        } else if x == 1 && y == 1 && d == 1 {
            assert(admits(tid, plan, a, 3, a[3]));
            assert(a[3] < tid.tiles() && a[1] < tid.tiles());
            assert(tid.hood(a[1] as int, 3).contains(a[3]));
            assert(g[4] == Some(a[3]) && g[1] == Some(a[1]));
            assert(tid.hood(a[3] as int, 1).contains(a[1]));
        } else if x == 1 && y == 1 && d == 2 {
            assert(admits(tid, plan, a, 3, a[3]));
            assert(a[3] < tid.tiles() && a[2] < tid.tiles());
            assert(tid.hood(a[2] as int, 0).contains(a[3]));
            assert(g[4] == Some(a[3]) && g[3] == Some(a[2]));
            assert(tid.hood(a[3] as int, 2).contains(a[2]));
        } else if x == 1 && y == 1 && d == 3 {
            assert(admits(tid, plan, a, 5, a[5]));
            assert(a[3] < tid.tiles() && a[5] < tid.tiles());
            assert(g[4] == Some(a[3]) && g[7] == Some(a[5]));
            assert(tid.hood(a[3] as int, 3).contains(a[5]));
        } else if x == 1 && y == 2 && d == 0 {
            assert(admits(tid, plan, a, 7, a[7]));
            assert(a[5] < tid.tiles() && a[7] < tid.tiles());
            assert(g[7] == Some(a[5]) && g[8] == Some(a[7]));
            assert(tid.hood(a[5] as int, 0).contains(a[7]));
        } else if x == 1 && y == 2 && d == 1 {
            assert(admits(tid, plan, a, 5, a[5]));
            assert(a[5] < tid.tiles() && a[3] < tid.tiles());
            assert(tid.hood(a[3] as int, 3).contains(a[5]));
            assert(g[7] == Some(a[5]) && g[4] == Some(a[3]));
            assert(tid.hood(a[5] as int, 1).contains(a[3]));
        } else if x == 1 && y == 2 && d == 2 {
            assert(admits(tid, plan, a, 8, a[8]));
            assert(a[5] < tid.tiles() && a[8] < tid.tiles());
            assert(g[7] == Some(a[5]) && g[6] == Some(a[8]));
            assert(tid.hood(a[5] as int, 2).contains(a[8]));
        } else if x == 2 && y == 0 && d == 2 {
            assert(admits(tid, plan, a, 6, a[6]));
            assert(a[6] < tid.tiles() && a[1] < tid.tiles());
            assert(tid.hood(a[1] as int, 0).contains(a[6]));
            assert(g[2] == Some(a[6]) && g[1] == Some(a[1]));
            assert(tid.hood(a[6] as int, 2).contains(a[1]));
        } else if x == 2 && y == 0 && d == 3 {
            assert(admits(tid, plan, a, 6, a[6]));
            assert(a[6] < tid.tiles() && a[4] < tid.tiles());
            assert(tid.hood(a[4] as int, 1).contains(a[6]));
            assert(g[2] == Some(a[6]) && g[5] == Some(a[4]));
            assert(tid.hood(a[6] as int, 3).contains(a[4]));
        } else if x == 2 && y == 1 && d == 1 {
            assert(admits(tid, plan, a, 6, a[6]));
            assert(a[4] < tid.tiles() && a[6] < tid.tiles());
            assert(g[5] == Some(a[4]) && g[2] == Some(a[6]));
            assert(tid.hood(a[4] as int, 1).contains(a[6]));
        } else if x == 2 && y == 1 && d == 2 {
            assert(admits(tid, plan, a, 4, a[4]));
            assert(a[4] < tid.tiles() && a[3] < tid.tiles());
            assert(tid.hood(a[3] as int, 0).contains(a[4]));
            assert(g[5] == Some(a[4]) && g[4] == Some(a[3]));
            assert(tid.hood(a[4] as int, 2).contains(a[3]));
        } else if x == 2 && y == 1 && d == 3 {
            assert(admits(tid, plan, a, 7, a[7]));
            assert(a[4] < tid.tiles() && a[7] < tid.tiles());
            assert(g[5] == Some(a[4]) && g[8] == Some(a[7]));
            assert(tid.hood(a[4] as int, 3).contains(a[7]));
        } else if x == 2 && y == 2 && d == 1 {
            assert(admits(tid, plan, a, 7, a[7]));
            assert(a[7] < tid.tiles() && a[4] < tid.tiles());
            assert(tid.hood(a[4] as int, 3).contains(a[7]));
            assert(g[8] == Some(a[7]) && g[5] == Some(a[4]));
            assert(tid.hood(a[7] as int, 1).contains(a[4]));
        } else if x == 2 && y == 2 && d == 2 {
            assert(admits(tid, plan, a, 7, a[7]));
            assert(a[7] < tid.tiles() && a[5] < tid.tiles());
            assert(tid.hood(a[5] as int, 0).contains(a[7]));
            assert(g[8] == Some(a[7]) && g[7] == Some(a[5]));
            assert(tid.hood(a[7] as int, 2).contains(a[5]));
        }
    }
}

/// The CENTER algorithm: every 3x3 fragment around seed tile `t` under the center plan, once
/// each. Their order follows the iteration order of the model's neighbor sets.
pub fn center(t: usize, tid: &TID) -> (r: Vec<IDMatrix>)
    requires
        t < tid.tiles(),
        closed_ids(tid.hoods()),
    ensures
        forall|i: int| 0 <= i < r@.len() ==> (#[trigger] r@[i]).rows == 3 && r@[i].cols == 3,
        r@.map_values(|m: IDMatrix| m.data@).no_duplicates(),
        r@.map_values(|m: IDMatrix| m.data@).to_set() == fragment_set(*tid, center_plan_spec(), t),
        forall|i: int| 0 <= i < r@.len() ==> filled((#[trigger] r@[i]).data@),
        symmetric(tid.hoods()) ==> forall|i: int|
            0 <= i < r@.len() ==> fragment_closed((#[trigger] r@[i]).data@, *tid),
{
    let plan = center_plan();
    proof {
        assert(plan_wf(plan@));
        assert(plan_positions(plan@));
    }
    let r = fragments(t, tid, &plan);
    proof {
        let ds = r@.map_values(|m: IDMatrix| m.data@);
        assert forall|i: int| 0 <= i < r@.len() implies filled((#[trigger] r@[i]).data@) && (symmetric(tid.hoods())
            ==> fragment_closed(r@[i].data@, *tid)) by {
            assert(ds[i] == r@[i].data@);
            assert(ds.to_set().contains(ds[i]));
            let a = choose|a: Seq<usize>| completes(*tid, plan@, seq![t], a) && layout(plan@, a) == ds[i];
            lemma_center_layout(a);
            if symmetric(tid.hoods()) {
                lemma_center_closed(*tid, t, a);
            }
        }
    }
    r
}

/// The SIDE algorithm: every 3x3 fragment around seed tile `t` under the side plan, once
/// each. Their order follows the iteration order of the model's neighbor sets.
pub fn side(t: usize, tid: &TID) -> (r: Vec<IDMatrix>)
    requires
        t < tid.tiles(),
        closed_ids(tid.hoods()),
    ensures
        forall|i: int| 0 <= i < r@.len() ==> (#[trigger] r@[i]).rows == 3 && r@[i].cols == 3,
        r@.map_values(|m: IDMatrix| m.data@).no_duplicates(),
        r@.map_values(|m: IDMatrix| m.data@).to_set() == fragment_set(*tid, side_plan_spec(), t),
        forall|i: int| 0 <= i < r@.len() ==> filled((#[trigger] r@[i]).data@),
        symmetric(tid.hoods()) ==> forall|i: int|
            0 <= i < r@.len() ==> fragment_closed((#[trigger] r@[i]).data@, *tid),
{
    let plan = side_plan();
    proof {
        assert(plan_wf(plan@));
        assert(plan_positions(plan@));
    }
    let r = fragments(t, tid, &plan);
    proof {
        let ds = r@.map_values(|m: IDMatrix| m.data@);
        assert forall|i: int| 0 <= i < r@.len() implies filled((#[trigger] r@[i]).data@) && (symmetric(tid.hoods())
            ==> fragment_closed(r@[i].data@, *tid)) by {
            assert(ds[i] == r@[i].data@);
            assert(ds.to_set().contains(ds[i]));
            let a = choose|a: Seq<usize>| completes(*tid, plan@, seq![t], a) && layout(plan@, a) == ds[i];
            lemma_side_layout(a);
            if symmetric(tid.hoods()) {
                lemma_side_closed(*tid, t, a);
            }
        }
    }
    r
}

/// The CORNER algorithm: every 3x3 fragment around seed tile `t` under the corner plan, once
/// each. Their order follows the iteration order of the model's neighbor sets.
pub fn corner(t: usize, tid: &TID) -> (r: Vec<IDMatrix>)
    requires
        t < tid.tiles(),
        closed_ids(tid.hoods()),
    ensures
        forall|i: int| 0 <= i < r@.len() ==> (#[trigger] r@[i]).rows == 3 && r@[i].cols == 3,
        r@.map_values(|m: IDMatrix| m.data@).no_duplicates(),
        r@.map_values(|m: IDMatrix| m.data@).to_set() == fragment_set(*tid, corner_plan_spec(), t),
        forall|i: int| 0 <= i < r@.len() ==> filled((#[trigger] r@[i]).data@),
        symmetric(tid.hoods()) ==> forall|i: int|
            0 <= i < r@.len() ==> fragment_closed((#[trigger] r@[i]).data@, *tid),
{
    let plan = corner_plan();
    proof {
        assert(plan_wf(plan@));
        assert(plan_positions(plan@));
    }
    let r = fragments(t, tid, &plan);
    proof {
        let ds = r@.map_values(|m: IDMatrix| m.data@);
        assert forall|i: int| 0 <= i < r@.len() implies filled((#[trigger] r@[i]).data@) && (symmetric(tid.hoods())
            ==> fragment_closed(r@[i].data@, *tid)) by {
            assert(ds[i] == r@[i].data@);
            assert(ds.to_set().contains(ds[i]));
            let a = choose|a: Seq<usize>| completes(*tid, plan@, seq![t], a) && layout(plan@, a) == ds[i];
            lemma_corner_layout(a);
            if symmetric(tid.hoods()) {
                lemma_corner_closed(*tid, t, a);
            }
        }
    }
    r
}

/// A sequence made of two duplicate-free, disjoint parts is duplicate-free.
proof fn lemma_no_duplicates_concat<A>(s1: Seq<A>, s2: Seq<A>)
    requires
        s1.no_duplicates(),
        s2.no_duplicates(),
        forall|i: int, j: int| 0 <= i < s1.len() && 0 <= j < s2.len() ==> s1[i] != s2[j],
    ensures
        (s1 + s2).no_duplicates(),
{
    let s = s1 + s2;
    assert forall|i: int, j: int| 0 <= i < s.len() && 0 <= j < s.len() && i != j implies s[i] != s[j] by {
        if i < s1.len() && j >= s1.len() {
            assert(s1[i] != s2[j - s1.len()]);
        } else if j < s1.len() && i >= s1.len() {
            assert(s1[j] != s2[i - s1.len()]);
        }
    }
}

} // verus!
