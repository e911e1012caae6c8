//! The adjacency model: for each tile id and each of the four directions, the set of tile
//! ids observed next to it in that direction.
use crate::node::IDMatrix;
use rand::Rng;
use std::collections::HashSet;
use vstd::prelude::*;
use vstd::std_specs::hash::group_hash_axioms;

verus! {

broadcast use group_hash_axioms;

/// A compass direction: east = 0, north = 1, west = 2, south = 3.
pub type Direction = usize;

/// Every tile id held by a table of neighbor sets is a tile of that table.
pub open spec fn closed_ids(h: Seq<Seq<Set<usize>>>) -> bool {
    forall|t: int, d: int, u: usize|
        0 <= t < h.len() && 0 <= d < 4 && #[trigger] h[t][d].contains(u) ==> u < h.len()
}

/// Each entry of a table of neighbor sets has one set per direction.
pub open spec fn four_sided(h: Seq<Seq<Set<usize>>>) -> bool {
    forall|t: int| 0 <= t < h.len() ==> (#[trigger] h[t]).len() == 4
}

/// B lies in direction d of A exactly when A lies in the opposite direction of B.
pub open spec fn symmetric(h: Seq<Seq<Set<usize>>>) -> bool {
    forall|a: int, d: int, b: usize|
        0 <= a < h.len() && 0 <= d < 4 && b < h.len() ==> (#[trigger] h[a][d].contains(b)
            <==> h[b as int][crate::matrix::opposite(d)].contains(a as usize))
}

/// Copy of a set of tile ids.
fn copy_set(s: &HashSet<usize>) -> (r: HashSet<usize>)
    ensures
        r@ == s@,
{
    let mut r: HashSet<usize> = HashSet::new();
    for x in it: s.iter()
        invariant
            forall|u: usize|
                r@.contains(u) <==> exists|i: int| 0 <= i < it.index() && it.seq().unref()[i] == u,
            it.seq().unref().to_set() == s@,
            forall|u: usize|
                s@.contains(u) ==> exists|i: int| 0 <= i < it.seq().len() && it.seq().unref()[i] == u,
            forall|i: int| 0 <= i < it.seq().len() ==> s@.contains(#[trigger] it.seq().unref()[i]),
        ensures
            r@ == s@,
    {
        r.insert(*x);
    }
    r
}

/// The neighbor sets of one tile, one per direction.
#[derive(Debug)]
pub struct Neighborhood {
    neighbors: [HashSet<usize>; 4],
}

impl View for Neighborhood {
    type V = Seq<Set<usize>>;

    closed spec fn view(&self) -> Seq<Set<usize>> {
        Seq::new(4, |d: int| self.neighbors@[d]@)
    }
}

impl Neighborhood {
    /// A neighborhood with no neighbor in any direction.
    pub fn new() -> (r: Self)
        ensures
            r@ == Seq::new(4, |d: int| Set::<usize>::empty()),
    {
        Neighborhood { neighbors: [HashSet::new(), HashSet::new(), HashSet::new(), HashSet::new()] }
    }

    /// Replace all four neighbor sets at once.
    pub fn neighbors(&mut self, neighbors: [HashSet<usize>; 4]) -> (r: &mut Self)
        ensures
            r@ == Seq::new(4, |d: int| neighbors@[d]@),
            *final(self) == *final(r),
    {
        self.neighbors = neighbors;
        self
    }

    /// Record `u` as a neighbor in direction `d`; a direction outside the four is ignored.
    pub fn insert(&mut self, u: usize, d: Direction)
        ensures
            d < 4 ==> final(self)@ == old(self)@.update(d as int, old(self)@[d as int].insert(u)),
            d >= 4 ==> final(self)@ == old(self)@,
            final(self)@.len() == 4,
    {
        if d < 4 {
            self.neighbors[d].insert(u);
        }
        assert(final(self)@ =~= old(self)@.update(d as int, old(self)@[d as int].insert(u)) || d >= 4);
    }

    /// The neighbor set in direction `d`.
    pub fn neighborhood(&self, d: Direction) -> (r: HashSet<usize>)
        requires
            d < 4,
        ensures
            r@ == self@[d as int],
    {
        copy_set(&self.neighbors[d])
    }
}

impl Clone for Neighborhood {
    fn clone(&self) -> (r: Self)
        ensures
            r@ == self@,
    {
        let r = Neighborhood {
            neighbors: [
                copy_set(&self.neighbors[0]),
                copy_set(&self.neighbors[1]),
                copy_set(&self.neighbors[2]),
                copy_set(&self.neighbors[3]),
            ],
        };
        assert(r@ =~= self@);
        r
    }
}

/// Tiled image data: the adjacency model of a tiled image together with its tile count and
/// the pixel size of a tile. Employs builder methods.
#[derive(Debug)]
pub struct TID {
    pub neighborhoods: Vec<Neighborhood>,
    pub n: usize,
    pub width: u32,
    pub height: u32,
}

impl Clone for TID {
    fn clone(&self) -> (r: Self)
        ensures
            r.hoods() == self.hoods(),
            r.n == self.n,
            r.width == self.width,
            r.height == self.height,
    {
        let mut neighborhoods: Vec<Neighborhood> = Vec::new();
        let mut i: usize = 0;
        while i < self.neighborhoods.len()
            invariant
                i <= self.neighborhoods@.len(),
                neighborhoods@.map_values(|h: Neighborhood| h@) == self.hoods().take(i as int),
            decreases self.neighborhoods@.len() - i,
        {
            let h = self.neighborhoods[i].clone();
            assert(h@ == self.hoods()[i as int]);
            let ghost before = neighborhoods@;
            neighborhoods.push(h);
            assert(neighborhoods@.map_values(|h: Neighborhood| h@) =~= before.map_values(|h: Neighborhood| h@).push(h@));
            i = i + 1;
            assert(neighborhoods@.map_values(|h: Neighborhood| h@) =~= self.hoods().take(i as int));
        }
        assert(self.hoods().take(i as int) =~= self.hoods());
        TID { neighborhoods, n: self.n, width: self.width, height: self.height }
    }
}

impl TID {
    /// The neighbor sets of every tile, indexed by tile id, then by direction.
    pub open spec fn hoods(&self) -> Seq<Seq<Set<usize>>> {
        self.neighborhoods@.map_values(|h: Neighborhood| h@)
    }

    /// The neighbor set of tile `t` in direction `d`.
    pub open spec fn hood(&self, t: int, d: int) -> Set<usize> {
        self.hoods()[t][d]
    }

    /// Number of tiles the neighbor table describes.
    pub open spec fn tiles(&self) -> int {
        self.hoods().len() as int
    }

    /// An empty model.
    pub fn new() -> (r: Self)
        ensures
            r.hoods() == Seq::<Seq<Set<usize>>>::empty(),
            r.n == 0,
            r.width == 0,
            r.height == 0,
    {
        let r = TID { neighborhoods: Vec::new(), n: 0, width: 0, height: 0 };
        assert(r.hoods() =~= Seq::<Seq<Set<usize>>>::empty());
        r
    }

    /// Set the neighbor table.
    pub fn mapping(&mut self, neighborhoods: Vec<Neighborhood>) -> (r: &mut Self)
        ensures
            r.hoods() == neighborhoods@.map_values(|h: Neighborhood| h@),
            four_sided(r.hoods()),
            r.n == old(self).n,
            r.width == old(self).width,
            r.height == old(self).height,
            *final(self) == *final(r),
    {
        self.neighborhoods = neighborhoods;
        proof {
            lemma_four_sided(self.neighborhoods@);
        }
        self
    }

    /// Set the tile count.
    pub fn n(&mut self, n: usize) -> (r: &mut Self)
        ensures
            r.hoods() == old(self).hoods(),
            r.n == n,
            r.width == old(self).width,
            r.height == old(self).height,
            *final(self) == *final(r),
    {
        self.n = n;
        self
    }

    /// Set the pixel width of a tile.
    pub fn width(&mut self, width: u32) -> (r: &mut Self)
        ensures
            r.hoods() == old(self).hoods(),
            r.n == old(self).n,
            r.width == width,
            r.height == old(self).height,
            *final(self) == *final(r),
    {
        self.width = width;
        self
    }

    /// Set the pixel height of a tile.
    pub fn height(&mut self, height: u32) -> (r: &mut Self)
        ensures
            r.hoods() == old(self).hoods(),
            r.n == old(self).n,
            r.width == old(self).width,
            r.height == height,
            *final(self) == *final(r),
    {
        self.height = height;
        self
    }

    /// Generate a random image representation: every cell gets a tile id drawn from `0..=n`.
    pub fn rng(&self, mut image: IDMatrix) -> (r: IDMatrix)
        requires
            image.wf(),
        ensures
            r.rows == image.rows,
            r.cols == image.cols,
            r.wf(),
            forall|i: int| 0 <= i < r.data@.len() ==> drawn(#[trigger] r.data@[i], self.n),
    {
        let ghost rows = image.rows;
        let ghost cols = image.cols;
        let mut i: usize = 0;
        while i < image.rows()
            invariant
                image.wf(),
                image.rows == rows,
                image.cols == cols,
                0 <= i <= rows,
                forall|q: int|
                    0 <= q < i * cols ==> drawn(#[trigger] image.data@[q], self.n),
            decreases rows - i,
        {
            let mut j: usize = 0;
            while j < image.cols()
                invariant
                    image.wf(),
                    image.rows == rows,
                    image.cols == cols,
                    0 <= i < rows,
                    0 <= j <= cols,
                    forall|q: int|
                        0 <= q < i * cols + j ==> drawn(#[trigger] image.data@[q], self.n),
                decreases cols - j,
            {
                proof {
                    crate::matrix::lemma_offset_in_bounds(cols as int, rows as int, j as int, i as int);
                }
                image.set(j, i, Some(random_id(self.n)));
                j = j + 1;
            }
            proof {
                assert((i + 1) * cols == i * cols + cols) by (nonlinear_arith);
            }
            i = i + 1;
        }
        proof {
            assert(rows * cols == image.data@.len());
        }
        image
    }

    /// Neighborhood function: the tiles observed in direction `d` of tile `t`.
    pub fn neighborhood(&self, t: usize, d: Direction) -> (r: HashSet<usize>)
        requires
            t < self.tiles(),
            d < 4,
        ensures
            r@ == self.hood(t as int, d as int),
    {
        copy_set(self.hood_ref(t, d))
    }

    /// The neighbor set of tile `t` in direction `d`, borrowed.
    pub(crate) fn hood_ref(&self, t: usize, d: Direction) -> (r: &HashSet<usize>)
        requires
            t < self.tiles(),
            d < 4,
        ensures
            r@ == self.hood(t as int, d as int),
    {
        &self.neighborhoods[t].neighbors[d]
    }
}

/// A tile id drawn from `0..=n`.
pub open spec fn drawn(v: Option<usize>, n: usize) -> bool {
    v matches Some(x) && x <= n
}

/// Relies on `rand::Rng::gen_range` over the thread-local generator `rand::thread_rng`: a
/// uniformly drawn integer of the inclusive range `0..=n`, which is never empty.
#[verifier::external_body]
fn random_id(n: usize) -> (r: usize)
    ensures
        r <= n,
{
    rand::thread_rng().gen_range(0..=n)
}

/// The views of a sequence of neighborhoods have one set per direction.
proof fn lemma_four_sided(hs: Seq<Neighborhood>)
    ensures
        four_sided(hs.map_values(|h: Neighborhood| h@)),
{
}

} // verus!
