//! A generic 2D matrix with a flat row-major representation, and 4-neighbor lookups on
//! rectangular lattices.
use vstd::prelude::*;

verus! {

/// Position reached from `(x, y)` by one step in direction `d`
/// (east = 0, north = 1, west = 2, south = 3; north is the row above).
pub open spec fn step(x: int, y: int, d: int) -> (int, int) {
    if d == 0 {
        (x + 1, y)
    } else if d == 1 {
        (x, y - 1)
    } else if d == 2 {
        (x - 1, y)
    } else {
        (x, y + 1)
    }
}

/// The direction pointing back: east and west, north and south.
pub open spec fn opposite(d: int) -> int {
    (d + 2) % 4
}

/// Whether `(x, y)` lies inside a lattice of `cols` columns and `rows` rows.
pub open spec fn in_grid(cols: int, rows: int, x: int, y: int) -> bool {
    0 <= x < cols && 0 <= y < rows
}

/// Direction from `(x, y)` to the adjacent position `(h, k)`, or -1 when they are not
/// 4-neighbors.
pub open spec fn direction_between(x: int, y: int, h: int, k: int) -> int {
    if h == x + 1 && k == y {
        0
    } else if h == x && k + 1 == y {
        1
    } else if h + 1 == x && k == y {
        2
    } else if h == x && k == y + 1 {
        3
    } else {
        -1
    }
}

/// The neighbor triples `(direction, col, row)` of `(x, y)`, in direction order, leaving out
/// the positions that fall off the lattice (no wraparound).
pub open spec fn grid_neighbors(cols: int, rows: int, x: int, y: int) -> Seq<(usize, usize, usize)> {
    let east = if x + 1 < cols { seq![(0usize, (x + 1) as usize, y as usize)] } else { seq![] };
    let north = if y > 0 { seq![(1usize, x as usize, (y - 1) as usize)] } else { seq![] };
    let west = if x > 0 { seq![(2usize, (x - 1) as usize, y as usize)] } else { seq![] };
    let south = if y + 1 < rows { seq![(3usize, x as usize, (y + 1) as usize)] } else { seq![] };
    east + north + west + south
}

/// Every in-lattice position at one step from `(x, y)` appears once among its neighbor
/// triples, under the direction that leads there, and nothing else does.
pub proof fn lemma_grid_neighbors(cols: int, rows: int, x: int, y: int)
    requires
        in_grid(cols, rows, x, y),
        cols <= usize::MAX,
        rows <= usize::MAX,
    ensures
        grid_neighbors(cols, rows, x, y).no_duplicates(),
        forall|i: int|
            #![trigger grid_neighbors(cols, rows, x, y)[i]]
            0 <= i < grid_neighbors(cols, rows, x, y).len() ==> {
                let (d, h, k) = grid_neighbors(cols, rows, x, y)[i];
                &&& d < 4
                &&& in_grid(cols, rows, h as int, k as int)
                &&& step(x, y, d as int) == (h as int, k as int)
                &&& direction_between(x, y, h as int, k as int) == d as int
            },
        forall|d: int|
            0 <= d < 4 && #[trigger] in_grid(cols, rows, step(x, y, d).0, step(x, y, d).1) ==> {
                grid_neighbors(cols, rows, x, y).contains(
                    (d as usize, step(x, y, d).0 as usize, step(x, y, d).1 as usize),
                )
            },
{
    let s = grid_neighbors(cols, rows, x, y);
    let east = if x + 1 < cols { seq![(0usize, (x + 1) as usize, y as usize)] } else { seq![] };
    let north = if y > 0 { seq![(1usize, x as usize, (y - 1) as usize)] } else { seq![] };
    let west = if x > 0 { seq![(2usize, (x - 1) as usize, y as usize)] } else { seq![] };
    let south = if y + 1 < rows { seq![(3usize, x as usize, (y + 1) as usize)] } else { seq![] };
    let ne = east.len() as int;
    let nn = (east.len() + north.len()) as int;
    let nw = (east.len() + north.len() + west.len()) as int;
    assert(s == east + north + west + south);
    assert forall|i: int| #![trigger s[i]] 0 <= i < s.len() implies {
        let (d, h, k) = s[i];
        &&& d < 4
        &&& in_grid(cols, rows, h as int, k as int)
        &&& step(x, y, d as int) == (h as int, k as int)
        &&& direction_between(x, y, h as int, k as int) == d as int
        &&& (i < ne ==> d == 0)
        &&& (ne <= i < nn ==> d == 1)
        &&& (nn <= i < nw ==> d == 2)
        &&& (nw <= i ==> d == 3)
    } by {
        if i < ne {
            assert(s[i] == east[i]);
        } else if i < nn {
            assert(s[i] == north[i - ne]);
        } else if i < nw {
            assert(s[i] == west[i - nn]);
        } else {
            assert(s[i] == south[i - nw]);
        }
    }
    assert forall|i: int, j: int| 0 <= i < s.len() && 0 <= j < s.len() && i != j implies s[i]
        != s[j] by {
        assert(s[i].0 != s[j].0);
    }
    assert forall|d: int|
        0 <= d < 4 && #[trigger] in_grid(cols, rows, step(x, y, d).0, step(x, y, d).1) implies s.contains(
        (d as usize, step(x, y, d).0 as usize, step(x, y, d).1 as usize),
    ) by {
        let j: int = if d == 0 {
            0
        } else if d == 1 {
            ne
        } else if d == 2 {
            nn
        } else {
            nw
        };
        assert(s[j] == (d as usize, step(x, y, d).0 as usize, step(x, y, d).1 as usize));
    }
}

/// Generic 2D matrix of `cols` columns and `rows` rows; the entry at `[col, row]` is stored
/// at `col + row * cols`.
#[derive(Debug)]
pub struct Matrix<T> {
    pub rows: usize,
    pub cols: usize,
    pub data: Vec<T>,
}

impl<T> Matrix<T> {
    /// The flat storage holds exactly one entry per position.
    pub open spec fn wf(&self) -> bool {
        self.data@.len() == self.rows * self.cols
    }

    /// Flat offset of `[col, row]`.
    pub open spec fn offset(&self, col: int, row: int) -> int {
        col + row * self.cols
    }

    /// Whether `[col, row]` lies inside the matrix.
    pub open spec fn contains(&self, col: int, row: int) -> bool {
        in_grid(self.cols as int, self.rows as int, col, row)
    }

    /// Create a new matrix (cols x rows) of default values.
    pub fn new(cols: usize, rows: usize) -> (r: Matrix<T>) where T: Default
        requires
            rows * cols <= usize::MAX,
        ensures
            r.rows == rows,
            r.cols == cols,
            r.wf(),
            forall|i: int| 0 <= i < r.data@.len() ==> call_ensures(T::default, (), #[trigger] r.data@[i]),
    {
        let n: usize = rows * cols;
        let mut data: Vec<T> = Vec::new();
        let mut i: usize = 0;
        while i < n
            invariant
                i <= n,
                data@.len() == i,
                forall|j: int| 0 <= j < i ==> call_ensures(T::default, (), #[trigger] data@[j]),
            decreases n - i,
        {
            data.push(T::default());
            i = i + 1;
        }
        Matrix { rows, cols, data }
    }

    /// Internal indexing function mapping a 2D query into the flat storage.
    fn index(&self, col: usize, row: usize) -> (r: usize)
        requires
            self.wf(),
            self.contains(col as int, row as int),
        ensures
            r == self.offset(col as int, row as int),
            r < self.data@.len(),
    {
        let n = self.data.len();
        proof {
            lemma_offset_in_bounds(self.cols as int, self.rows as int, col as int, row as int);
        }
        col + row * self.cols
    }

    /// Return the number of rows the matrix has.
    pub fn rows(&self) -> (r: usize)
        ensures
            r == self.rows,
    {
        self.rows
    }

    /// Return the number of columns the matrix has.
    pub fn cols(&self) -> (r: usize)
        ensures
            r == self.cols,
    {
        self.cols
    }

    /// Return a reference to the flat storage of the matrix.
    pub fn data(&self) -> (r: &Vec<T>)
        ensures
            r == &self.data,
    {
        &self.data
    }

    /// Query the matrix at [col, row].
    pub fn at(&self, col: usize, row: usize) -> (r: T) where T: Clone
        requires
            self.wf(),
            self.contains(col as int, row as int),
        ensures
            cloned(self.data@[self.offset(col as int, row as int)], r),
    {
        let i = self.index(col, row);
        self.data[i].clone()
    }

    /// Overwrite the entry at [col, row].
    pub fn set(&mut self, col: usize, row: usize, t: T)
        requires
            old(self).wf(),
            old(self).contains(col as int, row as int),
        ensures
            final(self).rows == old(self).rows,
            final(self).cols == old(self).cols,
            final(self).wf(),
            final(self).data@ == old(self).data@.update(old(self).offset(col as int, row as int), t),
    {
        let i = self.index(col, row);
        self.data.set(i, t);
    }
}

impl<T: Clone> Clone for Matrix<T> {
    fn clone(&self) -> (r: Self)
        ensures
            r.rows == self.rows,
            r.cols == self.cols,
            r.data@.len() == self.data@.len(),
            forall|i: int| 0 <= i < self.data@.len() ==> cloned(self.data@[i], #[trigger] r.data@[i]),
    {
        Matrix { rows: self.rows, cols: self.cols, data: self.data.clone() }
    }
}

/// A position inside a `cols` x `rows` lattice has a flat offset inside its storage.
pub proof fn lemma_offset_in_bounds(cols: int, rows: int, col: int, row: int)
    requires
        in_grid(cols, rows, col, row),
    ensures
        0 <= col + row * cols < rows * cols,
{
    assert(0 <= row * cols) by (nonlinear_arith)
        requires
            0 <= row,
            0 <= cols,
    ;
    assert(row * cols + cols <= rows * cols) by (nonlinear_arith)
        requires
            row < rows,
            0 <= cols,
    ;
}

/// Distinct positions of a lattice with `cols` columns have distinct flat offsets.
pub proof fn lemma_offset_injective(cols: int, h: int, k: int, x: int, y: int)
    requires
        0 <= h < cols,
        0 <= x < cols,
        0 <= k,
        0 <= y,
    ensures
        h + k * cols == x + y * cols <==> (h == x && k == y),
{
    if k < y {
        assert(k * cols + cols <= y * cols) by (nonlinear_arith)
            requires
                k + 1 <= y,
                0 <= cols,
        ;
    } else if y < k {
        assert(y * cols + cols <= k * cols) by (nonlinear_arith)
            requires
                y + 1 <= k,
                0 <= cols,
        ;
    }
}

/// Lattices whose positions have up to four neighbors.
pub trait Neighbors {
    /// Columns and rows of the lattice.
    spec fn extent(&self) -> (usize, usize);

    fn shape(&self) -> (r: (usize, usize))
        ensures
            r == self.extent(),
    ;

    /// Return the neighbors `(direction, col, row)` of `(x, y)`, in direction order.
    fn neighbors(&self, x: usize, y: usize) -> (r: Vec<(usize, usize, usize)>)
        requires
            x < self.extent().0,
            y < self.extent().1,
        ensures
            r@ == grid_neighbors(self.extent().0 as int, self.extent().1 as int, x as int, y as int),
    {
        let (cols, rows) = self.shape();
        let mut out: Vec<(usize, usize, usize)> = Vec::new();
        if x < cols - 1 {
            out.push((0, x + 1, y));
        }
        if y > 0 {
            out.push((1, x, y - 1));
        }
        if x > 0 {
            out.push((2, x - 1, y));
        }
        if y < rows - 1 {
            out.push((3, x, y + 1));
        }
        out
    }
}

impl<T> Neighbors for Matrix<T> {
    open spec fn extent(&self) -> (usize, usize) {
        (self.cols, self.rows)
    }

    fn shape(&self) -> (r: (usize, usize)) {
        (self.cols(), self.rows())
    }
}

} // verus!
