//! Image processing: cutting a tiled image into its distinct tiles, learning the adjacency
//! model from it (every pair of tiles that sit side by side becomes a legal neighbor pair, in
//! both directions), and drawing tile-id matrices back as images.
use crate::matrix::{
    grid_neighbors, in_grid, lemma_grid_neighbors, lemma_offset_in_bounds, opposite, step, Matrix,
    Neighbors,
};
use crate::model::{closed_ids, four_sided, symmetric, Neighborhood, TID};
use crate::node::IDMatrix;
use image::{imageops, RgbaImage};
use vstd::prelude::*;

verus! {

/// An RGBA image as plain values: its size in pixels and four bytes per pixel, row by row.
#[derive(Debug)]
pub struct Pixels {
    pub width: u32,
    pub height: u32,
    pub bytes: Vec<u8>,
}

impl View for Pixels {
    type V = (u32, u32, Seq<u8>);

    open spec fn view(&self) -> (u32, u32, Seq<u8>) {
        (self.width, self.height, self.bytes@)
    }
}

impl Pixels {
    /// Four bytes for each pixel.
    pub open spec fn wf(&self) -> bool {
        self.bytes@.len() == 4 * (self.width as int) * (self.height as int)
    }

    /// A transparent image of the given size: every byte zero.
    pub fn blank(width: u32, height: u32) -> (r: Self)
        requires
            4 * (width as int) * (height as int) <= usize::MAX,
        ensures
            r.wf(),
            r.width == width,
            r.height == height,
            forall|i: int| 0 <= i < r.bytes@.len() ==> #[trigger] r.bytes@[i] == 0,
    {
        proof {
            assert((width as int) * (height as int) <= 4 * (width as int) * (height as int)) by (nonlinear_arith);
            assert(4 * ((width as int) * (height as int)) == 4 * (width as int) * (height as int)) by (nonlinear_arith);
        }
        let n: usize = 4 * ((width as usize) * (height as usize));
        let mut bytes: Vec<u8> = Vec::new();
        let mut i: usize = 0;
        while i < n
            invariant
                i <= n,
                bytes@.len() == i,
                forall|j: int| 0 <= j < i ==> #[trigger] bytes@[j] == 0,
            decreases n - i,
        {
            bytes.push(0);
            i = i + 1;
        }
        Pixels { width, height, bytes }
    }

    /// Whether two images have the same size and the same pixels.
    pub fn same(&self, other: &Pixels) -> (r: bool)
        ensures
            r == (self@ == other@),
    {
        if self.width != other.width || self.height != other.height || self.bytes.len() != other.bytes.len() {
            return false;
        }
        let mut i: usize = 0;
        while i < self.bytes.len()
            invariant
                self.bytes@.len() == other.bytes@.len(),
                i <= self.bytes@.len(),
                forall|j: int| 0 <= j < i ==> self.bytes@[j] == other.bytes@[j],
            decreases self.bytes@.len() - i,
        {
            if self.bytes[i] != other.bytes[i] {
                return false;
            }
            i = i + 1;
        }
        assert(self.bytes@ =~= other.bytes@);
        true
    }
}

/// Relies on `ImageBuffer::from_raw`, `imageops::crop_imm`, `SubImage::to_image` and
/// `ImageBuffer::into_raw`: a copy of the `width` x `height` region whose top-left pixel is
/// (x, y), clipped to the image (crop_imm clamps x and y to the image, then the size to what is
/// left of it).
#[verifier::external_body]
fn crop(img: &Pixels, x: u32, y: u32, width: u32, height: u32) -> (r: Pixels)
    requires
        img.wf(),
    ensures
        r.wf(),
        r.width == if x <= img.width { if width <= img.width - x { width } else { (img.width - x) as u32 } } else { 0 },
        r.height == if y <= img.height { if height <= img.height - y { height } else { (img.height - y) as u32 } } else { 0 },
{
    let whole = RgbaImage::from_raw(img.width, img.height, img.bytes.clone()).unwrap();
    let part = imageops::crop_imm(&whole, x, y, width, height).to_image();
    Pixels { width: part.width(), height: part.height(), bytes: part.into_raw() }
}

/// Relies on `ImageBuffer::from_raw`, `imageops::overlay` and `ImageBuffer::into_raw`: draws
/// `top` over `bottom` with its top-left corner at (x, y), leaving out what falls outside
/// `bottom`, whose size stays.
#[verifier::external_body]
fn overlay(bottom: &mut Pixels, top: &Pixels, x: i64, y: i64)
    requires
        old(bottom).wf(),
        top.wf(),
    ensures
        final(bottom).wf(),
        final(bottom).width == old(bottom).width,
        final(bottom).height == old(bottom).height,
{
    let mut canvas = RgbaImage::from_raw(bottom.width, bottom.height, std::mem::take(&mut bottom.bytes)).unwrap();
    let tile = RgbaImage::from_raw(top.width, top.height, top.bytes.clone()).unwrap();
    imageops::overlay(&mut canvas, &tile, x, y);
    bottom.bytes = canvas.into_raw();
}

/// The cell at flat offset `q` of a `cols` x `rows` id matrix holds tile `t`, and its neighbor
/// in direction `d` holds tile `u`.
pub open spec fn seen_at(ids: Seq<Option<usize>>, cols: int, rows: int, q: int, t: usize, d: int, u: usize) -> bool {
    let x = q % cols;
    let y = q / cols;
    let (h, k) = step(x, y, d);
    &&& 0 <= q < ids.len()
    &&& 0 <= d < 4
    &&& in_grid(cols, rows, h, k)
    &&& ids[q] == Some(t)
    &&& ids[h + k * cols] == Some(u)
}

/// Tile `u` is observed in direction `d` of tile `t` at some cell among the first `p`.
pub open spec fn seen_upto(ids: Seq<Option<usize>>, cols: int, rows: int, p: int, t: usize, d: int, u: usize) -> bool {
    exists|q: int| 0 <= q < p && #[trigger] seen_at(ids, cols, rows, q, t, d, u)
}

/// Tile `u` is observed in direction `d` of tile `t` somewhere in the id matrix.
pub open spec fn observed(ids: IDMatrix, t: usize, d: int, u: usize) -> bool {
    seen_upto(ids.data@, ids.cols as int, ids.rows as int, ids.data@.len() as int, t, d, u)
}

/// One of the first `m` neighbor triples lies in direction `d` and holds tile `u`.
pub open spec fn near(ids: Seq<Option<usize>>, cols: int, nb: Seq<(usize, usize, usize)>, m: int, d: int, u: usize) -> bool {
    exists|i: int|
        0 <= i < m && (#[trigger] nb[i]).0 == d && ids[nb[i].1 + nb[i].2 * cols] == Some(u)
}

/// The neighbor sets of a sequence of neighborhoods.
pub open spec fn table(hs: Seq<Neighborhood>) -> Seq<Seq<Set<usize>>> {
    hs.map_values(|h: Neighborhood| h@)
}

/// Every tile of an id matrix is below `n`.
pub open spec fn ids_below(ids: Seq<Option<usize>>, n: int) -> bool {
    forall|q: int| 0 <= q < ids.len() && (#[trigger] ids[q]) is Some ==> ids[q]->0 < n
}

/// Neighbor mapping of a tiled image given as an id matrix of tiles `0..n`:
/// tile id -> direction -> the tile ids seen next to it in that direction.
///           _ 1 _
/// neighbors 2 i 0
/// of i      _ 3 _
pub fn neighborhoods_of(img: &IDMatrix, n: usize) -> (r: Vec<Neighborhood>)
    requires
        img.wf(),
        ids_below(img.data@, n as int),
    ensures
        r@.len() == n,
        four_sided(table(r@)),
        forall|t: int, d: int, u: usize|
            0 <= t < n && 0 <= d < 4 ==> (#[trigger] table(r@)[t][d].contains(u) <==> observed(*img, t as usize, d, u)),
        closed_ids(table(r@)),
        symmetric(table(r@)),
{
    let ghost ids = img.data@;
    let ghost cols = img.cols as int;
    let ghost rows = img.rows as int;
    let mut out: Vec<Neighborhood> = Vec::new();
    let mut t0: usize = 0;
    while t0 < n
        invariant
            t0 <= n,
            out@.len() == t0,
            forall|t: int| 0 <= t < t0 ==> (#[trigger] table(out@)[t]) == Seq::new(4, |d: int| Set::<usize>::empty()),
        decreases n - t0,
    {
        let ghost before = out@;
        out.push(Neighborhood::new());
        proof {
            assert(table(out@) =~= table(before).push(out@[t0 as int]@));
        }
        t0 = t0 + 1;
    }
    let len = img.data.len();
    let mut p: usize = 0;
    while p < len
        invariant
            len == ids.len(),
            img.wf(),
            ids == img.data@,
            cols == img.cols,
            rows == img.rows,
            ids_below(ids, n as int),
            p <= ids.len(),
            out@.len() == n,
            four_sided(table(out@)),
            forall|t: int, d: int, u: usize|
                0 <= t < n && 0 <= d < 4 ==> (#[trigger] table(out@)[t][d].contains(u) <==> seen_upto(ids, cols, rows, p as int, t as usize, d, u)),
        decreases ids.len() - p,
    {
        proof {
            crate::node::lemma_position_of(p as int, cols, rows);
        }
        let x = p % img.cols;
        let y = p / img.cols;
        if let Some(t) = img.data[p] {
            let nbrs = img.neighbors(x, y);
            proof {
                lemma_grid_neighbors(cols, rows, x as int, y as int);
            }
            let mut m: usize = 0;
            while m < nbrs.len()
                invariant
                    img.wf(),
                    ids == img.data@,
                    cols == img.cols,
                    rows == img.rows,
                    ids_below(ids, n as int),
                    p < ids.len(),
                    len == ids.len(),
                    x == p as int % cols,
                    y == p as int / cols,
                    in_grid(cols, rows, x as int, y as int),
                    ids[p as int] == Some(t),
                    t < n,
                    m <= nbrs@.len(),
                    nbrs@ == grid_neighbors(cols, rows, x as int, y as int),
                    out@.len() == n,
                    four_sided(table(out@)),
                    forall|t2: int, d: int, u: usize|
                        0 <= t2 < n && 0 <= d < 4 ==> (#[trigger] table(out@)[t2][d].contains(u) <==> (seen_upto(ids, cols, rows, p as int, t2 as usize, d, u)
                            || (t2 == t && near(ids, cols, nbrs@, m as int, d, u)))),
                decreases nbrs@.len() - m,
            {
                let (d, h, k) = nbrs[m];
                proof {
                    assert(grid_neighbors(cols, rows, x as int, y as int)[m as int] == (d, h, k));
                    lemma_offset_in_bounds(cols, rows, h as int, k as int);
                }
                let q = h + k * img.cols;
                if let Some(u) = img.data[q] {
                    let ghost before = table(out@);
                    let mut hood = out.remove(t);
                    hood.insert(u, d);
                    out.insert(t, hood);
                    proof {
                        assert(table(out@) =~= before.update(t as int, before[t as int].update(d as int, before[t as int][d as int].insert(u))));
                    }
                }
                proof {
                    assert forall|t2: int, d2: int, u2: usize|
                        0 <= t2 < n && 0 <= d2 < 4 implies (#[trigger] table(out@)[t2][d2].contains(u2) <==> (seen_upto(ids, cols, rows, p as int, t2 as usize, d2, u2)
                            || (t2 == t && near(ids, cols, nbrs@, m + 1, d2, u2)))) by {
                        if near(ids, cols, nbrs@, m + 1, d2, u2) && !near(ids, cols, nbrs@, m as int, d2, u2) {
                            assert(nbrs@[m as int].0 == d2);
                        }
                        if near(ids, cols, nbrs@, m as int, d2, u2) {
                            let i = choose|i: int|
                                0 <= i < m && (#[trigger] nbrs@[i]).0 == d2 && ids[nbrs@[i].1 + nbrs@[i].2 * cols] == Some(u2);
                            assert(nbrs@[i].0 == d2);
                        }
                    }
                }
                m = m + 1;
            }
            proof {
                assert forall|t2: int, d2: int, u2: usize|
                    0 <= t2 < n && 0 <= d2 < 4 implies (#[trigger] table(out@)[t2][d2].contains(u2) <==> seen_upto(ids, cols, rows, p + 1, t2 as usize, d2, u2)) by {
                    if near(ids, cols, nbrs@, nbrs@.len() as int, d2, u2) {
                        let i = choose|i: int|
                            0 <= i < nbrs@.len() && (#[trigger] nbrs@[i]).0 == d2 && ids[nbrs@[i].1 + nbrs@[i].2 * cols] == Some(u2);
                        assert(seen_at(ids, cols, rows, p as int, t, d2, u2));
                    }
                    if seen_at(ids, cols, rows, p as int, t2 as usize, d2, u2) {
                        let (h2, k2) = step(x as int, y as int, d2);
                        assert(in_grid(cols, rows, h2, k2));
                        assert(nbrs@.contains((d2 as usize, h2 as usize, k2 as usize)));
                        let i = choose|i: int| 0 <= i < nbrs@.len() && nbrs@[i] == (d2 as usize, h2 as usize, k2 as usize);
                        assert(near(ids, cols, nbrs@, nbrs@.len() as int, d2, u2));
                    }
                    if seen_upto(ids, cols, rows, p + 1, t2 as usize, d2, u2) {
                        let q = choose|q: int| 0 <= q < p + 1 && #[trigger] seen_at(ids, cols, rows, q, t2 as usize, d2, u2);
                        if q < p {
                            assert(seen_upto(ids, cols, rows, p as int, t2 as usize, d2, u2));
                        }
                    }
                }
            }
        } else {
            proof {
                assert forall|t2: int, d2: int, u2: usize|
                    0 <= t2 < n && 0 <= d2 < 4 implies (#[trigger] table(out@)[t2][d2].contains(u2) <==> seen_upto(ids, cols, rows, p + 1, t2 as usize, d2, u2)) by {
                    if seen_upto(ids, cols, rows, p + 1, t2 as usize, d2, u2) {
                        let q = choose|q: int| 0 <= q < p + 1 && #[trigger] seen_at(ids, cols, rows, q, t2 as usize, d2, u2);
                        if q < p {
                            assert(seen_upto(ids, cols, rows, p as int, t2 as usize, d2, u2));
                        }
                    }
                }
            }
        }
        p = p + 1;
    }
    proof {
        let tb = table(out@);
        assert forall|t: int, d: int, u: usize| 0 <= t < tb.len() && 0 <= d < 4 && #[trigger] tb[t][d].contains(u) implies u < tb.len() by {
            lemma_observed_ids(*img, n as int, t as usize, d, u);
        }
        assert forall|a: int, d: int, b: usize|
            0 <= a < tb.len() && 0 <= d < 4 && b < tb.len() implies (#[trigger] tb[a][d].contains(b)
                <==> tb[b as int][opposite(d)].contains(a as usize)) by {
            lemma_observed_symmetric(*img, a as usize, d, b);
            lemma_observed_symmetric(*img, b, opposite(d), a as usize);
            assert(opposite(opposite(d)) == d);
        }
    }
    out
}

/// What is observed next to a tile is a tile of the id matrix.
pub proof fn lemma_observed_ids(img: IDMatrix, n: int, t: usize, d: int, u: usize)
    requires
        img.wf(),
        ids_below(img.data@, n),
        observed(img, t, d, u),
    ensures
        u < n,
{
    let cols = img.cols as int;
    let rows = img.rows as int;
    let q = choose|q: int| 0 <= q < img.data@.len() && #[trigger] seen_at(img.data@, cols, rows, q, t, d, u);
    let (h, k) = step(q % cols, q / cols, d);
    lemma_offset_in_bounds(cols, rows, h, k);
    assert(img.data@[h + k * cols] is Some);
}

/// Symmetry of observation: when `u` is seen in direction `d` of `t`, then `t` is seen in the
/// opposite direction of `u`, at the neighboring cell.
pub proof fn lemma_observed_symmetric(img: IDMatrix, t: usize, d: int, u: usize)
    requires
        img.wf(),
    ensures
        observed(img, t, d, u) ==> observed(img, u, opposite(d), t),
{
    if observed(img, t, d, u) {
        let ids = img.data@;
        let cols = img.cols as int;
        let rows = img.rows as int;
        let q = choose|q: int| 0 <= q < ids.len() && #[trigger] seen_at(ids, cols, rows, q, t, d, u);
        crate::node::lemma_position_of(q, cols, rows);
        let x = q % cols;
        let y = q / cols;
        let (h, k) = step(x, y, d);
        let q2 = h + k * cols;
        lemma_offset_in_bounds(cols, rows, h, k);
        vstd::arithmetic::div_mod::lemma_fundamental_div_mod_converse(q2, cols, k, h);
        assert(step(h, k, opposite(d)) == (x, y));
        assert(seen_at(ids, cols, rows, q2, u, opposite(d), t));
    }
}


/// A tiled image: the image itself and each of its distinct tiles once.
#[derive(Debug)]
pub struct Image {
    pub tile_width: u32,
    pub tile_height: u32,
    rows: u32,
    cols: u32,
    img: Pixels,
    tiles: Vec<Pixels>,
}
impl Neighbors for Image {
    open spec fn extent(&self) -> (usize, usize) {
        (self.grid_cols() as usize, self.grid_rows() as usize)
    }

    fn shape(&self) -> (r: (usize, usize)) {
        (self.cols as usize, self.rows as usize)
    }
}

impl Image {
    /// Number of whole tiles across the image.
    pub closed spec fn grid_cols(&self) -> u32 {
        self.cols
    }

    /// Number of whole tiles down the image.
    pub closed spec fn grid_rows(&self) -> u32 {
        self.rows
    }

    /// Width and height of a tile, in pixels.
    pub closed spec fn tile_size(&self) -> (u32, u32) {
        (self.tile_width, self.tile_height)
    }

    /// The distinct tiles, viewed.
    pub closed spec fn tile_views(&self) -> Seq<(u32, u32, Seq<u8>)> {
        self.tiles@.map_values(|p: Pixels| p@)
    }

    /// The tile grid lies inside the image and fits a flat matrix, and no tile is listed twice.
    pub closed spec fn wf(&self) -> bool {
        &&& self.img.wf()
        &&& (self.cols as int) * (self.rows as int) <= usize::MAX
        &&& (self.cols as int) * (self.tile_width as int) <= self.img.width
        &&& (self.rows as int) * (self.tile_height as int) <= self.img.height
        &&& self.tile_views().no_duplicates()
        &&& forall|t: int| 0 <= t < self.tiles@.len() ==> (#[trigger] self.tiles@[t]).wf()
    }

    /// Cut an image into `tile_width` x `tile_height` tiles (dropping a partial last column or
    /// row) and keep each distinct tile once, in order of first appearance, scanning column by
    /// column.
    pub fn new(tile_width: u32, tile_height: u32, img: Pixels) -> (r: Self)
        requires
            tile_width > 0,
            tile_height > 0,
            img.wf(),
        ensures
            r.wf(),
            r.tile_views().no_duplicates(),
            r.tile_size() == (tile_width, tile_height),
            r.grid_cols() == img.width / tile_width,
            r.grid_rows() == img.height / tile_height,
    {
        let len = img.bytes.len();
        let width = img.width;
        let height = img.height;
        let cols = width / tile_width;
        let rows = height / tile_height;
        proof {
            assert(cols * tile_width <= width) by (nonlinear_arith)
                requires
                    cols == width / tile_width,
                    tile_width > 0,
            ;
            assert(rows * tile_height <= height) by (nonlinear_arith)
                requires
                    rows == height / tile_height,
                    tile_height > 0,
            ;
            assert((cols as int) * (rows as int) <= 4 * (width as int) * (height as int)) by (nonlinear_arith)
                requires
                    cols <= width,
                    rows <= height,
            ;
        }
        let mut image = Image { tile_width, tile_height, rows, cols, img, tiles: Vec::new() };
        proof {
            assert(image.tile_views() =~= Seq::<(u32, u32, Seq<u8>)>::empty());
        }
        let mut i: u32 = 0;
        while i < cols
            invariant
                image.cols == cols,
                image.rows == rows,
                image.tile_width == tile_width,
                image.tile_height == tile_height,
                image.img.width == width,
                image.img.height == height,
                cols == width / tile_width,
                rows == height / tile_height,
                tile_width > 0,
                tile_height > 0,
                image.wf(),
            decreases cols - i,
        {
            let mut j: u32 = 0;
            while j < rows
                invariant
                    image.cols == cols,
                    image.rows == rows,
                    image.tile_width == tile_width,
                    image.tile_height == tile_height,
                    image.img.width == width,
                    image.img.height == height,
                    cols == width / tile_width,
                    rows == height / tile_height,
                    i < cols,
                    tile_width > 0,
                    tile_height > 0,
                    image.wf(),
                decreases rows - j,
            {
                proof {
                    assert(i * tile_width < cols * tile_width) by (nonlinear_arith)
                        requires
                            i < cols,
                            tile_width > 0,
                    ;
                    assert(j * tile_height < rows * tile_height) by (nonlinear_arith)
                        requires
                            j < rows,
                            tile_height > 0,
                    ;
                }
                let tile = crop(&image.img, i * tile_width, j * tile_height, tile_width, tile_height);
                if image.tile_id(&tile).is_none() {
                    let ghost before = image.tile_views();
                    let ghost old_tiles = image.tiles@;
                    image.tiles.push(tile);
                    proof {
                        assert(image.tile_views() =~= before.push(tile@));
                        assert forall|t: int| 0 <= t < image.tiles@.len() implies (#[trigger] image.tiles@[t]).wf() by {
                            if t < before.len() {
                                assert(image.tiles@[t] == old_tiles[t]);
                            }
                        }
                        assert forall|a: int, b: int|
                            0 <= a < b < image.tile_views().len() implies image.tile_views()[a] != image.tile_views()[b] by {
                            if b == before.len() {
                                assert(before[a] != tile@);
                            } else {
                                assert(before[a] != before[b]);
                            }
                        }
                    }
                }
                j = j + 1;
            }
            i = i + 1;
        }
        image
    }

    /// O(n) query for a tile id: the first distinct tile with the same pixels, if any.
    fn tile_id(&self, tile: &Pixels) -> (r: Option<usize>)
        ensures
            r matches Some(i) ==> i < self.tiles@.len() && self.tiles@[i as int]@ == tile@,
            r is None ==> forall|j: int| 0 <= j < self.tiles@.len() ==> (#[trigger] self.tiles@[j])@ != tile@,
    {
        let mut i: usize = 0;
        while i < self.tiles.len()
            invariant
                i <= self.tiles@.len(),
                forall|j: int| 0 <= j < i ==> (#[trigger] self.tiles@[j])@ != tile@,
            decreases self.tiles@.len() - i,
        {
            if tile.same(&self.tiles[i]) {
                return Some(i);
            }
            i = i + 1;
        }
        None
    }

    /// Compute a slim "id" matrix representing the original tiled image.
    fn id_matrix(&self) -> (r: IDMatrix)
        requires
            self.wf(),
        ensures
            r.wf(),
            r.cols == self.grid_cols(),
            r.rows == self.grid_rows(),
            ids_below(r.data@, self.tiles@.len() as int),
    {
        let cols = self.cols as usize;
        let rows = self.rows as usize;
        let mut data: Vec<Option<usize>> = Vec::new();
        let mut j: usize = 0;
        while j < rows
            invariant
                self.wf(),
                cols == self.cols,
                rows == self.rows,
                j <= rows,
                data@.len() == j * cols,
                ids_below(data@, self.tiles@.len() as int),
            decreases rows - j,
        {
            let mut i: usize = 0;
            while i < cols
                invariant
                    self.wf(),
                    cols == self.cols,
                    rows == self.rows,
                    j < rows,
                    i <= cols,
                    data@.len() == j * cols + i,
                    ids_below(data@, self.tiles@.len() as int),
                decreases cols - i,
            {
                proof {
                    assert(i * self.tile_width <= cols * self.tile_width) by (nonlinear_arith)
                        requires
                            i < cols,
                    ;
                    assert(j * self.tile_height <= rows * self.tile_height) by (nonlinear_arith)
                        requires
                            j < rows,
                    ;
                    assert(j * cols + i < rows * cols) by (nonlinear_arith)
                        requires
                            j < rows,
                            i < cols,
                    ;
                }
                let x = i as u32 * self.tile_width;
                let y = j as u32 * self.tile_height;
                let tile = crop(&self.img, x, y, self.tile_width, self.tile_height);
                let id = self.tile_id(&tile);
                data.push(id);
                i = i + 1;
            }
            proof {
                assert((j + 1) * cols == j * cols + cols) by (nonlinear_arith);
            }
            j = j + 1;
        }
        Matrix { rows, cols, data }
    }

    /// The neighbor mapping of the tiled image: one neighborhood per distinct tile, holding the
    /// tiles seen next to it in each direction; symmetric by construction.
    pub fn compute_neighborhoods(&self) -> (r: Vec<Neighborhood>)
        requires
            self.wf(),
        ensures
            r@.len() == self.tile_views().len(),
            four_sided(table(r@)),
            closed_ids(table(r@)),
            symmetric(table(r@)),
    {
        neighborhoods_of(&self.id_matrix(), self.tiles.len())
    }

    /// The distinct tiles, indexed by tile id.
    pub fn tiles(&self) -> (r: &Vec<Pixels>)
        requires
            self.wf(),
        ensures
            r@.map_values(|p: Pixels| p@) == self.tile_views(),
            forall|t: int| 0 <= t < r@.len() ==> (#[trigger] r@[t]).wf(),
    {
        &self.tiles
    }
}

/// Tiled image data with its tile set: the adjacency model and the image of each tile.
#[derive(Debug)]
pub struct TIS {
    pub data: TID,
    pub tiles: Vec<Pixels>,
}

impl TIS {
    pub fn new(data: TID, tiles: Vec<Pixels>) -> (r: Self)
        ensures
            r.data == data,
            r.tiles@ == tiles@,
    {
        TIS { data, tiles }
    }

    /// Use the tile set to "decode" an id matrix into an image: each resolved cell shows its
    /// tile, each other cell stays transparent.
    pub fn decode(&self, image: IDMatrix) -> (r: Pixels)
        requires
            image.wf(),
            (image.cols as int) * (self.data.width as int) <= u32::MAX,
            (image.rows as int) * (self.data.height as int) <= u32::MAX,
            4 * ((image.cols as int) * (self.data.width as int)) * ((image.rows as int) * (self.data.height as int))
                <= usize::MAX,
            forall|q: int| 0 <= q < image.data@.len() && (#[trigger] image.data@[q]) is Some ==> image.data@[q]->0 < self.tiles@.len(),
            forall|t: int| 0 <= t < self.tiles@.len() ==> (#[trigger] self.tiles@[t]).wf(),
        ensures
            r.wf(),
            r.width == image.cols * self.data.width,
            r.height == image.rows * self.data.height,
    {
        let width: u32 = (image.cols() * self.data.width as usize) as u32;
        let height: u32 = (image.rows() * self.data.height as usize) as u32;
        proof {
            assert(4 * (width as int) * (height as int) == 4 * ((image.cols as int) * (self.data.width as int)) * ((
            image.rows as int) * (self.data.height as int)));
        }
        let mut img = Pixels::blank(width, height);
        let mut i: usize = 0;
        while i < image.cols()
            invariant
                image.wf(),
                img.wf(),
                img.width == width,
                img.height == height,
                (image.cols as int) * (self.data.width as int) <= u32::MAX,
                (image.rows as int) * (self.data.height as int) <= u32::MAX,
                forall|q: int| 0 <= q < image.data@.len() && (#[trigger] image.data@[q]) is Some ==> image.data@[q]->0 < self.tiles@.len(),
                forall|t: int| 0 <= t < self.tiles@.len() ==> (#[trigger] self.tiles@[t]).wf(),
            decreases image.cols - i,
        {
            let mut j: usize = 0;
            while j < image.rows()
                invariant
                    image.wf(),
                    img.wf(),
                    img.width == width,
                    img.height == height,
                    i < image.cols,
                    (image.cols as int) * (self.data.width as int) <= u32::MAX,
                    (image.rows as int) * (self.data.height as int) <= u32::MAX,
                    forall|q: int| 0 <= q < image.data@.len() && (#[trigger] image.data@[q]) is Some ==> image.data@[q]->0 < self.tiles@.len(),
                    forall|t: int| 0 <= t < self.tiles@.len() ==> (#[trigger] self.tiles@[t]).wf(),
                decreases image.rows - j,
            {
                proof {
                    assert(i * self.data.width <= image.cols * self.data.width) by (nonlinear_arith)
                        requires
                            i < image.cols,
                    ;
                    assert(j * self.data.height <= image.rows * self.data.height) by (nonlinear_arith)
                        requires
                            j < image.rows,
                    ;
                    lemma_offset_in_bounds(image.cols as int, image.rows as int, i as int, j as int);
                }
                let x = (i * self.data.width as usize) as u32;
                let y = (j * self.data.height as usize) as u32;
                if let Some(id) = image.at(i, j) {
                    overlay(&mut img, &self.tiles[id], x as i64, y as i64);
                }
                j = j + 1;
            }
            i = i + 1;
        }
        img
    }
}

} // verus!
