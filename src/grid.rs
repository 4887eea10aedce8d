use vstd::prelude::*;

verus! {

/// A grid coordinate; also the top-front-left vertex of the unit cube of the
/// tile that stands there.
#[derive(Clone, Copy, PartialEq, Eq, Structural, Debug)]
pub struct Point {
    pub x: i32,
    pub y: i32,
    pub z: i32,
}

/// What the grid needs to know of a tile: whether it is solid.
///
/// `spec_collides` is the fact that `collides` reports; an implementation
/// written outside verified code provides both, with the same answer.
pub trait Tile {
    /// Whether this tile is solid, as a mathematical fact about the value.
    spec fn spec_collides(&self) -> bool;

    fn collides(&self) -> (r: bool)
        ensures
            r == self.spec_collides(),
    ;
}

/// Row-major position of `(x, y, z)` in a grid `w` wide and `h` high.
pub open spec fn linear_index(w: int, h: int, x: int, y: int, z: int) -> int {
    z * (w * h) + y * w + x
}

/// Two points are face-adjacent: they differ by one in exactly one coordinate.
pub open spec fn adjacent(p: Point, q: Point) -> bool {
    let dx = q.x - p.x;
    let dy = q.y - p.y;
    let dz = q.z - p.z;
    ||| (dx == 1 || dx == -1) && dy == 0 && dz == 0
    ||| dx == 0 && (dy == 1 || dy == -1) && dz == 0
    ||| dx == 0 && dy == 0 && (dz == 1 || dz == -1)
}

pub proof fn lemma_index_bounds(w: int, h: int, d: int, x: int, y: int, z: int)
    requires
        0 <= x < w,
        0 <= y < h,
        0 <= z < d,
    ensures
        0 <= y * w <= y * w + x,
        0 <= w * h <= w * h * d,
        0 <= z * (w * h) <= linear_index(w, h, x, y, z),
        linear_index(w, h, x, y, z) < w * h * d,
{
    let wh = w * h;
    assert(0 <= y * w && y * w + x < wh) by (nonlinear_arith)
        requires
            0 <= x < w,
            0 <= y < h,
            wh == w * h,
    ;
    assert(0 <= z * wh && z * wh + wh <= wh * d && wh <= wh * d) by (nonlinear_arith)
        requires
            0 <= z < d,
            0 <= wh,
    ;
}

/// Distinct in-bounds points have distinct positions.
pub proof fn lemma_index_injective(w: int, h: int, d: int, p: Point, q: Point)
    requires
        0 <= p.x < w,
        0 <= p.y < h,
        0 <= p.z < d,
        0 <= q.x < w,
        0 <= q.y < h,
        0 <= q.z < d,
        linear_index(w, h, p.x as int, p.y as int, p.z as int) == linear_index(
            w,
            h,
            q.x as int,
            q.y as int,
            q.z as int,
        ),
    ensures
        p == q,
{
    let (px, py, pz) = (p.x as int, p.y as int, p.z as int);
    let (qx, qy, qz) = (q.x as int, q.y as int, q.z as int);
    assert(pz == qz) by {
        if pz < qz {
            assert(pz * (w * h) + py * w + px < qz * (w * h)) by (nonlinear_arith)
                requires
                    0 <= px < w,
                    0 <= py < h,
                    pz < qz,
            ;
            assert(0 <= qy * w) by (nonlinear_arith)
                requires
                    0 <= qy,
                    0 <= w,
            ;
        } else if qz < pz {
            assert(qz * (w * h) + qy * w + qx < pz * (w * h)) by (nonlinear_arith)
                requires
                    0 <= qx < w,
                    0 <= qy < h,
                    qz < pz,
            ;
            assert(0 <= py * w) by (nonlinear_arith)
                requires
                    0 <= py,
                    0 <= w,
            ;
        }
    }
    assert(py == qy) by {
        if py < qy {
            assert(py * w + px < qy * w) by (nonlinear_arith)
                requires
                    0 <= px < w,
                    py < qy,
            ;
        } else if qy < py {
            assert(qy * w + qx < py * w) by (nonlinear_arith)
                requires
                    0 <= qx < w,
                    qy < py,
            ;
        }
    }
}

/// A `width` x `height` x `depth` grid of tiles, stored row-major: `x` runs
/// fastest, then `y`, then `z`.
#[derive(Clone, Debug)]
pub struct TileMap<T> {
    pub width: i32,
    pub height: i32,
    pub depth: i32,
    pub tiles: Vec<T>,
}

impl<T> TileMap<T> {
    /// Number of tiles the extents call for.
    pub open spec fn volume(&self) -> int {
        self.width * self.height * self.depth
    }

    /// Non-negative extents and exactly one stored tile per coordinate.
    pub open spec fn wf(&self) -> bool {
        &&& self.width >= 0
        &&& self.height >= 0
        &&& self.depth >= 0
        &&& self.tiles@.len() == self.volume()
    }

    pub open spec fn spec_in_bounds(&self, p: Point) -> bool {
        &&& 0 <= p.x < self.width
        &&& 0 <= p.y < self.height
        &&& 0 <= p.z < self.depth
    }

    /// Position of `p` in `tiles`.
    pub open spec fn index_of(&self, p: Point) -> int {
        linear_index(self.width as int, self.height as int, p.x as int, p.y as int, p.z as int)
    }

    /// Builds a grid, refusing negative extents and a tile buffer whose
    /// length is not `width * height * depth`.
    pub fn new(width: i32, height: i32, depth: i32, tiles: Vec<T>) -> (r: Option<TileMap<T>>)
        ensures
            match r {
                Some(m) => m.wf() && m.width == width && m.height == height && m.depth == depth
                    && m.tiles == tiles,
                None => !(width >= 0 && height >= 0 && depth >= 0 && tiles@.len() == width
                    * height * depth),
            },
    {
        if width < 0 || height < 0 || depth < 0 {
            return None;
        }
        let (w, h, d) = (width as u128, height as u128, depth as u128);
        assert(w * h <= 0x4000_0000_0000_0000 && w * h * d <= 0x2000_0000_0000_0000_0000_0000)
            by (nonlinear_arith)
            requires
                w < 0x8000_0000,
                h < 0x8000_0000,
                d < 0x8000_0000,
        ;
        let volume = w * h * d;
        if volume == tiles.len() as u128 {
            Some(TileMap { width, height, depth, tiles })
        } else {
            None
        }
    }

    /// Whether `p` names a tile of this grid.
    pub fn in_bounds(&self, p: &Point) -> (r: bool)
        ensures
            r == self.spec_in_bounds(*p),
    {
        0 <= p.x && p.x < self.width && 0 <= p.y && p.y < self.height && 0 <= p.z && p.z
            < self.depth
    }

    /// Position of an in-bounds point in `tiles`.
    pub fn linear_index(&self, p: &Point) -> (r: usize)
        requires
            self.wf(),
            self.spec_in_bounds(*p),
        ensures
            r == self.index_of(*p),
            r < self.tiles@.len(),
    {
        proof {
            lemma_index_bounds(
                self.width as int,
                self.height as int,
                self.depth as int,
                p.x as int,
                p.y as int,
                p.z as int,
            );
        }
        let w = self.width as usize;
        let h = self.height as usize;
        let n = self.tiles.len();
        assert(w * h <= n && p.z as usize * (w * h) <= n);
        let wh = w * h;
        let plane = p.z as usize * wh;
        let row = p.y as usize * w;
        plane + row + p.x as usize
    }

    /// The tile at an in-bounds point.
    pub fn tile_at(&self, point: &Point) -> (r: &T)
        requires
            self.wf(),
            self.spec_in_bounds(*point),
        ensures
            *r == self.tiles@[self.index_of(*point)],
    {
        let i = self.linear_index(point);
        &self.tiles[i]
    }
}

impl<T: Tile> TileMap<T> {
    /// `p` is in bounds and its tile collides.
    pub open spec fn solid(&self, p: Point) -> bool {
        self.spec_in_bounds(p) && self.tiles@[self.index_of(p)].spec_collides()
    }
}

} // verus!
