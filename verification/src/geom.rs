//! Points, directions and axis-aligned rectangles on the mine's grid.
//!
//! The grid's origin is the bottom-left cell: `y` grows upwards, so a rock
//! falls towards smaller `y` and the water rises from `y == 0`.
use vstd::prelude::*;

verus! {

/// A cell coordinate.
pub type Coord = i16;

/// A rectangle's extent along one axis.
pub type Length = u16;

/// A count of cells, turns or lambdas.
pub type Area = u32;

#[derive(Clone, Copy, PartialEq, Eq, Structural, Debug)]
pub struct Point {
    pub x: Coord,
    pub y: Coord,
}

/// The cells `x <= px < x + w`, `y <= py < y + h`.
#[derive(Clone, Copy, PartialEq, Eq, Structural, Debug)]
pub struct Rect {
    pub x: Coord,
    pub y: Coord,
    pub w: Length,
    pub h: Length,
}

#[derive(Clone, Copy, PartialEq, Eq, Structural, Debug)]
pub enum Dir {
    Left,
    Right,
    Up,
    Down,
}

/// The neighbour of `p` in direction `d`, computed over the integers.
pub open spec fn step_x(p: Point, d: Dir) -> int {
    match d {
        Dir::Left => p.x - 1,
        Dir::Right => p.x + 1,
        _ => p.x as int,
    }
}

pub open spec fn step_y(p: Point, d: Dir) -> int {
    match d {
        Dir::Up => p.y + 1,
        Dir::Down => p.y - 1,
        _ => p.y as int,
    }
}

pub open spec fn fits_coord(v: int) -> bool {
    i16::MIN <= v <= i16::MAX
}

/// `p` has a neighbour in direction `d` that is a representable point.
pub open spec fn can_step(p: Point, d: Dir) -> bool {
    fits_coord(step_x(p, d)) && fits_coord(step_y(p, d))
}

pub open spec fn spec_step(p: Point, d: Dir) -> Point {
    Point { x: step_x(p, d) as i16, y: step_y(p, d) as i16 }
}

impl Point {
    /// The neighbouring cell in direction `d`; a coordinate that leaves the
    /// `Coord` range wraps around.
    pub fn step(self, d: Dir) -> (r: Point)
        ensures
            r == spec_step(self, d),
            can_step(self, d) ==> r.x == step_x(self, d) && r.y == step_y(self, d),
    {
        match d {
            Dir::Left => Point { x: (self.x as i32 - 1) as i16, y: self.y },
            Dir::Right => Point { x: (self.x as i32 + 1) as i16, y: self.y },
            Dir::Up => Point { x: self.x, y: (self.y as i32 + 1) as i16 },
            Dir::Down => Point { x: self.x, y: (self.y as i32 - 1) as i16 },
        }
    }

    /// The one-cell rectangle holding this point.
    pub fn bbox(self) -> (r: Rect)
        ensures
            r == (Rect { x: self.x, y: self.y, w: 1, h: 1 }),
    {
        Rect { x: self.x, y: self.y, w: 1, h: 1 }
    }
}

impl Rect {
    /// The rectangle's far edges and extents are representable coordinates.
    pub open spec fn fits(self) -> bool {
        &&& self.w <= i16::MAX
        &&& self.h <= i16::MAX
        &&& self.x + self.w <= i16::MAX
        &&& self.y + self.h <= i16::MAX
    }

    pub open spec fn spec_contains(self, p: Point) -> bool {
        &&& self.x <= p.x < self.x + self.w
        &&& self.y <= p.y < self.y + self.h
    }

    /// `self` lies inside `other`.
    pub open spec fn within(self, other: Rect) -> bool {
        &&& other.x <= self.x
        &&& other.y <= self.y
        &&& self.x + self.w <= other.x + other.w
        &&& self.y + self.h <= other.y + other.h
    }

/// The right edge, in `Coord` arithmetic: the extent is taken as a
    /// `Coord` and the sum wraps around.
    pub open spec fn right(self) -> i16 {
        (self.x + (self.w as i16)) as i16
    }

    /// The top edge, in `Coord` arithmetic.
    pub open spec fn top(self) -> i16 {
        (self.y + (self.h as i16)) as i16
    }

    /// The smallest rectangle that covers both, where both fit.
    pub open spec fn spec_union(self, o: Rect) -> Rect {
        let xl = if self.x <= o.x { self.x } else { o.x };
        let yl = if self.y <= o.y { self.y } else { o.y };
        let xh = if self.right() >= o.right() { self.right() } else { o.right() };
        let yh = if self.top() >= o.top() { self.top() } else { o.top() };
        Rect { x: xl, y: yl, w: (xh - xl) as u16, h: (yh - yl) as u16 }
    }

    /// The overlap of both, where both fit and overlap.
    pub open spec fn spec_intersect(self, o: Rect) -> Rect {
        let xl = if self.x >= o.x { self.x } else { o.x };
        let yl = if self.y >= o.y { self.y } else { o.y };
        let xh = if self.right() <= o.right() { self.right() } else { o.right() };
        let yh = if self.top() <= o.top() { self.top() } else { o.top() };
        Rect { x: xl, y: yl, w: (xh - xl) as u16, h: (yh - yl) as u16 }
    }

    pub open spec fn spec_grow(self, t: int, r: int, b: int, l: int) -> Rect {
        Rect {
            x: (self.x - l) as i16,
            y: (self.y - b) as i16,
            w: (self.w + (l + r)) as u16,
            h: (self.h + (t + b)) as u16,
        }
    }

    /// The number of cells.
    pub fn area(&self) -> (r: Area)
        ensures
            r == self.w * self.h,
    {
        assert(self.w * self.h <= 65535 * 65535) by (nonlinear_arith)
            requires
                self.w <= 65535,
                self.h <= 65535,
        ;
        (self.w as Area) * (self.h as Area)
    }

    /// The offset of `p` from the rectangle's corner, where `p` lies inside
    /// it: the offsets are taken in `Coord` arithmetic, and a negative one
    /// counts as a large extent.
    pub fn trans(&self, p: Point) -> (r: Option<Point>)
        ensures
            ({
                let qx = (p.x - self.x) as i16;
                let qy = (p.y - self.y) as i16;
                r == if (qx as u16) < self.w && (qy as u16) < self.h {
                    Some(Point { x: qx, y: qy })
                } else {
                    None
                }
            }),
            self.fits() ==> (r is Some <==> self.spec_contains(p)),
    {
        let q = Point {
            x: (p.x as i32 - self.x as i32) as i16,
            y: (p.y as i32 - self.y as i32) as i16,
        };
        proof {
            let (px, sx, w, py, sy, h) = (p.x, self.x, self.w, p.y, self.y, self.h);
            if self.fits() {
                assert((((px as i32 - sx as i32) as i16) as u16) < w <==> (sx as i32 <= px as i32
                    && (px as i32) < sx as i32 + w as i32)) by (bit_vector)
                    requires
                        w <= 32767u16,
                        sx as i32 + w as i32 <= 32767i32,
                ;
                assert((((py as i32 - sy as i32) as i16) as u16) < h <==> (sy as i32 <= py as i32
                    && (py as i32) < sy as i32 + h as i32)) by (bit_vector)
                    requires
                        h <= 32767u16,
                        sy as i32 + h as i32 <= 32767i32,
                ;
            }
        }
        if (q.x as u16) < self.w && (q.y as u16) < self.h {
            Some(q)
        } else {
            None
        }
    }

    pub fn contains(&self, p: Point) -> (r: bool)
        ensures
            r == self.spec_contains(p),
    {
        let x: i32 = p.x as i32;
        let y: i32 = p.y as i32;
        self.x as i32 <= x && x < self.x as i32 + self.w as i32 && self.y as i32 <= y && y
            < self.y as i32 + self.h as i32
    }

    /// The smallest rectangle that covers both.
    pub fn union(&self, o: &Rect) -> (r: Rect)
        ensures
            r == self.spec_union(*o),
    {
        let xl: i16 = if self.x <= o.x { self.x } else { o.x };
        let yl: i16 = if self.y <= o.y { self.y } else { o.y };
        let sx: i16 = (self.x as i32 + (self.w as i16) as i32) as i16;
        let ox: i16 = (o.x as i32 + (o.w as i16) as i32) as i16;
        let sy: i16 = (self.y as i32 + (self.h as i16) as i32) as i16;
        let oy: i16 = (o.y as i32 + (o.h as i16) as i32) as i16;
        let xh: i16 = if sx >= ox { sx } else { ox };
        let yh: i16 = if sy >= oy { sy } else { oy };
        Rect { x: xl, y: yl, w: (xh as i32 - xl as i32) as u16, h: (yh as i32 - yl as i32) as u16 }
    }

    /// The overlap of both; where they do not overlap, an extent wraps around
    /// as the unsigned cast of a negative difference.
    pub fn intersect(&self, o: &Rect) -> (r: Rect)
        ensures
            r == self.spec_intersect(*o),
    {
        let xl: i16 = if self.x >= o.x { self.x } else { o.x };
        let yl: i16 = if self.y >= o.y { self.y } else { o.y };
        let sx: i16 = (self.x as i32 + (self.w as i16) as i32) as i16;
        let ox: i16 = (o.x as i32 + (o.w as i16) as i32) as i16;
        let sy: i16 = (self.y as i32 + (self.h as i16) as i32) as i16;
        let oy: i16 = (o.y as i32 + (o.h as i16) as i32) as i16;
        let xh: i16 = if sx <= ox { sx } else { ox };
        let yh: i16 = if sy <= oy { sy } else { oy };
        Rect { x: xl, y: yl, w: (xh as i32 - xl as i32) as u16, h: (yh as i32 - yl as i32) as u16 }
    }

    /// Pushes the edges outwards: `t` cells at the top, `r` to the right,
    /// `b` at the bottom and `l` to the left, in wrapping arithmetic.
    pub fn grow(&self, t: Coord, r: Coord, b: Coord, l: Coord) -> (res: Rect)
        ensures
            res == self.spec_grow(t as int, r as int, b as int, l as int),
            fits_coord(self.x - l) ==> res.x == self.x - l,
            fits_coord(self.y - b) ==> res.y == self.y - b,
            0 <= self.w + l + r <= u16::MAX ==> res.w == self.w + l + r,
            0 <= self.h + t + b <= u16::MAX ==> res.h == self.h + t + b,
    {
        Rect {
            x: (self.x as i32 - l as i32) as i16,
            y: (self.y as i32 - b as i32) as i16,
            w: (self.w as i32 + (l as i32 + r as i32)) as u16,
            h: (self.h as i32 + (t as i32 + b as i32)) as u16,
        }
    }
}

/// The one-cell rectangle at `p`.
pub open spec fn pbox(p: Point) -> Rect {
    Rect { x: p.x, y: p.y, w: 1, h: 1 }
}

/// The point `n` cells right of the left edge of `r`, in row `y`.
pub open spec fn row_point(r: Rect, y: int, n: int) -> Point {
    Point { x: (r.x + n) as i16, y: y as i16 }
}

/// What `f` gives for the first `n` cells of row `y` of `r`, left to right,
/// where it gives something.
pub open spec fn row_scan<T>(f: spec_fn(Point) -> Option<T>, r: Rect, y: int, n: int) -> Seq<T>
    decreases n,
{
    if n <= 0 {
        Seq::empty()
    } else {
        let rest = row_scan(f, r, y, n - 1);
        match f(row_point(r, y, n - 1)) {
            Some(v) => rest.push(v),
            None => rest,
        }
    }
}

/// What `f` gives for the cells of the bottom `k` rows of `r`, row by row from
/// the bottom and left to right in each row, where it gives something.
pub open spec fn rect_scan<T>(f: spec_fn(Point) -> Option<T>, r: Rect, k: int) -> Seq<T>
    decreases k,
{
    if k <= 0 {
        Seq::empty()
    } else {
        rect_scan(f, r, k - 1) + row_scan(f, r, r.y + k - 1, r.w as int)
    }
}

/// `rect_scan` of the bottom `k` rows followed by the first `n` cells of the
/// next row.
pub open spec fn scan_prefix<T>(f: spec_fn(Point) -> Option<T>, r: Rect, k: int, n: int) -> Seq<T> {
    rect_scan(f, r, k) + row_scan(f, r, r.y + k, n)
}

/// One more cell of a scan.
pub proof fn lemma_scan_next<T>(f: spec_fn(Point) -> Option<T>, r: Rect, k: int, n: int)
    requires
        0 <= k,
        0 <= n,
    ensures
        scan_prefix(f, r, k, n + 1) == match f(row_point(r, r.y + k, n)) {
            Some(v) => scan_prefix(f, r, k, n).push(v),
            None => scan_prefix(f, r, k, n),
        },
{
    let a = rect_scan(f, r, k);
    let b = row_scan(f, r, r.y + k, n);
    match f(row_point(r, r.y + k, n)) {
        Some(v) => {
            assert(a + b.push(v) =~= (a + b).push(v));
        },
        None => {},
    }
}

/// A finished row starts the next.
pub proof fn lemma_scan_row_done<T>(f: spec_fn(Point) -> Option<T>, r: Rect, k: int)
    requires
        0 <= k,
    ensures
        scan_prefix(f, r, k, r.w as int) == scan_prefix(f, r, k + 1, 0),
        scan_prefix(f, r, k + 1, 0) == rect_scan(f, r, k + 1),
{
    assert(rect_scan(f, r, k + 1) + Seq::<T>::empty() =~= rect_scan(f, r, k + 1));
}

/// Scans start empty.
pub proof fn lemma_scan_start<T>(f: spec_fn(Point) -> Option<T>, r: Rect)
    ensures
        scan_prefix(f, r, 0, 0) == Seq::<T>::empty(),
{
    assert(Seq::<T>::empty() + Seq::<T>::empty() =~= Seq::<T>::empty());
}

/// Every value of a row scan is what `f` gives at a cell of that row.
pub proof fn lemma_row_scan_from<T>(f: spec_fn(Point) -> Option<T>, r: Rect, y: int, n: int, i: int)
    requires
        0 <= i < row_scan(f, r, y, n).len(),
    ensures
        exists|j: int| 0 <= j < n && #[trigger] f(row_point(r, y, j)) == Some(row_scan(f, r, y, n)[i]),
    decreases n,
{
    if n > 0 {
        let rest = row_scan(f, r, y, n - 1);
        if i < rest.len() {
            lemma_row_scan_from(f, r, y, n - 1, i);
            let j = choose|j: int| 0 <= j < n - 1 && #[trigger] f(row_point(r, y, j)) == Some(row_scan(f, r, y, n - 1)[i]);
            assert(f(row_point(r, y, j)) == Some(row_scan(f, r, y, n)[i]));
        } else {
            assert(f(row_point(r, y, n - 1)) == Some(row_scan(f, r, y, n)[i]));
        }
    }
}

/// Every value of a rectangle scan is what `f` gives at a cell of the rectangle.
pub proof fn lemma_rect_scan_from<T>(f: spec_fn(Point) -> Option<T>, r: Rect, k: int, i: int)
    requires
        0 <= k <= r.h,
        r.fits(),
        0 <= i < rect_scan(f, r, k).len(),
    ensures
        exists|p: Point| r.spec_contains(p) && #[trigger] f(p) == Some(rect_scan(f, r, k)[i]),
    decreases k,
{
    let a = rect_scan(f, r, k - 1);
    let b = row_scan(f, r, r.y + k - 1, r.w as int);
    if i < a.len() {
        lemma_rect_scan_from(f, r, k - 1, i);
        let p = choose|p: Point| r.spec_contains(p) && #[trigger] f(p) == Some(rect_scan(f, r, k - 1)[i]);
        assert(f(p) == Some(rect_scan(f, r, k)[i]));
    } else {
        lemma_row_scan_from(f, r, r.y + k - 1, r.w as int, i - a.len());
        let j = choose|j: int| 0 <= j < r.w && #[trigger] f(row_point(r, r.y + k - 1, j)) == Some(b[i - a.len()]);
        let p = row_point(r, r.y + k - 1, j);
        assert(r.spec_contains(p));
        assert(f(p) == Some(rect_scan(f, r, k)[i]));
    }
}

/// A rectangle inside a representable one is representable.
pub proof fn lemma_within_fits(a: Rect, b: Rect)
    requires
        a.within(b),
        b.fits(),
    ensures
        a.fits(),
{
}

/// The union of two rectangles inside a third is inside it.
pub proof fn lemma_union_within(a: Rect, b: Rect, c: Rect)
    requires
        a.within(c),
        b.within(c),
        c.fits(),
    ensures
        a.spec_union(b).within(c),
        a.spec_union(b).fits(),
{
}

/// A cell's rectangle is inside a rectangle that holds the cell.
pub proof fn lemma_pbox_within(p: Point, c: Rect)
    requires
        c.spec_contains(p),
    ensures
        pbox(p).within(c),
{
}

/// The union of two representable rectangles covers both, and a cell of
/// either is a cell of the union.
pub proof fn lemma_union_covers(a: Rect, b: Rect, p: Point)
    requires
        a.fits(),
        b.fits(),
    ensures
        a.within(a.spec_union(b)),
        b.within(a.spec_union(b)),
        a.spec_contains(p) || b.spec_contains(p) ==> a.spec_union(b).spec_contains(p),
{
}

/// Where two representable rectangles overlap or touch, their intersection
/// lies in both and holds exactly the cells that both hold.
pub proof fn lemma_intersect_cells(a: Rect, b: Rect, p: Point)
    requires
        a.fits(),
        b.fits(),
        a.x <= b.x + b.w,
        b.x <= a.x + a.w,
        a.y <= b.y + b.h,
        b.y <= a.y + a.h,
    ensures
        a.spec_intersect(b).within(a),
        a.spec_intersect(b).within(b),
        a.spec_intersect(b).spec_contains(p) <==> a.spec_contains(p) && b.spec_contains(p),
{
}

/// A row scan gives what `f` gives at each cell of the row where it gives
/// something.
pub proof fn lemma_row_scan_complete<T>(f: spec_fn(Point) -> Option<T>, r: Rect, y: int, n: int, j: int)
    requires
        0 <= j < n,
        f(row_point(r, y, j)) is Some,
    ensures
        exists|i: int|
            0 <= i < row_scan(f, r, y, n).len() && #[trigger] row_scan(f, r, y, n)[i] == f(
                row_point(r, y, j),
            )->0,
    decreases n,
{
    let rest = row_scan(f, r, y, n - 1);
    if j == n - 1 {
        assert(row_scan(f, r, y, n)[rest.len() as int] == f(row_point(r, y, j))->0);
    } else {
        lemma_row_scan_complete(f, r, y, n - 1, j);
        let i = choose|i: int| 0 <= i < rest.len() && #[trigger] rest[i] == f(row_point(r, y, j))->0;
        assert(row_scan(f, r, y, n)[i] == rest[i]);
    }
}

/// A scan of the bottom `k` rows of a representable rectangle gives what
/// `f` gives at each of their cells where it gives something.
pub proof fn lemma_rect_scan_complete<T>(f: spec_fn(Point) -> Option<T>, r: Rect, k: int, p: Point)
    requires
        r.fits(),
        0 <= k <= r.h,
        r.x <= p.x < r.x + r.w,
        r.y <= p.y < r.y + k,
        f(p) is Some,
    ensures
        exists|i: int| 0 <= i < rect_scan(f, r, k).len() && #[trigger] rect_scan(f, r, k)[i] == f(p)->0,
    decreases k,
{
    let a = rect_scan(f, r, k - 1);
    let b = row_scan(f, r, r.y + k - 1, r.w as int);
    if p.y == r.y + k - 1 {
        let j = p.x - r.x;
        assert(row_point(r, r.y + k - 1, j) == p);
        lemma_row_scan_complete(f, r, r.y + k - 1, r.w as int, j);
        let i = choose|i: int| 0 <= i < b.len() && #[trigger] b[i] == f(p)->0;
        assert(rect_scan(f, r, k)[a.len() + i] == b[i]);
    } else {
        lemma_rect_scan_complete(f, r, k - 1, p);
        let i = choose|i: int| 0 <= i < a.len() && #[trigger] a[i] == f(p)->0;
        assert(rect_scan(f, r, k)[i] == a[i]);
    }
}

/// The right edge of a rectangle grown by one cell on each side, in `Coord`
/// arithmetic, is one past its right edge, even where the grown extent no
/// longer fits a `Coord`.
proof fn lemma_grown_right(x: i16, w: u16)
    requires
        0 <= x,
        x + w <= 32766,
    ensures
        (((x - 1) as i16) + ((((w + 2) as u16) as i16))) as i16 == x + w + 1,
{
    assert((((x - 1) as i16) + ((((w + 2) as u16) as i16))) as i16 == x + w + 1) by (bit_vector)
        requires
            0 <= x,
            x + w <= 32766,
    ;
}

/// Inside a rectangle at the origin of at most 32766 by 32766 cells, a
/// rectangle `r` grown by one cell to the left, the right and the top, then
/// cut to the outer one, lies in the outer one and holds exactly its cells
/// that lie in `r` grown.
pub proof fn lemma_grown_cut(r: Rect, b: Rect)
    requires
        r.within(b),
        b.x == 0,
        b.y == 0,
        b.w <= 32766,
        b.h <= 32766,
    ensures
        r.spec_grow(1, 1, 0, 1).spec_intersect(b).within(b),
        r.spec_grow(1, 1, 0, 1).spec_intersect(b).fits(),
        forall|p: Point|
            #[trigger] r.spec_grow(1, 1, 0, 1).spec_intersect(b).spec_contains(p) <==> (r.x - 1
                <= p.x <= r.x + r.w && r.y <= p.y <= r.y + r.h && b.spec_contains(p)),
{
    let g = r.spec_grow(1, 1, 0, 1);
    assert(g.x == r.x - 1);
    assert(g.y == r.y);
    assert(g.h == r.h + 1);
    lemma_grown_right(r.x, r.w);
    assert(g.right() == r.x + r.w + 1);
    assert(g.top() == r.y + r.h + 1);
    assert(b.right() == b.w);
    assert(b.top() == b.h);
}

} // verus!
