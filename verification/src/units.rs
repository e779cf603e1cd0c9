use vstd::prelude::*;

verus! {


/// Marker for coordinates measured in tiles (one tile is 8 pixels).
#[derive(Clone, Copy, Debug, PartialEq, Eq)]
pub struct TileSpace;

/// Marker for pixel coordinates relative to a room's origin.
#[derive(Clone, Copy, Debug, PartialEq, Eq)]
pub struct RoomSpace;

/// Marker for pixel coordinates relative to the map's origin.
#[derive(Clone, Copy, Debug, PartialEq, Eq)]
pub struct MapSpace;

/// Marker for coordinates on the screen.
#[derive(Clone, Copy, Debug, PartialEq, Eq)]
pub struct ScreenSpace;

/// A coordinate space: a marker type with one value.
pub trait Space: Copy {
    fn unit() -> Self;
}

impl Space for TileSpace {
    fn unit() -> Self { TileSpace }
}

impl Space for RoomSpace {
    fn unit() -> Self { RoomSpace }
}

impl Space for MapSpace {
    fn unit() -> Self { MapSpace }
}

impl Space for ScreenSpace {
    fn unit() -> Self { ScreenSpace }
}

/// A point with integer coordinates in the space `U`.
#[derive(Clone, Copy, Debug)]
pub struct Point2D<U: Space> {
    pub x: i32,
    pub y: i32,
    pub unit: U,
}

/// A displacement with integer components in the space `U`.
#[derive(Clone, Copy, Debug)]
pub struct Vector2D<U: Space> {
    pub x: i32,
    pub y: i32,
    pub unit: U,
}

/// A width and a height in the space `U`.
#[derive(Clone, Copy, Debug)]
pub struct Size2D<U: Space> {
    pub width: i32,
    pub height: i32,
    pub unit: U,
}

/// An axis-aligned rectangle given by its origin (smallest corner) and size.
#[derive(Clone, Copy, Debug)]
pub struct Rect<U: Space> {
    pub origin: Point2D<U>,
    pub size: Size2D<U>,
}

pub type TileRect = Rect<TileSpace>;
pub type TilePoint = Point2D<TileSpace>;
pub type TileSize = Size2D<TileSpace>;
pub type TileVector = Vector2D<TileSpace>;

pub type RoomRect = Rect<RoomSpace>;
pub type RoomPoint = Point2D<RoomSpace>;
pub type RoomSize = Size2D<RoomSpace>;
pub type RoomVector = Vector2D<RoomSpace>;

pub type MapRectStrict = Rect<MapSpace>;
pub type MapPointStrict = Point2D<MapSpace>;
pub type MapSizeStrict = Size2D<MapSpace>;
pub type MapVectorStrict = Vector2D<MapSpace>;

/// Rust's integer division, which rounds toward zero.
pub open spec fn div_toward_zero(a: int, b: int) -> int {
    if a >= 0 { a / b } else { -((-a) / b) }
}

/// Whether `v` is a value of `i32`.
pub open spec fn fits_i32(v: int) -> bool {
    i32::MIN <= v <= i32::MAX
}

impl<U: Space> Point2D<U> {
    pub fn new(x: i32, y: i32) -> (r: Self)
        ensures r.x == x, r.y == y,
    {
        Point2D { x, y, unit: U::unit() }
    }

    pub fn zero() -> (r: Self)
        ensures r.x == 0, r.y == 0,
    {
        Point2D { x: 0, y: 0, unit: U::unit() }
    }

    /// The point moved by `v`.
    pub fn add_vector(self, v: Vector2D<U>) -> (r: Self)
        requires fits_i32(self.x + v.x), fits_i32(self.y + v.y),
        ensures r.x == self.x + v.x, r.y == self.y + v.y,
    {
        Point2D::new(self.x + v.x, self.y + v.y)
    }

    /// The displacement from `other` to `self`.
    pub fn sub_point(self, other: Self) -> (r: Vector2D<U>)
        requires fits_i32(self.x - other.x), fits_i32(self.y - other.y),
        ensures r.x == self.x - other.x, r.y == self.y - other.y,
    {
        Vector2D::new(self.x - other.x, self.y - other.y)
    }

    /// The component-wise minimum of two points.
    pub fn min(self, other: Self) -> (r: Self)
        ensures
            r.x == (if self.x <= other.x { self.x } else { other.x }),
            r.y == (if self.y <= other.y { self.y } else { other.y }),
    {
        Point2D::new(
            if self.x <= other.x { self.x } else { other.x },
            if self.y <= other.y { self.y } else { other.y },
        )
    }

    /// The component-wise maximum of two points.
    pub fn max(self, other: Self) -> (r: Self)
        ensures
            r.x == (if self.x >= other.x { self.x } else { other.x }),
            r.y == (if self.y >= other.y { self.y } else { other.y }),
    {
        Point2D::new(
            if self.x >= other.x { self.x } else { other.x },
            if self.y >= other.y { self.y } else { other.y },
        )
    }

    /// The vector from the origin to this point.
    pub fn to_vector(self) -> (r: Vector2D<U>)
        ensures r.x == self.x, r.y == self.y,
    {
        Vector2D::new(self.x, self.y)
    }

    /// The same coordinates in another space.
    pub fn cast_unit<V: Space>(self) -> (r: Point2D<V>)
        ensures r.x == self.x, r.y == self.y,
    {
        Point2D::new(self.x, self.y)
    }

    /// Whether two points have the same coordinates.
    pub fn same(&self, other: &Self) -> (r: bool)
        ensures r == (self.x == other.x && self.y == other.y),
    {
        self.x == other.x && self.y == other.y
    }
}

impl<U: Space> Vector2D<U> {
    pub fn new(x: i32, y: i32) -> (r: Self)
        ensures r.x == x, r.y == y,
    {
        Vector2D { x, y, unit: U::unit() }
    }

    /// The point at this displacement from the origin.
    pub fn to_point(self) -> (r: Point2D<U>)
        ensures r.x == self.x, r.y == self.y,
    {
        Point2D::new(self.x, self.y)
    }

    /// The same components in another space.
    pub fn cast_unit<V: Space>(self) -> (r: Vector2D<V>)
        ensures r.x == self.x, r.y == self.y,
    {
        Vector2D::new(self.x, self.y)
    }
}

impl<U: Space> Size2D<U> {
    pub fn new(width: i32, height: i32) -> (r: Self)
        ensures r.width == width, r.height == height,
    {
        Size2D { width, height, unit: U::unit() }
    }

    pub fn zero() -> (r: Self)
        ensures r.width == 0, r.height == 0,
    {
        Size2D { width: 0, height: 0, unit: U::unit() }
    }

    /// The same dimensions in another space.
    pub fn cast_unit<V: Space>(self) -> (r: Size2D<V>)
        ensures r.width == self.width, r.height == self.height,
    {
        Size2D::new(self.width, self.height)
    }
}

/// The largest x of a rectangle (exclusive), as a mathematical integer.
pub open spec fn spec_max_x<U: Space>(r: Rect<U>) -> int {
    r.origin.x + r.size.width
}

/// The largest y of a rectangle (exclusive), as a mathematical integer.
pub open spec fn spec_max_y<U: Space>(r: Rect<U>) -> int {
    r.origin.y + r.size.height
}

/// Whether the far corner of a rectangle can be computed in `i32`.
pub open spec fn rect_corner_fits<U: Space>(r: Rect<U>) -> bool {
    fits_i32(spec_max_x(r)) && fits_i32(spec_max_y(r))
}

/// Whether two rectangles overlap: each starts before the other ends, on both axes.
pub open spec fn spec_intersects<U: Space>(a: Rect<U>, b: Rect<U>) -> bool {
    &&& a.origin.x < spec_max_x(b)
    &&& b.origin.x < spec_max_x(a)
    &&& a.origin.y < spec_max_y(b)
    &&& b.origin.y < spec_max_y(a)
}

/// Whether a point lies inside a rectangle (origin inclusive, far side exclusive).
pub open spec fn spec_contains<U: Space>(r: Rect<U>, p: Point2D<U>) -> bool {
    r.origin.x <= p.x < spec_max_x(r) && r.origin.y <= p.y < spec_max_y(r)
}

impl<U: Space> Rect<U> {
    pub fn new(origin: Point2D<U>, size: Size2D<U>) -> (r: Self)
        ensures r.origin == origin, r.size == size,
    {
        Rect { origin, size }
    }

    pub fn min_x(&self) -> (r: i32)
        ensures r == self.origin.x,
    {
        self.origin.x
    }

    pub fn min_y(&self) -> (r: i32)
        ensures r == self.origin.y,
    {
        self.origin.y
    }

    pub fn max_x(&self) -> (r: i32)
        requires fits_i32(spec_max_x(*self)),
        ensures r == spec_max_x(*self),
    {
        self.origin.x + self.size.width
    }

    pub fn max_y(&self) -> (r: i32)
        requires fits_i32(spec_max_y(*self)),
        ensures r == spec_max_y(*self),
    {
        self.origin.y + self.size.height
    }

    /// Whether the two rectangles overlap.
    pub fn intersects(&self, other: &Self) -> (r: bool)
        requires rect_corner_fits(*self), rect_corner_fits(*other),
        ensures r == spec_intersects(*self, *other),
    {
        let self_max_x = self.max_x();
        let self_max_y = self.max_y();
        let other_max_x = other.max_x();
        let other_max_y = other.max_y();
        self.origin.x < other_max_x && other.origin.x < self_max_x && self.origin.y < other_max_y
            && other.origin.y < self_max_y
    }

    /// Whether `p` lies inside the rectangle.
    pub fn contains(&self, p: Point2D<U>) -> (r: bool)
        requires rect_corner_fits(*self),
        ensures r == spec_contains(*self, p),
    {
        self.origin.x <= p.x && p.x < self.max_x() && self.origin.y <= p.y && p.y < self.max_y()
    }

    /// The same rectangle in another space.
    pub fn cast_unit<V: Space>(self) -> (r: Rect<V>)
        ensures
            r.origin.x == self.origin.x, r.origin.y == self.origin.y,
            r.size.width == self.size.width, r.size.height == self.size.height,
    {
        Rect::new(self.origin.cast_unit(), self.size.cast_unit())
    }
}

/// Whether scaling by 8 stays in `i32`.
pub open spec fn times8_fits(a: int, b: int) -> bool {
    fits_i32(a * 8) && fits_i32(b * 8)
}

/// Converts a tile position to the pixel position of that tile's corner.
pub fn point_tile_to_room(pt: &TilePoint) -> (r: RoomPoint)
    requires times8_fits(pt.x as int, pt.y as int),
    ensures r.x == pt.x * 8, r.y == pt.y * 8,
{
    Point2D::new(pt.x * 8, pt.y * 8)
}

/// Converts a pixel position to a tile position, dividing by 8 and rounding toward zero.
pub fn point_room_to_tile(pt: &RoomPoint) -> (r: TilePoint)
    ensures
        r.x == div_toward_zero(pt.x as int, 8),
        r.y == div_toward_zero(pt.y as int, 8),
{
    Point2D::new(pt.x / 8, pt.y / 8)
}

/// Converts a size in tiles to a size in pixels.
pub fn size_tile_to_room(sz: &TileSize) -> (r: RoomSize)
    requires times8_fits(sz.width as int, sz.height as int),
    ensures r.width == sz.width * 8, r.height == sz.height * 8,
{
    Size2D::new(sz.width * 8, sz.height * 8)
}

/// Converts a size in pixels to a size in tiles, rounding toward zero.
pub fn size_room_to_tile(sz: &RoomSize) -> (r: TileSize)
    ensures
        r.width == div_toward_zero(sz.width as int, 8),
        r.height == div_toward_zero(sz.height as int, 8),
{
    Size2D::new(sz.width / 8, sz.height / 8)
}

/// Converts a displacement in tiles to one in pixels.
pub fn vector_tile_to_room(v: &TileVector) -> (r: RoomVector)
    requires times8_fits(v.x as int, v.y as int),
    ensures r.x == v.x * 8, r.y == v.y * 8,
{
    Vector2D::new(v.x * 8, v.y * 8)
}

/// Converts a displacement in pixels to one in tiles, rounding toward zero.
pub fn vector_room_to_tile(v: &RoomVector) -> (r: TileVector)
    ensures
        r.x == div_toward_zero(v.x as int, 8),
        r.y == div_toward_zero(v.y as int, 8),
{
    Vector2D::new(v.x / 8, v.y / 8)
}

/// Converts a rectangle in tiles to one in pixels (origin and size scaled by 8).
pub fn rect_tile_to_room(r: &TileRect) -> (out: RoomRect)
    requires
        times8_fits(r.origin.x as int, r.origin.y as int),
        times8_fits(r.size.width as int, r.size.height as int),
    ensures
        out.origin.x == r.origin.x * 8, out.origin.y == r.origin.y * 8,
        out.size.width == r.size.width * 8, out.size.height == r.size.height * 8,
{
    Rect::new(point_tile_to_room(&r.origin), size_tile_to_room(&r.size))
}

/// Converts a rectangle in pixels to one in tiles (origin and size divided by 8, toward zero).
pub fn rect_room_to_tile(r: &RoomRect) -> (out: TileRect)
    ensures
        out.origin.x == div_toward_zero(r.origin.x as int, 8),
        out.origin.y == div_toward_zero(r.origin.y as int, 8),
        out.size.width == div_toward_zero(r.size.width as int, 8),
        out.size.height == div_toward_zero(r.size.height as int, 8),
{
    Rect::new(point_room_to_tile(&r.origin), size_room_to_tile(&r.size))
}

/// The absolute value of an integer.
pub open spec fn spec_abs(v: int) -> int {
    if v < 0 { -v } else { v }
}

/// The absolute value; `i32::MIN` has none in `i32`.
pub fn shitty_abs(num: i32) -> (r: i32)
    requires num != i32::MIN,
    ensures r == spec_abs(num as int),
{
    if num < 0 { -num } else { num }
}

/// The same area as `rect` with a non-negative size: a negative width or height
/// moves the origin back by that amount.
pub fn rect_normalize<U: Space>(rect: &Rect<U>) -> (r: Rect<U>)
    requires
        rect.size.width != i32::MIN,
        rect.size.height != i32::MIN,
        fits_i32(rect.origin.x + (if rect.size.width < 0 { rect.size.width as int } else { 0 })),
        fits_i32(rect.origin.y + (if rect.size.height < 0 { rect.size.height as int } else { 0 })),
    ensures
        r.origin.x == rect.origin.x + (if rect.size.width < 0 { rect.size.width as int } else { 0 }),
        r.origin.y == rect.origin.y + (if rect.size.height < 0 { rect.size.height as int } else { 0 }),
        r.size.width == spec_abs(rect.size.width as int),
        r.size.height == spec_abs(rect.size.height as int),
{
    let dx: i32 = if rect.size.width < 0 { rect.size.width } else { 0 };
    let dy: i32 = if rect.size.height < 0 { rect.size.height } else { 0 };
    Rect::new(
        Point2D::new(rect.origin.x + dx, rect.origin.y + dy),
        Size2D::new(shitty_abs(rect.size.width), shitty_abs(rect.size.height)),
    )
}

/// Normalizing keeps the set of points inside the rectangle, taken with its size's sign.
pub proof fn lemma_normalize_same_extent<U: Space>(rect: Rect<U>, n: Rect<U>)
    requires
        n.origin.x == rect.origin.x + (if rect.size.width < 0 { rect.size.width as int } else { 0 }),
        n.origin.y == rect.origin.y + (if rect.size.height < 0 { rect.size.height as int } else { 0 }),
        n.size.width == spec_abs(rect.size.width as int),
        n.size.height == spec_abs(rect.size.height as int),
    ensures
        n.size.width >= 0, n.size.height >= 0,
        n.origin.x == (if rect.size.width < 0 { spec_max_x(rect) } else { rect.origin.x as int }),
        spec_max_x(n) == (if rect.size.width < 0 { rect.origin.x as int } else { spec_max_x(rect) }),
        n.origin.y == (if rect.size.height < 0 { spec_max_y(rect) } else { rect.origin.y as int }),
        spec_max_y(n) == (if rect.size.height < 0 { rect.origin.y as int } else { spec_max_y(rect) }),
{
}

/// Walks the points of a rectangle row by row, advancing `step` at a time.
/// The first point is always the origin, even for an empty rectangle.
pub struct RectPointIter<U: Space> {
    pub rect: Rect<U>,
    pub step: Vector2D<U>,
    pub next_pt: Option<Point2D<U>>,
}

/// The state after one call of `next`.
pub open spec fn spec_advance<U: Space>(it: RectPointIter<U>) -> Option<Point2D<U>> {
    match it.next_pt {
        None => None,
        Some(p) => {
            let nx = p.x + it.step.x;
            if nx >= spec_max_x(it.rect) {
                let ny = p.y + it.step.y;
                if ny >= spec_max_y(it.rect) {
                    None
                } else {
                    Some(Point2D { x: it.rect.origin.x, y: ny as i32, unit: p.unit })
                }
            } else {
                Some(Point2D { x: nx as i32, y: p.y, unit: p.unit })
            }
        },
    }
}

/// Whether advancing from the current point stays in `i32`.
pub open spec fn advance_fits<U: Space>(it: RectPointIter<U>) -> bool {
    &&& rect_corner_fits(it.rect)
    &&& (it.next_pt matches Some(p) ==> fits_i32(p.x + it.step.x) && fits_i32(p.y + it.step.y))
}

impl<U: Space> RectPointIter<U> {
    /// Returns the current point and moves on to the next one.
    pub fn next(&mut self) -> (r: Option<Point2D<U>>)
        requires advance_fits(*old(self)),
        ensures
            r == old(self).next_pt,
            final(self).next_pt == spec_advance(*old(self)),
            final(self).rect == old(self).rect,
            final(self).step == old(self).step,
    {
        let cur = self.next_pt;
        if let Some(p) = cur {
            let nx = p.x + self.step.x;
            if nx >= self.rect.max_x() {
                let ny = p.y + self.step.y;
                if ny >= self.rect.max_y() {
                    self.next_pt = None;
                } else {
                    self.next_pt = Some(Point2D { x: self.rect.origin.x, y: ny, unit: p.unit });
                }
            } else {
                self.next_pt = Some(Point2D { x: nx, y: p.y, unit: p.unit });
            }
        }
        cur
    }
}

/// Walks `rect` with the same step on both axes.
pub fn rect_point_iter<U: Space>(rect: Rect<U>, step: i32) -> (r: RectPointIter<U>)
    ensures
        r.rect == rect,
        r.step.x == step, r.step.y == step,
        r.next_pt == Some(rect.origin),
{
    RectPointIter { rect, step: Vector2D::new(step, step), next_pt: Some(rect.origin) }
}

/// Walks `rect` with separate steps on each axis.
pub fn rect_point_iter2<U: Space>(rect: Rect<U>, step: Vector2D<U>) -> (r: RectPointIter<U>)
    ensures r.rect == rect, r.step == step, r.next_pt == Some(rect.origin),
{
    RectPointIter { rect, step, next_pt: Some(rect.origin) }
}

} // verus!
