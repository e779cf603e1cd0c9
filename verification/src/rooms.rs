use vstd::prelude::*;
use vstd::set_lib::{set_int_range, lemma_int_range, lemma_map_size, lemma_len_subset};
use vstd::relations::injective_on;
use crate::binread::push_char;
use crate::everest::{dec_chars, push_decimal, lemma_dec_chars};
use crate::units::{
    MapPointStrict, MapRectStrict, MapSizeStrict, Point2D, Rect, RoomRect, Size2D, Space,
    fits_i32, spec_intersects, spec_contains, spec_max_x,
    spec_max_y, MapVectorStrict,
};

verus! {

/// The corners of `rect`, its size taken with its sign: the smaller x and y,
/// then the larger.
pub open spec fn corners<U: Space>(rect: Rect<U>) -> (int, int, int, int) {
    let w = rect.size.width as int;
    let h = rect.size.height as int;
    (
        rect.origin.x + (if w < 0 { w } else { 0 }),
        rect.origin.y + (if h < 0 { h } else { 0 }),
        rect.origin.x + (if w < 0 { 0 } else { w }),
        rect.origin.y + (if h < 0 { 0 } else { h }),
    )
}

/// Whether `r` overlaps the area with corners `a`: each starts before the
/// other ends, on both axes.
pub open spec fn overlaps_area<U: Space>(r: Rect<U>, a: (int, int, int, int)) -> bool {
    &&& r.origin.x < a.2 && a.0 < spec_max_x(r)
    &&& r.origin.y < a.3 && a.1 < spec_max_y(r)
}

/// Whether `r` overlaps the area with corners (`x0`, `y0`) and (`x1`, `y1`),
/// computed wide enough never to overflow.
pub fn overlaps_wide<U: Space>(r: &Rect<U>, x0: i64, y0: i64, x1: i64, y1: i64) -> (b: bool)
    ensures
        b == overlaps_area(*r, (x0 as int, y0 as int, x1 as int, y1 as int)),
{
    let rx0 = r.origin.x as i64;
    let ry0 = r.origin.y as i64;
    let rx1 = rx0 + r.size.width as i64;
    let ry1 = ry0 + r.size.height as i64;
    rx0 < x1 && x0 < rx1 && ry0 < y1 && y0 < ry1
}

/// Whether `r` holds `p`, computed wide enough never to overflow.
pub fn contains_wide<U: Space>(r: &Rect<U>, p: Point2D<U>) -> (b: bool)
    ensures
        b == spec_contains(*r, p),
{
    let rx0 = r.origin.x as i64;
    let ry0 = r.origin.y as i64;
    let rx1 = rx0 + r.size.width as i64;
    let ry1 = ry0 + r.size.height as i64;
    rx0 <= p.x as i64 && (p.x as i64) < rx1 && ry0 <= p.y as i64 && (p.y as i64) < ry1
}

/// The indices, in order, of the first `n` rooms whose bounds overlap the
/// area with corners `a`.
pub open spec fn hit_indices(bounds: Seq<MapRectStrict>, a: (int, int, int, int), n: nat) -> Seq<usize>
    decreases n,
{
    if n == 0 {
        Seq::empty()
    } else {
        let before = hit_indices(bounds, a, (n - 1) as nat);
        if overlaps_area(bounds[n - 1], a) { before.push((n - 1) as usize) } else { before }
    }
}

/// The indices, in order, of the rooms whose bounds overlap `rect`, taken
/// with its size's sign.
pub fn rooms_in(bounds: &Vec<MapRectStrict>, rect: MapRectStrict) -> (r: Vec<usize>)
    ensures
        r@ == hit_indices(bounds@, corners(rect), bounds@.len()),
{
    let ow = rect.size.width as i64;
    let oh = rect.size.height as i64;
    let x0 = rect.origin.x as i64 + (if ow < 0 { ow } else { 0 });
    let y0 = rect.origin.y as i64 + (if oh < 0 { oh } else { 0 });
    let x1 = rect.origin.x as i64 + (if ow < 0 { 0 } else { ow });
    let y1 = rect.origin.y as i64 + (if oh < 0 { 0 } else { oh });
    let ghost a = corners(rect);
    let mut result: Vec<usize> = Vec::new();
    let mut i: usize = 0;
    while i < bounds.len()
        invariant
            i <= bounds@.len(),
            a == (x0 as int, y0 as int, x1 as int, y1 as int),
            result@ == hit_indices(bounds@, a, i as nat),
        decreases bounds@.len() - i,
    {
        if overlaps_wide(&bounds[i], x0, y0, x1, y1) {
            result.push(i);
        }
        i = i + 1;
    }
    result
}

/// The one-unit square at `pos`.
pub open spec fn unit_square(pos: MapPointStrict) -> MapRectStrict {
    Rect { origin: pos, size: Size2D { width: 1, height: 1, unit: pos.unit } }
}

/// A room whose bounds hold `pos`: the first in order, if any.
pub fn room_at(bounds: &Vec<MapRectStrict>, pos: MapPointStrict) -> (r: Option<usize>)
    ensures
        match r {
            Some(i) => i < bounds@.len() && spec_intersects(bounds@[i as int], unit_square(pos))
                && forall|j: int| 0 <= j < i ==> !spec_intersects(#[trigger] bounds@[j], unit_square(pos)),
            None => forall|j: int| 0 <= j < bounds@.len() ==> !spec_intersects(#[trigger] bounds@[j], unit_square(pos)),
        },
{
    let x = pos.x as i64;
    let y = pos.y as i64;
    let mut i: usize = 0;
    while i < bounds.len()
        invariant
            i <= bounds@.len(),
            x == pos.x && y == pos.y,
            forall|j: int| 0 <= j < i ==> !spec_intersects(#[trigger] bounds@[j], unit_square(pos)),
        decreases bounds@.len() - i,
    {
        if overlaps_wide(&bounds[i], x, y, x + 1, y + 1) {
            return Some(i);
        }
        i = i + 1;
    }
    None
}

/// Whether `needle` overlaps any of the rectangles.
pub fn intersects_any(haystack: &[RoomRect], needle: &RoomRect) -> (r: bool)
    ensures
        r == exists|i: int| 0 <= i < haystack@.len() && spec_intersects(#[trigger] haystack@[i], *needle),
{
    let x0 = needle.origin.x as i64;
    let y0 = needle.origin.y as i64;
    let x1 = x0 + needle.size.width as i64;
    let y1 = y0 + needle.size.height as i64;
    let mut i: usize = 0;
    while i < haystack.len()
        invariant
            i <= haystack@.len(),
            x0 == needle.origin.x && y0 == needle.origin.y,
            x1 == spec_max_x(*needle) && y1 == spec_max_y(*needle),
            forall|j: int| 0 <= j < i ==> !spec_intersects(#[trigger] haystack@[j], *needle),
        decreases haystack@.len() - i,
    {
        if overlaps_wide(&haystack[i], x0, y0, x1, y1) {
            return true;
        }
        i = i + 1;
    }
    false
}

/// Which sides of a rectangle a resize drags.
#[derive(Copy, Clone, Debug, PartialEq, Eq, Structural)]
pub enum ResizeSide {
    NoSide,
    Top,
    Bottom,
    Left,
    Right,
    TopLeft,
    TopRight,
    BottomLeft,
    BottomRight,
}

/// The side that the four flags name: one side, or two adjacent ones; any
/// other combination is none.
pub open spec fn side_from(at_top: bool, at_bottom: bool, at_left: bool, at_right: bool) -> ResizeSide {
    match (at_top, at_bottom, at_left, at_right) {
        (true, false, false, false) => ResizeSide::Top,
        (false, true, false, false) => ResizeSide::Bottom,
        (false, false, true, false) => ResizeSide::Left,
        (false, false, false, true) => ResizeSide::Right,
        (true, false, true, false) => ResizeSide::TopLeft,
        (true, false, false, true) => ResizeSide::TopRight,
        (false, true, true, false) => ResizeSide::BottomLeft,
        (false, true, false, true) => ResizeSide::BottomRight,
        _ => ResizeSide::NoSide,
    }
}

impl ResizeSide {
    pub open spec fn spec_is_top(self) -> bool {
        self is Top || self is TopLeft || self is TopRight
    }

    pub open spec fn spec_is_bottom(self) -> bool {
        self is Bottom || self is BottomLeft || self is BottomRight
    }

    pub open spec fn spec_is_left(self) -> bool {
        self is Left || self is TopLeft || self is BottomLeft
    }

    pub open spec fn spec_is_right(self) -> bool {
        self is Right || self is TopRight || self is BottomRight
    }

    pub fn is_top(&self) -> (r: bool)
        ensures r == self.spec_is_top(),
    {
        matches!(self, ResizeSide::Top | ResizeSide::TopLeft | ResizeSide::TopRight)
    }

    pub fn is_bottom(&self) -> (r: bool)
        ensures r == self.spec_is_bottom(),
    {
        matches!(self, ResizeSide::Bottom | ResizeSide::BottomLeft | ResizeSide::BottomRight)
    }

    pub fn is_left(&self) -> (r: bool)
        ensures r == self.spec_is_left(),
    {
        matches!(self, ResizeSide::Left | ResizeSide::TopLeft | ResizeSide::BottomLeft)
    }

    pub fn is_right(&self) -> (r: bool)
        ensures r == self.spec_is_right(),
    {
        matches!(self, ResizeSide::Right | ResizeSide::TopRight | ResizeSide::BottomRight)
    }

    /// The side that the four flags name.
    pub fn from_sides(at_top: bool, at_bottom: bool, at_left: bool, at_right: bool) -> (r: Self)
        ensures r == side_from(at_top, at_bottom, at_left, at_right),
    {
        match (at_top, at_bottom, at_left, at_right) {
            (true, false, false, false) => ResizeSide::Top,
            (false, true, false, false) => ResizeSide::Bottom,
            (false, false, true, false) => ResizeSide::Left,
            (false, false, false, true) => ResizeSide::Right,
            (true, false, true, false) => ResizeSide::TopLeft,
            (true, false, false, true) => ResizeSide::TopRight,
            (false, true, true, false) => ResizeSide::BottomLeft,
            (false, true, false, true) => ResizeSide::BottomRight,
            _ => ResizeSide::NoSide,
        }
    }

    /// The same side without its top or bottom part.
    pub fn filter_out_top_bottom(&self) -> (r: Self)
        ensures r == side_from(false, false, self.spec_is_left(), self.spec_is_right()),
    {
        Self::from_sides(false, false, self.is_left(), self.is_right())
    }

    /// The same side without its left or right part.
    pub fn filter_out_left_right(&self) -> (r: Self)
        ensures r == side_from(self.spec_is_top(), self.spec_is_bottom(), false, false),
    {
        Self::from_sides(self.is_top(), self.is_bottom(), false, false)
    }
}

/// Reading the flags of a side back through `from_sides` gives the side.
pub proof fn law_resize_side_roundtrip(s: ResizeSide)
    ensures
        side_from(s.spec_is_top(), s.spec_is_bottom(), s.spec_is_left(), s.spec_is_right()) == s,
{
}

/// Dropping the vertical part leaves only a horizontal side, and dropping the
/// horizontal part only a vertical one.
pub proof fn law_resize_filters(s: ResizeSide)
    ensures
        !side_from(false, false, s.spec_is_left(), s.spec_is_right()).spec_is_top(),
        !side_from(false, false, s.spec_is_left(), s.spec_is_right()).spec_is_bottom(),
        side_from(false, false, s.spec_is_left(), s.spec_is_right()).spec_is_left() == s.spec_is_left(),
        side_from(false, false, s.spec_is_left(), s.spec_is_right()).spec_is_right() == s.spec_is_right(),
        !side_from(s.spec_is_top(), s.spec_is_bottom(), false, false).spec_is_left(),
        !side_from(s.spec_is_top(), s.spec_is_bottom(), false, false).spec_is_right(),
        side_from(s.spec_is_top(), s.spec_is_bottom(), false, false).spec_is_top() == s.spec_is_top(),
        side_from(s.spec_is_top(), s.spec_is_bottom(), false, false).spec_is_bottom() == s.spec_is_bottom(),
{
}

/// Whether some room is named `s`.
pub open spec fn taken(names: Seq<String>, s: Seq<char>) -> bool {
    exists|i: int| 0 <= i < names.len() && #[trigger] names[i]@ == s
}

/// The room name `{letter}-{two digits}`, the letter `l` places after `a`.
pub open spec fn room_name(l: nat, n: nat) -> Seq<char> {
    seq![(l + 97) as char, '-', ((n / 10) % 10 + 48) as char, (n % 10 + 48) as char]
}

/// The room name `lvl_{k}`.
pub open spec fn lvl_name(k: nat) -> Seq<char> {
    seq!['l', 'v', 'l', '_'] + dec_chars(k)
}

/// The first free name for letter `l` with a number from `n` to 99.
pub open spec fn free_number(names: Seq<String>, l: nat, n: nat) -> Option<Seq<char>>
    decreases 100 - n,
{
    if n >= 100 {
        None
    } else if !taken(names, room_name(l, n)) {
        Some(room_name(l, n))
    } else {
        free_number(names, l, n + 1)
    }
}

/// The name the letters give, trying them from `l` on: at the first letter
/// whose `-00` name is free, `a-00` for `a`, else the first free name of the
/// letter before it; letters whose letter before is full are passed over.
pub open spec fn letter_choice(names: Seq<String>, l: nat) -> Option<Seq<char>>
    decreases 26 - l,
{
    if l >= 26 {
        None
    } else if taken(names, room_name(l, 0)) {
        letter_choice(names, l + 1)
    } else if l == 0 {
        Some(room_name(0, 0))
    } else {
        match free_number(names, (l - 1) as nat, 0) {
            Some(s) => Some(s),
            None => letter_choice(names, l + 1),
        }
    }
}

/// Whether some room is named `s`.
fn name_taken(names: &Vec<String>, s: &String) -> (r: bool)
    ensures
        r == taken(names@, s@),
{
    let mut i: usize = 0;
    while i < names.len()
        invariant
            i <= names@.len(),
            forall|j: int| 0 <= j < i ==> names@[j]@ != s@,
        decreases names@.len() - i,
    {
        if names[i] == *s {
            return true;
        }
        i = i + 1;
    }
    false
}

fn make_room_name(l: u32, n: u32) -> (r: String)
    requires
        l < 26,
        n < 100,
    ensures
        r@ == room_name(l as nat, n as nat),
{
    let mut out = String::new();
    let letter = ((l as u8) + 97u8) as char;
    let tens = ((n / 10) as u8 + 48u8) as char;
    let ones = ((n % 10) as u8 + 48u8) as char;
    push_char(&mut out, letter);
    push_char(&mut out, '-');
    push_char(&mut out, tens);
    push_char(&mut out, ones);
    proof {
        assert(letter == (l + 97) as char);
        assert((n / 10) % 10 == n / 10);
        assert(out@ =~= room_name(l as nat, n as nat));
    }
    out
}

fn make_lvl_name(k: usize) -> (r: String)
    ensures
        r@ == lvl_name(k as nat),
{
    let mut out = String::from_str("lvl_");
    proof { reveal_strlit("lvl_"); }
    push_decimal(&mut out, k as u64);
    proof { assert(out@ =~= lvl_name(k as nat)); }
    out
}

proof fn lemma_lvl_name_injective(a: nat, b: nat)
    requires
        lvl_name(a) == lvl_name(b),
    ensures
        a == b,
{
    lemma_dec_chars(a);
    lemma_dec_chars(b);
    assert(lvl_name(a).skip(4) =~= dec_chars(a));
    assert(lvl_name(b).skip(4) =~= dec_chars(b));
}

/// At most as many `lvl_` names are taken as there are rooms.
proof fn lemma_lvl_bound(names: Seq<String>, num: nat)
    requires
        forall|j: nat| j < num ==> taken(names, #[trigger] lvl_name(j)),
    ensures
        num <= names.len(),
{
    let nv = Seq::new(names.len(), |i: int| names[i]@);
    let ns = nv.to_set();
    nv.lemma_cardinality_of_set();
    vstd::seq_lib::seq_to_set_is_finite(nv);
    let x = set_int_range(0, num as int);
    lemma_int_range(0, num as int);
    let f = |j: int| lvl_name(j as nat);
    assert(injective_on(f, x)) by {
        assert forall|a: int, b: int| x.contains(a) && x.contains(b) && #[trigger] f(a) == #[trigger] f(b) implies a == b by {
            lemma_lvl_name_injective(a as nat, b as nat);
        }
    }
    lemma_map_size(x, x.map(f), f);
    assert(x.map(f).subset_of(ns)) by {
        assert forall|s: Seq<char>| x.map(f).contains(s) implies ns.contains(s) by {
            let j = choose|j: int| x.contains(j) && f(j) == s;
            assert(taken(names, lvl_name(j as nat)));
            let i = choose|i: int| 0 <= i < names.len() && #[trigger] names[i]@ == lvl_name(j as nat);
            assert(nv[i] == s);
        }
    }
    lemma_len_subset(x.map(f), ns);
}

/// A name for a new room that no room has: the first free `{letter}-00`
/// (with the letter before it standing in, see `letter_choice`), else the
/// first free `lvl_{k}`.
pub fn pick_new_name(names: &Vec<String>) -> (r: String)
    ensures
        !taken(names@, r@),
        match letter_choice(names@, 0) {
            Some(s) => r@ == s,
            None => exists|k: nat| r@ == lvl_name(k) && forall|j: nat| j < k ==> taken(names@, #[trigger] lvl_name(j)),
        },
{
    let mut l: u32 = 0;
    while l < 26
        invariant
            l <= 26,
            letter_choice(names@, 0) == letter_choice(names@, l as nat),
        decreases 26 - l,
    {
        let first = make_room_name(l, 0);
        if !name_taken(names, &first) {
            if l == 0 {
                return first;
            }
            let mut n: u32 = 0;
            while n < 100
                invariant
                    1 <= l < 26,
                    n <= 100,
                    letter_choice(names@, 0) == letter_choice(names@, l as nat),
                    !taken(names@, room_name(l as nat, 0)),
                    free_number(names@, (l - 1) as nat, 0) == free_number(names@, (l - 1) as nat, n as nat),
                decreases 100 - n,
            {
                let candidate = make_room_name(l - 1, n);
                if !name_taken(names, &candidate) {
                    return candidate;
                }
                n = n + 1;
            }
        }
        l = l + 1;
    }
    let total = names.len();
    let mut num: usize = 0;
    loop
        invariant
            letter_choice(names@, 0) is None,
            total == names@.len(),
            num <= names@.len(),
            forall|j: nat| j < num ==> taken(names@, #[trigger] lvl_name(j)),
        decreases names@.len() - num,
    {
        let candidate = make_lvl_name(num);
        if !name_taken(names, &candidate) {
            return candidate;
        }
        proof {
            assert forall|j: nat| j < num + 1 implies taken(names@, #[trigger] lvl_name(j)) by {
                if j == num { assert(candidate@ == lvl_name(j)); }
            }
            lemma_lvl_bound(names@, (num + 1) as nat);
        }
        num = num + 1;
    }
}

/// The first room whose bounds hold `pt`, if any.
pub fn level_at(bounds: &Vec<MapRectStrict>, pt: MapPointStrict) -> (r: Option<usize>)
    ensures
        match r {
            Some(i) => i < bounds@.len() && spec_contains(bounds@[i as int], pt)
                && forall|j: int| 0 <= j < i ==> !spec_contains(#[trigger] bounds@[j], pt),
            None => forall|j: int| 0 <= j < bounds@.len() ==> !spec_contains(#[trigger] bounds@[j], pt),
        },
{
    let mut i: usize = 0;
    while i < bounds.len()
        invariant
            i <= bounds@.len(),
            forall|j: int| 0 <= j < i ==> !spec_contains(#[trigger] bounds@[j], pt),
        decreases bounds@.len() - i,
    {
        if contains_wide(&bounds[i], pt) {
            return Some(i);
        }
        i = i + 1;
    }
    None
}

/// The side of `rect` that a point inside it grabs: a side when the point is
/// within 2 units of that edge, a corner when within 2 units of two edges.
pub open spec fn spec_side_at<U: Space>(rect: Rect<U>, p: Point2D<U>) -> ResizeSide {
    side_from(
        p.y < rect.origin.y + 2,
        p.y >= spec_max_y(rect) - 2,
        p.x < rect.origin.x + 2,
        p.x >= spec_max_x(rect) - 2,
    )
}

/// Which side of `rect` the point `pointer`, inside it, grabs for a resize.
pub fn side_at<U: Space>(rect: &Rect<U>, pointer: Point2D<U>) -> (r: ResizeSide)
    ensures
        r == spec_side_at(*rect, pointer),
{
    let min_x = rect.origin.x as i64 + 2;
    let min_y = rect.origin.y as i64 + 2;
    let max_x = rect.origin.x as i64 + rect.size.width as i64 - 2;
    let max_y = rect.origin.y as i64 + rect.size.height as i64 - 2;
    let px = pointer.x as i64;
    let py = pointer.y as i64;
    ResizeSide::from_sides(py < min_y, py >= max_y, px < min_x, px >= max_x)
}

/// The side that a pointer grabs of the selected rooms: that of the first
/// selected room holding the pointer, or none.
pub fn room_resize_side(bounds: &Vec<MapRectStrict>, selection: &Vec<usize>, pointer: MapPointStrict) -> (r: ResizeSide)
    ensures
        (exists|k: int| 0 <= k < selection@.len() && selection@[k] < bounds@.len()
            && spec_contains(bounds@[selection@[k] as int], pointer))
            ==> exists|k: int| 0 <= k < selection@.len() && selection@[k] < bounds@.len()
                && spec_contains(#[trigger] bounds@[selection@[k] as int], pointer)
                && r == spec_side_at(bounds@[selection@[k] as int], pointer)
                && forall|k2: int| 0 <= k2 < k && selection@[k2] < bounds@.len()
                    ==> !spec_contains(bounds@[selection@[k2] as int], pointer),
        !(exists|k: int| 0 <= k < selection@.len() && selection@[k] < bounds@.len()
            && spec_contains(bounds@[selection@[k] as int], pointer)) ==> r == ResizeSide::NoSide,
{
    let mut k: usize = 0;
    while k < selection.len()
        invariant
            k <= selection@.len(),
            forall|k2: int| 0 <= k2 < k && selection@[k2] < bounds@.len()
                ==> !spec_contains(#[trigger] bounds@[selection@[k2] as int], pointer),
        decreases selection@.len() - k,
    {
        let idx = selection[k];
        if idx < bounds.len() && contains_wide(&bounds[idx], pointer) {
            let side = side_at(&bounds[idx], pointer);
            proof {
                assert(spec_contains(bounds@[selection@[k as int] as int], pointer));
            }
            return side;
        }
        k = k + 1;
    }
    ResizeSide::NoSide
}

/// The bounds a room gets from a drag by `resize`: with a grabbed side, that
/// side moves and the opposite stays; without one, the origin moves by the
/// drag and the size shrinks by it. Width and height are at least 8.
pub open spec fn spec_resized(start: MapRectStrict, side: Option<ResizeSide>, resize: MapVectorStrict) -> (int, int, int, int) {
    let (px, py, sx, sy): (int, int, int, int) = match side {
        Some(s) => (
            if s.spec_is_left() { resize.x as int } else { 0 },
            if s.spec_is_top() { resize.y as int } else { 0 },
            if s.spec_is_left() { -resize.x } else if s.spec_is_right() { resize.x as int } else { 0 },
            if s.spec_is_top() { -resize.y } else if s.spec_is_bottom() { resize.y as int } else { 0 },
        ),
        None => (resize.x as int, resize.y as int, -resize.x, -resize.y),
    };
    let w = start.size.width + sx;
    let h = start.size.height + sy;
    (start.origin.x + px, start.origin.y + py, if w < 8 { 8 } else { w }, if h < 8 { 8 } else { h })
}

/// Whether the drag can be split into a change of origin and of size in
/// `i32`: a component is negated only where the side (or the absence of
/// one) asks for it.
pub open spec fn resize_vec_fits(side: Option<ResizeSide>, resize: MapVectorStrict) -> bool {
    &&& (side matches Some(s) ==> (s.spec_is_left() ==> resize.x != i32::MIN) && (s.spec_is_top() ==> resize.y != i32::MIN))
    &&& (side is None ==> resize.x != i32::MIN && resize.y != i32::MIN)
}

/// Whether the new origin and size, before the minimum of 8, stay in `i32`.
pub open spec fn resize_fits(start: MapRectStrict, side: Option<ResizeSide>, resize: MapVectorStrict) -> bool {
    let (px, py, sx, sy): (int, int, int, int) = match side {
        Some(s) => (
            if s.spec_is_left() { resize.x as int } else { 0 },
            if s.spec_is_top() { resize.y as int } else { 0 },
            if s.spec_is_left() { -resize.x } else if s.spec_is_right() { resize.x as int } else { 0 },
            if s.spec_is_top() { -resize.y } else if s.spec_is_bottom() { resize.y as int } else { 0 },
        ),
        None => (resize.x as int, resize.y as int, -resize.x, -resize.y),
    };
    &&& fits_i32(start.origin.x + px) && fits_i32(start.origin.y + py)
    &&& fits_i32(start.size.width + sx) && fits_i32(start.size.height + sy)
}

/// The new bounds of a room dragged by `resize`, with `side` the side grabbed
/// if the drag is a resize.
pub fn resized_bounds(start: MapRectStrict, side: Option<ResizeSide>, resize: MapVectorStrict) -> (r: MapRectStrict)
    requires
        resize_vec_fits(side, resize),
        resize_fits(start, side, resize),
    ensures
        (r.origin.x as int, r.origin.y as int, r.size.width as int, r.size.height as int) == spec_resized(start, side, resize),
{
    let (px, py, sx, sy): (i32, i32, i32, i32) = match side {
        Some(s) => (
            if s.is_left() { resize.x } else { 0 },
            if s.is_top() { resize.y } else { 0 },
            if s.is_left() { -resize.x } else if s.is_right() { resize.x } else { 0 },
            if s.is_top() { -resize.y } else if s.is_bottom() { resize.y } else { 0 },
        ),
        None => (resize.x, resize.y, -resize.x, -resize.y),
    };
    let w = start.size.width + sx;
    let h = start.size.height + sy;
    Rect::new(
        MapPointStrict::new(start.origin.x + px, start.origin.y + py),
        MapSizeStrict::new(if w < 8 { 8 } else { w }, if h < 8 { 8 } else { h }),
    )
}

/// A room is found under a point exactly when the point lies in its
/// bounds: at or right of its left edge and left of its right edge, at or
/// below its top edge and above its bottom edge.
pub proof fn law_point_in_room(b: MapRectStrict, pos: MapPointStrict)
    ensures
        spec_intersects(b, unit_square(pos)) == (b.origin.x <= pos.x < b.origin.x + b.size.width
            && b.origin.y <= pos.y < b.origin.y + b.size.height),
{
}

/// A pointer grabs the sides it is within 2 units of: none well inside, the
/// left or right side alone, the top or bottom alone, or a corner; where it
/// is near both opposite sides of a thin rectangle it grabs none.
pub proof fn law_side_at_edges<U: Space>(rect: Rect<U>, p: Point2D<U>)
    ensures
        ({
            let near_l = p.x < rect.origin.x + 2;
            let near_r = p.x >= rect.origin.x + rect.size.width - 2;
            let near_t = p.y < rect.origin.y + 2;
            let near_b = p.y >= rect.origin.y + rect.size.height - 2;
            let h = if near_l && !near_r { -1int } else if near_r && !near_l { 1int } else { 0int };
            let v = if near_t && !near_b { -1int } else if near_b && !near_t { 1int } else { 0int };
            let r = spec_side_at(rect, p);
            &&& (near_l && near_r) || (near_t && near_b) ==> r == ResizeSide::NoSide
            &&& !((near_l && near_r) || (near_t && near_b)) ==> r == (
                if h == -1 && v == -1 { ResizeSide::TopLeft }
                else if h == 1 && v == -1 { ResizeSide::TopRight }
                else if h == -1 && v == 1 { ResizeSide::BottomLeft }
                else if h == 1 && v == 1 { ResizeSide::BottomRight }
                else if h == -1 { ResizeSide::Left }
                else if h == 1 { ResizeSide::Right }
                else if v == -1 { ResizeSide::Top }
                else if v == 1 { ResizeSide::Bottom }
                else { ResizeSide::NoSide })
        }),
{
}

proof fn lemma_hit_indices(bounds: Seq<MapRectStrict>, a: (int, int, int, int), n: nat)
    requires
        n <= bounds.len(),
        n <= usize::MAX + 1,
    ensures
        forall|i: int| 0 <= i < n ==> (hit_indices(bounds, a, n).contains(i as usize) <==> overlaps_area(#[trigger] bounds[i], a)),
        forall|k: int| 0 <= k < hit_indices(bounds, a, n).len() ==> (#[trigger] hit_indices(bounds, a, n)[k]) < n,
        forall|k1: int, k2: int| 0 <= k1 < k2 < hit_indices(bounds, a, n).len()
            ==> #[trigger] hit_indices(bounds, a, n)[k1] < #[trigger] hit_indices(bounds, a, n)[k2],
    decreases n,
{
    if n > 0 {
        lemma_hit_indices(bounds, a, (n - 1) as nat);
        let before = hit_indices(bounds, a, (n - 1) as nat);
        let now = hit_indices(bounds, a, n);
        assert forall|i: int| 0 <= i < n implies (now.contains(i as usize) <==> overlaps_area(#[trigger] bounds[i], a)) by {
            if now.contains(i as usize) {
                let k = choose|k: int| 0 <= k < now.len() && now[k] == i as usize;
                if k < before.len() {
                    assert(before[k] == now[k]);
                }
            }
            if overlaps_area(bounds[i], a) {
                if i < n - 1 {
                    let k = choose|k: int| 0 <= k < before.len() && before[k] == i as usize;
                    assert(now[k] == before[k]);
                } else {
                    assert(now[now.len() - 1] == i as usize);
                }
            }
        }
    }
}

/// The rooms under a rectangle are exactly those whose bounds overlap it,
/// the rectangle's size taken with its sign, each once, in order: a room
/// is listed when it starts left of the rectangle's right end and ends
/// right of its left end, and likewise vertically.
pub proof fn law_rooms_in_overlap(bounds: Seq<MapRectStrict>, rect: MapRectStrict)
    requires
        bounds.len() <= usize::MAX,
    ensures
        ({
            let r = hit_indices(bounds, corners(rect), bounds.len());
            let w = rect.size.width as int;
            let h = rect.size.height as int;
            let x0 = if w < 0 { rect.origin.x + w } else { rect.origin.x as int };
            let x1 = if w < 0 { rect.origin.x as int } else { rect.origin.x + w };
            let y0 = if h < 0 { rect.origin.y + h } else { rect.origin.y as int };
            let y1 = if h < 0 { rect.origin.y as int } else { rect.origin.y + h };
            &&& forall|i: int| 0 <= i < bounds.len() ==> (r.contains(i as usize) <==> {
                let b = #[trigger] bounds[i];
                &&& b.origin.x < x1 && x0 < b.origin.x + b.size.width
                &&& b.origin.y < y1 && y0 < b.origin.y + b.size.height
            })
            &&& forall|k: int| 0 <= k < r.len() ==> (#[trigger] r[k]) < bounds.len()
            &&& forall|k1: int, k2: int| 0 <= k1 < k2 < r.len() ==> #[trigger] r[k1] < #[trigger] r[k2]
        }),
{
    lemma_hit_indices(bounds, corners(rect), bounds.len());
}

/// At least 8: the shortest side a room can have.
pub open spec fn at_least_8(v: int) -> int {
    if v < 8 { 8 } else { v }
}

/// Resizing a room moves exactly the edges grabbed. A grabbed left edge (of
/// `Left`, `TopLeft` or `BottomLeft`) goes by the drag while the right edge
/// stays; a grabbed right edge goes by the drag while the left edge stays;
/// an edge not grabbed stays; likewise for the top and bottom. Without a
/// side the whole origin goes by the drag and the far corner stays. No side
/// ends up shorter than 8, measured from the new origin.
pub proof fn law_resize_moves_grabbed_edges(start: MapRectStrict, side: Option<ResizeSide>, resize: MapVectorStrict)
    requires
        resize_vec_fits(side, resize),
        resize_fits(start, side, resize),
    ensures
        ({
            let (x, y, w, h) = spec_resized(start, side, resize);
            let left = side is None || side == Some(ResizeSide::Left) || side == Some(ResizeSide::TopLeft)
                || side == Some(ResizeSide::BottomLeft);
            let right = side == Some(ResizeSide::Right) || side == Some(ResizeSide::TopRight)
                || side == Some(ResizeSide::BottomRight);
            let top = side is None || side == Some(ResizeSide::Top) || side == Some(ResizeSide::TopLeft)
                || side == Some(ResizeSide::TopRight);
            let bottom = side == Some(ResizeSide::Bottom) || side == Some(ResizeSide::BottomLeft)
                || side == Some(ResizeSide::BottomRight);
            let x0 = start.origin.x as int;
            let y0 = start.origin.y as int;
            let x1 = start.origin.x + start.size.width;
            let y1 = start.origin.y + start.size.height;
            &&& x == (if left { x0 + resize.x } else { x0 })
            &&& y == (if top { y0 + resize.y } else { y0 })
            &&& w == (if left { at_least_8(x1 - x) } else if right { at_least_8(x1 + resize.x - x0) } else { at_least_8(x1 - x0) })
            &&& h == (if top { at_least_8(y1 - y) } else if bottom { at_least_8(y1 + resize.y - y0) } else { at_least_8(y1 - y0) })
            &&& w >= 8 && h >= 8
        }),
{
}

} // verus!
