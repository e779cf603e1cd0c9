use vstd::prelude::*;
use crate::units::fits_i32;

verus! {
/// A tile in a tile palette: its character, name and texture.
#[derive(Clone, Copy, Debug)]
pub struct TileSelectable {
    pub id: char,
    pub name: &'static str,
    pub texture: Option<&'static str>,
}

impl Default for TileSelectable {
    fn default() -> (r: Self)
        ensures
            r.id == '0',
            r.name@ == "Empty"@,
            r.texture is None,
    {
        TileSelectable { id: '0', name: "Empty", texture: None }
    }
}

impl PartialEq for TileSelectable {
    fn eq(&self, other: &Self) -> (r: bool) {
        self.id == other.id
    }
}

impl vstd::std_specs::cmp::PartialEqSpecImpl for TileSelectable {
    open spec fn obeys_eq_spec() -> bool {
        true
    }

    open spec fn eq_spec(&self, other: &Self) -> bool {
        self.id == other.id
    }
}

impl Eq for TileSelectable {}

impl TileSelectable {
    /// The palette entry that stands for a tile not in the palette.
    pub fn other() -> (r: Self)
        ensures
            r.id == '\0',
            r.name@ == "other"@,
            r.texture is None,
    {
        TileSelectable { id: '\0', name: "other", texture: None }
    }

    /// The text a search of the palette matches against: the tile's name.
    pub fn search_text(&self) -> (r: String)
        ensures
            r@ == self.name@,
    {
        String::from_str(self.name)
    }

    /// The name shown for the tile.
    pub fn display_name(&self) -> (r: String)
        ensures
            r@ == self.name@,
    {
        String::from_str(self.name)
    }
}

/// An entity in the palette: its name and which of its templates.
#[derive(Copy, Clone, Debug, PartialEq, Eq)]
pub struct EntitySelectable {
    pub entity: &'static str,
    pub template: usize,
}

impl Default for EntitySelectable {
    fn default() -> (r: Self)
        ensures
            r.entity@ == "does not exist"@,
            r.template == 0,
    {
        EntitySelectable { entity: "does not exist", template: 0 }
    }
}

impl EntitySelectable {
    /// The palette entry that stands for an entity not in the palette.
    pub fn other() -> (r: Self)
        ensures
            r.entity@ == "arborio/other"@,
            r.template == 0,
    {
        EntitySelectable { entity: "arborio/other", template: 0 }
    }
}

/// A trigger in the palette: its name and which of its templates.
#[derive(Copy, Clone, Debug, PartialEq, Eq)]
pub struct TriggerSelectable {
    pub trigger: &'static str,
    pub template: usize,
}

impl Default for TriggerSelectable {
    fn default() -> (r: Self)
        ensures
            r.trigger@ == "does not exist"@,
            r.template == 0,
    {
        TriggerSelectable { trigger: "does not exist", template: 0 }
    }
}

impl TriggerSelectable {
    /// The palette entry that stands for a trigger not in the palette.
    pub fn other() -> (r: Self)
        ensures
            r.trigger@ == "arborio/other"@,
            r.template == 0,
    {
        TriggerSelectable { trigger: "arborio/other", template: 0 }
    }
}

/// A decal in the palette, by its texture.
#[derive(Copy, Clone, Debug, PartialEq, Eq)]
pub struct DecalSelectable(pub &'static str);

impl Default for DecalSelectable {
    fn default() -> (r: Self)
        ensures
            r.0@ == "does not exist"@,
    {
        DecalSelectable("does not exist")
    }
}

impl DecalSelectable {
    /// The palette entry that stands for a decal not in the palette.
    pub fn other() -> (r: Self)
        ensures
            r.0@ == "arborio/other"@,
    {
        DecalSelectable("arborio/other")
    }

    /// The text a search of the palette matches against: the texture.
    pub fn search_text(&self) -> (r: String)
        ensures
            r@ == self.0@,
    {
        String::from_str(self.0)
    }

    /// The name shown for the decal: its texture.
    pub fn display_name(&self) -> (r: String)
        ensures
            r@ == self.0@,
    {
        String::from_str(self.0)
    }
}

/// A span drawn from `start` with signed extent `len`: where it begins and
/// how long it is.
pub open spec fn span(start: int, len: int) -> (int, int) {
    if len < 0 { (start + len, -len) } else { (start, len) }
}

/// The position and size an entity or trigger gets when drawn from `(x, y)`
/// with a signed extent: a negative extent moves the corner back; each side
/// is at least its minimum, and is the minimum where it cannot be resized.
pub open spec fn spec_placed(
    x: int, y: int, width: int, height: int,
    min_x: int, min_y: int, resizable_x: bool, resizable_y: bool,
) -> (int, int, int, int) {
    let (px, w) = span(x, width);
    let (py, h) = span(y, height);
    (
        px,
        py,
        if !resizable_x { min_x } else if w < min_x { min_x } else { w },
        if !resizable_y { min_y } else if h < min_y { min_y } else { h },
    )
}

fn place_span(start: i32, len: i32) -> (r: (i32, u32))
    requires
        len != i32::MIN,
        fits_i32(span(start as int, len as int).0),
    ensures
        (r.0 as int, r.1 as int) == span(start as int, len as int),
{
    if len < 0 {
        (start + len, (-len) as u32)
    } else {
        (start, len as u32)
    }
}

/// Where an entity drawn from `(x, y)` with the signed extent `width` by
/// `height` lands, given its configured minimum size and whether it can be
/// resized across and down.
pub fn entity_bounds(
    x: i32, y: i32, width: i32, height: i32,
    minimum_size_x: u32, minimum_size_y: u32, resizable_x: bool, resizable_y: bool,
) -> (r: (i32, i32, u32, u32))
    requires
        width != i32::MIN,
        height != i32::MIN,
        fits_i32(span(x as int, width as int).0),
        fits_i32(span(y as int, height as int).0),
    ensures
        (r.0 as int, r.1 as int, r.2 as int, r.3 as int) == spec_placed(
            x as int, y as int, width as int, height as int,
            minimum_size_x as int, minimum_size_y as int, resizable_x, resizable_y),
{
    let (px, w) = place_span(x, width);
    let (py, h) = place_span(y, height);
    let w = if w < minimum_size_x { minimum_size_x } else { w };
    let h = if h < minimum_size_y { minimum_size_y } else { h };
    let w = if !resizable_x { minimum_size_x } else { w };
    let h = if !resizable_y { minimum_size_y } else { h };
    (px, py, w, h)
}

/// Where a trigger drawn from `(x, y)` with the signed extent `width` by
/// `height` lands: at least 8 by 8.
pub fn trigger_bounds(x: i32, y: i32, width: i32, height: i32) -> (r: (i32, i32, u32, u32))
    requires
        width != i32::MIN,
        height != i32::MIN,
        fits_i32(span(x as int, width as int).0),
        fits_i32(span(y as int, height as int).0),
    ensures
        (r.0 as int, r.1 as int, r.2 as int, r.3 as int) == spec_placed(
            x as int, y as int, width as int, height as int, 8, 8, true, true),
{
    let (px, w) = place_span(x, width);
    let (py, h) = place_span(y, height);
    (px, py, if w < 8 { 8 } else { w }, if h < 8 { 8 } else { h })
}

} // verus!
