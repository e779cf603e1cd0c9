use vstd::prelude::*;
use crate::units::TilePoint;

verus! {

/// A thing selected in a room: a tile of a layer, a lifted float of a
/// layer, an entity or trigger (by id, `true` for a trigger) or one of its
/// nodes, or a decal (by id, `true` in the foreground).
#[derive(Copy, Clone, Debug)]
pub enum AppSelection {
    FgTile(TilePoint),
    BgTile(TilePoint),
    ObjectTile(TilePoint),
    FgFloat,
    BgFloat,
    ObjFloat,
    EntityBody(i32, bool),
    EntityNode(i32, usize, bool),
    Decal(u32, bool),
}

impl AppSelection {
    /// The entity or trigger a selection belongs to, by id and whether it
    /// is a trigger.
    pub fn entity_info(&self) -> (r: Option<(i32, bool)>)
        ensures
            r == match *self {
                AppSelection::EntityBody(id, trigger) => Some((id, trigger)),
                AppSelection::EntityNode(id, _, trigger) => Some((id, trigger)),
                _ => None,
            },
    {
        match self {
            AppSelection::EntityBody(entity_id, trigger) => Some((*entity_id, *trigger)),
            AppSelection::EntityNode(entity_id, _, trigger) => Some((*entity_id, *trigger)),
            _ => None,
        }
    }
}

} // verus!
