//! Verified core of a Celeste map editor: geometry in tile, room and map
//! space, tile grids and their undoable patches, the binary map format, SID
//! and version parsing, module bookkeeping, stylegrounds, tabs and the packed
//! sprite atlas formats, room edits and their undo history, and the
//! decisions of the editor's tools.
pub mod units;
pub mod tile_grid;
pub mod tiles;
pub mod flood;
pub mod binel;
pub mod binfmt;
pub mod binwrite;
pub mod binlaw;
pub mod binread;
pub mod sid;
pub mod everest;
pub mod rooms;
pub mod uuid;
pub mod module;
pub mod selectable;
pub mod config;
pub mod color;
pub mod fuzzy;
pub mod registry;
pub mod layer;
pub mod search;
pub mod atlas;
pub mod tabs;
pub mod styles;
pub mod selection;
pub mod room;
pub mod history;
pub mod app_state;
pub mod room_tool;
pub mod pencil;
pub mod resize;
pub mod select_area;
pub mod lift;
pub mod map;
pub mod nudge;
pub mod selection_tool;
