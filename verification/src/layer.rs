use vstd::prelude::*;

verus! {

/// A layer of a room that the editor tools work on.
#[derive(Debug, Copy, Clone, PartialEq, Eq, Structural)]
pub enum Layer {
    FgTiles,
    BgTiles,
    FgDecals,
    BgDecals,
    Entities,
    Triggers,
    ObjectTiles,
    All,
}

/// The name a layer is shown under.
pub open spec fn layer_name(l: Layer) -> Seq<char> {
    match l {
        Layer::FgTiles => "Foreground Tiles"@,
        Layer::BgTiles => "Background Tiles"@,
        Layer::Entities => "Entities"@,
        Layer::Triggers => "Triggers"@,
        Layer::FgDecals => "Foreground Decals"@,
        Layer::BgDecals => "Background Decals"@,
        Layer::ObjectTiles => "Object Tiles"@,
        Layer::All => "All Layers"@,
    }
}

impl Layer {
    /// The name this layer is shown under.
    pub fn name(&self) -> (r: &'static str)
        ensures
            r@ == layer_name(*self),
    {
        match self {
            Layer::FgTiles => "Foreground Tiles",
            Layer::BgTiles => "Background Tiles",
            Layer::Entities => "Entities",
            Layer::Triggers => "Triggers",
            Layer::FgDecals => "Foreground Decals",
            Layer::BgDecals => "Background Decals",
            Layer::ObjectTiles => "Object Tiles",
            Layer::All => "All Layers",
        }
    }
}

} // verus!
