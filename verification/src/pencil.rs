use vstd::prelude::*;
use crate::config::PencilBehavior;
use crate::layer::Layer;
use crate::units::{
    RoomPoint, TilePoint, div_toward_zero, point_room_to_tile, point_tile_to_room, times8_fits,
};
use crate::uuid::IdCounter;

verus! {

/// The pencil: where the stroke under way last drew, and the phase its
/// edits are grouped under.
#[derive(Copy, Clone, Debug)]
pub struct PencilTool {
    pub reference_point: Option<RoomPoint>,
    pub draw_phase: u32,
}

/// An edit the pencil asks for, under the stroke's phase. `EntityAt` and
/// `EntitySpan` are entities (or triggers, for `true`) instantiated from the
/// current template at a point, or spanning from a first point to a second;
/// `DecalAt` is the current decal (`true` in the foreground) at a point.
#[derive(Copy, Clone, Debug, PartialEq, Eq, Structural)]
pub enum PencilEdit {
    TileUpdate(bool, i32, i32, char),
    ObjectTileUpdate(i32, i32, i32),
    EntityAt(i32, i32),
    EntitySpan(i32, i32, i32, i32, bool),
    DecalAt(i32, i32, bool),
}

/// A room position rounded toward zero to the tile grid when snapping.
pub open spec fn snap_pos(x: int, snap: bool) -> int {
    if snap { div_toward_zero(x, 8) * 8 } else { x }
}

/// The tile a tile layer is painted with: the chosen one, or when none is
/// chosen the first of the fallback text, or '0'.
pub open spec fn spec_brush(chosen: char, fallback: Option<char>) -> char {
    if chosen == '\0' {
        match fallback {
            Some(c) => c,
            None => '0',
        }
    } else {
        chosen
    }
}

pub fn brush_tile(chosen: char, fallback: Option<char>) -> (r: char)
    ensures
        r == spec_brush(chosen, fallback),
{
    if chosen == '\0' {
        match fallback {
            Some(c) => c,
            None => '0',
        }
    } else {
        chosen
    }
}

/// The points a line of entities is placed at: each step, snapped when
/// snapping, skipping one equal to the point placed just before.
pub open spec fn placed(steps: Seq<RoomPoint>, snap: bool, n: nat) -> Seq<(int, int)>
    decreases n,
{
    if n == 0 {
        Seq::empty()
    } else {
        let before = placed(steps, snap, (n - 1) as nat);
        let q = (snap_pos(steps[n - 1].x as int, snap), snap_pos(steps[n - 1].y as int, snap));
        if before.len() > 0 && before.last() == q { before } else { before.push(q) }
    }
}

/// Where a point is, as a pair.
pub open spec fn at(p: Option<RoomPoint>) -> Option<(int, int)> {
    match p {
        Some(q) => Some((q.x as int, q.y as int)),
        None => None,
    }
}

/// Whether the pencil draws entities or triggers by a reference point.
pub open spec fn by_reference(layer: Layer, behavior: PencilBehavior) -> bool {
    layer == Layer::Triggers || (layer == Layer::Entities && behavior != PencilBehavior::Line)
}

proof fn lemma_snap_fits(v: i32)
    ensures
        i32::MIN <= div_toward_zero(v as int, 8) * 8 <= i32::MAX,
        div_toward_zero(v as int, 8) * 8 <= v || v < 0,
{
}

fn snap_point(p: RoomPoint, snap: bool) -> (r: RoomPoint)
    ensures
        r.x == snap_pos(p.x as int, snap),
        r.y == snap_pos(p.y as int, snap),
{
    if snap {
        let t = point_room_to_tile(&p);
        proof {
            lemma_snap_fits(p.x);
            lemma_snap_fits(p.y);
        }
        point_tile_to_room(&t)
    } else {
        p
    }
}

impl PencilTool {
    /// A pencil with no stroke under way.
    pub fn new() -> (r: Self)
        ensures
            r.reference_point is None,
            r.draw_phase == 0,
    {
        PencilTool { reference_point: None, draw_phase: 0 }
    }

    /// Starts a stroke at `room_pos` under a fresh phase; entities drawn by
    /// node or rectangle, and triggers, take the (snapped) point as reference.
    pub fn draw_start(&mut self, layer: Layer, behavior: PencilBehavior, room_pos: RoomPoint, snap: bool, ids: &mut IdCounter)
        ensures
            final(self).draw_phase == old(ids)@,
            final(ids)@ == (if old(ids)@ == u32::MAX { 0 } else { old(ids)@ + 1 }),
            at(final(self).reference_point) == (if by_reference(layer, behavior) {
                Some((snap_pos(room_pos.x as int, snap), snap_pos(room_pos.y as int, snap)))
            } else {
                at(old(self).reference_point)
            }),
    {
        self.draw_phase = ids.next_uuid();
        if layer == Layer::Triggers || (layer == Layer::Entities && behavior != PencilBehavior::Line) {
            self.reference_point = Some(snap_point(room_pos, snap));
        }
    }
}


/// What one step of a stroke at `room_pos` asks for and where it leaves the
/// reference point: an object tile is set at the tile under the pointer; a
/// tile layer is painted at the tile under the pointer to start, then at each
/// tile stepped through since the reference point; an entity line places an
/// entity at the (snapped) pointer to start, then at each point stepped
/// through since, skipping repeats.
pub open spec fn pencil_step(
    p0: PencilTool, layer: Layer, behavior: PencilBehavior, room_pos: RoomPoint, snap: bool, brush: char,
    objtile: i32, tile_steps: Seq<TilePoint>, line_steps: Seq<RoomPoint>, p1: PencilTool, out: Seq<PencilEdit>,
) -> bool {
    let tx = div_toward_zero(room_pos.x as int, 8);
    let ty = div_toward_zero(room_pos.y as int, 8);
    let rx = snap_pos(room_pos.x as int, snap);
    let ry = snap_pos(room_pos.y as int, snap);
    &&& p1.draw_phase == p0.draw_phase
    &&& if layer == Layer::ObjectTiles {
        &&& out == seq![PencilEdit::ObjectTileUpdate(tx as i32, ty as i32, objtile)]
        &&& at(p1.reference_point) == at(p0.reference_point)
    } else if layer == Layer::FgTiles || layer == Layer::BgTiles {
        let fg = layer == Layer::FgTiles;
        if p0.reference_point is Some {
            &&& out.len() == tile_steps.len()
            &&& forall|k: int| 0 <= k < out.len() ==> #[trigger] out[k]
                == PencilEdit::TileUpdate(fg, tile_steps[k].x, tile_steps[k].y, brush)
            &&& at(p1.reference_point) == (if tile_steps.len() == 0 { at(p0.reference_point) } else {
                Some((tile_steps.last().x * 8, tile_steps.last().y * 8))
            })
        } else {
            &&& out == seq![PencilEdit::TileUpdate(fg, tx as i32, ty as i32, brush)]
            &&& at(p1.reference_point) == Some((rx, ry))
        }
    } else if layer == Layer::Entities && behavior == PencilBehavior::Line {
        if p0.reference_point is Some {
            let pl = placed(line_steps, snap, line_steps.len());
            &&& out.len() == pl.len()
            &&& forall|k: int| 0 <= k < out.len() ==> #[trigger] out[k]
                == PencilEdit::EntityAt(pl[k].0 as i32, pl[k].1 as i32)
            &&& at(p1.reference_point) == (if pl.len() == 0 { at(p0.reference_point) } else { Some(pl.last()) })
        } else {
            &&& out == seq![PencilEdit::EntityAt(rx as i32, ry as i32)]
            &&& at(p1.reference_point) == Some((rx, ry))
        }
    } else {
        &&& out.len() == 0
        &&& at(p1.reference_point) == at(p0.reference_point)
    }
}

/// Whether the point `t` of the tile grid is the tile that holds the room
/// position `v`, rounding toward zero: `8 * t` lies between 0 and `v`, less
/// than a tile from `v`.
pub open spec fn tile_holds(t: int, v: int) -> bool {
    &&& (0 <= 8 * t <= v || v <= 8 * t <= 0)
    &&& -8 < v - 8 * t < 8
}

/// Every edit a pencil step asks for belongs to the layer drawn on: a tile
/// edit only on a tile layer, on the foreground exactly when the layer is
/// the foreground tiles, with the brush; an object tile edit only on the
/// object tiles, with the chosen object tile; an entity only on the entity
/// layer drawing lines; never a span or a decal. The first step of a stroke
/// on a tile or object tile layer edits one tile, the one under the pointer.
pub proof fn law_pencil_edits_match_layer(
    p0: PencilTool, layer: Layer, behavior: PencilBehavior, room_pos: RoomPoint, snap: bool, brush: char,
    objtile: i32, tile_steps: Seq<TilePoint>, line_steps: Seq<RoomPoint>, p1: PencilTool, out: Seq<PencilEdit>,
)
    requires
        pencil_step(p0, layer, behavior, room_pos, snap, brush, objtile, tile_steps, line_steps, p1, out),
    ensures
        forall|k: int| 0 <= k < out.len() ==> match #[trigger] out[k] {
            PencilEdit::TileUpdate(fg, _, _, c) => (layer == Layer::FgTiles || layer == Layer::BgTiles)
                && fg == (layer == Layer::FgTiles) && c == brush,
            PencilEdit::ObjectTileUpdate(_, _, t) => layer == Layer::ObjectTiles && t == objtile,
            PencilEdit::EntityAt(_, _) => layer == Layer::Entities && behavior == PencilBehavior::Line,
            _ => false,
        },
        (layer == Layer::ObjectTiles || ((layer == Layer::FgTiles || layer == Layer::BgTiles) && p0.reference_point is None))
            ==> out.len() == 1 && match out[0] {
                PencilEdit::TileUpdate(_, x, y, _) => tile_holds(x as int, room_pos.x as int) && tile_holds(y as int, room_pos.y as int),
                PencilEdit::ObjectTileUpdate(x, y, _) => tile_holds(x as int, room_pos.x as int) && tile_holds(y as int, room_pos.y as int),
                _ => false,
            },
        ((layer == Layer::FgTiles || layer == Layer::BgTiles) && p0.reference_point is Some) ==> {
            &&& out.len() == tile_steps.len()
            &&& forall|k: int| 0 <= k < out.len() ==> (#[trigger] out[k] matches PencilEdit::TileUpdate(_, x, y, _)
                && x == tile_steps[k].x && y == tile_steps[k].y)
            &&& tile_steps.len() > 0 ==> (p1.reference_point matches Some(q)
                && q.x == 8 * tile_steps.last().x && q.y == 8 * tile_steps.last().y)
        },
        layer == Layer::Entities && behavior == PencilBehavior::Line
            ==> forall|k: int| 0 < k < out.len() ==> #[trigger] out[k] != out[k - 1],
        p1.draw_phase == p0.draw_phase,
{
    lemma_div_toward_zero_holds(room_pos.x as int);
    lemma_div_toward_zero_holds(room_pos.y as int);
    if layer == Layer::Entities && behavior == PencilBehavior::Line && p0.reference_point is Some {
        let pl = placed(line_steps, snap, line_steps.len());
        lemma_placed_no_repeats(line_steps, snap, line_steps.len());
        assert forall|k: int| 0 < k < out.len() implies #[trigger] out[k] != out[k - 1] by {
            assert(pl[k] != pl[k - 1]);
            assert(out[k] == PencilEdit::EntityAt(pl[k].0 as i32, pl[k].1 as i32));
            assert(out[k - 1] == PencilEdit::EntityAt(pl[k - 1].0 as i32, pl[k - 1].1 as i32));
        }
    }
}

proof fn lemma_placed_no_repeats(steps: Seq<RoomPoint>, snap: bool, n: nat)
    requires
        n <= steps.len(),
    ensures
        forall|k: int| 0 < k < placed(steps, snap, n).len() ==> #[trigger] placed(steps, snap, n)[k] != placed(steps, snap, n)[k - 1],
        forall|k: int| 0 <= k < placed(steps, snap, n).len() ==> {
            let q = #[trigger] placed(steps, snap, n)[k];
            i32::MIN <= q.0 <= i32::MAX && i32::MIN <= q.1 <= i32::MAX
        },
    decreases n,
{
    if n > 0 {
        lemma_placed_no_repeats(steps, snap, (n - 1) as nat);
        lemma_snap_fits(steps[n - 1].x);
        lemma_snap_fits(steps[n - 1].y);
        let before = placed(steps, snap, (n - 1) as nat);
        let pl = placed(steps, snap, n);
        assert forall|k: int| 0 < k < pl.len() implies #[trigger] pl[k] != pl[k - 1] by {
            if k < before.len() {
                assert(pl[k] == before[k] && pl[k - 1] == before[k - 1]);
            }
        }
        assert forall|k: int| 0 <= k < pl.len() implies {
            let q = #[trigger] pl[k];
            i32::MIN <= q.0 <= i32::MAX && i32::MIN <= q.1 <= i32::MAX
        } by {
            if k < before.len() {
                assert(pl[k] == before[k]);
            }
        }
    }
}

proof fn lemma_div_toward_zero_holds(v: int)
    requires
        i32::MIN <= v <= i32::MAX,
    ensures
        tile_holds(div_toward_zero(v, 8), v),
        i32::MIN <= div_toward_zero(v, 8) <= i32::MAX,
{
}

impl PencilTool {
    /// One step of a stroke at `room_pos`, painting `brush` on a tile layer
    /// and `objtile` on the object tiles. `tile_steps` are the tiles a line
    /// walks through from the reference point's tile to the pointer's, and
    /// `line_steps` the points an entity line walks through from the
    /// reference point to the pointer, both as the caller's walk gives them.
    pub fn draw(
        &mut self,
        layer: Layer,
        behavior: PencilBehavior,
        room_pos: RoomPoint,
        snap: bool,
        brush: char,
        objtile: i32,
        tile_steps: &Vec<TilePoint>,
        line_steps: &Vec<RoomPoint>,
    ) -> (out: Vec<PencilEdit>)
        requires
            forall|k: int| 0 <= k < tile_steps@.len()
                ==> times8_fits(#[trigger] tile_steps@[k].x as int, tile_steps@[k].y as int),
        ensures
            pencil_step(*old(self), layer, behavior, room_pos, snap, brush, objtile, tile_steps@, line_steps@,
                *final(self), out@),
    {
        let tile = point_room_to_tile(&room_pos);
        let pos = snap_point(room_pos, snap);
        let mut out: Vec<PencilEdit> = Vec::new();
        if layer == Layer::ObjectTiles {
            out.push(PencilEdit::ObjectTileUpdate(tile.x, tile.y, objtile));
        } else if layer == Layer::FgTiles || layer == Layer::BgTiles {
            let fg = layer == Layer::FgTiles;
            if self.reference_point.is_some() {
                let mut k: usize = 0;
                while k < tile_steps.len()
                    invariant
                        k <= tile_steps@.len(),
                        forall|j: int| 0 <= j < tile_steps@.len()
                            ==> times8_fits(#[trigger] tile_steps@[j].x as int, tile_steps@[j].y as int),
                        self.draw_phase == old(self).draw_phase,
                        out@.len() == k,
                        forall|j: int| 0 <= j < k ==> #[trigger] out@[j]
                            == PencilEdit::TileUpdate(fg, tile_steps@[j].x, tile_steps@[j].y, brush),
                        at(self.reference_point) == (if k == 0 { at(old(self).reference_point) } else {
                            Some((tile_steps@[k - 1].x * 8, tile_steps@[k - 1].y * 8))
                        }),
                    decreases tile_steps@.len() - k,
                {
                    let step = tile_steps[k];
                    out.push(PencilEdit::TileUpdate(fg, step.x, step.y, brush));
                    assert(times8_fits(tile_steps@[k as int].x as int, tile_steps@[k as int].y as int));
                    self.reference_point = Some(point_tile_to_room(&step));
                    k = k + 1;
                }
            } else {
                self.reference_point = Some(pos);
                out.push(PencilEdit::TileUpdate(fg, tile.x, tile.y, brush));
            }
        } else if layer == Layer::Entities && behavior == PencilBehavior::Line {
            if self.reference_point.is_some() {
                let mut last: Option<RoomPoint> = None;
                let mut k: usize = 0;
                while k < line_steps.len()
                    invariant
                        k <= line_steps@.len(),
                        self.draw_phase == old(self).draw_phase,
                        out@.len() == placed(line_steps@, snap, k as nat).len(),
                        forall|j: int| 0 <= j < out@.len() ==> #[trigger] out@[j]
                            == PencilEdit::EntityAt(placed(line_steps@, snap, k as nat)[j].0 as i32,
                                placed(line_steps@, snap, k as nat)[j].1 as i32),
                        forall|j: int| 0 <= j < placed(line_steps@, snap, k as nat).len() ==> {
                            let q = #[trigger] placed(line_steps@, snap, k as nat)[j];
                            i32::MIN <= q.0 <= i32::MAX && i32::MIN <= q.1 <= i32::MAX
                        },
                        at(last) == (if placed(line_steps@, snap, k as nat).len() == 0 { None } else {
                            Some(placed(line_steps@, snap, k as nat).last())
                        }),
                        at(self.reference_point) == (if placed(line_steps@, snap, k as nat).len() == 0 {
                            at(old(self).reference_point)
                        } else {
                            Some(placed(line_steps@, snap, k as nat).last())
                        }),
                    decreases line_steps@.len() - k,
                {
                    let step = snap_point(line_steps[k], snap);
                    let repeat = match last {
                        Some(l) => l.x == step.x && l.y == step.y,
                        None => false,
                    };
                    if !repeat {
                        last = Some(step);
                        out.push(PencilEdit::EntityAt(step.x, step.y));
                        self.reference_point = Some(step);
                    }
                    proof {
                        let pl = placed(line_steps@, snap, (k + 1) as nat);
                        let before = placed(line_steps@, snap, k as nat);
                        if !repeat {
                            assert forall|j: int| 0 <= j < out@.len() implies #[trigger] out@[j]
                                == PencilEdit::EntityAt(pl[j].0 as i32, pl[j].1 as i32) by {
                                if j < before.len() {
                                    assert(pl[j] == before[j]);
                                }
                            }
                        }
                    }
                    k = k + 1;
                }
            } else {
                self.reference_point = Some(pos);
                out.push(PencilEdit::EntityAt(pos.x, pos.y));
            }
        }
        out
    }

    /// Ends a stroke at `room_pos`: an entity or trigger drawn by reference
    /// spans from the reference point to the (snapped) pointer, a decal is
    /// placed at the pointer; the reference point is dropped.
    pub fn draw_finish(&mut self, layer: Layer, behavior: PencilBehavior, room_pos: RoomPoint, snap: bool)
        -> (out: Vec<PencilEdit>)
        ensures
            final(self).reference_point is None,
            final(self).draw_phase == old(self).draw_phase,
            out@ == (if by_reference(layer, behavior) {
                match old(self).reference_point {
                    Some(r) => seq![PencilEdit::EntitySpan(r.x, r.y, snap_pos(room_pos.x as int, snap) as i32,
                        snap_pos(room_pos.y as int, snap) as i32, layer == Layer::Triggers)],
                    None => seq![],
                }
            } else if layer == Layer::FgDecals || layer == Layer::BgDecals {
                seq![PencilEdit::DecalAt(snap_pos(room_pos.x as int, snap) as i32,
                    snap_pos(room_pos.y as int, snap) as i32, layer == Layer::FgDecals)]
            } else {
                seq![]
            }),
    {
        let pos = snap_point(room_pos, snap);
        let mut out: Vec<PencilEdit> = Vec::new();
        if layer == Layer::Triggers || (layer == Layer::Entities && behavior != PencilBehavior::Line) {
            match self.reference_point {
                Some(r) => out.push(PencilEdit::EntitySpan(r.x, r.y, pos.x, pos.y, layer == Layer::Triggers)),
                None => {},
            }
        } else if layer == Layer::FgDecals || layer == Layer::BgDecals {
            out.push(PencilEdit::DecalAt(pos.x, pos.y, layer == Layer::FgDecals));
        }
        self.reference_point = None;
        out
    }
}
} // verus!
