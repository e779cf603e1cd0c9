//! Undoable edits of a map's stylegrounds: each edit, applied, gives back
//! the edit that undoes it.
use vstd::prelude::*;

verus! {

/// A place among the stylegrounds: in the foreground or background list,
/// at an index.
#[derive(Copy, Clone, Debug, PartialEq, Eq, Structural)]
pub struct StylegroundSelection {
    pub fg: bool,
    pub idx: usize,
}

/// The foreground and background stylegrounds of a map, drawn in order.
#[derive(Debug)]
pub struct Stylegrounds<S> {
    pub fg: Vec<S>,
    pub bg: Vec<S>,
}

/// An edit of the stylegrounds.
#[derive(Debug)]
pub enum StylegroundAction<S> {
    AddStyleground { loc: StylegroundSelection, style: S },
    UpdateStyleground { loc: StylegroundSelection, style: S },
    RemoveStyleground { loc: StylegroundSelection },
    MoveStyleground { loc: StylegroundSelection, target: StylegroundSelection },
}

/// The list that a place is in.
pub open spec fn list_of<S>(fg: Seq<S>, bg: Seq<S>, in_fg: bool) -> Seq<S> {
    if in_fg { fg } else { bg }
}

/// The two lists with the one chosen by `in_fg` replaced by `v`.
pub open spec fn with_list<S>(fg: Seq<S>, bg: Seq<S>, in_fg: bool, v: Seq<S>) -> (Seq<S>, Seq<S>) {
    if in_fg { (v, bg) } else { (fg, v) }
}

/// What an edit does to the lists `(fg, bg)`: the new lists and the edit
/// that undoes it, or `None` where the place is out of range.
pub open spec fn spec_apply<S>(fg: Seq<S>, bg: Seq<S>, a: StylegroundAction<S>) -> Option<(Seq<S>, Seq<S>, StylegroundAction<S>)> {
    match a {
        StylegroundAction::AddStyleground { loc, style } => {
            let v = list_of(fg, bg, loc.fg);
            if loc.idx <= v.len() {
                let (f, b) = with_list(fg, bg, loc.fg, v.insert(loc.idx as int, style));
                Some((f, b, StylegroundAction::RemoveStyleground { loc }))
            } else {
                None
            }
        },
        StylegroundAction::UpdateStyleground { loc, style } => {
            let v = list_of(fg, bg, loc.fg);
            if loc.idx < v.len() {
                let (f, b) = with_list(fg, bg, loc.fg, v.update(loc.idx as int, style));
                Some((f, b, StylegroundAction::UpdateStyleground { loc, style: v[loc.idx as int] }))
            } else {
                None
            }
        },
        StylegroundAction::RemoveStyleground { loc } => {
            let v = list_of(fg, bg, loc.fg);
            if loc.idx < v.len() {
                let (f, b) = with_list(fg, bg, loc.fg, v.remove(loc.idx as int));
                Some((f, b, StylegroundAction::AddStyleground { loc, style: v[loc.idx as int] }))
            } else {
                None
            }
        },
        StylegroundAction::MoveStyleground { loc, target } => {
            let v = list_of(fg, bg, loc.fg);
            if loc.idx < v.len() {
                let style = v[loc.idx as int];
                let (f1, b1) = with_list(fg, bg, loc.fg, v.remove(loc.idx as int));
                let dest = if target.idx <= list_of(f1, b1, target.fg).len() { target } else { loc };
                let (f2, b2) = with_list(f1, b1, dest.fg, list_of(f1, b1, dest.fg).insert(dest.idx as int, style));
                Some((f2, b2, StylegroundAction::MoveStyleground { loc: dest, target: loc }))
            } else {
                None
            }
        },
    }
}

/// Whether applying `inv` to `(f, b)` gives back `(fg, bg)`.
pub open spec fn undoes<S>(f: Seq<S>, b: Seq<S>, inv: StylegroundAction<S>, fg: Seq<S>, bg: Seq<S>) -> bool {
    match spec_apply(f, b, inv) {
        Some((f2, b2, _)) => f2 == fg && b2 == bg,
        None => false,
    }
}

proof fn lemma_with_list<S>(fg: Seq<S>, bg: Seq<S>, in_fg: bool, v: Seq<S>)
    ensures
        list_of(with_list(fg, bg, in_fg, v).0, with_list(fg, bg, in_fg, v).1, in_fg) == v,
        with_list(fg, bg, in_fg, list_of(fg, bg, in_fg)) == (fg, bg),
{
}

proof fn lemma_undo_move<S>(fg: Seq<S>, bg: Seq<S>, loc: StylegroundSelection, target: StylegroundSelection)
    requires
        loc.idx < list_of(fg, bg, loc.fg).len(),
    ensures
        ({
            let (f, b, inv) = spec_apply(fg, bg, StylegroundAction::MoveStyleground { loc, target })->0;
            undoes(f, b, inv, fg, bg)
        }),
{
    let v = list_of(fg, bg, loc.fg);
    let style = v[loc.idx as int];
    let (f1, b1) = with_list(fg, bg, loc.fg, v.remove(loc.idx as int));
    lemma_with_list(fg, bg, loc.fg, v.remove(loc.idx as int));
    let dest = if target.idx <= list_of(f1, b1, target.fg).len() { target } else { loc };
    let w = list_of(f1, b1, dest.fg);
    let (f2, b2) = with_list(f1, b1, dest.fg, w.insert(dest.idx as int, style));
    lemma_with_list(f1, b1, dest.fg, w.insert(dest.idx as int, style));
    assert(w.insert(dest.idx as int, style).remove(dest.idx as int) =~= w);
    lemma_with_list(f1, b1, dest.fg, w);
    lemma_with_list(f1, b1, loc.fg, v.remove(loc.idx as int).insert(loc.idx as int, style));
    assert(v.remove(loc.idx as int).insert(loc.idx as int, style) =~= v);
    lemma_with_list(fg, bg, loc.fg, v);
}

/// Undoing an edit restores the stylegrounds: where an edit applies, the
/// edit it gives back applies to the result and gives back the lists as
/// they were.
pub proof fn law_styleground_undo<S>(fg: Seq<S>, bg: Seq<S>, a: StylegroundAction<S>)
    requires
        spec_apply(fg, bg, a) is Some,
    ensures
        ({
            let (f, b, inv) = spec_apply(fg, bg, a)->0;
            undoes(f, b, inv, fg, bg)
        }),
{
    match a {
        StylegroundAction::AddStyleground { loc, style } => {
            let v = list_of(fg, bg, loc.fg);
            lemma_with_list(fg, bg, loc.fg, v.insert(loc.idx as int, style));
            assert(v.insert(loc.idx as int, style).remove(loc.idx as int) =~= v);
            lemma_with_list(fg, bg, loc.fg, v);
        },
        StylegroundAction::UpdateStyleground { loc, style } => {
            let v = list_of(fg, bg, loc.fg);
            lemma_with_list(fg, bg, loc.fg, v.update(loc.idx as int, style));
            assert(v.update(loc.idx as int, style).update(loc.idx as int, v[loc.idx as int]) =~= v);
            lemma_with_list(fg, bg, loc.fg, v);
        },
        StylegroundAction::RemoveStyleground { loc } => {
            let v = list_of(fg, bg, loc.fg);
            lemma_with_list(fg, bg, loc.fg, v.remove(loc.idx as int));
            assert(v.remove(loc.idx as int).insert(loc.idx as int, v[loc.idx as int]) =~= v);
            lemma_with_list(fg, bg, loc.fg, v);
        },
        StylegroundAction::MoveStyleground { loc, target } => {
            lemma_undo_move(fg, bg, loc, target);
        },
    }
}

fn out_of_range() -> (r: String)
    ensures
        r@ == "Out of range"@,
{
    String::from_str("Out of range")
}

impl<S> Stylegrounds<S> {
    fn insert_at(&mut self, in_fg: bool, idx: usize, style: S)
        requires
            idx <= list_of(old(self).fg@, old(self).bg@, in_fg).len(),
        ensures
            (final(self).fg@, final(self).bg@) == with_list(old(self).fg@, old(self).bg@, in_fg,
                list_of(old(self).fg@, old(self).bg@, in_fg).insert(idx as int, style)),
    {
        if in_fg {
            self.fg.insert(idx, style);
        } else {
            self.bg.insert(idx, style);
        }
    }

    fn remove_at(&mut self, in_fg: bool, idx: usize) -> (r: S)
        requires
            idx < list_of(old(self).fg@, old(self).bg@, in_fg).len(),
        ensures
            r == list_of(old(self).fg@, old(self).bg@, in_fg)[idx as int],
            (final(self).fg@, final(self).bg@) == with_list(old(self).fg@, old(self).bg@, in_fg,
                list_of(old(self).fg@, old(self).bg@, in_fg).remove(idx as int)),
    {
        if in_fg {
            self.fg.remove(idx)
        } else {
            self.bg.remove(idx)
        }
    }

    fn len_of(&self, in_fg: bool) -> (r: usize)
        ensures
            r == list_of(self.fg@, self.bg@, in_fg).len(),
    {
        if in_fg { self.fg.len() } else { self.bg.len() }
    }

    /// Applies an edit and gives back the edit that undoes it; an edit at a
    /// place out of range is refused with `"Out of range"` and changes
    /// nothing.
    pub fn apply(&mut self, action: StylegroundAction<S>) -> (r: Result<StylegroundAction<S>, String>)
        ensures
            match spec_apply(old(self).fg@, old(self).bg@, action) {
                Some((f, b, inv)) => r == Ok::<StylegroundAction<S>, String>(inv) && final(self).fg@ == f
                    && final(self).bg@ == b,
                None => r matches Err(e) && e@ == "Out of range"@ && final(self).fg@ == old(self).fg@
                    && final(self).bg@ == old(self).bg@,
            },
    {
        match action {
            StylegroundAction::AddStyleground { loc, style } => {
                if loc.idx <= self.len_of(loc.fg) {
                    self.insert_at(loc.fg, loc.idx, style);
                    Ok(StylegroundAction::RemoveStyleground { loc })
                } else {
                    Err(out_of_range())
                }
            },
            StylegroundAction::UpdateStyleground { loc, style } => {
                if loc.idx < self.len_of(loc.fg) {
                    let old_style = self.remove_at(loc.fg, loc.idx);
                    self.insert_at(loc.fg, loc.idx, style);
                    proof {
                        let v = list_of(old(self).fg@, old(self).bg@, loc.fg);
                        assert(v.remove(loc.idx as int).insert(loc.idx as int, style) =~= v.update(loc.idx as int, style));
                    }
                    Ok(StylegroundAction::UpdateStyleground { loc, style: old_style })
                } else {
                    Err(out_of_range())
                }
            },
            StylegroundAction::RemoveStyleground { loc } => {
                if loc.idx < self.len_of(loc.fg) {
                    let style = self.remove_at(loc.fg, loc.idx);
                    Ok(StylegroundAction::AddStyleground { loc, style })
                } else {
                    Err(out_of_range())
                }
            },
            StylegroundAction::MoveStyleground { loc, target } => {
                if loc.idx < self.len_of(loc.fg) {
                    let style = self.remove_at(loc.fg, loc.idx);
                    let dest = if target.idx <= self.len_of(target.fg) { target } else { loc };
                    self.insert_at(dest.fg, dest.idx, style);
                    Ok(StylegroundAction::MoveStyleground { loc: dest, target: loc })
                } else {
                    Err(out_of_range())
                }
            },
        }
    }
}

} // verus!
