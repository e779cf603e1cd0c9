//! The undo and redo history of a map: entries that undo the edits made,
//! edits of one phase merged into one entry, at most a fixed number kept.
use vstd::prelude::*;

verus! {

/// How many undo entries a map keeps.
pub const UNDO_BUFFER_SIZE: usize = 1000;

/// The history of a map: the entries that undo past edits, oldest first,
/// those that redo undone ones, and the phase of the last edit (0 after an
/// undo or redo, so that no later edit merges into their entries).
pub struct MapHistory<E> {
    pub undo: Vec<E>,
    pub redo: Vec<E>,
    pub phase: u32,
}

/// The undo entries once room is made for one more: the oldest dropped
/// where the history is full.
pub open spec fn trimmed<E>(undo: Seq<E>) -> Seq<E> {
    if undo.len() == UNDO_BUFFER_SIZE { undo.drop_first() } else { undo }
}

impl<E> MapHistory<E> {
    /// An empty history.
    pub fn new() -> (r: Self)
        ensures
            r.undo@.len() == 0,
            r.redo@.len() == 0,
            r.phase == 0,
    {
        MapHistory { undo: Vec::new(), redo: Vec::new(), phase: 0 }
    }

    /// Records the undo entry of an edit just made in phase `phase`: where
    /// the history is full the oldest entry goes; the entry then goes on
    /// top, or, where the top entry is of the same phase, is merged into it
    /// by `merge`. Redo entries are cleared.
    pub fn record<F: Fn(E, E) -> E>(&mut self, undo: E, phase: u32, merge: F)
        requires
            forall|a: E, b: E| call_requires(merge, (a, b)),
        ensures
            ({
                let t = trimmed(old(self).undo@);
                if t.len() == 0 || old(self).phase != phase {
                    final(self).undo@ == t.push(undo)
                } else {
                    &&& final(self).undo@.len() == t.len()
                    &&& final(self).undo@.drop_last() == t.drop_last()
                    &&& call_ensures(merge, (t.last(), undo), final(self).undo@.last())
                }
            }),
            final(self).redo@.len() == 0,
            final(self).phase == phase,
            old(self).undo@.len() <= UNDO_BUFFER_SIZE ==> final(self).undo@.len() <= UNDO_BUFFER_SIZE,
    {
        if self.undo.len() == UNDO_BUFFER_SIZE {
            self.undo.remove(0);
            proof {
                assert(self.undo@ =~= old(self).undo@.drop_first());
            }
        }
        if self.undo.len() == 0 || self.phase != phase {
            self.undo.push(undo);
        } else {
            let ghost before = self.undo@;
            let top = self.undo.pop().unwrap();
            let merged = merge(top, undo);
            self.undo.push(merged);
            proof {
                assert(self.undo@.drop_last() =~= before.drop_last());
            }
        }
        self.phase = phase;
        self.redo.clear();
    }

    /// Takes the newest undo entry, to be applied.
    pub fn take_undo(&mut self) -> (r: Option<E>)
        ensures
            old(self).undo@.len() == 0 ==> r is None && final(self).undo@ == old(self).undo@,
            old(self).undo@.len() > 0 ==> r == Some(old(self).undo@.last())
                && final(self).undo@ == old(self).undo@.drop_last(),
            final(self).redo@ == old(self).redo@,
            final(self).phase == old(self).phase,
    {
        self.undo.pop()
    }

    /// Files what undoing gave back, the entry that redoes it.
    pub fn push_redo(&mut self, opposite: E)
        ensures
            final(self).redo@ == old(self).redo@.push(opposite),
            final(self).undo@ == old(self).undo@,
            final(self).phase == 0,
    {
        self.redo.push(opposite);
        self.phase = 0;
    }

    /// Takes the newest redo entry, to be applied.
    pub fn take_redo(&mut self) -> (r: Option<E>)
        ensures
            old(self).redo@.len() == 0 ==> r is None && final(self).redo@ == old(self).redo@,
            old(self).redo@.len() > 0 ==> r == Some(old(self).redo@.last())
                && final(self).redo@ == old(self).redo@.drop_last(),
            final(self).undo@ == old(self).undo@,
            final(self).phase == old(self).phase,
    {
        self.redo.pop()
    }

    /// Files what redoing gave back, the entry that undoes it again.
    pub fn push_undo(&mut self, opposite: E)
        ensures
            final(self).undo@ == old(self).undo@.push(opposite),
            final(self).redo@ == old(self).redo@,
            final(self).phase == 0,
    {
        self.undo.push(opposite);
        self.phase = 0;
    }
}

} // verus!
