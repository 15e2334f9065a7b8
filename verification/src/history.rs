//! The undo/redo history: two stacks of whole-buffer snapshots with
//! linear-history semantics. A new stroke pushes a snapshot and clears
//! the redo stack; a resize invalidates both stacks, because old
//! snapshots would have incompatible dimensions.

use vstd::prelude::*;
use crate::buffer::{Image, PixelBuffer};

verus! {

/// The mathematical state the history manages: the snapshot stacks and
/// the canvas between them. The last element of each sequence is the
/// top of that stack.
#[verifier::ext_equal]
pub ghost struct HistoryModel {
    pub undo: Seq<Image>,
    pub redo: Seq<Image>,
    pub canvas: Image,
}

/// Starting a new stroke: the canvas is snapshotted onto the undo stack
/// and the redo stack is cleared.
pub open spec fn begin_stroke_step(s: HistoryModel) -> HistoryModel {
    HistoryModel { undo: s.undo.push(s.canvas), redo: Seq::empty(), canvas: s.canvas }
}

/// Undoing: the canvas moves onto the redo stack and the top undo
/// snapshot becomes the canvas; with no snapshot, nothing happens.
pub open spec fn undo_step(s: HistoryModel) -> HistoryModel {
    if s.undo.len() == 0 {
        s
    } else {
        HistoryModel {
            undo: s.undo.drop_last(),
            redo: s.redo.push(s.canvas),
            canvas: s.undo.last(),
        }
    }
}

/// Redoing, symmetric to undoing.
pub open spec fn redo_step(s: HistoryModel) -> HistoryModel {
    if s.redo.len() == 0 {
        s
    } else {
        HistoryModel {
            undo: s.undo.push(s.canvas),
            redo: s.redo.drop_last(),
            canvas: s.redo.last(),
        }
    }
}

/// Invalidation on structural change: both stacks are cleared.
pub open spec fn invalidate_step(s: HistoryModel) -> HistoryModel {
    HistoryModel { undo: Seq::empty(), redo: Seq::empty(), canvas: s.canvas }
}

/// Law: an undo immediately followed by a redo, with no mutation in
/// between, restores the whole state — the canvas byte for byte, and
/// both stacks — provided the undo had a snapshot to pop.
pub proof fn lemma_undo_redo_roundtrip(s: HistoryModel)
    requires
        s.undo.len() > 0,
    ensures
        redo_step(undo_step(s)) == s,
{
    let u = undo_step(s);
    assert(u.redo.len() > 0);
    assert(u.redo.last() == s.canvas);
    assert(u.redo.drop_last() =~= s.redo);
    assert(u.undo.push(u.canvas) =~= s.undo);
    assert(redo_step(u) =~= s);
}

/// Law: a new stroke leaves the redo stack empty, so a redo right after
/// it changes nothing — in particular after an undo, a new stroke makes
/// a subsequent redo a no-op.
pub proof fn lemma_stroke_clears_redo(s: HistoryModel)
    ensures
        begin_stroke_step(s).redo == Seq::<Image>::empty(),
        redo_step(begin_stroke_step(s)) == begin_stroke_step(s),
{
}

/// The undo and redo stacks of whole-buffer snapshots.
pub struct HistoryStack {
    undo: Vec<PixelBuffer>,
    redo: Vec<PixelBuffer>,
}

impl HistoryStack {
    pub closed spec fn undo_view(&self) -> Seq<PixelBuffer> {
        self.undo@
    }

    pub closed spec fn redo_view(&self) -> Seq<PixelBuffer> {
        self.redo@
    }

    /// The model of this history around the given canvas.
    pub open spec fn model(&self, canvas: &PixelBuffer) -> HistoryModel {
        HistoryModel {
            undo: self.undo_view().map_values(|b: PixelBuffer| b.image()),
            redo: self.redo_view().map_values(|b: PixelBuffer| b.image()),
            canvas: canvas.image(),
        }
    }

    pub fn new() -> (h: HistoryStack)
        ensures
            h.undo_view() == Seq::<PixelBuffer>::empty(),
            h.redo_view() == Seq::<PixelBuffer>::empty(),
    {
        HistoryStack { undo: Vec::new(), redo: Vec::new() }
    }

    pub fn undo_len(&self) -> (n: usize)
        ensures
            n == self.undo_view().len(),
    {
        self.undo.len()
    }

    pub fn redo_len(&self) -> (n: usize)
        ensures
            n == self.redo_view().len(),
    {
        self.redo.len()
    }

    /// Pushes a snapshot of the canvas onto the undo stack and clears
    /// the redo stack: the first mutation of a new interaction.
    pub fn begin_stroke(&mut self, canvas: &PixelBuffer)
        ensures
            final(self).model(canvas) == begin_stroke_step(old(self).model(canvas)),
            final(self).undo_view().len() == old(self).undo_view().len() + 1,
            final(self).redo_view().len() == 0,
            final(self).undo_view().last().image() == canvas.image(),
            forall|i: int|
                0 <= i < old(self).undo_view().len() ==> final(self).undo_view()[i] == old(
                    self,
                ).undo_view()[i],
    {
        let snap = canvas.duplicate();
        self.undo.push(snap);
        self.redo.clear();
        proof {
            assert(final(self).model(canvas).undo =~= begin_stroke_step(
                old(self).model(canvas),
            ).undo);
            assert(final(self).model(canvas).redo =~= Seq::<Image>::empty());
            assert(final(self).model(canvas) =~= begin_stroke_step(old(self).model(canvas)));
        }
    }

    /// Pops the top undo snapshot into the canvas, saving the canvas on
    /// the redo stack; a no-op when the undo stack is empty.
    pub fn undo(&mut self, canvas: &mut PixelBuffer) -> (did: bool)
        ensures
            final(self).model(final(canvas)) == undo_step(old(self).model(old(canvas))),
            did == (old(self).undo_view().len() > 0),
            !did ==> final(self).undo_view() == old(self).undo_view()
                && final(self).redo_view() == old(self).redo_view()
                && *final(canvas) == *old(canvas),
            did ==> *final(canvas) == old(self).undo_view().last(),
    {
        match self.undo.pop() {
            None => {
                proof {
                    assert(old(self).undo_view().len() == 0);
                }
                false
            },
            Some(prev) => {
                let snap = canvas.duplicate();
                self.redo.push(snap);
                *canvas = prev;
                proof {
                    let m0 = old(self).model(old(canvas));
                    assert(final(self).model(final(canvas)).undo =~= undo_step(m0).undo);
                    assert(final(self).model(final(canvas)).redo =~= undo_step(m0).redo);
                    assert(final(self).model(final(canvas)) =~= undo_step(m0));
                }
                true
            },
        }
    }

    /// Pops the top redo snapshot into the canvas, saving the canvas on
    /// the undo stack; a no-op when the redo stack is empty.
    pub fn redo(&mut self, canvas: &mut PixelBuffer) -> (did: bool)
        ensures
            final(self).model(final(canvas)) == redo_step(old(self).model(old(canvas))),
            did == (old(self).redo_view().len() > 0),
            !did ==> final(self).undo_view() == old(self).undo_view()
                && final(self).redo_view() == old(self).redo_view()
                && *final(canvas) == *old(canvas),
            did ==> *final(canvas) == old(self).redo_view().last(),
    {
        match self.redo.pop() {
            None => {
                proof {
                    assert(old(self).redo_view().len() == 0);
                }
                false
            },
            Some(next) => {
                let snap = canvas.duplicate();
                self.undo.push(snap);
                *canvas = next;
                proof {
                    let m0 = old(self).model(old(canvas));
                    assert(final(self).model(final(canvas)).undo =~= redo_step(m0).undo);
                    assert(final(self).model(final(canvas)).redo =~= redo_step(m0).redo);
                    assert(final(self).model(final(canvas)) =~= redo_step(m0));
                }
                true
            },
        }
    }

    /// Clears both stacks: called on resize, whose snapshots would have
    /// incompatible dimensions.
    pub fn invalidate(&mut self)
        ensures
            final(self).undo_view() == Seq::<PixelBuffer>::empty(),
            final(self).redo_view() == Seq::<PixelBuffer>::empty(),
            forall|canvas: &PixelBuffer|
                final(self).model(canvas) == invalidate_step(#[trigger] old(self).model(canvas)),
    {
        self.undo.clear();
        self.redo.clear();
        proof {
            assert forall|canvas: &PixelBuffer|
                final(self).model(canvas) == invalidate_step(
                    #[trigger] old(self).model(canvas),
                ) by {
                assert(final(self).model(canvas).undo =~= Seq::<Image>::empty());
                assert(final(self).model(canvas).redo =~= Seq::<Image>::empty());
                assert(final(self).model(canvas) =~= invalidate_step(old(self).model(canvas)));
            }
        }
    }
}

} // verus!
