//! The painting engine: owns the pixel buffer, the undo/redo history
//! and the tool state, and turns pointer and key events into verified
//! buffer mutations and damage reports. It never talks to a display:
//! the caller presents the reported damage.

use vstd::prelude::*;
use crate::brush::{disc_bbox, disc_stamped, stamp_disc};
use crate::buffer::{Image, PixelBuffer};
use crate::color::Color;
use crate::damage::DamageRect;
use crate::history::{redo_step, undo_step, HistoryModel, HistoryStack};
use crate::stroke::{path_bbox, rasterize_stroke, stamp_along, stroke_path};

verus! {

/// The largest brush radius for drawing.
pub const MAX_DRAW_RADIUS: i32 = 20;

/// The largest brush radius for erasing.
pub const MAX_ERASE_RADIUS: i32 = 50;

/// The brush radius a fresh engine draws with.
pub const DEFAULT_DRAW_RADIUS: i32 = 1;

/// The brush radius a fresh engine erases with.
pub const DEFAULT_ERASE_RADIUS: i32 = 3;

/// The two drawing tools. Erasing paints the opaque background color —
/// it does not restore transparency: an erased cell reads back as the
/// background with a fully opaque alpha, like any other composited
/// pixel.
#[derive(Clone, Copy, PartialEq, Eq, Structural, Debug)]
pub enum Tool {
    Draw,
    Erase,
}

/// A pointer button: the primary button draws, the secondary erases.
#[derive(Clone, Copy, PartialEq, Eq, Structural, Debug)]
pub enum StrokeButton {
    Primary,
    Secondary,
}

/// The keyboard commands the engine understands.
#[derive(Clone, Copy, PartialEq, Eq, Structural, Debug)]
pub enum Command {
    SelectColor(Color),
    AdjustRadius(Tool, i32),
    ClearCanvas,
    Undo,
    Redo,
}

/// What one operation changed: nothing, one rectangle of the buffer, or
/// potentially the whole buffer.
#[derive(Clone, Copy, PartialEq, Eq, Structural, Debug)]
pub enum Damage {
    Unchanged,
    Region(DamageRect),
    Full,
}

/// The rectangle inside a `Damage`, if it carries one.
pub open spec fn damage_region(d: Damage) -> Option<DamageRect> {
    match d {
        Damage::Region(r) => Some(r),
        _ => None,
    }
}

/// The tool a pointer button selects.
pub open spec fn button_tool(b: StrokeButton) -> Tool {
    match b {
        StrokeButton::Primary => Tool::Draw,
        StrokeButton::Secondary => Tool::Erase,
    }
}

/// The largest radius each tool may use.
pub open spec fn radius_cap(t: Tool) -> int {
    match t {
        Tool::Draw => MAX_DRAW_RADIUS as int,
        Tool::Erase => MAX_ERASE_RADIUS as int,
    }
}

/// A radius adjusted by a delta, clamped into `1 ..= cap`.
pub open spec fn clamp_radius(v: int, cap: int) -> int {
    if v < 1 {
        1
    } else if v > cap {
        cap
    } else {
        v
    }
}

/// An image with the given dimensions; what every history snapshot must
/// satisfy relative to the canvas.
pub open spec fn image_ok(img: Image, w: int, h: int) -> bool {
    img.width == w && img.height == h && img.data.len() == w * h
}

/// When the history gained one snapshot of the old canvas and the
/// canvas kept its dimensions, every snapshot still matches them.
proof fn lemma_snapshots_ok_after_push(pre: &Engine, post: &Engine)
    requires
        pre.wf(),
        post.buf().wf(),
        post.buf().spec_width() == pre.buf().spec_width(),
        post.buf().spec_height() == pre.buf().spec_height(),
        post.model().undo == pre.model().undo.push(pre.buf().image()),
        post.model().redo == Seq::<Image>::empty(),
    ensures
        forall|i: int|
            0 <= i < post.model().undo.len() ==> image_ok(
                #[trigger] post.model().undo[i],
                post.buf().spec_width(),
                post.buf().spec_height(),
            ),
        forall|i: int|
            0 <= i < post.model().redo.len() ==> image_ok(
                #[trigger] post.model().redo[i],
                post.buf().spec_width(),
                post.buf().spec_height(),
            ),
{
    let w = post.buf().spec_width();
    let h = post.buf().spec_height();
    assert forall|i: int| 0 <= i < post.model().undo.len() implies image_ok(
        #[trigger] post.model().undo[i],
        w,
        h,
    ) by {
        if i < pre.model().undo.len() {
            assert(post.model().undo[i] == pre.model().undo[i]);
            assert(image_ok(pre.model().undo[i], w, h));
        } else {
            assert(post.model().undo[i] == pre.buf().image());
        }
    }
}

/// When neither the history nor the canvas dimensions changed, every
/// snapshot still matches them.
proof fn lemma_snapshots_ok_unchanged(pre: &Engine, post: &Engine)
    requires
        pre.wf(),
        post.model().undo == pre.model().undo,
        post.model().redo == pre.model().redo,
        post.buf().spec_width() == pre.buf().spec_width(),
        post.buf().spec_height() == pre.buf().spec_height(),
    ensures
        forall|i: int|
            0 <= i < post.model().undo.len() ==> image_ok(
                #[trigger] post.model().undo[i],
                post.buf().spec_width(),
                post.buf().spec_height(),
            ),
        forall|i: int|
            0 <= i < post.model().redo.len() ==> image_ok(
                #[trigger] post.model().redo[i],
                post.buf().spec_width(),
                post.buf().spec_height(),
            ),
{
    let w = post.buf().spec_width();
    let h = post.buf().spec_height();
    assert forall|i: int| 0 <= i < post.model().undo.len() implies image_ok(
        #[trigger] post.model().undo[i],
        w,
        h,
    ) by {
        assert(post.model().undo[i] == pre.model().undo[i]);
        assert(image_ok(pre.model().undo[i], w, h));
    }
    assert forall|i: int| 0 <= i < post.model().redo.len() implies image_ok(
        #[trigger] post.model().redo[i],
        w,
        h,
    ) by {
        assert(post.model().redo[i] == pre.model().redo[i]);
        assert(image_ok(pre.model().redo[i], w, h));
    }
}

/// The engine: the verified core of the painting surface.
pub struct Engine {
    buffer: PixelBuffer,
    history: HistoryStack,
    background: Color,
    draw_color: Color,
    draw_radius: i32,
    erase_radius: i32,
    active_tool: Option<Tool>,
    last_point: Option<(i32, i32)>,
}

impl Engine {
    pub closed spec fn buf(&self) -> PixelBuffer {
        self.buffer
    }

    pub closed spec fn hist(&self) -> HistoryStack {
        self.history
    }

    pub closed spec fn spec_background(&self) -> Color {
        self.background
    }

    pub closed spec fn spec_draw_color(&self) -> Color {
        self.draw_color
    }

    pub closed spec fn spec_draw_radius(&self) -> i32 {
        self.draw_radius
    }

    pub closed spec fn spec_erase_radius(&self) -> i32 {
        self.erase_radius
    }

    pub closed spec fn spec_active_tool(&self) -> Option<Tool> {
        self.active_tool
    }

    pub closed spec fn spec_last_point(&self) -> Option<(i32, i32)> {
        self.last_point
    }

    /// The history model around the current canvas.
    pub open spec fn model(&self) -> HistoryModel {
        self.hist().model(&self.buf())
    }

    /// The color a tool paints with: erasing paints the background.
    pub open spec fn tool_color(&self, t: Tool) -> Color {
        match t {
            Tool::Draw => self.spec_draw_color(),
            Tool::Erase => self.spec_background(),
        }
    }

    /// The radius a tool paints with.
    pub open spec fn tool_radius(&self, t: Tool) -> i32 {
        match t {
            Tool::Draw => self.spec_draw_radius(),
            Tool::Erase => self.spec_erase_radius(),
        }
    }

    /// The engine's invariant: a well-formed buffer, radii in range,
    /// every snapshot of the same dimensions as the canvas, and a last
    /// point only while a stroke is active.
    pub open spec fn wf(&self) -> bool {
        &&& self.buf().wf()
        &&& 1 <= self.spec_draw_radius() <= MAX_DRAW_RADIUS
        &&& 1 <= self.spec_erase_radius() <= MAX_ERASE_RADIUS
        &&& self.spec_active_tool() is None ==> self.spec_last_point() is None
        &&& forall|i: int|
            0 <= i < self.model().undo.len() ==> image_ok(
                #[trigger] self.model().undo[i],
                self.buf().spec_width(),
                self.buf().spec_height(),
            )
        &&& forall|i: int|
            0 <= i < self.model().redo.len() ==> image_ok(
                #[trigger] self.model().redo[i],
                self.buf().spec_width(),
                self.buf().spec_height(),
            )
    }

    /// A fresh engine over a canvas of the given size, filled with the
    /// background color.
    pub fn new(width: usize, height: usize, background: Color, draw_color: Color) -> (e: Engine)
        requires
            width * height <= usize::MAX,
        ensures
            e.wf(),
            e.buf().spec_width() == width,
            e.buf().spec_height() == height,
            forall|x: int, y: int| e.buf().in_bounds(x, y) ==> e.buf().color_at(x, y) == background,
            e.model().undo == Seq::<Image>::empty(),
            e.model().redo == Seq::<Image>::empty(),
            e.spec_background() == background,
            e.spec_draw_color() == draw_color,
            e.spec_draw_radius() == DEFAULT_DRAW_RADIUS,
            e.spec_erase_radius() == DEFAULT_ERASE_RADIUS,
            e.spec_active_tool() is None,
            e.spec_last_point() is None,
    {
        let e = Engine {
            buffer: PixelBuffer::create(width, height, background),
            history: HistoryStack::new(),
            background,
            draw_color,
            draw_radius: DEFAULT_DRAW_RADIUS,
            erase_radius: DEFAULT_ERASE_RADIUS,
            active_tool: None,
            last_point: None,
        };
        proof {
            assert(e.model().undo =~= Seq::<Image>::empty());
            assert(e.model().redo =~= Seq::<Image>::empty());
        }
        e
    }

    pub fn width(&self) -> (w: usize)
        ensures
            w == self.buf().spec_width(),
    {
        self.buffer.width()
    }

    pub fn height(&self) -> (h: usize)
        ensures
            h == self.buf().spec_height(),
    {
        self.buffer.height()
    }

    /// The canvas, for presentation.
    pub fn canvas(&self) -> (b: &PixelBuffer)
        ensures
            *b == self.buf(),
    {
        &self.buffer
    }

    /// Reads one cell, or `None` out of bounds.
    pub fn pixel(&self, x: i32, y: i32) -> (c: Option<Color>)
        requires
            self.wf(),
        ensures
            self.buf().in_bounds(x as int, y as int) ==> c == Some(
                self.buf().color_at(x as int, y as int),
            ),
            !self.buf().in_bounds(x as int, y as int) ==> c is None,
    {
        self.buffer.get(x, y)
    }

    pub fn background(&self) -> (c: Color)
        ensures
            c == self.spec_background(),
    {
        self.background
    }

    pub fn draw_color(&self) -> (c: Color)
        ensures
            c == self.spec_draw_color(),
    {
        self.draw_color
    }

    pub fn draw_radius(&self) -> (r: i32)
        ensures
            r == self.spec_draw_radius(),
    {
        self.draw_radius
    }

    pub fn erase_radius(&self) -> (r: i32)
        ensures
            r == self.spec_erase_radius(),
    {
        self.erase_radius
    }

    pub fn active_tool(&self) -> (t: Option<Tool>)
        ensures
            t == self.spec_active_tool(),
    {
        self.active_tool
    }

    pub fn is_stroke_active(&self) -> (b: bool)
        ensures
            b == (self.spec_active_tool() is Some),
    {
        self.active_tool.is_some()
    }

    pub fn last_point(&self) -> (p: Option<(i32, i32)>)
        ensures
            p == self.spec_last_point(),
    {
        self.last_point
    }

    pub fn undo_depth(&self) -> (n: usize)
        ensures
            n == self.model().undo.len(),
    {
        self.history.undo_len()
    }

    pub fn redo_depth(&self) -> (n: usize)
        ensures
            n == self.model().redo.len(),
    {
        self.history.redo_len()
    }

    /// A pointer press: selects the tool for the button, snapshots the
    /// canvas for undo, stamps one dab at the press position and starts
    /// a stroke there.
    pub fn on_pointer_down(&mut self, x: i32, y: i32, button: StrokeButton) -> (damage: Damage)
        requires
            old(self).wf(),
        ensures
            final(self).wf(),
            final(self).spec_background() == old(self).spec_background(),
            final(self).spec_draw_color() == old(self).spec_draw_color(),
            final(self).spec_draw_radius() == old(self).spec_draw_radius(),
            final(self).spec_erase_radius() == old(self).spec_erase_radius(),
            final(self).spec_active_tool() == Some(button_tool(button)),
            final(self).spec_last_point() == Some((x, y)),
            final(self).buf().spec_width() == old(self).buf().spec_width(),
            final(self).buf().spec_height() == old(self).buf().spec_height(),
            final(self).model().undo == old(self).model().undo.push(old(self).buf().image()),
            final(self).model().redo == Seq::<Image>::empty(),
            final(self).buf()@ == disc_stamped(
                old(self).buf()@,
                old(self).buf().spec_width(),
                x as int,
                y as int,
                old(self).tool_radius(button_tool(button)) as int,
                old(self).tool_color(button_tool(button)),
            ),
            damage is Region || damage is Unchanged,
            disc_bbox(
                old(self).buf().spec_width(),
                old(self).buf().spec_height(),
                x as int,
                y as int,
                old(self).tool_radius(button_tool(button)) as int,
                damage_region(damage),
            ),
    {
        let tool = match button {
            StrokeButton::Primary => Tool::Draw,
            StrokeButton::Secondary => Tool::Erase,
        };
        self.history.begin_stroke(&self.buffer);
        let color = match tool {
            Tool::Draw => self.draw_color,
            Tool::Erase => self.background,
        };
        let radius = match tool {
            Tool::Draw => self.draw_radius,
            Tool::Erase => self.erase_radius,
        };
        let d = stamp_disc(&mut self.buffer, x, y, radius, color);
        self.active_tool = Some(tool);
        self.last_point = Some((x, y));
        proof {
            lemma_snapshots_ok_after_push(old(self), self);
        }
        match d {
            Some(r) => Damage::Region(r),
            None => Damage::Unchanged,
        }
    }

    /// A pointer motion sample: while a stroke is active, rasterizes
    /// from the last point to (x, y) with the active tool and moves the
    /// last point; idle motion does nothing.
    pub fn on_pointer_move(&mut self, x: i32, y: i32) -> (damage: Damage)
        requires
            old(self).wf(),
        ensures
            final(self).wf(),
            old(self).spec_active_tool() is None ==> *final(self) == *old(self) && damage
                == Damage::Unchanged,
            old(self).spec_active_tool() is Some ==> {
                let tool = old(self).spec_active_tool()->0;
                &&& final(self).spec_background() == old(self).spec_background()
                &&& final(self).spec_draw_color() == old(self).spec_draw_color()
                &&& final(self).spec_draw_radius() == old(self).spec_draw_radius()
                &&& final(self).spec_erase_radius() == old(self).spec_erase_radius()
                &&& final(self).spec_active_tool() == old(self).spec_active_tool()
                &&& final(self).spec_last_point() == Some((x, y))
                &&& final(self).buf().spec_width() == old(self).buf().spec_width()
                &&& final(self).buf().spec_height() == old(self).buf().spec_height()
                &&& damage is Region || damage is Unchanged
                &&& match old(self).spec_last_point() {
                    None => {
                        // first sample of the interaction: snapshot, then one dab
                        &&& final(self).model().undo == old(self).model().undo.push(
                            old(self).buf().image(),
                        )
                        &&& final(self).model().redo == Seq::<Image>::empty()
                        &&& final(self).buf()@ == disc_stamped(
                            old(self).buf()@,
                            old(self).buf().spec_width(),
                            x as int,
                            y as int,
                            old(self).tool_radius(tool) as int,
                            old(self).tool_color(tool),
                        )
                        &&& disc_bbox(
                            old(self).buf().spec_width(),
                            old(self).buf().spec_height(),
                            x as int,
                            y as int,
                            old(self).tool_radius(tool) as int,
                            damage_region(damage),
                        )
                    },
                    Some(lp) => {
                        // connect the previous sample to this one
                        &&& final(self).model().undo == old(self).model().undo
                        &&& final(self).model().redo == old(self).model().redo
                        &&& final(self).buf()@ == stamp_along(
                            old(self).buf()@,
                            old(self).buf().spec_width(),
                            stroke_path(lp.0 as int, lp.1 as int, x as int, y as int),
                            old(self).tool_radius(tool) as int,
                            old(self).tool_color(tool),
                        )
                        &&& path_bbox(
                            old(self).buf().spec_width(),
                            old(self).buf().spec_height(),
                            stroke_path(lp.0 as int, lp.1 as int, x as int, y as int),
                            old(self).tool_radius(tool) as int,
                            damage_region(damage),
                        )
                    },
                }
            },
    {
        let tool = match self.active_tool {
            None => {
                return Damage::Unchanged;
            },
            Some(t) => t,
        };
        let color = match tool {
            Tool::Draw => self.draw_color,
            Tool::Erase => self.background,
        };
        let radius = match tool {
            Tool::Draw => self.draw_radius,
            Tool::Erase => self.erase_radius,
        };
        let d = match self.last_point {
            None => {
                // the stroke's first mutation: snapshot the canvas
                self.history.begin_stroke(&self.buffer);
                stamp_disc(&mut self.buffer, x, y, radius, color)
            },
            Some(lp) => rasterize_stroke(&mut self.buffer, lp.0, lp.1, x, y, radius, color),
        };
        self.last_point = Some((x, y));
        proof {
            if old(self).spec_last_point() is None {
                lemma_snapshots_ok_after_push(old(self), self);
            } else {
                lemma_snapshots_ok_unchanged(old(self), self);
            }
        }
        match d {
            Some(r) => Damage::Region(r),
            None => Damage::Unchanged,
        }
    }

    /// A pointer release: ends the active stroke, whichever button went
    /// up; the buffer is untouched.
    pub fn on_pointer_up(&mut self, _button: StrokeButton)
        requires
            old(self).wf(),
        ensures
            final(self).wf(),
            final(self).spec_active_tool() is None,
            final(self).spec_last_point() is None,
            final(self).buf() == old(self).buf(),
            final(self).model() == old(self).model(),
            final(self).spec_background() == old(self).spec_background(),
            final(self).spec_draw_color() == old(self).spec_draw_color(),
            final(self).spec_draw_radius() == old(self).spec_draw_radius(),
            final(self).spec_erase_radius() == old(self).spec_erase_radius(),
    {
        self.active_tool = None;
        self.last_point = None;
        proof {
            lemma_snapshots_ok_unchanged(old(self), self);
        }
    }

    /// A keyboard command: color selection, radius adjustment, canvas
    /// clearing, undo or redo.
    pub fn on_key(&mut self, command: Command) -> (damage: Damage)
        requires
            old(self).wf(),
        ensures
            final(self).wf(),
            final(self).spec_background() == old(self).spec_background(),
            final(self).spec_active_tool() == old(self).spec_active_tool(),
            final(self).spec_last_point() == old(self).spec_last_point(),
            final(self).buf().spec_width() == old(self).buf().spec_width(),
            final(self).buf().spec_height() == old(self).buf().spec_height(),
            command matches Command::SelectColor(c) ==> {
                &&& final(self).spec_draw_color() == c
                &&& final(self).spec_draw_radius() == old(self).spec_draw_radius()
                &&& final(self).spec_erase_radius() == old(self).spec_erase_radius()
                &&& final(self).buf() == old(self).buf()
                &&& final(self).model() == old(self).model()
                &&& damage == Damage::Unchanged
            },
            command matches Command::AdjustRadius(t, delta) ==> {
                &&& final(self).tool_radius(t) == clamp_radius(
                    old(self).tool_radius(t) + delta,
                    radius_cap(t),
                )
                &&& t != Tool::Draw ==> final(self).spec_draw_radius() == old(self).spec_draw_radius()
                &&& t != Tool::Erase ==> final(self).spec_erase_radius() == old(self).spec_erase_radius()
                &&& final(self).spec_draw_color() == old(self).spec_draw_color()
                &&& final(self).buf() == old(self).buf()
                &&& final(self).model() == old(self).model()
                &&& damage == Damage::Unchanged
            },
            command == Command::ClearCanvas ==> {
                &&& final(self).model().undo == old(self).model().undo.push(
                    old(self).buf().image(),
                )
                &&& final(self).model().redo == Seq::<Image>::empty()
                &&& forall|x: int, y: int|
                    final(self).buf().in_bounds(x, y) ==> final(self).buf().color_at(x, y) == old(self).spec_background()
                &&& final(self).spec_draw_color() == old(self).spec_draw_color()
                &&& final(self).spec_draw_radius() == old(self).spec_draw_radius()
                &&& final(self).spec_erase_radius() == old(self).spec_erase_radius()
                &&& damage == Damage::Full
            },
            command == Command::Undo ==> {
                &&& final(self).model() == undo_step(old(self).model())
                &&& old(self).model().undo.len() > 0 ==> damage == Damage::Full
                &&& old(self).model().undo.len() == 0 ==> damage == Damage::Unchanged && final(self).buf() == old(self).buf()
                &&& final(self).spec_draw_color() == old(self).spec_draw_color()
                &&& final(self).spec_draw_radius() == old(self).spec_draw_radius()
                &&& final(self).spec_erase_radius() == old(self).spec_erase_radius()
            },
            command == Command::Redo ==> {
                &&& final(self).model() == redo_step(old(self).model())
                &&& old(self).model().redo.len() > 0 ==> damage == Damage::Full
                &&& old(self).model().redo.len() == 0 ==> damage == Damage::Unchanged && final(self).buf() == old(self).buf()
                &&& final(self).spec_draw_color() == old(self).spec_draw_color()
                &&& final(self).spec_draw_radius() == old(self).spec_draw_radius()
                &&& final(self).spec_erase_radius() == old(self).spec_erase_radius()
            },
    {
        match command {
            Command::SelectColor(c) => {
                self.draw_color = c;
                Damage::Unchanged
            },
            Command::AdjustRadius(tool, delta) => {
                let cap: i32 = match tool {
                    Tool::Draw => MAX_DRAW_RADIUS,
                    Tool::Erase => MAX_ERASE_RADIUS,
                };
                let cur: i32 = match tool {
                    Tool::Draw => self.draw_radius,
                    Tool::Erase => self.erase_radius,
                };
                let wide: i64 = cur as i64 + delta as i64;
                let next: i32 = if wide < 1 {
                    1
                } else if wide > cap as i64 {
                    cap
                } else {
                    wide as i32
                };
                match tool {
                    Tool::Draw => {
                        self.draw_radius = next;
                    },
                    Tool::Erase => {
                        self.erase_radius = next;
                    },
                }
                Damage::Unchanged
            },
            Command::ClearCanvas => {
                self.history.begin_stroke(&self.buffer);
                let bg = self.background;
                self.buffer.fill(bg);
                Damage::Full
            },
            Command::Undo => {
                let did = self.history.undo(&mut self.buffer);
                if did {
                    Damage::Full
                } else {
                    Damage::Unchanged
                }
            },
            Command::Redo => {
                let did = self.history.redo(&mut self.buffer);
                if did {
                    Damage::Full
                } else {
                    Damage::Unchanged
                }
            },
        }
    }

    /// A window resize: replaces the buffer, copying the overlapping
    /// region and filling new cells with the background, and clears the
    /// history, whose snapshots would no longer fit. A zero dimension is
    /// rejected and changes nothing.
    pub fn on_resize(&mut self, new_width: usize, new_height: usize) -> (damage: Damage)
        requires
            old(self).wf(),
            new_width * new_height <= usize::MAX,
        ensures
            final(self).wf(),
            (new_width == 0 || new_height == 0) ==> *final(self) == *old(self) && damage
                == Damage::Unchanged,
            (new_width > 0 && new_height > 0) ==> {
                &&& final(self).buf().spec_width() == new_width
                &&& final(self).buf().spec_height() == new_height
                &&& forall|x: int, y: int|
                    final(self).buf().in_bounds(x, y) ==> final(self).buf().color_at(x, y) == (
                    if x < old(self).buf().spec_width() && y < old(self).buf().spec_height() {
                        old(self).buf().color_at(x, y)
                    } else {
                        old(self).spec_background()
                    })
                &&& final(self).model().undo == Seq::<Image>::empty()
                &&& final(self).model().redo == Seq::<Image>::empty()
                &&& final(self).spec_background() == old(self).spec_background()
                &&& final(self).spec_draw_color() == old(self).spec_draw_color()
                &&& final(self).spec_draw_radius() == old(self).spec_draw_radius()
                &&& final(self).spec_erase_radius() == old(self).spec_erase_radius()
                &&& final(self).spec_active_tool() == old(self).spec_active_tool()
                &&& final(self).spec_last_point() == old(self).spec_last_point()
                &&& damage == Damage::Full
            },
    {
        let bg = self.background;
        let changed = self.buffer.resize(new_width, new_height, bg);
        if changed {
            self.history.invalidate();
            proof {
                assert(final(self).model().undo =~= Seq::<Image>::empty());
                assert(final(self).model().redo =~= Seq::<Image>::empty());
            }
            Damage::Full
        } else {
            Damage::Unchanged
        }
    }
}

} // verus!
