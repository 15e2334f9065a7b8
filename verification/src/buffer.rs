//! The pixel buffer: a width × height raster of packed colors with
//! bounds-checked access, silent clipping on writes, and
//! resize-with-content-preservation.

use vstd::prelude::*;
use vstd::arithmetic::div_mod::{
    lemma_fundamental_div_mod_converse_div,
    lemma_fundamental_div_mod_converse_mod,
};
use crate::color::Color;

verus! {

/// The mathematical image a buffer holds: its dimensions and its cells,
/// row-major.
#[verifier::ext_equal]
pub ghost struct Image {
    pub width: int,
    pub height: int,
    pub data: Seq<Color>,
}

/// A mutable raster of packed colors. Cell (x, y) is stored at index
/// `y * width + x`; the vector's length is always `width * height`.
pub struct PixelBuffer {
    width: usize,
    height: usize,
    pixels: Vec<Color>,
}

impl View for PixelBuffer {
    type V = Seq<Color>;

    closed spec fn view(&self) -> Seq<Color> {
        self.pixels@
    }
}

impl PixelBuffer {
    pub closed spec fn spec_width(&self) -> int {
        self.width as int
    }

    pub closed spec fn spec_height(&self) -> int {
        self.height as int
    }

    /// The buffer's one structural invariant: the cell count matches the
    /// dimensions.
    pub open spec fn wf(&self) -> bool {
        self@.len() == self.spec_width() * self.spec_height()
    }

    pub open spec fn in_bounds(&self, x: int, y: int) -> bool {
        0 <= x < self.spec_width() && 0 <= y < self.spec_height()
    }

    /// The color of cell (x, y).
    pub open spec fn color_at(&self, x: int, y: int) -> Color {
        self@[y * self.spec_width() + x]
    }

    /// The image this buffer holds.
    pub open spec fn image(&self) -> Image {
        Image { width: self.spec_width(), height: self.spec_height(), data: self@ }
    }

    /// A buffer of the given size with every cell set to `fill`.
    pub fn create(width: usize, height: usize, fill: Color) -> (b: PixelBuffer)
        requires
            width * height <= usize::MAX,
        ensures
            b.wf(),
            b.spec_width() == width,
            b.spec_height() == height,
            forall|i: int| 0 <= i < b@.len() ==> b@[i] == fill,
            forall|x: int, y: int| b.in_bounds(x, y) ==> b.color_at(x, y) == fill,
    {
        let n: usize = width * height;
        let mut pixels: Vec<Color> = Vec::new();
        let mut i: usize = 0;
        while i < n
            invariant
                pixels@.len() == i,
                i <= n,
                forall|j: int| 0 <= j < i ==> pixels@[j] == fill,
            decreases n - i,
        {
            pixels.push(fill);
            i = i + 1;
        }
        let b = PixelBuffer { width, height, pixels };
        proof {
            assert forall|x: int, y: int| b.in_bounds(x, y) implies b.color_at(x, y) == fill by {
                lemma_cell_index(width as int, height as int, x, y);
            }
        }
        b
    }

    pub fn width(&self) -> (w: usize)
        ensures
            w == self.spec_width(),
    {
        self.width
    }

    /// The cells, row-major: for presentation to a display surface.
    pub fn cells(&self) -> (v: &Vec<Color>)
        ensures
            v@ == self@,
    {
        &self.pixels
    }

    pub fn height(&self) -> (h: usize)
        ensures
            h == self.spec_height(),
    {
        self.height
    }

    /// A fresh buffer holding the same image; the snapshot cost of the
    /// undo history, O(width * height).
    pub fn duplicate(&self) -> (b: PixelBuffer)
        ensures
            b.image() == self.image(),
            b.spec_width() == self.spec_width(),
            b.spec_height() == self.spec_height(),
            b@ == self@,
    {
        let n: usize = self.pixels.len();
        let mut pixels: Vec<Color> = Vec::new();
        let mut i: usize = 0;
        while i < n
            invariant
                n == self@.len(),
                pixels@.len() == i,
                i <= n,
                forall|j: int| 0 <= j < i ==> pixels@[j] == self@[j],
            decreases n - i,
        {
            pixels.push(self.pixels[i]);
            i = i + 1;
        }
        let b = PixelBuffer { width: self.width, height: self.height, pixels };
        proof {
            assert(b@ =~= self@);
            assert(b.image() =~= self.image());
        }
        b
    }

    /// Reads cell (x, y); requires the coordinates in bounds.
    pub fn at(&self, x: usize, y: usize) -> (c: Color)
        requires
            self.wf(),
            x < self.spec_width(),
            y < self.spec_height(),
        ensures
            c == self.color_at(x as int, y as int),
    {
        proof {
            lemma_cell_index(self.spec_width(), self.spec_height(), x as int, y as int);
        }
        let _n: usize = self.pixels.len();
        self.pixels[y * self.width + x]
    }

    /// Writes cell (x, y); requires the coordinates in bounds.
    pub fn put(&mut self, x: usize, y: usize, c: Color)
        requires
            old(self).wf(),
            x < old(self).spec_width(),
            y < old(self).spec_height(),
        ensures
            final(self).wf(),
            final(self).spec_width() == old(self).spec_width(),
            final(self).spec_height() == old(self).spec_height(),
            final(self)@ == old(self)@.update(y * old(self).spec_width() + x, c),
            final(self).color_at(x as int, y as int) == c,
            forall|i: int, j: int|
                old(self).in_bounds(i, j) && !(i == x && j == y) ==> final(self).color_at(i, j)
                    == old(self).color_at(i, j),
    {
        proof {
            lemma_cell_index(self.spec_width(), self.spec_height(), x as int, y as int);
        }
        let _n: usize = self.pixels.len();
        let idx: usize = y * self.width + x;
        self.pixels.set(idx, c);
        proof {
            let w = self.spec_width();
            let h = self.spec_height();
            assert forall|i: int, j: int|
                old(self).in_bounds(i, j) && !(i == x && j == y) implies self.color_at(i, j)
                == old(self).color_at(i, j) by {
                lemma_cell_index(w, h, i, j);
                lemma_cell_index(w, h, x as int, y as int);
            }
        }
    }

    /// Reads cell (x, y), or `None` when the coordinates are out of
    /// bounds.
    pub fn get(&self, x: i32, y: i32) -> (c: Option<Color>)
        requires
            self.wf(),
        ensures
            self.in_bounds(x as int, y as int) ==> c == Some(self.color_at(x as int, y as int)),
            !self.in_bounds(x as int, y as int) ==> c is None,
    {
        if x >= 0 && y >= 0 && (x as usize) < self.width && (y as usize) < self.height {
            Some(self.at(x as usize, y as usize))
        } else {
            None
        }
    }

    /// Writes cell (x, y), silently clipping: out-of-bounds coordinates
    /// are ignored. All of the engine's write paths clip this way.
    pub fn set(&mut self, x: i32, y: i32, c: Color)
        requires
            old(self).wf(),
        ensures
            final(self).wf(),
            final(self).spec_width() == old(self).spec_width(),
            final(self).spec_height() == old(self).spec_height(),
            old(self).in_bounds(x as int, y as int) ==> final(self)@ == old(self)@.update(
                y * old(self).spec_width() + x,
                c,
            ),
            !old(self).in_bounds(x as int, y as int) ==> *final(self) == *old(self),
            forall|i: int, j: int|
                old(self).in_bounds(i, j) && !(i == x && j == y) ==> final(self).color_at(i, j)
                    == old(self).color_at(i, j),
            old(self).in_bounds(x as int, y as int) ==> final(self).color_at(x as int, y as int)
                == c,
    {
        if x >= 0 && y >= 0 && (x as usize) < self.width && (y as usize) < self.height {
            self.put(x as usize, y as usize, c);
        }
    }

    /// Sets every cell to `c`.
    pub fn fill(&mut self, c: Color)
        requires
            old(self).wf(),
        ensures
            final(self).wf(),
            final(self).spec_width() == old(self).spec_width(),
            final(self).spec_height() == old(self).spec_height(),
            forall|i: int| 0 <= i < final(self)@.len() ==> final(self)@[i] == c,
            forall|x: int, y: int| final(self).in_bounds(x, y) ==> final(self).color_at(x, y) == c,
    {
        let n: usize = self.pixels.len();
        let mut i: usize = 0;
        while i < n
            invariant
                old(self).wf(),
                self.width == old(self).width,
                self.height == old(self).height,
                self@.len() == n,
                i <= n,
                forall|j: int| 0 <= j < i ==> self@[j] == c,
            decreases n - i,
        {
            self.pixels.set(i, c);
            i = i + 1;
        }
        proof {
            assert forall|x: int, y: int| self.in_bounds(x, y) implies self.color_at(x, y) == c by {
                lemma_cell_index(self.spec_width(), self.spec_height(), x, y);
            }
        }
    }

    /// Replaces the buffer by one of the new size: the rectangular
    /// intersection of old and new dimensions is copied cell by cell, new
    /// cells take the background color. A zero width or height is
    /// rejected and leaves the buffer untouched.
    pub fn resize(&mut self, new_width: usize, new_height: usize, background: Color) -> (changed:
        bool)
        requires
            old(self).wf(),
            new_width * new_height <= usize::MAX,
        ensures
            final(self).wf(),
            (new_width == 0 || new_height == 0) ==> !changed && *final(self) == *old(self),
            (new_width > 0 && new_height > 0) ==> {
                &&& changed
                &&& final(self).spec_width() == new_width
                &&& final(self).spec_height() == new_height
                &&& forall|x: int, y: int|
                    final(self).in_bounds(x, y) ==> final(self).color_at(x, y) == (
                    if x < old(self).spec_width() && y < old(self).spec_height() {
                        old(self).color_at(x, y)
                    } else {
                        background
                    })
            },
    {
        if new_width == 0 || new_height == 0 {
            return false;
        }
        let copy_w: usize = if self.width < new_width {
            self.width
        } else {
            new_width
        };
        let copy_h: usize = if self.height < new_height {
            self.height
        } else {
            new_height
        };
        let mut fresh = PixelBuffer::create(new_width, new_height, background);
        let mut y: usize = 0;
        while y < copy_h
            invariant
                self.wf(),
                fresh.wf(),
                copy_w <= self.spec_width(),
                copy_w <= new_width,
                copy_h <= self.spec_height(),
                copy_h <= new_height,
                copy_w == if self.spec_width() < new_width { self.spec_width() } else { new_width as int },
                copy_h == if self.spec_height() < new_height { self.spec_height() } else { new_height as int },
                fresh.spec_width() == new_width,
                fresh.spec_height() == new_height,
                y <= copy_h,
                forall|i: int, j: int|
                    fresh.in_bounds(i, j) ==> fresh.color_at(i, j) == (
                    if i < copy_w && j < y {
                        self.color_at(i, j)
                    } else {
                        background
                    }),
            decreases copy_h - y,
        {
            let mut x: usize = 0;
            while x < copy_w
                invariant
                    self.wf(),
                    fresh.wf(),
                    copy_w <= self.spec_width(),
                    copy_w <= new_width,
                    copy_h <= self.spec_height(),
                    copy_h <= new_height,
                    fresh.spec_width() == new_width,
                    fresh.spec_height() == new_height,
                    y < copy_h,
                    x <= copy_w,
                    forall|i: int, j: int|
                        fresh.in_bounds(i, j) ==> fresh.color_at(i, j) == (
                        if (i < copy_w && j < y) || (j == y && i < x) {
                            self.color_at(i, j)
                        } else {
                            background
                        }),
                decreases copy_w - x,
            {
                let c = self.at(x, y);
                fresh.put(x, y, c);
                x = x + 1;
            }
            y = y + 1;
        }
        *self = fresh;
        true
    }
}

/// Two buffers holding the same image.
pub open spec fn same_image(a: &PixelBuffer, b: &PixelBuffer) -> bool {
    a.image() == b.image()
}

/// Law: writing an in-bounds cell and reading it back gives the written
/// color, and no other cell changes. Together with `set`'s contract —
/// which leaves the buffer untouched on out-of-bounds coordinates — and
/// `get`'s, this pins the whole effect of a write.
pub proof fn lemma_set_then_get(s: Seq<Color>, w: int, h: int, x: int, y: int, c: Color)
    requires
        s.len() == w * h,
        0 <= x < w,
        0 <= y < h,
    ensures
        s.update(y * w + x, c)[y * w + x] == c,
        forall|i: int, j: int|
            0 <= i < w && 0 <= j < h && !(i == x && j == y) ==> s.update(y * w + x, c)[#[trigger] flat_index(w, i, j)] == s[flat_index(w, i, j)],
{
    lemma_cell_index(w, h, x, y);
    assert forall|i: int, j: int|
        0 <= i < w && 0 <= j < h && !(i == x && j == y) implies s.update(
        y * w + x,
        c,
    )[#[trigger] flat_index(w, i, j)] == s[flat_index(w, i, j)] by {
        lemma_cell_index(w, h, i, j);
    }
}

/// The row-major index of cell (x, y).
pub open spec fn flat_index(w: int, x: int, y: int) -> int {
    y * w + x
}

/// Row-major indexing: for an in-bounds cell the flat index is in range
/// and determines the coordinates.
pub proof fn lemma_cell_index(w: int, h: int, x: int, y: int)
    requires
        0 <= x < w,
        0 <= y < h,
    ensures
        0 <= y * w + x < w * h,
        (y * w + x) / w == y,
        (y * w + x) % w == x,
{
    assert(y * w + x < w * h) by (nonlinear_arith)
        requires
            0 <= x < w,
            0 <= y < h,
    ;
    assert(0 <= y * w) by (nonlinear_arith)
        requires
            0 <= y,
            0 < w,
    ;
    lemma_fundamental_div_mod_converse_div(y * w + x, w, y, x);
    lemma_fundamental_div_mod_converse_mod(y * w + x, w, y, x);
}

} // verus!
