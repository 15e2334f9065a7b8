//! Packed colors and the compositor: alpha-blending of a foreground color
//! over a background color under a fractional coverage weight.
//!
//! Coverage is a fixed-point fraction of [`COVER_ONE`]: a coverage of
//! `COVER_ONE` is full opacity, a coverage of `0` leaves the background.
//! All antialiasing in the crate routes through [`blend`].

use vstd::prelude::*;
use vstd::arithmetic::div_mod::{
    lemma_div_denominator,
    lemma_fundamental_div_mod,
    lemma_fundamental_div_mod_converse_div,
    lemma_fundamental_div_mod_converse_mod,
};

verus! {

/// Full coverage, the fixed-point unit: coverage values range over
/// `0 ..= COVER_ONE`.
pub const COVER_ONE: u32 = 256;

/// A packed 32-bit color: alpha in the high byte, then red, green, blue,
/// each channel 0–255.
#[derive(Clone, Copy, PartialEq, Eq, Structural, Debug)]
pub struct Color {
    pub bits: u32,
}

impl Color {
    /// The alpha channel, 0–255.
    pub open spec fn spec_alpha(self) -> int {
        self.bits as int / 0x100_0000
    }

    /// The red channel, 0–255.
    pub open spec fn spec_red(self) -> int {
        (self.bits as int / 0x1_0000) % 256
    }

    /// The green channel, 0–255.
    pub open spec fn spec_green(self) -> int {
        (self.bits as int / 0x100) % 256
    }

    /// The blue channel, 0–255.
    pub open spec fn spec_blue(self) -> int {
        self.bits as int % 256
    }

    /// The same color with the alpha channel forced fully opaque.
    pub open spec fn spec_opaque(self) -> Color {
        Color { bits: (0xFF00_0000 + self.bits as int % 0x100_0000) as u32 }
    }

    pub fn from_bits(bits: u32) -> (c: Color)
        ensures
            c.bits == bits,
    {
        Color { bits }
    }

    /// Packs four channel values into a color.
    pub fn from_channels(alpha: u8, red: u8, green: u8, blue: u8) -> (c: Color)
        ensures
            c.spec_alpha() == alpha,
            c.spec_red() == red,
            c.spec_green() == green,
            c.spec_blue() == blue,
            c == (Color { bits: pack_channels(alpha as int, red as int, green as int, blue as int) }),
    {
        proof {
            lemma_pack_unpack(alpha as int, red as int, green as int, blue as int);
        }
        let bits: u32 = (alpha as u32) * 0x100_0000 + (red as u32) * 0x1_0000 + (green as u32)
            * 0x100 + (blue as u32);
        Color { bits }
    }

    pub fn alpha(&self) -> (v: u8)
        ensures
            v == self.spec_alpha(),
    {
        (self.bits / 0x100_0000) as u8
    }

    pub fn red(&self) -> (v: u8)
        ensures
            v == self.spec_red(),
    {
        ((self.bits / 0x1_0000) % 256) as u8
    }

    pub fn green(&self) -> (v: u8)
        ensures
            v == self.spec_green(),
    {
        ((self.bits / 0x100) % 256) as u8
    }

    pub fn blue(&self) -> (v: u8)
        ensures
            v == self.spec_blue(),
    {
        (self.bits % 256) as u8
    }
}

/// The packed bits for the given channel values.
pub open spec fn pack_channels(alpha: int, red: int, green: int, blue: int) -> u32 {
    (alpha * 0x100_0000 + red * 0x1_0000 + green * 0x100 + blue) as u32
}

/// Clamps a coverage value into `0 ..= 256`, defensively against caller
/// arithmetic error.
pub open spec fn clamp_cover(cover: int) -> int {
    if cover < 0 {
        0
    } else if cover > 256 {
        256
    } else {
        cover
    }
}

/// One blended channel: the foreground weighted by the coverage plus the
/// background weighted by its complement, rounded to the nearest integer.
pub open spec fn blend_channel(bg: int, fg: int, cover: int) -> int {
    (fg * cover + bg * (256 - cover) + 128) / 256
}

/// The compositor's result: every channel blended under the clamped
/// coverage, alpha forced opaque.
pub open spec fn spec_blend(bg: Color, fg: Color, cover: int) -> Color {
    let cv = clamp_cover(cover);
    Color {
        bits: pack_channels(
            255,
            blend_channel(bg.spec_red(), fg.spec_red(), cv),
            blend_channel(bg.spec_green(), fg.spec_green(), cv),
            blend_channel(bg.spec_blue(), fg.spec_blue(), cv),
        ),
    }
}

/// Unpacking a packed color gives the channels back.
pub proof fn lemma_pack_unpack(alpha: int, red: int, green: int, blue: int)
    requires
        0 <= alpha <= 255,
        0 <= red <= 255,
        0 <= green <= 255,
        0 <= blue <= 255,
    ensures
        (Color { bits: pack_channels(alpha, red, green, blue) }).spec_alpha() == alpha,
        (Color { bits: pack_channels(alpha, red, green, blue) }).spec_red() == red,
        (Color { bits: pack_channels(alpha, red, green, blue) }).spec_green() == green,
        (Color { bits: pack_channels(alpha, red, green, blue) }).spec_blue() == blue,
{
    let s = alpha * 0x100_0000 + red * 0x1_0000 + green * 0x100 + blue;
    assert(pack_channels(alpha, red, green, blue) == s);
    lemma_fundamental_div_mod_converse_div(s, 0x100_0000, alpha, red * 0x1_0000 + green * 0x100 + blue);
    lemma_fundamental_div_mod_converse_div(s, 0x1_0000, alpha * 256 + red, green * 0x100 + blue);
    lemma_fundamental_div_mod_converse_mod(alpha * 256 + red, 256, alpha, red);
    lemma_fundamental_div_mod_converse_div(s, 0x100, alpha * 0x1_0000 + red * 0x100 + green, blue);
    lemma_fundamental_div_mod_converse_mod(
        alpha * 0x1_0000 + red * 0x100 + green,
        256,
        alpha * 256 + red,
        green,
    );
    lemma_fundamental_div_mod_converse_mod(
        s,
        256,
        alpha * 0x1_0000 + red * 0x100 + green,
        blue,
    );
}

pub proof fn lemma_blend_channel_bounds(bg: int, fg: int, cover: int)
    by (nonlinear_arith)
    requires
        0 <= bg <= 255,
        0 <= fg <= 255,
        0 <= cover <= 256,
    ensures
        0 <= blend_channel(bg, fg, cover) <= 255,
{
}

/// A color is the packed form of its four channels, each in 0–255, and
/// forcing the alpha opaque keeps the other channels.
pub proof fn lemma_channels(c: Color)
    ensures
        0 <= c.spec_alpha() <= 255,
        0 <= c.spec_red() <= 255,
        0 <= c.spec_green() <= 255,
        0 <= c.spec_blue() <= 255,
        c.bits == c.spec_alpha() * 0x100_0000 + c.spec_red() * 0x1_0000 + c.spec_green() * 0x100
            + c.spec_blue(),
        c.spec_opaque().spec_alpha() == 255,
        c.spec_opaque().spec_red() == c.spec_red(),
        c.spec_opaque().spec_green() == c.spec_green(),
        c.spec_opaque().spec_blue() == c.spec_blue(),
        c.spec_opaque().spec_opaque() == c.spec_opaque(),
{
    let bits = c.bits as int;
    let q0 = bits / 256;
    let q1 = q0 / 256;
    lemma_fundamental_div_mod(bits, 256);
    lemma_fundamental_div_mod(q0, 256);
    lemma_fundamental_div_mod(q1, 256);
    lemma_div_denominator(bits, 256, 256);
    lemma_div_denominator(bits, 0x1_0000, 256);
    lemma_div_denominator(q0, 256, 256);
    assert(c.spec_red() == q1 % 256);
    assert(c.spec_alpha() == q1 / 256);
    assert(bits == c.spec_alpha() * 0x100_0000 + c.spec_red() * 0x1_0000 + c.spec_green() * 0x100
        + c.spec_blue());
    let low = c.spec_red() * 0x1_0000 + c.spec_green() * 0x100 + c.spec_blue();
    lemma_fundamental_div_mod_converse_mod(bits, 0x100_0000, c.spec_alpha(), low);
    assert(c.spec_opaque().bits == 0xFF00_0000 + low);
    lemma_pack_unpack(255, c.spec_red(), c.spec_green(), c.spec_blue());
    assert(c.spec_opaque().bits == pack_channels(255, c.spec_red(), c.spec_green(), c.spec_blue()));
    lemma_fundamental_div_mod_converse_mod(
        c.spec_opaque().bits as int,
        0x100_0000,
        255,
        low,
    );
}

/// Full coverage paints the opaque foreground; zero or negative coverage
/// keeps the background, opaque.
pub proof fn lemma_blend_ends(bg: Color, fg: Color, cover: int)
    ensures
        cover >= 256 ==> spec_blend(bg, fg, cover) == fg.spec_opaque(),
        cover <= 0 ==> spec_blend(bg, fg, cover) == bg.spec_opaque(),
{
    lemma_channels(bg);
    lemma_channels(fg);
    if cover >= 256 {
        assert(clamp_cover(cover) == 256);
        assert(fg.spec_red() * 256 + bg.spec_red() * 0 + 128 == fg.spec_red() * 256 + 128);
        lemma_fundamental_div_mod_converse_div(fg.spec_red() * 256 + 128, 256, fg.spec_red(), 128);
        lemma_fundamental_div_mod_converse_div(
            fg.spec_green() * 256 + 128,
            256,
            fg.spec_green(),
            128,
        );
        lemma_fundamental_div_mod_converse_div(fg.spec_blue() * 256 + 128, 256, fg.spec_blue(), 128);
        assert(blend_channel(bg.spec_red(), fg.spec_red(), 256) == fg.spec_red());
        assert(spec_blend(bg, fg, cover).bits == pack_channels(
            255,
            fg.spec_red(),
            fg.spec_green(),
            fg.spec_blue(),
        ));
    } else if cover <= 0 {
        assert(clamp_cover(cover) == 0);
        lemma_fundamental_div_mod_converse_div(bg.spec_red() * 256 + 128, 256, bg.spec_red(), 128);
        lemma_fundamental_div_mod_converse_div(
            bg.spec_green() * 256 + 128,
            256,
            bg.spec_green(),
            128,
        );
        lemma_fundamental_div_mod_converse_div(bg.spec_blue() * 256 + 128, 256, bg.spec_blue(), 128);
        assert(blend_channel(bg.spec_red(), fg.spec_red(), 0) == bg.spec_red());
        assert(spec_blend(bg, fg, cover).bits == pack_channels(
            255,
            bg.spec_red(),
            bg.spec_green(),
            bg.spec_blue(),
        ));
    }
}

/// Blending a color over its own opaque form changes nothing: overlapping
/// stamps are idempotent on fully covered pixels.
pub proof fn lemma_blend_over_self(fg: Color, cover: int)
    ensures
        spec_blend(fg.spec_opaque(), fg, cover) == fg.spec_opaque(),
{
    lemma_channels(fg);
    let cv = clamp_cover(cover);
    let op = fg.spec_opaque();
    assert(fg.spec_red() * cv + op.spec_red() * (256 - cv) == 256 * fg.spec_red())
        by (nonlinear_arith)
        requires
            op.spec_red() == fg.spec_red(),
    ;
    assert(fg.spec_green() * cv + op.spec_green() * (256 - cv) == 256 * fg.spec_green())
        by (nonlinear_arith)
        requires
            op.spec_green() == fg.spec_green(),
    ;
    assert(fg.spec_blue() * cv + op.spec_blue() * (256 - cv) == 256 * fg.spec_blue())
        by (nonlinear_arith)
        requires
            op.spec_blue() == fg.spec_blue(),
    ;
    lemma_fundamental_div_mod_converse_div(256 * fg.spec_red() + 128, 256, fg.spec_red(), 128);
    lemma_fundamental_div_mod_converse_div(256 * fg.spec_green() + 128, 256, fg.spec_green(), 128);
    lemma_fundamental_div_mod_converse_div(256 * fg.spec_blue() + 128, 256, fg.spec_blue(), 128);
    assert(blend_channel(op.spec_red(), fg.spec_red(), cv) == fg.spec_red());
    assert(blend_channel(op.spec_green(), fg.spec_green(), cv) == fg.spec_green());
    assert(blend_channel(op.spec_blue(), fg.spec_blue(), cv) == fg.spec_blue());
    lemma_channels(op);
}

/// Blends the foreground over the background with the given coverage.
/// This function is the single source of truth for all antialiasing.
pub fn blend(bg: Color, fg: Color, cover: u32) -> (r: Color)
    ensures
        r == spec_blend(bg, fg, cover as int),
{
    let cv: u32 = if cover > COVER_ONE {
        COVER_ONE
    } else {
        cover
    };
    let br = bg.red() as u32;
    let bg_ = bg.green() as u32;
    let bb = bg.blue() as u32;
    let fr = fg.red() as u32;
    let fgr = fg.green() as u32;
    let fb = fg.blue() as u32;
    proof {
        lemma_blend_channel_bounds(br as int, fr as int, cv as int);
        lemma_blend_channel_bounds(bg_ as int, fgr as int, cv as int);
        lemma_blend_channel_bounds(bb as int, fb as int, cv as int);
        assert(fr * cv + br * (256 - cv) <= 255 * 256) by (nonlinear_arith)
            requires
                fr <= 255,
                br <= 255,
                0 <= cv <= 256,
        ;
        assert(fgr * cv + bg_ * (256 - cv) <= 255 * 256) by (nonlinear_arith)
            requires
                fgr <= 255,
                bg_ <= 255,
                0 <= cv <= 256,
        ;
        assert(fb * cv + bb * (256 - cv) <= 255 * 256) by (nonlinear_arith)
            requires
                fb <= 255,
                bb <= 255,
                0 <= cv <= 256,
        ;
    }
    let rr: u32 = (fr * cv + br * (COVER_ONE - cv) + 128) / COVER_ONE;
    let rg: u32 = (fgr * cv + bg_ * (COVER_ONE - cv) + 128) / COVER_ONE;
    let rb: u32 = (fb * cv + bb * (COVER_ONE - cv) + 128) / COVER_ONE;
    let bits: u32 = 0xFF00_0000 + rr * 0x1_0000 + rg * 0x100 + rb;
    Color { bits }
}

} // verus!
