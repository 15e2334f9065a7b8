//! Tests for the raster primitives: colors and blending, the pixel
//! buffer, the brush stamp and the stroke rasterizer.

use draw_engine::brush::{coverage, isqrt, stamp_disc};
use draw_engine::buffer::PixelBuffer;
use draw_engine::color::{blend, Color, COVER_ONE};
use draw_engine::damage::DamageRect;
use draw_engine::stroke::rasterize_stroke;

const BG: u32 = 0x0000_0000;
const RED: u32 = 0xFFFF_0000;

fn bg() -> Color {
    Color::from_bits(BG)
}

fn red() -> Color {
    Color::from_bits(RED)
}

#[test]
fn isqrt_exact_values() {
    assert_eq!(isqrt(0), 0);
    assert_eq!(isqrt(1), 1);
    assert_eq!(isqrt(2), 1);
    assert_eq!(isqrt(3), 1);
    assert_eq!(isqrt(4), 2);
    assert_eq!(isqrt(10), 3);
    assert_eq!(isqrt(131072), 362);
    assert_eq!(isqrt(u64::MAX), 0xFFFF_FFFF);
}

#[test]
fn coverage_profile_radius_one() {
    // center and axis neighbours: fully covered
    assert_eq!(coverage(0, 0, 1), 256);
    assert_eq!(coverage(1, 0, 1), 256);
    assert_eq!(coverage(0, -1, 1), 256);
    // diagonal neighbour: in the ring, 256 * 2 - floor(256 * sqrt(2))
    assert_eq!(coverage(1, 1, 1), 150);
    // two away: outside
    assert_eq!(coverage(2, 0, 1), 0);
    assert_eq!(coverage(2, 2, 1), 0);
}

#[test]
fn channel_accessors_round_trip() {
    let c = Color::from_channels(0xFF, 0x12, 0x34, 0x56);
    assert_eq!(c.bits, 0xFF12_3456);
    assert_eq!(c.alpha(), 0xFF);
    assert_eq!(c.red(), 0x12);
    assert_eq!(c.green(), 0x34);
    assert_eq!(c.blue(), 0x56);
}

#[test]
fn blend_full_coverage_is_opaque_foreground() {
    let out = blend(bg(), red(), COVER_ONE);
    assert_eq!(out.bits, 0xFFFF_0000);
    // the alpha channel is forced opaque even for a transparent input
    let out2 = blend(red(), Color::from_bits(0x0012_3456), COVER_ONE);
    assert_eq!(out2.bits, 0xFF12_3456);
}

#[test]
fn blend_zero_coverage_keeps_background_opaque() {
    let out = blend(Color::from_bits(0x0012_3456), red(), 0);
    assert_eq!(out.bits, 0xFF12_3456);
}

#[test]
fn blend_partial_coverage_exact() {
    // channel = (255 * 150 + 0 * 106 + 128) / 256 = 149 = 0x95
    let out = blend(bg(), red(), 150);
    assert_eq!(out.bits, 0xFF95_0000);
    // halfway between two greys, rounded to nearest
    let out2 = blend(Color::from_bits(0xFF00_0000), Color::from_bits(0xFF64_6464), 128);
    assert_eq!(out2.bits, 0xFF32_3232);
}

#[test]
fn blend_clamps_excessive_coverage() {
    let out = blend(bg(), red(), 100_000);
    assert_eq!(out.bits, 0xFFFF_0000);
}

#[test]
fn set_then_get_returns_written_color() {
    let mut buf = PixelBuffer::create(8, 6, bg());
    buf.set(3, 4, red());
    assert_eq!(buf.get(3, 4), Some(red()));
    // neighbours untouched
    assert_eq!(buf.get(2, 4), Some(bg()));
    assert_eq!(buf.get(4, 4), Some(bg()));
    assert_eq!(buf.get(3, 3), Some(bg()));
    assert_eq!(buf.get(3, 5), Some(bg()));
}

#[test]
fn set_out_of_bounds_is_noop() {
    let mut buf = PixelBuffer::create(4, 4, bg());
    buf.set(-1, 0, red());
    buf.set(0, -1, red());
    buf.set(4, 0, red());
    buf.set(0, 4, red());
    buf.set(1_000_000, 1_000_000, red());
    for y in 0..4 {
        for x in 0..4 {
            assert_eq!(buf.get(x, y), Some(bg()));
        }
    }
    assert_eq!(buf.get(-1, 0), None);
    assert_eq!(buf.get(4, 0), None);
}

#[test]
fn resize_preserves_overlap_and_fills_background() {
    let mut buf = PixelBuffer::create(6, 5, bg());
    for y in 0..5 {
        for x in 0..6 {
            let v = 0xFF00_0000 | ((x as u32) << 8) | y as u32;
            buf.set(x, y, Color::from_bits(v));
        }
    }
    let changed = buf.resize(4, 8, red());
    assert!(changed);
    assert_eq!(buf.width(), 4);
    assert_eq!(buf.height(), 8);
    for y in 0..8 {
        for x in 0..4 {
            let got = buf.get(x, y).unwrap();
            if x < 4 && y < 5 {
                let v = 0xFF00_0000 | ((x as u32) << 8) | y as u32;
                assert_eq!(got.bits, v);
            } else {
                assert_eq!(got, red());
            }
        }
    }
}

#[test]
fn resize_zero_dimension_rejected() {
    let mut buf = PixelBuffer::create(6, 5, bg());
    buf.set(1, 1, red());
    assert!(!buf.resize(0, 8, bg()));
    assert!(!buf.resize(8, 0, bg()));
    assert_eq!(buf.width(), 6);
    assert_eq!(buf.height(), 5);
    assert_eq!(buf.get(1, 1), Some(red()));
}

#[test]
fn stamp_coverage_radius_five() {
    let mut buf = PixelBuffer::create(100, 100, bg());
    let damage = stamp_disc(&mut buf, 50, 50, 5, red());
    assert!(damage.is_some());
    let mut ring: Vec<(i64, u8)> = Vec::new();
    for dy in -8i64..=8 {
        for dx in -8i64..=8 {
            let d2 = dx * dx + dy * dy;
            let got = buf.get((50 + dx) as i32, (50 + dy) as i32).unwrap();
            if d2 <= 25 {
                // distance <= 5: fully foreground
                assert_eq!(got.bits, 0xFFFF_0000);
            } else if d2 >= 36 {
                // distance >= 6: untouched
                assert_eq!(got.bits, BG);
            } else {
                // the ring: some red, strictly less than full
                assert!(got.red() > 0 && got.red() < 0xFF);
                ring.push((d2, got.red()));
            }
        }
    }
    // strictly decreasing coverage across the ring
    for &(d2a, ra) in &ring {
        for &(d2b, rb) in &ring {
            if d2a < d2b {
                assert!(ra > rb);
            }
        }
    }
}

#[test]
fn stamp_damage_is_minimal_rectangle() {
    let mut buf = PixelBuffer::create(10, 10, bg());
    let damage = stamp_disc(&mut buf, 5, 5, 1, red());
    assert_eq!(damage, Some(DamageRect { x: 4, y: 4, width: 3, height: 3 }));
}

#[test]
fn stamp_clips_at_corner() {
    let mut buf = PixelBuffer::create(10, 10, bg());
    let damage = stamp_disc(&mut buf, 0, 0, 1, red());
    assert_eq!(damage, Some(DamageRect { x: 0, y: 0, width: 2, height: 2 }));
    assert_eq!(buf.get(0, 0).unwrap().bits, 0xFFFF_0000);
}

#[test]
fn stamp_far_off_canvas_changes_nothing() {
    let mut buf = PixelBuffer::create(10, 10, bg());
    let damage = stamp_disc(&mut buf, -100, -100, 3, red());
    assert_eq!(damage, None);
    for y in 0..10 {
        for x in 0..10 {
            assert_eq!(buf.get(x, y), Some(bg()));
        }
    }
}

#[test]
fn stroke_has_no_gaps() {
    let mut buf = PixelBuffer::create(20, 5, bg());
    let damage = rasterize_stroke(&mut buf, 0, 0, 10, 0, 1, red());
    assert!(damage.is_some());
    for x in 0..=10 {
        let got = buf.get(x, 0).unwrap();
        assert_ne!(got.bits, BG);
        assert_eq!(got.bits, 0xFFFF_0000);
    }
}

#[test]
fn stroke_damage_is_union_rectangle() {
    let mut buf = PixelBuffer::create(10, 10, bg());
    let damage = rasterize_stroke(&mut buf, 2, 2, 5, 2, 1, red());
    assert_eq!(damage, Some(DamageRect { x: 1, y: 1, width: 6, height: 3 }));
}

#[test]
fn degenerate_stroke_is_one_stamp() {
    let mut a = PixelBuffer::create(10, 10, bg());
    let mut b = PixelBuffer::create(10, 10, bg());
    let da = rasterize_stroke(&mut a, 5, 5, 5, 5, 2, red());
    let db = stamp_disc(&mut b, 5, 5, 2, red());
    assert_eq!(da, db);
    for y in 0..10 {
        for x in 0..10 {
            assert_eq!(a.get(x, y), b.get(x, y));
        }
    }
}

#[test]
fn diagonal_stroke_covers_diagonal_cells() {
    let mut buf = PixelBuffer::create(12, 12, bg());
    rasterize_stroke(&mut buf, 1, 1, 8, 8, 1, red());
    for k in 1..=8 {
        assert_eq!(buf.get(k, k).unwrap().bits, 0xFFFF_0000);
    }
}

#[test]
fn duplicate_is_byte_for_byte() {
    let mut buf = PixelBuffer::create(7, 3, bg());
    buf.set(2, 1, red());
    let copy = buf.duplicate();
    assert_eq!(copy.width(), 7);
    assert_eq!(copy.height(), 3);
    assert_eq!(copy.cells().len(), 21);
    for (a, b) in buf.cells().iter().zip(copy.cells().iter()) {
        assert_eq!(a.bits, b.bits);
    }
}

#[test]
fn zero_area_buffer_operations() {
    let mut buf = PixelBuffer::create(0, 0, bg());
    assert_eq!(buf.width(), 0);
    assert_eq!(buf.get(0, 0), None);
    assert_eq!(stamp_disc(&mut buf, 0, 0, 3, red()), None);
    assert_eq!(rasterize_stroke(&mut buf, 0, 0, 5, 5, 1, red()), None);
    // a resize out of the degenerate state works
    assert!(buf.resize(3, 3, red()));
    assert_eq!(buf.get(1, 1), Some(red()));
}

#[test]
fn stamp_blends_over_existing_content() {
    // stamping on top of an opaque version of the same color changes
    // nothing: overlap inside a stroke is idempotent
    let mut buf = PixelBuffer::create(10, 10, Color::from_bits(0xFFFF_0000));
    stamp_disc(&mut buf, 5, 5, 2, red());
    for y in 0..10 {
        for x in 0..10 {
            assert_eq!(buf.get(x, y).unwrap().bits, 0xFFFF_0000);
        }
    }
}
