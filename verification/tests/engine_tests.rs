//! Tests for the engine: pointer and key events, the undo/redo
//! history, tool state and resizing.

use draw_engine::color::Color;
use draw_engine::engine::{
    Command, Damage, Engine, StrokeButton, Tool, DEFAULT_DRAW_RADIUS, DEFAULT_ERASE_RADIUS,
    MAX_DRAW_RADIUS, MAX_ERASE_RADIUS,
};

const BG: u32 = 0x0000_0000;
const RED: u32 = 0xFFFF_0000;

fn bg() -> Color {
    Color::from_bits(BG)
}

fn red() -> Color {
    Color::from_bits(RED)
}

fn fresh(w: usize, h: usize) -> Engine {
    Engine::new(w, h, bg(), red())
}

fn snapshot(e: &Engine) -> Vec<u32> {
    e.canvas().cells().iter().map(|c| c.bits).collect()
}

#[test]
fn new_engine_defaults() {
    let e = fresh(10, 10);
    assert_eq!(e.width(), 10);
    assert_eq!(e.height(), 10);
    assert_eq!(e.draw_radius(), DEFAULT_DRAW_RADIUS);
    assert_eq!(e.erase_radius(), DEFAULT_ERASE_RADIUS);
    assert_eq!(e.draw_color(), red());
    assert_eq!(e.background(), bg());
    assert!(!e.is_stroke_active());
    assert_eq!(e.undo_depth(), 0);
    assert_eq!(e.redo_depth(), 0);
    for y in 0..10 {
        for x in 0..10 {
            assert_eq!(e.pixel(x, y), Some(bg()));
        }
    }
}

#[test]
fn pointer_down_stamps_a_dab() {
    // buffer 10x10, background 0x00000000, color 0xFFFF0000, radius 1:
    // a press at (2,2) paints a disc centered there
    let mut e = fresh(10, 10);
    let damage = e.on_pointer_down(2, 2, StrokeButton::Primary);
    assert!(matches!(damage, Damage::Region(_)));
    assert!(e.is_stroke_active());
    assert_eq!(e.last_point(), Some((2, 2)));
    assert_eq!(e.undo_depth(), 1);
    assert_eq!(e.pixel(2, 2).unwrap().bits, RED);
    assert_eq!(e.pixel(3, 2).unwrap().bits, RED);
    assert_eq!(e.pixel(2, 1).unwrap().bits, RED);
    // distance 2: untouched
    assert_eq!(e.pixel(4, 2).unwrap().bits, BG);
}

#[test]
fn press_then_undo_restores_background() {
    let mut e = fresh(10, 10);
    e.on_pointer_down(2, 2, StrokeButton::Primary);
    e.on_pointer_up(StrokeButton::Primary);
    assert!(!e.is_stroke_active());
    assert_eq!(e.last_point(), None);
    let damage = e.on_key(Command::Undo);
    assert_eq!(damage, Damage::Full);
    for y in 0..10 {
        for x in 0..10 {
            assert_eq!(e.pixel(x, y), Some(bg()));
        }
    }
}

#[test]
fn undo_then_redo_round_trips_byte_for_byte() {
    let mut e = fresh(16, 16);
    e.on_pointer_down(4, 4, StrokeButton::Primary);
    e.on_pointer_move(12, 9);
    e.on_pointer_up(StrokeButton::Primary);
    let drawn = snapshot(&e);
    assert_eq!(e.on_key(Command::Undo), Damage::Full);
    assert_ne!(snapshot(&e), drawn);
    assert_eq!(e.on_key(Command::Redo), Damage::Full);
    assert_eq!(snapshot(&e), drawn);
    assert_eq!(e.undo_depth(), 1);
    assert_eq!(e.redo_depth(), 0);
}

#[test]
fn new_stroke_after_undo_clears_redo() {
    let mut e = fresh(16, 16);
    e.on_pointer_down(4, 4, StrokeButton::Primary);
    e.on_pointer_up(StrokeButton::Primary);
    e.on_key(Command::Undo);
    assert_eq!(e.redo_depth(), 1);
    // a new stroke: linear history, the redo branch is discarded
    e.on_pointer_down(8, 8, StrokeButton::Primary);
    e.on_pointer_up(StrokeButton::Primary);
    assert_eq!(e.redo_depth(), 0);
    let before = snapshot(&e);
    assert_eq!(e.on_key(Command::Redo), Damage::Unchanged);
    assert_eq!(snapshot(&e), before);
}

#[test]
fn undo_on_empty_stack_is_noop() {
    let mut e = fresh(8, 8);
    let before = snapshot(&e);
    assert_eq!(e.on_key(Command::Undo), Damage::Unchanged);
    assert_eq!(e.on_key(Command::Redo), Damage::Unchanged);
    assert_eq!(snapshot(&e), before);
}

#[test]
fn resize_clears_both_history_stacks() {
    // two strokes on a 100x100 canvas, then a resize to 50x200
    let mut e = fresh(100, 100);
    e.on_pointer_down(10, 10, StrokeButton::Primary);
    e.on_pointer_move(20, 10);
    e.on_pointer_up(StrokeButton::Primary);
    e.on_pointer_down(30, 30, StrokeButton::Primary);
    e.on_pointer_move(40, 40);
    e.on_pointer_up(StrokeButton::Primary);
    e.on_key(Command::Undo);
    assert_eq!(e.undo_depth(), 1);
    assert_eq!(e.redo_depth(), 1);
    let damage = e.on_resize(50, 200);
    assert_eq!(damage, Damage::Full);
    assert_eq!(e.width(), 50);
    assert_eq!(e.height(), 200);
    assert_eq!(e.undo_depth(), 0);
    assert_eq!(e.redo_depth(), 0);
    // a subsequent undo is a no-op
    let before = snapshot(&e);
    assert_eq!(e.on_key(Command::Undo), Damage::Unchanged);
    assert_eq!(snapshot(&e), before);
}

#[test]
fn resize_keeps_overlap_and_fills_rest() {
    let mut e = fresh(8, 8);
    e.on_pointer_down(1, 1, StrokeButton::Primary);
    e.on_pointer_up(StrokeButton::Primary);
    let kept = e.pixel(1, 1).unwrap();
    e.on_resize(12, 4);
    assert_eq!(e.pixel(1, 1), Some(kept));
    assert_eq!(e.pixel(10, 2), Some(bg()));
}

#[test]
fn engine_resize_zero_dimension_rejected() {
    let mut e = fresh(8, 8);
    e.on_pointer_down(1, 1, StrokeButton::Primary);
    e.on_pointer_up(StrokeButton::Primary);
    let before = snapshot(&e);
    assert_eq!(e.on_resize(0, 20), Damage::Unchanged);
    assert_eq!(e.on_resize(20, 0), Damage::Unchanged);
    assert_eq!(e.width(), 8);
    assert_eq!(e.height(), 8);
    assert_eq!(snapshot(&e), before);
    assert_eq!(e.undo_depth(), 1);
}

#[test]
fn idle_motion_does_nothing() {
    let mut e = fresh(8, 8);
    let before = snapshot(&e);
    assert_eq!(e.on_pointer_move(3, 3), Damage::Unchanged);
    assert_eq!(snapshot(&e), before);
    assert_eq!(e.undo_depth(), 0);
    assert_eq!(e.last_point(), None);
}

#[test]
fn active_motion_draws_connecting_stroke() {
    let mut e = fresh(20, 5);
    e.on_pointer_down(0, 0, StrokeButton::Primary);
    e.on_pointer_move(10, 0);
    for x in 0..=10 {
        assert_eq!(e.pixel(x, 0).unwrap().bits, RED);
    }
    assert_eq!(e.last_point(), Some((10, 0)));
    // one snapshot for the whole interaction
    assert_eq!(e.undo_depth(), 1);
}

#[test]
fn secondary_button_erases_with_background() {
    let mut e = fresh(20, 20);
    e.on_pointer_down(5, 5, StrokeButton::Primary);
    e.on_pointer_up(StrokeButton::Primary);
    assert_eq!(e.pixel(5, 5).unwrap().bits, RED);
    e.on_pointer_down(5, 5, StrokeButton::Secondary);
    e.on_pointer_up(StrokeButton::Secondary);
    // erased: opaque background color (the erase policy is an opaque
    // background paint, not transparency)
    assert_eq!(e.pixel(5, 5).unwrap().bits, 0xFF00_0000);
}

#[test]
fn select_color_changes_later_strokes() {
    let mut e = fresh(10, 10);
    let green = Color::from_bits(0xFF00_FF00);
    assert_eq!(e.on_key(Command::SelectColor(green)), Damage::Unchanged);
    assert_eq!(e.draw_color(), green);
    e.on_pointer_down(4, 4, StrokeButton::Primary);
    assert_eq!(e.pixel(4, 4).unwrap().bits, 0xFF00_FF00);
}

#[test]
fn adjust_radius_clamps_to_tool_limits() {
    let mut e = fresh(10, 10);
    e.on_key(Command::AdjustRadius(Tool::Draw, 100));
    assert_eq!(e.draw_radius(), MAX_DRAW_RADIUS);
    e.on_key(Command::AdjustRadius(Tool::Draw, -100));
    assert_eq!(e.draw_radius(), 1);
    e.on_key(Command::AdjustRadius(Tool::Erase, 100));
    assert_eq!(e.erase_radius(), MAX_ERASE_RADIUS);
    e.on_key(Command::AdjustRadius(Tool::Erase, -100));
    assert_eq!(e.erase_radius(), 1);
    e.on_key(Command::AdjustRadius(Tool::Draw, 3));
    assert_eq!(e.draw_radius(), 4);
    assert_eq!(e.erase_radius(), 1);
}

#[test]
fn clear_canvas_snapshots_then_fills() {
    let mut e = fresh(10, 10);
    e.on_pointer_down(3, 3, StrokeButton::Primary);
    e.on_pointer_up(StrokeButton::Primary);
    let drawn = snapshot(&e);
    assert_eq!(e.on_key(Command::ClearCanvas), Damage::Full);
    for y in 0..10 {
        for x in 0..10 {
            assert_eq!(e.pixel(x, y), Some(bg()));
        }
    }
    assert_eq!(e.undo_depth(), 2);
    // the clear itself can be undone
    assert_eq!(e.on_key(Command::Undo), Damage::Full);
    assert_eq!(snapshot(&e), drawn);
}

#[test]
fn pixel_out_of_bounds_is_none() {
    let e = fresh(4, 4);
    assert_eq!(e.pixel(-1, 0), None);
    assert_eq!(e.pixel(0, -1), None);
    assert_eq!(e.pixel(4, 0), None);
    assert_eq!(e.pixel(0, 4), None);
}
