//! Tests of the adaptive layout engine.

use poster_text::layout::layout;
use poster_text::layout::LayoutError;
use poster_text::layout::MeasuredLine;

#[test]
fn single_line_scales_to_the_height_budget() {
    // One line measured (100 x 50): it gets the whole height budget of
    // 267 * 3 / 4 = 200, so the height quadruples, and width and font
    // size follow the same ratio.
    let lines = vec![MeasuredLine { width: 100, height: 50, font_size: 72 }];
    let plan = layout(&lines, 500, 267).unwrap();
    assert_eq!(plan.lines.len(), 1);
    let p = plan.lines[0];
    assert_eq!(p.height, 200);
    assert_eq!(p.width, 400);
    assert_eq!(p.font_size, 288);
    assert_eq!(p.x, 50);
    assert_eq!(p.y, 18);
}

#[test]
fn width_budget_dominates_when_too_wide() {
    // Same line on a narrow canvas: the width budget 300 * 4 / 5 = 240
    // clamps the width, and the height shrinks by the same factor.
    let lines = vec![MeasuredLine { width: 100, height: 50, font_size: 72 }];
    let plan = layout(&lines, 300, 267).unwrap();
    let p = plan.lines[0];
    assert_eq!(p.width, 240);
    assert_eq!(p.height, 120);
    assert_eq!(p.font_size, 172);
    assert_eq!(p.x, 30);
    assert_eq!(p.y, 58);
}

#[test]
fn block_fits_the_canvas_height() {
    let lines = vec![
        MeasuredLine { width: 200, height: 40, font_size: 72 },
        MeasuredLine { width: 100, height: 60, font_size: 72 },
        MeasuredLine { width: 50, height: 30, font_size: 48 },
    ];
    let plan = layout(&lines, 400, 400).unwrap();
    assert_eq!(plan.lines.len(), 3);
    let total: u64 = plan.lines.iter().map(|p| p.height).sum();
    assert!(total + 30 * 3 <= 400);
}

#[test]
fn no_line_exceeds_the_width_budget() {
    let lines = vec![
        MeasuredLine { width: 900, height: 10, font_size: 72 },
        MeasuredLine { width: 100, height: 60, font_size: 72 },
    ];
    let plan = layout(&lines, 400, 300).unwrap();
    for p in &plan.lines {
        assert!(p.width <= 400 * 4 / 5);
    }
}

#[test]
fn lines_are_stacked_with_the_gap() {
    let lines = vec![
        MeasuredLine { width: 100, height: 50, font_size: 72 },
        MeasuredLine { width: 100, height: 50, font_size: 72 },
    ];
    let plan = layout(&lines, 500, 400).unwrap();
    let a = plan.lines[0];
    let b = plan.lines[1];
    assert_eq!(b.y, a.y + a.height + 30);
}

#[test]
fn zero_sized_box_is_degenerate() {
    let lines = vec![MeasuredLine { width: 0, height: 10, font_size: 72 }];
    assert!(matches!(layout(&lines, 500, 400), Err(LayoutError::DegenerateGeometry)));
    let lines = vec![MeasuredLine { width: 10, height: 0, font_size: 72 }];
    assert!(matches!(layout(&lines, 500, 400), Err(LayoutError::DegenerateGeometry)));
}

#[test]
fn too_small_canvas_is_reported() {
    // The inter-line gap alone exceeds a 20-pixel-high canvas.
    let lines = vec![MeasuredLine { width: 10, height: 10, font_size: 12 }];
    assert!(matches!(layout(&lines, 100, 20), Err(LayoutError::InsufficientCanvas)));
}

#[test]
fn empty_input_gives_empty_plan() {
    let lines: Vec<MeasuredLine> = Vec::new();
    let plan = layout(&lines, 100, 100).unwrap();
    assert!(plan.lines.is_empty());
}
