//! Adaptive multi-line layout inside a fixed canvas region.
//!
//! Each line's measured bounding box is rescaled so that the text block
//! fits a target region of the canvas (80% of its width, 75% of its
//! height), each line keeping a share of the height budget proportional
//! to its own unscaled height; the width budget dominates when the two
//! constraints conflict.  The block is centered on the canvas with a
//! fixed vertical gap between lines.

use vstd::prelude::*;
use vstd::arithmetic::div_mod::lemma_div_is_ordered;
use vstd::arithmetic::div_mod::lemma_div_by_multiple;
use vstd::arithmetic::div_mod::lemma_div_pos_is_pos;
use vstd::arithmetic::div_mod::lemma_fundamental_div_mod;
use vstd::arithmetic::div_mod::lemma_mod_division_less_than_divisor;
use vstd::arithmetic::mul::lemma_mul_inequality;
use vstd::arithmetic::mul::lemma_mul_nonnegative;
use vstd::arithmetic::mul::lemma_mul_upper_bound;

verus! {

/// Vertical gap between consecutive lines, in pixels.
pub const LINE_GAP: u64 = 30;

/// One line to be laid out: its measured unscaled bounding box and the
/// font size it was measured at.
#[derive(Debug, Clone, Copy, PartialEq, Eq, Structural)]
pub struct MeasuredLine {
    /// Unscaled bounding-box width, in pixels.
    pub width: u32,
    /// Unscaled bounding-box height, in pixels.
    pub height: u32,
    /// Font size the box was measured at.
    pub font_size: u32,
}

/// One draw instruction: the top-left coordinate, the final box and the
/// final font size of a line.
#[derive(Debug, Clone, Copy, PartialEq, Eq, Structural)]
pub struct PlacedLine {
    /// Horizontal top-left drawing coordinate.
    pub x: u64,
    /// Vertical top-left drawing coordinate.
    pub y: u64,
    /// Final scaled width.
    pub width: u64,
    /// Final scaled height.
    pub height: u64,
    /// Final font size.
    pub font_size: u64,
}

/// The failure cases of the layout engine.
#[derive(Debug, Clone, Copy, PartialEq, Eq, Structural)]
pub enum LayoutError {
    /// A line has a zero-sized measured bounding box.
    DegenerateGeometry,
    /// The scaled text block and its gaps do not fit the canvas height.
    InsufficientCanvas,
}

/// An ordered sequence of draw instructions, one per input line.
#[derive(Debug)]
pub struct LayoutPlan {
    /// The draw instructions, in input order.
    pub lines: Vec<PlacedLine>,
}

/// The width budget: 80% of the canvas width.
pub open spec fn width_budget(canvas_w: int) -> int {
    canvas_w * 4 / 5
}

/// The height budget: 75% of the canvas height.
pub open spec fn height_budget(canvas_h: int) -> int {
    canvas_h * 3 / 4
}

/// Some line of the sequence has a zero-sized measured box.
pub open spec fn degenerate(s: Seq<MeasuredLine>) -> bool {
    exists|i: int| 0 <= i < s.len() && (s[i].width == 0 || s[i].height == 0)
}

/// The total unscaled height of the lines.
pub open spec fn sum_heights(s: Seq<MeasuredLine>) -> int
    decreases s.len(),
{
    if s.len() == 0 {
        0
    } else {
        s[0].height + sum_heights(s.drop_first())
    }
}

/// A line's share of the height budget, proportional to its own unscaled
/// height relative to the total.
pub open spec fn raw_height(m: MeasuredLine, total: int, hb: int) -> int {
    m.height * hb / total
}

/// The width the line would get at its raw height, preserving its aspect
/// ratio.
pub open spec fn raw_width(m: MeasuredLine, total: int, hb: int) -> int {
    raw_height(m, total, hb) * m.width / (m.height as int)
}

/// The final height: the raw height, shrunk further when the raw width
/// overflows the width budget.
pub open spec fn fit_height(m: MeasuredLine, total: int, wb: int, hb: int) -> int {
    if raw_width(m, total, hb) > wb {
        raw_height(m, total, hb) * wb / raw_width(m, total, hb)
    } else {
        raw_height(m, total, hb)
    }
}

/// The final width: the raw width, clamped to the width budget.
pub open spec fn fit_width(m: MeasuredLine, total: int, wb: int, hb: int) -> int {
    if raw_width(m, total, hb) > wb {
        wb
    } else {
        raw_width(m, total, hb)
    }
}

/// The final font size: the measured font size scaled by the same ratio
/// as the height.
pub open spec fn fit_font_size(m: MeasuredLine, total: int, wb: int, hb: int) -> int {
    m.font_size * fit_height(m, total, wb, hb) / (m.height as int)
}

/// The total final height of the lines.
pub open spec fn sum_fit_heights(s: Seq<MeasuredLine>, total: int, wb: int, hb: int) -> int
    decreases s.len(),
{
    if s.len() == 0 {
        0
    } else {
        fit_height(s[0], total, wb, hb) + sum_fit_heights(s.drop_first(), total, wb, hb)
    }
}

/// The height of the whole text block: final line heights plus one gap
/// per line.
pub open spec fn block_height(s: Seq<MeasuredLine>, canvas_w: int, canvas_h: int) -> int {
    sum_fit_heights(s, sum_heights(s), width_budget(canvas_w), height_budget(canvas_h))
        + 30 * s.len()
}

/// The vertical start of the block, centering it on the canvas.
pub open spec fn start_y(s: Seq<MeasuredLine>, canvas_w: int, canvas_h: int) -> int {
    (canvas_h - block_height(s, canvas_w, canvas_h)) / 2
}

/// Scaling `b` by the fraction `a / d` with `a <= d` cannot exceed `b`.
proof fn lemma_scale_le(a: int, b: int, d: int)
    requires
        0 <= a <= d,
        0 <= b,
        1 <= d,
    ensures
        0 <= a * b / d <= b,
{
    lemma_mul_inequality(a, d, b);
    lemma_div_is_ordered(a * b, d * b, d);
    lemma_div_by_multiple(b, d);
    lemma_mul_nonnegative(a, b);
    lemma_div_pos_is_pos(a * b, d);
}

/// The final height of one line is between zero and the height budget.
proof fn lemma_fit_height_bounds(m: MeasuredLine, total: int, wb: int, hb: int)
    requires
        1 <= m.height,
        m.height <= total,
        0 <= wb,
        0 <= hb,
    ensures
        0 <= fit_height(m, total, wb, hb) <= hb,
{
    lemma_scale_le(m.height as int, hb, total);
    let rh = raw_height(m, total, hb);
    let rw = raw_width(m, total, hb);
    if rw > wb {
        lemma_scale_le(wb, rh, rw);
        assert(rh * wb == wb * rh) by (nonlinear_arith);
    }
}

/// The total unscaled height is at least the number of lines, when no
/// line's box is degenerate.
proof fn lemma_sum_heights_at_least_len(s: Seq<MeasuredLine>)
    requires
        forall|i: int| 0 <= i < s.len() ==> (#[trigger] s[i]).height >= 1,
    ensures
        sum_heights(s) >= s.len(),
    decreases s.len(),
{
    if s.len() > 0 {
        assert(forall|i: int|
            0 <= i < s.drop_first().len() ==> (#[trigger] s.drop_first()[i]).height >= 1);
        lemma_sum_heights_at_least_len(s.drop_first());
    }
}

/// The total unscaled height is never negative.
proof fn lemma_sum_heights_nonneg(s: Seq<MeasuredLine>)
    ensures
        sum_heights(s) >= 0,
    decreases s.len(),
{
    if s.len() > 0 {
        lemma_sum_heights_nonneg(s.drop_first());
    }
}

/// Each line's unscaled height is at most the total.
proof fn lemma_elem_le_sum(s: Seq<MeasuredLine>, i: int)
    requires
        0 <= i < s.len(),
    ensures
        s[i].height <= sum_heights(s),
    decreases i,
{
    if i == 0 {
        lemma_sum_heights_nonneg(s.drop_first());
    } else {
        lemma_elem_le_sum(s.drop_first(), i - 1);
        assert(s.drop_first()[i - 1] == s[i]);
    }
}

/// The total final height is never negative.
proof fn lemma_sum_fit_nonneg(s: Seq<MeasuredLine>, total: int, wb: int, hb: int)
    requires
        1 <= total,
        0 <= wb,
        0 <= hb,
        forall|i: int| 0 <= i < s.len() ==> (#[trigger] s[i]).height >= 1,
    ensures
        sum_fit_heights(s, total, wb, hb) >= 0,
    decreases s.len(),
{
    if s.len() > 0 {
        if s[0].height <= total {
            lemma_fit_height_bounds(s[0], total, wb, hb);
        } else {
            lemma_scale_le_any(s[0], total, wb, hb);
        }
        assert(forall|i: int|
            0 <= i < s.drop_first().len() ==> (#[trigger] s.drop_first()[i]).height >= 1);
        lemma_sum_fit_nonneg(s.drop_first(), total, wb, hb);
    }
}

/// The final height of one line is never negative, whatever its share.
proof fn lemma_scale_le_any(m: MeasuredLine, total: int, wb: int, hb: int)
    requires
        1 <= m.height,
        1 <= total,
        0 <= wb,
        0 <= hb,
    ensures
        0 <= fit_height(m, total, wb, hb),
{
    lemma_mul_nonnegative(m.height as int, hb);
    lemma_div_pos_is_pos(m.height * hb, total);
    let rh = raw_height(m, total, hb);
    let rw = raw_width(m, total, hb);
    if rw > wb {
        lemma_mul_nonnegative(rh, wb);
        lemma_div_pos_is_pos(rh * wb, rw);
    }
}

/// The total final height over a sequence extended on the right.
proof fn lemma_sum_fit_push(s: Seq<MeasuredLine>, m: MeasuredLine, total: int, wb: int, hb: int)
    ensures
        sum_fit_heights(s.push(m), total, wb, hb)
            == sum_fit_heights(s, total, wb, hb) + fit_height(m, total, wb, hb),
    decreases s.len(),
{
    if s.len() == 0 {
        assert(s.push(m)[0] == m);
        assert(s.push(m).drop_first() =~= Seq::<MeasuredLine>::empty());
        assert(sum_fit_heights(Seq::<MeasuredLine>::empty(), total, wb, hb) == 0);
    } else {
        assert(s.push(m)[0] == s[0]);
        assert(s.push(m).drop_first() =~= s.drop_first().push(m));
        lemma_sum_fit_push(s.drop_first(), m, total, wb, hb);
    }
}

/// Compute the final box and font size of one line: its proportional
/// share of the height budget, shrunk to the width budget when the two
/// constraints conflict.
fn fit_box(m: MeasuredLine, total: u64, wb: u64, hb: u64) -> (r: (u64, u64, u64))
    requires
        1 <= m.height,
        m.height as int <= total as int,
        wb < 0x1_0000_0000,
        hb < 0x1_0000_0000,
    ensures
        r.0 == fit_width(m, total as int, wb as int, hb as int),
        r.1 == fit_height(m, total as int, wb as int, hb as int),
        r.2 == fit_font_size(m, total as int, wb as int, hb as int),
{
    let h = m.height as u64;
    let w = m.width as u64;
    proof {
        lemma_mul_upper_bound(h as int, 0xffff_ffff, hb as int, 0xffff_ffff);
        lemma_scale_le(h as int, hb as int, total as int);
    }
    let rh = h * hb / total;
    proof {
        lemma_mul_upper_bound(rh as int, 0xffff_ffff, w as int, 0xffff_ffff);
    }
    let rw = rh * w / h;
    let (tw, th) = if rw > wb {
        proof {
            lemma_mul_upper_bound(rh as int, 0xffff_ffff, wb as int, 0xffff_ffff);
            lemma_scale_le(wb as int, rh as int, rw as int);
            assert(rh as int * wb as int == wb as int * rh as int) by (nonlinear_arith);
        }
        (wb, rh * wb / rw)
    } else {
        (rw, rh)
    };
    proof {
        lemma_mul_upper_bound(m.font_size as int, 0xffff_ffff, th as int, 0xffff_ffff);
    }
    let tf = m.font_size as u64 * th / h;
    (tw, th, tf)
}

/// Compute the draw position and final font size of every line so that
/// the text block fits the canvas region: each line keeps a share of the
/// height budget proportional to its unscaled height, is clamped to the
/// width budget, and the block is centered with a fixed gap between
/// lines.  A zero-sized measured box is reported as degenerate geometry,
/// and a block that cannot fit the canvas height as an insufficient
/// canvas, never silently mis-placed.
pub fn layout(lines: &Vec<MeasuredLine>, canvas_w: u32, canvas_h: u32) -> (r: Result<
    LayoutPlan,
    LayoutError,
>)
    ensures
        (match r {
            Result::Ok(plan) => {
                let s = lines@;
                let total = sum_heights(s);
                let wb = width_budget(canvas_w as int);
                let hb = height_budget(canvas_h as int);
                &&& !degenerate(s)
                &&& block_height(s, canvas_w as int, canvas_h as int) <= canvas_h as int
                &&& plan.lines@.len() == s.len()
                &&& forall|j: int|
                    0 <= j < s.len() ==> {
                        let p = #[trigger] plan.lines@[j];
                        &&& p.width == fit_width(s[j], total, wb, hb)
                        &&& p.height == fit_height(s[j], total, wb, hb)
                        &&& p.font_size == fit_font_size(s[j], total, wb, hb)
                        &&& p.x == (canvas_w as int - fit_width(s[j], total, wb, hb)) / 2
                        &&& p.y == start_y(s, canvas_w as int, canvas_h as int)
                            + sum_fit_heights(s.take(j), total, wb, hb) + 30 * j
                    }
                &&& forall|j: int|
                    0 <= j < s.len() ==> (#[trigger] plan.lines@[j]).width
                        <= width_budget(canvas_w as int)
            },
            Result::Err(LayoutError::DegenerateGeometry) => degenerate(lines@),
            Result::Err(LayoutError::InsufficientCanvas) => {
                &&& !degenerate(lines@)
                &&& block_height(lines@, canvas_w as int, canvas_h as int) > canvas_h as int
            },
        }),
{
    let ghost s = lines@;
    let n = lines.len();
    if n == 0 {
        return Result::Ok(LayoutPlan { lines: Vec::new() });
    }
    // Reject zero-sized measured boxes: they would make the proportional
    // shares meaningless.
    let mut i: usize = 0;
    while i < n
        invariant
            i <= n,
            n == s.len(),
            s == lines@,
            forall|j: int| 0 <= j < i ==> (#[trigger] s[j]).width >= 1 && s[j].height >= 1,
        decreases n - i,
    {
        if lines[i].width == 0 || lines[i].height == 0 {
            return Result::Err(LayoutError::DegenerateGeometry);
        }
        i += 1;
    }
    let ch64 = canvas_h as u64;
    let cw64 = canvas_w as u64;
    proof {
        lemma_sum_heights_at_least_len(s);
        lemma_div_pos_is_pos(cw64 as int * 4, 5);
        lemma_div_pos_is_pos(ch64 as int * 3, 4);
        lemma_scale_le(4, cw64 as int, 5);
        lemma_scale_le(3, ch64 as int, 4);
        assert(cw64 as int * 4 == 4 * cw64 as int) by (nonlinear_arith);
        assert(ch64 as int * 3 == 3 * ch64 as int) by (nonlinear_arith);
    }
    // The gaps alone rule the block out when there are too many lines;
    // rejecting that here also bounds every later sum.
    if n as u64 > ch64 / 30 {
        proof {
            lemma_fundamental_div_mod(ch64 as int, 30);
            lemma_mod_division_less_than_divisor(ch64 as int, 30);
            lemma_mul_inequality(ch64 as int / 30 + 1, n as int, 30);
            lemma_sum_fit_nonneg(
                s,
                sum_heights(s),
                width_budget(canvas_w as int),
                height_budget(canvas_h as int),
            );
        }
        return Result::Err(LayoutError::InsufficientCanvas);
    }
    proof {
        lemma_fundamental_div_mod(ch64 as int, 30);
        lemma_mod_division_less_than_divisor(ch64 as int, 30);
        lemma_mul_inequality(n as int, ch64 as int / 30, 30);
    }
    // Total unscaled height of all lines.
    let mut total: u64 = 0;
    i = 0;
    proof {
        assert(s.skip(0) =~= s);
    }
    while i < n
        invariant
            i <= n,
            n == s.len(),
            s == lines@,
            n <= 0x1000_0000,
            forall|j: int| 0 <= j < n ==> (#[trigger] s[j]).width >= 1 && s[j].height >= 1,
            total as int + sum_heights(s.skip(i as int)) == sum_heights(s),
            total as int <= (i as int) * 0xffff_ffff,
        decreases n - i,
    {
        proof {
            assert(s.skip(i as int)[0] == s[i as int]);
            assert(s.skip(i as int).drop_first() =~= s.skip(i as int + 1));
            lemma_mul_inequality(i as int, n as int, 0xffff_ffff);
        }
        total = total + lines[i].height as u64;
        i += 1;
        proof {
            lemma_mul_inequality(i as int, 0x1000_0000, 0xffff_ffff);
        }
    }
    proof {
        assert(s.skip(n as int) =~= Seq::<MeasuredLine>::empty());
        assert(total as int == sum_heights(s));
    }
    let wb = cw64 * 4 / 5;
    let hb = ch64 * 3 / 4;
    let ghost wbi = width_budget(canvas_w as int);
    let ghost hbi = height_budget(canvas_h as int);
    // Total final height of all lines.
    let mut total2: u64 = 0;
    i = 0;
    proof {
        assert(s.skip(0) =~= s);
    }
    while i < n
        invariant
            i <= n,
            n == s.len(),
            s == lines@,
            n <= 0x1000_0000,
            forall|j: int| 0 <= j < n ==> (#[trigger] s[j]).width >= 1 && s[j].height >= 1,
            total as int == sum_heights(s),
            n <= total,
            wb == wbi,
            hb == hbi,
            wb < 0x1_0000_0000,
            hb < 0x1_0000_0000,
            total2 as int + sum_fit_heights(s.skip(i as int), total as int, wbi, hbi)
                == sum_fit_heights(s, total as int, wbi, hbi),
            total2 as int <= (i as int) * (hb as int),
        decreases n - i,
    {
        proof {
            assert(s.skip(i as int)[0] == s[i as int]);
            assert(s.skip(i as int).drop_first() =~= s.skip(i as int + 1));
            lemma_elem_le_sum(s, i as int);
            lemma_fit_height_bounds(s[i as int], total as int, wbi, hbi);
            lemma_mul_upper_bound(i as int, 0x1000_0000, hb as int, 0xffff_ffff);
        }
        let (_, th, _) = fit_box(lines[i], total, wb, hb);
        total2 = total2 + th;
        i += 1;
        proof {
            assert((i as int) * (hb as int) == (i as int - 1) * (hb as int) + hb as int)
                by (nonlinear_arith);
            lemma_mul_upper_bound(i as int, 0x1000_0000, hb as int, 0xffff_ffff);
        }
    }
    proof {
        assert(s.skip(n as int) =~= Seq::<MeasuredLine>::empty());
        assert(total2 as int == sum_fit_heights(s, total as int, wbi, hbi));
        lemma_mul_upper_bound(n as int, 0x1000_0000, hb as int, 0xffff_ffff);
    }
    let gaps = 30 * (n as u64);
    if total2 + gaps > ch64 {
        return Result::Err(LayoutError::InsufficientCanvas);
    }
    // Center the block vertically and place the lines top to bottom.
    let y0 = (ch64 - total2 - gaps) / 2;
    proof {
        lemma_div_pos_is_pos(ch64 as int - total2 as int - gaps as int, 2);
        lemma_div_is_ordered(ch64 as int - total2 as int - gaps as int, ch64 as int, 2);
        assert(y0 as int == start_y(s, canvas_w as int, canvas_h as int));
    }
    let mut plan: Vec<PlacedLine> = Vec::new();
    let mut y_cur: u64 = y0;
    i = 0;
    proof {
        assert(s.take(0) =~= Seq::<MeasuredLine>::empty());
    }
    while i < n
        invariant
            i <= n,
            n == s.len(),
            s == lines@,
            n <= 0x1000_0000,
            forall|j: int| 0 <= j < n ==> (#[trigger] s[j]).width >= 1 && s[j].height >= 1,
            total as int == sum_heights(s),
            n <= total,
            wb == wbi,
            hb == hbi,
            wb < 0x1_0000_0000,
            hb < 0x1_0000_0000,
            wb <= cw64,
            cw64 == canvas_w as u64,
            ch64 == canvas_h as u64,
            total2 as int == sum_fit_heights(s, total as int, wbi, hbi),
            total2 as int + 30 * (n as int) <= ch64 as int,
            y0 as int == start_y(s, canvas_w as int, canvas_h as int),
            0 <= y0 as int <= ch64 as int,
            plan@.len() == i as int,
            forall|j: int|
                0 <= j < i ==> {
                    let p = #[trigger] plan@[j];
                    &&& p.width == fit_width(s[j], total as int, wbi, hbi)
                    &&& p.height == fit_height(s[j], total as int, wbi, hbi)
                    &&& p.font_size == fit_font_size(s[j], total as int, wbi, hbi)
                    &&& p.x == (canvas_w as int - fit_width(s[j], total as int, wbi, hbi)) / 2
                    &&& p.y == start_y(s, canvas_w as int, canvas_h as int)
                        + sum_fit_heights(s.take(j), total as int, wbi, hbi) + 30 * j
                },
            y_cur as int == y0 as int
                + sum_fit_heights(s.take(i as int), total as int, wbi, hbi) + 30 * (i as int),
            sum_fit_heights(s.take(i as int), total as int, wbi, hbi)
                + sum_fit_heights(s.skip(i as int), total as int, wbi, hbi)
                == total2 as int,
        decreases n - i,
    {
        proof {
            assert(s.skip(i as int)[0] == s[i as int]);
            assert(s.skip(i as int).drop_first() =~= s.skip(i as int + 1));
            lemma_elem_le_sum(s, i as int);
            lemma_fit_height_bounds(s[i as int], total as int, wbi, hbi);
            assert(forall|k: int|
                0 <= k < s.skip(i as int + 1).len()
                    ==> (#[trigger] s.skip(i as int + 1)[k]).height >= 1);
            lemma_sum_fit_nonneg(s.skip(i as int + 1), total as int, wbi, hbi);
            lemma_sum_fit_push(s.take(i as int), s[i as int], total as int, wbi, hbi);
            assert(s.take(i as int).push(s[i as int]) =~= s.take(i as int + 1));
        }
        let (tw, th, tf) = fit_box(lines[i], total, wb, hb);
        let x = (cw64 - tw) / 2;
        plan.push(PlacedLine { x, y: y_cur, width: tw, height: th, font_size: tf });
        proof {
            assert(sum_fit_heights(s.take(i as int + 1), total as int, wbi, hbi)
                + sum_fit_heights(s.skip(i as int + 1), total as int, wbi, hbi)
                == total2 as int);
            assert(sum_fit_heights(s.take(i as int + 1), total as int, wbi, hbi)
                <= total2 as int);
            assert(y_cur as int + th as int + 30 <= y0 as int + total2 as int + 30 * (n as int));
        }
        y_cur = y_cur + th + LINE_GAP;
        i += 1;
    }
    proof {
        assert(s.take(n as int) =~= s);
    }
    Result::Ok(LayoutPlan { lines: plan })
}

} // verus!
