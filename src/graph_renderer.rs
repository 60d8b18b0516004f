//! Graph elements: a sensor's history as a line chart, optionally filled
//! below the line.
//!
//! The tile is built here up to the stroke: background, fill, and the list of
//! one-pixel line segments that make up a stroke of the configured width.
use vstd::prelude::*;

use crate::fixed::Fixed;
use crate::raster::{clear, lemma_grid_pos, Raster, Rgba};
use crate::{color_of, hex_to_rgba, GraphConfig, GraphType};

verus! {

/// The series right-aligned into exactly `width` samples: its most recent
/// `width` values, after zeros where it is shorter.
pub open spec fn prepared(width: int, s: Seq<Fixed>) -> Seq<Fixed> {
    let k = if s.len() < width {
        s.len() as int
    } else {
        width
    };
    let pad = width - k;
    Seq::new(
        width as nat,
        |i: int|
            if i < pad {
                Fixed { micros: 0 }
            } else {
                s[s.len() - k + (i - pad)]
            },
    )
}

/// Right-aligns the series (oldest first) into exactly `width` samples.
pub fn prepare_graph_data(width: u32, sensor_values: &Vec<Fixed>) -> (r: Vec<Fixed>)
    ensures
        r.len() == width,
        r@ == prepared(width as int, sensor_values@),
{
    let n = sensor_values.len();
    let w = width as usize;
    let k: usize = if n < w {
        n
    } else {
        w
    };
    let pad = w - k;
    let mut out: Vec<Fixed> = Vec::new();
    let mut i: usize = 0;
    while i < w
        invariant
            w == width,
            n == sensor_values.len(),
            k == if n < w {
                n
            } else {
                w
            },
            pad == w - k,
            i <= w,
            out.len() == i,
            forall|j: int| 0 <= j < i ==> #[trigger] out@[j] == prepared(width as int, sensor_values@)[j],
        decreases w - i,
    {
        if i < pad {
            out.push(Fixed { micros: 0 });
        } else {
            out.push(sensor_values[n - k + (i - pad)]);
        }
        i = i + 1;
    }
    assert(out@ =~= prepared(width as int, sensor_values@));
    out
}

pub open spec fn fixed_min(s: Seq<Fixed>) -> int
    decreases s.len(),
{
    if s.len() <= 1 {
        s[0].micros as int
    } else if (s.last().micros as int) < fixed_min(s.drop_last()) {
        s.last().micros as int
    } else {
        fixed_min(s.drop_last())
    }
}

pub open spec fn fixed_max(s: Seq<Fixed>) -> int
    decreases s.len(),
{
    if s.len() <= 1 {
        s[0].micros as int
    } else if (s.last().micros as int) > fixed_max(s.drop_last()) {
        s.last().micros as int
    } else {
        fixed_max(s.drop_last())
    }
}

/// Returns the smallest value.
pub fn get_min(values: &Vec<Fixed>) -> (r: Fixed)
    requires
        values.len() > 0,
    ensures
        r.micros == fixed_min(values@),
{
    let mut m = values[0];
    let mut i: usize = 1;
    while i < values.len()
        invariant
            1 <= i <= values.len(),
            m.micros == fixed_min(values@.take(i as int)),
        decreases values.len() - i,
    {
        assert(values@.take(i + 1).drop_last() =~= values@.take(i as int));
        if values[i].micros < m.micros {
            m = values[i];
        }
        i = i + 1;
    }
    assert(values@.take(values.len() as int) =~= values@);
    m
}

/// Returns the largest value.
pub fn get_max(values: &Vec<Fixed>) -> (r: Fixed)
    requires
        values.len() > 0,
    ensures
        r.micros == fixed_max(values@),
{
    let mut m = values[0];
    let mut i: usize = 1;
    while i < values.len()
        invariant
            1 <= i <= values.len(),
            m.micros == fixed_max(values@.take(i as int)),
        decreases values.len() - i,
    {
        assert(values@.take(i + 1).drop_last() =~= values@.take(i as int));
        if values[i].micros > m.micros {
            m = values[i];
        }
        i = i + 1;
    }
    assert(values@.take(values.len() as int) =~= values@);
    m
}

/// The lower bound of the value axis: the configured one, else the data's least value.
pub open spec fn lower_bound(config: GraphConfig, data: Seq<Fixed>) -> int {
    match config.min_sensor_value {
        Some(v) => v.micros as int,
        None => fixed_min(data),
    }
}

/// The upper bound of the value axis: the configured one, else the data's greatest value.
pub open spec fn upper_bound(config: GraphConfig, data: Seq<Fixed>) -> int {
    match config.max_sensor_value {
        Some(v) => v.micros as int,
        None => fixed_max(data),
    }
}

/// How far above the bottom a value stands, in pixels: its place between the
/// bounds times the height, rounded down and kept within the tile; half the
/// height when the bounds are equal.
pub open spec fn scaled_height(v: int, lo: int, hi: int, h: int) -> int {
    if hi == lo {
        h / 2
    } else {
        let q = if hi > lo {
            ((v - lo) * h) / (hi - lo)
        } else {
            ((lo - v) * h) / (lo - hi)
        };
        if q < 0 {
            0
        } else if q > h {
            h
        } else {
            q
        }
    }
}

/// The pixel row of a value: rows count down from the top, so larger values
/// stand higher.
pub open spec fn row_of(v: int, lo: int, hi: int, h: int) -> int {
    h - scaled_height(v, lo, hi, h)
}

pub open spec fn graph_rows(data: Seq<Fixed>, lo: int, hi: int, h: int) -> Seq<int> {
    Seq::new(data.len(), |i: int| row_of(data[i].micros as int, lo, hi, h))
}

fn value_row(v: i64, lo: i64, hi: i64, h: u32) -> (r: i64)
    ensures
        r == row_of(v as int, lo as int, hi as int, h as int),
        0 <= r <= h,
{
    if hi == lo {
        return (h - h / 2) as i64;
    }
    let (diff, den): (i128, i128) = if hi > lo {
        (v as i128 - lo as i128, hi as i128 - lo as i128)
    } else {
        (lo as i128 - v as i128, lo as i128 - hi as i128)
    };
    assert(-0x1000000000000000000000000int < diff * h < 0x1000000000000000000000000int)
        by (nonlinear_arith)
        requires
            -0x10000000000000000int < diff < 0x10000000000000000int,
            0 <= h < 0x100000000int,
    ;
    let num = diff * h as i128;
    if num < 0 {
        assert(num / den < 0) by (nonlinear_arith)
            requires
                num < 0,
                den > 0,
        ;
        return h as i64;
    }
    let q = (num as u128) / (den as u128);
    if q > h as u128 {
        0
    } else {
        h as i64 - q as i64
    }
}

/// One-pixel-wide line segment of a stroke, between pixel coordinates.
#[derive(Clone, Copy, Debug, PartialEq, Eq, Structural)]
pub struct LineSegment {
    pub x0: i64,
    pub y0: i64,
    pub x1: i64,
    pub y1: i64,
}

/// Half the stroke width, rounded toward zero.
pub open spec fn half_stroke(w: int) -> int {
    if w >= 0 {
        w / 2
    } else {
        -((-w) / 2)
    }
}

/// The number of horizontal offsets, `-half..=half`, that make up a stroke.
pub open spec fn stroke_count(w: int) -> int {
    if half_stroke(w) >= 0 {
        2 * half_stroke(w) + 1
    } else {
        0
    }
}

/// The segment from sample `i` to sample `i + 1`, moved `o - half` pixels sideways.
pub open spec fn segment_spec(rows: Seq<int>, half: int, i: int, o: int) -> LineSegment {
    LineSegment {
        x0: (i + o - half) as i64,
        y0: rows[i] as i64,
        x1: (i + 1 + o - half) as i64,
        y1: rows[i + 1] as i64,
    }
}

/// The stroke of a polyline through `rows`, one sample per column: each
/// pair of neighbouring samples gives `stroke_count` segments, offset
/// sideways from `-half` to `half`.
pub open spec fn is_stroke(segments: Seq<LineSegment>, rows: Seq<int>, stroke_width: int) -> bool {
    let k = stroke_count(stroke_width);
    let pairs = if rows.len() >= 2 {
        rows.len() - 1
    } else {
        0
    };
    &&& segments.len() == pairs * k
    &&& forall|idx: int|
        0 <= idx < segments.len() ==> #[trigger] segments[idx] == segment_spec(
            rows,
            half_stroke(stroke_width),
            idx / k,
            idx % k,
        )
}

fn line_segments(rows: &Vec<i64>, stroke_width: i32) -> (r: Vec<LineSegment>)
    requires
        rows.len() <= u32::MAX,
        forall|i: int| 0 <= i < rows.len() ==> 0 <= #[trigger] rows@[i] <= u32::MAX,
    ensures
        is_stroke(r@, rows@.map_values(|v: i64| v as int), stroke_width as int),
{
    let ghost rs = rows@.map_values(|v: i64| v as int);
    let half: i64 = if stroke_width >= 0 {
        (stroke_width / 2) as i64
    } else {
        -(((-(stroke_width as i64)) / 2) as i64)
    };
    let ghost k = stroke_count(stroke_width as int);
    assert(half == half_stroke(stroke_width as int));
    let mut out: Vec<LineSegment> = Vec::new();
    if rows.len() < 2 || half < 0 {
        return out;
    }
    let count: i64 = 2 * half + 1;
    let mut i: usize = 0;
    while i + 1 < rows.len()
        invariant
            rows.len() >= 2,
            rows.len() <= u32::MAX,
            rs == rows@.map_values(|v: i64| v as int),
            forall|j: int| 0 <= j < rows.len() ==> 0 <= #[trigger] rows@[j] <= u32::MAX,
            0 <= half < 0x40000000,
            half == half_stroke(stroke_width as int),
            count == k,
            k == 2 * half + 1,
            i + 1 <= rows.len(),
            out.len() == i * k,
            forall|idx: int|
                0 <= idx < out.len() ==> #[trigger] out@[idx] == segment_spec(rs, half as int, idx / k, idx % k),
        decreases rows.len() - i,
    {
        let mut o: i64 = 0;
        while o < count
            invariant
                rows.len() >= 2,
                rows.len() <= u32::MAX,
                rs == rows@.map_values(|v: i64| v as int),
                forall|j: int| 0 <= j < rows.len() ==> 0 <= #[trigger] rows@[j] <= u32::MAX,
                0 <= half < 0x40000000,
                count == k,
                k == 2 * half + 1,
                i + 1 < rows.len(),
                0 <= o <= count,
                out.len() == i * k + o,
                forall|idx: int|
                    0 <= idx < out.len() ==> #[trigger] out@[idx] == segment_spec(rs, half as int, idx / k, idx % k),
            decreases count - o,
        {
            proof {
                crate::raster::lemma_grid_pos(i * k + o, k, o as int, i as int);
            }
            out.push(
                LineSegment {
                    x0: i as i64 + o - half,
                    y0: rows[i],
                    x1: i as i64 + 1 + o - half,
                    y1: rows[i + 1],
                },
            );
            o = o + 1;
        }
        proof {
            assert((i + 1) * k == i * k + k) by (nonlinear_arith);
        }
        i = i + 1;
    }
    out
}

fn data_rows(numbers: &Vec<Fixed>, lo: i64, hi: i64, h: u32) -> (r: Vec<i64>)
    ensures
        r@.map_values(|v: i64| v as int) == graph_rows(numbers@, lo as int, hi as int, h as int),
        r.len() == numbers.len(),
        forall|i: int| 0 <= i < r.len() ==> 0 <= #[trigger] r@[i] <= h,
{
    let mut out: Vec<i64> = Vec::new();
    let mut i: usize = 0;
    while i < numbers.len()
        invariant
            i <= numbers.len(),
            out.len() == i,
            forall|j: int|
                0 <= j < i ==> #[trigger] out@[j] == row_of(numbers@[j].micros as int, lo as int, hi as int, h as int),
            forall|j: int| 0 <= j < out.len() ==> 0 <= #[trigger] out@[j] <= h,
        decreases numbers.len() - i,
    {
        out.push(value_row(numbers[i].micros, lo, hi, h));
        i = i + 1;
    }
    assert(out@.map_values(|v: i64| v as int) =~= graph_rows(numbers@, lo as int, hi as int, h as int));
    out
}

/// The pixel at `(x, y)` lies in the filled area: on or below the line's
/// row at its column, when the chart has a line at all.
pub open spec fn filled_below(rows: Seq<int>, x: int, y: int) -> bool {
    rows.len() >= 2 && 0 <= x < rows.len() && y >= rows[x]
}

fn fill_under(tile: &mut Raster, rows: &Vec<i64>, color: Rgba)
    requires
        old(tile).wf(),
        rows.len() == old(tile).width,
        forall|i: int| 0 <= i < rows.len() ==> 0 <= #[trigger] rows@[i] <= old(tile).height,
    ensures
        final(tile).wf(),
        final(tile).width == old(tile).width,
        final(tile).height == old(tile).height,
        forall|k: int|
            0 <= k < final(tile).pixels.len() ==> #[trigger] final(tile).pixels@[k] == if filled_below(
                rows@.map_values(|v: i64| v as int),
                k % (old(tile).width as int),
                k / (old(tile).width as int),
            ) {
                color
            } else {
                old(tile).pixels@[k]
            },
{
    let ghost rs = rows@.map_values(|v: i64| v as int);
    let ghost w = tile.width as int;
    let ghost start = tile.pixels@;
    let h = tile.height;
    if rows.len() < 2 {
        return;
    }
    let mut x: usize = 0;
    while x < rows.len()
        invariant
            tile.wf(),
            tile.width == w,
            tile.height == h,
            rows.len() == w,
            start.len() == tile.pixels.len(),
            rs == rows@.map_values(|v: i64| v as int),
            forall|i: int| 0 <= i < rows.len() ==> 0 <= #[trigger] rows@[i] <= h,
            rows.len() >= 2,
            x <= rows.len(),
            forall|k: int|
                0 <= k < tile.pixels.len() ==> #[trigger] tile.pixels@[k] == if k % w < x && filled_below(
                    rs,
                    k % w,
                    k / w,
                ) {
                    color
                } else {
                    start[k]
                },
        decreases rows.len() - x,
    {
        let mut y: u32 = rows[x] as u32;
        while y < h
            invariant
                tile.wf(),
                tile.width == w,
                tile.height == h,
                rows.len() == w,
                start.len() == tile.pixels.len(),
                rs == rows@.map_values(|v: i64| v as int),
                x < rows.len(),
                rows.len() >= 2,
                rows@[x as int] <= y <= h,
                forall|k: int|
                    0 <= k < tile.pixels.len() ==> #[trigger] tile.pixels@[k] == if (k % w < x && filled_below(
                        rs,
                        k % w,
                        k / w,
                    )) || (k % w == x && rows@[x as int] <= k / w < y) {
                        color
                    } else {
                        start[k]
                    },
            decreases h - y,
        {
            let ghost before = tile.pixels@;
            proof {
                lemma_grid_pos(y * w + x, w, x as int, y as int);
                crate::raster::lemma_index_in_bounds(x as int, y as int, w, h as int);
            }
            tile.put_pixel(x as u32, y, color);
            assert(tile.pixels@ == before.update(y * w + x, color));
            proof {
                assert forall|k: int| 0 <= k < tile.pixels.len() implies #[trigger] tile.pixels@[k]
                    == if (k % w < x && filled_below(rs, k % w, k / w)) || (k % w == x && rows@[x as int]
                    <= k / w < y + 1) {
                    color
                } else {
                    start[k]
                } by {
                    vstd::arithmetic::div_mod::lemma_fundamental_div_mod(k, w);
                    assert(k % w == x && k / w == y ==> k == y * w + x) by (nonlinear_arith)
                        requires
                            k == w * (k / w) + k % w,
                    ;
                    if k == y * w + x {
                        assert(tile.pixels@[k] == color);
                    } else {
                        assert(tile.pixels@[k] == before[k]);
                    }
                }
            }
            y = y + 1;
        }
        proof {
            assert forall|k: int| 0 <= k < tile.pixels.len() implies #[trigger] tile.pixels@[k] == if k % w
                < x + 1 && filled_below(rs, k % w, k / w) {
                color
            } else {
                start[k]
            } by {
                vstd::arithmetic::div_mod::lemma_fundamental_div_mod(k, w);
                if k % w == x {
                    assert(k < w * h);
                    assert(w > 0) by (nonlinear_arith)
                        requires
                            0 <= k < w * h,
                            w >= 0,
                            h >= 0,
                    ;
                    vstd::arithmetic::div_mod::lemma_mod_pos_bound(k, w);
                    assert(k / w < h) by (nonlinear_arith)
                        requires
                            k == w * (k / w) + k % w,
                            0 <= k % w,
                            k < w * h,
                            w > 0,
                    ;
                }
            }
        }
        x = x + 1;
    }
    proof {
        assert forall|k: int| 0 <= k < tile.pixels.len() implies #[trigger] tile.pixels@[k] == if filled_below(
            rs,
            k % w,
            k / w,
        ) {
            color
        } else {
            start[k]
        } by {
            if filled_below(rs, k % w, k / w) {
                assert(k % w < x);
            }
        }
    }
}

/// A graph tile up to its stroke: the tile with background and fill, the
/// stroke color, the stroke's segments, and the border color when the
/// border shows.
pub struct GraphPlan {
    pub tile: Raster,
    pub color: Rgba,
    pub segments: Vec<LineSegment>,
    pub border: Option<Rgba>,
}

/// A configured color, or clear when the text is no color.
pub open spec fn color_or_clear(s: Seq<char>) -> Rgba {
    match color_of(s) {
        Some(c) => c,
        None => clear(),
    }
}

/// The border color when it is a color whose alpha is not zero.
pub open spec fn border_of(s: Seq<char>) -> Option<Rgba> {
    match color_of(s) {
        Some(c) => if c.a != 0 {
            Some(c)
        } else {
            None
        },
        None => None,
    }
}

/// The rows of the samples of `numbers` under the bounds of `config`.
pub open spec fn chart_rows(config: GraphConfig, numbers: Seq<Fixed>) -> Seq<int> {
    graph_rows(
        numbers,
        lower_bound(config, numbers),
        upper_bound(config, numbers),
        config.height as int,
    )
}

/// The plan is the chart of `numbers` under `config`, filled or not.
pub open spec fn is_chart(plan: GraphPlan, config: GraphConfig, numbers: Seq<Fixed>, fill: bool) -> bool {
    let rows = chart_rows(config, numbers);
    let w = config.width as int;
    let bg = color_or_clear(config.background_color@);
    let line = color_or_clear(config.graph_color@);
    &&& plan.tile.wf()
    &&& plan.tile.width == config.width
    &&& plan.tile.height == config.height
    &&& plan.color == line
    &&& is_stroke(plan.segments@, rows, config.graph_stroke_width as int)
    &&& forall|k: int|
        0 <= k < plan.tile.pixels.len() ==> #[trigger] plan.tile.pixels@[k] == if fill && filled_below(
            rows,
            k % w,
            k / w,
        ) {
            line
        } else {
            bg
        }
}

fn chart(numbers: &Vec<Fixed>, config: &GraphConfig, fill: bool) -> (plan: GraphPlan)
    requires
        numbers.len() == config.width,
        config.width * config.height <= usize::MAX,
    ensures
        is_chart(plan, *config, numbers@, fill),
        plan.border is None,
{
    let (lo, hi) = if numbers.len() == 0 {
        (0, 0)
    } else {
        let lo = match config.min_sensor_value {
            Some(v) => v.micros,
            None => get_min(numbers).micros,
        };
        let hi = match config.max_sensor_value {
            Some(v) => v.micros,
            None => get_max(numbers).micros,
        };
        (lo, hi)
    };
    let rows = data_rows(numbers, lo, hi, config.height);
    proof {
        if numbers.len() > 0 {
            assert(lo == lower_bound(*config, numbers@));
            assert(hi == upper_bound(*config, numbers@));
        }
        assert(rows@.map_values(|v: i64| v as int) =~= chart_rows(*config, numbers@));
    }
    let line = match hex_to_rgba(config.graph_color.as_str()) {
        Some(c) => c,
        None => Rgba { r: 0, g: 0, b: 0, a: 0 },
    };
    let bg = match hex_to_rgba(config.background_color.as_str()) {
        Some(c) => c,
        None => Rgba { r: 0, g: 0, b: 0, a: 0 },
    };
    let mut tile = Raster::filled(config.width, config.height, bg);
    if fill {
        fill_under(&mut tile, &rows, line);
    }
    let segments = line_segments(&rows, config.graph_stroke_width);
    GraphPlan { tile, color: line, segments, border: None }
}

/// The chart of `numbers` as a line.
pub fn render_line_chart(numbers: &Vec<Fixed>, config: &GraphConfig) -> (plan: GraphPlan)
    requires
        numbers.len() == config.width,
        config.width * config.height <= usize::MAX,
    ensures
        is_chart(plan, *config, numbers@, false),
        plan.border is None,
{
    chart(numbers, config, false)
}

/// The chart of `numbers` as a line with the area below it filled in the
/// line's color.
pub fn render_line_chart_filled(numbers: &Vec<Fixed>, config: &GraphConfig) -> (plan: GraphPlan)
    requires
        numbers.len() == config.width,
        config.width * config.height <= usize::MAX,
    ensures
        is_chart(plan, *config, numbers@, true),
        plan.border is None,
{
    chart(numbers, config, true)
}

/// Plans a graph element's tile from its configured series: the series is
/// right-aligned to the tile width, charted as configured, and given a
/// border when the border color is not transparent.
pub fn render(graph_config: &GraphConfig) -> (plan: GraphPlan)
    requires
        graph_config.width * graph_config.height <= usize::MAX,
    ensures
        is_chart(
            plan,
            *graph_config,
            prepared(graph_config.width as int, graph_config.sensor_values@),
            graph_config.graph_type == GraphType::LineFill,
        ),
        plan.border == border_of(graph_config.border_color@),
{
    let data = prepare_graph_data(graph_config.width, &graph_config.sensor_values);
    let mut plan = match graph_config.graph_type {
        GraphType::Line => render_line_chart(&data, graph_config),
        GraphType::LineFill => render_line_chart_filled(&data, graph_config),
    };
    plan.border = match hex_to_rgba(graph_config.border_color.as_str()) {
        Some(c) => if c.a != 0 {
            Some(c)
        } else {
            None
        },
        None => None,
    };
    plan
}

/// The pixel at index `k` of a `w` x `h` grid lies on its outermost ring.
pub open spec fn on_border(k: int, w: int, h: int) -> bool {
    k % w == 0 || k % w == w - 1 || k / w == 0 || k / w == h - 1
}

/// Relies on `imageproc::drawing::draw_hollow_rect_mut` with the rectangle
/// `Rect::at(0, 0).of_size(w, h)`: its four edges are drawn as axis-aligned
/// line segments from `(0, 0)` to `(w - 1, h - 1)`, each pixel set by
/// `put_pixel`, which replaces it; every other pixel stays. Sizes up to 2^24
/// are exact in the `f32` coordinates it draws with, and `of_size` panics on
/// a zero size.
#[verifier::external_body]
fn hollow_rect(tile: &mut Raster, color: Rgba)
    requires
        old(tile).wf(),
        0 < old(tile).width <= 0x1000000,
        0 < old(tile).height <= 0x1000000,
    ensures
        final(tile).width == old(tile).width,
        final(tile).height == old(tile).height,
        final(tile).pixels@.len() == old(tile).pixels@.len(),
        forall|k: int|
            0 <= k < final(tile).pixels@.len() ==> #[trigger] final(tile).pixels@[k] == if on_border(
                k,
                old(tile).width as int,
                old(tile).height as int,
            ) {
                color
            } else {
                old(tile).pixels@[k]
            },
{
    let raw = tile.pixels.iter().flat_map(|p| [p.r, p.g, p.b, p.a]).collect();
    let mut img = image::RgbaImage::from_raw(tile.width, tile.height, raw).unwrap();
    let rect = imageproc::rect::Rect::at(0, 0).of_size(tile.width, tile.height);
    let c = image::Rgba([color.r, color.g, color.b, color.a]);
    imageproc::drawing::draw_hollow_rect_mut(&mut img, rect, c);
    tile.pixels = img.pixels().map(|p| Rgba { r: p[0], g: p[1], b: p[2], a: p[3] }).collect();
}

/// Draws a graph tile's one-pixel border in `border`, if it has one, over
/// its outermost ring of pixels; tiles wider or higher than 2^24 pixels are
/// left without one.
pub fn draw_border(image: &mut Raster, border: Option<Rgba>)
    requires
        old(image).wf(),
    ensures
        final(image).wf(),
        final(image).width == old(image).width,
        final(image).height == old(image).height,
        forall|k: int|
            0 <= k < final(image).pixels@.len() ==> #[trigger] final(image).pixels@[k] == match border {
                Some(c) => if old(image).width <= 0x1000000 && old(image).height <= 0x1000000
                    && on_border(k, old(image).width as int, old(image).height as int) {
                    c
                } else {
                    old(image).pixels@[k]
                },
                None => old(image).pixels@[k],
            },
{
    if let Some(c) = border {
        if image.width > 0 && image.height > 0 && image.width <= 0x1000000 && image.height
            <= 0x1000000 {
            hollow_rect(image, c);
        } else {
            assert(image.pixels@.len() == 0 || image.width > 0x1000000 || image.height > 0x1000000)
                by (nonlinear_arith)
                requires
                    image.pixels@.len() == image.width * image.height,
                    image.width == 0 || image.height == 0 || image.width > 0x1000000
                        || image.height > 0x1000000,
            ;
        }
    }
}

} // verus!
