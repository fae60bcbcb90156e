//! Monitor selection and the sampling of the screen edges: a captured frame is
//! divided into a coarse capture grid, and each LED takes the average colour of
//! a band of grid cells along its edge of the screen.

use vstd::prelude::*;
use vstd::arithmetic::div_mod::{
    lemma_fundamental_div_mod,
    lemma_multiply_divide_lt,
    lemma_multiply_divide_le,
    lemma_div_is_ordered,
};
use crate::config::Settings;

verus! {

/// Size and pixel format of a captured monitor frame: `width * height` pixels,
/// row after row, each `bytes_per_pixel` bytes in blue, green, red order.
pub struct FrameGeometry {
    pub width: usize,
    pub height: usize,
    pub bytes_per_pixel: usize,
}

/// Vertical distance, in frame pixels, between two rows of the capture grid.
pub open spec fn stride_y(g: FrameGeometry, s: Settings) -> int {
    g.height as int / s.cap_h as int
}

/// Horizontal distance, in frame pixels, between two columns of the capture grid.
pub open spec fn stride_x(g: FrameGeometry, s: Settings) -> int {
    g.width as int / s.cap_w as int
}

/// Byte offset in the frame of the pixel under grid cell (`px`, `py`).
pub open spec fn pixel_offset(g: FrameGeometry, s: Settings, py: int, px: int) -> int {
    (py * stride_y(g, s) * g.width + px * stride_x(g, s)) * g.bytes_per_pixel
}

/// Channel `c` (0 red, 1 green, 2 blue) of the pixel under grid cell (`px`, `py`).
pub open spec fn channel_at(image: Seq<u8>, g: FrameGeometry, s: Settings, py: int, px: int, c: int) -> int {
    image[pixel_offset(g, s, py, px) + 2 - c] as int
}

/// Sum of channel `c` over grid cells `x0 .. x1` of row `py`.
pub open spec fn row_sum(image: Seq<u8>, g: FrameGeometry, s: Settings, py: int, x0: int, x1: int, c: int) -> int
    decreases x1 - x0,
{
    if x1 <= x0 {
        0
    } else {
        row_sum(image, g, s, py, x0, x1 - 1, c) + channel_at(image, g, s, py, x1 - 1, c)
    }
}

/// Sum of channel `c` over grid cells `x0 .. x1` of rows `y0 .. y1`.
pub open spec fn rect_sum(
    image: Seq<u8>,
    g: FrameGeometry,
    s: Settings,
    x0: int,
    x1: int,
    y0: int,
    y1: int,
    c: int,
) -> int
    decreases y1 - y0,
{
    if y1 <= y0 {
        0
    } else {
        rect_sum(image, g, s, x0, x1, y0, y1 - 1, c) + row_sum(image, g, s, y1 - 1, x0, x1, c)
    }
}

/// Number of grid cells in columns `x0 .. x1` and rows `y0 .. y1`.
pub open spec fn rect_area(x0: int, x1: int, y0: int, y1: int) -> int {
    if x1 <= x0 || y1 <= y0 {
        0
    } else {
        (x1 - x0) * (y1 - y0)
    }
}

/// Average colour (rounded down) of a rectangle of grid cells; black when empty.
pub open spec fn rect_average(
    image: Seq<u8>,
    g: FrameGeometry,
    s: Settings,
    x0: int,
    x1: int,
    y0: int,
    y1: int,
) -> (u8, u8, u8) {
    let n = rect_area(x0, x1, y0, y1);
    if n == 0 {
        (0u8, 0u8, 0u8)
    } else {
        (
            (rect_sum(image, g, s, x0, x1, y0, y1, 0) / n) as u8,
            (rect_sum(image, g, s, x0, x1, y0, y1, 1) / n) as u8,
            (rect_sum(image, g, s, x0, x1, y0, y1, 2) / n) as u8,
        )
    }
}

/// First grid line of part `i` when `len` lines are split into `parts` parts.
pub open spec fn span_start(i: int, len: int, parts: int) -> int {
    i * len / parts
}

/// End (exclusive) of part `i`; every part holds at least one line.
pub open spec fn span_end(i: int, len: int, parts: int) -> int {
    let e = (i + 1) * len / parts;
    if e < span_start(i, len, parts) + 1 {
        span_start(i, len, parts) + 1
    } else {
        e
    }
}

/// The band of grid cells that LED `k` averages, as (first column, end column,
/// first row, end row): for the left edge, columns `0 .. border` of its share of
/// the rows; for the top edge, rows `0 .. border` of its share of the columns;
/// for the right edge, the last `border` columns of its share of the rows.
pub open spec fn band(s: Settings, k: int) -> (int, int, int, int) {
    let cw = s.cap_w as int;
    let ch = s.cap_h as int;
    let b = s.border as int;
    if k < s.left {
        (0, b, span_start(k, ch, s.left as int), span_end(k, ch, s.left as int))
    } else if k < s.left + s.top {
        let j = k - s.left;
        (span_start(j, cw, s.top as int), span_end(j, cw, s.top as int), 0, b)
    } else {
        let j = k - s.left - s.top;
        (cw - b, cw, span_start(j, ch, s.right as int), span_end(j, ch, s.right as int))
    }
}

/// The raw colour of LED `k`: the left edge top to bottom, then the top edge
/// left to right, then the right edge top to bottom, each LED averaging its band.
pub open spec fn edge_color(image: Seq<u8>, g: FrameGeometry, s: Settings, k: int) -> (u8, u8, u8) {
    let r = band(s, k);
    rect_average(image, g, s, r.0, r.1, r.2, r.3)
}

/// The raw colours of all LEDs, in strip order.
pub open spec fn edge_colors(image: Seq<u8>, g: FrameGeometry, s: Settings) -> Seq<(u8, u8, u8)> {
    Seq::new((s.left + s.top + s.right) as nat, |k: int| edge_color(image, g, s, k))
}

/// Whether the pixel under grid cell (`px`, `py`) can be read: the offset
/// arithmetic stays within machine integers and its three colour bytes lie in
/// a buffer of `image_len` bytes.
pub open spec fn cell_fits(image_len: int, g: FrameGeometry, s: Settings, py: int, px: int) -> bool {
    &&& py * stride_y(g, s) <= usize::MAX
    &&& py * stride_y(g, s) * g.width + px * stride_x(g, s) <= usize::MAX
    &&& pixel_offset(g, s, py, px) + 2 < image_len
}

/// Whether the band of LED `k` can be averaged: its channel sums stay within
/// 64 bits and every pixel it reads is in the buffer.
pub open spec fn band_fits(image_len: int, g: FrameGeometry, s: Settings, k: int) -> bool {
    let r = band(s, k);
    &&& rect_area(r.0, r.1, r.2, r.3) * 255 <= u64::MAX
    &&& forall|py: int, px: int|
        r.2 <= py < r.3 && r.0 <= px < r.1 ==> #[trigger] cell_fits(image_len, g, s, py, px)
}

/// When a frame of `image_len` bytes can be sampled with these settings: a
/// non-empty capture grid (its sides divide the frame), a border no wider than
/// the grid where the right edge has LEDs (its band starts `border` columns
/// from the right), LED counts whose products with the grid stay within machine
/// integers, and every band readable.
pub open spec fn sampling_fits(image_len: int, g: FrameGeometry, s: Settings) -> bool {
    &&& s.cap_w > 0 && s.cap_h > 0
    &&& s.right > 0 ==> s.border <= s.cap_w
    &&& s.left * s.cap_h <= usize::MAX
    &&& s.right * s.cap_h <= usize::MAX
    &&& s.top * s.cap_w <= usize::MAX
    &&& s.top + s.right + s.left <= usize::MAX
    &&& forall|k: int| 0 <= k < s.left + s.top + s.right ==> #[trigger] band_fits(image_len, g, s, k)
}

proof fn lemma_stride_bound(p: int, n: int, total: int)
    requires
        0 <= p < n,
        0 < total,
    ensures
        0 <= p * (total / n) < total,
{
    let q = total / n;
    lemma_fundamental_div_mod(total, n);
    assert(0 <= total % n);
    assert(n * q <= total);
    assert(q >= 0);
    assert(0 <= p * q < total) by (nonlinear_arith)
        requires
            0 <= p < n,
            0 < total,
            q >= 0,
            n * q <= total,
    {
        if q > 0 {
            assert(p * q <= (n - 1) * q);
        }
    }
}

proof fn lemma_pixel_in_frame(g: FrameGeometry, s: Settings, py: int, px: int)
    requires
        0 < s.cap_w && 0 < s.cap_h,
        0 < g.width && 0 < g.height,
        0 <= py < s.cap_h,
        0 <= px < s.cap_w,
    ensures
        0 <= py * stride_y(g, s) * g.width + px * stride_x(g, s) < g.width * g.height,
        pixel_offset(g, s, py, px) == (py * stride_y(g, s) * g.width + px * stride_x(g, s))
            * g.bytes_per_pixel,
{
    lemma_stride_bound(py, s.cap_h as int, g.height as int);
    lemma_stride_bound(px, s.cap_w as int, g.width as int);
    let a = py * stride_y(g, s);
    let b = px * stride_x(g, s);
    let w = g.width as int;
    let h = g.height as int;
    assert(0 <= a * w + b < w * h) by (nonlinear_arith)
        requires
            0 <= a < h,
            0 <= b < w,
    {
        assert(a * w <= (h - 1) * w);
    }
}

/// A cell closer to the frame's origin than a readable cell is readable too.
proof fn lemma_cell_fits_below(image_len: int, g: FrameGeometry, s: Settings, py: int, px: int, qy: int, qx: int)
    requires
        0 < s.cap_w && 0 < s.cap_h,
        0 <= py <= qy,
        0 <= px <= qx,
        cell_fits(image_len, g, s, qy, qx),
    ensures
        cell_fits(image_len, g, s, py, px),
{
    let sy = stride_y(g, s);
    let sx = stride_x(g, s);
    let w = g.width as int;
    let bpp = g.bytes_per_pixel as int;
    assert(sy >= 0 && sx >= 0) by {
        vstd::arithmetic::div_mod::lemma_div_pos_is_pos(g.height as int, s.cap_h as int);
        vstd::arithmetic::div_mod::lemma_div_pos_is_pos(g.width as int, s.cap_w as int);
    }
    assert(0 <= py * sy <= qy * sy && 0 <= py * sy * w + px * sx <= qy * sy * w + qx * sx
        && (py * sy * w + px * sx) * bpp <= (qy * sy * w + qx * sx) * bpp) by (nonlinear_arith)
        requires
            0 <= py <= qy,
            0 <= px <= qx,
            sy >= 0,
            sx >= 0,
            w >= 0,
            bpp >= 0,
    {
        assert(py * sy <= qy * sy);
        assert(py * sy * w <= qy * sy * w);
        assert(px * sx <= qx * sx);
    }
}

/// Colour of the frame pixel under grid cell (`px`, `py`).
fn pixel_at(image: &[u8], g: &FrameGeometry, s: &Settings, py: usize, px: usize) -> (rgb: (u8, u8, u8))
    requires
        s.cap_w > 0 && s.cap_h > 0,
        cell_fits(image@.len() as int, *g, *s, py as int, px as int),
    ensures
        rgb.0 == channel_at(image@, *g, *s, py as int, px as int, 0),
        rgb.1 == channel_at(image@, *g, *s, py as int, px as int, 1),
        rgb.2 == channel_at(image@, *g, *s, py as int, px as int, 2),
{
    let sy: usize = g.height / s.cap_h;
    let sx: usize = g.width / s.cap_w;
    let row: usize = py * sy;
    assert(0 <= row * g.width && 0 <= px * sx) by (nonlinear_arith);
    let col: usize = px * sx;
    let len: usize = image.len();
    assert(((row * g.width + col) * g.bytes_per_pixel) as int == pixel_offset(*g, *s, py as int, px as int));
    let off: usize = (row * g.width + col) * g.bytes_per_pixel;
    (image[off + 2], image[off + 1], image[off])
}

proof fn lemma_average_fits(sum: int, n: int)
    requires
        0 < n,
        0 <= sum <= 255 * n,
    ensures
        0 <= sum / n <= 255,
{
    lemma_multiply_divide_le(sum, n, 255);
    assert(n * 255 == 255 * n) by (nonlinear_arith);
    lemma_div_is_ordered(0, sum, n);
}

/// Average colour of the grid cells in columns `x0 .. x1` and rows `y0 .. y1`.
fn average_rect(
    image: &[u8],
    g: &FrameGeometry,
    s: &Settings,
    x0: usize,
    x1: usize,
    y0: usize,
    y1: usize,
) -> (rgb: (u8, u8, u8))
    requires
        s.cap_w > 0 && s.cap_h > 0,
        x0 <= x1,
        y0 <= y1,
        rect_area(x0 as int, x1 as int, y0 as int, y1 as int) * 255 <= u64::MAX,
        forall|py: int, px: int|
            y0 <= py < y1 && x0 <= px < x1 ==> #[trigger] cell_fits(image@.len() as int, *g, *s, py, px),
    ensures
        rgb == rect_average(image@, *g, *s, x0 as int, x1 as int, y0 as int, y1 as int),
{
    let ghost img = image@;
    let ghost (gg, ss) = (*g, *s);
    let ghost area = (x1 - x0) * (y1 - y0);
    assert(area == rect_area(x0 as int, x1 as int, y0 as int, y1 as int)) by (nonlinear_arith)
        requires
            x0 <= x1,
            y0 <= y1,
            area == (x1 - x0) * (y1 - y0),
    ;
    let mut rs: u64 = 0;
    let mut gs: u64 = 0;
    let mut bs: u64 = 0;
    let mut n: u64 = 0;
    let mut py: usize = y0;
    while py < y1
        invariant
            s.cap_w > 0 && s.cap_h > 0,
            img == image@,
            gg == *g,
            ss == *s,
            x0 <= x1,
            y0 <= py <= y1,
            forall|qy: int, qx: int|
                y0 <= qy < y1 && x0 <= qx < x1 ==> #[trigger] cell_fits(image@.len() as int, *g, *s, qy, qx),
            area == (x1 - x0) * (y1 - y0),
            area * 255 <= u64::MAX,
            n == (py - y0) * (x1 - x0),
            rs == rect_sum(img, gg, ss, x0 as int, x1 as int, y0 as int, py as int, 0),
            gs == rect_sum(img, gg, ss, x0 as int, x1 as int, y0 as int, py as int, 1),
            bs == rect_sum(img, gg, ss, x0 as int, x1 as int, y0 as int, py as int, 2),
            rs <= 255 * n,
            gs <= 255 * n,
            bs <= 255 * n,
        decreases y1 - py,
    {
        let mut px: usize = x0;
        assert((py - y0) * (x1 - x0) + (x1 - x0) == (py + 1 - y0) * (x1 - x0)) by (nonlinear_arith);
        assert((py + 1 - y0) * (x1 - x0) <= area) by (nonlinear_arith)
            requires
                py < y1,
                y0 <= py,
                x0 <= x1,
                area == (x1 - x0) * (y1 - y0),
        ;
        while px < x1
            invariant
                s.cap_w > 0 && s.cap_h > 0,
                img == image@,
                gg == *g,
                ss == *s,
                x0 <= px <= x1,
                y0 <= py < y1,
                forall|qy: int, qx: int|
                    y0 <= qy < y1 && x0 <= qx < x1 ==> #[trigger] cell_fits(image@.len() as int, *g, *s, qy, qx),
                area * 255 <= u64::MAX,
                (py - y0) * (x1 - x0) + (x1 - x0) <= area,
                n == (py - y0) * (x1 - x0) + (px - x0),
                rs == rect_sum(img, gg, ss, x0 as int, x1 as int, y0 as int, py as int, 0) + row_sum(
                    img,
                    gg,
                    ss,
                    py as int,
                    x0 as int,
                    px as int,
                    0,
                ),
                gs == rect_sum(img, gg, ss, x0 as int, x1 as int, y0 as int, py as int, 1) + row_sum(
                    img,
                    gg,
                    ss,
                    py as int,
                    x0 as int,
                    px as int,
                    1,
                ),
                bs == rect_sum(img, gg, ss, x0 as int, x1 as int, y0 as int, py as int, 2) + row_sum(
                    img,
                    gg,
                    ss,
                    py as int,
                    x0 as int,
                    px as int,
                    2,
                ),
                rs <= 255 * n,
                gs <= 255 * n,
                bs <= 255 * n,
            decreases x1 - px,
        {
            assert(cell_fits(image@.len() as int, *g, *s, py as int, px as int));
            let (r, gr, b) = pixel_at(image, g, s, py, px);
            rs = rs + r as u64;
            gs = gs + gr as u64;
            bs = bs + b as u64;
            n = n + 1;
            px = px + 1;
        }
        py = py + 1;
    }
    if n == 0 {
        assert(rect_area(x0 as int, x1 as int, y0 as int, y1 as int) == 0) by (nonlinear_arith)
            requires
                n == (y1 - y0) * (x1 - x0),
                n == 0,
                x0 <= x1,
                y0 <= y1,
        ;
        return (0, 0, 0);
    }
    assert(rect_area(x0 as int, x1 as int, y0 as int, y1 as int) == n) by (nonlinear_arith)
        requires
            n == (y1 - y0) * (x1 - x0),
            n > 0,
            x0 <= x1,
            y0 <= y1,
    ;
    proof {
        lemma_average_fits(rs as int, n as int);
        lemma_average_fits(gs as int, n as int);
        lemma_average_fits(bs as int, n as int);
    }
    ((rs / n) as u8, (gs / n) as u8, (bs / n) as u8)
}

/// Every band lies inside the grid and holds at least one grid line, however
/// many bands share the lines.
pub proof fn lemma_span(i: int, len: int, parts: int)
    requires
        0 <= i < parts,
        0 < len,
    ensures
        0 <= i * len < parts * len,
        (i + 1) * len <= parts * len,
        0 <= span_start(i, len, parts) < len,
        span_start(i, len, parts) < span_end(i, len, parts) <= len,
{
    assert(0 <= i * len < parts * len && (i + 1) * len <= parts * len) by (nonlinear_arith)
        requires
            0 <= i < parts,
            0 < len,
    ;
    lemma_multiply_divide_lt(i * len, parts, len);
    lemma_multiply_divide_le((i + 1) * len, parts, len);
    lemma_div_is_ordered(0, i * len, parts);
}

/// Splits the `len` grid lines into `parts` bands and returns band `i`.
fn span(i: usize, len: usize, parts: usize) -> (r: (usize, usize))
    requires
        i < parts,
        0 < len,
        parts * len <= usize::MAX,
    ensures
        r.0 == span_start(i as int, len as int, parts as int),
        r.1 == span_end(i as int, len as int, parts as int),
        r.0 < r.1 <= len,
{
    proof {
        lemma_span(i as int, len as int, parts as int);
    }
    let start: usize = i * len / parts;
    let e: usize = (i + 1) * len / parts;
    let end: usize = if e < start + 1 { start + 1 } else { e };
    (start, end)
}

/// The band of LED `k` (columns `x0 .. x1`, rows `y0 .. y1`).
fn band_bounds(s: &Settings, k: usize) -> (r: (usize, usize, usize, usize))
    requires
        s.cap_w > 0 && s.cap_h > 0,
        s.right > 0 ==> s.border <= s.cap_w,
        s.left * s.cap_h <= usize::MAX,
        s.right * s.cap_h <= usize::MAX,
        s.top * s.cap_w <= usize::MAX,
        k < s.left + s.top + s.right,
    ensures
        (r.0 as int, r.1 as int, r.2 as int, r.3 as int) == band(*s, k as int),
        r.0 <= r.1,
        r.2 <= r.3,
{
    if k < s.left {
        let (y0, y1) = span(k, s.cap_h, s.left);
        (0, s.border, y0, y1)
    } else if k - s.left < s.top {
        let (x0, x1) = span(k - s.left, s.cap_w, s.top);
        (x0, x1, 0, s.border)
    } else {
        let (y0, y1) = span(k - s.left - s.top, s.cap_h, s.right);
        (s.cap_w - s.border, s.cap_w, y0, y1)
    }
}

/// The raw colour of every LED, sampled from a captured frame: the left edge
/// top to bottom, the top edge left to right, the right edge top to bottom.
pub fn sample_edges(image: &[u8], g: &FrameGeometry, s: &Settings) -> (leds: Vec<(u8, u8, u8)>)
    requires
        sampling_fits(image@.len() as int, *g, *s),
    ensures
        leds@ == edge_colors(image@, *g, *s),
{
    let ghost img = image@;
    let ghost (gg, ss) = (*g, *s);
    let n: usize = s.leds();
    let mut leds: Vec<(u8, u8, u8)> = Vec::with_capacity(n);
    let mut k: usize = 0;
    while k < n
        invariant
            sampling_fits(image@.len() as int, *g, *s),
            img == image@,
            gg == *g,
            ss == *s,
            n == s.left + s.top + s.right,
            k <= n,
            leds@.len() == k,
            forall|j: int| 0 <= j < leds@.len() ==> #[trigger] leds@[j] == edge_color(img, gg, ss, j),
        decreases n - k,
    {
        let (x0, x1, y0, y1) = band_bounds(s, k);
        assert(band_fits(image@.len() as int, *g, *s, k as int));
        let c = average_rect(image, g, s, x0, x1, y0, y1);
        leds.push(c);
        k = k + 1;
    }
    assert(leds@ =~= edge_colors(img, gg, ss));
    leds
}

/// When there are at least as many grid lines as bands, the bands tile the
/// edge exactly: the first starts at line 0, each ends where the next starts,
/// and the last ends at the far side.
pub proof fn lemma_spans_tile(len: int, parts: int)
    requires
        0 < parts <= len,
    ensures
        span_start(0, len, parts) == 0,
        span_end(parts - 1, len, parts) == len,
        forall|i: int| 0 <= i < parts - 1 ==> #[trigger] span_end(i, len, parts) == span_start(i + 1, len, parts),
{
    assert(0 * len / parts == 0);
    assert forall|i: int| 0 <= i < parts implies #[trigger] span_end(i, len, parts) == (i + 1) * len / parts by {
        assert((i + 1) * len == i * len + len) by (nonlinear_arith);
        assert(0 <= i * len) by (nonlinear_arith)
            requires
                0 <= i,
                0 < len,
        ;
        lemma_fundamental_div_mod(i * len, parts);
        lemma_fundamental_div_mod((i + 1) * len, parts);
        let q = i * len / parts;
        let r = i * len % parts;
        assert(0 <= r < parts);
        assert((i + 1) * len == parts * q + r + len);
        assert(parts * q + r + len >= parts * (q + 1)) by (nonlinear_arith)
            requires
                r >= 0,
                len >= parts,
        ;
        lemma_div_is_ordered(parts * (q + 1), (i + 1) * len, parts);
        vstd::arithmetic::div_mod::lemma_div_multiples_vanish(q + 1, parts);
    }
    assert(parts * len / parts == len) by {
        vstd::arithmetic::div_mod::lemma_div_multiples_vanish(len, parts);
    }
    assert(span_end(parts - 1, len, parts) == parts * len / parts) by {
        assert((parts - 1 + 1) * len == parts * len);
    }
}

/// Colour of pixel number `p` of the frame (counting row after row).
pub open spec fn frame_pixel(image: Seq<u8>, g: FrameGeometry, p: int) -> (u8, u8, u8) {
    let o = p * g.bytes_per_pixel;
    (image[o + 2], image[o + 1], image[o])
}

proof fn lemma_row_sum_uniform(image: Seq<u8>, g: FrameGeometry, s: Settings, py: int, x0: int, x1: int, c: int, v: int)
    requires
        0 < s.cap_w && 0 < s.cap_h,
        0 < g.width && 0 < g.height,
        0 <= py < s.cap_h,
        0 <= x0 <= x1 <= s.cap_w,
        forall|px: int| x0 <= px < x1 ==> #[trigger] channel_at(image, g, s, py, px, c) == v,
    ensures
        row_sum(image, g, s, py, x0, x1, c) == (x1 - x0) * v,
    decreases x1 - x0,
{
    if x1 > x0 {
        lemma_row_sum_uniform(image, g, s, py, x0, x1 - 1, c, v);
        assert(channel_at(image, g, s, py, x1 - 1, c) == v);
        assert(row_sum(image, g, s, py, x0, x1, c) == row_sum(image, g, s, py, x0, x1 - 1, c) + v);
        assert((x1 - 1 - x0) * v + v == (x1 - x0) * v) by (nonlinear_arith);
    } else {
        assert(x1 - x0 == 0);
        assert((x1 - x0) * v == 0) by (nonlinear_arith)
            requires
                x1 - x0 == 0,
        ;
    }
}

proof fn lemma_rect_sum_uniform(
    image: Seq<u8>,
    g: FrameGeometry,
    s: Settings,
    x0: int,
    x1: int,
    y0: int,
    y1: int,
    c: int,
    v: int,
)
    requires
        0 < s.cap_w && 0 < s.cap_h,
        0 < g.width && 0 < g.height,
        0 <= x0 <= x1 <= s.cap_w,
        0 <= y0 <= y1 <= s.cap_h,
        forall|py: int, px: int|
            y0 <= py < y1 && x0 <= px < x1 ==> #[trigger] channel_at(image, g, s, py, px, c) == v,
    ensures
        rect_sum(image, g, s, x0, x1, y0, y1, c) == (y1 - y0) * ((x1 - x0) * v),
    decreases y1 - y0,
{
    if y1 > y0 {
        lemma_rect_sum_uniform(image, g, s, x0, x1, y0, y1 - 1, c, v);
        assert forall|px: int| x0 <= px < x1 implies #[trigger] channel_at(image, g, s, y1 - 1, px, c) == v by {
        }
        lemma_row_sum_uniform(image, g, s, y1 - 1, x0, x1, c, v);
        let w = (x1 - x0) * v;
        assert(rect_sum(image, g, s, x0, x1, y0, y1, c) == rect_sum(image, g, s, x0, x1, y0, y1 - 1, c)
            + row_sum(image, g, s, y1 - 1, x0, x1, c));
        assert((y1 - 1 - y0) * w + w == (y1 - y0) * w) by (nonlinear_arith);
    } else {
        assert(y1 - y0 == 0);
        assert((y1 - y0) * ((x1 - x0) * v) == 0) by (nonlinear_arith)
            requires
                y1 - y0 == 0,
        ;
    }
}

proof fn lemma_average_uniform(
    image: Seq<u8>,
    g: FrameGeometry,
    s: Settings,
    x0: int,
    x1: int,
    y0: int,
    y1: int,
    color: (u8, u8, u8),
)
    requires
        0 < s.cap_w && 0 < s.cap_h,
        0 < g.width && 0 < g.height,
        0 <= x0 < x1 <= s.cap_w,
        0 <= y0 < y1 <= s.cap_h,
        forall|p: int| 0 <= p < g.width * g.height ==> #[trigger] frame_pixel(image, g, p) == color,
    ensures
        rect_average(image, g, s, x0, x1, y0, y1) == color,
{
    assert forall|py: int, px: int| y0 <= py < y1 && x0 <= px < x1 implies {
        &&& #[trigger] channel_at(image, g, s, py, px, 0) == color.0
        &&& channel_at(image, g, s, py, px, 1) == color.1
        &&& channel_at(image, g, s, py, px, 2) == color.2
    } by {
        lemma_pixel_in_frame(g, s, py, px);
        let p = py * stride_y(g, s) * g.width + px * stride_x(g, s);
        assert(frame_pixel(image, g, p) == color);
        assert(pixel_offset(g, s, py, px) == p * g.bytes_per_pixel);
    }
    assert forall|py: int, px: int| y0 <= py < y1 && x0 <= px < x1 implies #[trigger] channel_at(
        image,
        g,
        s,
        py,
        px,
        1,
    ) == color.1 by {
        assert(channel_at(image, g, s, py, px, 0) == color.0);
    }
    assert forall|py: int, px: int| y0 <= py < y1 && x0 <= px < x1 implies #[trigger] channel_at(
        image,
        g,
        s,
        py,
        px,
        2,
    ) == color.2 by {
        assert(channel_at(image, g, s, py, px, 0) == color.0);
    }
    lemma_rect_sum_uniform(image, g, s, x0, x1, y0, y1, 0, color.0 as int);
    lemma_rect_sum_uniform(image, g, s, x0, x1, y0, y1, 1, color.1 as int);
    lemma_rect_sum_uniform(image, g, s, x0, x1, y0, y1, 2, color.2 as int);
    let n = (x1 - x0) * (y1 - y0);
    assert(n > 0) by (nonlinear_arith)
        requires
            x0 < x1,
            y0 < y1,
            n == (x1 - x0) * (y1 - y0),
    ;
    assert(rect_area(x0, x1, y0, y1) == n);
    assert forall|v: int| 0 <= v <= 255 implies #[trigger] ((y1 - y0) * ((x1 - x0) * v)) / n == v by {
        assert((y1 - y0) * ((x1 - x0) * v) == v * n) by (nonlinear_arith)
            requires
                n == (x1 - x0) * (y1 - y0),
        ;
        vstd::arithmetic::div_mod::lemma_div_by_multiple(v, n);
    }
    assert(((y1 - y0) * ((x1 - x0) * (color.0 as int))) / n == color.0);
    assert(((y1 - y0) * ((x1 - x0) * (color.1 as int))) / n == color.1);
    assert(((y1 - y0) * ((x1 - x0) * (color.2 as int))) / n == color.2);
}

/// A frame of one uniform colour lights every LED in that colour, provided the
/// bands lie within the capture grid and are at least one cell wide.
pub proof fn lemma_uniform_frame(image: Seq<u8>, g: FrameGeometry, s: Settings, color: (u8, u8, u8))
    requires
        0 < s.cap_w && 0 < s.cap_h,
        0 < g.width && 0 < g.height,
        0 < s.border,
        s.border <= s.cap_w,
        s.border <= s.cap_h,
        forall|p: int| 0 <= p < g.width * g.height ==> #[trigger] frame_pixel(image, g, p) == color,
    ensures
        forall|k: int| 0 <= k < edge_colors(image, g, s).len() ==> #[trigger] edge_colors(image, g, s)[k] == color,
{
    let cw = s.cap_w as int;
    let ch = s.cap_h as int;
    let b = s.border as int;
    assert forall|k: int| 0 <= k < edge_colors(image, g, s).len() implies #[trigger] edge_colors(image, g, s)[k]
        == color by {
        if k < s.left {
            lemma_span(k, ch, s.left as int);
            lemma_average_uniform(
                image,
                g,
                s,
                0,
                b,
                span_start(k, ch, s.left as int),
                span_end(k, ch, s.left as int),
                color,
            );
        } else if k < s.left + s.top {
            let j = k - s.left;
            lemma_span(j, cw, s.top as int);
            lemma_average_uniform(
                image,
                g,
                s,
                span_start(j, cw, s.top as int),
                span_end(j, cw, s.top as int),
                0,
                b,
                color,
            );
        } else {
            let j = k - s.left - s.top;
            lemma_span(j, ch, s.right as int);
            lemma_average_uniform(
                image,
                g,
                s,
                cw - b,
                cw,
                span_start(j, ch, s.right as int),
                span_end(j, ch, s.right as int),
                color,
            );
        }
    }
}

proof fn lemma_cell_in_frame_fits(image_len: int, g: FrameGeometry, s: Settings, py: int, px: int)
    requires
        image_len <= usize::MAX,
        0 < s.cap_w && 0 < s.cap_h,
        0 < g.width && 0 < g.height,
        g.bytes_per_pixel >= 3,
        g.width * g.height * g.bytes_per_pixel <= image_len,
        0 <= py < s.cap_h,
        0 <= px < s.cap_w,
    ensures
        cell_fits(image_len, g, s, py, px),
{
    lemma_pixel_in_frame(g, s, py, px);
    let sy = stride_y(g, s);
    let sx = stride_x(g, s);
    let w = g.width as int;
    let h = g.height as int;
    let bpp = g.bytes_per_pixel as int;
    lemma_stride_bound(py, s.cap_h as int, h);
    lemma_stride_bound(px, s.cap_w as int, w);
    let pos = py * sy * w + px * sx;
    assert(py * sy <= py * sy * w) by (nonlinear_arith)
        requires
            py * sy >= 0,
            w >= 1,
    ;
    assert(0 <= px * sx);
    assert(pos * bpp + 2 < w * h * bpp) by (nonlinear_arith)
        requires
            0 <= pos < w * h,
            bpp >= 3,
    {
        assert(pos * bpp <= (w * h - 1) * bpp);
    }
    assert(w * h <= w * h * bpp) by (nonlinear_arith)
        requires
            w * h >= 0,
            bpp >= 3,
    ;
}

/// Sampling is accepted whatever the number of LEDs on each edge, more or
/// fewer than there are grid lines, as long as the bands stay within the
/// capture grid (a border no deeper than the grid), the frame fills the buffer
/// with pixels of at least three bytes, the grid's cell count times 255 fits in
/// 64 bits, and the LED counts times the grid sides fit in a `usize`.
pub proof fn lemma_sampling_accepted(image_len: int, g: FrameGeometry, s: Settings)
    requires
        image_len <= usize::MAX,
        0 < s.cap_w && 0 < s.cap_h,
        s.border <= s.cap_w,
        s.border <= s.cap_h,
        0 < g.width && 0 < g.height,
        g.bytes_per_pixel >= 3,
        g.width * g.height * g.bytes_per_pixel <= image_len,
        s.cap_w * s.cap_h * 255 <= u64::MAX,
        s.left * s.cap_h <= usize::MAX,
        s.right * s.cap_h <= usize::MAX,
        s.top * s.cap_w <= usize::MAX,
        s.top + s.right + s.left <= usize::MAX,
    ensures
        sampling_fits(image_len, g, s),
{
    let cw = s.cap_w as int;
    let ch = s.cap_h as int;
    assert forall|k: int| 0 <= k < s.left + s.top + s.right implies #[trigger] band_fits(image_len, g, s, k) by {
        let r = band(s, k);
        if k < s.left {
            lemma_span(k, ch, s.left as int);
        } else if k < s.left + s.top {
            lemma_span(k - s.left, cw, s.top as int);
        } else {
            lemma_span(k - s.left - s.top, ch, s.right as int);
        }
        assert(0 <= r.0 <= r.1 <= cw && 0 <= r.2 <= r.3 <= ch);
        assert(rect_area(r.0, r.1, r.2, r.3) <= cw * ch) by (nonlinear_arith)
            requires
                0 <= r.0 <= r.1 <= cw,
                0 <= r.2 <= r.3 <= ch,
        {
            if r.0 < r.1 && r.2 < r.3 {
                assert((r.1 - r.0) * (r.3 - r.2) <= cw * (r.3 - r.2));
                assert(cw * (r.3 - r.2) <= cw * ch);
            }
        }
        assert(rect_area(r.0, r.1, r.2, r.3) * 255 <= cw * ch * 255) by (nonlinear_arith)
            requires
                rect_area(r.0, r.1, r.2, r.3) <= cw * ch,
        ;
        assert forall|py: int, px: int| r.2 <= py < r.3 && r.0 <= px < r.1 implies #[trigger] cell_fits(
            image_len,
            g,
            s,
            py,
            px,
        ) by {
            lemma_cell_in_frame_fits(image_len, g, s, py, px);
        }
    }
}

/// Whether the pixel under grid cell (`px`, `py`) can be read from a buffer of
/// `image_len` bytes.
fn cell_in_buffer(image_len: usize, g: &FrameGeometry, s: &Settings, py: usize, px: usize) -> (r: bool)
    requires
        s.cap_w > 0 && s.cap_h > 0,
    ensures
        r == cell_fits(image_len as int, *g, *s, py as int, px as int),
{
    let sy: usize = g.height / s.cap_h;
    let sx: usize = g.width / s.cap_w;
    let row = match py.checked_mul(sy) {
        Some(v) => v,
        None => return false,
    };
    let (rw, col) = match (row.checked_mul(g.width), px.checked_mul(sx)) {
        (Some(a), Some(b)) => (a, b),
        _ => {
            assert(py * sy * g.width + px * sx > usize::MAX) by (nonlinear_arith)
                requires
                    row * g.width > usize::MAX || px * sx > usize::MAX,
                    row == py * sy,
                    row >= 0,
                    g.width >= 0,
                    px * sx >= 0,
            ;
            return false;
        },
    };
    let pos = match rw.checked_add(col) {
        Some(v) => v,
        None => return false,
    };
    let off = match pos.checked_mul(g.bytes_per_pixel) {
        Some(v) => v,
        None => return false,
    };
    match off.checked_add(2) {
        Some(end) => end < image_len,
        None => false,
    }
}

/// Whether `sample_edges` can sample a frame of `image_len` bytes with these
/// settings.
pub fn can_sample(image_len: usize, g: &FrameGeometry, s: &Settings) -> (r: bool)
    ensures
        r == sampling_fits(image_len as int, *g, *s),
{
    if s.cap_w == 0 || s.cap_h == 0 {
        return false;
    }
    if s.right > 0 && s.border > s.cap_w {
        return false;
    }
    let spans_ok = s.left.checked_mul(s.cap_h).is_some() && s.right.checked_mul(s.cap_h).is_some()
        && s.top.checked_mul(s.cap_w).is_some();
    if !spans_ok {
        return false;
    }
    let n: usize = match s.top.checked_add(s.right) {
        None => return false,
        Some(t) => match t.checked_add(s.left) {
            None => return false,
            Some(v) => v,
        },
    };
    let mut k: usize = 0;
    while k < n
        invariant
            s.cap_w > 0 && s.cap_h > 0,
            s.right > 0 ==> s.border <= s.cap_w,
            s.left * s.cap_h <= usize::MAX,
            s.right * s.cap_h <= usize::MAX,
            s.top * s.cap_w <= usize::MAX,
            n == s.left + s.top + s.right,
            k <= n,
            forall|j: int| 0 <= j < k ==> #[trigger] band_fits(image_len as int, *g, *s, j),
        decreases n - k,
    {
        let (x0, x1, y0, y1) = band_bounds(s, k);
        let dx: u128 = (x1 - x0) as u128;
        let dy: u128 = (y1 - y0) as u128;
        assert(dx * dy <= u128::MAX) by (nonlinear_arith)
            requires
                0 <= dx <= u64::MAX,
                0 <= dy <= u64::MAX,
        {
            assert(dx * dy <= u64::MAX * dy);
            assert(u64::MAX * dy <= u64::MAX * u64::MAX);
        }
        let area: u128 = dx * dy;
        assert(area == rect_area(x0 as int, x1 as int, y0 as int, y1 as int)) by (nonlinear_arith)
            requires
                x0 <= x1,
                y0 <= y1,
                area == (x1 - x0) * (y1 - y0),
        ;
        if area > (u64::MAX / 255) as u128 {
            assert(!band_fits(image_len as int, *g, *s, k as int));
            return false;
        }
        if area > 0 {
            assert(x0 < x1 && y0 < y1) by (nonlinear_arith)
                requires
                    area > 0,
                    x0 <= x1,
                    y0 <= y1,
                    area == (x1 - x0) * (y1 - y0),
            ;
            if !cell_in_buffer(image_len, g, s, y1 - 1, x1 - 1) {
                assert(!band_fits(image_len as int, *g, *s, k as int));
                return false;
            }
            assert forall|py: int, px: int| y0 <= py < y1 && x0 <= px < x1 implies #[trigger] cell_fits(
                image_len as int,
                *g,
                *s,
                py,
                px,
            ) by {
                lemma_cell_fits_below(image_len as int, *g, *s, py, px, y1 - 1, x1 - 1);
            }
        } else {
            assert forall|py: int, px: int| y0 <= py < y1 && x0 <= px < x1 implies #[trigger] cell_fits(
                image_len as int,
                *g,
                *s,
                py,
                px,
            ) by {
                assert((x1 - x0) * (y1 - y0) > 0) by (nonlinear_arith)
                    requires
                        x0 < x1,
                        y0 < y1,
                ;
            }
        }
        assert(band_fits(image_len as int, *g, *s, k as int));
        k = k + 1;
    }
    true
}


/// Index of the first element of `s` satisfying `pred`, if any.
pub open spec fn first_index<T>(s: Seq<T>, pred: spec_fn(T) -> bool) -> Option<int>
    decreases s.len(),
{
    if s.len() == 0 {
        None
    } else if pred(s[0]) {
        Some(0)
    } else {
        match first_index(s.drop_first(), pred) {
            Some(i) => Some(i + 1),
            None => None,
        }
    }
}

/// `first_index` is the least index whose element satisfies the predicate.
pub proof fn lemma_first_index<T>(s: Seq<T>, pred: spec_fn(T) -> bool, i: int)
    requires
        0 <= i <= s.len(),
        forall|j: int| 0 <= j < i ==> !pred(#[trigger] s[j]),
    ensures
        i < s.len() && pred(s[i]) ==> first_index(s, pred) == Some(i),
        i == s.len() ==> first_index(s, pred) is None,
    decreases i,
{
    if i > 0 {
        let t = s.drop_first();
        assert forall|j: int| 0 <= j < i - 1 implies !pred(#[trigger] t[j]) by {
            assert(t[j] == s[j + 1]);
        }
        lemma_first_index(t, pred, i - 1);
        assert(!pred(s[0]));
        if i < s.len() {
            assert(t[i - 1] == s[i]);
        }
    }
}

/// What `first_index` finds: an index whose element satisfies the predicate
/// with none before it; `None` only when no element satisfies it.
pub proof fn lemma_first_index_found<T>(s: Seq<T>, pred: spec_fn(T) -> bool)
    ensures
        match first_index(s, pred) {
            Some(i) => 0 <= i < s.len() && pred(s[i]) && forall|j: int| 0 <= j < i ==> !pred(#[trigger] s[j]),
            None => forall|j: int| 0 <= j < s.len() ==> !pred(#[trigger] s[j]),
        },
    decreases s.len(),
{
    if s.len() > 0 && !pred(s[0]) {
        let t = s.drop_first();
        lemma_first_index_found(t, pred);
        match first_index(t, pred) {
            Some(i) => {
                assert(s[i + 1] == t[i]);
                assert forall|j: int| 0 <= j < i + 1 implies !pred(#[trigger] s[j]) by {
                    if j > 0 {
                        assert(s[j] == t[j - 1]);
                    }
                }
            },
            None => {
                assert forall|j: int| 0 <= j < s.len() implies !pred(#[trigger] s[j]) by {
                    if j > 0 {
                        assert(s[j] == t[j - 1]);
                    }
                }
            },
        }
    }
}

/// Where a monitor was found by the RandR extension, and how large it is.
#[derive(Debug, Clone)]
pub struct MonitorInfo {
    pub index: usize,
    pub name: String,
    pub x: i16,
    pub y: i16,
    pub width: usize,
    pub height: usize,
    pub primary: bool,
}

/// Which monitor to capture.
#[derive(Debug, Clone)]
pub enum MonitorSelect {
    Primary,
    Index(usize),
    Name(String),
}

/// Why no monitor could be picked.
#[derive(Debug, Clone)]
pub enum MonitorError {
    /// The list of monitors is empty.
    NoMonitors,
    /// The index is not below the number of monitors detected.
    NoSuchIndex { index: usize, detected: usize },
    /// No monitor has this name.
    NoSuchName(String),
}

/// ASCII lower-casing of a character, as a code point.
pub open spec fn ascii_lower(c: char) -> u32 {
    if 'A' <= c && c <= 'Z' {
        (c as u32 + 32) as u32
    } else {
        c as u32
    }
}

/// Whether two strings are equal up to the case of ASCII letters.
pub open spec fn eq_ignoring_ascii_case(a: Seq<char>, b: Seq<char>) -> bool {
    &&& a.len() == b.len()
    &&& forall|i: int| 0 <= i < a.len() ==> #[trigger] ascii_lower(a[i]) == ascii_lower(b[i])
}

fn ascii_lower_code(c: char) -> (r: u32)
    ensures
        r == ascii_lower(c),
{
    if 'A' <= c && c <= 'Z' {
        (c as u32) + 32
    } else {
        c as u32
    }
}

/// Compares two strings, treating ASCII upper- and lower-case letters alike.
pub fn eq_ignore_ascii_case(a: &str, b: &str) -> (r: bool)
    ensures
        r == eq_ignoring_ascii_case(a@, b@),
{
    let n: usize = a.unicode_len();
    if n != b.unicode_len() {
        return false;
    }
    let mut i: usize = 0;
    while i < n
        invariant
            n == a@.len() == b@.len(),
            i <= n,
            forall|j: int| 0 <= j < i ==> #[trigger] ascii_lower(a@[j]) == ascii_lower(b@[j]),
        decreases n - i,
    {
        let ca = a.get_char(i);
        let cb = b.get_char(i);
        if ascii_lower_code(ca) != ascii_lower_code(cb) {
            return false;
        }
        i = i + 1;
    }
    true
}

/// Whether a monitor is the primary one.
pub open spec fn primary_pred() -> spec_fn(MonitorInfo) -> bool {
    |m: MonitorInfo| m.primary
}

/// Whether a monitor's name matches `n` up to ASCII case.
pub open spec fn name_pred(n: Seq<char>) -> spec_fn(MonitorInfo) -> bool {
    |m: MonitorInfo| eq_ignoring_ascii_case(m.name@, n)
}

/// Whether a pixmap format, given as (depth, bits per pixel), has depth `d`.
pub open spec fn depth_pred(d: u8) -> spec_fn((u8, u8)) -> bool {
    |f: (u8, u8)| f.0 == d
}

/// The monitor that a selection designates, as an index into `mons`, or the
/// reason there is none: the first primary monitor (else the first monitor),
/// the monitor at the index, or the first monitor whose name matches up to
/// ASCII case.
pub open spec fn pick_spec(mons: Seq<MonitorInfo>, select: MonitorSelect) -> Result<int, MonitorError> {
    match select {
        MonitorSelect::Primary => match first_index(mons, primary_pred()) {
            Some(i) => Ok(i),
            None => if mons.len() > 0 {
                Ok(0)
            } else {
                Err(MonitorError::NoMonitors)
            },
        },
        MonitorSelect::Index(i) => if i < mons.len() {
            Ok(i as int)
        } else {
            Err(MonitorError::NoSuchIndex { index: i, detected: mons.len() as usize })
        },
        MonitorSelect::Name(n) => match first_index(mons, name_pred(n@)) {
            Some(i) => Ok(i),
            None => Err(MonitorError::NoSuchName(n)),
        },
    }
}

/// What picking a monitor gives, in terms of the list alone:
/// - by name: a monitor whose name equals the requested one up to ASCII case
///   (so of the same length), with no earlier monitor so named; the error
///   `NoSuchName` only when no monitor is so named;
/// - by index: the monitor at that index; the error `NoSuchIndex` with the
///   index and the number of monitors only when the index is past the end;
/// - the primary: the first primary monitor, or the first monitor when none is
///   primary; the error `NoMonitors` only for an empty list.
pub proof fn lemma_pick_monitor(mons: Seq<MonitorInfo>, select: MonitorSelect)
    ensures
        match select {
            MonitorSelect::Name(n) => match pick_spec(mons, select) {
                Ok(i) => {
                    &&& 0 <= i < mons.len()
                    &&& eq_ignoring_ascii_case(mons[i].name@, n@)
                    &&& mons[i].name@.len() == n@.len()
                    &&& forall|j: int| 0 <= j < i ==> !eq_ignoring_ascii_case(#[trigger] mons[j].name@, n@)
                },
                Err(e) => e == MonitorError::NoSuchName(n) && forall|j: int|
                    0 <= j < mons.len() ==> !eq_ignoring_ascii_case(#[trigger] mons[j].name@, n@),
            },
            MonitorSelect::Index(k) => match pick_spec(mons, select) {
                Ok(i) => i == k && k < mons.len(),
                Err(e) => k >= mons.len() && e == MonitorError::NoSuchIndex { index: k, detected: mons.len() as usize },
            },
            MonitorSelect::Primary => match pick_spec(mons, select) {
                Ok(i) => 0 <= i < mons.len() && ((mons[i].primary && forall|j: int|
                    0 <= j < i ==> !(#[trigger] mons[j]).primary) || (i == 0 && forall|j: int|
                    0 <= j < mons.len() ==> !(#[trigger] mons[j]).primary)),
                Err(e) => mons.len() == 0 && e == MonitorError::NoMonitors,
            },
        },
{
    match select {
        MonitorSelect::Name(n) => {
            let pred = name_pred(n@);
            lemma_first_index_found(mons, pred);
            match first_index(mons, pred) {
                Some(i) => {
                    assert(pred(mons[i]));
                    assert forall|j: int| 0 <= j < i implies !eq_ignoring_ascii_case(#[trigger] mons[j].name@, n@) by {
                        assert(!pred(mons[j]));
                    }
                },
                None => {
                    assert forall|j: int| 0 <= j < mons.len() implies !eq_ignoring_ascii_case(
                        #[trigger] mons[j].name@,
                        n@,
                    ) by {
                        assert(!pred(mons[j]));
                    }
                },
            }
        },
        MonitorSelect::Index(k) => {},
        MonitorSelect::Primary => {
            let pred = primary_pred();
            lemma_first_index_found(mons, pred);
            match first_index(mons, pred) {
                Some(i) => {
                    assert(pred(mons[i]));
                    assert forall|j: int| 0 <= j < i implies !(#[trigger] mons[j]).primary by {
                        assert(!pred(mons[j]));
                    }
                },
                None => {
                    assert forall|j: int| 0 <= j < mons.len() implies !(#[trigger] mons[j]).primary by {
                        assert(!pred(mons[j]));
                    }
                },
            }
        },
    }
}

/// Picks a monitor from a list according to the selection (primary / index / name).
pub fn pick_monitor<'a>(mons: &'a [MonitorInfo], select: &MonitorSelect) -> (r: Result<
    &'a MonitorInfo,
    MonitorError,
>)
    ensures
        match (r, pick_spec(mons@, *select)) {
            (Ok(m), Ok(i)) => 0 <= i < mons@.len() && *m == mons@[i],
            (Err(e), Err(e2)) => e == e2,
            _ => false,
        },
        match *select {
            MonitorSelect::Name(n) => r matches Ok(m) ==> eq_ignoring_ascii_case(m.name@, n@),
            _ => true,
        },
{
    match select {
        MonitorSelect::Primary => {
            let ghost pred = primary_pred();
            let mut i: usize = 0;
            while i < mons.len()
                invariant
                    i <= mons@.len(),
                    pred == primary_pred(),
                    *select is Primary,
                    forall|j: int| 0 <= j < i ==> !pred(#[trigger] mons@[j]),
                decreases mons.len() - i,
            {
                if mons[i].primary {
                    proof {
                        assert(pred(mons@[i as int]));
                        lemma_first_index(mons@, pred, i as int);
                    }
                    return Ok(&mons[i]);
                }
                i = i + 1;
            }
            proof {
                lemma_first_index(mons@, pred, i as int);
            }
            if mons.len() > 0 {
                Ok(&mons[0])
            } else {
                Err(MonitorError::NoMonitors)
            }
        },
        MonitorSelect::Index(k) => {
            if *k < mons.len() {
                Ok(&mons[*k])
            } else {
                Err(MonitorError::NoSuchIndex { index: *k, detected: mons.len() })
            }
        },
        MonitorSelect::Name(n) => {
            let ghost pred = name_pred(n@);
            let mut i: usize = 0;
            while i < mons.len()
                invariant
                    i <= mons@.len(),
                    pred == name_pred(n@),
                    *select == MonitorSelect::Name(*n),
                    forall|j: int| 0 <= j < i ==> !pred(#[trigger] mons@[j]),
                decreases mons.len() - i,
            {
                if eq_ignore_ascii_case(mons[i].name.as_str(), n.as_str()) {
                    proof {
                        assert(pred(mons@[i as int]));
                        lemma_first_index(mons@, pred, i as int);
                    }
                    return Ok(&mons[i]);
                }
                i = i + 1;
            }
            proof {
                lemma_first_index(mons@, pred, i as int);
            }
            Err(MonitorError::NoSuchName(n.clone()))
        },
    }
}

/// Bytes per pixel of the screen: taken from the first pixmap format, given as
/// (depth, bits per pixel), whose depth is the screen's; 4 when none matches.
pub fn bytes_per_pixel(formats: &[(u8, u8)], depth: u8) -> (bpp: usize)
    ensures
        bpp == match first_index(formats@, depth_pred(depth)) {
            Some(i) => formats@[i].1 as int / 8,
            None => 4,
        },
{
    let ghost pred = depth_pred(depth);
    let mut i: usize = 0;
    while i < formats.len()
        invariant
            i <= formats@.len(),
            pred == depth_pred(depth),
            forall|j: int| 0 <= j < i ==> !pred(#[trigger] formats@[j]),
        decreases formats.len() - i,
    {
        if formats[i].0 == depth {
            proof {
                lemma_first_index(formats@, pred, i as int);
            }
            return (formats[i].1 / 8) as usize;
        }
        i = i + 1;
    }
    proof {
        lemma_first_index(formats@, pred, i as int);
    }
    4
}

} // verus!
