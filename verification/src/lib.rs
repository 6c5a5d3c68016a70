//! Pixelization of raster images: the image is partitioned into a grid of
//! equal-sized square tiles and every pixel of a tile is replaced by the
//! tile's average color, each of the four RGBA channels averaged
//! independently with truncating integer division.

pub mod buffer;
pub mod laws;
pub mod segments;
pub mod validation;

use vstd::prelude::*;

use crate::buffer::{dims_of, in_bounds, pixels_of, Color, PixelBuffer};
use crate::segments::{
    lemma_point_segment, lemma_segment_points_contains, segment_grid, segment_points,
    split_image_by_segments, ImageSegmentIterator,
};
use crate::validation::{segmentable, validate};
pub use crate::validation::ValidationError;
use vstd::arithmetic::div_mod::{
    lemma_div_is_ordered, lemma_div_multiples_vanish, lemma_fundamental_div_mod,
    lemma_fundamental_div_mod_converse, lemma_multiply_divide_lt,
};

verus! {

/// Channel `idx` of a pixel, as a mathematical integer: red, green, blue,
/// alpha for `idx` 0 through 3.
pub open spec fn channel(c: Color, idx: int) -> int {
    if idx == 0 {
        c.red as int
    } else if idx == 1 {
        c.green as int
    } else if idx == 2 {
        c.blue as int
    } else {
        c.alpha as int
    }
}

/// The sum of channel `idx` over the pixels of `pm` at the coordinates
/// `pts`.
pub open spec fn channel_sum(pm: Map<(int, int), Color>, pts: Seq<(int, int)>, idx: int) -> int
    decreases pts.len(),
{
    if pts.len() == 0 {
        0
    } else {
        channel_sum(pm, pts.drop_last(), idx) + channel(pm[pts.last()], idx)
    }
}

/// The average color of the tile at grid coordinate (column, row) with side
/// `size`: each channel is the truncating integer quotient of its sum over
/// the tile's member pixels by the pixel count `size * size`.
pub open spec fn segment_average(
    pm: Map<(int, int), Color>,
    column: int,
    row: int,
    size: int,
) -> Color {
    let pts = segment_points(column, row, size);
    let count = size * size;
    Color {
        red: (channel_sum(pm, pts, 0) / count) as u8,
        green: (channel_sum(pm, pts, 1) / count) as u8,
        blue: (channel_sum(pm, pts, 2) / count) as u8,
        alpha: (channel_sum(pm, pts, 3) / count) as u8,
    }
}

/// The whole transform as a map on pixel tables: every coordinate inside a
/// width × height image is replaced by the average color of its tile, and
/// every other coordinate keeps its value.
pub open spec fn pixelized(
    pm: Map<(int, int), Color>,
    width: int,
    height: int,
    size: int,
) -> Map<(int, int), Color> {
    Map::new(
        |p: (int, int)| true,
        |p: (int, int)|
            if 0 <= p.0 < width && 0 <= p.1 < height {
                segment_average(pm, p.0 / size, p.1 / size, size)
            } else {
                pm[p]
            },
    )
}

/// The position, in the row-major tile grid with `columns` tiles per row,
/// of the tile that the pixel `p` belongs to.
pub open spec fn segment_index_of(p: (int, int), size: int, columns: int) -> int {
    (p.1 / size) * columns + p.0 / size
}

/// Two pixel tables that agree on a list of coordinates have the same
/// channel sums over that list.
pub proof fn lemma_channel_sum_agree(
    pm1: Map<(int, int), Color>,
    pm2: Map<(int, int), Color>,
    pts: Seq<(int, int)>,
    idx: int,
)
    requires
        forall|i: int| 0 <= i < pts.len() ==> pm1[#[trigger] pts[i]] == pm2[pts[i]],
    ensures
        channel_sum(pm1, pts, idx) == channel_sum(pm2, pts, idx),
    decreases pts.len(),
{
    if pts.len() > 0 {
        assert(pts.last() == pts[pts.len() - 1]);
        lemma_channel_sum_agree(pm1, pm2, pts.drop_last(), idx);
    }
}

/// A channel sum over `pts` lies between 0 and 255 times the number of
/// coordinates.
pub proof fn lemma_channel_sum_bounds(pm: Map<(int, int), Color>, pts: Seq<(int, int)>, idx: int)
    ensures
        0 <= channel_sum(pm, pts, idx) <= 255 * pts.len(),
    decreases pts.len(),
{
    if pts.len() > 0 {
        lemma_channel_sum_bounds(pm, pts.drop_last(), idx);
    }
}

/// Over coordinates that all hold the same pixel, a channel sum is that
/// pixel's channel times the number of coordinates.
pub proof fn lemma_channel_sum_const(
    pm: Map<(int, int), Color>,
    pts: Seq<(int, int)>,
    v: Color,
    idx: int,
)
    requires
        forall|i: int| 0 <= i < pts.len() ==> pm[#[trigger] pts[i]] == v,
    ensures
        channel_sum(pm, pts, idx) == channel(v, idx) * pts.len(),
    decreases pts.len(),
{
    if pts.len() == 0 {
        assert(channel(v, idx) * 0 == 0) by (nonlinear_arith);
    } else {
        assert(pts.last() == pts[pts.len() - 1]);
        lemma_channel_sum_const(pm, pts.drop_last(), v, idx);
        assert(channel(v, idx) * (pts.len() - 1) + channel(v, idx) == channel(v, idx) * pts.len())
            by (nonlinear_arith);
    }
}

/// Two pixel tables that agree on a tile's member pixels give that tile the
/// same average color.
pub proof fn lemma_segment_average_agree(
    pm1: Map<(int, int), Color>,
    pm2: Map<(int, int), Color>,
    column: int,
    row: int,
    size: int,
)
    requires
        forall|p: (int, int)|
            #[trigger] segment_points(column, row, size).contains(p) ==> pm1[p] == pm2[p],
    ensures
        segment_average(pm1, column, row, size) == segment_average(pm2, column, row, size),
{
    let pts = segment_points(column, row, size);
    assert forall|i: int| 0 <= i < pts.len() implies pm1[#[trigger] pts[i]] == pm2[pts[i]] by {
        assert(pts.contains(pts[i]));
    }
    lemma_channel_sum_agree(pm1, pm2, pts, 0);
    lemma_channel_sum_agree(pm1, pm2, pts, 1);
    lemma_channel_sum_agree(pm1, pm2, pts, 2);
    lemma_channel_sum_agree(pm1, pm2, pts, 3);
}

/// Every pixel inside a validated image belongs to the tile grid: its own
/// grid coordinate is in range, the matching grid entry is its tile, and it
/// is a member pixel of that tile.
pub proof fn lemma_pixel_in_grid(width: int, height: int, size: int, p: (int, int))
    requires
        segmentable(width, height, size),
        0 <= p.0 < width,
        0 <= p.1 < height,
    ensures
        0 <= p.0 / size < width / size,
        0 <= p.1 / size < height / size,
        segment_points(p.0 / size, p.1 / size, size).contains(p),
        0 <= segment_index_of(p, size, width / size) < (height / size) * (width / size),
        segment_grid(width, height, size)[segment_index_of(p, size, width / size)] == (
            p.0 / size,
            p.1 / size,
        ),
{
    let columns = width / size;
    let rows = height / size;
    let col = p.0 / size;
    let row = p.1 / size;
    lemma_fundamental_div_mod(width, size);
    lemma_fundamental_div_mod(height, size);
    lemma_fundamental_div_mod(p.0, size);
    lemma_fundamental_div_mod(p.1, size);
    lemma_multiply_divide_lt(p.0, size, columns);
    lemma_multiply_divide_lt(p.1, size, rows);
    lemma_div_is_ordered(0, p.0, size);
    lemma_div_is_ordered(0, p.1, size);
    assert(col * size <= p.0 < (col + 1) * size && row * size <= p.1 < (row + 1) * size)
        by (nonlinear_arith)
        requires
            size >= 1,
            p.0 == size * col + p.0 % size,
            p.1 == size * row + p.1 % size,
            0 <= p.0 % size < size,
            0 <= p.1 % size < size,
    ;
    lemma_segment_points_contains(col, row, size, p);
    assert(0 <= row * columns + col < rows * columns) by (nonlinear_arith)
        requires
            0 <= col < columns,
            0 <= row < rows,
    ;
    lemma_fundamental_div_mod_converse(row * columns + col, columns, row, col);
}

/// Replaces every pixel of the given tile with the tile's average color,
/// computed over the pixel values found at the time of the call.
fn pixelize_segment(image: &mut PixelBuffer, image_segment_iterator: ImageSegmentIterator)
    requires
        image_segment_iterator.segment_size >= 1,
        (image_segment_iterator.column_segment_number + 1) * image_segment_iterator.segment_size
            <= dims_of(*old(image)).0,
        (image_segment_iterator.row_segment_number + 1) * image_segment_iterator.segment_size
            <= dims_of(*old(image)).1,
    ensures
        dims_of(*final(image)) == dims_of(*old(image)),
        forall|p: (int, int)|
            image_segment_iterator.points().contains(p) ==> #[trigger] pixels_of(*final(image))[p]
                == segment_average(
                pixels_of(*old(image)),
                image_segment_iterator.column_segment_number as int,
                image_segment_iterator.row_segment_number as int,
                image_segment_iterator.segment_size as int,
            ),
        forall|p: (int, int)|
            !image_segment_iterator.points().contains(p) ==> #[trigger] pixels_of(
                *final(image),
            )[p] == pixels_of(*old(image))[p],
{
    let ghost pm0 = pixels_of(*image);
    let ghost dims0 = dims_of(*image);
    let ghost col = image_segment_iterator.column_segment_number as int;
    let ghost row = image_segment_iterator.row_segment_number as int;
    let ghost size = image_segment_iterator.segment_size as int;
    let ghost pts = image_segment_iterator.points();
    let rgba = calc_average_rgba_pixel(image, &image_segment_iterator);
    let points = image_segment_iterator.get_points();
    for i in 0..points.len()
        invariant
            image_segment_iterator.segment_size >= 1,
            (image_segment_iterator.column_segment_number + 1)
                * image_segment_iterator.segment_size <= dims0.0,
            (image_segment_iterator.row_segment_number + 1) * image_segment_iterator.segment_size
                <= dims0.1,
            col == image_segment_iterator.column_segment_number as int,
            row == image_segment_iterator.row_segment_number as int,
            size == image_segment_iterator.segment_size as int,
            pts == image_segment_iterator.points(),
            dims_of(*image) == dims0,
            rgba == segment_average(pm0, col, row, size),
            points@.len() == pts.len(),
            forall|j: int|
                0 <= j < points@.len() ==> ((#[trigger] points@[j]).x == pts[j].0 && points@[j].y
                    == pts[j].1),
            forall|j: int| 0 <= j < i ==> pixels_of(*image)[#[trigger] pts[j]] == rgba,
            forall|p: (int, int)|
                !pts.take(i as int).contains(p) ==> #[trigger] pixels_of(*image)[p] == pm0[p],
    {
        let point = points[i];
        proof {
            assert(pts.contains(pts[i as int]));
            lemma_segment_points_contains(col, row, size, pts[i as int]);
            assert((col + 1) * size <= dims0.0 && (row + 1) * size <= dims0.1);
        }
        image.put_pixel(point.x, point.y, rgba);
        proof {
            let ghost pprev = pixels_of(*image).remove((point.x as int, point.y as int));
            assert(pts.take(i + 1).last() == pts[i as int]);
            assert forall|j: int| 0 <= j < i + 1 implies pixels_of(*image)[#[trigger] pts[j]]
                == rgba by {
                if pts[j] != pts[i as int] {
                    assert(pixels_of(*image)[pts[j]] == pm0[pts[j]] || pixels_of(
                        *image,
                    )[pts[j]] == rgba);
                }
            }
            assert forall|p: (int, int)| !pts.take(i + 1).contains(p) implies #[trigger] pixels_of(
                *image,
            )[p] == pm0[p] by {
                assert(pts.take(i + 1)[i as int] == pts[i as int]);
                assert(pts.take(i + 1).contains(pts[i as int]));
                assert(p != pts[i as int]);
                assert(!pts.take(i as int).contains(p)) by {
                    if pts.take(i as int).contains(p) {
                        let j = choose|j: int|
                            0 <= j < i && pts.take(i as int)[j] == p;
                        assert(pts.take(i + 1)[j] == p);
                        assert(pts.take(i + 1).contains(p));
                    }
                }
            }
        }
    }
    proof {
        assert(pts.take(points@.len() as int) =~= pts);
        assert forall|p: (int, int)| pts.contains(p) implies #[trigger] pixels_of(*image)[p]
            == rgba by {
            let j = choose|j: int| 0 <= j < pts.len() && pts[j] == p;
            assert(pixels_of(*image)[pts[j]] == rgba);
        }
    }
}

/// Computes the tile's average color: each channel is summed over the
/// tile's member pixels in a widened accumulator and divided, truncating,
/// by the pixel count.
fn calc_average_rgba_pixel(
    image: &PixelBuffer,
    image_segment_iterator: &ImageSegmentIterator,
) -> (r: Color)
    requires
        image_segment_iterator.segment_size >= 1,
        (image_segment_iterator.column_segment_number + 1) * image_segment_iterator.segment_size
            <= dims_of(*image).0,
        (image_segment_iterator.row_segment_number + 1) * image_segment_iterator.segment_size
            <= dims_of(*image).1,
    ensures
        r == segment_average(
            pixels_of(*image),
            image_segment_iterator.column_segment_number as int,
            image_segment_iterator.row_segment_number as int,
            image_segment_iterator.segment_size as int,
        ),
{
    let ghost pm = pixels_of(*image);
    let ghost col = image_segment_iterator.column_segment_number as int;
    let ghost row = image_segment_iterator.row_segment_number as int;
    let ghost size = image_segment_iterator.segment_size as int;
    let ghost pts = image_segment_iterator.points();

    let mut sum_red: u128 = 0;
    let mut sum_green: u128 = 0;
    let mut sum_blue: u128 = 0;
    let mut sum_alpha: u128 = 0;

    let points = image_segment_iterator.get_points();

    for i in 0..points.len()
        invariant
            image_segment_iterator.segment_size >= 1,
            (image_segment_iterator.column_segment_number + 1)
                * image_segment_iterator.segment_size <= dims_of(*image).0,
            (image_segment_iterator.row_segment_number + 1) * image_segment_iterator.segment_size
                <= dims_of(*image).1,
            col == image_segment_iterator.column_segment_number as int,
            row == image_segment_iterator.row_segment_number as int,
            size == image_segment_iterator.segment_size as int,
            pts == image_segment_iterator.points(),
            pm == pixels_of(*image),
            points@.len() == pts.len(),
            forall|j: int|
                0 <= j < points@.len() ==> ((#[trigger] points@[j]).x == pts[j].0 && points@[j].y
                    == pts[j].1),
            sum_red == channel_sum(pm, pts.take(i as int), 0),
            sum_green == channel_sum(pm, pts.take(i as int), 1),
            sum_blue == channel_sum(pm, pts.take(i as int), 2),
            sum_alpha == channel_sum(pm, pts.take(i as int), 3),
            sum_red <= 255 * i,
            sum_green <= 255 * i,
            sum_blue <= 255 * i,
            sum_alpha <= 255 * i,
    {
        let point = points[i];
        proof {
            assert(pts.contains(pts[i as int]));
            lemma_segment_points_contains(col, row, size, pts[i as int]);
        }
        let rgba_content = image.get_pixel(point.x, point.y);
        sum_red = sum_red + rgba_content.red as u128;
        sum_green = sum_green + rgba_content.green as u128;
        sum_blue = sum_blue + rgba_content.blue as u128;
        sum_alpha = sum_alpha + rgba_content.alpha as u128;
        proof {
            assert(pts.take(i + 1).drop_last() =~= pts.take(i as int));
            assert(pts.take(i + 1).last() == pts[i as int]);
        }
    }
    proof {
        assert(pts.take(points@.len() as int) =~= pts);
        let count = size * size;
        assert(size * size >= 1) by (nonlinear_arith)
            requires
                size >= 1,
        ;
        lemma_channel_sum_bounds(pm, pts, 0);
        lemma_channel_sum_bounds(pm, pts, 1);
        lemma_channel_sum_bounds(pm, pts, 2);
        lemma_channel_sum_bounds(pm, pts, 3);
        lemma_div_is_ordered(channel_sum(pm, pts, 0), 255 * count, count);
        lemma_div_is_ordered(channel_sum(pm, pts, 1), 255 * count, count);
        lemma_div_is_ordered(channel_sum(pm, pts, 2), 255 * count, count);
        lemma_div_is_ordered(channel_sum(pm, pts, 3), 255 * count, count);
        lemma_div_multiples_vanish(255, count);
        assert(count * 255 == 255 * count) by (nonlinear_arith);
        lemma_div_is_ordered(0, channel_sum(pm, pts, 0), count);
        lemma_div_is_ordered(0, channel_sum(pm, pts, 1), count);
        lemma_div_is_ordered(0, channel_sum(pm, pts, 2), count);
        lemma_div_is_ordered(0, channel_sum(pm, pts, 3), count);
    }
    let total_pixels = points.len() as u128;
    Color {
        red: (sum_red / total_pixels) as u8,
        green: (sum_green / total_pixels) as u8,
        blue: (sum_blue / total_pixels) as u8,
        alpha: (sum_alpha / total_pixels) as u8,
    }
}

/// Pixelizes a buffer whose dimensions the tile size is already known to
/// divide: every pixel ends up holding the average color of its tile,
/// computed over the original pixel values.
fn pixelize_no_validation(input: &mut PixelBuffer, tile_size: u32)
    requires
        segmentable(dims_of(*old(input)).0 as int, dims_of(*old(input)).1 as int, tile_size as int),
    ensures
        dims_of(*final(input)) == dims_of(*old(input)),
        forall|p: (int, int)|
            #[trigger] pixels_of(*final(input))[p] == pixelized(
                pixels_of(*old(input)),
                dims_of(*old(input)).0 as int,
                dims_of(*old(input)).1 as int,
                tile_size as int,
            )[p],
{
    let ghost pm0 = pixels_of(*input);
    let ghost w = dims_of(*input).0;
    let ghost h = dims_of(*input).1;
    let ghost size = tile_size as int;
    let ghost columns = w as int / size;
    let ghost rows = h as int / size;
    let ghost grid = segment_grid(w as int, h as int, size);
    let segments = split_image_by_segments(input, tile_size);
    for k in 0..segments.len()
        invariant
            segmentable(w as int, h as int, size),
            size == tile_size as int,
            columns == w as int / size,
            rows == h as int / size,
            grid == segment_grid(w as int, h as int, size),
            dims_of(*input) == (w, h),
            segments@.len() == grid.len(),
            forall|j: int|
                0 <= j < segments@.len() ==> {
                    &&& (#[trigger] segments@[j]).column_segment_number == grid[j].0
                    &&& segments@[j].row_segment_number == grid[j].1
                    &&& segments@[j].segment_size == tile_size
                },
            forall|p: (int, int)|
                in_bounds(p, (w, h)) && segment_index_of(p, size, columns) < k
                    ==> #[trigger] pixels_of(*input)[p] == segment_average(
                    pm0,
                    p.0 / size,
                    p.1 / size,
                    size,
                ),
            forall|p: (int, int)|
                in_bounds(p, (w, h)) && segment_index_of(p, size, columns) >= k
                    ==> #[trigger] pixels_of(*input)[p] == pm0[p],
            forall|p: (int, int)|
                !in_bounds(p, (w, h)) ==> #[trigger] pixels_of(*input)[p] == pm0[p],
    {
        let segment = segments[k];
        let ghost pm_before = pixels_of(*input);
        let ghost seg_col = segment.column_segment_number as int;
        let ghost seg_row = segment.row_segment_number as int;
        proof {
            assert(grid[k as int] == (
                (k as int) % columns,
                (k as int) / columns,
            ));
            assert(k as int == seg_row * columns + seg_col && 0 <= seg_col < columns && 0 <= seg_row
                < rows) by {
                assert(0 <= k < (rows * columns)) by {
                    assert(grid.len() == (rows * columns) as nat);
                }
                vstd::arithmetic::div_mod::lemma_div_pos_is_pos(w as int, size);
                vstd::arithmetic::div_mod::lemma_div_pos_is_pos(h as int, size);
                assert(columns >= 1) by (nonlinear_arith)
                    requires
                        0 <= (k as int) < rows * columns,
                        rows >= 0,
                        columns >= 0,
                ;
                lemma_fundamental_div_mod(k as int, columns);
                assert(0 <= (k as int) % columns < columns && 0 <= (k as int) / columns < rows)
                    by (nonlinear_arith)
                    requires
                        columns >= 1,
                        0 <= (k as int) < rows * columns,
                        k as int == columns * ((k as int) / columns) + (k as int) % columns,
                ;
                assert(seg_row * columns == columns * seg_row) by (nonlinear_arith);
            }
            assert((seg_col + 1) * size <= columns * size && (seg_row + 1) * size <= rows * size)
                by (nonlinear_arith)
                requires
                    size >= 1,
                    seg_col + 1 <= columns,
                    seg_row + 1 <= rows,
            ;
            lemma_fundamental_div_mod(w as int, size);
            lemma_fundamental_div_mod(h as int, size);
            assert(columns * size == w as int && rows * size == h as int) by (nonlinear_arith)
                requires
                    w as int == size * columns + (w as int) % size,
                    h as int == size * rows + (h as int) % size,
                    (w as int) % size == 0,
                    (h as int) % size == 0,
            ;
        }
        pixelize_segment(input, segment);
        proof {
            let seg_pts = segment.points();
            assert forall|p: (int, int)|
                in_bounds(p, (w, h)) && segment_index_of(p, size, columns) < k
                    + 1 implies #[trigger] pixels_of(*input)[p] == segment_average(
                pm0,
                p.0 / size,
                p.1 / size,
                size,
            ) by {
                lemma_pixel_in_grid(w as int, h as int, size, p);
                if seg_pts.contains(p) {
                    lemma_point_segment(seg_col, seg_row, size, p);
                    assert forall|q: (int, int)| #[trigger] seg_pts.contains(q) implies pm_before[q]
                        == pm0[q] by {
                        lemma_point_segment(seg_col, seg_row, size, q);
                        lemma_segment_points_contains(seg_col, seg_row, size, q);
                        assert(0 <= q.0 < w && 0 <= q.1 < h) by (nonlinear_arith)
                            requires
                                seg_col * size <= q.0 < (seg_col + 1) * size,
                                seg_row * size <= q.1 < (seg_row + 1) * size,
                                0 <= seg_col,
                                0 <= seg_row,
                                (seg_col + 1) * size <= w as int,
                                (seg_row + 1) * size <= h as int,
                                size >= 1,
                        ;
                        assert(segment_index_of(q, size, columns) == k as int);
                    }
                    lemma_segment_average_agree(pm_before, pm0, seg_col, seg_row, size);
                } else {
                    assert(segment_index_of(p, size, columns) != k as int) by {
                        if segment_index_of(p, size, columns) == k as int {
                            lemma_fundamental_div_mod_converse(
                                k as int,
                                columns,
                                p.1 / size,
                                p.0 / size,
                            );
                            assert(seg_pts.contains(p));
                        }
                    }
                }
            }
            assert forall|p: (int, int)|
                in_bounds(p, (w, h)) && segment_index_of(p, size, columns) >= k
                    + 1 implies #[trigger] pixels_of(*input)[p] == pm0[p] by {
                lemma_pixel_in_grid(w as int, h as int, size, p);
                assert(!seg_pts.contains(p)) by {
                    if seg_pts.contains(p) {
                        lemma_point_segment(seg_col, seg_row, size, p);
                        assert(segment_index_of(p, size, columns) == k as int);
                    }
                }
            }
            assert forall|p: (int, int)| !in_bounds(p, (w, h)) implies #[trigger] pixels_of(
                *input,
            )[p] == pm0[p] by {
                assert(!seg_pts.contains(p)) by {
                    if seg_pts.contains(p) {
                        lemma_segment_points_contains(seg_col, seg_row, size, p);
                        assert(0 <= p.0 < w && 0 <= p.1 < h) by (nonlinear_arith)
                            requires
                                seg_col * size <= p.0 < (seg_col + 1) * size,
                                seg_row * size <= p.1 < (seg_row + 1) * size,
                                0 <= seg_col,
                                0 <= seg_row,
                                (seg_col + 1) * size <= w as int,
                                (seg_row + 1) * size <= h as int,
                                size >= 1,
                        ;
                    }
                }
            }
        }
    }
    proof {
        assert forall|p: (int, int)| #[trigger] pixels_of(*input)[p] == pixelized(
            pm0,
            w as int,
            h as int,
            size,
        )[p] by {
            if in_bounds(p, (w, h)) {
                lemma_pixel_in_grid(w as int, h as int, size, p);
                assert(segment_index_of(p, size, columns) < segments@.len()) by {
                    assert(grid.len() == ((h as int / size) * (w as int / size)) as nat);
                }
            }
        }
    }
}

/// Pixelizes the buffer with square tiles of side `tile_size`: when the
/// size is at least one and divides both dimensions, every pixel is
/// replaced by the average color of its tile, computed over the original
/// pixel values; otherwise the buffer is left untouched and the validation
/// failure is returned.
pub fn pixelize(image: &mut PixelBuffer, tile_size: u32) -> (r: Result<(), ValidationError>)
    ensures
        dims_of(*final(image)) == dims_of(*old(image)),
        r is Ok <==> segmentable(
            dims_of(*old(image)).0 as int,
            dims_of(*old(image)).1 as int,
            tile_size as int,
        ),
        r matches Err(e) ==> e == (ValidationError {
            width: dims_of(*old(image)).0,
            height: dims_of(*old(image)).1,
            segment_size: tile_size,
        }) && pixels_of(*final(image)) == pixels_of(*old(image)),
        r is Ok ==> forall|p: (int, int)|
            #[trigger] pixels_of(*final(image))[p] == pixelized(
                pixels_of(*old(image)),
                dims_of(*old(image)).0 as int,
                dims_of(*old(image)).1 as int,
                tile_size as int,
            )[p],
{
    match validate(image, tile_size) {
        Some(e) => Result::Err(e),
        None => {
            pixelize_no_validation(image, tile_size);
            Result::Ok(())
        },
    }
}

} // verus!
