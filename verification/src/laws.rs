//! Laws of the transform, stated over the same spec functions that the
//! executable functions' contracts use and proved once for all inputs:
//! pixelizing twice is the same as pixelizing once, the tile grid partitions
//! the image exactly, and a tile side equal to a dimension is the boundary
//! of validity.

use vstd::prelude::*;

use crate::buffer::Color;
use crate::segments::{
    lemma_point_segment, lemma_segment_points_contains, segment_grid, segment_points,
};
use crate::validation::segmentable;
use crate::{
    channel, channel_sum, lemma_channel_sum_const, lemma_pixel_in_grid, pixelized,
    segment_average, segment_index_of,
};
use vstd::arithmetic::div_mod::{
    lemma_div_multiples_vanish, lemma_fundamental_div_mod, lemma_fundamental_div_mod_converse,
    lemma_small_mod,
};

verus! {

/// A tile of an already pixelized table is uniform, so averaging it again
/// returns the very color it holds: its tile average equals the average the
/// original table gave it.
proof fn lemma_uniform_segment_average(
    pm: Map<(int, int), Color>,
    width: int,
    height: int,
    size: int,
    column: int,
    row: int,
)
    requires
        segmentable(width, height, size),
        0 <= column < width / size,
        0 <= row < height / size,
    ensures
        segment_average(pixelized(pm, width, height, size), column, row, size) == segment_average(
            pm,
            column,
            row,
            size,
        ),
{
    let q = pixelized(pm, width, height, size);
    let pts = segment_points(column, row, size);
    let v = segment_average(pm, column, row, size);
    let count = size * size;
    lemma_fundamental_div_mod(width, size);
    lemma_fundamental_div_mod(height, size);
    assert((column + 1) * size <= (width / size) * size && (row + 1) * size <= (height / size)
        * size && (width / size) * size == size * (width / size) && (height / size) * size == size
        * (height / size)) by (nonlinear_arith)
        requires
            size >= 1,
            column + 1 <= width / size,
            row + 1 <= height / size,
    ;
    assert forall|i: int| 0 <= i < pts.len() implies q[#[trigger] pts[i]] == v by {
        assert(pts.contains(pts[i]));
        lemma_segment_points_contains(column, row, size, pts[i]);
        lemma_point_segment(column, row, size, pts[i]);
        assert(0 <= pts[i].0 < width && 0 <= pts[i].1 < height) by (nonlinear_arith)
            requires
                column * size <= pts[i].0 < (column + 1) * size,
                row * size <= pts[i].1 < (row + 1) * size,
                0 <= column,
                0 <= row,
                (column + 1) * size <= width,
                (row + 1) * size <= height,
                size >= 1,
        ;
    }
    lemma_channel_sum_const(q, pts, v, 0);
    lemma_channel_sum_const(q, pts, v, 1);
    lemma_channel_sum_const(q, pts, v, 2);
    lemma_channel_sum_const(q, pts, v, 3);
    assert(count >= 1) by (nonlinear_arith)
        requires
            size >= 1,
            count == size * size,
    ;
    lemma_div_multiples_vanish(channel(v, 0), count);
    lemma_div_multiples_vanish(channel(v, 1), count);
    lemma_div_multiples_vanish(channel(v, 2), count);
    lemma_div_multiples_vanish(channel(v, 3), count);
    assert(channel(v, 0) * count == count * channel(v, 0) && channel(v, 1) * count == count
        * channel(v, 1) && channel(v, 2) * count == count * channel(v, 2) && channel(v, 3) * count
        == count * channel(v, 3)) by (nonlinear_arith);
    assert(pts.len() == count);
    assert(segment_average(q, column, row, size) == v);
}

/// Idempotence: pixelizing an already pixelized table changes nothing, for
/// every pixel table and every tile size that divides both dimensions. Each
/// tile is uniform after the first pass, so the second pass computes the
/// color the tile already holds.
pub proof fn lemma_pixelize_idempotent(
    pm: Map<(int, int), Color>,
    width: int,
    height: int,
    size: int,
)
    requires
        segmentable(width, height, size),
    ensures
        pixelized(pixelized(pm, width, height, size), width, height, size) == pixelized(
            pm,
            width,
            height,
            size,
        ),
{
    let q = pixelized(pm, width, height, size);
    let qq = pixelized(q, width, height, size);
    assert forall|p: (int, int)| #[trigger] qq[p] == q[p] by {
        if 0 <= p.0 < width && 0 <= p.1 < height {
            lemma_pixel_in_grid(width, height, size, p);
            lemma_uniform_segment_average(pm, width, height, size, p.0 / size, p.1 / size);
        }
    }
    assert(qq =~= q);
}

/// Partition completeness, first half: every in-bounds pixel is a member of
/// exactly one enumerated tile, the one at its own grid position.
pub proof fn lemma_partition_no_overlap(width: int, height: int, size: int, p: (int, int))
    requires
        segmentable(width, height, size),
        0 <= p.0 < width,
        0 <= p.1 < height,
    ensures
        0 <= segment_index_of(p, size, width / size) < segment_grid(width, height, size).len(),
        ({
            let g = segment_grid(width, height, size)[segment_index_of(p, size, width / size)];
            segment_points(g.0, g.1, size).contains(p)
        }),
        forall|k: int|
            0 <= k < segment_grid(width, height, size).len() && k != segment_index_of(
                p,
                size,
                width / size,
            ) ==> !(#[trigger] segment_points(
                segment_grid(width, height, size)[k].0,
                segment_grid(width, height, size)[k].1,
                size,
            ).contains(p)),
{
    let columns = width / size;
    let grid = segment_grid(width, height, size);
    lemma_pixel_in_grid(width, height, size, p);
    assert forall|k: int|
        0 <= k < grid.len() && k != segment_index_of(p, size, columns) implies !(
    #[trigger] segment_points(grid[k].0, grid[k].1, size).contains(p)) by {
        let g = grid[k];
        if segment_points(g.0, g.1, size).contains(p) {
            assert(g == (k % columns, k / columns));
            lemma_point_segment(g.0, g.1, size, p);
            lemma_fundamental_div_mod(k, columns);
            assert((k / columns) * columns == columns * (k / columns)) by (nonlinear_arith);
            assert(segment_index_of(p, size, columns) == k);
        }
    }
}

/// Partition completeness, second half: no tile reaches outside the image;
/// every member pixel of every enumerated tile is in bounds.
pub proof fn lemma_partition_in_bounds(width: int, height: int, size: int, k: int)
    requires
        segmentable(width, height, size),
        0 <= width,
        0 <= height,
        0 <= k < segment_grid(width, height, size).len(),
    ensures
        forall|p: (int, int)|
            #[trigger] segment_points(
                segment_grid(width, height, size)[k].0,
                segment_grid(width, height, size)[k].1,
                size,
            ).contains(p) ==> 0 <= p.0 < width && 0 <= p.1 < height,
{
    let columns = width / size;
    let rows = height / size;
    let g = segment_grid(width, height, size)[k];
    vstd::arithmetic::div_mod::lemma_div_pos_is_pos(width, size);
    vstd::arithmetic::div_mod::lemma_div_pos_is_pos(height, size);
    assert(columns >= 1) by (nonlinear_arith)
        requires
            0 <= k < rows * columns,
            columns >= 0,
            rows >= 0,
    ;
    lemma_fundamental_div_mod(k, columns);
    assert(0 <= k % columns < columns && 0 <= k / columns < rows) by (nonlinear_arith)
        requires
            columns >= 1,
            0 <= k < rows * columns,
            k == columns * (k / columns) + k % columns,
    ;
    lemma_fundamental_div_mod(width, size);
    lemma_fundamental_div_mod(height, size);
    assert forall|p: (int, int)|
        #[trigger] segment_points(g.0, g.1, size).contains(p) implies 0 <= p.0 < width && 0 <= p.1
        < height by {
        lemma_segment_points_contains(g.0, g.1, size, p);
        assert(0 <= p.0 < width && 0 <= p.1 < height) by (nonlinear_arith)
            requires
                g.0 * size <= p.0 < (g.0 + 1) * size,
                g.1 * size <= p.1 < (g.1 + 1) * size,
                0 <= g.0 <= columns - 1,
                0 <= g.1 <= rows - 1,
                width == size * columns,
                height == size * rows,
                size >= 1,
        ;
    }
}

/// Boundary of validity: a tile side equal to both dimensions is valid and
/// yields a single tile, while a tile side larger than a positive dimension
/// is rejected.
pub proof fn lemma_tile_size_boundary(width: int, height: int, size: int)
    requires
        size >= 1,
    ensures
        width == size && height == size ==> segmentable(width, height, size) && segment_grid(
            width,
            height,
            size,
        ).len() == 1,
        1 <= width < size || 1 <= height < size ==> !segmentable(width, height, size),
{
    if width == size && height == size {
        lemma_fundamental_div_mod_converse(width, size, 1, 0);
        assert(segment_grid(width, height, size).len() == (1 * 1) as nat);
    }
    if 1 <= width < size {
        lemma_small_mod(width as nat, size as nat);
    }
    if 1 <= height < size {
        lemma_small_mod(height as nat, size as nat);
    }
}

} // verus!
