//! Tile enumeration: the grid of square tiles covering an image, and the
//! member pixels of one tile. Both enumerations are row-major: the row
//! varies in the outer position, the column within a row.

use vstd::prelude::*;

use crate::buffer::{dims_of, PixelBuffer};

verus! {

/// A single pixel coordinate inside the buffer.
#[derive(Clone, Copy, PartialEq, Eq, Structural, Debug)]
pub struct Point {
    pub x: u32,
    pub y: u32,
}

/// One tile of the grid: its column and row index in the grid, and the
/// shared side length of all tiles.
#[derive(Clone, Copy, PartialEq, Eq, Structural, Debug)]
pub struct ImageSegmentIterator {
    pub column_segment_number: u32,
    pub row_segment_number: u32,
    pub segment_size: u32,
}

/// The member pixels of the tile at grid coordinate (column, row) with side
/// `size`, in row-major order: entry `i` is the pixel at column
/// `column * size + i % size` of row `row * size + i / size`.
pub open spec fn segment_points(column: int, row: int, size: int) -> Seq<(int, int)> {
    Seq::new((size * size) as nat, |i: int| (column * size + i % size, row * size + i / size))
}

/// The tile grid of a width × height image with tile side `size`, in
/// row-major order: entry `k` is the grid coordinate
/// (k % (width / size), k / (width / size)).
pub open spec fn segment_grid(width: int, height: int, size: int) -> Seq<(int, int)> {
    Seq::new(
        ((height / size) * (width / size)) as nat,
        |k: int| (k % (width / size), k / (width / size)),
    )
}

impl ImageSegmentIterator {
    /// Both edges of the tile stay within the `u32` coordinate space.
    pub open spec fn fits_u32(self) -> bool {
        &&& (self.column_segment_number + 1) * self.segment_size <= u32::MAX
        &&& (self.row_segment_number + 1) * self.segment_size <= u32::MAX
    }

    /// The member pixels of this tile.
    pub open spec fn points(self) -> Seq<(int, int)> {
        segment_points(
            self.column_segment_number as int,
            self.row_segment_number as int,
            self.segment_size as int,
        )
    }

    /// Lists the member pixels of this tile: exactly `points`, row by row.
    pub fn get_points(&self) -> (r: Vec<Point>)
        requires
            self.fits_u32(),
        ensures
            r@.len() == self.points().len(),
            forall|i: int|
                0 <= i < r@.len() ==> ((#[trigger] r@[i]).x == self.points()[i].0 && r@[i].y
                    == self.points()[i].1),
    {
        let size = self.segment_size;
        proof {
            assert((self.column_segment_number + 1) * self.segment_size
                == self.column_segment_number * self.segment_size + self.segment_size && (
            self.row_segment_number + 1) * self.segment_size == self.row_segment_number
                * self.segment_size + self.segment_size) by (nonlinear_arith);
        }
        let start_column = self.column_segment_number * size;
        let start_row = self.row_segment_number * size;
        let mut elements: Vec<Point> = Vec::new();
        for row in start_row..(start_row + size)
            invariant
                self.fits_u32(),
                size == self.segment_size,
                start_column == self.column_segment_number * size,
                start_row == self.row_segment_number * size,
                start_column + size <= u32::MAX,
                start_row + size <= u32::MAX,
                start_row <= row <= start_row + size,
                elements@.len() == (row - start_row) * size,
                forall|i: int|
                    0 <= i < elements@.len() ==> ((#[trigger] elements@[i]).x
                        == self.points()[i].0 && elements@[i].y == self.points()[i].1),
        {
            for column in start_column..(start_column + size)
                invariant
                    self.fits_u32(),
                    size == self.segment_size,
                    start_column == self.column_segment_number * size,
                    start_row == self.row_segment_number * size,
                    start_row <= row < start_row + size,
                    start_column <= column <= start_column + size,
                    elements@.len() == (row - start_row) * size + (column - start_column),
                    forall|i: int|
                        0 <= i < elements@.len() ==> ((#[trigger] elements@[i]).x
                            == self.points()[i].0 && elements@[i].y == self.points()[i].1),
            {
                elements.push(Point { x: column, y: row });
                proof {
                    let i = elements@.len() - 1;
                    assert(0 <= i < size * size) by (nonlinear_arith)
                        requires
                            i == (row - start_row) * size + (column - start_column),
                            0 <= row - start_row < size,
                            0 <= column - start_column < size,
                    ;
                    vstd::arithmetic::div_mod::lemma_fundamental_div_mod_converse(
                        i,
                        size as int,
                        row - start_row,
                        column - start_column,
                    );
                }
            }
            proof {
                assert((row - start_row) * size + size == (row + 1 - start_row) * size)
                    by (nonlinear_arith);
            }
        }
        proof {
            assert(elements@.len() == size * size);
        }
        elements
    }
}

/// Lists the tile grid of the image for tile side `tile_size`: exactly
/// `segment_grid`, row by row.
pub fn split_image_by_segments(input: &PixelBuffer, tile_size: u32) -> (r: Vec<
    ImageSegmentIterator,
>)
    requires
        tile_size >= 1,
    ensures
        r@.len() == segment_grid(
            dims_of(*input).0 as int,
            dims_of(*input).1 as int,
            tile_size as int,
        ).len(),
        forall|k: int|
            0 <= k < r@.len() ==> {
                let g = segment_grid(
                    dims_of(*input).0 as int,
                    dims_of(*input).1 as int,
                    tile_size as int,
                )[k];
                &&& (#[trigger] r@[k]).column_segment_number == g.0
                &&& r@[k].row_segment_number == g.1
                &&& r@[k].segment_size == tile_size
            },
{
    let columns = input.width() / tile_size;
    let rows = input.height() / tile_size;
    let ghost grid = segment_grid(
        dims_of(*input).0 as int,
        dims_of(*input).1 as int,
        tile_size as int,
    );
    let mut segments: Vec<ImageSegmentIterator> = Vec::new();
    proof {
        assert(0 * columns == 0) by (nonlinear_arith);
    }
    for row_segment_number in 0..rows
        invariant
            columns == dims_of(*input).0 as int / tile_size as int,
            rows == dims_of(*input).1 as int / tile_size as int,
            tile_size >= 1,
            grid == segment_grid(
                dims_of(*input).0 as int,
                dims_of(*input).1 as int,
                tile_size as int,
            ),
            segments@.len() == row_segment_number * columns,
            forall|k: int|
                0 <= k < segments@.len() ==> {
                    &&& (#[trigger] segments@[k]).column_segment_number == grid[k].0
                    &&& segments@[k].row_segment_number == grid[k].1
                    &&& segments@[k].segment_size == tile_size
                },
    {
        for column_segment_number in 0..columns
            invariant
                columns == dims_of(*input).0 as int / tile_size as int,
                rows == dims_of(*input).1 as int / tile_size as int,
                tile_size >= 1,
                row_segment_number < rows,
                grid == segment_grid(
                    dims_of(*input).0 as int,
                    dims_of(*input).1 as int,
                    tile_size as int,
                ),
                segments@.len() == row_segment_number * columns + column_segment_number,
                forall|k: int|
                    0 <= k < segments@.len() ==> {
                        &&& (#[trigger] segments@[k]).column_segment_number == grid[k].0
                        &&& segments@[k].row_segment_number == grid[k].1
                        &&& segments@[k].segment_size == tile_size
                    },
        {
            segments.push(
                ImageSegmentIterator {
                    column_segment_number,
                    row_segment_number,
                    segment_size: tile_size,
                },
            );
            proof {
                let k = segments@.len() - 1;
                assert(0 <= k < rows * columns) by (nonlinear_arith)
                    requires
                        k == row_segment_number * columns + column_segment_number,
                        0 <= row_segment_number < rows,
                        0 <= column_segment_number < columns,
                ;
                vstd::arithmetic::div_mod::lemma_fundamental_div_mod_converse(
                    k,
                    columns as int,
                    row_segment_number as int,
                    column_segment_number as int,
                );
            }
        }
        proof {
            assert(row_segment_number * columns + columns == (row_segment_number + 1) * columns)
                by (nonlinear_arith);
        }
    }
    proof {
        assert(segments@.len() == rows * columns);
    }
    segments
}

/// A pixel is a member of the tile at (column, row) exactly when each of
/// its coordinates lies in that tile's span of `size` consecutive values.
pub proof fn lemma_segment_points_contains(column: int, row: int, size: int, p: (int, int))
    requires
        size >= 1,
    ensures
        segment_points(column, row, size).contains(p) <==> (column * size <= p.0 < (column + 1)
            * size && row * size <= p.1 < (row + 1) * size),
{
    let pts = segment_points(column, row, size);
    if pts.contains(p) {
        let i = choose|i: int| 0 <= i < pts.len() && pts[i] == p;
        assert(0 <= i % size < size && 0 <= i / size < size) by (nonlinear_arith)
            requires
                size >= 1,
                0 <= i < size * size,
        ;
        assert(column * size <= p.0 < (column + 1) * size && row * size <= p.1 < (row + 1) * size)
            by (nonlinear_arith)
            requires
                p.0 == column * size + i % size,
                p.1 == row * size + i / size,
                0 <= i % size < size,
                0 <= i / size < size,
        ;
    }
    if column * size <= p.0 < (column + 1) * size && row * size <= p.1 < (row + 1) * size {
        let dx = p.0 - column * size;
        let dy = p.1 - row * size;
        let i = dy * size + dx;
        assert(0 <= dx < size && 0 <= dy < size) by (nonlinear_arith)
            requires
                dx == p.0 - column * size,
                dy == p.1 - row * size,
                column * size <= p.0 < (column + 1) * size,
                row * size <= p.1 < (row + 1) * size,
        ;
        assert(0 <= i < size * size) by (nonlinear_arith)
            requires
                i == dy * size + dx,
                0 <= dx < size,
                0 <= dy < size,
        ;
        vstd::arithmetic::div_mod::lemma_fundamental_div_mod_converse(i, size, dy, dx);
        assert(pts[i] == p);
        assert(pts.contains(p));
    }
}

/// Each member pixel of the tile at (column, row) has that tile as the one
/// its own coordinates select: integer division by the tile side recovers
/// the grid coordinate.
pub proof fn lemma_point_segment(column: int, row: int, size: int, p: (int, int))
    requires
        size >= 1,
        segment_points(column, row, size).contains(p),
    ensures
        p.0 / size == column,
        p.1 / size == row,
{
    lemma_segment_points_contains(column, row, size, p);
    assert(0 <= p.0 - column * size < size && 0 <= p.1 - row * size < size) by (nonlinear_arith)
        requires
            column * size <= p.0 < (column + 1) * size,
            row * size <= p.1 < (row + 1) * size,
    ;
    vstd::arithmetic::div_mod::lemma_fundamental_div_mod_converse(
        p.0,
        size,
        column,
        p.0 - column * size,
    );
    vstd::arithmetic::div_mod::lemma_fundamental_div_mod_converse(
        p.1,
        size,
        row,
        p.1 - row * size,
    );
}

} // verus!
