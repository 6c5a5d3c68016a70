use pixelizer::buffer::PixelBuffer;
use pixelizer::segments::{split_image_by_segments, ImageSegmentIterator, Point};

#[test]
fn should_properly_split_image_by_segments() {
    let image = PixelBuffer::new(10, 10);
    let segments = split_image_by_segments(&image, 5);
    assert_eq!(
        vec![
            ImageSegmentIterator {
                column_segment_number: 0,
                row_segment_number: 0,
                segment_size: 5
            },
            ImageSegmentIterator {
                column_segment_number: 1,
                row_segment_number: 0,
                segment_size: 5
            },
            ImageSegmentIterator {
                column_segment_number: 0,
                row_segment_number: 1,
                segment_size: 5
            },
            ImageSegmentIterator {
                column_segment_number: 1,
                row_segment_number: 1,
                segment_size: 5
            }
        ],
        segments
    )
}

#[test]
fn segment_should_return_all_points() {
    let segment_iterator = ImageSegmentIterator {
        column_segment_number: 2,
        row_segment_number: 2,
        segment_size: 3,
    };
    assert_eq!(
        vec![
            Point { x: 6, y: 6 },
            Point { x: 7, y: 6 },
            Point { x: 8, y: 6 },
            Point { x: 6, y: 7 },
            Point { x: 7, y: 7 },
            Point { x: 8, y: 7 },
            Point { x: 6, y: 8 },
            Point { x: 7, y: 8 },
            Point { x: 8, y: 8 }
        ],
        segment_iterator.get_points()
    );
}

#[test]
fn full_image_tile_size_yields_one_segment() {
    let image = PixelBuffer::new(10, 10);
    let segments = split_image_by_segments(&image, 10);
    assert_eq!(
        vec![ImageSegmentIterator {
            column_segment_number: 0,
            row_segment_number: 0,
            segment_size: 10
        }],
        segments
    );
}

#[test]
fn segments_of_non_square_image_cover_the_grid() {
    let image = PixelBuffer::new(6, 4);
    let segments = split_image_by_segments(&image, 2);
    assert_eq!(segments.len(), 6);
    for (k, segment) in segments.iter().enumerate() {
        assert_eq!(segment.column_segment_number, (k % 3) as u32);
        assert_eq!(segment.row_segment_number, (k / 3) as u32);
        assert_eq!(segment.segment_size, 2);
    }
}
