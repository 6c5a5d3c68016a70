use pixelizer::buffer::PixelBuffer;
use pixelizer::validation::{validate, ValidationError};

#[test]
fn perfectly_divisible_square_image_should_be_ok() {
    let image = PixelBuffer::new(10, 10);
    let error_option = validate(&image, 2);
    assert!(error_option.is_none());
}

#[test]
fn divisible_non_square_image_should_be_ok() {
    let image = PixelBuffer::new(10, 20);
    let error_option = validate(&image, 2);
    assert!(error_option.is_none());
}

#[test]
fn non_divisible_by_width_image_should_return_error() {
    let image = PixelBuffer::new(11, 10);
    let error_option = validate(&image, 2);
    assert!(error_option.is_some());
}

#[test]
fn non_divisible_by_height_image_should_return_error() {
    let image = PixelBuffer::new(10, 11);
    let error_option = validate(&image, 2);
    assert!(error_option.is_some());
}

#[test]
fn non_divisible_by_width_and_height_image_should_return_error() {
    let image = PixelBuffer::new(11, 11);
    let error_option = validate(&image, 2);
    assert!(error_option.is_some());
}

#[test]
fn zero_segment_size_should_return_error() {
    let image = PixelBuffer::new(10, 10);
    let error_option = validate(&image, 0);
    assert!(error_option.is_some());
}

#[test]
fn error_carries_dimensions_and_requested_size() {
    let image = PixelBuffer::new(11, 10);
    let error_option = validate(&image, 2);
    assert_eq!(
        error_option,
        Some(ValidationError {
            width: 11,
            height: 10,
            segment_size: 2
        })
    );
}

#[test]
fn constructor_packs_dimensions_and_size() {
    let error = ValidationError::image_cant_be_segmented(5, 6, 7);
    assert_eq!(
        error,
        ValidationError {
            width: 5,
            height: 6,
            segment_size: 7
        }
    );
}

#[test]
fn segment_size_equal_to_dimension_is_valid() {
    let image = PixelBuffer::new(10, 10);
    assert!(validate(&image, 10).is_none());
}

#[test]
fn segment_size_above_dimension_should_return_error() {
    let image = PixelBuffer::new(10, 10);
    assert!(validate(&image, 11).is_some());
}
