use pixelizer::buffer::{Color, PixelBuffer};
use pixelizer::pixelize;
use pixelizer::ValidationError;

fn rgba(red: u8, green: u8, blue: u8, alpha: u8) -> Color {
    Color {
        red,
        green,
        blue,
        alpha,
    }
}

#[test]
fn buffer_starts_zeroed_and_keeps_what_is_put() {
    let mut buffer = PixelBuffer::new(3, 7);
    assert_eq!(buffer.width(), 3);
    assert_eq!(buffer.height(), 7);
    assert_eq!(buffer.get_pixel(1, 2), rgba(0, 0, 0, 0));
    buffer.put_pixel(1, 2, rgba(9, 8, 7, 6));
    assert_eq!(buffer.get_pixel(1, 2), rgba(9, 8, 7, 6));
    assert_eq!(buffer.get_pixel(2, 2), rgba(0, 0, 0, 0));
    assert_eq!(buffer.get_pixel(1, 3), rgba(0, 0, 0, 0));
}

#[test]
fn tile_average_truncates_each_channel() {
    let mut buffer = PixelBuffer::new(2, 2);
    buffer.put_pixel(0, 0, rgba(130, 85, 60, 0));
    buffer.put_pixel(1, 0, rgba(110, 80, 50, 10));
    buffer.put_pixel(0, 1, rgba(90, 70, 50, 40));
    buffer.put_pixel(1, 1, rgba(70, 65, 40, 50));
    assert!(pixelize(&mut buffer, 2).is_ok());
    for y in 0..2 {
        for x in 0..2 {
            assert_eq!(buffer.get_pixel(x, y), rgba(100, 75, 50, 25));
        }
    }
}

#[test]
fn single_tile_gets_the_global_average() {
    let mut buffer = PixelBuffer::new(10, 10);
    let mut sums: [u32; 4] = [0, 0, 0, 0];
    for y in 0..10u32 {
        for x in 0..10u32 {
            let c = rgba(
                ((x * 37 + y * 91 + 13) % 256) as u8,
                ((x * 53 + y * 17 + 101) % 256) as u8,
                ((x * 71 + y * 29 + 229) % 256) as u8,
                ((x * 11 + y * 83 + 59) % 256) as u8,
            );
            sums[0] += c.red as u32;
            sums[1] += c.green as u32;
            sums[2] += c.blue as u32;
            sums[3] += c.alpha as u32;
            buffer.put_pixel(x, y, c);
        }
    }
    let average = rgba(
        (sums[0] / 100) as u8,
        (sums[1] / 100) as u8,
        (sums[2] / 100) as u8,
        (sums[3] / 100) as u8,
    );
    assert!(pixelize(&mut buffer, 10).is_ok());
    for y in 0..10 {
        for x in 0..10 {
            assert_eq!(buffer.get_pixel(x, y), average);
        }
    }
}

#[test]
fn tiles_are_averaged_independently() {
    let mut buffer = PixelBuffer::new(4, 2);
    buffer.put_pixel(0, 0, rgba(10, 0, 0, 255));
    buffer.put_pixel(1, 0, rgba(20, 0, 0, 255));
    buffer.put_pixel(0, 1, rgba(30, 0, 0, 255));
    buffer.put_pixel(1, 1, rgba(41, 0, 0, 255));
    buffer.put_pixel(2, 0, rgba(200, 4, 0, 0));
    buffer.put_pixel(3, 0, rgba(202, 5, 0, 0));
    buffer.put_pixel(2, 1, rgba(204, 6, 0, 0));
    buffer.put_pixel(3, 1, rgba(206, 7, 0, 0));
    assert!(pixelize(&mut buffer, 2).is_ok());
    for y in 0..2 {
        for x in 0..2 {
            assert_eq!(buffer.get_pixel(x, y), rgba(25, 0, 0, 255));
        }
        for x in 2..4 {
            assert_eq!(buffer.get_pixel(x, y), rgba(203, 5, 0, 0));
        }
    }
}

#[test]
fn pixelize_twice_equals_pixelize_once() {
    let mut once = PixelBuffer::new(6, 4);
    for y in 0..4u32 {
        for x in 0..6u32 {
            once.put_pixel(
                x,
                y,
                rgba(
                    ((x * 41 + y * 67 + 5) % 256) as u8,
                    ((x * 19 + y * 73 + 88) % 256) as u8,
                    ((x * 61 + y * 23 + 160) % 256) as u8,
                    ((x * 31 + y * 47 + 207) % 256) as u8,
                ),
            );
        }
    }
    assert!(pixelize(&mut once, 2).is_ok());
    let mut twice = PixelBuffer::new(6, 4);
    for y in 0..4 {
        for x in 0..6 {
            twice.put_pixel(x, y, once.get_pixel(x, y));
        }
    }
    assert!(pixelize(&mut twice, 2).is_ok());
    for y in 0..4 {
        for x in 0..6 {
            assert_eq!(once.get_pixel(x, y), twice.get_pixel(x, y));
        }
    }
}

#[test]
fn pixelize_rejects_non_divisible_size_and_leaves_pixels_alone() {
    let mut buffer = PixelBuffer::new(10, 10);
    buffer.put_pixel(3, 4, rgba(1, 2, 3, 4));
    let result = pixelize(&mut buffer, 3);
    assert_eq!(
        result,
        Err(ValidationError {
            width: 10,
            height: 10,
            segment_size: 3
        })
    );
    assert_eq!(buffer.get_pixel(3, 4), rgba(1, 2, 3, 4));
    assert_eq!(buffer.get_pixel(0, 0), rgba(0, 0, 0, 0));
}

#[test]
fn pixelize_rejects_zero_tile_size() {
    let mut buffer = PixelBuffer::new(10, 10);
    assert_eq!(
        pixelize(&mut buffer, 0),
        Err(ValidationError {
            width: 10,
            height: 10,
            segment_size: 0
        })
    );
}
