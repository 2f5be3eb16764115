use deskthing::bitmap::BinaryBitmap;
use deskthing::image::ImageBuffer;
use deskthing::grid::Grid;

#[test]
fn filled_has_one_rgba_quad_per_pixel() {
    let image = ImageBuffer::filled_with(3, 2, [255, 0, 0, 255]);

    assert_eq!(3, image.width());
    assert_eq!(2, image.height());
    assert_eq!(3 * 2 * 4, image.bytes().len());
    assert!(image.bytes().chunks(4).all(|px| px == [255, 0, 0, 255]));
}

#[test]
fn pixels_mut_visits_every_pixel_once() {
    let mut image = ImageBuffer::filled_with(4, 4, [0, 0, 0, 0]);

    let mut visited = 0;
    for pixel in image.pixels_mut() {
        *pixel = [1, 2, 3, 4];
        visited += 1;
    }

    assert_eq!(16, visited);
    assert!(image.bytes().chunks(4).all(|px| px == [1, 2, 3, 4]));
}

#[test]
fn rgba_bytes_read_back_as_written() {
    let bytes: Vec<u8> = (0..24).collect();
    let image = ImageBuffer::from_rgba8(bytes.clone(), 3, 2);

    assert_eq!(bytes.as_slice(), image.bytes());
    assert_eq!(3, image.width());
    assert_eq!(2, image.height());
}

#[test]
fn dark_pixels_become_obstacles() {
    // Two pixels per row: black and white, then just below and just above
    // half brightness (382 and 383 of 765).
    let bytes = vec![
        0, 0, 0, 255, //
        255, 255, 255, 255, //
        128, 127, 127, 0, //
        128, 128, 127, 0,
    ];
    let image = ImageBuffer::from_rgba8(bytes, 2, 2);
    let bitmap = BinaryBitmap::from_image(&image);

    assert_eq!(Some(&true), bitmap.grid.get(0, 0));
    assert_eq!(Some(&false), bitmap.grid.get(1, 0));
    assert_eq!(Some(&true), bitmap.grid.get(0, 1));
    assert_eq!(Some(&false), bitmap.grid.get(1, 1));
}

#[test]
fn the_example_bitmap_holds_a_rectangle_and_a_disc() {
    let bitmap = BinaryBitmap::example_bitmap(160, 120);

    assert_eq!(Some(&true), bitmap.grid.get(20, 20));
    assert_eq!(Some(&true), bitmap.grid.get(79, 59));
    assert_eq!(Some(&false), bitmap.grid.get(80, 59));
    assert_eq!(Some(&true), bitmap.grid.get(120, 80));
    assert_eq!(Some(&true), bitmap.grid.get(144, 80));
    assert_eq!(Some(&false), bitmap.grid.get(145, 80));
    assert_eq!(Some(&false), bitmap.grid.get(0, 0));
}

#[test]
fn a_blank_image_matches_the_bitmap_and_is_transparent() {
    let bitmap = BinaryBitmap::new(Grid::new(vec![true, false, false, true, true, false], 3, 2));
    let image = bitmap.blank_image();
    assert_eq!(3, image.width());
    assert_eq!(2, image.height());
    assert!(image.bytes().iter().all(|b| *b == 0));
}

#[test]
fn writing_a_bitmap_paints_set_cells_white_and_clear_cells_black() {
    let bitmap = BinaryBitmap::new(Grid::new(vec![true, false, false, true], 2, 2));
    let mut image = bitmap.blank_image();
    bitmap.write_to_image(&mut image);
    assert_eq!(
        &[
            255, 255, 255, 255, //
            0, 0, 0, 255, //
            0, 0, 0, 255, //
            255, 255, 255, 255,
        ][..],
        image.bytes()
    );
}

#[test]
fn a_bitmap_is_stored_as_one_byte_per_cell() {
    let bitmap = BinaryBitmap::new(Grid::new(vec![true, false, false, true, true, false], 3, 2));
    assert_eq!(vec![1, 0, 0, 1, 1, 0], bitmap.to_bytes());
}

#[test]
fn a_stored_bitmap_reads_back_the_same() {
    let cells = vec![false, true, true, false, true, true];
    let bitmap = BinaryBitmap::new(Grid::new(cells.clone(), 2, 3));
    let read = BinaryBitmap::from_bytes(&bitmap.to_bytes(), 2, 3);
    assert_eq!(2, read.grid.columns());
    assert_eq!(3, read.grid.rows());
    assert_eq!(&cells[..], read.grid.iter());
}

#[test]
fn any_nonzero_byte_reads_as_a_set_cell() {
    let read = BinaryBitmap::from_bytes(&[0, 1, 7, 255], 2, 2);
    assert_eq!(&[false, true, true, true][..], read.grid.iter());
}

#[test]
fn frames_are_read_back_to_back_and_a_partial_one_is_dropped() {
    let bytes = [1, 0, 0, 0, 0, 1, 1, 1, 1];
    let frames = BinaryBitmap::decode_frames(&bytes, 2, 2);
    assert_eq!(2, frames.len());
    assert_eq!(&[true, false, false, false][..], frames[0].grid.iter());
    assert_eq!(&[false, true, true, true][..], frames[1].grid.iter());
}
