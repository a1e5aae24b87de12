use std::io::Cursor;

use run_from_ye::sprite::{sprite_from_bytes, sprite_from_rgba8};

fn png_bytes(width: u32, height: u32, rgba: Vec<u8>) -> Vec<u8> {
    let image = image::RgbaImage::from_raw(width, height, rgba).unwrap();
    let mut bytes = Vec::new();
    image
        .write_to(&mut Cursor::new(&mut bytes), image::ImageFormat::Png)
        .unwrap();
    bytes
}

#[test]
fn png_file_becomes_a_keyed_sprite() {
    // Red, then a nearly transparent pixel, then blue with alpha 16;
    // second row: green, white, black.
    let bytes = png_bytes(
        3,
        2,
        vec![
            255, 0, 0, 255, 1, 2, 3, 15, 0, 0, 255, 16, //
            0, 255, 0, 200, 255, 255, 255, 255, 0, 0, 0, 255,
        ],
    );
    let sprite = sprite_from_bytes(&bytes).expect("a decodable image");
    assert_eq!((sprite.width(), sprite.height()), (3, 2));
    assert_eq!(sprite.sample(0, 0, 3), Some(0xff0000));
    assert_eq!(sprite.sample(1, 0, 3), None);
    assert_eq!(sprite.sample(2, 0, 3), Some(0x0000ff));
    assert_eq!(sprite.sample(0, 2, 3), Some(0x00ff00));
    assert_eq!(sprite.sample(1, 2, 3), Some(0xffffff));
    assert_eq!(sprite.sample(2, 2, 3), Some(0x000000));
}

#[test]
fn bytes_that_are_no_image_give_no_sprite() {
    assert!(sprite_from_bytes(&[]).is_none());
    assert!(sprite_from_bytes(b"not an image at all").is_none());
    let mut truncated = png_bytes(2, 2, vec![9; 16]);
    truncated.truncate(20);
    assert!(sprite_from_bytes(&truncated).is_none());
}

#[test]
fn decoded_pixels_become_a_keyed_sprite() {
    let sprite = sprite_from_rgba8(2, 1, &[1, 2, 3, 255, 9, 9, 9, 0]).unwrap();
    assert_eq!((sprite.width(), sprite.height()), (2, 1));
    assert_eq!(sprite.sample(0, 0, 2), Some(0x010203));
    assert_eq!(sprite.sample(1, 0, 2), None);
}

#[test]
fn decoded_pixels_of_the_wrong_shape_give_no_sprite() {
    assert!(sprite_from_rgba8(0, 1, &[]).is_none());
    assert!(sprite_from_rgba8(1, 0, &[]).is_none());
    assert!(sprite_from_rgba8(1, 1, &[1, 2, 3]).is_none());
    assert!(sprite_from_rgba8(1, 1, &[1, 2, 3, 4, 5]).is_none());
    assert!(sprite_from_rgba8(0x8000_0000, 1, &[1, 2, 3, 4]).is_none());
}
