use ghostwriter::ink::{decode, row_ink_profile, LumaImage};

/// A white image with black pixels.
fn with_ink(width: u32, height: u32, ink: &[(u32, u32)]) -> LumaImage {
    let mut pixels = vec![255u8; (width * height) as usize];
    for (x, y) in ink {
        pixels[(y * width + x) as usize] = 0;
    }
    LumaImage { width, height, pixels }
}

fn png(image: &LumaImage) -> Vec<u8> {
    let buffer =
        image::GrayImage::from_raw(image.width, image.height, image.pixels.clone()).unwrap();
    let mut data = std::io::Cursor::new(Vec::new());
    buffer.write_to(&mut data, image::ImageFormat::Png).unwrap();
    data.into_inner()
}

#[test]
fn every_second_column_of_the_page_counts() {
    let ink = [(80, 0), (81, 0), (82, 0), (79, 0), (78, 0), (766, 1), (767, 1), (768, 1), (770, 1)];
    let image = with_ink(800, 3, &ink);
    assert_eq!(image.ink_profile(), vec![2, 1, 0]);
}

#[test]
fn ink_is_darker_than_80() {
    let image = LumaImage { width: 85, height: 1, pixels: {
        let mut pixels = vec![255u8; 85];
        pixels[80] = 79;
        pixels[82] = 80;
        pixels[84] = 0;
        pixels
    } };
    assert_eq!(image.ink_profile(), vec![2]);
}

#[test]
fn pages_have_1024_rows_at_most() {
    let image = with_ink(100, 1030, &[(90, 1023), (90, 1025)]);
    let profile = image.ink_profile();
    assert_eq!(profile.len(), 1024);
    assert_eq!(profile[1023], 1);
    assert_eq!(image.ink_bounds(), Some((1023, 1023)));
}

#[test]
fn narrow_images_have_no_page() {
    let image = with_ink(80, 2, &[(79, 0), (0, 1)]);
    assert_eq!(image.ink_profile(), vec![0, 0]);
    assert_eq!(image.ink_bounds(), None);
    let empty = with_ink(0, 0, &[]);
    assert!(empty.ink_profile().is_empty());
}

#[test]
fn a_page_full_of_ink_has_344_columns_of_it() {
    let image = LumaImage { width: 768, height: 2, pixels: vec![0; 768 * 2] };
    assert_eq!(image.ink_profile(), vec![344, 344]);
}

#[test]
fn bounds_are_the_first_and_last_row_with_ink() {
    let image = with_ink(100, 50, &[(90, 7), (91, 3), (92, 30), (10, 49)]);
    assert_eq!(image.ink_bounds(), Some((7, 30)));
}

#[test]
fn drawn_pixels_are_the_dark_half() {
    let image = LumaImage { width: 3, height: 2, pixels: vec![0, 127, 128, 255, 5, 200] };
    assert_eq!(image.drawn_pixels(), vec![vec![true, true, false], vec![false, true, false]]);
    let empty = LumaImage { width: 0, height: 7, pixels: vec![] };
    assert!(empty.drawn_pixels().is_empty());
}

#[test]
fn image_files_are_decoded_by_their_names() {
    let image = with_ink(90, 2, &[(80, 1), (84, 1)]);
    let data = png(&image);
    let decoded = decode("/tmp/probe.png", &data).unwrap();
    assert_eq!((decoded.width, decoded.height), (90, 2));
    assert_eq!(decoded.pixels, image.pixels);
    assert_eq!(row_ink_profile("a.PNG", &data).unwrap(), vec![0, 2]);
}

#[test]
fn colours_become_shades() {
    let mut buffer = image::RgbImage::new(3, 1);
    buffer.put_pixel(0, 0, image::Rgb([255, 255, 255]));
    buffer.put_pixel(1, 0, image::Rgb([0, 0, 0]));
    buffer.put_pixel(2, 0, image::Rgb([10, 200, 30]));
    let mut data = std::io::Cursor::new(Vec::new());
    buffer.write_to(&mut data, image::ImageFormat::Png).unwrap();
    let decoded = decode("x.png", &data.into_inner()).unwrap();
    assert_eq!(decoded.pixels, vec![255, 0, 147]);
}

#[test]
fn other_files_are_refused() {
    let data = png(&with_ink(90, 2, &[]));
    assert!(decode("probe.png", b"not an image").is_err());
    assert!(decode("probe.png", &data[..data.len() / 2]).is_err());
    assert!(decode("probe", &data).is_err());
    assert!(row_ink_profile("probe.txt", &data).is_err());
}
