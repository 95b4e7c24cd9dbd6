use std::io::Cursor;

use galla::codec::{
    clipboard_image, color_image, full_picture, open_image, placeholder, shrink, to_color_image,
};
use galla::media::Kind;
use galla::thumb::thumb_of_file;
use image::{DynamicImage, ImageBuffer, ImageFormat, Luma, Rgb, RgbImage, Rgba, RgbaImage};

fn encoded(img: &DynamicImage, format: ImageFormat) -> Vec<u8> {
    let mut out = Cursor::new(Vec::new());
    img.write_to(&mut out, format).unwrap();
    out.into_inner()
}

/// Two by one: an opaque and a half transparent pixel.
fn sample() -> DynamicImage {
    let mut img = RgbaImage::new(2, 1);
    img.put_pixel(0, 0, Rgba([10, 20, 30, 255]));
    img.put_pixel(1, 0, Rgba([200, 100, 50, 128]));
    DynamicImage::ImageRgba8(img)
}

#[test]
fn opaque_and_transparent_pixels() {
    let p = color_image(1, 2, &[1, 2, 3, 255, 4, 5, 6, 0]);
    assert_eq!((p.width, p.height), (1, 2));
    assert_eq!(p.pixels, vec![(1, 2, 3, 255), (0, 0, 0, 0)]);
    assert!(color_image(0, 7, &[]).pixels.is_empty());
}

#[test]
fn half_transparent_pixels_are_multiplied() {
    let p = color_image(1, 1, &[200, 100, 50, 128]);
    let expected = egui::Color32::from_rgba_unmultiplied(200, 100, 50, 128).to_tuple();
    assert_eq!(p.pixels, vec![expected]);
    assert_ne!(p.pixels[0], (200, 100, 50, 128));
    assert_eq!(p.pixels[0].3, 128);
}

#[test]
fn images_become_pictures() {
    let p = to_color_image(&sample());
    assert_eq!((p.width, p.height), (2, 1));
    assert_eq!(p.pixels[0], (10, 20, 30, 255));
    assert_eq!(p.pixels[1], egui::Color32::from_rgba_unmultiplied(200, 100, 50, 128).to_tuple());
    let mut rgb = RgbImage::new(1, 1);
    rgb.put_pixel(0, 0, Rgb([7, 8, 9]));
    assert_eq!(to_color_image(&DynamicImage::ImageRgb8(rgb)).pixels, vec![(7, 8, 9, 255)]);
}

#[test]
fn the_extension_tells_the_format() {
    let png = encoded(&sample(), ImageFormat::Png);
    assert!(open_image(b"a.png", &png).is_some());
    assert!(open_image(b"a.PNG", &png).is_some());
    assert!(open_image(b"a.jpg", &png).is_none());
    assert!(open_image(b"a.svg", &png).is_none());
    assert!(open_image(b"a.", &png).is_none());
    assert!(open_image(b"a", &png).is_none());
    assert!(open_image(b"a.p\xffg", &png).is_none());
    assert!(open_image(b"a.png", b"no image").is_none());
    let bmp = encoded(&sample(), ImageFormat::Bmp);
    assert!(open_image(b"a.bmp", &bmp).is_some());
}

#[test]
fn full_pictures_keep_their_size() {
    let png = encoded(&sample(), ImageFormat::Png);
    let p = full_picture(b"x/a.png", &png).unwrap();
    assert_eq!((p.width, p.height), (2, 1));
    assert_eq!(p.pixels, to_color_image(&sample()).pixels);
    assert!(full_picture(b"x/a.png", &[]).is_none());
}

#[test]
fn the_clipboard_gets_plain_pixels() {
    let png = encoded(&sample(), ImageFormat::Png);
    let (w, h, rgba) = clipboard_image(b"a.png", &png).unwrap();
    assert_eq!((w, h), (2, 1));
    assert_eq!(rgba, vec![10, 20, 30, 255, 200, 100, 50, 128]);
    assert!(clipboard_image(b"a.gif", &png).is_none());
}

#[test]
fn thumbnails_fit_and_keep_their_proportions() {
    let wide = DynamicImage::ImageRgb8(RgbImage::from_pixel(400, 100, Rgb([1, 2, 3])));
    let t = shrink(&wide);
    assert_eq!((t.width, t.height), (192, 48));
    assert_eq!(t.pixels.len(), 192 * 48);
    assert!(t.pixels.iter().all(|p| *p == (1, 2, 3, 255)));
    for (w, h, expected) in [
        (1, 1000, (1, 192)),
        (2, 1, (192, 96)),
        (300, 200, (192, 128)),
        (1000, 333, (192, 64)),
        (77, 500, (30, 192)),
        (192, 192, (192, 192)),
        (3000, 7, (192, 1)),
    ] {
        let img = DynamicImage::ImageRgb8(RgbImage::from_pixel(w, h, Rgb([9, 9, 9])));
        let t = shrink(&img);
        assert_eq!((t.width, t.height), expected, "{w} by {h}");
    }
    let t = shrink(&DynamicImage::ImageRgb8(RgbImage::new(0, 0)));
    assert_eq!((t.width, t.height), (1, 1));
}

#[test]
fn images_of_any_size_have_thumbnails() {
    let gray = |w: u32, h: u32| {
        let all = ImageBuffer::<Luma<u16>, Vec<u16>>::from_pixel(w, h, Luma([65535]));
        DynamicImage::ImageLuma16(all)
    };
    // Up to as many wide samples as can be added up, and more.
    for (w, h, expected) in [
        (1, 12_000_000, (1, 192)),
        (60_000, 209, (192, 1)),
        (1, 13_000_000, (1, 192)),
        (60_000, 400, (192, 1)),
    ] {
        let t = shrink(&gray(w, h));
        assert_eq!((t.width, t.height), expected, "{w} by {h}");
        assert!(t.pixels.iter().all(|p| *p == (255, 255, 255, 255)), "{w} by {h}");
    }
    // Samples of eight bits leave more room.
    let narrow = DynamicImage::ImageLuma8(ImageBuffer::from_pixel(1, 13_000_000, Luma([255])));
    let t = shrink(&narrow);
    assert_eq!((t.width, t.height), (1, 192));
    assert!(t.pixels.iter().all(|p| *p == (255, 255, 255, 255)));
}

#[test]
fn wide_samples_are_narrowed_where_they_cannot_be_added_up() {
    // The left half is dark, the right half is light.
    let img = ImageBuffer::<Rgba<u16>, Vec<u16>>::from_fn(60_000, 400, |x, _| {
        if x < 30_000 {
            Rgba([257, 514, 771, 65535])
        } else {
            Rgba([25700, 51400, 60138, 65535])
        }
    });
    let t = shrink(&DynamicImage::ImageRgba16(img));
    assert_eq!((t.width, t.height), (192, 1));
    assert!(t.pixels[..96].iter().all(|p| *p == (1, 2, 3, 255)));
    assert!(t.pixels[96..].iter().all(|p| *p == (100, 200, 234, 255)));
}

#[test]
fn files_of_many_wide_samples_have_thumbnails() {
    let all = ImageBuffer::<Luma<u16>, Vec<u16>>::from_pixel(60_000, 230, Luma([65535]));
    let png = encoded(&DynamicImage::ImageLuma16(all), ImageFormat::Png);
    let t = thumb_of_file(b"p/q.png", &png).unwrap();
    assert_eq!((t.width, t.height), (192, 1));
    assert_eq!(t.pixels, vec![(255, 255, 255, 255); 192]);
}

#[test]
fn thumbnails_are_made_of_files() {
    let img = DynamicImage::ImageRgb8(RgbImage::from_pixel(300, 300, Rgb([40, 50, 60])));
    let png = encoded(&img, ImageFormat::Png);
    let t = thumb_of_file(b"p/q.png", &png).unwrap();
    assert_eq!((t.width, t.height), (192, 192));
    assert_eq!(t.pixels, shrink(&img).pixels);
    assert!(thumb_of_file(b"p/q.jpg", &png).is_none());
}

#[test]
fn placeholders_are_gray_squares() {
    for (kind, gray) in [(Kind::Image, 45), (Kind::Video, 30)] {
        let p = placeholder(kind);
        assert_eq!((p.width, p.height), (192, 192));
        assert_eq!(p.pixels.len(), 192 * 192);
        assert!(p.pixels.iter().all(|x| *x == (gray, gray, gray, 255)));
    }
}
