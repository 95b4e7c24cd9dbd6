use std::io::Cursor;

use galla::cache::video_thumb_path;
use galla::codec::{Picture, THUMB};
use galla::media::Kind;
use galla::thumb::{make_thumb, thumb_or_placeholder, ThumbReply, ThumbStep};
use image::{DynamicImage, ImageFormat, Rgb, RgbImage};

fn png() -> Vec<u8> {
    let img = DynamicImage::ImageRgb8(RgbImage::from_pixel(20, 10, Rgb([1, 1, 1])));
    let mut out = Cursor::new(Vec::new());
    img.write_to(&mut out, ImageFormat::Png).unwrap();
    out.into_inner()
}

fn jpeg() -> Vec<u8> {
    let img = DynamicImage::ImageRgb8(RgbImage::from_pixel(32, 16, Rgb([90, 90, 90])));
    let mut out = Cursor::new(Vec::new());
    img.write_to(&mut out, ImageFormat::Jpeg).unwrap();
    out.into_inner()
}

fn picture(step: ThumbStep) -> Option<Picture> {
    match step {
        ThumbStep::Done { picture } => picture,
        other => panic!("not done: {other:?}"),
    }
}

#[test]
fn an_image_is_read_itself() {
    let step = make_thumb(b"a.png", Kind::Image, b"cache", 5);
    assert!(matches!(&step, ThumbStep::Load { source } if source == b"a.png"));
    let p = picture(step.answer(ThumbReply::Content(Some(png())))).unwrap();
    assert_eq!((p.width, p.height), (192, 96));
}

#[test]
fn an_unreadable_image_has_no_thumbnail() {
    let step = make_thumb(b"a.png", Kind::Image, b"cache", 5);
    assert!(picture(step.answer(ThumbReply::Content(None))).is_none());
    let step = make_thumb(b"a.png", Kind::Image, b"cache", 5);
    assert!(picture(step.answer(ThumbReply::Content(Some(vec![1, 2])))).is_none());
}

#[test]
fn a_cached_still_is_reused() {
    let still = video_thumb_path(b"cache", b"v.mp4", 5);
    let step = make_thumb(b"v.mp4", Kind::Video, b"cache", 5);
    assert!(matches!(&step, ThumbStep::Probe { still: s, .. } if *s == still));
    let step = step.answer(ThumbReply::Exists(true));
    assert!(matches!(&step, ThumbStep::Load { source } if *source == still));
    let p = picture(step.answer(ThumbReply::Content(Some(jpeg())))).unwrap();
    assert_eq!((p.width, p.height), (192, 96));
}

#[test]
fn a_missing_still_is_generated() {
    let still = video_thumb_path(b"/c/galla", b"/v/v.mp4", 5);
    let step = make_thumb(b"/v/v.mp4", Kind::Video, b"/c/galla", 5).answer(ThumbReply::Exists(false));
    let text = String::from_utf8(still.clone()).unwrap();
    match &step {
        ThumbStep::Generate { cache, program, args, still: s } => {
            assert_eq!(cache, b"/c/galla");
            assert_eq!(program, "ffmpegthumbnailer");
            let size = THUMB.to_string();
            assert_eq!(args, &vec!["-i", "/v/v.mp4", "-o", &text, "-s", &size]);
            assert_eq!(*s, still);
        }
        other => panic!("not generated: {other:?}"),
    }
    let step = step.answer(ThumbReply::Generated(true));
    assert!(matches!(&step, ThumbStep::Load { source } if *source == still));
}

#[test]
fn a_failed_still_is_discarded() {
    let still = video_thumb_path(b"c", b"v.mp4", 5);
    let step = make_thumb(b"v.mp4", Kind::Video, b"c", 5)
        .answer(ThumbReply::Exists(false))
        .answer(ThumbReply::Generated(false));
    assert!(matches!(&step, ThumbStep::Discard { still: s } if *s == still));
    assert!(picture(step.answer(ThumbReply::Discarded)).is_none());
}

#[test]
fn odd_replies_change_nothing() {
    let step = make_thumb(b"a.png", Kind::Image, b"c", 0).answer(ThumbReply::Exists(true));
    assert!(matches!(&step, ThumbStep::Load { source } if source == b"a.png"));
    let step = make_thumb(b"v.mp4", Kind::Video, b"c", 0).answer(ThumbReply::Discarded);
    assert!(matches!(step, ThumbStep::Probe { .. }));
    let step = ThumbStep::Done { picture: None }.answer(ThumbReply::Generated(true));
    assert!(matches!(step, ThumbStep::Done { picture: None }));
}

#[test]
fn a_placeholder_stands_in() {
    assert_eq!(thumb_or_placeholder(None, Kind::Video).pixels[0], (30, 30, 30, 255));
    let p = Picture { width: 1, height: 1, pixels: vec![(1, 2, 3, 4)] };
    let p = thumb_or_placeholder(Some(p), Kind::Image);
    assert_eq!((p.width, p.height, p.pixels), (1, 1, vec![(1, 2, 3, 4)]));
}
