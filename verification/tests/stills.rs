use std::collections::hash_map::DefaultHasher;
use std::hash::{Hash, Hasher};

use galla::cache::{cache_dir, config_file, digest, mtime_secs, thumb_file_name, video_thumb_path};

fn b(s: &str) -> Option<Vec<u8>> {
    Some(s.as_bytes().to_vec())
}

#[test]
fn cache_directory_follows_the_environment() {
    assert_eq!(cache_dir(b("/xdg"), b("/home/u")), b"/xdg/galla".to_vec());
    assert_eq!(cache_dir(None, b("/home/u")), b"/home/u/.cache/galla".to_vec());
    assert_eq!(cache_dir(None, b("/home/u/")), b"/home/u/.cache/galla".to_vec());
    assert_eq!(cache_dir(None, None), b".cache/galla".to_vec());
    assert_eq!(cache_dir(b(""), b("/home/u")), b"galla".to_vec());
}

#[test]
fn configuration_file_follows_the_environment() {
    assert_eq!(config_file(b("/xdg"), None), b"/xdg/galla/config.toml".to_vec());
    assert_eq!(config_file(None, b("/home/u")), b"/home/u/.config/galla/config.toml".to_vec());
    assert_eq!(config_file(None, None), b".config/galla/config.toml".to_vec());
}

#[test]
fn modification_times_before_the_epoch_are_zero() {
    assert_eq!(mtime_secs(Some(1_700_000_000)), 1_700_000_000);
    assert_eq!(mtime_secs(Some(0)), 0);
    assert_eq!(mtime_secs(Some(-1)), 0);
    assert_eq!(mtime_secs(Some(i64::MIN)), 0);
    assert_eq!(mtime_secs(None), 0);
}

#[test]
fn digest_hashes_the_text_and_then_the_time() {
    for (text, mtime) in [("", 0u64), ("/v/a.mp4", 1), ("é", u64::MAX), ("x", 258)] {
        let mut h = DefaultHasher::new();
        text.hash(&mut h);
        mtime.to_le().hash(&mut h);
        assert_eq!(digest(text, mtime), h.finish());
    }
}

#[test]
fn still_names_are_sixteen_digits() {
    assert_eq!(thumb_file_name(0), b"0000000000000000.jpg".to_vec());
    assert_eq!(thumb_file_name(0xdead_beef), b"00000000deadbeef.jpg".to_vec());
    assert_eq!(thumb_file_name(u64::MAX), b"ffffffffffffffff.jpg".to_vec());
    for n in [1u64, 0x0123_4567_89ab_cdef, 1 << 63] {
        assert_eq!(thumb_file_name(n), format!("{n:016x}.jpg").into_bytes());
    }
}

#[test]
fn still_paths_change_with_the_video() {
    let dir = b"/c/galla";
    let a = video_thumb_path(dir, b"/v/a.mp4", 10);
    assert_eq!(a, video_thumb_path(dir, b"/v/a.mp4", 10));
    assert_ne!(a, video_thumb_path(dir, b"/v/a.mp4", 11));
    assert_ne!(a, video_thumb_path(dir, b"/v/b.mp4", 10));
    let expected = format!("/c/galla/{:016x}.jpg", digest("/v/a.mp4", 10));
    assert_eq!(a, expected.into_bytes());
    assert_eq!(galla::path::extension(&a), Some(b"jpg".to_vec()));
}

#[test]
fn still_paths_of_odd_names_hash_the_replaced_text() {
    let expected = format!("c/{:016x}.jpg", digest("v\u{fffd}.mp4", 3));
    assert_eq!(video_thumb_path(b"c", b"v\xff.mp4", 3), expected.into_bytes());
}
