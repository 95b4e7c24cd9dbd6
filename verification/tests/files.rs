use galla::media::{
    collect, ext_of, kind_of, kind_of_ext, sort_entries, DirItem, Entry, Kind, Listing,
};

fn item(path: &str, is_file: bool) -> DirItem {
    DirItem { path: path.as_bytes().to_vec(), is_file }
}

fn names(entries: &[Entry]) -> Vec<String> {
    entries.iter().map(|e| String::from_utf8(e.path.clone()).unwrap()).collect()
}

#[test]
fn every_known_extension_has_its_kind() {
    let images = [
        "jpg", "jpeg", "png", "gif", "bmp", "webp", "svg", "ico", "tiff", "tif", "heic", "heif",
        "avif", "jxl",
    ];
    let videos = [
        "mp4", "mkv", "webm", "mov", "avi", "wmv", "flv", "m4v", "mpg", "mpeg", "ts", "m2ts",
        "3gp", "ogv",
    ];
    for e in images {
        assert_eq!(kind_of_ext(e), Some(Kind::Image));
        assert_eq!(kind_of(format!("/x/a.{e}").as_bytes()), Some(Kind::Image));
    }
    for e in videos {
        assert_eq!(kind_of_ext(e), Some(Kind::Video));
        assert_eq!(kind_of(format!("a.b.{e}").as_bytes()), Some(Kind::Video));
    }
    for e in ["", "txt", "jp", "mp3", "JPG"] {
        assert_eq!(kind_of_ext(e), None);
    }
}

#[test]
fn the_case_of_an_extension_does_not_matter() {
    assert_eq!(ext_of(b"a.JPG"), Some("jpg".to_string()));
    assert_eq!(kind_of(b"a.JpG"), Some(Kind::Image));
    assert_eq!(kind_of(b"a.MKV"), kind_of(b"a.mkv"));
    // The Kelvin sign is an upper-case k.
    assert_eq!(kind_of("a.m\u{212a}v".as_bytes()), Some(Kind::Video));
    assert_eq!(ext_of("a.ÄÖ".as_bytes()), Some("äö".to_string()));
    // The same holds of letters among others, and of what is no text.
    assert_eq!(kind_of("a.M\u{212a}V".as_bytes()), kind_of("a.m\u{212a}v".as_bytes()));
    assert_eq!(ext_of("a.XΣ".as_bytes()), ext_of("a.xΣ".as_bytes()));
    assert_eq!(ext_of("a.ΑΣY".as_bytes()), ext_of("a.ΑΣy".as_bytes()));
    assert_eq!(ext_of(b"a.J\xff\xc3G\xe2\x82P"), ext_of(b"a.j\xff\xc3g\xe2\x82p"));
}

#[test]
fn extensions_that_are_not_text_are_replaced() {
    assert_eq!(ext_of(b"a.j\xffg"), Some("j\u{fffd}g".to_string()));
    assert_eq!(
        ext_of(b"a.\xe2\x82x\xc3\xa9\xffy"),
        Some("\u{fffd}x\u{e9}\u{fffd}y".to_string())
    );
    assert_eq!(kind_of(b"a.j\xffg"), None);
    assert_eq!(kind_of(b"\xff\xfe.png"), Some(Kind::Image));
}

#[test]
fn files_without_an_extension_are_no_media() {
    assert_eq!(ext_of(b"png"), None);
    assert_eq!(ext_of(b".png"), None);
    assert_eq!(kind_of(b"dir.png/"), Some(Kind::Image));
    assert_eq!(kind_of(b"a.png/.."), None);
}

#[test]
fn directories_are_listed_and_files_taken_as_they_are() {
    let listings = vec![
        Listing::File { path: b"z.mp4".to_vec() },
        Listing::Dir {
            items: vec![
                item("d/b.png", true),
                item("d/sub.png", false),
                item("d/a.mkv", true),
                item("d/notes.txt", true),
                item("d/B.png", true),
            ],
        },
        Listing::Other,
        Listing::File { path: b"readme".to_vec() },
        Listing::File { path: b"a.gif".to_vec() },
    ];
    let entries = collect(&listings);
    assert_eq!(names(&entries), vec!["a.gif", "d/B.png", "d/a.mkv", "d/b.png", "z.mp4"]);
    assert_eq!(entries[2].kind, Kind::Video);
    assert_eq!(entries[3].kind, Kind::Image);
    assert!(entries.iter().all(|e| !e.thumb));
    assert!(collect(&[]).is_empty());
}

#[test]
fn the_gallery_is_sorted_as_a_whole() {
    let file = |p: &str| Listing::File { path: p.as_bytes().to_vec() };
    assert_eq!(names(&collect(&[file("b.png"), file("a.png")])), vec!["a.png", "b.png"]);
    let dir = |items: &[&str]| Listing::Dir { items: items.iter().map(|p| item(p, true)).collect() };
    let got = collect(&[dir(&["y/1.png", "y/0.png"]), file("y/00.png"), dir(&["x/9.mp4", "x/8.mp4"])]);
    assert_eq!(names(&got), vec!["x/8.mp4", "x/9.mp4", "y/0.png", "y/00.png", "y/1.png"]);
}

#[test]
fn requests_add_up() {
    let file = |p: &str| Listing::File { path: p.as_bytes().to_vec() };
    let mut apart = names(&collect(&[file("b.png"), file("c.mp4")]));
    apart.extend(names(&collect(&[file("a.png"), file("b.png")])));
    apart.sort();
    let together = names(&collect(&[file("b.png"), file("c.mp4"), file("a.png"), file("b.png")]));
    assert_eq!(together, apart);
}

#[test]
fn sorting_is_that_of_std() {
    let mut paths: Vec<String> = Vec::new();
    let mut x: u64 = 7;
    for _ in 0..300 {
        x = x.wrapping_mul(6364136223846793005).wrapping_add(1442695040888963407);
        let n = (x >> 33) % 50;
        paths.push(match x >> 62 {
            0 => format!("d/f{n}.png"),
            1 => format!("d//f{n}.png"),
            2 => format!("d/./f{n}/x.png"),
            _ => format!("d.x/{n}.png"),
        });
    }
    let items = paths.iter().map(|p| item(p, true)).collect();
    let sorted = names(&collect(&[Listing::Dir { items }]));
    let mut expected: Vec<std::path::PathBuf> =
        paths.iter().map(|p| std::path::PathBuf::from(p)).collect();
    expected.sort();
    let expected: Vec<String> =
        expected.iter().map(|p| p.to_str().unwrap().to_string()).collect();
    assert_eq!(sorted, expected);
}

#[test]
fn paths_with_the_same_components_keep_their_order() {
    let entry = |p: &str| Entry { path: p.as_bytes().to_vec(), kind: Kind::Image, thumb: false };
    let sorted = sort_entries(vec![entry("d//a"), entry("d/a"), entry("d/./a"), entry("c")]);
    assert_eq!(names(&sorted), vec!["c", "d//a", "d/a", "d/./a"]);
}
