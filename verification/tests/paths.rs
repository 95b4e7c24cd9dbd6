use std::cmp::Ordering;
use std::path::Path;

use galla::path::{extension, file_name, join, parse_path, parts_before};

/// All strings of up to `len` characters over a small alphabet.
fn corpus(len: usize) -> Vec<String> {
    let mut all = vec![String::new()];
    let mut last = vec![String::new()];
    for _ in 0..len {
        let mut next = Vec::new();
        for s in &last {
            for c in ['/', '.', 'a', 'B'] {
                next.push(format!("{s}{c}"));
            }
        }
        all.extend(next.iter().cloned());
        last = next;
    }
    all
}

fn text(v: Option<Vec<u8>>) -> Option<String> {
    v.map(|b| String::from_utf8(b).unwrap())
}

#[test]
fn file_names_are_those_of_std() {
    for s in corpus(6) {
        let expected = Path::new(&s).file_name().map(|n| n.to_str().unwrap().to_string());
        assert_eq!(text(file_name(s.as_bytes())), expected, "{s:?}");
    }
}

#[test]
fn extensions_are_those_of_std() {
    for s in corpus(6) {
        let expected = Path::new(&s).extension().map(|n| n.to_str().unwrap().to_string());
        assert_eq!(text(extension(s.as_bytes())), expected, "{s:?}");
    }
}

#[test]
fn joined_paths_are_those_of_std() {
    for a in corpus(3) {
        for b in corpus(3) {
            let expected = Path::new(&a).join(&b).to_str().unwrap().to_string();
            assert_eq!(String::from_utf8(join(a.as_bytes(), b.as_bytes())).unwrap(), expected);
        }
    }
}

#[test]
fn path_order_is_that_of_std() {
    let all = corpus(4);
    let parsed: Vec<_> = all.iter().map(|s| parse_path(s.as_bytes())).collect();
    for (i, a) in all.iter().enumerate() {
        for (j, b) in all.iter().enumerate() {
            let expected = Path::new(a).cmp(Path::new(b)) == Ordering::Less;
            assert_eq!(parts_before(&parsed[i], &parsed[j]), expected, "{a:?} {b:?}");
        }
    }
}

#[test]
fn joined_name_is_the_file_name() {
    assert_eq!(file_name(&join(b"some/dir/", b"x.jpg")), Some(b"x.jpg".to_vec()));
    assert_eq!(file_name(&join(b"", b"x.jpg")), Some(b"x.jpg".to_vec()));
    assert_eq!(join(b"/cache", b"galla"), b"/cache/galla".to_vec());
}

#[test]
fn hidden_files_have_no_extension() {
    assert_eq!(extension(b"/home/u/.png"), None);
    assert_eq!(extension(b"/home/u/.a.png"), Some(b"png".to_vec()));
    assert_eq!(extension(b"a."), Some(Vec::new()));
    assert_eq!(extension(b"a/.."), None);
}
