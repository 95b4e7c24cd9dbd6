use galla::gallery::{
    notice_for, title, Action, GallaApp, Keys, Mode, Notice, Opened, ViewChange, NOTICE_MS,
};
use galla::layout::{columns, grid_rows};
use galla::media::{collect, Entry, Kind, Listing};

fn entries(kinds: &str) -> Vec<Entry> {
    kinds
        .chars()
        .enumerate()
        .map(|(i, c)| Entry {
            path: format!("d/{i}").into_bytes(),
            kind: if c == 'v' { Kind::Video } else { Kind::Image },
            thumb: false,
        })
        .collect()
}

fn app(kinds: &str) -> GallaApp {
    GallaApp::new(
        entries(kinds),
        vec!["mpv".to_string(), "-q".to_string()],
        vec!["dragon-drop".to_string(), "--and-exit".to_string()],
    )
}

fn keys(pressed: &str) -> Keys {
    let mut k = Keys::default();
    for word in pressed.split_whitespace() {
        match word {
            "left" => k.arrow_left = true,
            "right" => k.arrow_right = true,
            "up" => k.arrow_up = true,
            "down" => k.arrow_down = true,
            "h" => k.h = true,
            "j" => k.j = true,
            "k" => k.k = true,
            "l" => k.l = true,
            "enter" => k.enter = true,
            "esc" => k.escape = true,
            "q" => k.q = true,
            "y" => k.y = true,
            "Y" => {
                k.y = true;
                k.shift = true;
            }
            "d" => k.d = true,
            "?" => k.question = true,
            "0" => k.num0 = true,
            "+" => k.plus = true,
            "=" => k.equals = true,
            "-" => k.minus = true,
            other => panic!("no such key: {other}"),
        }
    }
    k
}

#[test]
fn a_single_image_starts_in_the_viewer() {
    assert_eq!(app("i").mode(), Mode::Single { idx: 0 });
    assert_eq!(app("v").mode(), Mode::Grid);
    assert_eq!(app("ii").mode(), Mode::Grid);
    let a = app("");
    assert_eq!((a.mode(), a.selected(), a.cols(), a.help()), (Mode::Grid, 0, 1, false));
}

#[test]
fn a_single_file_starts_by_its_kind() {
    let start = |path: &str| {
        let listings = [Listing::File { path: path.as_bytes().to_vec() }];
        GallaApp::new(collect(&listings), Vec::new(), Vec::new()).mode()
    };
    assert_eq!(start("/tmp/a.PNG"), Mode::Single { idx: 0 });
    assert_eq!(start("/tmp/a.mp4"), Mode::Grid);
    assert_eq!(start("/tmp/a.txt"), Mode::Grid);
}

#[test]
fn images_are_indexed() {
    assert_eq!(app("ivvii").image_indices(), vec![0, 3, 4]);
    assert!(app("vv").image_indices().is_empty());
}

#[test]
fn the_selection_moves_in_the_grid() {
    let mut a = app("iiiiiiiiii");
    a.grid_done(4, None, false);
    for (pressed, sel) in [
        ("right", 1),
        ("l", 2),
        ("down", 6),
        ("j", 9),
        ("right", 9),
        ("up", 5),
        ("k", 1),
        ("up", 1),
        ("left", 0),
        ("h", 0),
        ("right left", 0),
        ("down up", 0),
        ("down right", 5),
    ] {
        a.grid_keys(&keys(pressed));
        assert_eq!(a.selected(), sel, "{pressed}");
    }
}

#[test]
fn a_moved_selection_is_scrolled_to() {
    let mut a = app("ii");
    a.grid_keys(&keys("left"));
    assert!(!a.scroll_to_selected());
    a.grid_keys(&keys("right"));
    assert!(a.scroll_to_selected());
    a.grid_keys(&keys(""));
    assert!(a.scroll_to_selected());
    assert!(a.grid_done(7, None, false).is_none());
    assert!(!a.scroll_to_selected());
    assert_eq!(a.cols(), 7);
}

#[test]
fn an_empty_grid_answers_to_nothing() {
    let mut a = app("");
    let r = a.grid_keys(&keys("right down y d"));
    assert_eq!(a.selected(), 0);
    assert!(!r.quit && r.copy_path.is_none() && r.copy_image.is_none() && r.drag.is_none());
    assert!(a.grid_done(1, None, true).is_none());
    assert!(a.grid_keys(&keys("q")).quit);
}

#[test]
fn huge_column_counts_do_no_harm() {
    let mut a = app("iii");
    a.grid_done(usize::MAX, None, false);
    a.grid_keys(&keys("right down"));
    assert_eq!(a.selected(), 2);
    a.grid_done(0, None, false);
    a.grid_keys(&keys("up"));
    assert_eq!(a.selected(), 1);
}

#[test]
fn leaving_leads_back_and_then_out() {
    for key in ["esc", "q"] {
        let mut a = app("iii");
        a.open(2);
        let (r, v) = a.single_keys(&keys(&format!("{key} y right")));
        assert!(!r.quit && r.copy_path.is_none());
        assert_eq!(v, ViewChange::Replaced);
        assert_eq!((a.mode(), a.selected(), a.scroll_to_selected()), (Mode::Grid, 2, true));
        let r = a.grid_keys(&keys(&format!("{key} y")));
        assert!(r.quit && r.copy_path.is_none());
    }
}

#[test]
fn entries_are_opened() {
    let mut a = app("iv");
    assert!(matches!(a.grid_done(2, Some(0), false), Some(Opened::Viewer)));
    assert_eq!((a.mode(), a.selected()), (Mode::Single { idx: 0 }, 0));
    a.single_keys(&keys("esc"));
    match a.grid_done(2, Some(1), true) {
        Some(Opened::Player { launch: Some(l) }) => {
            assert_eq!((l.program, l.args, l.path), ("mpv".to_string(), vec!["-q".to_string()], b"d/1".to_vec()));
        }
        other => panic!("{other:?}"),
    }
    assert_eq!((a.mode(), a.selected()), (Mode::Grid, 1));
    a.grid_keys(&keys("left"));
    assert!(matches!(a.grid_done(2, None, true), Some(Opened::Viewer)));
    let mut a = GallaApp::new(entries("iv"), Vec::new(), Vec::new());
    assert!(matches!(a.open(1), Opened::Player { launch: None }));
}

#[test]
fn the_viewer_steps_over_videos_and_round() {
    let mut a = app("ivviv");
    a.open(0);
    a.single_keys(&keys("right"));
    assert_eq!(a.mode(), Mode::Single { idx: 3 });
    a.single_keys(&keys("l"));
    assert_eq!(a.mode(), Mode::Single { idx: 0 });
    a.single_keys(&keys("left"));
    assert_eq!(a.mode(), Mode::Single { idx: 3 });
    let (_, v) = a.single_keys(&keys("h"));
    assert_eq!((a.mode(), v), (Mode::Single { idx: 0 }, ViewChange::Replaced));
    let (_, v) = a.single_keys(&keys("left right up down j k"));
    assert_eq!((a.mode(), v), (Mode::Single { idx: 0 }, ViewChange::Adjusted { reset: false, zoom: 0 }));
}

#[test]
fn steps_of_any_size_wrap() {
    let mut a = app("iii");
    for (cur, delta, idx) in [(0, 4, 1), (0, -4, 2), (2, 3, 2), (1, -1, 0), (9, 1, 1)] {
        a.step_image(cur, delta);
        assert_eq!(a.mode(), Mode::Single { idx });
    }
    for delta in [isize::MIN, isize::MAX] {
        a.step_image(1, delta);
        let expected = (1i128 + delta as i128).rem_euclid(3) as usize;
        assert_eq!(a.mode(), Mode::Single { idx: expected });
    }
    let mut a = app("vv");
    a.step_image(0, 1);
    assert_eq!(a.mode(), Mode::Grid);
}

#[test]
fn stepping_back_undoes_a_step() {
    let mut a = app("iviivi");
    for delta in -9isize..=9 {
        a.step_image(2, delta);
        let Mode::Single { idx } = a.mode() else { panic!() };
        a.step_image(idx, -delta);
        assert_eq!(a.mode(), Mode::Single { idx: 2 });
    }
}

#[test]
fn steps_show_every_image_once_and_go_round() {
    let mut a = app("viivivi");
    a.open(2);
    let mut shown = Vec::new();
    for _ in 0..a.image_indices().len() {
        let Mode::Single { idx } = a.mode() else { panic!() };
        shown.push(idx);
        a.single_keys(&keys("right"));
    }
    assert_eq!(shown, vec![2, 4, 6, 1]);
    assert_eq!(a.mode(), Mode::Single { idx: 2 });
    a.single_keys(&keys("left"));
    a.single_keys(&keys("right"));
    assert_eq!(a.mode(), Mode::Single { idx: 2 });
}

#[test]
fn the_view_is_adjusted() {
    let mut a = app("i");
    for (pressed, reset, zoom) in
        [("0", true, 0), ("+", false, 1), ("=", false, 1), ("-", false, -1), ("+ -", false, 0), ("0 -", true, -1)]
    {
        let (_, v) = a.single_keys(&keys(pressed));
        assert_eq!(v, ViewChange::Adjusted { reset, zoom });
    }
}

#[test]
fn paths_and_images_are_copied() {
    let mut all = entries("iv");
    all[0].path = b"d/\xff.png".to_vec();
    let mut a = GallaApp::new(all, Vec::new(), Vec::new());
    assert_eq!(a.grid_keys(&keys("y")).copy_path, Some("d/\u{fffd}.png".to_string()));
    let r = a.grid_keys(&keys("Y"));
    assert_eq!((r.copy_path, r.copy_image, r.not_an_image), (None, Some(b"d/\xff.png".to_vec()), false));
    let r = a.grid_keys(&keys("right Y"));
    assert_eq!((r.copy_image, r.not_an_image), (None, true));
    a.open(0);
    let (r, _) = a.single_keys(&keys("y right"));
    assert_eq!(r.copy_path, Some("d/\u{fffd}.png".to_string()));
    let (r, _) = a.single_keys(&keys("Y"));
    assert_eq!(r.copy_image, Some(b"d/\xff.png".to_vec()));
}

#[test]
fn files_are_dragged() {
    let mut a = app("iv");
    let l = a.grid_keys(&keys("right d")).drag.unwrap();
    assert_eq!((l.program.as_str(), l.path), ("dragon-drop", b"d/1".to_vec()));
    assert_eq!(l.args, vec!["--and-exit"]);
    a.open(0);
    let (r, _) = a.single_keys(&keys("d"));
    assert_eq!(r.drag.unwrap().path, b"d/0".to_vec());
}

#[test]
fn help_is_toggled() {
    let mut a = app("ii");
    a.grid_keys(&keys("?"));
    assert!(a.help());
    a.open(1);
    a.single_keys(&keys(""));
    assert!(a.help());
    a.single_keys(&keys("?"));
    assert!(!a.help());
}

#[test]
fn arriving_thumbnails_are_noted() {
    let mut a = app("ivi");
    assert!(a.update(1));
    assert!(!a.update(3));
    assert_eq!(a.entries().iter().map(|e| e.thumb).collect::<Vec<_>>(), vec![false, true, false]);
    assert_eq!(a.entries()[1].path, b"d/1".to_vec());
    assert_eq!(a.entries()[1].kind, Kind::Video);
}

#[test]
fn notices_vanish() {
    let mut a = app("i");
    assert_eq!(a.notice_at(0), None);
    for (notice, text) in [
        (Notice::PathCopied, "Path copied"),
        (Notice::ImageCopied, "Image copied"),
        (Notice::CopyFailed, "Copy failed"),
        (Notice::NotAnImage, "Not an image"),
        (Notice::DragStarted, "Drag started"),
        (Notice::DragFailed, "Drag failed"),
    ] {
        a.notify(notice, 100);
        assert_eq!(a.notice_at(100).as_deref(), Some(text));
        assert_eq!(a.notice_at(99 + NOTICE_MS).as_deref(), Some(text));
        assert_eq!(a.notice_at(100 + NOTICE_MS), None);
    }
    a.notify(Notice::PathCopied, u64::MAX - 1);
    assert!(a.notice_at(u64::MAX - 1).is_some());
}

#[test]
fn outcomes_have_their_notices() {
    assert_eq!(notice_for(Action::CopyPath, true), Notice::PathCopied);
    assert_eq!(notice_for(Action::CopyPath, false), Notice::CopyFailed);
    assert_eq!(notice_for(Action::CopyImage, true), Notice::ImageCopied);
    assert_eq!(notice_for(Action::CopyImage, false), Notice::CopyFailed);
    assert_eq!(notice_for(Action::Drag, true), Notice::DragStarted);
    assert_eq!(notice_for(Action::Drag, false), Notice::DragFailed);
}

#[test]
fn viewer_keys_do_nothing_in_the_grid() {
    let mut a = app("ii");
    let (r, _) = a.single_keys(&keys("y d right"));
    assert!(r.copy_path.is_none() && r.drag.is_none());
    assert_eq!((a.mode(), a.selected()), (Mode::Grid, 0));
}

#[test]
fn titles_are_file_names() {
    assert_eq!(title(b"/a/b c.png"), "b c.png");
    assert_eq!(title(b"/a/\xff.png"), "\u{fffd}.png");
    assert_eq!(title(b".."), "");
}

#[test]
fn the_grid_has_rows() {
    assert_eq!(grid_rows(5, 2), vec![(0, 2), (2, 4), (4, 5)]);
    assert_eq!(grid_rows(4, 2), vec![(0, 2), (2, 4)]);
    assert_eq!(grid_rows(3, usize::MAX), vec![(0, 3)]);
    assert!(grid_rows(0, 3).is_empty());
    for n in 0..20usize {
        for cols in 1..6usize {
            let flat: Vec<usize> = grid_rows(n, cols).into_iter().flat_map(|(a, b)| a..b).collect();
            assert_eq!(flat, (0..n).collect::<Vec<_>>());
        }
    }
}

#[test]
fn there_is_always_a_column() {
    assert_eq!(columns(0, 5), 1);
    assert_eq!(columns(4, 5), 4);
    assert_eq!(columns(4, 0), 1);
}
