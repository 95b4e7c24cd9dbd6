use galla::cli::{parse_args, Cli};

fn args(v: &[&str]) -> Vec<String> {
    v.iter().map(|a| a.to_string()).collect()
}

fn run(v: &[&str]) -> (Option<String>, Option<String>, Vec<String>) {
    match parse_args(&args(v)) {
        Cli::Run { player, drag, paths } => (player, drag, paths),
        Cli::Help => panic!("help"),
    }
}

fn s(t: &str) -> Option<String> {
    Some(t.to_string())
}

#[test]
fn without_a_path_the_current_directory_is_meant() {
    assert_eq!(run(&[]), (None, None, args(&["."])));
    assert_eq!(run(&["--player", "vlc"]), (s("vlc"), None, args(&["."])));
}

#[test]
fn paths_keep_their_order() {
    assert_eq!(run(&["b", "a", "-x"]), (None, None, args(&["b", "a", "-x"])));
}

#[test]
fn options_may_stand_anywhere() {
    let expected = (s("mpv -q"), s("dd"), args(&["a", "b"]));
    assert_eq!(run(&["--player", "mpv -q", "--drag", "dd", "a", "b"]), expected);
    assert_eq!(run(&["a", "b", "--drag", "dd", "-p", "mpv -q"]), expected);
    assert_eq!(run(&["a", "-p", "mpv -q", "b", "--drag", "dd"]), expected);
}

#[test]
fn the_last_value_counts() {
    assert_eq!(run(&["-p", "a", "--player", "b"]).0, s("b"));
    assert_eq!(run(&["-p", "a", "--player"]).0, None);
    assert_eq!(run(&["--drag", "a", "--drag"]).1, None);
    assert_eq!(run(&["--player", "--help"]).0, s("--help"));
}

#[test]
fn help_is_asked_for() {
    for v in [["--help", "x"], ["a", "-h"]] {
        assert!(matches!(parse_args(&args(&v)), Cli::Help));
    }
}
