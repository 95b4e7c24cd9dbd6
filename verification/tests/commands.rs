use galla::config::{config_drag, config_player, config_value, launch, resolve_drag, resolve_player};

fn s(t: &str) -> Option<String> {
    Some(t.to_string())
}

#[test]
fn configured_player_is_read() {
    assert_eq!(config_player(s("player = \"mpv --loop-file=no\"")), s("mpv --loop-file=no"));
    assert_eq!(config_player(s("  player='vlc'  \r\n")), s("vlc"));
    assert_eq!(config_player(s("player = mpv -fs\n")), s("mpv -fs"));
    assert_eq!(config_player(None), None);
}

#[test]
fn configured_drag_is_read() {
    assert_eq!(
        config_drag(s("player = \"x\"\ndrag = \"dragon-drop --and-exit\"")),
        s("dragon-drop --and-exit")
    );
    assert_eq!(config_drag(s("player = x")), None);
}

#[test]
fn lines_without_a_value_are_passed_over() {
    let text = "# comment\nplayer\nplayer =\nplayer = \"\"\nplayers = no\nplayer = 'ok'\nplayer = late";
    assert_eq!(config_value(text, "player"), s("ok"));
    assert_eq!(config_value("player_x = 1\n#player = 2", "player"), None);
    assert_eq!(config_value("", "player"), None);
}

#[test]
fn quotes_and_spaces_are_trimmed_around_the_value() {
    assert_eq!(config_value("\tplayer\t=\t'\"a b\"'\t", "player"), s("a b"));
    assert_eq!(config_value("player = \" a \"", "player"), s(" a "));
    assert_eq!(config_value("player == x", "player"), s("= x"));
    assert_eq!(config_value("player = \"a\" # b", "player"), s("a\" # b"));
}

#[test]
fn most_specific_player_wins() {
    let text = s("player = cfg -c");
    assert_eq!(resolve_player(s("cli  -a"), s("env"), text.clone()), vec!["cli", "-a"]);
    assert_eq!(resolve_player(None, s("env -b"), text.clone()), vec!["env", "-b"]);
    assert_eq!(resolve_player(None, None, text), vec!["cfg", "-c"]);
    assert_eq!(resolve_player(None, None, s("nothing")), vec!["mpv"]);
    assert_eq!(resolve_player(None, None, None), vec!["mpv"]);
}

#[test]
fn a_blank_command_means_the_default() {
    assert_eq!(resolve_player(s("  "), s("env"), None), vec!["mpv"]);
    assert_eq!(resolve_player(None, s(""), s("player = x")), vec!["mpv"]);
    assert_eq!(resolve_drag(s("\t"), None, None), vec!["dragon-drop", "--and-exit"]);
}

#[test]
fn most_specific_drag_wins() {
    let text = s("drag = cfg");
    assert_eq!(resolve_drag(s("cli -x"), s("env"), text.clone()), vec!["cli", "-x"]);
    assert_eq!(resolve_drag(None, s("env"), text.clone()), vec!["env"]);
    assert_eq!(resolve_drag(None, None, text), vec!["cfg"]);
    assert_eq!(resolve_drag(None, None, None), vec!["dragon-drop", "--and-exit"]);
}

#[test]
fn the_path_is_the_last_argument() {
    let command = vec!["mpv".to_string(), "--loop".to_string(), "-q".to_string()];
    let l = launch(&command, b"/v/\xff.mp4").unwrap();
    assert_eq!(l.program, "mpv");
    assert_eq!(l.args, vec!["--loop", "-q"]);
    assert_eq!(l.path, b"/v/\xff.mp4".to_vec());
    assert!(launch(&[], b"/v/a.mp4").is_none());
}
