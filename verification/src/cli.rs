//! The command line.

use vstd::prelude::*;

use crate::config::opt_text;
use crate::text::{same_text, texts};

verus! {

/// What the command line asks for.
#[derive(Debug)]
pub enum Cli {
    /// To print how the program is used.
    Help,
    /// To show the media files of some paths.
    Run { player: Option<String>, drag: Option<String>, paths: Vec<String> },
}

/// What the command line asks for, as mathematics.
pub enum CliModel {
    Help,
    Run { player: Option<Seq<char>>, drag: Option<Seq<char>>, paths: Seq<Seq<char>> },
}

impl View for Cli {
    type V = CliModel;

    open spec fn view(&self) -> CliModel {
        match *self {
            Cli::Help => CliModel::Help,
            Cli::Run { player, drag, paths } => CliModel::Run {
                player: opt_text(player),
                drag: opt_text(drag),
                paths: texts(paths@),
            },
        }
    }
}

/// The options that name a player.
pub open spec fn is_player_option(arg: Seq<char>) -> bool {
    arg == "--player"@ || arg == "-p"@
}

/// The option that names a drag-and-drop command.
pub open spec fn is_drag_option(arg: Seq<char>) -> bool {
    arg == "--drag"@
}

/// The options that ask for help.
pub open spec fn is_help_option(arg: Seq<char>) -> bool {
    arg == "--help"@ || arg == "-h"@
}

/// Whether an argument is a path and no option.
pub open spec fn is_path_arg(arg: Seq<char>) -> bool {
    !is_player_option(arg) && !is_drag_option(arg) && !is_help_option(arg)
}

/// The value of an option that stands first among `args`: the argument behind
/// it, if there is one.
pub open spec fn option_value(args: Seq<Seq<char>>) -> Option<Seq<char>> {
    if args.len() > 1 {
        Some(args[1])
    } else {
        None
    }
}

/// The arguments behind an option that stands first among `args`, and behind
/// its value.
pub open spec fn behind_option(args: Seq<Seq<char>>) -> Seq<Seq<char>> {
    if args.len() > 1 {
        args.skip(2)
    } else {
        args.skip(1)
    }
}

/// What the rest of a command line asks for, with what was read before it. The
/// last value of an option counts, a request for help ends the reading, and
/// without a path the current directory is meant.
pub open spec fn parsed(
    args: Seq<Seq<char>>,
    player: Option<Seq<char>>,
    drag: Option<Seq<char>>,
    paths: Seq<Seq<char>>,
) -> CliModel
    decreases args.len(),
{
    if args.len() == 0 {
        CliModel::Run {
            player,
            drag,
            paths: if paths.len() == 0 {
                seq!["."@]
            } else {
                paths
            },
        }
    } else if is_player_option(args[0]) {
        parsed(behind_option(args), option_value(args), drag, paths)
    } else if is_drag_option(args[0]) {
        parsed(behind_option(args), player, option_value(args), paths)
    } else if is_help_option(args[0]) {
        CliModel::Help
    } else {
        parsed(args.skip(1), player, drag, paths.push(args[0]))
    }
}

/// Reads the arguments of the command line, those behind the program's name.
pub fn parse_args(args: &[String]) -> (r: Cli)
    ensures
        r@ == parsed(texts(args@), None, None, seq![]),
{
    let ghost all = texts(args@);
    let mut player: Option<String> = None;
    let mut drag: Option<String> = None;
    let mut paths: Vec<String> = Vec::new();
    let mut i: usize = 0;
    assert(all.skip(0) =~= all);
    assert(texts(paths@) =~= seq![]);
    while i < args.len()
        invariant
            i <= args.len(),
            all == texts(args@),
            parsed(all, None, None, seq![]) == parsed(
                all.skip(i as int),
                opt_text(player),
                opt_text(drag),
                texts(paths@),
            ),
        decreases args.len() - i,
    {
        let arg = args[i].as_str();
        let ghost rest = all.skip(i as int);
        assert(rest[0] == arg@);
        assert(rest.skip(1) =~= all.skip(i + 1));
        proof {
            if i + 1 < args.len() {
                assert(rest[1] == args@[i + 1]@);
                assert(rest.skip(2) =~= all.skip(i + 2));
            }
        }
        if same_text(arg, "--player") || same_text(arg, "-p") {
            if i + 1 < args.len() {
                player = Some(args[i + 1].clone());
                i = i + 2;
            } else {
                player = None;
                i = i + 1;
            }
        } else if same_text(arg, "--drag") {
            if i + 1 < args.len() {
                drag = Some(args[i + 1].clone());
                i = i + 2;
            } else {
                drag = None;
                i = i + 1;
            }
        } else if same_text(arg, "--help") || same_text(arg, "-h") {
            return Cli::Help;
        } else {
            let ghost before = paths@;
            paths.push(args[i].clone());
            assert(texts(paths@) =~= texts(before).push(arg@));
            i = i + 1;
        }
    }
    if paths.is_empty() {
        paths.push(".".to_owned());
        assert(texts(paths@) =~= seq!["."@]);
    }
    Cli::Run { player, drag, paths }
}

/// Paths are collected in their order, wherever they stand.
proof fn lemma_paths_are_collected(
    plain: Seq<Seq<char>>,
    rest: Seq<Seq<char>>,
    player: Option<Seq<char>>,
    drag: Option<Seq<char>>,
    paths: Seq<Seq<char>>,
)
    requires
        forall|i: int| 0 <= i < plain.len() ==> is_path_arg(#[trigger] plain[i]),
    ensures
        parsed(plain + rest, player, drag, paths) == parsed(rest, player, drag, paths + plain),
    decreases plain.len(),
{
    if plain.len() == 0 {
        assert(plain + rest =~= rest);
        assert(paths + plain =~= paths);
    } else {
        assert(is_path_arg(plain[0]));
        assert((plain + rest)[0] == plain[0]);
        assert((plain + rest).skip(1) =~= plain.skip(1) + rest);
        assert forall|i: int| 0 <= i < plain.skip(1).len() implies is_path_arg(
            #[trigger] plain.skip(1)[i],
        ) by {
            assert(plain.skip(1)[i] == plain[i + 1]);
        }
        lemma_paths_are_collected(plain.skip(1), rest, player, drag, paths.push(plain[0]));
        assert(paths.push(plain[0]) + plain.skip(1) =~= paths + plain);
    }
}

/// Arguments that are no options are the paths, in their order; without any,
/// the current directory is meant.
pub proof fn law_plain_arguments_are_paths(plain: Seq<Seq<char>>)
    requires
        forall|i: int| 0 <= i < plain.len() ==> is_path_arg(#[trigger] plain[i]),
    ensures
        parsed(plain, None, None, seq![]) == (CliModel::Run {
            player: None,
            drag: None,
            paths: if plain.len() == 0 {
                seq!["."@]
            } else {
                plain
            },
        }),
{
    assert(plain + seq![] =~= plain);
    lemma_paths_are_collected(plain, seq![], None, None, seq![]);
    assert(seq![] + plain =~= plain);
}

/// It does not matter whether the options stand before the paths or behind
/// them, nor in which order they stand.
pub proof fn law_options_may_stand_anywhere(
    plain: Seq<Seq<char>>,
    player: Seq<char>,
    drag: Seq<char>,
)
    requires
        forall|i: int| 0 <= i < plain.len() ==> is_path_arg(#[trigger] plain[i]),
    ensures
        ({
            let p = seq!["--player"@, player];
            let d = seq!["--drag"@, drag];
            let none = Seq::<Seq<char>>::empty();
            let r = CliModel::Run {
                player: Some(player),
                drag: Some(drag),
                paths: if plain.len() == 0 {
                    seq!["."@]
                } else {
                    plain
                },
            };
            &&& parsed(p + d + plain, None, None, none) == r
            &&& parsed(plain + (p + d), None, None, none) == r
            &&& parsed(d + p + plain, None, None, none) == r
            &&& parsed(plain + (d + p), None, None, none) == r
        }),
{
    let p = seq!["--player"@, player];
    let d = seq!["--drag"@, drag];
    let none = Seq::<Seq<char>>::empty();
    reveal_strlit("--player");
    reveal_strlit("-p");
    reveal_strlit("--drag");
    assert(!is_player_option(d[0])) by {
        assert("--drag"@.len() == 6 && "--player"@.len() == 8 && "-p"@.len() == 2);
    }
    assert((p + d + plain).skip(2) =~= d + plain);
    assert((d + plain).skip(2) =~= plain);
    assert((d + p + plain).skip(2) =~= p + plain);
    assert((p + plain).skip(2) =~= plain);
    assert((p + d).skip(2) =~= d && d.skip(2) =~= none);
    assert((d + p).skip(2) =~= p && p.skip(2) =~= none);
    assert(none + plain =~= plain && plain + none =~= plain);
    reveal_with_fuel(parsed, 4);
    lemma_paths_are_collected(plain, none, Some(player), Some(drag), none);
    lemma_paths_are_collected(plain, p + d, None, None, none);
    lemma_paths_are_collected(plain, d + p, None, None, none);
}

/// A request for help behind some paths is answered, whatever follows it.
pub proof fn law_help_is_answered(plain: Seq<Seq<char>>, rest: Seq<Seq<char>>)
    requires
        forall|i: int| 0 <= i < plain.len() ==> is_path_arg(#[trigger] plain[i]),
    ensures
        parsed(plain + (seq!["--help"@] + rest), None, None, seq![]) is Help,
        parsed(plain + (seq!["-h"@] + rest), None, None, seq![]) is Help,
{
    reveal_strlit("--player");
    reveal_strlit("-p");
    reveal_strlit("--drag");
    reveal_strlit("--help");
    reveal_strlit("-h");
    assert("--help"@[2] == 'h' && "--drag"@[2] == 'd');
    assert("-h"@[1] == 'h' && "-p"@[1] == 'p');
    lemma_paths_are_collected(plain, seq!["--help"@] + rest, None, None, seq![]);
    lemma_paths_are_collected(plain, seq!["-h"@] + rest, None, None, seq![]);
}

/// Of an option that is given twice the last value counts.
pub proof fn law_last_value_counts(
    first: Seq<char>,
    last: Seq<char>,
    rest: Seq<Seq<char>>,
    player: Option<Seq<char>>,
    drag: Option<Seq<char>>,
    paths: Seq<Seq<char>>,
)
    ensures
        parsed(seq!["--player"@, first] + (seq!["--player"@, last] + rest), player, drag, paths)
            == parsed(seq!["--player"@, last] + rest, player, drag, paths),
        parsed(seq!["--drag"@, first] + (seq!["--drag"@, last] + rest), player, drag, paths)
            == parsed(seq!["--drag"@, last] + rest, player, drag, paths),
{
    reveal_strlit("--player");
    reveal_strlit("-p");
    reveal_strlit("--drag");
    let p = seq!["--player"@, last] + rest;
    let d = seq!["--drag"@, last] + rest;
    assert("--drag"@.len() == 6 && "--player"@.len() == 8 && "-p"@.len() == 2);
    assert((seq!["--player"@, first] + p).skip(2) =~= p);
    assert((seq!["--drag"@, first] + d).skip(2) =~= d);
    assert(p.skip(2) =~= rest && d.skip(2) =~= rest);
    reveal_with_fuel(parsed, 3);
}

/// The arguments are read one by one. An option takes the argument behind it as
/// its value, whatever that is, and loses its value where none follows; a
/// request for help ends the reading; everything else is a path.
pub proof fn law_arguments_are_read_in_turn(
    arg: Seq<char>,
    rest: Seq<Seq<char>>,
    player: Option<Seq<char>>,
    drag: Option<Seq<char>>,
    paths: Seq<Seq<char>>,
)
    ensures
        parsed(seq!["--player"@, arg] + rest, player, drag, paths) == parsed(
            rest,
            Some(arg),
            drag,
            paths,
        ),
        parsed(seq!["-p"@, arg] + rest, player, drag, paths) == parsed(
            rest,
            Some(arg),
            drag,
            paths,
        ),
        parsed(seq!["--drag"@, arg] + rest, player, drag, paths) == parsed(
            rest,
            player,
            Some(arg),
            paths,
        ),
        parsed(seq!["--player"@], player, drag, paths) == parsed(seq![], None, drag, paths),
        parsed(seq!["-p"@], player, drag, paths) == parsed(seq![], None, drag, paths),
        parsed(seq!["--drag"@], player, drag, paths) == parsed(seq![], player, None, paths),
        parsed(seq!["--help"@] + rest, player, drag, paths) is Help,
        parsed(seq!["-h"@] + rest, player, drag, paths) is Help,
        arg != "--player"@ && arg != "-p"@ && arg != "--drag"@ && arg != "--help"@ && arg != "-h"@
            ==> parsed(seq![arg] + rest, player, drag, paths) == parsed(
            rest,
            player,
            drag,
            paths.push(arg),
        ),
        paths.len() > 0 ==> parsed(seq![], player, drag, paths) == (CliModel::Run {
            player,
            drag,
            paths,
        }),
        parsed(seq![], player, drag, seq![]) == (CliModel::Run { player, drag, paths: seq!["."@] }),
{
    reveal_strlit("--player");
    reveal_strlit("-p");
    reveal_strlit("--drag");
    reveal_strlit("--help");
    reveal_strlit("-h");
    assert("--drag"@.len() == 6 && "--player"@.len() == 8 && "-p"@.len() == 2);
    assert("--help"@.len() == 6 && "-h"@.len() == 2);
    assert("--help"@[2] == 'h' && "--drag"@[2] == 'd');
    assert("-h"@[1] == 'h' && "-p"@[1] == 'p');
    assert((seq!["--player"@, arg] + rest).skip(2) =~= rest);
    assert((seq!["-p"@, arg] + rest).skip(2) =~= rest);
    assert((seq!["--drag"@, arg] + rest).skip(2) =~= rest);
    assert((seq![arg] + rest).skip(1) =~= rest);
    assert(seq!["--player"@].skip(1) =~= seq![]);
    assert(seq!["-p"@].skip(1) =~= seq![]);
    assert(seq!["--drag"@].skip(1) =~= seq![]);
    assert((seq!["--help"@] + rest)[0] == "--help"@);
    assert((seq!["-h"@] + rest)[0] == "-h"@);
}

} // verus!
