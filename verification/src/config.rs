//! The external commands: which ones are configured, and how a file is handed
//! to them.

use vstd::prelude::*;

use crate::path::copy_bytes;
use crate::pieces::{
    all_of, lemma_split_at_separator, lemma_split_without_separator, lemma_trim_around,
    lemma_trimmed_both, lemma_trimmed_front, split_where, trim_both, trim_front,
};
use crate::text::{
    after_prefix, law_prefix_and_rest, split_text, strip_prefix, texts, trim, trim_start, words,
    words_of, CharClass,
};

verus! {

/// The view of an optional string.
pub open spec fn opt_text(v: Option<String>) -> Option<Seq<char>> {
    match v {
        Some(s) => Some(s@),
        None => None,
    }
}

/// The value that a configuration line gives to `key`: what follows `key` and
/// an equals sign, without white space and quotes around it. An empty value is
/// none.
pub open spec fn line_value(line: Seq<char>, key: Seq<char>) -> Option<Seq<char>> {
    match after_prefix(trim_both(line, CharClass::Space.pred()), key) {
        Some(rest) => match after_prefix(trim_front(rest, CharClass::Space.pred()), "="@) {
            Some(value) => {
                let value = trim_both(
                    trim_both(value, CharClass::Space.pred()),
                    CharClass::Quote.pred(),
                );
                if value.len() > 0 {
                    Some(value)
                } else {
                    None
                }
            },
            None => None,
        },
        None => None,
    }
}

/// The value of the first line that gives one to `key`.
pub open spec fn first_value(lines: Seq<Seq<char>>, key: Seq<char>) -> Option<Seq<char>>
    decreases lines.len(),
{
    if lines.len() == 0 {
        None
    } else if line_value(lines[0], key) is Some {
        line_value(lines[0], key)
    } else {
        first_value(lines.skip(1), key)
    }
}

/// The value that a configuration text gives to `key`.
pub open spec fn config_value_of(text: Seq<char>, key: Seq<char>) -> Option<Seq<char>> {
    first_value(split_where(text, CharClass::LineFeed.pred()), key)
}

/// The value that a configuration line gives to `key`.
fn value_in_line(line: &str, key: &str) -> (r: Option<String>)
    ensures
        opt_text(r) == line_value(line@, key@),
{
    match strip_prefix(trim(line, CharClass::Space).as_str(), key) {
        Some(rest) => match strip_prefix(trim_start(rest.as_str(), CharClass::Space).as_str(), "=")
        {
            Some(value) => {
                let value = trim(
                    trim(value.as_str(), CharClass::Space).as_str(),
                    CharClass::Quote,
                );
                if value.as_str().is_empty() {
                    None
                } else {
                    Some(value)
                }
            },
            None => None,
        },
        None => None,
    }
}

/// The value that a configuration text gives to `key`: that of the first line
/// `key = value` whose value is not empty. The value may be quoted.
pub fn config_value(text: &str, key: &str) -> (r: Option<String>)
    ensures
        opt_text(r) == config_value_of(text@, key@),
{
    let lines = split_text(text, CharClass::LineFeed);
    let ghost all = texts(lines@);
    let mut i: usize = 0;
    assert(all.skip(0) =~= all);
    while i < lines.len()
        invariant
            i <= lines.len(),
            all == texts(lines@),
            all == split_where(text@, CharClass::LineFeed.pred()),
            first_value(all, key@) == first_value(all.skip(i as int), key@),
        decreases lines.len() - i,
    {
        assert(all.skip(i as int)[0] == lines@[i as int]@);
        assert(all.skip(i as int).skip(1) =~= all.skip(i + 1));
        let value = value_in_line(lines[i].as_str(), key);
        if value.is_some() {
            return value;
        }
        i = i + 1;
    }
    None
}

/// The player that a configuration text names.
pub fn config_player(text: Option<String>) -> (r: Option<String>)
    ensures
        opt_text(r) == configured(opt_text(text), "player"@),
{
    match text {
        Some(text) => config_value(text.as_str(), "player"),
        None => None,
    }
}

/// The drag-and-drop command that a configuration text names.
pub fn config_drag(text: Option<String>) -> (r: Option<String>)
    ensures
        opt_text(r) == configured(opt_text(text), "drag"@),
{
    match text {
        Some(text) => config_value(text.as_str(), "drag"),
        None => None,
    }
}

/// The value of `key` in a configuration that may be missing.
pub open spec fn configured(text: Option<Seq<char>>, key: Seq<char>) -> Option<Seq<char>> {
    match text {
        Some(text) => config_value_of(text, key),
        None => None,
    }
}

/// The most specific source of a command that says anything.
pub open spec fn first_source(
    cli: Option<Seq<char>>,
    env: Option<Seq<char>>,
    config: Option<Seq<char>>,
) -> Option<Seq<char>> {
    if cli is Some {
        cli
    } else if env is Some {
        env
    } else {
        config
    }
}

/// The words of the command that the sources resolve to: those of the most
/// specific source, or the default where no source says anything or the one
/// that does holds no word.
pub open spec fn resolved(
    cli: Option<Seq<char>>,
    env: Option<Seq<char>>,
    config: Option<Seq<char>>,
    default: Seq<Seq<char>>,
) -> Seq<Seq<char>> {
    match first_source(cli, env, config) {
        Some(raw) => if words_of(raw).len() > 0 {
            words_of(raw)
        } else {
            default
        },
        None => default,
    }
}

/// The default player.
pub open spec fn default_player() -> Seq<Seq<char>> {
    seq!["mpv"@]
}

/// The default drag-and-drop command.
pub open spec fn default_drag() -> Seq<Seq<char>> {
    seq!["dragon-drop"@, "--and-exit"@]
}

/// The words of the player command.
pub open spec fn player_command(
    cli: Option<Seq<char>>,
    env: Option<Seq<char>>,
    text: Option<Seq<char>>,
) -> Seq<Seq<char>> {
    resolved(cli, env, configured(text, "player"@), default_player())
}

/// The words of the drag-and-drop command.
pub open spec fn drag_command(
    cli: Option<Seq<char>>,
    env: Option<Seq<char>>,
    text: Option<Seq<char>>,
) -> Seq<Seq<char>> {
    resolved(cli, env, configured(text, "drag"@), default_drag())
}

/// The words of the most specific source that says anything, if there are any.
fn resolve(cli: Option<String>, env: Option<String>, config: Option<String>) -> (r: Vec<String>)
    ensures
        texts(r@) == match first_source(opt_text(cli), opt_text(env), opt_text(config)) {
            Some(raw) => words_of(raw),
            None => seq![],
        },
{
    let raw = if cli.is_some() {
        cli
    } else if env.is_some() {
        env
    } else {
        config
    };
    match raw {
        Some(raw) => words(raw.as_str()),
        None => {
            let none: Vec<String> = Vec::new();
            assert(texts(none@) =~= seq![]);
            none
        },
    }
}

/// Resolves the player command, most specific source first: the command line,
/// then `$GALLA_PLAYER`, then the configuration text, then `mpv`.
pub fn resolve_player(
    cli: Option<String>,
    env: Option<String>,
    config_text: Option<String>,
) -> (r: Vec<String>)
    ensures
        texts(r@) == resolved(
            opt_text(cli),
            opt_text(env),
            configured(opt_text(config_text), "player"@),
            default_player(),
        ),
        texts(r@) == player_command(opt_text(cli), opt_text(env), opt_text(config_text)),
{
    let parts = resolve(cli, env, config_player(config_text));
    if parts.is_empty() {
        let default: Vec<String> = vec!["mpv".to_owned()];
        assert(texts(default@) =~= default_player());
        default
    } else {
        assert(texts(parts@).len() > 0);
        parts
    }
}

/// Resolves the drag-and-drop command, most specific source first: the command
/// line, then `$GALLA_DRAG`, then the configuration text, then
/// `dragon-drop --and-exit`.
pub fn resolve_drag(
    cli: Option<String>,
    env: Option<String>,
    config_text: Option<String>,
) -> (r: Vec<String>)
    ensures
        texts(r@) == resolved(
            opt_text(cli),
            opt_text(env),
            configured(opt_text(config_text), "drag"@),
            default_drag(),
        ),
        texts(r@) == drag_command(opt_text(cli), opt_text(env), opt_text(config_text)),
{
    let parts = resolve(cli, env, config_drag(config_text));
    if parts.is_empty() {
        let default: Vec<String> = vec!["dragon-drop".to_owned(), "--and-exit".to_owned()];
        assert(texts(default@) =~= default_drag());
        default
    } else {
        assert(texts(parts@).len() > 0);
        parts
    }
}

/// A program to start on a file: its arguments, with the path of the file
/// behind them as the last one.
#[derive(Debug)]
pub struct Launch {
    pub program: String,
    pub args: Vec<String>,
    pub path: Vec<u8>,
}

/// A program to start on a file, as mathematics.
pub struct LaunchModel {
    pub program: Seq<char>,
    pub args: Seq<Seq<char>>,
    pub path: Seq<u8>,
}

impl View for Launch {
    type V = LaunchModel;

    open spec fn view(&self) -> LaunchModel {
        LaunchModel { program: self.program@, args: texts(self.args@), path: self.path@ }
    }
}

/// How a command is started on a file: its first word is the program, and there
/// is nothing to start without one.
pub open spec fn launch_of(command: Seq<Seq<char>>, path: Seq<u8>) -> Option<LaunchModel> {
    if command.len() == 0 {
        None
    } else {
        Some(LaunchModel { program: command[0], args: command.skip(1), path })
    }
}

/// The model of an optional launch.
pub open spec fn opt_launch(v: Option<Launch>) -> Option<LaunchModel> {
    match v {
        Some(l) => Some(l@),
        None => None,
    }
}

/// How a command is started on a file.
pub fn launch(command: &[String], path: &[u8]) -> (r: Option<Launch>)
    ensures
        opt_launch(r) == launch_of(texts(command@), path@),
{
    if command.len() == 0 {
        return None;
    }
    let mut args: Vec<String> = Vec::new();
    let mut i: usize = 1;
    while i < command.len()
        invariant
            1 <= i <= command.len(),
            texts(args@) =~= texts(command@).subrange(1, i as int),
        decreases command.len() - i,
    {
        let ghost before = args@;
        args.push(command[i].clone());
        assert(texts(args@) =~= texts(before).push(command@[i as int]@));
        i = i + 1;
    }
    assert(texts(args@) =~= texts(command@).skip(1));
    Some(Launch { program: command[0].clone(), args, path: copy_bytes(path) })
}

/// A source hides every less specific one.
pub proof fn law_specific_source_wins(
    cli: Seq<char>,
    env: Seq<char>,
    env_any: Option<Seq<char>>,
    config_any: Option<Seq<char>>,
    default: Seq<Seq<char>>,
)
    ensures
        resolved(Some(cli), env_any, config_any, default) == resolved(
            Some(cli),
            None,
            None,
            default,
        ),
        resolved(None, Some(env), config_any, default) == resolved(
            None,
            Some(env),
            None,
            default,
        ),
        resolved(None, None, None, default) == default,
{
}

/// Neither the player nor the drag-and-drop command is ever empty.
pub proof fn law_command_is_not_empty(
    cli: Option<Seq<char>>,
    env: Option<Seq<char>>,
    config: Option<Seq<char>>,
)
    ensures
        resolved(cli, env, config, default_player()).len() > 0,
        resolved(cli, env, config, default_drag()).len() > 0,
{
}

/// What is started on a file gets the path of the file, behind all the words of
/// the command.
pub proof fn law_path_is_last(command: Seq<Seq<char>>, path: Seq<u8>)
    requires
        command.len() > 0,
    ensures
        launch_of(command, path) matches Some(l) && l.path == path && seq![l.program] + l.args
            == command,
{
    assert(seq![command[0]] + command.skip(1) =~= command);
}

/// A configuration line that is written as a key, an equals sign and a value
/// gives that value to the key, whatever white space stands around the three
/// and whatever quotes stand around the value.
pub proof fn law_written_value_is_read(
    lead: Seq<char>,
    key: Seq<char>,
    before: Seq<char>,
    after: Seq<char>,
    open: Seq<char>,
    value: Seq<char>,
    close: Seq<char>,
    tail: Seq<char>,
)
    requires
        all_of(lead, CharClass::Space.pred()),
        all_of(before, CharClass::Space.pred()),
        all_of(after, CharClass::Space.pred()),
        all_of(tail, CharClass::Space.pred()),
        all_of(open, CharClass::Quote.pred()),
        all_of(close, CharClass::Quote.pred()),
        key.len() > 0,
        !CharClass::Space.holds(key[0]),
        value.len() > 0,
        !CharClass::Quote.holds(value[0]),
        !CharClass::Quote.holds(value.last()),
        open.len() == 0 ==> !CharClass::Space.holds(value[0]),
        close.len() == 0 ==> !CharClass::Space.holds(value.last()),
    ensures
        line_value(
            lead + (key + before + seq!['='] + after + (open + value + close)) + tail,
            key,
        ) == Some(value),
{
    let space = CharClass::Space.pred();
    let quote = CharClass::Quote.pred();
    let quoted = open + value + close;
    let core = key + before + seq!['='] + after + quoted;
    assert(quoted[0] == if open.len() == 0 {
        value[0]
    } else {
        open[0]
    });
    assert(quoted.last() == if close.len() == 0 {
        value.last()
    } else {
        close.last()
    });
    assert(open.len() > 0 ==> quote(open[0]));
    assert(close.len() > 0 ==> quote(close[close.len() - 1]));
    assert(!space(quoted[0]) && !space(quoted.last()));
    assert(core[0] == key[0] && core.last() == quoted.last());
    lemma_trim_around(lead, core, tail, space);
    // The rest of the line behind the key.
    let from_eq = seq!['='] + after + quoted;
    let rest = before + from_eq;
    assert(key.is_prefix_of(core)) by {
        assert(core.subrange(0, key.len() as int) =~= key);
    }
    assert(core.skip(key.len() as int) =~= rest);
    assert(from_eq[0] == '=' && from_eq.last() == quoted.last());
    lemma_trim_around(before, from_eq, seq![], space);
    assert(before + from_eq + seq![] =~= rest);
    assert(from_eq + seq![] =~= from_eq);
    // What stands behind the equals sign.
    reveal_strlit("=");
    assert("="@ =~= seq!['=']);
    assert("="@.is_prefix_of(from_eq)) by {
        assert(from_eq.subrange(0, 1) =~= "="@);
    }
    assert(from_eq.skip(1) =~= after + quoted);
    lemma_trim_around(after, quoted, seq![], space);
    assert(after + quoted + seq![] =~= after + quoted);
    lemma_trim_around(open, value, close, quote);
}

/// The first line that gives a value decides; lines that give none are passed
/// over.
pub proof fn law_first_value_decides(a: Seq<Seq<char>>, b: Seq<Seq<char>>, key: Seq<char>)
    ensures
        first_value(a + b, key) == (if first_value(a, key) is Some {
            first_value(a, key)
        } else {
            first_value(b, key)
        }),
    decreases a.len(),
{
    if a.len() == 0 {
        assert(a + b =~= b);
    } else {
        assert((a + b).skip(1) =~= a.skip(1) + b);
        law_first_value_decides(a.skip(1), b, key);
    }
}

/// A text is read line by line, from the first line on.
pub proof fn law_lines_are_read_in_order(line: Seq<char>, rest: Seq<char>, key: Seq<char>)
    requires
        forall|i: int| 0 <= i < line.len() ==> #[trigger] line[i] != '\n',
    ensures
        config_value_of(line, key) == line_value(line, key),
        config_value_of(line.push('\n') + rest, key) == (if line_value(line, key) is Some {
            line_value(line, key)
        } else {
            config_value_of(rest, key)
        }),
{
    let p = CharClass::LineFeed.pred();
    lemma_split_without_separator(line, p);
    lemma_split_at_separator(line, '\n', rest, p);
    reveal_with_fuel(first_value, 2);
    assert(seq![line].skip(1) =~= seq![]);
    law_first_value_decides(seq![line], split_where(rest, p), key);
}

/// The player command is all the words of the command line's value, in their
/// order; without one, those of the environment's; without either, those of the
/// value that the configuration gives to `player`. Where nothing is given, or
/// what counts holds no word, it is the default.
pub proof fn law_player_command(
    raw: Seq<char>,
    env: Option<Seq<char>>,
    text: Option<Seq<char>>,
    found: Seq<char>,
)
    ensures
        ({
            let default = seq!["mpv"@];
            let words = if words_of(raw).len() > 0 {
                words_of(raw)
            } else {
                default
            };
            &&& player_command(Some(raw), env, text) == words
            &&& player_command(None, Some(raw), text) == words
            &&& config_value_of(found, "player"@) == Some(raw) ==> player_command(
                None,
                None,
                Some(found),
            ) == words
            &&& config_value_of(found, "player"@) is None ==> player_command(None, None, Some(found))
                == default
            &&& player_command(None, None, None) == default
        }),
{
}

/// The drag-and-drop command is all the words of the command line's value, in their
/// order; without one, those of the environment's; without either, those of the
/// value that the configuration gives to `drag`. Where nothing is given, or
/// what counts holds no word, it is the default.
pub proof fn law_drag_command(
    raw: Seq<char>,
    env: Option<Seq<char>>,
    text: Option<Seq<char>>,
    found: Seq<char>,
)
    ensures
        ({
            let default = seq!["dragon-drop"@, "--and-exit"@];
            let words = if words_of(raw).len() > 0 {
                words_of(raw)
            } else {
                default
            };
            &&& drag_command(Some(raw), env, text) == words
            &&& drag_command(None, Some(raw), text) == words
            &&& config_value_of(found, "drag"@) == Some(raw) ==> drag_command(
                None,
                None,
                Some(found),
            ) == words
            &&& config_value_of(found, "drag"@) is None ==> drag_command(None, None, Some(found))
                == default
            &&& drag_command(None, None, None) == default
        }),
{
}

/// What is read for a key was written: the line holds the key, an equals sign
/// and the value, with nothing but white space around the three and nothing but
/// quotes around the value. The value is not empty, and no quote stands at its
/// ends. The parts of the line are handed out in their order: before the key,
/// before and behind the equals sign, the quotes, and what follows.
pub proof fn law_read_value_was_written(line: Seq<char>, key: Seq<char>, value: Seq<char>) -> (r: (
    Seq<char>,
    Seq<char>,
    Seq<char>,
    Seq<char>,
    Seq<char>,
    Seq<char>,
))
    requires
        line_value(line, key) == Some(value),
    ensures
        line == r.0 + (key + r.1 + seq!['='] + r.2 + (r.3 + value + r.4)) + r.5,
        forall|i: int| 0 <= i < r.0.len() ==> CharClass::Space.holds(#[trigger] r.0[i]),
        forall|i: int| 0 <= i < r.1.len() ==> CharClass::Space.holds(#[trigger] r.1[i]),
        forall|i: int| 0 <= i < r.2.len() ==> CharClass::Space.holds(#[trigger] r.2[i]),
        forall|i: int| 0 <= i < r.3.len() ==> CharClass::Quote.holds(#[trigger] r.3[i]),
        forall|i: int| 0 <= i < r.4.len() ==> CharClass::Quote.holds(#[trigger] r.4[i]),
        forall|i: int| 0 <= i < r.5.len() ==> CharClass::Space.holds(#[trigger] r.5[i]),
        value.len() > 0,
        !CharClass::Quote.holds(value[0]),
        !CharClass::Quote.holds(value.last()),
{
    let space = CharClass::Space.pred();
    let quote = CharClass::Quote.pred();
    let core = trim_both(line, space);
    let (lead, tail) = lemma_trimmed_both(line, space);
    let rest = after_prefix(core, key)->0;
    law_prefix_and_rest(core, key, rest);
    let from_eq = trim_front(rest, space);
    let before = lemma_trimmed_front(rest, space);
    let behind = after_prefix(from_eq, "="@)->0;
    law_prefix_and_rest(from_eq, "="@, behind);
    reveal_strlit("=");
    assert("="@ =~= seq!['=']);
    let quoted = trim_both(behind, space);
    let (after, more) = lemma_trimmed_both(behind, space);
    let (open, close) = lemma_trimmed_both(quoted, quote);
    let end = more + tail;
    lemma_parts_of_line(lead, key, before, after, quoted, more, tail);
    lemma_all_hold(lead, CharClass::Space);
    lemma_all_hold(before, CharClass::Space);
    lemma_all_hold(after, CharClass::Space);
    lemma_all_hold(more, CharClass::Space);
    lemma_all_hold(tail, CharClass::Space);
    lemma_all_hold(open, CharClass::Quote);
    lemma_all_hold(close, CharClass::Quote);
    assert forall|i: int| 0 <= i < end.len() implies CharClass::Space.holds(#[trigger] end[i]) by {
        if i < more.len() {
            assert(end[i] == more[i]);
        } else {
            assert(end[i] == tail[i - more.len()]);
        }
    }
    (lead, before, after, open, close, end)
}

/// The parts of a line, put together from its end on or from its start on.
proof fn lemma_parts_of_line(
    lead: Seq<char>,
    key: Seq<char>,
    before: Seq<char>,
    after: Seq<char>,
    quoted: Seq<char>,
    more: Seq<char>,
    tail: Seq<char>,
)
    ensures
        lead + (key + (before + (seq!['='] + (after + quoted + more)))) + tail == lead + (key
            + before + seq!['='] + after + quoted) + (more + tail),
{
    let core = key + before + seq!['='] + after + quoted;
    assert(before + (seq!['='] + (after + quoted + more)) =~= before + seq!['='] + after + quoted
        + more);
    assert(key + (before + seq!['='] + after + quoted + more) =~= core + more);
    assert(lead + (core + more) + tail =~= lead + core + (more + tail));
}

proof fn lemma_all_hold(s: Seq<char>, class: CharClass)
    requires
        all_of(s, class.pred()),
    ensures
        forall|i: int| 0 <= i < s.len() ==> class.holds(#[trigger] s[i]),
{
    let p = class.pred();
    assert forall|i: int| 0 <= i < s.len() implies class.holds(#[trigger] s[i]) by {
        assert(p(s[i]));
    }
}

/// Without a command nothing is started.
pub proof fn law_nothing_is_started_without_a_command(path: Seq<u8>)
    ensures
        launch_of(seq![], path) is None,
{
}

} // verus!
