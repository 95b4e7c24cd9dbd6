//! What the gallery promises, said of the keys themselves and of what is then
//! seen: selected, shown, opened, copied and told.

use vstd::arithmetic::div_mod::{
    lemma_add_mod_noop, lemma_mod_bound, lemma_mod_twice, lemma_small_mod,
};
use vstd::prelude::*;

use crate::config::{law_path_is_last, LaunchModel};
use crate::gallery::{
    arrived, grid_drawn, grid_pressed, image_positions, initial, lemma_image_has_place,
    lemma_image_positions, lemma_place, lemma_place_of_image, notice_of, notice_text,
    notified, opened, place_from, shown_notice, single_pressed, stepped, title_of, Action, AppModel,
    Keys, Mode, Notice, OpenedModel, RequestsModel, ViewChange, NOTICE_MS,
};
use crate::media::{EntryModel, Kind};
use crate::path::{file_name_of, is_name, law_file_name_is_the_last_name};
use crate::text::lossy;

verus! {

/// Whether a launch starts a command on a file: with all the words of the
/// command, and the path of the file behind them.
pub open spec fn starts_on(
    launch: Option<LaunchModel>,
    command: Seq<Seq<char>>,
    path: Seq<u8>,
) -> bool {
    match launch {
        Some(l) => seq![l.program] + l.args == command && l.path == path,
        None => command.len() == 0,
    }
}

/// The keys move the selection in the grid: to the right and to the left by one
/// entry, down and up by one row, and never beyond the first or the last entry;
/// without a row above, up leads nowhere. Opposite keys undo each other. The
/// selection is brought in sight where it moved, and nothing else changes but
/// the help.
pub proof fn law_keys_move_the_selection(m: AppModel, keys: Keys)
    requires
        m.wf(),
    ensures
        ({
            let after = grid_pressed(m, keys).0;
            let n = m.entries.len() as int;
            let right = keys.arrow_right || keys.l;
            let left = keys.arrow_left || keys.h;
            let down = keys.arrow_down || keys.j;
            let up = keys.arrow_up || keys.k;
            let row = if m.cols >= 1 {
                m.cols
            } else {
                1
            };
            let across = if right && !left {
                m.selected + 1
            } else if left && !right && m.selected > 0 {
                m.selected - 1
            } else {
                m.selected
            };
            let goal = if down && !up {
                across + row
            } else if up && !down && across >= row {
                across - row
            } else {
                across
            };
            &&& n > 0 && goal < n ==> after.selected == goal
            &&& n > 0 && goal >= n ==> after.selected == n - 1
            &&& n == 0 ==> after.selected == 0
            &&& after.scroll_to_selected == (m.scroll_to_selected || after.selected != m.selected)
            &&& after.entries == m.entries
            &&& after.player == m.player
            &&& after.drag == m.drag
            &&& after.cols == m.cols
            &&& after.mode == m.mode
            &&& after.notice == m.notice
        }),
{
}

/// What the keys ask for on an entry: `y` alone for a copy of its path, as text,
/// whatever it is; `y` with shift for a copy of the image, if it is one, and
/// else for a word on that; `d` for the drag-and-drop command on it. Nothing is
/// asked for by other keys, and nothing of this while the key to leave is
/// pressed.
pub open spec fn asks_of(
    asked: RequestsModel,
    e: EntryModel,
    drag: Seq<Seq<char>>,
    keys: Keys,
) -> bool {
    let stay = !keys.escape && !keys.q;
    &&& asked.copy_path == if stay && keys.y && !keys.shift {
        Some(lossy(e.path))
    } else {
        None
    }
    &&& asked.copy_image == if stay && keys.y && keys.shift && e.kind == Kind::Image {
        Some(e.path)
    } else {
        None
    }
    &&& asked.not_an_image == (stay && keys.y && keys.shift && e.kind == Kind::Video)
    &&& stay && keys.d ==> starts_on(asked.drag, drag, e.path)
    &&& !(stay && keys.d) ==> asked.drag is None
}

/// In the grid, what the keys ask for concerns the entry that is selected once
/// they have moved the selection; where there is no entry, nothing is asked for.
/// The key to leave quits, and no other does. The help is toggled by its key.
pub proof fn law_keys_in_the_grid(m: AppModel, keys: Keys)
    requires
        m.wf(),
    ensures
        ({
            let (after, asked) = grid_pressed(m, keys);
            &&& asked.quit == (keys.escape || keys.q)
            &&& m.entries.len() > 0 ==> asks_of(asked, m.entries[after.selected], m.drag, keys)
            &&& m.entries.len() == 0 ==> {
                &&& asked.copy_path is None
                &&& asked.copy_image is None
                &&& !asked.not_an_image
                &&& asked.drag is None
            }
            &&& !keys.escape && !keys.q && keys.question ==> after.help == !m.help
            &&& keys.escape || keys.q || !keys.question ==> after.help == m.help
        }),
{
    if m.drag.len() > 0 && m.entries.len() > 0 {
        let after = grid_pressed(m, keys).0;
        law_path_is_last(m.drag, m.entries[after.selected].path);
    }
}

/// `y` without shift copies the path of the selected entry in the grid and of
/// the shown one in the viewer, be it an image or a video; no other keys copy a
/// path.
pub proof fn law_y_copies_the_path(m: AppModel, keys: Keys)
    requires
        m.wf(),
        m.entries.len() > 0,
    ensures
        keys.y && !keys.shift && !keys.escape && !keys.q ==> grid_pressed(m, keys).1.copy_path
            == Some(lossy(m.entries[grid_pressed(m, keys).0.selected].path)),
        !keys.y || keys.shift || keys.escape || keys.q ==> grid_pressed(m, keys).1.copy_path is None,
        m.mode matches Mode::Single { idx } ==> {
            &&& keys.y && !keys.shift && !keys.escape && !keys.q ==> single_pressed(
                m,
                keys,
            ).1.copy_path == Some(lossy(m.entries[idx as int].path))
            &&& !keys.y || keys.shift || keys.escape || keys.q ==> single_pressed(
                m,
                keys,
            ).1.copy_path is None
        },
{
}

/// In the viewer, what the keys ask for concerns the image that is shown, and
/// nothing quits. The key to leave leads to the grid, with that image selected
/// and in sight, and does nothing else. Else the help is toggled by its key, and
/// the selection stays.
pub proof fn law_keys_in_the_viewer(m: AppModel, keys: Keys)
    requires
        m.wf(),
        m.mode is Single,
    ensures
        ({
            let (after, asked, view) = single_pressed(m, keys);
            let idx = m.mode->idx as int;
            let leave = keys.escape || keys.q;
            &&& !asked.quit
            &&& asks_of(asked, m.entries[idx], m.drag, keys)
            &&& leave ==> {
                &&& after.mode == Mode::Grid
                &&& after.selected == idx
                &&& after.scroll_to_selected
                &&& after.help == m.help
                &&& view == ViewChange::Replaced
            }
            &&& !leave ==> {
                &&& after.mode is Single
                &&& after.selected == m.selected
                &&& after.scroll_to_selected == m.scroll_to_selected
                &&& after.help == (if keys.question {
                    !m.help
                } else {
                    m.help
                })
            }
            &&& after.entries == m.entries
            &&& after.player == m.player
            &&& after.drag == m.drag
            &&& after.cols == m.cols
            &&& after.notice == m.notice
        }),
{
    if m.drag.len() > 0 {
        law_path_is_last(m.drag, m.entries[m.mode->idx as int].path);
    }
}

/// In the viewer, a step replaces the view. Else the same image stays, the zoom
/// is reset by `0`, and changed one notch in by plus or the equals sign and one
/// notch out by minus; the two undo each other. The keys for up and down do
/// nothing there.
pub proof fn law_keys_change_the_view(m: AppModel, keys: Keys)
    requires
        m.wf(),
        m.mode is Single,
        !keys.escape,
        !keys.q,
    ensures
        ({
            let (after, _, view) = single_pressed(m, keys);
            let right = keys.arrow_right || keys.l;
            let left = keys.arrow_left || keys.h;
            let closer = keys.plus || keys.equals;
            &&& right != left ==> view == ViewChange::Replaced
            &&& right == left ==> {
                &&& after.mode == m.mode
                &&& view matches ViewChange::Adjusted { reset, zoom } && reset == keys.num0 && (
                closer && !keys.minus ==> zoom == 1) && (keys.minus && !closer ==> zoom == -1) && (
                closer == keys.minus ==> zoom == 0)
            }
        }),
{
}

/// Whether the entry `i` is an image.
pub open spec fn is_image(m: AppModel, i: int) -> bool {
    0 <= i < m.entries.len() && m.entries[i].kind == Kind::Image
}

/// The place of an image among the images, and those around it.
proof fn lemma_neighbours(m: AppModel, cur: int, place: int)
    requires
        is_image(m, cur),
        place == place_from(image_positions(m.entries), cur, 0),
    ensures
        0 <= place < image_positions(m.entries).len(),
        image_positions(m.entries)[place] == cur,
        forall|j: int| #[trigger]
            is_image(m, j) ==> exists|k: int|
                0 <= k < image_positions(m.entries).len() && #[trigger] image_positions(
                    m.entries,
                )[k] == j,
        forall|k: int|
            0 <= k < image_positions(m.entries).len() ==> is_image(
                m,
                #[trigger] image_positions(m.entries)[k],
            ),
{
    let images = image_positions(m.entries);
    lemma_image_has_place(m.entries, cur);
    lemma_image_positions(m.entries);
    assert forall|j: int| #[trigger] is_image(m, j) implies exists|k: int|
        0 <= k < images.len() && #[trigger] images[k] == j by {
        assert(m.entries[j].kind == Kind::Image);
        assert(images.contains(j));
    }
}

/// The key for the next image shows the first image behind the one that is
/// shown, and behind the last image the first of all. Videos are passed over.
pub proof fn law_next_image_is_the_following_one(m: AppModel, keys: Keys)
    requires
        m.wf(),
        m.mode is Single,
        m.entries.len() <= usize::MAX,
        !keys.escape,
        !keys.q,
        keys.arrow_right || keys.l,
        !keys.arrow_left,
        !keys.h,
    ensures
        ({
            let cur = m.mode->idx as int;
            &&& single_pressed(m, keys).0.mode matches Mode::Single { idx } && {
                &&& is_image(m, idx as int)
                &&& (exists|j: int| j > cur && #[trigger] is_image(m, j)) ==> idx > cur
                    && forall|j: int| cur < j < idx ==> !#[trigger] is_image(m, j)
                &&& !(exists|j: int| j > cur && #[trigger] is_image(m, j)) ==> forall|j: int|
                    0 <= j < idx ==> !#[trigger] is_image(m, j)
            }
        }),
{
    let cur = m.mode->idx as int;
    let images = image_positions(m.entries);
    let n = images.len() as int;
    let p = place_from(images, cur, 0);
    assert(is_image(m, cur));
    lemma_neighbours(m, cur, p);
    lemma_image_positions(m.entries);
    let q = (p + 1) % n;
    assert(q == if p + 1 < n {
        p + 1
    } else {
        0
    }) by {
        if p + 1 < n {
            lemma_small_mod((p + 1) as nat, n as nat);
        } else {
            vstd::arithmetic::div_mod::lemma_mod_self_0(n);
        }
    }
    let idx = images[q];
    assert(is_image(m, idx));
    assert(single_pressed(m, keys).0.mode == (Mode::Single { idx: idx as usize }));
    assert forall|j: int| #[trigger] is_image(m, j) && j > cur implies p + 1 < n && idx <= j by {
        let k = choose|k: int| 0 <= k < images.len() && #[trigger] images[k] == j;
        if k <= p {
            assert(images[k] <= images[p]);
        }
        if k > p + 1 {
            assert(images[p + 1] < images[k]);
        }
    }
    if p + 1 < n {
        assert(images[p] < images[p + 1]);
    } else {
        assert forall|j: int| #[trigger] is_image(m, j) implies idx <= j by {
            let k = choose|k: int| 0 <= k < images.len() && #[trigger] images[k] == j;
            if k > 0 {
                assert(images[0] < images[k]);
            }
        }
        assert forall|j: int| #[trigger] is_image(m, j) implies j <= cur by {
            let k = choose|k: int| 0 <= k < images.len() && #[trigger] images[k] == j;
            if k < p {
                assert(images[k] < images[p]);
            }
        }
    }
}

/// The key for the image before shows the last image before the one that is
/// shown, and before the first image the last of all. Videos are passed over.
pub proof fn law_previous_image_is_the_one_before(m: AppModel, keys: Keys)
    requires
        m.wf(),
        m.mode is Single,
        m.entries.len() <= usize::MAX,
        !keys.escape,
        !keys.q,
        keys.arrow_left || keys.h,
        !keys.arrow_right,
        !keys.l,
    ensures
        ({
            let cur = m.mode->idx as int;
            &&& single_pressed(m, keys).0.mode matches Mode::Single { idx } && {
                &&& is_image(m, idx as int)
                &&& (exists|j: int| j < cur && #[trigger] is_image(m, j)) ==> idx < cur
                    && forall|j: int| idx < j < cur ==> !#[trigger] is_image(m, j)
                &&& !(exists|j: int| j < cur && #[trigger] is_image(m, j)) ==> forall|j: int|
                    idx < j ==> !#[trigger] is_image(m, j)
            }
        }),
{
    let cur = m.mode->idx as int;
    let images = image_positions(m.entries);
    let n = images.len() as int;
    let p = place_from(images, cur, 0);
    assert(is_image(m, cur));
    lemma_neighbours(m, cur, p);
    lemma_image_positions(m.entries);
    let q = (p - 1) % n;
    assert(q == if p > 0 {
        p - 1
    } else {
        n - 1
    }) by {
        if p > 0 {
            lemma_small_mod((p - 1) as nat, n as nat);
        } else {
            vstd::arithmetic::div_mod::lemma_mod_add_multiples_vanish(-1, n);
            lemma_small_mod((n - 1) as nat, n as nat);
        }
    }
    let idx = images[q];
    assert(is_image(m, idx));
    assert(single_pressed(m, keys).0.mode == (Mode::Single { idx: idx as usize }));
    assert forall|j: int| #[trigger] is_image(m, j) && j < cur implies p > 0 && idx >= j by {
        let k = choose|k: int| 0 <= k < images.len() && #[trigger] images[k] == j;
        if k > p {
            assert(images[p] < images[k]);
        }
        if k < p - 1 {
            assert(images[k] < images[p - 1]);
        }
    }
    if p > 0 {
        assert(images[p - 1] < images[p]);
    } else {
        assert forall|j: int| #[trigger] is_image(m, j) implies j <= idx by {
            let k = choose|k: int| 0 <= k < images.len() && #[trigger] images[k] == j;
            if k < n - 1 {
                assert(images[k] < images[n - 1]);
            }
        }
        assert forall|j: int| #[trigger] is_image(m, j) implies j >= cur by {
            let k = choose|k: int| 0 <= k < images.len() && #[trigger] images[k] == j;
            if k > p {
                assert(images[p] < images[k]);
            }
        }
    }
}

/// The list of images holds the index of every image and no other, in ascending
/// order.
pub proof fn law_image_list(entries: Seq<EntryModel>, i: int)
    ensures
        image_positions(entries).contains(i) <==> (0 <= i < entries.len() && entries[i].kind
            == Kind::Image),
        forall|j: int, k: int|
            0 <= j < k < image_positions(entries).len() ==> #[trigger] image_positions(entries)[j]
                < #[trigger] image_positions(entries)[k],
{
    lemma_image_positions(entries);
}

/// Two moves of the viewer are one move by their sum. A move by nothing stays
/// with an image; from an entry that is no image the viewer moves as from the
/// first image; without images nothing happens. Nothing but what is shown
/// changes.
pub proof fn law_moves_add_up(m: AppModel, cur: int, a: int, b: int)
    requires
        m.entries.len() <= usize::MAX,
    ensures
        (exists|i: int| #[trigger] is_image(m, i)) ==> {
            &&& stepped(m, cur, a).mode matches Mode::Single { idx } && is_image(m, idx as int)
                && stepped(stepped(m, cur, a), idx as int, b).mode == stepped(m, cur, a + b).mode
        },
        is_image(m, cur) ==> stepped(m, cur, 0).mode == (Mode::Single { idx: cur as usize }),
        (exists|i: int| #[trigger] is_image(m, i)) && !is_image(m, cur) ==> stepped(m, cur, a)
            == stepped(m, image_positions(m.entries)[0], a),
        !(exists|i: int| #[trigger] is_image(m, i)) ==> stepped(m, cur, a) == m,
        stepped(m, cur, a).entries == m.entries,
        stepped(m, cur, a).player == m.player,
        stepped(m, cur, a).drag == m.drag,
        stepped(m, cur, a).selected == m.selected,
        stepped(m, cur, a).cols == m.cols,
        stepped(m, cur, a).scroll_to_selected == m.scroll_to_selected,
        stepped(m, cur, a).help == m.help,
        stepped(m, cur, a).notice == m.notice,
{
    let images = image_positions(m.entries);
    let n = images.len() as int;
    lemma_image_positions(m.entries);
    if exists|i: int| #[trigger] is_image(m, i) {
        let i = choose|i: int| #[trigger] is_image(m, i);
        lemma_image_has_place(m.entries, i);
        lemma_place(images, cur, 0);
        let p = place_from(images, cur, 0);
        let q = (p + a) % n;
        lemma_mod_bound(p + a, n);
        assert(0 <= images[q] < m.entries.len());
        assert(is_image(m, images[q]));
        lemma_place_of_image(m.entries, q);
        lemma_add_mod_noop(p + a, b, n);
        lemma_add_mod_noop(q, b, n);
        lemma_mod_twice(p + a, n);
        assert((q + b) % n == (p + a + b) % n);
        assert(p + a + b == p + (a + b));
        if is_image(m, cur) {
            lemma_image_has_place(m.entries, cur);
            lemma_small_mod(p as nat, n as nat);
        } else {
            lemma_not_found(images, cur, 0);
            lemma_place_of_image(m.entries, 0);
        }
    } else {
        if n > 0 {
            assert(is_image(m, images[0]));
        }
    }
}

/// What a sequence does not hold has no place in it.
proof fn lemma_not_found(s: Seq<int>, x: int, k: int)
    requires
        0 <= k,
        forall|i: int| 0 <= i < s.len() ==> #[trigger] s[i] != x,
    ensures
        place_from(s, x, k) == 0,
    decreases s.len() - k,
{
    if k < s.len() {
        lemma_not_found(s, x, k + 1);
    }
}

/// Whether an entry was opened: an image is shown and nothing is started; for a
/// video the player is started on it, with its path last, and what is shown
/// stays.
pub open spec fn was_opened(
    m: AppModel,
    i: int,
    after: AppModel,
    what: Option<OpenedModel>,
) -> bool {
    match m.entries[i].kind {
        Kind::Image => after.mode == (Mode::Single { idx: i as usize }) && what == Some(
            OpenedModel::Viewer,
        ),
        Kind::Video => after.mode == m.mode && (what matches Some(OpenedModel::Player { launch })
            && starts_on(launch, m.player, m.entries[i].path)),
    }
}

/// Enter opens the entry that is selected, and a click the entry that was
/// clicked, which is then selected, whether or not enter was pressed. Without
/// either, or without an entry, nothing is opened.
pub proof fn law_enter_and_clicks_open(
    m: AppModel,
    cols: int,
    clicked: Option<int>,
    enter: bool,
)
    requires
        m.wf(),
        clicked matches Some(i) ==> 0 <= i < m.entries.len(),
    ensures
        ({
            let (after, what) = grid_drawn(m, cols, clicked, enter);
            &&& clicked matches Some(i) ==> after.selected == i && was_opened(m, i, after, what)
            &&& clicked is None ==> after.selected == m.selected
            &&& clicked is None && enter && m.entries.len() > 0 ==> was_opened(
                m,
                m.selected,
                after,
                what,
            )
            &&& clicked is None && (!enter || m.entries.len() == 0) ==> what is None && after.mode
                == m.mode
            &&& after.cols == cols
            &&& !after.scroll_to_selected
            &&& after.entries == m.entries
            &&& after.player == m.player
            &&& after.drag == m.drag
            &&& after.help == m.help
            &&& after.notice == m.notice
        }),
{
    if m.player.len() > 0 {
        if clicked is Some {
            law_path_is_last(m.player, m.entries[clicked->0].path);
        } else if m.entries.len() > 0 {
            law_path_is_last(m.player, m.entries[m.selected].path);
        }
    }
}

/// To open an entry shows it or starts the player on it, and changes nothing
/// else.
pub proof fn law_opened_entry(m: AppModel, i: int)
    requires
        0 <= i < m.entries.len(),
    ensures
        was_opened(m, i, opened(m, i).0, Some(opened(m, i).1)),
        opened(m, i).0.entries == m.entries,
        opened(m, i).0.player == m.player,
        opened(m, i).0.drag == m.drag,
        opened(m, i).0.selected == m.selected,
        opened(m, i).0.cols == m.cols,
        opened(m, i).0.scroll_to_selected == m.scroll_to_selected,
        opened(m, i).0.help == m.help,
        opened(m, i).0.notice == m.notice,
{
    if m.player.len() > 0 {
        law_path_is_last(m.player, m.entries[i].path);
    }
}

/// The gallery starts with what it was given, on the first entry, without help
/// and notice: in the viewer where there is exactly one entry and that is an
/// image, and else in the grid.
pub proof fn law_start(
    entries: Seq<EntryModel>,
    player: Seq<Seq<char>>,
    drag: Seq<Seq<char>>,
)
    ensures
        ({
            let m = initial(entries, player, drag);
            let alone = entries.len() == 1 && entries[0].kind == Kind::Image;
            &&& m.entries == entries
            &&& m.player == player
            &&& m.drag == drag
            &&& m.selected == 0
            &&& m.cols == 1
            &&& !m.scroll_to_selected
            &&& !m.help
            &&& m.notice is None
            &&& alone ==> m.mode == (Mode::Single { idx: 0 })
            &&& !alone ==> m.mode == Mode::Grid
        }),
{
}

/// Keys for the viewer do nothing in the grid.
pub proof fn law_viewer_keys_need_the_viewer(m: AppModel, keys: Keys)
    requires
        m.mode == Mode::Grid,
    ensures
        single_pressed(m, keys).0 == m,
        !single_pressed(m, keys).1.quit,
        single_pressed(m, keys).1.copy_path is None,
        single_pressed(m, keys).1.copy_image is None,
        !single_pressed(m, keys).1.not_an_image,
        single_pressed(m, keys).1.drag is None,
{
}

/// A thumbnail that arrives marks its own entry and changes nothing else; one
/// without an entry changes nothing.
pub proof fn law_thumbnail_arrives(m: AppModel, i: int, j: int)
    requires
        0 <= j < m.entries.len(),
    ensures
        ({
            let after = arrived(m, i);
            &&& after.entries.len() == m.entries.len()
            &&& after.entries[j].path == m.entries[j].path
            &&& after.entries[j].kind == m.entries[j].kind
            &&& after.entries[j].thumb == (m.entries[j].thumb || i == j)
            &&& after.player == m.player
            &&& after.drag == m.drag
            &&& after.selected == m.selected
            &&& after.cols == m.cols
            &&& after.scroll_to_selected == m.scroll_to_selected
            &&& after.mode == m.mode
            &&& after.help == m.help
            &&& after.notice == m.notice
        }),
{
}

/// A notice is shown from the time at which it is given, for as long as notices
/// are shown, in the place of any other, and changes nothing else; before any
/// was given, none is shown.
pub proof fn law_notices_are_shown_for_a_while(m: AppModel, notice: Notice, now: int, then: int)
    requires
        0 <= now,
        now + NOTICE_MS <= u64::MAX,
    ensures
        ({
            let after = notified(m, notice, now);
            &&& then < now + 2000 ==> shown_notice(after, then) == Some(notice_text(notice))
            &&& then >= now + 2000 ==> shown_notice(after, then) is None
            &&& after.entries == m.entries
            &&& after.player == m.player
            &&& after.drag == m.drag
            &&& after.selected == m.selected
            &&& after.cols == m.cols
            &&& after.scroll_to_selected == m.scroll_to_selected
            &&& after.mode == m.mode
            &&& after.help == m.help
        }),
        m.notice is None ==> shown_notice(m, then) is None,
{
}

/// What is told of an action says whether it succeeded.
pub proof fn law_notices_tell_the_outcome(action: Action, ok: bool)
    ensures
        ({
            let text = notice_text(notice_of(action, ok));
            &&& action == Action::CopyPath && ok ==> text == "Path copied"@
            &&& action == Action::CopyImage && ok ==> text == "Image copied"@
            &&& action == Action::Drag && ok ==> text == "Drag started"@
            &&& action != Action::Drag && !ok ==> text == "Copy failed"@
            &&& action == Action::Drag && !ok ==> text == "Drag failed"@
            &&& notice_text(Notice::NotAnImage) == "Not an image"@
        }),
{
}

/// The caption of a file is the text of its name.
pub proof fn law_title_is_the_name(dir: Seq<u8>, name: Seq<u8>)
    requires
        is_name(name),
    ensures
        title_of(dir + seq![0x2fu8] + name) == lossy(name),
        title_of(name) == lossy(name),
        title_of(dir + seq![0x2fu8, 0x2eu8, 0x2eu8]).len() == 0,
        file_name_of(dir) matches Some(last) ==> title_of(dir) == lossy(last),
        file_name_of(dir) is None ==> title_of(dir).len() == 0,
{
    law_file_name_is_the_last_name(dir, name);
}

} // verus!
