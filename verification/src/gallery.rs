//! The state of the gallery and how it changes: selection, viewer, and what
//! the keys ask for.

use vstd::arithmetic::div_mod::{
    lemma_add_mod_noop, lemma_mod_add_multiples_vanish, lemma_mod_bound, lemma_mod_twice,
    lemma_small_mod, lemma_sub_mod_noop,
};
use vstd::prelude::*;

use crate::config::{launch, launch_of, opt_launch, Launch, LaunchModel};
use crate::media::{
    collected, entries_view, entry_for, gathered, path_kind, Entry, EntryModel, Kind, ListingModel,
};
use crate::order::stable_sort;
use crate::path::{copy_bytes, file_name, file_name_of};
use crate::text::{lossy, text_lossy, texts};

verus! {

/// How long a notice is shown, in milliseconds.
pub const NOTICE_MS: u64 = 2000;

/// What is on the screen.
#[derive(Clone, Copy, PartialEq, Eq, Structural, Debug)]
pub enum Mode {
    /// The grid of thumbnails.
    Grid,
    /// The viewer, with the image of one entry.
    Single { idx: usize },
}

/// The keys that were pressed, and whether shift was held.
#[derive(Clone, Copy, PartialEq, Eq, Structural, Debug, Default)]
pub struct Keys {
    pub arrow_left: bool,
    pub arrow_right: bool,
    pub arrow_up: bool,
    pub arrow_down: bool,
    pub h: bool,
    pub j: bool,
    pub k: bool,
    pub l: bool,
    pub enter: bool,
    pub escape: bool,
    pub q: bool,
    pub y: bool,
    pub d: bool,
    pub question: bool,
    pub num0: bool,
    pub plus: bool,
    pub equals: bool,
    pub minus: bool,
    pub shift: bool,
}

/// What the keys mean.
impl Keys {
    pub open spec fn left(self) -> bool {
        self.arrow_left || self.h
    }

    pub open spec fn right(self) -> bool {
        self.arrow_right || self.l
    }

    pub open spec fn up(self) -> bool {
        self.arrow_up || self.k
    }

    pub open spec fn down(self) -> bool {
        self.arrow_down || self.j
    }

    pub open spec fn leave(self) -> bool {
        self.escape || self.q
    }

    pub open spec fn copy_path(self) -> bool {
        self.y && !self.shift
    }

    pub open spec fn copy_image(self) -> bool {
        self.y && self.shift
    }

    /// How far to step in the viewer: 1 to the next image, -1 to the one before.
    pub open spec fn step(self) -> int {
        (if self.right() {
            1int
        } else {
            0int
        }) - (if self.left() {
            1int
        } else {
            0int
        })
    }

    /// How often to zoom in the viewer: 1 is in, -1 is out.
    pub open spec fn zoom(self) -> int {
        (if self.plus || self.equals {
            1int
        } else {
            0int
        }) - (if self.minus {
            1int
        } else {
            0int
        })
    }
}

/// The indices of the images among some entries, ascending.
pub open spec fn image_positions(entries: Seq<EntryModel>) -> Seq<int>
    decreases entries.len(),
{
    if entries.len() == 0 {
        seq![]
    } else if entries.last().kind == Kind::Image {
        image_positions(entries.drop_last()).push(entries.len() - 1)
    } else {
        image_positions(entries.drop_last())
    }
}

/// The first place from `k` on at which `s` holds `x`, or 0 if there is none.
pub open spec fn place_from(s: Seq<int>, x: int, k: int) -> int
    decreases s.len() - k,
{
    if k >= s.len() {
        0
    } else if s[k] == x {
        k
    } else {
        place_from(s, x, k + 1)
    }
}

/// The state of the gallery, as mathematics.
pub struct AppModel {
    pub entries: Seq<EntryModel>,
    pub player: Seq<Seq<char>>,
    pub drag: Seq<Seq<char>>,
    pub selected: int,
    pub cols: int,
    pub scroll_to_selected: bool,
    pub mode: Mode,
    pub help: bool,
    /// The text of the last notice, and when it vanishes.
    pub notice: Option<(Seq<char>, int)>,
}

impl AppModel {
    /// The selection is an entry, if there is any, and the viewer shows an
    /// image.
    pub open spec fn wf(self) -> bool {
        &&& 0 <= self.selected
        &&& self.selected < self.entries.len() || (self.entries.len() == 0 && self.selected == 0)
        &&& self.mode matches Mode::Single { idx } ==> idx < self.entries.len()
            && self.entries[idx as int].kind == Kind::Image
    }
}

/// The gallery.
#[derive(Debug)]
pub struct GallaApp {
    entries: Vec<Entry>,
    image_indices: Vec<usize>,
    player: Vec<String>,
    drag: Vec<String>,
    selected: usize,
    cols: usize,
    scroll_to_selected: bool,
    mode: Mode,
    help: bool,
    notice: Option<(String, u64)>,
}

impl View for GallaApp {
    type V = AppModel;

    closed spec fn view(&self) -> AppModel {
        AppModel {
            entries: entries_view(self.entries@),
            player: texts(self.player@),
            drag: texts(self.drag@),
            selected: self.selected as int,
            cols: self.cols as int,
            scroll_to_selected: self.scroll_to_selected,
            mode: self.mode,
            help: self.help,
            notice: match self.notice {
                Some((text, until)) => Some((text@, until as int)),
                None => None,
            },
        }
    }
}

/// What the gallery is to be when it starts: exactly one image opens in the
/// viewer, anything else in the grid.
pub open spec fn initial(
    entries: Seq<EntryModel>,
    player: Seq<Seq<char>>,
    drag: Seq<Seq<char>>,
) -> AppModel {
    AppModel {
        entries,
        player,
        drag,
        selected: 0,
        cols: 1,
        scroll_to_selected: false,
        mode: if entries.len() == 1 && entries[0].kind == Kind::Image {
            Mode::Single { idx: 0 }
        } else {
            Mode::Grid
        },
        help: false,
        notice: None,
    }
}

/// What opening an entry leads to.
#[derive(Debug)]
pub enum Opened {
    /// The viewer shows the image, unzoomed.
    Viewer,
    /// The player is to be started on the video.
    Player { launch: Option<Launch> },
}

/// What opening an entry leads to, as mathematics.
pub enum OpenedModel {
    Viewer,
    Player { launch: Option<LaunchModel> },
}

impl View for Opened {
    type V = OpenedModel;

    open spec fn view(&self) -> OpenedModel {
        match *self {
            Opened::Viewer => OpenedModel::Viewer,
            Opened::Player { launch } => OpenedModel::Player { launch: opt_launch(launch) },
        }
    }
}

/// The gallery after an entry was opened, and what that leads to.
pub open spec fn opened(m: AppModel, i: int) -> (AppModel, OpenedModel) {
    match m.entries[i].kind {
        Kind::Image => (
            AppModel { mode: Mode::Single { idx: i as usize }, ..m },
            OpenedModel::Viewer,
        ),
        Kind::Video => (
            m,
            OpenedModel::Player { launch: launch_of(m.player, m.entries[i].path) },
        ),
    }
}

/// The gallery after the viewer stepped `delta` images on from the entry `cur`,
/// round and round.
pub open spec fn stepped(m: AppModel, cur: int, delta: int) -> AppModel {
    let images = image_positions(m.entries);
    if images.len() == 0 {
        m
    } else {
        let place = (place_from(images, cur, 0) + delta) % (images.len() as int);
        AppModel { mode: Mode::Single { idx: images[place] as usize }, ..m }
    }
}

/// The entry that the keys lead to from the entry `sel` of `n`, in a grid of
/// `cols` columns.
pub open spec fn moved(sel: int, cols: int, n: int, keys: Keys) -> int {
    let c = if cols < 1 {
        1
    } else {
        cols
    };
    let a = if keys.right() {
        sel + 1
    } else {
        sel
    };
    let b = if keys.left() && a > 0 {
        a - 1
    } else {
        a
    };
    let d = if keys.down() {
        b + c
    } else {
        b
    };
    let e = if keys.up() && d >= c {
        d - c
    } else {
        d
    };
    if n == 0 {
        0
    } else if e > n - 1 {
        n - 1
    } else {
        e
    }
}

/// What the keys ask for beside a change of the gallery itself.
#[derive(Debug)]
pub struct Requests {
    /// To quit.
    pub quit: bool,
    /// To copy this text to the clipboard.
    pub copy_path: Option<String>,
    /// To copy the image in this file to the clipboard.
    pub copy_image: Option<Vec<u8>>,
    /// To say that what was to be copied is no image.
    pub not_an_image: bool,
    /// To start this program, to drag a file from.
    pub drag: Option<Launch>,
}

/// What the keys ask for, as mathematics.
pub struct RequestsModel {
    pub quit: bool,
    pub copy_path: Option<Seq<char>>,
    pub copy_image: Option<Seq<u8>>,
    pub not_an_image: bool,
    pub drag: Option<LaunchModel>,
}

impl View for Requests {
    type V = RequestsModel;

    open spec fn view(&self) -> RequestsModel {
        RequestsModel {
            quit: self.quit,
            copy_path: match self.copy_path {
                Some(s) => Some(s@),
                None => None,
            },
            copy_image: match self.copy_image {
                Some(p) => Some(p@),
                None => None,
            },
            not_an_image: self.not_an_image,
            drag: opt_launch(self.drag),
        }
    }
}

/// Nothing asked for.
pub open spec fn no_requests() -> RequestsModel {
    RequestsModel {
        quit: false,
        copy_path: None,
        copy_image: None,
        not_an_image: false,
        drag: None,
    }
}

/// What the keys ask for on an entry.
pub open spec fn requests_on(m: AppModel, i: int, keys: Keys) -> RequestsModel {
    let e = m.entries[i];
    RequestsModel {
        quit: false,
        copy_path: if keys.copy_path() {
            Some(lossy(e.path))
        } else {
            None
        },
        copy_image: if keys.copy_image() && e.kind == Kind::Image {
            Some(e.path)
        } else {
            None
        },
        not_an_image: keys.copy_image() && e.kind == Kind::Video,
        drag: if keys.d {
            launch_of(m.drag, e.path)
        } else {
            None
        },
    }
}

/// The gallery after the selection moved.
pub open spec fn grid_moved(m: AppModel, keys: Keys) -> AppModel {
    let sel = moved(m.selected, m.cols, m.entries.len() as int, keys);
    AppModel {
        selected: sel,
        scroll_to_selected: m.scroll_to_selected || sel != m.selected,
        ..m
    }
}

/// The gallery after keys were pressed in the grid, and what they ask for. To
/// quit takes precedence over all but the movement of the selection.
pub open spec fn grid_pressed(m: AppModel, keys: Keys) -> (AppModel, RequestsModel) {
    let n = grid_moved(m, keys);
    if keys.leave() {
        (n, RequestsModel { quit: true, ..no_requests() })
    } else {
        (
            AppModel { help: n.help != keys.question, ..n },
            if n.entries.len() > 0 {
                requests_on(n, n.selected, keys)
            } else {
                no_requests()
            },
        )
    }
}

/// The gallery after the grid was drawn in `cols` columns, and what was opened:
/// the entry that was clicked, or else the selected one if enter was pressed.
pub open spec fn grid_drawn(
    m: AppModel,
    cols: int,
    clicked: Option<int>,
    enter: bool,
) -> (AppModel, Option<OpenedModel>) {
    let n = AppModel { cols, scroll_to_selected: false, ..m };
    match clicked {
        Some(i) => {
            let (after, what) = opened(AppModel { selected: i, ..n }, i);
            (after, Some(what))
        },
        None => if enter && n.entries.len() > 0 {
            let (after, what) = opened(n, n.selected);
            (after, Some(what))
        } else {
            (n, None)
        },
    }
}

/// What keys in the viewer do to the view.
#[derive(Clone, Copy, PartialEq, Eq, Structural, Debug)]
pub enum ViewChange {
    /// The viewer is gone or shows another image: nothing of the view is kept.
    Replaced,
    /// The zoom is first reset, along with the offset, if `reset` says so, and
    /// then changed by `zoom` notches.
    Adjusted { reset: bool, zoom: i8 },
}

/// The gallery after keys were pressed in the viewer, what they ask for, and
/// what they do to the view. To go back takes precedence over everything, and a
/// step to another image over changes of the view.
pub open spec fn single_pressed(m: AppModel, keys: Keys) -> (AppModel, RequestsModel, ViewChange) {
    match m.mode {
        Mode::Grid => (m, no_requests(), ViewChange::Replaced),
        Mode::Single { idx } => if keys.leave() {
            (
                AppModel {
                    mode: Mode::Grid,
                    selected: idx as int,
                    scroll_to_selected: true,
                    ..m
                },
                no_requests(),
                ViewChange::Replaced,
            )
        } else {
            let n = AppModel { help: m.help != keys.question, ..m };
            let asked = requests_on(m, idx as int, keys);
            if keys.step() != 0 {
                (stepped(n, idx as int, keys.step()), asked, ViewChange::Replaced)
            } else {
                (
                    n,
                    asked,
                    ViewChange::Adjusted { reset: keys.num0, zoom: keys.zoom() as i8 },
                )
            }
        },
    }
}

/// The numbers that some machine integers stand for.
pub open spec fn indices_view(v: Seq<usize>) -> Seq<int> {
    v.map_values(|i: usize| i as int)
}

/// The gallery after the thumbnail of an entry arrived.
pub open spec fn arrived(m: AppModel, i: int) -> AppModel {
    if 0 <= i < m.entries.len() {
        let e = m.entries[i];
        AppModel { entries: m.entries.update(i, EntryModel { thumb: true, ..e }), ..m }
    } else {
        m
    }
}

/// Every image position is the index of an image, the positions ascend, and
/// every image has one.
pub proof fn lemma_image_positions(entries: Seq<EntryModel>)
    ensures
        forall|k: int|
            0 <= k < image_positions(entries).len() ==> 0 <= #[trigger] image_positions(entries)[k]
                < entries.len() && entries[image_positions(entries)[k]].kind == Kind::Image,
        forall|j: int, k: int|
            0 <= j < k < image_positions(entries).len() ==> #[trigger] image_positions(entries)[j]
                < #[trigger] image_positions(entries)[k],
        forall|i: int|
            0 <= i < entries.len() && (#[trigger] entries[i]).kind == Kind::Image
                ==> image_positions(entries).contains(i),
    decreases entries.len(),
{
    if entries.len() > 0 {
        let front = entries.drop_last();
        let all = image_positions(entries);
        let some = image_positions(front);
        lemma_image_positions(front);
        assert forall|k: int| 0 <= k < all.len() implies 0 <= #[trigger] all[k] < entries.len()
            && entries[all[k]].kind == Kind::Image by {
            if k < some.len() {
                assert(all[k] == some[k]);
                assert(front[some[k]].kind == Kind::Image);
            }
        }
        assert forall|j: int, k: int| 0 <= j < k < all.len() implies #[trigger] all[j]
            < #[trigger] all[k] by {
            assert(all[j] == some[j]);
            if k < some.len() {
                assert(all[k] == some[k]);
            }
        }
        assert forall|i: int|
            0 <= i < entries.len() && (#[trigger] entries[i]).kind == Kind::Image implies all.contains(
            i,
        ) by {
            if i < front.len() {
                assert(front[i].kind == Kind::Image);
                let k = choose|k: int| 0 <= k < some.len() && some[k] == i;
                assert(all[k] == i);
            } else {
                assert(all[some.len() as int] == i);
            }
        }
    }
}

/// The place that is found lies in the sequence, if there is one, and holds
/// what was looked for.
pub proof fn lemma_place(s: Seq<int>, x: int, k: int)
    requires
        0 <= k,
        s.len() > 0,
    ensures
        0 <= place_from(s, x, k) < s.len(),
        (exists|i: int| k <= i < s.len() && #[trigger] s[i] == x) ==> s[place_from(s, x, k)] == x,
    decreases s.len() - k,
{
    if k < s.len() && s[k] != x {
        lemma_place(s, x, k + 1);
    }
}

/// The place `delta` behind the place `place` of `n`, round and round.
fn wrapped(place: usize, delta: isize, n: usize) -> (r: usize)
    requires
        place < n,
    ensures
        r == (place + delta) % (n as int),
{
    if delta >= 0 {
        let d: usize = (delta as usize) % n;
        proof {
            lemma_add_mod_noop(place as int, delta as int, n as int);
            lemma_small_mod(place as nat, n as nat);
            if place < n - d {
                lemma_small_mod((place + d) as nat, n as nat);
            } else {
                lemma_small_mod((place + d - n) as nat, n as nat);
                lemma_mod_add_multiples_vanish(place + d - n, n as int);
            }
        }
        if place < n - d {
            place + d
        } else {
            place - (n - d)
        }
    } else {
        let m: usize = (-(delta + 1)) as usize + 1;
        let d: usize = m % n;
        proof {
            assert(m == -delta);
            lemma_sub_mod_noop(place as int, m as int, n as int);
            lemma_small_mod(place as nat, n as nat);
            if place >= d {
                lemma_small_mod((place - d) as nat, n as nat);
            } else {
                lemma_small_mod((place - d + n) as nat, n as nat);
                lemma_mod_add_multiples_vanish(place - d, n as int);
            }
        }
        if place >= d {
            place - d
        } else {
            n - (d - place)
        }
    }
}

impl GallaApp {
    /// The state makes sense, and the images are known. This holds of every
    /// gallery: `new` makes it so, and whatever changes a gallery keeps it so.
    pub closed spec fn wf(&self) -> bool {
        &&& self@.wf()
        &&& indices_view(self.image_indices@) == image_positions(self@.entries)
    }

    /// The gallery when it starts.
    pub fn new(entries: Vec<Entry>, player: Vec<String>, drag: Vec<String>) -> (r: Self)
        ensures
            r@ == initial(entries_view(entries@), texts(player@), texts(drag@)),
            r.wf(),
    {
        let ghost all = entries_view(entries@);
        let mut image_indices: Vec<usize> = Vec::new();
        let mut i: usize = 0;
        assert(all.take(0) =~= seq![]);
        assert(indices_view(image_indices@) =~= seq![]);
        while i < entries.len()
            invariant
                i <= entries.len(),
                all == entries_view(entries@),
                indices_view(image_indices@) == image_positions(all.take(i as int)),
            decreases entries.len() - i,
        {
            assert(all.take(i + 1).drop_last() =~= all.take(i as int));
            assert(all.take(i + 1).last() == entries@[i as int]@);
            if entries[i].kind == Kind::Image {
                let ghost before = image_indices@;
                image_indices.push(i);
                assert(indices_view(image_indices@) =~= indices_view(before).push(i as int));
            }
            i = i + 1;
        }
        assert(all.take(i as int) =~= all);
        let mode = if entries.len() == 1 && entries[0].kind == Kind::Image {
            assert(all[0] == entries@[0]@);
            Mode::Single { idx: 0 }
        } else {
            assert(entries.len() == 1 ==> all[0] == entries@[0]@);
            Mode::Grid
        };
        GallaApp {
            entries,
            image_indices,
            player,
            drag,
            selected: 0,
            cols: 1,
            scroll_to_selected: false,
            mode,
            help: false,
            notice: None,
        }
    }

    /// The entries.
    pub fn entries(&self) -> (r: &[Entry])
        ensures
            entries_view(r@) == self@.entries,
    {
        self.entries.as_slice()
    }

    /// The indices of the images among the entries, ascending.
    pub fn image_indices(&self) -> (r: &[usize])
        requires
            self.wf(),
        ensures
            indices_view(r@) == image_positions(self@.entries),
    {
        self.image_indices.as_slice()
    }

    /// The index of the selected entry.
    pub fn selected(&self) -> (r: usize)
        ensures
            r == self@.selected,
    {
        self.selected
    }

    /// The number of columns that the grid was last drawn in.
    pub fn cols(&self) -> (r: usize)
        ensures
            r == self@.cols,
    {
        self.cols
    }

    /// Whether the selected entry is to be brought in sight.
    pub fn scroll_to_selected(&self) -> (r: bool)
        ensures
            r == self@.scroll_to_selected,
    {
        self.scroll_to_selected
    }

    /// What is on the screen.
    pub fn mode(&self) -> (r: Mode)
        ensures
            r == self@.mode,
    {
        self.mode
    }

    /// Whether the help is shown.
    pub fn help(&self) -> (r: bool)
        ensures
            r == self@.help,
    {
        self.help
    }

    /// Opens an entry: an image in the viewer, a video in the player.
    pub fn open(&mut self, i: usize) -> (r: Opened)
        requires
            old(self).wf(),
            i < old(self)@.entries.len(),
        ensures
            (final(self)@, r@) == opened(old(self)@, i as int),
            final(self).wf(),
    {
        assert(self@.entries[i as int] == self.entries@[i as int]@);
        match self.entries[i].kind {
            Kind::Image => {
                self.mode = Mode::Single { idx: i };
                Opened::Viewer
            },
            Kind::Video => Opened::Player {
                launch: launch(self.player.as_slice(), self.entries[i].path.as_slice()),
            },
        }
    }

    /// Moves the viewer to another image, `delta` images on from the entry
    /// `cur`, round and round.
    pub fn step_image(&mut self, cur: usize, delta: isize)
        requires
            old(self).wf(),
        ensures
            final(self)@ == stepped(old(self)@, cur as int, delta as int),
            final(self).wf(),
    {
        let ghost images = image_positions(self@.entries);
        assert(indices_view(self.image_indices@).len() == self.image_indices@.len());
        if self.image_indices.len() == 0 {
            return;
        }
        let mut place: usize = 0;
        let mut k: usize = 0;
        while k < self.image_indices.len()
            invariant_except_break
                k <= self.image_indices.len(),
                place == 0,
                place_from(images, cur as int, 0) == place_from(images, cur as int, k as int),
            invariant
                images == indices_view(self.image_indices@),
                self.image_indices.len() > 0,
                self == old(self),
            ensures
                place == place_from(images, cur as int, 0),
                place < self.image_indices.len(),
            decreases self.image_indices.len() - k,
        {
            assert(images[k as int] == self.image_indices@[k as int]);
            if self.image_indices[k] == cur {
                place = k;
                break;
            }
            k = k + 1;
        }
        let next = wrapped(place, delta, self.image_indices.len());
        proof {
            lemma_image_positions(self@.entries);
            assert(images[next as int] == self.image_indices@[next as int]);
        }
        self.mode = Mode::Single { idx: self.image_indices[next] };
    }

    /// Takes note that the thumbnail of the entry `i` arrived, and tells
    /// whether there is such an entry.
    pub fn update(&mut self, i: usize) -> (r: bool)
        requires
            old(self).wf(),
        ensures
            r == (i < old(self)@.entries.len()),
            final(self)@ == (if i < old(self)@.entries.len() {
                let e = old(self)@.entries[i as int];
                AppModel {
                    entries: old(self)@.entries.update(i as int, EntryModel { thumb: true, ..e }),
                    ..old(self)@
                }
            } else {
                old(self)@
            }),
            final(self)@ == arrived(old(self)@, i as int),
            final(self).wf(),
    {
        if i < self.entries.len() {
            let ghost before = self@.entries;
            let entry = Entry {
                path: copy_bytes(self.entries[i].path.as_slice()),
                kind: self.entries[i].kind,
                thumb: true,
            };
            self.entries[i] = entry;
            proof {
                assert(self@.entries =~= before.update(i as int, entry@));
                lemma_positions_by_kind(before, self@.entries);
            }
            true
        } else {
            false
        }
    }
}

/// What the keys ask for, if nothing.
fn nothing() -> (r: Requests)
    ensures
        r@ == no_requests(),
{
    Requests { quit: false, copy_path: None, copy_image: None, not_an_image: false, drag: None }
}

/// The entry that the keys lead to from the entry `sel` of `n`, in a grid of
/// `cols` columns.
fn move_selection(sel: usize, cols: usize, n: usize, keys: &Keys) -> (r: usize)
    requires
        sel < n || n == 0,
    ensures
        r == moved(sel as int, cols as int, n as int, *keys),
{
    let c: u128 = if cols < 1 {
        1
    } else {
        cols as u128
    };
    let mut s: u128 = sel as u128;
    if keys.arrow_right || keys.l {
        s = s + 1;
    }
    if (keys.arrow_left || keys.h) && s > 0 {
        s = s - 1;
    }
    if keys.arrow_down || keys.j {
        s = s + c;
    }
    if (keys.arrow_up || keys.k) && s >= c {
        s = s - c;
    }
    if n == 0 {
        0
    } else if s > (n - 1) as u128 {
        n - 1
    } else {
        s as usize
    }
}

impl GallaApp {
    /// What the keys ask for on the entry `i`.
    fn requests(&self, i: usize, keys: &Keys) -> (r: Requests)
        requires
            i < self.entries.len(),
        ensures
            r@ == requests_on(self@, i as int, *keys),
    {
        assert(self@.entries[i as int] == self.entries@[i as int]@);
        let entry = &self.entries[i];
        let copy_path = if keys.y && !keys.shift {
            Some(text_lossy(entry.path.as_slice()))
        } else {
            None
        };
        let copy_image = if keys.y && keys.shift && entry.kind == Kind::Image {
            Some(copy_bytes(entry.path.as_slice()))
        } else {
            None
        };
        let not_an_image = keys.y && keys.shift && entry.kind == Kind::Video;
        let drag = if keys.d {
            launch(self.drag.as_slice(), entry.path.as_slice())
        } else {
            None
        };
        Requests { quit: false, copy_path, copy_image, not_an_image, drag }
    }

    /// Takes the keys that were pressed in the grid: they move the selection,
    /// toggle the help, and ask for more.
    pub fn grid_keys(&mut self, keys: &Keys) -> (r: Requests)
        requires
            old(self).wf(),
        ensures
            (final(self)@, r@) == grid_pressed(old(self)@, *keys),
            final(self).wf(),
    {
        let n = self.entries.len();
        let sel = move_selection(self.selected, self.cols, n, keys);
        if sel != self.selected {
            self.selected = sel;
            self.scroll_to_selected = true;
        }
        if keys.escape || keys.q {
            let mut r = nothing();
            r.quit = true;
            return r;
        }
        self.help = self.help != keys.question;
        if n > 0 {
            self.requests(self.selected, keys)
        } else {
            nothing()
        }
    }

    /// Takes note that the grid was drawn in `cols` columns, and opens the entry
    /// that was clicked, or else the selected one if enter was pressed.
    pub fn grid_done(&mut self, cols: usize, clicked: Option<usize>, enter: bool) -> (r: Option<
        Opened,
    >)
        requires
            old(self).wf(),
            clicked matches Some(i) ==> i < old(self)@.entries.len(),
        ensures
            ({
                let (after, what) = grid_drawn(
                    old(self)@,
                    cols as int,
                    match clicked {
                        Some(i) => Some(i as int),
                        None => None,
                    },
                    enter,
                );
                &&& final(self)@ == after
                &&& what == match r {
                    Some(o) => Some(o@),
                    None => None,
                }
            }),
            final(self).wf(),
    {
        self.cols = cols;
        self.scroll_to_selected = false;
        match clicked {
            Some(i) => {
                self.selected = i;
                Some(self.open(i))
            },
            None => {
                if enter && self.entries.len() > 0 {
                    Some(self.open(self.selected))
                } else {
                    None
                }
            },
        }
    }

    /// Takes the keys that were pressed in the viewer: they lead back to the
    /// grid or on to another image, toggle the help, change the view, and ask
    /// for more.
    pub fn single_keys(&mut self, keys: &Keys) -> (r: (Requests, ViewChange))
        requires
            old(self).wf(),
        ensures
            (final(self)@, r.0@, r.1) == single_pressed(old(self)@, *keys),
            final(self).wf(),
    {
        let idx = match self.mode {
            Mode::Single { idx } => idx,
            Mode::Grid => {
                return (nothing(), ViewChange::Replaced);
            },
        };
        if keys.escape || keys.q {
            self.mode = Mode::Grid;
            self.selected = idx;
            self.scroll_to_selected = true;
            return (nothing(), ViewChange::Replaced);
        }
        let asked = self.requests(idx, keys);
        self.help = self.help != keys.question;
        let right = keys.arrow_right || keys.l;
        let left = keys.arrow_left || keys.h;
        if right && !left {
            self.step_image(idx, 1);
            (asked, ViewChange::Replaced)
        } else if left && !right {
            self.step_image(idx, -1);
            (asked, ViewChange::Replaced)
        } else {
            let zoom_in = keys.plus || keys.equals;
            let zoom: i8 = if zoom_in && !keys.minus {
                1
            } else if keys.minus && !zoom_in {
                -1
            } else {
                0
            };
            (asked, ViewChange::Adjusted { reset: keys.num0, zoom })
        }
    }
}

/// The image positions depend on the kinds of the entries alone.
proof fn lemma_positions_by_kind(a: Seq<EntryModel>, b: Seq<EntryModel>)
    requires
        a.len() == b.len(),
        forall|i: int| 0 <= i < a.len() ==> (#[trigger] a[i]).kind == b[i].kind,
    ensures
        image_positions(a) == image_positions(b),
    decreases a.len(),
{
    if a.len() > 0 {
        assert(a[a.len() - 1].kind == b[b.len() - 1].kind);
        assert forall|i: int| 0 <= i < a.drop_last().len() implies (
        #[trigger] a.drop_last()[i]).kind == b.drop_last()[i].kind by {
            assert(a[i].kind == b[i].kind);
        }
        lemma_positions_by_kind(a.drop_last(), b.drop_last());
    }
}

/// What is told of clipboard and drag actions.
#[derive(Clone, Copy, PartialEq, Eq, Structural, Debug)]
pub enum Notice {
    PathCopied,
    ImageCopied,
    CopyFailed,
    NotAnImage,
    DragStarted,
    DragFailed,
}

/// An action whose outcome is told.
#[derive(Clone, Copy, PartialEq, Eq, Structural, Debug)]
pub enum Action {
    CopyPath,
    CopyImage,
    Drag,
}

/// What is told of an action that succeeded or failed.
pub open spec fn notice_of(action: Action, ok: bool) -> Notice {
    match action {
        Action::CopyPath => if ok {
            Notice::PathCopied
        } else {
            Notice::CopyFailed
        },
        Action::CopyImage => if ok {
            Notice::ImageCopied
        } else {
            Notice::CopyFailed
        },
        Action::Drag => if ok {
            Notice::DragStarted
        } else {
            Notice::DragFailed
        },
    }
}

/// What is told of an action, given whether it succeeded.
pub fn notice_for(action: Action, ok: bool) -> (r: Notice)
    ensures
        r == notice_of(action, ok),
{
    match (action, ok) {
        (Action::CopyPath, true) => Notice::PathCopied,
        (Action::CopyImage, true) => Notice::ImageCopied,
        (Action::CopyPath, false) => Notice::CopyFailed,
        (Action::CopyImage, false) => Notice::CopyFailed,
        (Action::Drag, true) => Notice::DragStarted,
        (Action::Drag, false) => Notice::DragFailed,
    }
}

/// The text of a notice.
pub open spec fn notice_text(notice: Notice) -> Seq<char> {
    match notice {
        Notice::PathCopied => "Path copied"@,
        Notice::ImageCopied => "Image copied"@,
        Notice::CopyFailed => "Copy failed"@,
        Notice::NotAnImage => "Not an image"@,
        Notice::DragStarted => "Drag started"@,
        Notice::DragFailed => "Drag failed"@,
    }
}

/// The gallery after a notice was given at a time.
pub open spec fn notified(m: AppModel, notice: Notice, now: int) -> AppModel {
    AppModel {
        notice: Some(
            (
                notice_text(notice),
                if now + NOTICE_MS > u64::MAX {
                    u64::MAX as int
                } else {
                    now + NOTICE_MS
                },
            ),
        ),
        ..m
    }
}

/// The text of the notice that is shown at a time.
pub open spec fn shown_notice(m: AppModel, now: int) -> Option<Seq<char>> {
    match m.notice {
        Some((text, until)) => if now < until {
            Some(text)
        } else {
            None
        },
        None => None,
    }
}

/// The caption of a file.
pub open spec fn title_of(path: Seq<u8>) -> Seq<char> {
    match file_name_of(path) {
        Some(name) => lossy(name),
        None => Seq::empty(),
    }
}

impl GallaApp {
    /// Shows a notice from `now` on, in milliseconds, in the place of any other.
    pub fn notify(&mut self, notice: Notice, now: u64)
        requires
            old(self).wf(),
        ensures
            final(self)@ == (AppModel {
                notice: Some(
                    (
                        notice_text(notice),
                        if now + NOTICE_MS > u64::MAX {
                            u64::MAX as int
                        } else {
                            now + NOTICE_MS
                        },
                    ),
                ),
                ..old(self)@
            }),
            final(self)@ == notified(old(self)@, notice, now as int),
            final(self).wf(),
    {
        let text = match notice {
            Notice::PathCopied => "Path copied",
            Notice::ImageCopied => "Image copied",
            Notice::CopyFailed => "Copy failed",
            Notice::NotAnImage => "Not an image",
            Notice::DragStarted => "Drag started",
            Notice::DragFailed => "Drag failed",
        };
        self.notice = Some((text.to_owned(), now.saturating_add(NOTICE_MS)));
    }

    /// The text of the notice that is shown at the time `now`.
    pub fn notice_at(&self, now: u64) -> (r: Option<String>)
        ensures
            match r {
                Some(text) => self@.notice matches Some((t, until)) && t == text@ && now < until,
                None => self@.notice matches Some((_, until)) ==> now >= until,
            },
            shown_notice(self@, now as int) == match r {
                Some(text) => Some(text@),
                None => None,
            },
    {
        match &self.notice {
            Some((text, until)) => {
                if now < *until {
                    Some(text.clone())
                } else {
                    None
                }
            },
            None => None,
        }
    }
}

/// The caption of a file: its name, or nothing where the path has none.
pub fn title(path: &[u8]) -> (r: String)
    ensures
        r@ == match file_name_of(path@) {
            Some(name) => lossy(name),
            None => Seq::empty(),
        },
        r@ == title_of(path@),
{
    match file_name(path) {
        Some(name) => text_lossy(name.as_slice()),
        None => String::new(),
    }
}

/// In every gallery the selection is an entry, if there is any, and the viewer
/// shows an image.
pub proof fn law_state_makes_sense(app: &GallaApp)
    requires
        app.wf(),
    ensures
        app@.wf(),
        app@.entries.len() <= usize::MAX,
{
    assert(app@.entries.len() == app.entries.len());
}

/// The place of an image among the images is found.
pub proof fn lemma_place_of_image(entries: Seq<EntryModel>, p: int)
    requires
        0 <= p < image_positions(entries).len(),
    ensures
        place_from(image_positions(entries), image_positions(entries)[p], 0) == p,
{
    let images = image_positions(entries);
    lemma_image_positions(entries);
    lemma_place(images, images[p], 0);
    let q = place_from(images, images[p], 0);
    assert(images[q] == images[p]);
    if q < p {
        assert(images[q] < images[p]);
    } else if p < q {
        assert(images[p] < images[q]);
    }
}

/// An image has a place among the images.
pub proof fn lemma_image_has_place(entries: Seq<EntryModel>, cur: int)
    requires
        0 <= cur < entries.len(),
        entries[cur].kind == Kind::Image,
    ensures
        image_positions(entries).len() > 0,
        0 <= place_from(image_positions(entries), cur, 0) < image_positions(entries).len(),
        image_positions(entries)[place_from(image_positions(entries), cur, 0)] == cur,
{
    let images = image_positions(entries);
    lemma_image_positions(entries);
    assert(images.contains(cur));
    lemma_place(images, cur, 0);
}

/// A single file that was asked for starts in the viewer exactly if it is an
/// image.
pub proof fn law_single_image_starts_in_viewer(
    path: Seq<u8>,
    player: Seq<Seq<char>>,
    drag: Seq<Seq<char>>,
)
    ensures
        (initial(collected(seq![ListingModel::File { path }]), player, drag).mode == (Mode::Single {
            idx: 0,
        })) <==> path_kind(path) == Some(Kind::Image),
        path_kind(path) != Some(Kind::Image) ==> initial(
            collected(seq![ListingModel::File { path }]),
            player,
            drag,
        ).mode == Mode::Grid,
{
    let listings = seq![ListingModel::File { path }];
    reveal_with_fuel(gathered, 2);
    assert(listings.drop_last() =~= seq![]);
    assert(gathered(listings) =~= entry_for(path));
    reveal_with_fuel(stable_sort, 2);
    if entry_for(path).len() > 0 {
        assert(entry_for(path).drop_last() =~= seq![]);
    }
    assert(collected(listings) =~= entry_for(path));
}

/// Stepping on and back by the same number of images leads back to the image.
pub proof fn law_step_back_undoes_step(m: AppModel, cur: int, delta: int)
    requires
        0 <= cur < m.entries.len() <= usize::MAX,
        m.entries[cur].kind == Kind::Image,
    ensures
        stepped(m, cur, delta).mode matches Mode::Single { idx } && stepped(
            stepped(m, cur, delta),
            idx as int,
            -delta,
        ).mode == (Mode::Single { idx: cur as usize }),
{
    let images = image_positions(m.entries);
    let n = images.len() as int;
    lemma_image_has_place(m.entries, cur);
    lemma_image_positions(m.entries);
    let p = place_from(images, cur, 0);
    let q = (p + delta) % n;
    lemma_mod_bound(p + delta, n);
    lemma_place_of_image(m.entries, q);
    assert(0 <= images[q] < m.entries.len());
    lemma_sub_mod_noop(p + delta, delta, n);
    lemma_sub_mod_noop(q, delta, n);
    lemma_mod_twice(p + delta, n);
    lemma_small_mod(p as nat, n as nat);
    assert((q - delta) % n == p);
    assert(q + (-delta) == q - delta);
}

/// No keys.
pub open spec fn no_keys() -> Keys {
    Keys {
        arrow_left: false,
        arrow_right: false,
        arrow_up: false,
        arrow_down: false,
        h: false,
        j: false,
        k: false,
        l: false,
        enter: false,
        escape: false,
        q: false,
        y: false,
        d: false,
        question: false,
        num0: false,
        plus: false,
        equals: false,
        minus: false,
        shift: false,
    }
}

/// The key that shows the next image.
pub open spec fn next_key() -> Keys {
    Keys { arrow_right: true, ..no_keys() }
}

/// The key that shows the image before.
pub open spec fn previous_key() -> Keys {
    Keys { arrow_left: true, ..no_keys() }
}

/// The gallery after keys were pressed in the viewer some times.
pub open spec fn pressed_times(m: AppModel, keys: Keys, times: nat) -> AppModel
    decreases times,
{
    if times == 0 {
        m
    } else {
        single_pressed(pressed_times(m, keys, (times - 1) as nat), keys).0
    }
}

/// Whether the viewer shows the image `i` after `k` steps to the next image.
pub open spec fn shows_after(m: AppModel, k: int, i: int) -> bool {
    pressed_times(m, next_key(), k as nat).mode == (Mode::Single { idx: i as usize })
}

/// The image that is shown after some steps to the next one.
proof fn lemma_next_times(m: AppModel, cur: int, times: nat)
    requires
        m.wf(),
        m.mode == (Mode::Single { idx: cur as usize }),
        0 <= cur < m.entries.len() <= usize::MAX,
    ensures
        ({
            let images = image_positions(m.entries);
            let place = (place_from(images, cur, 0) + times) % (images.len() as int);
            &&& 0 <= place < images.len()
            &&& 0 <= images[place] < m.entries.len()
            &&& pressed_times(m, next_key(), times) == (AppModel {
                mode: Mode::Single { idx: images[place] as usize },
                ..m
            })
        }),
    decreases times,
{
    let images = image_positions(m.entries);
    let n = images.len() as int;
    lemma_image_has_place(m.entries, cur);
    lemma_image_positions(m.entries);
    let p = place_from(images, cur, 0);
    lemma_mod_bound(p + times, n);
    assert(0 <= images[(p + times) % n] < m.entries.len());
    if times == 0 {
        lemma_small_mod(p as nat, n as nat);
    } else {
        let before = p + times - 1;
        lemma_next_times(m, cur, (times - 1) as nat);
        lemma_place_of_image(m.entries, before % n);
        lemma_add_mod_noop(before, 1, n);
        lemma_add_mod_noop(before % n, 1, n);
        lemma_mod_twice(before, n);
        assert((before % n + 1) % n == (p + times) % n);
    }
}

/// Less than once round from `p` on.
proof fn lemma_round(p: int, k: int, n: int)
    requires
        0 <= p < n,
        0 <= k < n,
    ensures
        (p + k) % n == (if p + k < n {
            p + k
        } else {
            p + k - n
        }),
{
    if p + k < n {
        lemma_small_mod((p + k) as nat, n as nat);
    } else {
        lemma_small_mod((p + k - n) as nat, n as nat);
        lemma_mod_add_multiples_vanish(p + k - n, n);
    }
}

/// Stepping to the next image, one step at a time, shows every image exactly
/// once on the way round.
pub proof fn law_every_image_is_shown_once(m: AppModel, i: int)
    requires
        m.wf(),
        m.mode is Single,
        m.entries.len() <= usize::MAX,
        0 <= i < m.entries.len(),
        m.entries[i].kind == Kind::Image,
    ensures
        exists|k: int|
            0 <= k < image_positions(m.entries).len() && #[trigger] shows_after(m, k, i),
        forall|j: int, k: int|
            0 <= j < image_positions(m.entries).len() && 0 <= k < image_positions(m.entries).len()
                && #[trigger] shows_after(m, j, i) && #[trigger] shows_after(m, k, i) ==> j == k,
{
    let cur = m.mode->idx as int;
    let images = image_positions(m.entries);
    let n = images.len() as int;
    lemma_image_has_place(m.entries, cur);
    lemma_image_has_place(m.entries, i);
    let p = place_from(images, cur, 0);
    let q = place_from(images, i, 0);
    let way = if q >= p {
        q - p
    } else {
        q - p + n
    };
    lemma_round(p, way, n);
    lemma_next_times(m, cur, way as nat);
    assert(shows_after(m, way, i));
    assert forall|k: int| 0 <= k < n && #[trigger] shows_after(m, k, i) implies k == way by {
        lemma_next_times(m, cur, k as nat);
        lemma_round(p, k, n);
        lemma_place_of_image(m.entries, (p + k) % n);
    }
}

/// As many steps to the next image as there are images lead back to where they
/// began.
pub proof fn law_steps_go_round(m: AppModel)
    requires
        m.wf(),
        m.mode is Single,
        m.entries.len() <= usize::MAX,
    ensures
        pressed_times(m, next_key(), image_positions(m.entries).len()) == m,
{
    let cur = m.mode->idx as int;
    let images = image_positions(m.entries);
    let n = images.len() as int;
    lemma_image_has_place(m.entries, cur);
    lemma_next_times(m, cur, n as nat);
    let p = place_from(images, cur, 0);
    lemma_mod_add_multiples_vanish(p, n);
    lemma_small_mod(p as nat, n as nat);
    assert((p + n) % n == p);
}

/// The keys for the next image and for the one before undo each other.
pub proof fn law_next_and_previous_undo_each_other(m: AppModel)
    requires
        m.wf(),
        m.mode is Single,
        m.entries.len() <= usize::MAX,
    ensures
        single_pressed(single_pressed(m, next_key()).0, previous_key()).0 == m,
        single_pressed(single_pressed(m, previous_key()).0, next_key()).0 == m,
{
    let cur = m.mode->idx as int;
    lemma_image_has_place(m.entries, cur);
    law_step_back_undoes_step(m, cur, 1);
    law_step_back_undoes_step(m, cur, -1);
}

/// The selection never leaves the grid, whatever is pressed.
pub proof fn law_selection_stays_in_grid(sel: int, cols: int, n: int, keys: Keys)
    requires
        0 <= sel < n,
    ensures
        0 <= moved(sel, cols, n, keys) < n,
{
}

/// To the right and to the left undo each other, and so do down and up, where
/// the grid goes on.
pub proof fn law_opposite_moves_undo_each_other(sel: int, cols: int, n: int)
    requires
        0 <= sel < n,
        1 <= cols,
    ensures
        ({
            let right = Keys { arrow_right: true, ..no_keys() };
            let left = Keys { arrow_left: true, ..no_keys() };
            let down = Keys { arrow_down: true, ..no_keys() };
            let up = Keys { arrow_up: true, ..no_keys() };
            &&& sel + 1 < n ==> moved(moved(sel, cols, n, right), cols, n, left) == sel
            &&& sel > 0 ==> moved(moved(sel, cols, n, left), cols, n, right) == sel
            &&& sel + cols < n ==> moved(moved(sel, cols, n, down), cols, n, up) == sel
            &&& sel >= cols ==> moved(moved(sel, cols, n, up), cols, n, down) == sel
        }),
{
}

/// Keys with the letters that move replaced by the arrows for which they stand.
pub open spec fn as_arrows(keys: Keys) -> Keys {
    Keys {
        arrow_left: keys.left(),
        arrow_right: keys.right(),
        arrow_up: keys.up(),
        arrow_down: keys.down(),
        h: false,
        j: false,
        k: false,
        l: false,
        ..keys
    }
}

/// The letters do what the arrows do.
pub proof fn law_letters_are_arrows(m: AppModel, keys: Keys)
    ensures
        ({
            let arrows = Keys {
                arrow_left: keys.left(),
                arrow_right: keys.right(),
                arrow_up: keys.up(),
                arrow_down: keys.down(),
                h: false,
                j: false,
                k: false,
                l: false,
                ..keys
            };
            &&& grid_pressed(m, keys) == grid_pressed(m, arrows)
            &&& single_pressed(m, keys) == single_pressed(m, arrows)
        }),
{
    let arrows = as_arrows(keys);
    lemma_same_meaning(keys);
    assert(grid_moved(m, keys) == grid_moved(m, arrows));
    let n = grid_moved(m, keys);
    assert(requests_on(n, n.selected, keys) == requests_on(n, n.selected, arrows));
    assert(grid_pressed(m, keys) == grid_pressed(m, arrows));
    if m.mode is Single {
        let idx = m.mode->idx as int;
        assert(requests_on(m, idx, keys) == requests_on(m, idx, arrows));
    }
}

proof fn lemma_same_meaning(keys: Keys)
    ensures
        ({
            let arrows = as_arrows(keys);
            &&& arrows.left() == keys.left()
            &&& arrows.right() == keys.right()
            &&& arrows.up() == keys.up()
            &&& arrows.down() == keys.down()
            &&& arrows.leave() == keys.leave()
            &&& arrows.copy_path() == keys.copy_path()
            &&& arrows.copy_image() == keys.copy_image()
            &&& arrows.step() == keys.step()
            &&& arrows.zoom() == keys.zoom()
        }),
{
}

/// Leaving the viewer leads to the grid, with the image selected and in sight;
/// leaving the grid quits.
pub proof fn law_leaving(m: AppModel, keys: Keys)
    requires
        m.wf(),
        keys.leave(),
    ensures
        m.mode matches Mode::Single { idx } ==> {
            let (after, asked, _) = single_pressed(m, keys);
            &&& after.mode == Mode::Grid
            &&& after.selected == idx
            &&& after.scroll_to_selected
            &&& !asked.quit
        },
        m.mode == Mode::Grid ==> grid_pressed(m, keys).1.quit,
{
}

/// The key for the help, pressed twice, changes nothing.
pub proof fn law_help_toggles(m: AppModel)
    requires
        m.wf(),
    ensures
        ({
            let ask = Keys { question: true, ..no_keys() };
            &&& grid_pressed(m, ask).0.help == !m.help
            &&& grid_pressed(grid_pressed(m, ask).0, ask).0 == m
            &&& m.mode is Single ==> single_pressed(m, ask).0.help == !m.help
            &&& m.mode is Single ==> single_pressed(single_pressed(m, ask).0, ask).0 == m
        }),
{
}

/// Copying and dragging concern the selected entry in the grid and the shown
/// one in the viewer, and change nothing in the gallery.
pub proof fn law_requests_concern_the_entry(m: AppModel, shift: bool)
    requires
        m.wf(),
        m.entries.len() > 0,
    ensures
        ({
            let keys = Keys { y: true, d: true, shift, ..no_keys() };
            &&& grid_pressed(m, keys) == (m, requests_on(m, m.selected, keys))
            &&& m.mode matches Mode::Single { idx } ==> {
                &&& single_pressed(m, keys).0 == m
                &&& single_pressed(m, keys).1 == requests_on(m, idx as int, keys)
            }
        }),
{
}

/// To open an image starts no program, and to open a video leaves the gallery
/// as it is.
pub proof fn law_opening(m: AppModel, i: int)
    requires
        0 <= i < m.entries.len() <= usize::MAX,
    ensures
        m.entries[i].kind == Kind::Image ==> opened(m, i).1 is Viewer && opened(m, i).0.mode == (
        Mode::Single { idx: i as usize }),
        m.entries[i].kind == Kind::Video ==> opened(m, i) == (
            m,
            OpenedModel::Player { launch: launch_of(m.player, m.entries[i].path) },
        ),
{
}

} // verus!
