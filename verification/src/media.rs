//! Media files: which files the gallery shows, and in which order.

use vstd::prelude::*;

use crate::order::{
    lemma_sort_of_concat, lemma_stable_sort, merge, rank_class, stable_sort, total_preorder,
};
use crate::path::{
    components, copy_bytes, extension, extension_of, lemma_path_order, parse_path, parts_before,
    parts_view, path_le, Part,
};
use crate::text::{
    bytes_folded, law_lowercase_ignores_case, lossy, lowercase, same_text, text_lossy, to_lowercase,
};

verus! {

/// What a media file holds.
#[derive(Clone, Copy, PartialEq, Eq, Structural, Debug)]
pub enum Kind {
    Image,
    Video,
}

/// The extensions of images.
pub open spec fn is_image_ext(ext: Seq<char>) -> bool {
    ||| ext == "jpg"@
    ||| ext == "jpeg"@
    ||| ext == "png"@
    ||| ext == "gif"@
    ||| ext == "bmp"@
    ||| ext == "webp"@
    ||| ext == "svg"@
    ||| ext == "ico"@
    ||| ext == "tiff"@
    ||| ext == "tif"@
    ||| ext == "heic"@
    ||| ext == "heif"@
    ||| ext == "avif"@
    ||| ext == "jxl"@
}

/// The extensions of videos.
pub open spec fn is_video_ext(ext: Seq<char>) -> bool {
    ||| ext == "mp4"@
    ||| ext == "mkv"@
    ||| ext == "webm"@
    ||| ext == "mov"@
    ||| ext == "avi"@
    ||| ext == "wmv"@
    ||| ext == "flv"@
    ||| ext == "m4v"@
    ||| ext == "mpg"@
    ||| ext == "mpeg"@
    ||| ext == "ts"@
    ||| ext == "m2ts"@
    ||| ext == "3gp"@
    ||| ext == "ogv"@
}

/// The kind that a lower-case extension stands for.
pub open spec fn ext_kind(ext: Seq<char>) -> Option<Kind> {
    if is_image_ext(ext) {
        Some(Kind::Image)
    } else if is_video_ext(ext) {
        Some(Kind::Video)
    } else {
        None
    }
}

/// The extension of a path, as lower-case text.
pub open spec fn ext_text(path: Seq<u8>) -> Option<Seq<char>> {
    match extension_of(path) {
        Some(ext) => Some(lowercase(lossy(ext))),
        None => None,
    }
}

/// The kind of the file that a path leads to, going by its extension.
pub open spec fn path_kind(path: Seq<u8>) -> Option<Kind> {
    match ext_text(path) {
        Some(ext) => ext_kind(ext),
        None => None,
    }
}

/// The extension of a path, as lower-case text.
pub fn ext_of(p: &[u8]) -> (r: Option<String>)
    ensures
        match r {
            Some(ext) => ext_text(p@) == Some(ext@),
            None => ext_text(p@) is None,
        },
{
    match extension(p) {
        Some(ext) => Some(to_lowercase(text_lossy(ext.as_slice()).as_str())),
        None => None,
    }
}

/// Tells whether `e` is the extension of images.
fn image_ext(e: &str) -> (r: bool)
    ensures
        r == is_image_ext(e@),
{
    same_text(e, "jpg") || same_text(e, "jpeg") || same_text(e, "png") || same_text(e, "gif")
        || same_text(e, "bmp") || same_text(e, "webp") || same_text(e, "svg") || same_text(
        e,
        "ico",
    ) || same_text(e, "tiff") || same_text(e, "tif") || same_text(e, "heic") || same_text(
        e,
        "heif",
    ) || same_text(e, "avif") || same_text(e, "jxl")
}

/// Tells whether `e` is the extension of videos.
fn video_ext(e: &str) -> (r: bool)
    ensures
        r == is_video_ext(e@),
{
    same_text(e, "mp4") || same_text(e, "mkv") || same_text(e, "webm") || same_text(e, "mov")
        || same_text(e, "avi") || same_text(e, "wmv") || same_text(e, "flv") || same_text(
        e,
        "m4v",
    ) || same_text(e, "mpg") || same_text(e, "mpeg") || same_text(e, "ts") || same_text(e, "m2ts")
        || same_text(e, "3gp") || same_text(e, "ogv")
}

/// The kind that a lower-case extension stands for.
pub fn kind_of_ext(e: &str) -> (r: Option<Kind>)
    ensures
        r == ext_kind(e@),
{
    if image_ext(e) {
        Some(Kind::Image)
    } else if video_ext(e) {
        Some(Kind::Video)
    } else {
        None
    }
}

/// The kind of the file that a path leads to, going by its extension.
pub fn kind_of(p: &[u8]) -> (r: Option<Kind>)
    ensures
        r == path_kind(p@),
{
    match ext_of(p) {
        Some(e) => kind_of_ext(e.as_str()),
        None => None,
    }
}

/// A media file of the gallery.
#[derive(Debug)]
pub struct Entry {
    pub path: Vec<u8>,
    pub kind: Kind,
    /// Whether a thumbnail of it has arrived.
    pub thumb: bool,
}

/// An entry, as mathematics.
pub struct EntryModel {
    pub path: Seq<u8>,
    pub kind: Kind,
    pub thumb: bool,
}

impl View for Entry {
    type V = EntryModel;

    open spec fn view(&self) -> EntryModel {
        EntryModel { path: self.path@, kind: self.kind, thumb: self.thumb }
    }
}

/// The models of some entries.
pub open spec fn entries_view(v: Seq<Entry>) -> Seq<EntryModel> {
    v.map_values(|e: Entry| e@)
}

/// Something that a directory holds.
#[derive(Debug)]
pub struct DirItem {
    pub path: Vec<u8>,
    /// Whether it is a regular file.
    pub is_file: bool,
}

/// Something that a directory holds, as mathematics.
pub struct DirItemModel {
    pub path: Seq<u8>,
    pub is_file: bool,
}

impl View for DirItem {
    type V = DirItemModel;

    open spec fn view(&self) -> DirItemModel {
        DirItemModel { path: self.path@, is_file: self.is_file }
    }
}

/// The models of some directory items.
pub open spec fn items_view(v: Seq<DirItem>) -> Seq<DirItemModel> {
    v.map_values(|i: DirItem| i@)
}

/// What the file system says of a path that was asked for.
#[derive(Debug)]
pub enum Listing {
    /// A directory, with what could be read of it.
    Dir { items: Vec<DirItem> },
    /// A regular file.
    File { path: Vec<u8> },
    /// Neither, or nothing at all.
    Other,
}

/// What the file system says of a path, as mathematics.
pub enum ListingModel {
    Dir { items: Seq<DirItemModel> },
    File { path: Seq<u8> },
    Other,
}

impl View for Listing {
    type V = ListingModel;

    open spec fn view(&self) -> ListingModel {
        match *self {
            Listing::Dir { items } => ListingModel::Dir { items: items_view(items@) },
            Listing::File { path } => ListingModel::File { path: path@ },
            Listing::Other => ListingModel::Other,
        }
    }
}

/// The entry for a file, if it is a media file.
pub open spec fn entry_for(path: Seq<u8>) -> Seq<EntryModel> {
    match path_kind(path) {
        Some(kind) => seq![EntryModel { path, kind, thumb: false }],
        None => seq![],
    }
}

/// The entries for the files among some items, in their order.
pub open spec fn entries_of_items(items: Seq<DirItemModel>) -> Seq<EntryModel>
    decreases items.len(),
{
    if items.len() == 0 {
        seq![]
    } else {
        entries_of_items(items.drop_last()) + (if items.last().is_file {
            entry_for(items.last().path)
        } else {
            seq![]
        })
    }
}

/// The entries that one requested path contributes: a directory those of its
/// files, and a file its own.
pub open spec fn entries_of_listing(l: ListingModel) -> Seq<EntryModel> {
    match l {
        ListingModel::Dir { items } => entries_of_items(items),
        ListingModel::File { path } => entry_for(path),
        ListingModel::Other => seq![],
    }
}

/// The entries that the requested paths contribute, as they were found.
pub open spec fn gathered(listings: Seq<ListingModel>) -> Seq<EntryModel>
    decreases listings.len(),
{
    if listings.len() == 0 {
        seq![]
    } else {
        gathered(listings.drop_last()) + entries_of_listing(listings.last())
    }
}

/// The order of entries: that of their paths.
pub open spec fn entry_le() -> spec_fn(EntryModel, EntryModel) -> bool {
    |a: EntryModel, b: EntryModel| path_le(a.path, b.path)
}

/// The entries of the gallery: what the requested paths contribute, in path
/// order.
pub open spec fn collected(listings: Seq<ListingModel>) -> Seq<EntryModel> {
    stable_sort(entry_le(), gathered(listings))
}

/// An entry with the components of its path at hand.
struct Keyed {
    key: Vec<Part>,
    entry: Entry,
}

impl Keyed {
    spec fn wf(self) -> bool {
        parts_view(self.key@) == components(self.entry.path@)
    }
}

spec fn all_wf(v: Seq<Keyed>) -> bool {
    forall|i: int| 0 <= i < v.len() ==> (#[trigger] v[i]).wf()
}

spec fn keyed_view(v: Seq<Keyed>) -> Seq<EntryModel> {
    v.map_values(|k: Keyed| k.entry@)
}

/// The order of entries is total and transitive.
proof fn lemma_entry_order()
    ensures
        total_preorder(entry_le()),
{
    lemma_path_order();
    let le = |a: Seq<u8>, b: Seq<u8>| path_le(a, b);
    let f = entry_le();
    assert forall|a: EntryModel, b: EntryModel| #[trigger] f(a, b) || #[trigger] f(b, a) by {
        assert(le(a.path, b.path) || le(b.path, a.path));
    }
    assert forall|a: EntryModel, b: EntryModel, c: EntryModel| #[trigger]
        f(a, b) && #[trigger] f(b, c) implies f(a, c) by {
        assert(le(a.path, b.path) && le(b.path, c.path));
        assert(le(a.path, c.path));
    }
}

/// The elements of `v`, last one first.
fn reversed<T>(v: Vec<T>) -> (r: Vec<T>)
    ensures
        r@ == v@.reverse(),
{
    let ghost s = v@;
    let mut v = v;
    let mut r: Vec<T> = Vec::new();
    while v.len() > 0
        invariant
            s.reverse() == r@ + v@.reverse(),
        decreases v.len(),
    {
        let ghost rest = v@;
        if let Some(x) = v.pop() {
            r.push(x);
            assert(rest.reverse() =~= seq![x] + v@.reverse());
            assert(s.reverse() =~= r@ + v@.reverse());
        }
    }
    assert(r@ + v@.reverse() =~= r@);
    r
}

/// Merges two ascending runs.
fn merge_runs(a: Vec<Keyed>, b: Vec<Keyed>) -> (r: Vec<Keyed>)
    requires
        all_wf(a@),
        all_wf(b@),
    ensures
        all_wf(r@),
        keyed_view(r@) == merge(entry_le(), keyed_view(a@), keyed_view(b@)),
{
    let ghost goal = merge(entry_le(), keyed_view(a@), keyed_view(b@));
    let mut a = a;
    let mut b = b;
    // The merged run from its end on, highest element first.
    let mut rev: Vec<Keyed> = Vec::new();
    assert(keyed_view(rev@).reverse() =~= Seq::empty());
    assert(goal + keyed_view(rev@).reverse() =~= goal);
    while a.len() > 0 && b.len() > 0
        invariant
            all_wf(a@),
            all_wf(b@),
            all_wf(rev@),
            goal == merge(entry_le(), keyed_view(a@), keyed_view(b@)) + keyed_view(rev@).reverse(),
        decreases a.len() + b.len(),
    {
        let ghost va = keyed_view(a@);
        let ghost vb = keyed_view(b@);
        let ghost vr = keyed_view(rev@);
        assert(va.last() == a@.last().entry@ && vb.last() == b@.last().entry@);
        assert(a@.last().wf() && b@.last().wf());
        let b_before_a = parts_before(&b[b.len() - 1].key, &a[a.len() - 1].key);
        let top = if b_before_a {
            let top = a.pop();
            assert(keyed_view(a@) =~= va.drop_last());
            top
        } else {
            let top = b.pop();
            assert(keyed_view(b@) =~= vb.drop_last());
            top
        };
        if let Some(k) = top {
            rev.push(k);
            assert(keyed_view(rev@) =~= vr.push(k.entry@));
            assert(keyed_view(rev@).reverse() =~= seq![k.entry@] + vr.reverse());
            assert(goal =~= merge(entry_le(), keyed_view(a@), keyed_view(b@)) + keyed_view(
                rev@,
            ).reverse());
        }
    }
    let mut out = if a.len() > 0 {
        a
    } else {
        b
    };
    assert(goal == keyed_view(out@) + keyed_view(rev@).reverse());
    let ghost vo = keyed_view(out@);
    let ghost vr = keyed_view(rev@);
    let mut tail = reversed(rev);
    assert(keyed_view(tail@) =~= vr.reverse());
    out.append(&mut tail);
    assert(keyed_view(out@) =~= vo + vr.reverse());
    out
}

/// Sorts by path order, stably.
fn sort_keyed(v: Vec<Keyed>) -> (r: Vec<Keyed>)
    requires
        all_wf(v@),
    ensures
        all_wf(r@),
        keyed_view(r@) == stable_sort(entry_le(), keyed_view(v@)),
    decreases v.len(),
{
    let n = v.len();
    if n <= 1 {
        proof {
            reveal_with_fuel(stable_sort, 2);
            let s = keyed_view(v@);
            if n == 1 {
                assert(s.drop_last() =~= Seq::empty());
                assert(s =~= Seq::empty().push(s.last()));
            }
        }
        return v;
    }
    let ghost s = keyed_view(v@);
    let mut front = v;
    let back = front.split_off(n / 2);
    proof {
        lemma_entry_order();
        lemma_sort_of_concat(entry_le(), keyed_view(front@), keyed_view(back@));
        assert(keyed_view(front@) + keyed_view(back@) =~= s);
    }
    merge_runs(sort_keyed(front), sort_keyed(back))
}

/// Sorts entries by path order, stably.
pub fn sort_entries(entries: Vec<Entry>) -> (r: Vec<Entry>)
    ensures
        entries_view(r@) == stable_sort(entry_le(), entries_view(entries@)),
{
    let ghost s = entries_view(entries@);
    let mut entries = entries;
    let mut keyed: Vec<Keyed> = Vec::new();
    // Taken from the end, so in reverse.
    while entries.len() > 0
        invariant
            all_wf(keyed@),
            s == entries_view(entries@) + keyed_view(keyed@).reverse(),
        decreases entries.len(),
    {
        let ghost vi = entries_view(entries@);
        let ghost vk = keyed_view(keyed@);
        if let Some(entry) = entries.pop() {
            let key = parse_path(entry.path.as_slice());
            keyed.push(Keyed { key, entry });
            assert(entries_view(entries@) =~= vi.drop_last());
            assert(keyed_view(keyed@) =~= vk.push(entry@));
            assert(keyed_view(keyed@).reverse() =~= seq![entry@] + vk.reverse());
            assert(s =~= entries_view(entries@) + keyed_view(keyed@).reverse());
        }
    }
    let ghost vk = keyed_view(keyed@);
    let ordered = reversed(keyed);
    assert(keyed_view(ordered@) =~= vk.reverse());
    assert(keyed_view(ordered@) =~= s);
    let mut sorted = sort_keyed(ordered);
    let ghost goal = keyed_view(sorted@);
    let mut rev: Vec<Entry> = Vec::new();
    while sorted.len() > 0
        invariant
            goal == keyed_view(sorted@) + entries_view(rev@).reverse(),
        decreases sorted.len(),
    {
        let ghost vs = keyed_view(sorted@);
        let ghost vr = entries_view(rev@);
        if let Some(k) = sorted.pop() {
            rev.push(k.entry);
            assert(keyed_view(sorted@) =~= vs.drop_last());
            assert(entries_view(rev@) =~= vr.push(k.entry@));
            assert(entries_view(rev@).reverse() =~= seq![k.entry@] + vr.reverse());
            assert(goal =~= keyed_view(sorted@) + entries_view(rev@).reverse());
        }
    }
    let ghost vr = entries_view(rev@);
    let out = reversed(rev);
    assert(entries_view(out@) =~= vr.reverse());
    assert(goal =~= entries_view(out@));
    out
}

/// Adds the entry for a file to `out`, if it is a media file.
fn push_media(out: &mut Vec<Entry>, path: Vec<u8>)
    ensures
        entries_view(final(out)@) == entries_view(old(out)@) + entry_for(path@),
{
    if let Some(kind) = kind_of(path.as_slice()) {
        let entry = Entry { path, kind, thumb: false };
        out.push(entry);
        assert(entries_view(out@) =~= entries_view(old(out)@) + seq![entry@]);
    } else {
        assert(entries_view(old(out)@) + seq![] =~= entries_view(old(out)@));
    }
}

/// Expands the requested paths into a flat, sorted list of media files, given
/// what the file system says of each. Files are taken as they are; directories
/// were listed one level deep.
pub fn collect(listings: &[Listing]) -> (r: Vec<Entry>)
    ensures
        entries_view(r@) == collected(listings@.map_values(|l: Listing| l@)),
{
    let ghost models = listings@.map_values(|l: Listing| l@);
    let mut out: Vec<Entry> = Vec::new();
    let mut i: usize = 0;
    assert(models.take(0) =~= Seq::empty());
    assert(entries_view(out@) =~= Seq::empty());
    while i < listings.len()
        invariant
            i <= listings.len(),
            models == listings@.map_values(|l: Listing| l@),
            entries_view(out@) == gathered(models.take(i as int)),
        decreases listings.len() - i,
    {
        let ghost before = entries_view(out@);
        assert(models.take(i + 1).drop_last() =~= models.take(i as int));
        assert(models.take(i + 1).last() == listings@[i as int]@);
        match &listings[i] {
            Listing::Dir { items } => {
                let ghost files = items_view(items@);
                let mut j: usize = 0;
                assert(files.take(0) =~= Seq::empty());
                assert(before + entries_of_items(files.take(0)) =~= before);
                while j < items.len()
                    invariant
                        j <= items.len(),
                        files == items_view(items@),
                        entries_view(out@) == before + entries_of_items(files.take(j as int)),
                    decreases items.len() - j,
                {
                    assert(files.take(j + 1).drop_last() =~= files.take(j as int));
                    assert(files.take(j + 1).last() == items@[j as int]@);
                    let ghost so_far = entries_of_items(files.take(j as int));
                    if items[j].is_file {
                        push_media(&mut out, copy_bytes(items[j].path.as_slice()));
                        assert(entries_view(out@) =~= before + (so_far + entry_for(
                            files[j as int].path,
                        )));
                    } else {
                        assert(so_far + seq![] =~= so_far);
                    }
                    j = j + 1;
                }
                assert(files.take(j as int) =~= files);
            },
            Listing::File { path } => {
                push_media(&mut out, copy_bytes(path.as_slice()));
            },
            Listing::Other => {
                assert(before + seq![] =~= before);
            },
        }
        i = i + 1;
    }
    assert(models.take(i as int) =~= models);
    sort_entries(out)
}

/// No extension stands for both an image and a video.
pub proof fn law_kinds_are_disjoint(ext: Seq<char>)
    ensures
        !(is_image_ext(ext) && is_video_ext(ext)),
{
    reveal_strlit("jpg");
    reveal_strlit("jpeg");
    reveal_strlit("png");
    reveal_strlit("gif");
    reveal_strlit("bmp");
    reveal_strlit("webp");
    reveal_strlit("svg");
    reveal_strlit("ico");
    reveal_strlit("tiff");
    reveal_strlit("tif");
    reveal_strlit("heic");
    reveal_strlit("heif");
    reveal_strlit("avif");
    reveal_strlit("jxl");
    reveal_strlit("mp4");
    reveal_strlit("mkv");
    reveal_strlit("webm");
    reveal_strlit("mov");
    reveal_strlit("avi");
    reveal_strlit("wmv");
    reveal_strlit("flv");
    reveal_strlit("m4v");
    reveal_strlit("mpg");
    reveal_strlit("mpeg");
    reveal_strlit("ts");
    reveal_strlit("m2ts");
    reveal_strlit("3gp");
    reveal_strlit("ogv");
    // Extensions of one length differ in their first letter, but for `webp` and
    // `webm`.
    if is_image_ext(ext) {
        let c = ext[0];
        assert(ext.len() == 3 ==> c == 'j' || c == 'p' || c == 'g' || c == 'b' || c == 's' || c
            == 'i' || c == 't');
        assert(ext.len() == 4 ==> c == 'j' || c == 't' || c == 'h' || c == 'a' || ext[3] == 'p');
    }
    if is_video_ext(ext) {
        let c = ext[0];
        assert(ext.len() == 3 ==> c == 'm' || c == 'a' || c == 'w' || c == 'f' || c == '3' || c
            == 'o');
        assert(ext.len() == 4 ==> (c == 'w' || c == 'm') && ext[3] != 'p');
    }
}

/// The kind of a file does not depend on the case of the ASCII letters in its
/// extension.
pub proof fn law_kind_ignores_case(p: Seq<u8>, q: Seq<u8>)
    requires
        extension_of(p) is Some,
        extension_of(q) is Some,
        bytes_folded(extension_of(p)->0) == bytes_folded(extension_of(q)->0),
    ensures
        path_kind(p) == path_kind(q),
{
    law_lowercase_ignores_case(extension_of(p)->0, extension_of(q)->0);
}

/// Whether a directory holds a file.
pub open spec fn holds_file(items: Seq<DirItemModel>, path: Seq<u8>) -> bool {
    exists|k: int| 0 <= k < items.len() && (#[trigger] items[k]).path == path && items[k].is_file
}

/// Whether a requested path asks for a file: a file asks for itself, a directory
/// for the files that it holds.
pub open spec fn asks_for(l: ListingModel, path: Seq<u8>) -> bool {
    match l {
        ListingModel::Dir { items } => holds_file(items, path),
        ListingModel::File { path: p } => p == path,
        ListingModel::Other => false,
    }
}

proof fn lemma_entries_of_items(items: Seq<DirItemModel>, e: EntryModel)
    ensures
        entries_of_items(items).contains(e) <==> (path_kind(e.path) == Some(e.kind) && !e.thumb
            && holds_file(items, e.path)),
    decreases items.len(),
{
    if items.len() > 0 {
        let front = items.drop_last();
        let last = items.last();
        let some = entries_of_items(front);
        let more = if last.is_file {
            entry_for(last.path)
        } else {
            seq![]
        };
        lemma_entries_of_items(front, e);
        lemma_contains_in_either(some, more, e);
        lemma_entry_for(last.path, e);
        if holds_file(items, e.path) {
            let k = choose|k: int|
                0 <= k < items.len() && (#[trigger] items[k]).path == e.path && items[k].is_file;
            if k < front.len() {
                assert(front[k].path == e.path && front[k].is_file);
            }
        }
        if holds_file(front, e.path) {
            let k = choose|k: int|
                0 <= k < front.len() && (#[trigger] front[k]).path == e.path && front[k].is_file;
            assert(items[k].path == e.path && items[k].is_file);
        }
        if last.is_file && last.path == e.path {
            assert(items[items.len() - 1].path == e.path && items[items.len() - 1].is_file);
        }
        assert(holds_file(items, e.path) <==> holds_file(front, e.path) || (last.is_file
            && last.path == e.path));
        assert(entries_of_items(items) == some + more);
        assert(more.contains(e) <==> last.is_file && entry_for(last.path).contains(e));
    }
}

proof fn lemma_contains_in_either<A>(a: Seq<A>, b: Seq<A>, x: A)
    ensures
        (a + b).contains(x) <==> a.contains(x) || b.contains(x),
{
    if a.contains(x) {
        let i = choose|i: int| 0 <= i < a.len() && a[i] == x;
        assert((a + b)[i] == x);
    }
    if b.contains(x) {
        let i = choose|i: int| 0 <= i < b.len() && b[i] == x;
        assert((a + b)[a.len() + i] == x);
    }
}

proof fn lemma_entry_for(path: Seq<u8>, e: EntryModel)
    ensures
        entry_for(path).contains(e) <==> (path_kind(e.path) == Some(e.kind) && !e.thumb && path
            == e.path),
{
    if path_kind(path) is Some {
        assert(entry_for(path)[0].path == path);
    }
}

proof fn lemma_gathered(listings: Seq<ListingModel>, e: EntryModel)
    ensures
        gathered(listings).contains(e) <==> (path_kind(e.path) == Some(e.kind) && !e.thumb
            && exists|i: int|
            0 <= i < listings.len() && asks_for(#[trigger] listings[i], e.path)),
    decreases listings.len(),
{
    if listings.len() > 0 {
        let front = listings.drop_last();
        let last = listings.last();
        lemma_gathered(front, e);
        lemma_contains_in_either(gathered(front), entries_of_listing(last), e);
        match last {
            ListingModel::Dir { items } => lemma_entries_of_items(items, e),
            ListingModel::File { path } => lemma_entry_for(path, e),
            ListingModel::Other => {},
        }
        if exists|i: int| 0 <= i < listings.len() && asks_for(#[trigger] listings[i], e.path) {
            let i = choose|i: int|
                0 <= i < listings.len() && asks_for(#[trigger] listings[i], e.path);
            if i < front.len() {
                assert(asks_for(front[i], e.path));
            }
        }
        if exists|i: int| 0 <= i < front.len() && asks_for(#[trigger] front[i], e.path) {
            let i = choose|i: int| 0 <= i < front.len() && asks_for(#[trigger] front[i], e.path);
            assert(asks_for(listings[i], e.path));
        }
        if asks_for(last, e.path) {
            assert(asks_for(listings[listings.len() - 1], e.path));
        }
    }
}

/// The gallery shows exactly the media files that were asked for, each marked
/// with its kind and without a thumbnail.
pub proof fn law_gallery_is_complete(listings: Seq<ListingModel>, e: EntryModel)
    ensures
        collected(listings).contains(e) <==> (path_kind(e.path) == Some(e.kind) && !e.thumb
            && exists|i: int|
            0 <= i < listings.len() && asks_for(#[trigger] listings[i], e.path)),
{
    broadcast use vstd::seq_lib::group_to_multiset_ensures;

    lemma_entry_order();
    lemma_stable_sort(entry_le(), gathered(listings));
    lemma_gathered(listings, e);
    let all = collected(listings);
    let found = gathered(listings);
    assert(all.contains(e) <==> all.to_multiset().count(e) > 0);
    assert(found.contains(e) <==> found.to_multiset().count(e) > 0);
}

/// The entries of the gallery come in path order, however the requested paths
/// were given.
pub proof fn law_gallery_is_sorted(listings: Seq<ListingModel>)
    ensures
        forall|i: int, j: int|
            0 <= i < j < collected(listings).len() ==> path_le(
                (#[trigger] collected(listings)[i]).path,
                (#[trigger] collected(listings)[j]).path,
            ),
{
    lemma_entry_order();
    lemma_stable_sort(entry_le(), gathered(listings));
    let all = collected(listings);
    assert forall|i: int, j: int| 0 <= i < j < all.len() implies path_le(
        (#[trigger] all[i]).path,
        (#[trigger] all[j]).path,
    ) by {
        assert(entry_le()(all[i], all[j]));
    }
}

proof fn lemma_gathered_of_concat(a: Seq<ListingModel>, b: Seq<ListingModel>)
    ensures
        gathered(a + b) == gathered(a) + gathered(b),
    decreases b.len(),
{
    if b.len() == 0 {
        assert(a + b =~= a);
        assert(gathered(a) + gathered(b) =~= gathered(a));
    } else {
        assert((a + b).drop_last() =~= a + b.drop_last());
        lemma_gathered_of_concat(a, b.drop_last());
        assert(gathered(a + b) =~= gathered(a) + gathered(b));
    }
}

/// Paths that are requested together contribute what each of them does, as
/// often as it does.
pub proof fn law_requests_add_up(a: Seq<ListingModel>, b: Seq<ListingModel>)
    ensures
        collected(a + b).to_multiset() == collected(a).to_multiset().add(
            collected(b).to_multiset(),
        ),
{
    lemma_entry_order();
    lemma_stable_sort(entry_le(), gathered(a));
    lemma_stable_sort(entry_le(), gathered(b));
    lemma_stable_sort(entry_le(), gathered(a + b));
    lemma_gathered_of_concat(a, b);
    vstd::seq_lib::lemma_multiset_commutative(gathered(a), gathered(b));
}

/// Entries whose paths have the same components keep the order in which they
/// were found.
pub proof fn law_equal_paths_keep_their_order(listings: Seq<ListingModel>, e: EntryModel)
    ensures
        rank_class(entry_le(), collected(listings), e) == rank_class(
            entry_le(),
            gathered(listings),
            e,
        ),
{
    lemma_entry_order();
    lemma_stable_sort(entry_le(), gathered(listings));
}

/// What a file is goes by the lower case of its extension alone, by two lists;
/// a file without an extension is no media file.
pub proof fn law_kind_goes_by_extension(path: Seq<u8>, ext: Seq<u8>)
    ensures
        extension_of(path) == Some(ext) ==> {
            let text = lowercase(lossy(ext));
            let image = {
                ||| text == "jpg"@
                ||| text == "jpeg"@
                ||| text == "png"@
                ||| text == "gif"@
                ||| text == "bmp"@
                ||| text == "webp"@
                ||| text == "svg"@
                ||| text == "ico"@
                ||| text == "tiff"@
                ||| text == "tif"@
                ||| text == "heic"@
                ||| text == "heif"@
                ||| text == "avif"@
                ||| text == "jxl"@
            };
            let video = {
                ||| text == "mp4"@
                ||| text == "mkv"@
                ||| text == "webm"@
                ||| text == "mov"@
                ||| text == "avi"@
                ||| text == "wmv"@
                ||| text == "flv"@
                ||| text == "m4v"@
                ||| text == "mpg"@
                ||| text == "mpeg"@
                ||| text == "ts"@
                ||| text == "m2ts"@
                ||| text == "3gp"@
                ||| text == "ogv"@
            };
            &&& path_kind(path) == Some(Kind::Image) <==> image
            &&& path_kind(path) == Some(Kind::Video) <==> video
        },
        extension_of(path) is None ==> path_kind(path) is None,
{
    if extension_of(path) == Some(ext) {
        law_kinds_are_disjoint(lowercase(lossy(ext)));
    }
}

proof fn lemma_collected_alone(l: ListingModel)
    ensures
        gathered(seq![l]) == entries_of_listing(l),
        collected(seq![l]) == stable_sort(entry_le(), entries_of_listing(l)),
{
    reveal_with_fuel(gathered, 2);
    assert(seq![l].drop_last() =~= seq![]);
    assert(gathered(seq![l]) =~= entries_of_listing(l));
}

proof fn lemma_sorted_alone(s: Seq<EntryModel>)
    requires
        s.len() <= 1,
    ensures
        stable_sort(entry_le(), s) == s,
{
    reveal_with_fuel(stable_sort, 2);
    if s.len() == 1 {
        assert(s.drop_last() =~= Seq::empty());
        assert(s =~= Seq::empty().push(s.last()));
    }
}

/// A media file that is asked for is shown once, as what it is, whether it is
/// named itself or stands in a directory; nothing else is shown for it.
pub proof fn law_file_is_shown_once(path: Seq<u8>, is_file: bool)
    ensures
        ({
            let named = collected(seq![ListingModel::File { path }]);
            let found = collected(
                seq![ListingModel::Dir { items: seq![DirItemModel { path, is_file }] }],
            );
            &&& path_kind(path) matches Some(kind) ==> named == seq![
                EntryModel { path, kind, thumb: false },
            ]
            &&& path_kind(path) is None ==> named.len() == 0
            &&& is_file ==> found == named
            &&& !is_file ==> found.len() == 0
        }),
        collected(seq![ListingModel::Other]).len() == 0,
        collected(seq![ListingModel::Dir { items: seq![] }]).len() == 0,
{
    let item = DirItemModel { path, is_file };
    let named = ListingModel::File { path };
    let found = ListingModel::Dir { items: seq![item] };
    let none = ListingModel::Dir { items: seq![] };
    lemma_collected_alone(named);
    lemma_collected_alone(found);
    lemma_collected_alone(none);
    lemma_collected_alone(ListingModel::Other);
    reveal_with_fuel(entries_of_items, 2);
    assert(seq![item].drop_last() =~= seq![]);
    assert(entries_of_listing(found) =~= if is_file {
        entry_for(path)
    } else {
        seq![]
    });
    lemma_sorted_alone(entries_of_listing(named));
    lemma_sorted_alone(entries_of_listing(found));
    lemma_sorted_alone(entries_of_listing(none));
    lemma_sorted_alone(entries_of_listing(ListingModel::Other));
}

proof fn lemma_entries_of_concat(a: Seq<DirItemModel>, b: Seq<DirItemModel>)
    ensures
        entries_of_items(a + b) == entries_of_items(a) + entries_of_items(b),
    decreases b.len(),
{
    if b.len() == 0 {
        assert(a + b =~= a);
        assert(entries_of_items(a) + entries_of_items(b) =~= entries_of_items(a));
    } else {
        assert((a + b).drop_last() =~= a + b.drop_last());
        lemma_entries_of_concat(a, b.drop_last());
        assert(entries_of_items(a + b) =~= entries_of_items(a) + entries_of_items(b));
    }
}

/// A directory contributes what each of its items does, as often as it does.
pub proof fn law_items_add_up(a: Seq<DirItemModel>, b: Seq<DirItemModel>)
    ensures
        collected(seq![ListingModel::Dir { items: a + b }]).to_multiset() == collected(
            seq![ListingModel::Dir { items: a }],
        ).to_multiset().add(collected(seq![ListingModel::Dir { items: b }]).to_multiset()),
{
    lemma_collected_alone(ListingModel::Dir { items: a });
    lemma_collected_alone(ListingModel::Dir { items: b });
    lemma_collected_alone(ListingModel::Dir { items: a + b });
    lemma_entries_of_concat(a, b);
    lemma_entry_order();
    lemma_stable_sort(entry_le(), entries_of_items(a));
    lemma_stable_sort(entry_le(), entries_of_items(b));
    lemma_stable_sort(entry_le(), entries_of_items(a + b));
    vstd::seq_lib::lemma_multiset_commutative(entries_of_items(a), entries_of_items(b));
}

/// Entries whose paths differ in nothing that matters for the order come in the
/// order in which they were asked for.
pub proof fn law_first_asked_comes_first(
    a: Seq<ListingModel>,
    b: Seq<ListingModel>,
    path: Seq<u8>,
)
    ensures
        ({
            let same = |y: EntryModel| path_le(path, y.path) && path_le(y.path, path);
            collected(a + b).filter(same) == collected(a).filter(same) + collected(b).filter(same)
        }),
{
    let e = EntryModel { path, kind: Kind::Image, thumb: false };
    let same = |y: EntryModel| path_le(path, y.path) && path_le(y.path, path);
    let rank = |y: EntryModel| entry_le()(e, y) && entry_le()(y, e);
    assert(same =~= rank);
    lemma_entry_order();
    lemma_stable_sort(entry_le(), gathered(a));
    lemma_stable_sort(entry_le(), gathered(b));
    lemma_stable_sort(entry_le(), gathered(a + b));
    lemma_gathered_of_concat(a, b);
    Seq::filter_distributes_over_add(gathered(a), gathered(b), rank);
    assert(rank_class(entry_le(), collected(a), e) == rank_class(entry_le(), gathered(a), e));
    assert(rank_class(entry_le(), collected(b), e) == rank_class(entry_le(), gathered(b), e));
    assert(rank_class(entry_le(), collected(a + b), e) == rank_class(
        entry_le(),
        gathered(a + b),
        e,
    ));
}

} // verus!
