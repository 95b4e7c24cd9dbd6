//! Making thumbnails: which files to look at and which program to run, decided
//! step by step from what came of the step before.

use vstd::prelude::*;

use crate::cache::{still_path, video_thumb_path};
use crate::codec::{
    image_in, open_image, opt_picture, placeholder, placeholder_picture, shrink, thumb_picture,
    thumb_shape, Picture, PictureModel,
};
use crate::media::Kind;
use crate::path::copy_bytes;
use crate::text::{lossy, text_lossy, texts};

verus! {

/// What is to be done next for a thumbnail.
#[derive(Debug)]
pub enum ThumbStep {
    /// To find out whether the still frame `still` of `video` exists.
    Probe { video: Vec<u8>, cache: Vec<u8>, still: Vec<u8> },
    /// To create the directory `cache` and to run `program` with `args`, which
    /// writes `still`.
    Generate { cache: Vec<u8>, program: String, args: Vec<String>, still: Vec<u8> },
    /// To delete `still`, of which the program may have left something.
    Discard { still: Vec<u8> },
    /// To read the file `source`.
    Load { source: Vec<u8> },
    /// Nothing: this is the thumbnail, or there is none.
    Done { picture: Option<Picture> },
}

/// What came of a step.
#[derive(Debug)]
pub enum ThumbReply {
    /// Whether the still frame exists.
    Exists(bool),
    /// Whether the program succeeded.
    Generated(bool),
    /// The still frame was deleted, or was not there.
    Discarded,
    /// The content of the file, if it could be read.
    Content(Option<Vec<u8>>),
}

/// What is to be done next for a thumbnail, as mathematics.
pub enum ThumbStepModel {
    Probe { video: Seq<u8>, cache: Seq<u8>, still: Seq<u8> },
    Generate { cache: Seq<u8>, program: Seq<char>, args: Seq<Seq<char>>, still: Seq<u8> },
    Discard { still: Seq<u8> },
    Load { source: Seq<u8> },
    Done { picture: Option<PictureModel> },
}

/// What came of a step, as mathematics.
pub enum ThumbReplyModel {
    Exists(bool),
    Generated(bool),
    Discarded,
    Content(Option<Seq<u8>>),
}

impl View for ThumbStep {
    type V = ThumbStepModel;

    open spec fn view(&self) -> ThumbStepModel {
        match *self {
            ThumbStep::Probe { video, cache, still } => ThumbStepModel::Probe {
                video: video@,
                cache: cache@,
                still: still@,
            },
            ThumbStep::Generate { cache, program, args, still } => ThumbStepModel::Generate {
                cache: cache@,
                program: program@,
                args: texts(args@),
                still: still@,
            },
            ThumbStep::Discard { still } => ThumbStepModel::Discard { still: still@ },
            ThumbStep::Load { source } => ThumbStepModel::Load { source: source@ },
            ThumbStep::Done { picture } => ThumbStepModel::Done { picture: opt_picture(picture) },
        }
    }
}

impl View for ThumbReply {
    type V = ThumbReplyModel;

    open spec fn view(&self) -> ThumbReplyModel {
        match *self {
            ThumbReply::Exists(b) => ThumbReplyModel::Exists(b),
            ThumbReply::Generated(b) => ThumbReplyModel::Generated(b),
            ThumbReply::Discarded => ThumbReplyModel::Discarded,
            ThumbReply::Content(c) => ThumbReplyModel::Content(
                match c {
                    Some(data) => Some(data@),
                    None => None,
                },
            ),
        }
    }
}

/// The thumbnail of an image file of the given path and content, if it holds an
/// image.
pub open spec fn thumb_in(path: Seq<u8>, data: Option<Seq<u8>>) -> Option<PictureModel> {
    match data {
        Some(data) => match image_in(path, data) {
            Some(img) => Some(thumb_picture(img)),
            None => None,
        },
        None => None,
    }
}

/// The arguments that make the thumbnailer write a still frame of a video.
pub open spec fn still_args(video: Seq<u8>, still: Seq<u8>) -> Seq<Seq<char>> {
    seq!["-i"@, lossy(video), "-o"@, lossy(still), "-s"@, "192"@]
}

/// The first step: an image is read itself, a video by its still frame.
pub open spec fn first_step(
    path: Seq<u8>,
    kind: Kind,
    cache: Seq<u8>,
    mtime: u64,
) -> ThumbStepModel {
    match kind {
        Kind::Image => ThumbStepModel::Load { source: path },
        Kind::Video => ThumbStepModel::Probe {
            video: path,
            cache,
            still: still_path(cache, path, mtime),
        },
    }
}

/// The step that follows. A reply that does not belong to the step leaves it
/// to be done.
pub open spec fn next_step(step: ThumbStepModel, reply: ThumbReplyModel) -> ThumbStepModel {
    match (step, reply) {
        (
            ThumbStepModel::Probe { video, cache, still },
            ThumbReplyModel::Exists(found),
        ) => if found {
            ThumbStepModel::Load { source: still }
        } else {
            ThumbStepModel::Generate {
                cache,
                program: "ffmpegthumbnailer"@,
                args: still_args(video, still),
                still,
            }
        },
        (
            ThumbStepModel::Generate { still, .. },
            ThumbReplyModel::Generated(ok),
        ) => if ok {
            ThumbStepModel::Load { source: still }
        } else {
            ThumbStepModel::Discard { still }
        },
        (ThumbStepModel::Discard { .. }, ThumbReplyModel::Discarded) => ThumbStepModel::Done {
            picture: None,
        },
        (
            ThumbStepModel::Load { source },
            ThumbReplyModel::Content(data),
        ) => ThumbStepModel::Done { picture: thumb_in(source, data) },
        (step, _) => step,
    }
}

/// Starts to make the thumbnail of an entry, given the cache directory and the
/// modification time of the file.
pub fn make_thumb(path: &[u8], kind: Kind, cache: &[u8], mtime: u64) -> (r: ThumbStep)
    ensures
        r@ == first_step(path@, kind, cache@, mtime),
{
    match kind {
        Kind::Image => ThumbStep::Load { source: copy_bytes(path) },
        Kind::Video => ThumbStep::Probe {
            video: copy_bytes(path),
            cache: copy_bytes(cache),
            still: video_thumb_path(cache, path, mtime),
        },
    }
}

/// Whether a picture has the shape of the thumbnail of an image file of the
/// given path and content.
pub open spec fn has_thumb_shape(path: Seq<u8>, data: Seq<u8>, p: PictureModel) -> bool {
    image_in(path, data) matches Some(img) && thumb_shape(img, p)
}

/// The thumbnail of an image file of the given path and content, if it holds an
/// image.
pub fn thumb_of_file(path: &[u8], data: &[u8]) -> (r: Option<Picture>)
    ensures
        opt_picture(r) == thumb_in(path@, Some(data@)),
        r matches Some(p) ==> has_thumb_shape(path@, data@, p@),
{
    match open_image(path, data) {
        Some(img) => Some(shrink(&img)),
        None => None,
    }
}

impl ThumbStep {
    /// The step that follows, given what came of this one. A reply that does
    /// not belong to the step leaves it to be done.
    pub fn answer(self, reply: ThumbReply) -> (r: ThumbStep)
        ensures
            r@ == next_step(self@, reply@),
            self !is Done ==> (r matches ThumbStep::Done { picture: Some(p) } ==> {
                &&& self@ matches ThumbStepModel::Load { source }
                &&& reply@ matches ThumbReplyModel::Content(Some(data))
                &&& has_thumb_shape(source, data, p@)
            }),
    {
        match (self, reply) {
            (ThumbStep::Probe { video, cache, still }, ThumbReply::Exists(found)) => {
                if found {
                    ThumbStep::Load { source: still }
                } else {
                    let args: Vec<String> = vec![
                        "-i".to_owned(),
                        text_lossy(video.as_slice()),
                        "-o".to_owned(),
                        text_lossy(still.as_slice()),
                        "-s".to_owned(),
                        "192".to_owned(),
                    ];
                    assert(texts(args@) =~= still_args(video@, still@));
                    ThumbStep::Generate {
                        cache,
                        program: "ffmpegthumbnailer".to_owned(),
                        args,
                        still,
                    }
                }
            },
            (ThumbStep::Generate { cache: _, program: _, args: _, still }, ThumbReply::Generated(ok)) => {
                if ok {
                    ThumbStep::Load { source: still }
                } else {
                    ThumbStep::Discard { still }
                }
            },
            (ThumbStep::Discard { still: _ }, ThumbReply::Discarded) => {
                ThumbStep::Done { picture: None }
            },
            (ThumbStep::Load { source }, ThumbReply::Content(data)) => {
                let picture = match data {
                    Some(data) => thumb_of_file(source.as_slice(), data.as_slice()),
                    None => None,
                };
                ThumbStep::Done { picture }
            },
            (step, _) => step,
        }
    }
}

/// What is shown for an entry once its thumbnail is made or given up.
pub open spec fn thumb_shown(picture: Option<PictureModel>, kind: Kind) -> PictureModel {
    match picture {
        Some(p) => p,
        None => placeholder_picture(kind),
    }
}

/// What is shown for an entry once its thumbnail is made or given up.
pub fn thumb_or_placeholder(picture: Option<Picture>, kind: Kind) -> (r: Picture)
    ensures
        r@ == match opt_picture(picture) {
            Some(p) => p,
            None => placeholder_picture(kind),
        },
        r@ == thumb_shown(opt_picture(picture), kind),
        (picture matches Some(p) ==> p@.wf()) ==> r@.wf(),
{
    match picture {
        Some(p) => p,
        None => placeholder(kind),
    }
}

/// How far a step is from the end.
pub open spec fn steps_left(step: ThumbStepModel) -> nat {
    match step {
        ThumbStepModel::Probe { .. } => 3,
        ThumbStepModel::Generate { .. } => 2,
        ThumbStepModel::Discard { .. } => 1,
        ThumbStepModel::Load { .. } => 1,
        ThumbStepModel::Done { .. } => 0,
    }
}

/// Whether a reply belongs to a step.
pub open spec fn answers(step: ThumbStepModel, reply: ThumbReplyModel) -> bool {
    match step {
        ThumbStepModel::Probe { .. } => reply is Exists,
        ThumbStepModel::Generate { .. } => reply is Generated,
        ThumbStepModel::Discard { .. } => reply is Discarded,
        ThumbStepModel::Load { .. } => reply is Content,
        ThumbStepModel::Done { .. } => false,
    }
}

/// Every reply that belongs to the step brings the end nearer; any other reply
/// changes nothing.
pub proof fn law_replies_make_progress(step: ThumbStepModel, reply: ThumbReplyModel)
    ensures
        answers(step, reply) ==> steps_left(next_step(step, reply)) < steps_left(step),
        !answers(step, reply) ==> next_step(step, reply) == step,
{
}

/// What a thumbnail comes to when its steps are carried out: whether the still
/// frame exists, whether the program succeeds, and what the file that is read
/// in the end holds.
pub open spec fn outcome(
    step: ThumbStepModel,
    found: bool,
    generated: bool,
    content: Option<Seq<u8>>,
) -> Option<PictureModel>
    decreases steps_left(step),
{
    match step {
        ThumbStepModel::Probe { .. } => outcome(
            next_step(step, ThumbReplyModel::Exists(found)),
            found,
            generated,
            content,
        ),
        ThumbStepModel::Generate { .. } => outcome(
            next_step(step, ThumbReplyModel::Generated(generated)),
            found,
            generated,
            content,
        ),
        ThumbStepModel::Discard { .. } => outcome(
            next_step(step, ThumbReplyModel::Discarded),
            found,
            generated,
            content,
        ),
        ThumbStepModel::Load { .. } => outcome(
            next_step(step, ThumbReplyModel::Content(content)),
            found,
            generated,
            content,
        ),
        ThumbStepModel::Done { picture } => picture,
    }
}

/// The thumbnail of an image is that of its file; the thumbnail of a video is
/// that of its still frame, provided that the frame was there or could be made.
pub proof fn law_thumbnail_outcome(
    path: Seq<u8>,
    cache: Seq<u8>,
    mtime: u64,
    found: bool,
    generated: bool,
    content: Option<Seq<u8>>,
)
    ensures
        outcome(first_step(path, Kind::Image, cache, mtime), found, generated, content)
            == thumb_in(path, content),
        outcome(first_step(path, Kind::Video, cache, mtime), found, generated, content) == (
        if found || generated {
            thumb_in(still_path(cache, path, mtime), content)
        } else {
            None
        }),
{
    reveal_with_fuel(outcome, 5);
}

/// An image has a thumbnail exactly if its file can be read and decoded,
/// whatever the cache holds and whatever programs do.
pub proof fn law_image_has_thumbnail_if_it_decodes(
    path: Seq<u8>,
    cache: Seq<u8>,
    mtime: u64,
    found: bool,
    generated: bool,
    content: Option<Seq<u8>>,
)
    ensures
        outcome(first_step(path, Kind::Image, cache, mtime), found, generated, content) is Some
            <==> (content matches Some(data) && image_in(path, data) is Some),
{
    law_thumbnail_outcome(path, cache, mtime, found, generated, content);
}

/// A still frame that exists is used as it is: no program is run for it.
pub proof fn law_cached_still_is_reused(path: Seq<u8>, cache: Seq<u8>, mtime: u64)
    ensures
        next_step(
            first_step(path, Kind::Video, cache, mtime),
            ThumbReplyModel::Exists(true),
        ) == (ThumbStepModel::Load { source: still_path(cache, path, mtime) }),
{
}

/// After a failed run the still frame is deleted, so that the next attempt does
/// not find it.
pub proof fn law_failed_still_is_discarded(path: Seq<u8>, cache: Seq<u8>, mtime: u64)
    ensures
        ({
            let probed = next_step(
                first_step(path, Kind::Video, cache, mtime),
                ThumbReplyModel::Exists(false),
            );
            let failed = next_step(probed, ThumbReplyModel::Generated(false));
            &&& failed == (ThumbStepModel::Discard { still: still_path(cache, path, mtime) })
            &&& next_step(failed, ThumbReplyModel::Discarded) == (ThumbStepModel::Done {
                picture: None,
            })
        }),
{
}

/// A still frame that is missing is made by the thumbnailer, of the video and
/// at the place where it is looked for, in the size of a thumbnail.
pub proof fn law_missing_still_is_made(video: Seq<u8>, cache: Seq<u8>, still: Seq<u8>)
    ensures
        next_step(
            ThumbStepModel::Probe { video, cache, still },
            ThumbReplyModel::Exists(false),
        ) == (ThumbStepModel::Generate {
            cache,
            program: "ffmpegthumbnailer"@,
            args: seq!["-i"@, lossy(video), "-o"@, lossy(still), "-s"@, "192"@],
            still,
        }),
        next_step(
            ThumbStepModel::Probe { video, cache, still },
            ThumbReplyModel::Exists(true),
        ) == (ThumbStepModel::Load { source: still }),
{
}

/// An image is read from its own file, and a video is looked up under its own
/// path and time in the cache that was named.
pub proof fn law_first_step(path: Seq<u8>, cache: Seq<u8>, mtime: u64)
    ensures
        first_step(path, Kind::Image, cache, mtime) == (ThumbStepModel::Load { source: path }),
        first_step(path, Kind::Video, cache, mtime) == (ThumbStepModel::Probe {
            video: path,
            cache,
            still: still_path(cache, path, mtime),
        }),
{
}

/// What a file comes to is the thumbnail of the image that it holds.
pub proof fn law_thumbnail_of_file(path: Seq<u8>, data: Seq<u8>)
    ensures
        image_in(path, data) matches Some(img) ==> thumb_in(path, Some(data)) == Some(
            thumb_picture(img),
        ),
        image_in(path, data) is None ==> thumb_in(path, Some(data)) is None,
        thumb_in(path, None) is None,
{
}

/// After the thumbnailer succeeded the still frame is read, and after it failed
/// the frame is deleted; what was read makes the thumbnail.
pub proof fn law_later_steps(
    cache: Seq<u8>,
    program: Seq<char>,
    args: Seq<Seq<char>>,
    still: Seq<u8>,
    data: Option<Seq<u8>>,
)
    ensures
        next_step(
            ThumbStepModel::Generate { cache, program, args, still },
            ThumbReplyModel::Generated(true),
        ) == (ThumbStepModel::Load { source: still }),
        next_step(
            ThumbStepModel::Generate { cache, program, args, still },
            ThumbReplyModel::Generated(false),
        ) == (ThumbStepModel::Discard { still }),
        next_step(ThumbStepModel::Discard { still }, ThumbReplyModel::Discarded) == (
        ThumbStepModel::Done { picture: None }),
        next_step(
            ThumbStepModel::Load { source: still },
            ThumbReplyModel::Content(data),
        ) == (ThumbStepModel::Done { picture: thumb_in(still, data) }),
{
}

/// A thumbnail is shown as it is, and its placeholder where there is none.
pub proof fn law_thumbnail_or_placeholder(p: PictureModel, kind: Kind)
    ensures
        thumb_shown(Some(p), kind) == p,
        thumb_shown(None, kind) == placeholder_picture(kind),
{
}

} // verus!
