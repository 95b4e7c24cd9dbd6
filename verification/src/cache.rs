//! Where the gallery keeps the still frames of videos, and where its
//! configuration is.

use std::collections::hash_map::DefaultHasher;
use std::hash::Hasher;

use vstd::arithmetic::power::{lemma_pow0, pow};
use vstd::bytes::{spec_u64_to_le_bytes, u64_to_le_bytes};
use vstd::prelude::*;
use vstd::std_specs::hash::DefaultHasherAdditionalSpecFns;
use vstd::utf8::encode_utf8;

use crate::path::{
    copy_bytes, extension_of, join, joined, last_dot, law_joined_name_is_file_name, DOT, SLASH,
};
use crate::text::{lossy, text_lossy};

verus! {

/// A base directory: the one that the environment names, or else `sub` in the
/// home directory.
pub open spec fn base_dir(
    named: Option<Seq<u8>>,
    home: Option<Seq<u8>>,
    sub: Seq<u8>,
) -> Seq<u8> {
    match named {
        Some(dir) => dir,
        None => joined(
            match home {
                Some(home) => home,
                None => Seq::empty(),
            },
            sub,
        ),
    }
}

/// The bytes of an optional path.
pub open spec fn opt_bytes(v: Option<Vec<u8>>) -> Option<Seq<u8>> {
    match v {
        Some(b) => Some(b@),
        None => None,
    }
}

/// A base directory: the one that the environment names, or else `sub` in the
/// home directory.
fn base(named: Option<Vec<u8>>, home: Option<Vec<u8>>, sub: &[u8]) -> (r: Vec<u8>)
    ensures
        r@ == base_dir(opt_bytes(named), opt_bytes(home), sub@),
{
    match named {
        Some(dir) => dir,
        None => {
            let home: Vec<u8> = match home {
                Some(home) => home,
                None => Vec::new(),
            };
            join(home.as_slice(), sub)
        },
    }
}

/// The directory of cached still frames.
pub open spec fn cache_path(xdg: Option<Seq<u8>>, home: Option<Seq<u8>>) -> Seq<u8> {
    joined(base_dir(xdg, home, encode_utf8(".cache"@)), encode_utf8("galla"@))
}

/// The configuration file.
pub open spec fn config_path(xdg: Option<Seq<u8>>, home: Option<Seq<u8>>) -> Seq<u8> {
    joined(
        joined(base_dir(xdg, home, encode_utf8(".config"@)), encode_utf8("galla"@)),
        encode_utf8("config.toml"@),
    )
}

/// The modification time in whole seconds since the epoch.
pub open spec fn mtime_of(modified: Option<i64>) -> int {
    match modified {
        Some(secs) => if secs >= 0 {
            secs as int
        } else {
            0
        },
        None => 0,
    }
}

/// The directory of cached still frames, given `$XDG_CACHE_HOME` and `$HOME`.
pub fn cache_dir(xdg_cache_home: Option<Vec<u8>>, home: Option<Vec<u8>>) -> (r: Vec<u8>)
    ensures
        r@ == joined(
            base_dir(opt_bytes(xdg_cache_home), opt_bytes(home), encode_utf8(".cache"@)),
            encode_utf8("galla"@),
        ),
        r@ == cache_path(opt_bytes(xdg_cache_home), opt_bytes(home)),
{
    join(base(xdg_cache_home, home, ".cache".as_bytes()).as_slice(), "galla".as_bytes())
}

/// The configuration file, given `$XDG_CONFIG_HOME` and `$HOME`.
pub fn config_file(xdg_config_home: Option<Vec<u8>>, home: Option<Vec<u8>>) -> (r: Vec<u8>)
    ensures
        r@ == joined(
            joined(
                base_dir(opt_bytes(xdg_config_home), opt_bytes(home), encode_utf8(".config"@)),
                encode_utf8("galla"@),
            ),
            encode_utf8("config.toml"@),
        ),
        r@ == config_path(opt_bytes(xdg_config_home), opt_bytes(home)),
{
    let dir = join(
        base(xdg_config_home, home, ".config".as_bytes()).as_slice(),
        "galla".as_bytes(),
    );
    join(dir.as_slice(), "config.toml".as_bytes())
}

/// The modification time of a file in whole seconds since the epoch, given what
/// the file system says: 0 where it says nothing or a time before the epoch.
pub fn mtime_secs(modified: Option<i64>) -> (r: u64)
    ensures
        r == match modified {
            Some(secs) => if secs >= 0 {
                secs as int
            } else {
                0
            },
            None => 0,
        },
        r == mtime_of(modified),
{
    match modified {
        Some(secs) => if secs >= 0 {
            secs as u64
        } else {
            0
        },
        None => 0,
    }
}

/// What is hashed to name a still frame: the path of the video, a byte that no
/// text holds, and the modification time.
pub open spec fn digest_input(video: Seq<char>, mtime: u64) -> Seq<Seq<u8>> {
    seq![encode_utf8(video), seq![0xffu8], spec_u64_to_le_bytes(mtime)]
}

/// The number that names the still frame of a video as of a modification time.
pub open spec fn digest_of(video: Seq<char>, mtime: u64) -> u64 {
    DefaultHasher::spec_finish(digest_input(video, mtime))
}

/// The number that names the still frame of a video as of a modification time.
pub fn digest(video: &str, mtime: u64) -> (r: u64)
    ensures
        r == digest_of(video@, mtime),
{
    let mut h = DefaultHasher::new();
    h.write(video.as_bytes());
    let mark: Vec<u8> = vec![0xff];
    assert(mark@ =~= seq![0xffu8]);
    h.write(mark.as_slice());
    h.write(u64_to_le_bytes(mtime).as_slice());
    assert(h@ =~= digest_input(video@, mtime));
    h.finish()
}

/// A hexadecimal digit.
pub open spec fn hex_digit(n: int) -> u8 {
    if n < 10 {
        (0x30 + n) as u8
    } else {
        (0x57 + n) as u8
    }
}

/// The last `len` hexadecimal digits of `n`, with leading zeros.
pub open spec fn hex_digits(n: int, len: nat) -> Seq<u8>
    decreases len,
{
    if len == 0 {
        seq![]
    } else {
        hex_digits(n / 16, (len - 1) as nat).push(hex_digit(n % 16))
    }
}

/// The name of a cached still frame: sixteen hexadecimal digits and `.jpg`.
pub open spec fn thumb_name(digest: u64) -> Seq<u8> {
    hex_digits(digest as int, 16) + encode_utf8(".jpg"@)
}

fn hex(n: u64, len: usize) -> (r: Vec<u8>)
    ensures
        r@ == hex_digits(n as int, len as nat),
    decreases len,
{
    if len == 0 {
        Vec::new()
    } else {
        let mut r = hex(n / 16, len - 1);
        let d: u8 = (n % 16) as u8;
        r.push(
            if d < 10 {
                0x30 + d
            } else {
                0x57 + d
            },
        );
        r
    }
}

/// The name of a cached still frame: sixteen hexadecimal digits and `.jpg`.
pub fn thumb_file_name(digest: u64) -> (r: Vec<u8>)
    ensures
        r@ == thumb_name(digest),
{
    let mut r = hex(digest, 16);
    let mut ext = copy_bytes(".jpg".as_bytes());
    r.append(&mut ext);
    r
}

/// The path of the still frame of a video as of a modification time.
pub open spec fn still_path(dir: Seq<u8>, video: Seq<u8>, mtime: u64) -> Seq<u8> {
    joined(dir, thumb_name(digest_of(lossy(video), mtime)))
}

/// The path of the cached still frame for a video in the cache directory `dir`,
/// given when the video was modified: another modification time means another
/// frame.
pub fn video_thumb_path(dir: &[u8], video: &[u8], mtime: u64) -> (r: Vec<u8>)
    ensures
        r@ == still_path(dir@, video@, mtime),
{
    let name = thumb_file_name(digest(text_lossy(video).as_str(), mtime));
    join(dir, name.as_slice())
}

/// Different digits stand for different numbers.
proof fn lemma_hex_digits(a: int, b: int, len: nat)
    requires
        0 <= a < pow(16, len),
        0 <= b < pow(16, len),
        hex_digits(a, len) == hex_digits(b, len),
    ensures
        a == b,
    decreases len,
{
    lemma_pow0(16);
    if len > 0 {
        let x = hex_digits(a, len);
        let y = hex_digits(b, len);
        reveal(pow);
        assert(pow(16, len) == 16 * pow(16, (len - 1) as nat));
        assert(x.drop_last() =~= hex_digits(a / 16, (len - 1) as nat));
        assert(y.drop_last() =~= hex_digits(b / 16, (len - 1) as nat));
        assert(x.last() == hex_digit(a % 16) && y.last() == hex_digit(b % 16));
        lemma_hex_digits(a / 16, b / 16, (len - 1) as nat);
    }
}

proof fn lemma_hex_shape(n: int, len: nat)
    ensures
        hex_digits(n, len).len() == len,
        forall|i: int|
            0 <= i < len ==> 0x30 <= #[trigger] hex_digits(n, len)[i] <= 0x39 || 0x61
                <= hex_digits(n, len)[i] <= 0x66,
    decreases len,
{
    if len > 0 {
        lemma_hex_shape(n / 16, (len - 1) as nat);
    }
}

proof fn lemma_jpg_suffix()
    ensures
        encode_utf8(".jpg"@) == seq![DOT, 0x6au8, 0x70u8, 0x67u8],
{
    reveal_strlit(".jpg");
    vstd::utf8::is_ascii_chars_encode_utf8(".jpg"@);
    assert(encode_utf8(".jpg"@) =~= seq![DOT, 0x6au8, 0x70u8, 0x67u8]);
}

/// Two still frames of one cache directory have the same path only if they have
/// the same digest.
pub proof fn law_still_paths_differ(dir: Seq<u8>, a: u64, b: u64)
    requires
        joined(dir, thumb_name(a)) == joined(dir, thumb_name(b)),
    ensures
        a == b,
{
    lemma_hex_shape(a as int, 16);
    lemma_hex_shape(b as int, 16);
    let x = thumb_name(a);
    let y = thumb_name(b);
    let jx = joined(dir, x);
    let jy = joined(dir, y);
    assert(x.len() == y.len());
    assert(x[0] == hex_digits(a as int, 16)[0] && y[0] == hex_digits(b as int, 16)[0]);
    assert(jx.subrange(jx.len() - x.len(), jx.len() as int) =~= x);
    assert(jy.subrange(jy.len() - y.len(), jy.len() as int) =~= y);
    assert(x.subrange(0, 16) =~= hex_digits(a as int, 16));
    assert(y.subrange(0, 16) =~= hex_digits(b as int, 16));
    assert(pow(16, 16) == 0x1_0000_0000_0000_0000) by {
        reveal(pow);
        reveal_with_fuel(pow, 17);
    }
    lemma_hex_digits(a as int, b as int, 16);
}

/// A video that was modified gets another still frame, unless the two digests
/// happen to be the same number.
pub proof fn law_modified_video_gets_another_still(
    dir: Seq<u8>,
    video: Seq<u8>,
    before: u64,
    after: u64,
)
    requires
        digest_of(lossy(video), before) != digest_of(lossy(video), after),
    ensures
        still_path(dir, video, before) != still_path(dir, video, after),
{
    if still_path(dir, video, before) == still_path(dir, video, after) {
        law_still_paths_differ(
            dir,
            digest_of(lossy(video), before),
            digest_of(lossy(video), after),
        );
    }
}

/// What is hashed for two videos, or for one video as of two modification
/// times, is never the same.
pub proof fn law_digest_input_is_injective(v: Seq<char>, w: Seq<char>, s: u64, t: u64)
    requires
        digest_input(v, s) == digest_input(w, t),
    ensures
        v == w,
        s == t,
{
    let x = digest_input(v, s);
    let y = digest_input(w, t);
    assert(x[0] == y[0] && x[2] == y[2]);
    vstd::utf8::encode_utf8_decode_utf8(v);
    vstd::utf8::encode_utf8_decode_utf8(w);
    vstd::bytes::lemma_auto_spec_u64_to_from_le_bytes();
}

/// The still frame of any video is a JPEG file by its extension.
pub proof fn law_still_is_jpeg(dir: Seq<u8>, video: Seq<u8>, mtime: u64)
    ensures
        extension_of(still_path(dir, video, mtime)) == Some(seq![0x6au8, 0x70u8, 0x67u8]),
{
    let n = digest_of(lossy(video), mtime);
    let name = thumb_name(n);
    lemma_hex_shape(n as int, 16);
    lemma_jpg_suffix();
    assert(name.len() == 20);
    assert forall|i: int| 0 <= i < name.len() implies #[trigger] name[i] != SLASH by {
        if i < 16 {
            assert(name[i] == hex_digits(n as int, 16)[i]);
        }
    }
    law_joined_name_is_file_name(dir, name);
    assert(name.drop_last().drop_last().drop_last().last() == DOT);
    reveal_with_fuel(last_dot, 5);
    assert(last_dot(name) == 16);
    assert(name.skip(17) =~= seq![0x6au8, 0x70u8, 0x67u8]);
}

proof fn lemma_literal_bytes()
    ensures
        encode_utf8("galla"@) == seq![0x67u8, 0x61u8, 0x6cu8, 0x6cu8, 0x61u8],
        encode_utf8(".cache"@) == seq![0x2eu8, 0x63u8, 0x61u8, 0x63u8, 0x68u8, 0x65u8],
        encode_utf8(".config"@) == seq![
            0x2eu8,
            0x63u8,
            0x6fu8,
            0x6eu8,
            0x66u8,
            0x69u8,
            0x67u8,
        ],
        encode_utf8("config.toml"@).len() == 11,
        encode_utf8("config.toml"@)[0] == 0x63,
{
    reveal_strlit("galla");
    reveal_strlit(".cache");
    reveal_strlit(".config");
    reveal_strlit("config.toml");
    vstd::utf8::is_ascii_chars_encode_utf8("galla"@);
    vstd::utf8::is_ascii_chars_encode_utf8(".cache"@);
    vstd::utf8::is_ascii_chars_encode_utf8(".config"@);
    vstd::utf8::is_ascii_chars_encode_utf8("config.toml"@);
    assert(encode_utf8("galla"@) =~= seq![0x67u8, 0x61u8, 0x6cu8, 0x6cu8, 0x61u8]);
    assert(encode_utf8(".cache"@) =~= seq![0x2eu8, 0x63u8, 0x61u8, 0x63u8, 0x68u8, 0x65u8]);
    assert(encode_utf8(".config"@) =~= seq![
        0x2eu8,
        0x63u8,
        0x6fu8,
        0x6eu8,
        0x66u8,
        0x69u8,
        0x67u8,
    ]);
}

/// The cache is `galla` in the directory that the environment names for caches,
/// whatever the home directory is; without one it is `.cache/galla` in the home
/// directory, or in the current one where there is no home. The configuration
/// is `galla/config.toml` in the like places.
pub proof fn law_places(dir: Seq<u8>, home: Option<Seq<u8>>)
    requires
        dir.len() > 0,
        dir.last() != 0x2f,
    ensures
        ({
            let slash = seq![0x2fu8];
            let galla = slash + encode_utf8("galla"@);
            let config = galla + slash + encode_utf8("config.toml"@);
            &&& cache_path(Some(dir), home) == dir + galla
            &&& cache_path(Some(dir + slash), home) == dir + galla
            &&& cache_path(None, Some(dir)) == dir + slash + encode_utf8(".cache"@) + galla
            &&& cache_path(None, None) == encode_utf8(".cache"@) + galla
            &&& config_path(Some(dir), home) == dir + config
            &&& config_path(Some(dir + slash), home) == dir + config
            &&& config_path(None, Some(dir)) == dir + slash + encode_utf8(".config"@) + config
            &&& config_path(None, None) == encode_utf8(".config"@) + config
        }),
{
    lemma_literal_bytes();
    let slash = seq![0x2fu8];
    let g = encode_utf8("galla"@);
    let galla = slash + g;
    let toml = encode_utf8("config.toml"@);
    let config = galla + slash + toml;
    let dot_cache = encode_utf8(".cache"@);
    let dot_config = encode_utf8(".config"@);
    assert(cache_path(Some(dir), home) =~= dir + galla);
    assert((dir + slash).last() == 0x2f);
    assert(cache_path(Some(dir + slash), home) =~= dir + galla);
    let cached = joined(dir, dot_cache);
    assert(cached =~= dir + slash + dot_cache);
    assert(cached.last() == dot_cache[5]);
    assert(cache_path(None, Some(dir)) =~= dir + slash + dot_cache + galla);
    assert(joined(seq![], dot_cache) =~= dot_cache);
    assert(dot_cache.last() == 0x65);
    assert(cache_path(None, None) =~= dot_cache + galla);
    assert((dir + galla).last() == g[4]);
    assert(joined(dir, g) =~= dir + galla);
    assert(config_path(Some(dir), home) =~= dir + config);
    assert(joined(dir + slash, g) =~= dir + galla);
    assert(config_path(Some(dir + slash), home) =~= dir + config);
    let configured = joined(dir, dot_config);
    assert(configured =~= dir + slash + dot_config);
    assert(configured.last() == dot_config[6]);
    let in_home = joined(configured, g);
    assert(in_home =~= configured + galla);
    assert(in_home.last() == g[4]);
    assert(config_path(None, Some(dir)) =~= dir + slash + dot_config + config);
    assert(joined(seq![], dot_config) =~= dot_config);
    assert(dot_config.last() == 0x67);
    let here = joined(dot_config, g);
    assert(here =~= dot_config + galla);
    assert(here.last() == g[4]);
    assert(config_path(None, None) =~= dot_config + config);
}

/// A time since the epoch is kept, and any other is the epoch.
pub proof fn law_modification_time(secs: i64)
    ensures
        mtime_of(Some(secs)) >= secs,
        mtime_of(Some(secs)) >= 0,
        mtime_of(Some(secs)) == secs || mtime_of(Some(secs)) == 0,
        mtime_of(None) == 0,
{
}

proof fn lemma_hex_digit_at(n: int, len: nat, i: int)
    requires
        0 <= n,
        0 <= i < len,
    ensures
        hex_digits(n, len).len() == len,
        hex_digits(n, len)[i] == hex_digit((n / pow(16, (len - 1 - i) as nat)) % 16),
    decreases len,
{
    lemma_hex_shape(n, len);
    if i == len - 1 {
        lemma_pow0(16);
    } else {
        let p = pow(16, (len - 2 - i) as nat);
        lemma_hex_digit_at(n / 16, (len - 1) as nat, i);
        lemma_hex_shape(n / 16, (len - 1) as nat);
        vstd::arithmetic::power::lemma_pow_positive(16, (len - 2 - i) as nat);
        vstd::arithmetic::div_mod::lemma_div_denominator(n, 16, p);
        reveal(pow);
        assert(pow(16, (len - 1 - i) as nat) == 16 * p);
    }
}

/// The name of a still frame is its digest in hexadecimal, in sixteen digits
/// and lower case, and `.jpg`.
pub proof fn law_still_name_is_hexadecimal(digest: u64, i: int)
    requires
        0 <= i < 16,
    ensures
        thumb_name(digest).len() == 20,
        thumb_name(digest).skip(16) == seq![0x2eu8, 0x6au8, 0x70u8, 0x67u8],
        ({
            let d = (digest as int / pow(16, (15 - i) as nat)) % 16;
            &&& 0 <= d <= 9 ==> thumb_name(digest)[i] == 48 + d
            &&& 10 <= d <= 15 ==> thumb_name(digest)[i] == 97 + (d - 10)
        }),
{
    lemma_hex_digit_at(digest as int, 16, i);
    lemma_jpg_suffix();
    assert(thumb_name(digest)[i] == hex_digits(digest as int, 16)[i]);
    assert(thumb_name(digest).skip(16) =~= seq![0x2eu8, 0x6au8, 0x70u8, 0x67u8]);
}

/// A still frame lies in the cache directory, under the name of the digest of
/// the text of the video's path, a byte that no text holds, and the time.
pub proof fn law_still_lies_in_the_cache(dir: Seq<u8>, video: Seq<u8>, mtime: u64)
    requires
        dir.len() > 0,
        dir.last() != 0x2f,
    ensures
        still_path(dir, video, mtime) == dir + seq![0x2fu8] + thumb_name(
            DefaultHasher::spec_finish(
                seq![encode_utf8(lossy(video)), seq![0xffu8], spec_u64_to_le_bytes(mtime)],
            ),
        ),
{
    let name = thumb_name(digest_of(lossy(video), mtime));
    lemma_hex_shape(digest_of(lossy(video), mtime) as int, 16);
    assert(name[0] == hex_digits(digest_of(lossy(video), mtime) as int, 16)[0]);
}

} // verus!
