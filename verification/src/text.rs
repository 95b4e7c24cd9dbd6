//! Text: the classes of characters that the gallery cuts and trims at, and the
//! two conversions that it has from `std`.

use vstd::prelude::*;
use vstd::utf8::{
    decode_first_scalar, decode_utf8, is_ascii_chars, pop_first_scalar, valid_first_scalar,
    valid_utf8,
};

use crate::pieces::{
    lemma_pieces_hold_no_separator, lemma_split_at_separator, lemma_split_not_empty,
    lemma_split_without_separator, lemma_trim_around, lemma_trim_back, lemma_trim_front, non_empty,
    split_where, trim_back, trim_both, trim_front,
};

verus! {

/// The classes of characters that text is cut or trimmed at.
#[derive(Clone, Copy, PartialEq, Eq, Structural, Debug)]
pub enum CharClass {
    /// Unicode white space.
    Space,
    /// The line feed.
    LineFeed,
    /// The single and the double quote.
    Quote,
}

/// The characters with the Unicode property `White_Space`.
pub open spec fn is_space(c: char) -> bool {
    ||| '\u{9}' <= c <= '\u{d}'
    ||| c == ' '
    ||| c == '\u{85}'
    ||| c == '\u{a0}'
    ||| c == '\u{1680}'
    ||| '\u{2000}' <= c <= '\u{200a}'
    ||| c == '\u{2028}'
    ||| c == '\u{2029}'
    ||| c == '\u{202f}'
    ||| c == '\u{205f}'
    ||| c == '\u{3000}'
}

impl CharClass {
    /// Whether `c` is of this class.
    pub open spec fn holds(self, c: char) -> bool {
        match self {
            CharClass::Space => is_space(c),
            CharClass::LineFeed => c == '\n',
            CharClass::Quote => c == '"' || c == '\'',
        }
    }

    /// The class as a predicate.
    pub open spec fn pred(self) -> spec_fn(char) -> bool {
        |c: char| self.holds(c)
    }

    /// Tells whether `c` is of this class.
    pub fn contains(self, c: char) -> (r: bool)
        ensures
            r == self.holds(c),
    {
        match self {
            CharClass::Space => {
                ('\u{9}' <= c && c <= '\u{d}') || c == ' ' || c == '\u{85}' || c == '\u{a0}' || c
                    == '\u{1680}' || ('\u{2000}' <= c && c <= '\u{200a}') || c == '\u{2028}' || c
                    == '\u{2029}' || c == '\u{202f}' || c == '\u{205f}' || c == '\u{3000}'
            },
            CharClass::LineFeed => c == '\n',
            CharClass::Quote => c == '"' || c == '\'',
        }
    }
}

/// The views of some strings.
pub open spec fn texts(v: Seq<String>) -> Seq<Seq<char>> {
    v.map_values(|s: String| s@)
}

/// The words of `s`: its pieces between white space, empty ones left out.
pub open spec fn words_of(s: Seq<char>) -> Seq<Seq<char>> {
    non_empty(split_where(s, CharClass::Space.pred()))
}

/// The characters of `s`, for indexed access.
pub fn chars_of(s: &str) -> (r: Vec<char>)
    ensures
        r@ == s@,
{
    let mut r: Vec<char> = Vec::new();
    for c in it: s.chars()
        invariant
            r@ == s@.take(it.index() as int),
            it.seq() == s@,
    {
        r.push(c);
    }
    r
}

/// The characters of `s` from `from` up to `to`, as a string of their own.
fn cut(s: &str, from: usize, to: usize) -> (r: String)
    requires
        from <= to <= s@.len(),
    ensures
        r@ == s@.subrange(from as int, to as int),
{
    s.substring_char(from, to).to_owned()
}

/// The pieces of `s` between the characters of `class`.
pub fn split_text(s: &str, class: CharClass) -> (r: Vec<String>)
    ensures
        texts(r@) == split_where(s@, class.pred()),
{
    let chars = chars_of(s);
    let mut out: Vec<String> = Vec::new();
    let mut start: usize = 0;
    let mut i: usize = 0;
    assert(split_where(s@.take(0), class.pred()) =~= seq![Seq::empty()]);
    while i < chars.len()
        invariant
            chars@ == s@,
            start <= i <= chars.len(),
            split_where(s@.take(i as int), class.pred()).len() > 0,
            texts(out@) == split_where(s@.take(i as int), class.pred()).drop_last(),
            split_where(s@.take(i as int), class.pred()).last() == s@.subrange(
                start as int,
                i as int,
            ),
        decreases chars.len() - i,
    {
        let ghost before = split_where(s@.take(i as int), class.pred());
        let ghost after = split_where(s@.take(i + 1), class.pred());
        assert(s@.take(i + 1).drop_last() =~= s@.take(i as int));
        assert(s@.take(i + 1).last() == s@[i as int]);
        if class.contains(chars[i]) {
            let piece = cut(s, start, i);
            assert(texts(out@.push(piece)) =~= texts(out@).push(piece@));
            out.push(piece);
            start = i + 1;
            assert(after.drop_last() =~= before);
            assert(before =~= before.drop_last().push(before.last()));
        } else {
            assert(after.drop_last() =~= before.drop_last());
            assert(s@.subrange(start as int, i as int).push(s@[i as int]) =~= s@.subrange(
                start as int,
                i + 1,
            ));
        }
        i = i + 1;
    }
    assert(s@.take(i as int) =~= s@);
    let last = cut(s, start, i);
    proof {
        let all = split_where(s@, class.pred());
        assert(texts(out@.push(last)) =~= texts(out@).push(last@));
        assert(all =~= all.drop_last().push(all.last()));
    }
    out.push(last);
    out
}

/// The words of `s`: its pieces between white space, empty ones left out.
pub fn words(s: &str) -> (r: Vec<String>)
    ensures
        texts(r@) == words_of(s@),
{
    let pieces = split_text(s, CharClass::Space);
    let ghost all = split_where(s@, CharClass::Space.pred());
    let mut out: Vec<String> = Vec::new();
    let mut i: usize = 0;
    assert(all.take(0) =~= Seq::empty());
    assert(texts(out@) =~= non_empty(all.take(0)));
    while i < pieces.len()
        invariant
            i <= pieces.len(),
            texts(pieces@) == all,
            texts(out@) == non_empty(all.take(i as int)),
        decreases pieces.len() - i,
    {
        proof {
            reveal(Seq::filter);
            assert(all.take(i + 1).drop_last() =~= all.take(i as int));
            assert(all[i as int] == pieces@[i as int]@);
        }
        if !pieces[i].as_str().is_empty() {
            let word = pieces[i].clone();
            out.push(word);
            assert(texts(out@) =~= non_empty(all.take(i as int)).push(all[i as int]));
        }
        i = i + 1;
    }
    assert(all.take(i as int) =~= all);
    out
}

/// Words are not empty and hold no white space.
pub proof fn law_words_hold_no_space(s: Seq<char>)
    ensures
        forall|i: int|
            0 <= i < words_of(s).len() ==> (#[trigger] words_of(s)[i]).len() > 0 && forall|j: int|
                0 <= j < words_of(s)[i].len() ==> !CharClass::Space.holds(
                    #[trigger] words_of(s)[i][j],
                ),
{
    let p = CharClass::Space.pred();
    let pieces = split_where(s, p);
    let keep = |w: Seq<char>| w.len() > 0;
    lemma_pieces_hold_no_separator(s, p);
    assert forall|i: int| 0 <= i < words_of(s).len() implies (
    #[trigger] words_of(s)[i]).len() > 0 && forall|j: int|
        0 <= j < words_of(s)[i].len() ==> !CharClass::Space.holds(
            #[trigger] words_of(s)[i][j],
        ) by {
        let w = words_of(s)[i];
        assert(pieces.filter(keep).contains(w));
        pieces.lemma_filter_contains_rev(keep, w);
        pieces.lemma_filter_pred(keep, i);
        assert(pieces.contains(w));
        let k = choose|k: int| 0 <= k < pieces.len() && pieces[k] == w;
        assert forall|j: int| 0 <= j < w.len() implies !CharClass::Space.holds(#[trigger] w[j]) by {
            assert(!p(pieces[k][j]));
        }
    }
}

/// `s` without the characters of `class` at its start.
pub fn trim_start(s: &str, class: CharClass) -> (r: String)
    ensures
        r@ == trim_front(s@, class.pred()),
{
    let chars = chars_of(s);
    let mut from: usize = 0;
    while from < chars.len() && class.contains(chars[from])
        invariant
            chars@ == s@,
            from <= chars.len(),
            forall|i: int| 0 <= i < from ==> class.holds(#[trigger] s@[i]),
        decreases chars.len() - from,
    {
        from = from + 1;
    }
    proof {
        lemma_trim_front(s@, class.pred(), from as int);
        assert(s@.skip(from as int) =~= s@.subrange(from as int, s@.len() as int));
    }
    cut(s, from, chars.len())
}

/// `s` without the characters of `class` at its end.
pub fn trim_end(s: &str, class: CharClass) -> (r: String)
    ensures
        r@ == trim_back(s@, class.pred()),
{
    let chars = chars_of(s);
    let mut to: usize = chars.len();
    while to > 0 && class.contains(chars[to - 1])
        invariant
            chars@ == s@,
            to <= chars.len(),
            forall|i: int| to <= i < s@.len() ==> class.holds(#[trigger] s@[i]),
        decreases to,
    {
        to = to - 1;
    }
    proof {
        lemma_trim_back(s@, class.pred(), to as int);
        assert(s@.take(to as int) =~= s@.subrange(0, to as int));
    }
    cut(s, 0, to)
}

/// `s` without the characters of `class` at either end.
pub fn trim(s: &str, class: CharClass) -> (r: String)
    ensures
        r@ == trim_both(s@, class.pred()),
{
    trim_end(trim_start(s, class).as_str(), class)
}

/// What follows `prefix` in `s`, if `s` starts with it.
pub open spec fn after_prefix(s: Seq<char>, prefix: Seq<char>) -> Option<Seq<char>> {
    if prefix.is_prefix_of(s) {
        Some(s.skip(prefix.len() as int))
    } else {
        None
    }
}

/// What follows `prefix` in `s`, if `s` starts with it.
pub fn strip_prefix(s: &str, prefix: &str) -> (r: Option<String>)
    ensures
        match r {
            Some(rest) => after_prefix(s@, prefix@) == Some(rest@),
            None => after_prefix(s@, prefix@) is None,
        },
{
    let chars = chars_of(s);
    let head = chars_of(prefix);
    if chars.len() < head.len() {
        return None;
    }
    let mut i: usize = 0;
    while i < head.len()
        invariant
            chars@ == s@,
            head@ == prefix@,
            i <= head.len() <= chars.len(),
            forall|j: int| 0 <= j < i ==> s@[j] == prefix@[j],
        decreases head.len() - i,
    {
        if chars[i] != head[i] {
            assert(prefix@ != s@.subrange(0, prefix@.len() as int)) by {
                assert(s@.subrange(0, prefix@.len() as int)[i as int] == s@[i as int]);
            }
            return None;
        }
        i = i + 1;
    }
    assert(prefix@ =~= s@.subrange(0, prefix@.len() as int));
    assert(s@.skip(head.len() as int) =~= s@.subrange(head.len() as int, s@.len() as int));
    Some(cut(s, head.len(), chars.len()))
}

/// Tells whether two texts are the same.
pub fn same_text(a: &str, b: &str) -> (r: bool)
    ensures
        r == (a@ == b@),
{
    a.to_owned() == b.to_owned()
}

/// How many bytes of 128 and above `bytes` starts with.
pub open spec fn high_run(bytes: Seq<u8>) -> int
    decreases bytes.len(),
{
    if bytes.len() == 0 || bytes[0] < 128 {
        0
    } else {
        1 + high_run(bytes.skip(1))
    }
}

/// The text of bytes of 128 and above that are not UTF-8, as
/// `String::from_utf8_lossy` gives it.
pub uninterp spec fn replaced_utf8(bytes: Seq<u8>) -> Seq<char>;

/// The text of bytes that are not UTF-8: each byte below 128 is a character of
/// its own, and each run of other bytes between them is decoded, with
/// replacement characters in the place of what is not UTF-8.
pub open spec fn patched(bytes: Seq<u8>) -> Seq<char>
    decreases bytes.len(),
{
    if bytes.len() == 0 {
        seq![]
    } else if bytes[0] < 128 {
        seq![bytes[0] as char] + patched(bytes.skip(1))
    } else {
        proof {
            lemma_high_run(bytes);
        }
        let run = bytes.take(high_run(bytes));
        (if valid_utf8(run) {
            decode_utf8(run)
        } else {
            replaced_utf8(run)
        }) + patched(bytes.skip(high_run(bytes)))
    }
}

/// The run lies within the bytes, and holds bytes of 128 and above.
pub proof fn lemma_high_run(bytes: Seq<u8>)
    ensures
        0 <= high_run(bytes) <= bytes.len(),
        bytes.len() > 0 && bytes[0] >= 128 ==> high_run(bytes) >= 1,
        forall|i: int| 0 <= i < high_run(bytes) ==> #[trigger] bytes[i] >= 128,
    decreases bytes.len(),
{
    if bytes.len() > 0 && bytes[0] >= 128 {
        let rest = bytes.skip(1);
        lemma_high_run(rest);
        assert forall|i: int| 0 <= i < high_run(bytes) implies #[trigger] bytes[i] >= 128 by {
            if i > 0 {
                assert(bytes[i] == rest[i - 1]);
            }
        }
    }
}

/// The text of a file name: its decoding where it is UTF-8, and elsewhere the
/// decoding with replacement characters in the place of what is not.
pub open spec fn lossy(bytes: Seq<u8>) -> Seq<char> {
    if valid_utf8(bytes) {
        decode_utf8(bytes)
    } else {
        patched(bytes)
    }
}

/// Calls `String::from_utf8_lossy`. Trusted: valid UTF-8 comes back decoded; in
/// other bytes each one below 128 stands for its character and leaves what is
/// before and behind it alone, and what comes back for a run of other bytes is
/// a function of that run.
#[verifier::external_body]
pub(crate) fn text_lossy(bytes: &[u8]) -> (r: String)
    ensures
        !valid_utf8(bytes@) && high_run(bytes@) == bytes@.len() ==> r@ == replaced_utf8(bytes@),
        r@ == lossy(bytes@),
{
    String::from_utf8_lossy(bytes).into_owned()
}

/// The lower case of an ASCII character.
pub open spec fn ascii_lower(c: char) -> char {
    if 'A' <= c <= 'Z' {
        (c as u8 + 32) as char
    } else {
        c
    }
}

/// A text with its ASCII capitals in lower case.
pub open spec fn ascii_folded(s: Seq<char>) -> Seq<char> {
    s.map_values(|c: char| ascii_lower(c))
}

/// The lower case of an ASCII byte.
pub open spec fn lower_byte(b: u8) -> u8 {
    if 0x41 <= b <= 0x5a {
        (b + 32) as u8
    } else {
        b
    }
}

/// Bytes with their ASCII capitals in lower case.
pub open spec fn bytes_folded(bytes: Seq<u8>) -> Seq<u8> {
    bytes.map_values(|b: u8| lower_byte(b))
}

/// The lower case of a text that is not ASCII and holds no ASCII capitals, as
/// `str::to_lowercase` gives it.
pub uninterp spec fn unicode_lowercase(s: Seq<char>) -> Seq<char>;

/// The lower case of a text.
pub open spec fn lowercase(s: Seq<char>) -> Seq<char> {
    let t = ascii_folded(s);
    if is_ascii_chars(t) {
        t
    } else {
        unicode_lowercase(t)
    }
}

/// Calls `str::to_lowercase`. Trusted: in a text of ASCII alone `A` to `Z`
/// become `a` to `z` and the rest stays; what comes back for another text is a
/// function of that text, and the case of its ASCII letters makes no difference.
#[verifier::external_body]
pub(crate) fn to_lowercase(s: &str) -> (r: String)
    ensures
        !is_ascii_chars(s@) ==> r@ == unicode_lowercase(ascii_folded(s@)),
        r@ == lowercase(s@),
{
    s.to_lowercase()
}

/// Folding a byte keeps it below 128 or leaves it alone, and folds its
/// character.
proof fn lemma_lower_byte(b: u8)
    ensures
        b >= 128 ==> lower_byte(b) == b,
        b < 128 ==> lower_byte(b) < 128 && ascii_lower(b as char) == lower_byte(b) as char,
        b < 128 ==> (b & 0x7f) == b,
{
    assert(b < 128 ==> (b & 0x7f) == b) by (bit_vector);
}

/// Folding changes neither whether bytes are UTF-8 nor, but for the case of
/// ASCII letters, what they are decoded to.
proof fn lemma_fold_utf8(bytes: Seq<u8>)
    ensures
        valid_utf8(bytes_folded(bytes)) == valid_utf8(bytes),
        valid_utf8(bytes) ==> decode_utf8(bytes_folded(bytes)) == ascii_folded(decode_utf8(bytes)),
    decreases bytes.len(),
{
    let folded = bytes_folded(bytes);
    if bytes.len() > 0 {
        assert forall|i: int| 0 <= i < bytes.len() implies (bytes[i] >= 128 ==> folded[i]
            == bytes[i]) && (bytes[i] < 128 ==> #[trigger] folded[i] < 128) by {
            lemma_lower_byte(bytes[i]);
        }
        lemma_lower_byte(bytes[0]);
        lemma_lower_byte(folded[0]);
        assert(valid_first_scalar(folded) == valid_first_scalar(bytes));
        if valid_first_scalar(bytes) {
            let rest = pop_first_scalar(bytes);
            lemma_fold_utf8(rest);
            assert(pop_first_scalar(folded) =~= bytes_folded(rest));
            if valid_utf8(bytes) {
                let c = decode_first_scalar(bytes) as char;
                assert(decode_first_scalar(folded) as char == ascii_lower(c)) by {
                    if bytes[0] >= 128 {
                        // More than one byte stands for `c`, which is therefore no ASCII.
                        vstd::utf8::decode_utf8_first_scalar(bytes);
                        assert(vstd::utf8::take_first_scalar(bytes).len() > 1);
                        assert(c as u32 >= 128);
                    }
                }
                assert(ascii_folded(seq![c] + decode_utf8(rest)) =~= seq![ascii_lower(c)]
                    + ascii_folded(decode_utf8(rest)));
            }
        }
    } else {
        assert(folded =~= bytes);
        assert(ascii_folded(decode_utf8(bytes)) =~= decode_utf8(bytes));
    }
}

/// Folding keeps the runs of bytes of 128 and above.
proof fn lemma_fold_high_run(bytes: Seq<u8>)
    ensures
        high_run(bytes_folded(bytes)) == high_run(bytes),
    decreases bytes.len(),
{
    if bytes.len() > 0 {
        lemma_lower_byte(bytes[0]);
        assert(bytes_folded(bytes).skip(1) =~= bytes_folded(bytes.skip(1)));
        lemma_fold_high_run(bytes.skip(1));
    }
}

/// Folding changes nothing but the case of ASCII letters.
proof fn lemma_fold_patched(bytes: Seq<u8>)
    ensures
        ascii_folded(patched(bytes_folded(bytes))) == ascii_folded(patched(bytes)),
    decreases bytes.len(),
{
    let folded = bytes_folded(bytes);
    if bytes.len() == 0 {
        assert(folded =~= bytes);
    } else {
        lemma_lower_byte(bytes[0]);
        lemma_lower_byte(folded[0]);
        if bytes[0] < 128 {
            let rest = bytes.skip(1);
            lemma_fold_patched(rest);
            assert(folded.skip(1) =~= bytes_folded(rest));
            lemma_fold_concat(seq![bytes[0] as char], patched(rest));
            lemma_fold_concat(seq![folded[0] as char], patched(bytes_folded(rest)));
            assert(ascii_folded(seq![bytes[0] as char]) =~= ascii_folded(seq![folded[0] as char]));
        } else {
            let k = high_run(bytes);
            lemma_high_run(bytes);
            lemma_fold_high_run(bytes);
            lemma_fold_patched(bytes.skip(k));
            assert(folded.skip(k) =~= bytes_folded(bytes.skip(k)));
            assert(folded.take(k) =~= bytes.take(k)) by {
                assert forall|i: int| 0 <= i < k implies folded[i] == #[trigger] bytes[i] by {
                    lemma_lower_byte(bytes[i]);
                }
            }
            let run = bytes.take(k);
            let text = if valid_utf8(run) {
                decode_utf8(run)
            } else {
                replaced_utf8(run)
            };
            lemma_fold_concat(text, patched(bytes.skip(k)));
            lemma_fold_concat(text, patched(folded.skip(k)));
        }
    }
}

proof fn lemma_fold_concat(a: Seq<char>, b: Seq<char>)
    ensures
        ascii_folded(a + b) == ascii_folded(a) + ascii_folded(b),
{
    assert(ascii_folded(a + b) =~= ascii_folded(a) + ascii_folded(b));
}

/// Bytes that differ in nothing but the case of ASCII letters are the same text
/// in lower case.
pub proof fn law_lowercase_ignores_case(a: Seq<u8>, b: Seq<u8>)
    requires
        bytes_folded(a) == bytes_folded(b),
    ensures
        lowercase(lossy(a)) == lowercase(lossy(b)),
{
    lemma_fold_lossy(a);
    lemma_fold_lossy(b);
}

proof fn lemma_fold_lossy(bytes: Seq<u8>)
    ensures
        ascii_folded(lossy(bytes)) == ascii_folded(lossy(bytes_folded(bytes))),
{
    lemma_fold_utf8(bytes);
    lemma_fold_patched(bytes);
    if valid_utf8(bytes) {
        let text = decode_utf8(bytes);
        assert(ascii_folded(ascii_folded(text)) =~= ascii_folded(text));
    }
}

/// The classes, by the numbers of their characters: white space as Unicode has
/// it, the line feed, and the two quotes.
pub proof fn law_classes(c: char)
    ensures
        ({
            let n = c as u32;
            &&& CharClass::Space.holds(c) <==> (9 <= n <= 13 || n == 32 || n == 0x85 || n == 0xa0
                || n == 0x1680 || 0x2000 <= n <= 0x200a || n == 0x2028 || n == 0x2029 || n == 0x202f
                || n == 0x205f || n == 0x3000)
            &&& CharClass::LineFeed.holds(c) <==> n == 10
            &&& CharClass::Quote.holds(c) <==> n == 34 || n == 39
        }),
{
}

/// Sequences one behind the other.
pub open spec fn run_together(parts: Seq<Seq<char>>) -> Seq<char>
    decreases parts.len(),
{
    if parts.len() == 0 {
        seq![]
    } else {
        run_together(parts.drop_last()) + parts.last()
    }
}

proof fn lemma_run_together_push(parts: Seq<Seq<char>>, p: Seq<char>)
    ensures
        run_together(parts.push(p)) == run_together(parts) + p,
{
    assert(parts.push(p).drop_last() =~= parts);
}

proof fn lemma_run_together_non_empty(parts: Seq<Seq<char>>)
    ensures
        run_together(non_empty(parts)) == run_together(parts),
    decreases parts.len(),
{
    reveal(Seq::filter);
    if parts.len() > 0 {
        let front = parts.drop_last();
        lemma_run_together_non_empty(front);
        if parts.last().len() > 0 {
            lemma_run_together_push(non_empty(front), parts.last());
        } else {
            assert(run_together(front) + parts.last() =~= run_together(front));
        }
    }
}

proof fn lemma_run_together_split(s: Seq<char>, class: CharClass)
    ensures
        run_together(split_where(s, class.pred())) == s.filter(|c: char| !class.holds(c)),
    decreases s.len(),
{
    let keep = |c: char| !class.holds(c);
    reveal(Seq::filter);
    if s.len() == 0 {
        reveal_with_fuel(run_together, 2);
        assert(seq![Seq::<char>::empty()].drop_last() =~= seq![]);
        assert(run_together(split_where(s, class.pred())) =~= s.filter(keep));
    } else {
        let front = s.drop_last();
        let before = split_where(front, class.pred());
        lemma_run_together_split(front, class);
        lemma_split_not_empty(front, class.pred());
        if class.holds(s.last()) {
            lemma_run_together_push(before, Seq::empty());
            assert(run_together(before) + Seq::empty() =~= run_together(before));
        } else {
            let longer = before.last().push(s.last());
            lemma_run_together_push(before.drop_last(), longer);
            assert(run_together(before.drop_last()) + longer =~= run_together(before).push(
                s.last(),
            ));
        }
    }
}

/// Nothing but white space is lost in splitting a text into words: the words
/// one behind the other are the text without its white space.
pub proof fn law_words_lose_only_space(s: Seq<char>)
    ensures
        run_together(words_of(s)) == s.filter(|c: char| !CharClass::Space.holds(c)),
{
    lemma_run_together_split(s, CharClass::Space);
    lemma_run_together_non_empty(split_where(s, CharClass::Space.pred()));
}

/// White space ends a word, wherever it stands; what holds none is a word of
/// its own; and nothing holds no word.
pub proof fn law_words_end_at_space(a: Seq<char>, c: char, b: Seq<char>, w: Seq<char>)
    requires
        CharClass::Space.holds(c),
        w.len() > 0,
        forall|i: int| 0 <= i < w.len() ==> !CharClass::Space.holds(#[trigger] w[i]),
    ensures
        words_of(a + seq![c] + b) == words_of(a) + words_of(b),
        words_of(w) == seq![w],
        words_of(seq![]) == Seq::<Seq<char>>::empty(),
{
    let p = CharClass::Space.pred();
    let keep = |v: Seq<char>| v.len() > 0;
    assert(a + seq![c] + b =~= a.push(c) + b);
    lemma_split_at_separator(a, c, b, p);
    Seq::filter_distributes_over_add(split_where(a, p), split_where(b, p), keep);
    lemma_split_without_separator(w, p);
    lemma_split_without_separator(Seq::<char>::empty(), p);
    reveal_with_fuel(Seq::filter, 2);
    assert(seq![w].drop_last() =~= seq![]);
    assert(seq![Seq::<char>::empty()].drop_last() =~= seq![]);
    assert(keep(w) && !keep(Seq::<char>::empty()));
    assert(words_of(w) =~= seq![w]);
    assert(words_of(seq![]) =~= Seq::<Seq<char>>::empty());
}

/// The pieces of a text are what stands between the characters of a class.
pub proof fn law_pieces_end_at_class(a: Seq<char>, c: char, b: Seq<char>, class: CharClass)
    requires
        class.holds(c),
        forall|i: int| 0 <= i < a.len() ==> !class.holds(#[trigger] a[i]),
    ensures
        split_where(a, class.pred()) == seq![a],
        split_where(a + seq![c] + b, class.pred()) == seq![a] + split_where(b, class.pred()),
{
    assert(a + seq![c] + b =~= a.push(c) + b);
    lemma_split_without_separator(a, class.pred());
    lemma_split_at_separator(a, c, b, class.pred());
}

/// Trimming takes away characters of the class at the ends, all of them, and
/// nothing else.
pub proof fn law_trimming(a: Seq<char>, core: Seq<char>, b: Seq<char>, class: CharClass)
    requires
        forall|i: int| 0 <= i < a.len() ==> class.holds(#[trigger] a[i]),
        forall|i: int| 0 <= i < b.len() ==> class.holds(#[trigger] b[i]),
        core.len() > 0,
        !class.holds(core[0]),
        !class.holds(core.last()),
    ensures
        trim_both(a + core + b, class.pred()) == core,
        trim_front(a + core, class.pred()) == core,
        trim_back(core + b, class.pred()) == core,
        trim_both(a, class.pred()) == Seq::<char>::empty(),
        trim_front(a, class.pred()) == Seq::<char>::empty(),
        trim_back(a, class.pred()) == Seq::<char>::empty(),
{
    let p = class.pred();
    let none = Seq::<char>::empty();
    lemma_trim_around(a, core, b, p);
    lemma_trim_around(a, core, none, p);
    assert(a + core + none =~= a + core && core + none =~= core);
    lemma_trim_back(core + b, p, core.len() as int);
    assert((core + b).take(core.len() as int) =~= core);
    lemma_trim_front(a, p, a.len() as int);
    assert(a.skip(a.len() as int) =~= none);
    lemma_trim_back(a, p, 0);
    assert(a.take(0) =~= none);
}

/// What follows a prefix is the rest, and a text without the prefix has none.
pub proof fn law_prefix_and_rest(s: Seq<char>, prefix: Seq<char>, rest: Seq<char>)
    ensures
        after_prefix(prefix + rest, prefix) == Some(rest),
        after_prefix(s, prefix) matches Some(r) ==> s == prefix + r,
{
    assert((prefix + rest).subrange(0, prefix.len() as int) =~= prefix);
    assert((prefix + rest).skip(prefix.len() as int) =~= rest);
    if prefix.is_prefix_of(s) {
        assert(s =~= s.subrange(0, prefix.len() as int) + s.skip(prefix.len() as int));
    }
}

/// The text of UTF-8 is what was encoded, and nothing is lost.
pub proof fn law_text_of_utf8(chars: Seq<char>, bytes: Seq<u8>)
    ensures
        lossy(vstd::utf8::encode_utf8(chars)) == chars,
        valid_utf8(bytes) ==> vstd::utf8::encode_utf8(lossy(bytes)) == bytes,
{
    vstd::utf8::encode_utf8_valid_utf8(chars);
    vstd::utf8::encode_utf8_decode_utf8(chars);
    if valid_utf8(bytes) {
        vstd::utf8::decode_utf8_encode_utf8(bytes);
    }
}

/// A byte below 128 is its character, and parts the text before it from the
/// text behind it, whether or not these are UTF-8.
pub proof fn law_ascii_bytes_stand_alone(a: Seq<u8>, c: u8, b: Seq<u8>)
    requires
        c < 128,
        !valid_utf8(a + seq![c] + b),
    ensures
        lossy(a + seq![c] + b) == patched(a) + seq![c as char] + patched(b),
{
    lemma_patched_around_ascii(a, c, b);
}

proof fn lemma_patched_around_ascii(a: Seq<u8>, c: u8, b: Seq<u8>)
    requires
        c < 128,
    ensures
        patched(a + seq![c] + b) == patched(a) + seq![c as char] + patched(b),
    decreases a.len(),
{
    let whole = a + seq![c] + b;
    if a.len() == 0 {
        assert(whole.skip(1) =~= b);
        assert(patched(whole) =~= patched(a) + seq![c as char] + patched(b));
    } else if a[0] < 128 {
        let rest = a.skip(1);
        lemma_patched_around_ascii(rest, c, b);
        assert(whole.skip(1) =~= rest + seq![c] + b);
        assert(patched(whole) =~= patched(a) + seq![c as char] + patched(b));
    } else {
        let k = high_run(a);
        lemma_high_run(a);
        lemma_high_run_ends(a, c, b);
        let rest = a.skip(k);
        lemma_patched_around_ascii(rest, c, b);
        assert(whole.skip(k) =~= rest + seq![c] + b);
        assert(whole.take(k) =~= a.take(k));
        assert(patched(whole) =~= patched(a) + seq![c as char] + patched(b));
    }
}

proof fn lemma_high_run_ends(a: Seq<u8>, c: u8, b: Seq<u8>)
    requires
        c < 128,
    ensures
        high_run(a + seq![c] + b) == high_run(a),
    decreases a.len(),
{
    let whole = a + seq![c] + b;
    if a.len() > 0 {
        assert(whole[0] == a[0]);
        lemma_high_run_ends(a.skip(1), c, b);
        assert(whole.skip(1) =~= a.skip(1) + seq![c] + b);
    }
}

/// In a text of ASCII `A` to `Z` become `a` to `z`, and the rest stays.
pub proof fn law_lowercase_of_ascii(s: Seq<char>, i: int)
    requires
        forall|j: int| 0 <= j < s.len() ==> (#[trigger] s[j]) as u32 <= 127,
        0 <= i < s.len(),
    ensures
        lowercase(s).len() == s.len(),
        65 <= s[i] as u32 <= 90 ==> lowercase(s)[i] as u32 == s[i] as u32 + 32,
        !(65 <= s[i] as u32 <= 90) ==> lowercase(s)[i] == s[i],
{
    let t = ascii_folded(s);
    assert forall|j: int| 0 <= j < t.len() implies (#[trigger] t[j]) as u32 <= 127 by {
        assert(s[j] as u32 <= 127);
    }
    assert(is_ascii_chars(t));
    assert(s[i] as u32 <= 127);
}

} // verus!
