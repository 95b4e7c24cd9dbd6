//! Cutting sequences into pieces and trimming their ends: the vocabulary that
//! paths, configuration lines and command lines are described in.

use vstd::prelude::*;

verus! {

/// The pieces of `s` between the elements that satisfy `sep`. There is always
/// at least one piece, and a piece may be empty.
pub open spec fn split_where<A>(s: Seq<A>, sep: spec_fn(A) -> bool) -> Seq<Seq<A>>
    decreases s.len(),
{
    if s.len() == 0 {
        seq![Seq::empty()]
    } else {
        let before = split_where(s.drop_last(), sep);
        if sep(s.last()) {
            before.push(Seq::empty())
        } else {
            before.drop_last().push(before.last().push(s.last()))
        }
    }
}

/// The pieces that hold at least one element.
pub open spec fn non_empty<A>(pieces: Seq<Seq<A>>) -> Seq<Seq<A>> {
    pieces.filter(|p: Seq<A>| p.len() > 0)
}

/// `s` without the longest prefix whose elements all satisfy `drop`.
pub open spec fn trim_front<A>(s: Seq<A>, drop: spec_fn(A) -> bool) -> Seq<A>
    decreases s.len(),
{
    if s.len() > 0 && drop(s[0]) {
        trim_front(s.skip(1), drop)
    } else {
        s
    }
}

/// `s` without the longest suffix whose elements all satisfy `drop`.
pub open spec fn trim_back<A>(s: Seq<A>, drop: spec_fn(A) -> bool) -> Seq<A>
    decreases s.len(),
{
    if s.len() > 0 && drop(s.last()) {
        trim_back(s.drop_last(), drop)
    } else {
        s
    }
}

/// `s` trimmed at both ends.
pub open spec fn trim_both<A>(s: Seq<A>, drop: spec_fn(A) -> bool) -> Seq<A> {
    trim_back(trim_front(s, drop), drop)
}

/// Splitting yields at least one piece.
pub proof fn lemma_split_not_empty<A>(s: Seq<A>, sep: spec_fn(A) -> bool)
    ensures
        split_where(s, sep).len() > 0,
    decreases s.len(),
{
    if s.len() > 0 {
        lemma_split_not_empty(s.drop_last(), sep);
    }
}

/// No piece holds a separator.
pub proof fn lemma_pieces_hold_no_separator<A>(s: Seq<A>, sep: spec_fn(A) -> bool)
    ensures
        forall|i: int, j: int|
            0 <= i < split_where(s, sep).len() && 0 <= j < split_where(s, sep)[i].len()
                ==> !sep(#[trigger] split_where(s, sep)[i][j]),
    decreases s.len(),
{
    if s.len() > 0 {
        lemma_split_not_empty(s.drop_last(), sep);
        lemma_pieces_hold_no_separator(s.drop_last(), sep);
    }
}

/// A sequence without a separator is its own and only piece.
pub proof fn lemma_split_without_separator<A>(s: Seq<A>, sep: spec_fn(A) -> bool)
    requires
        forall|i: int| 0 <= i < s.len() ==> !sep(#[trigger] s[i]),
    ensures
        split_where(s, sep) =~= seq![s],
    decreases s.len(),
{
    if s.len() > 0 {
        assert(forall|i: int| 0 <= i < s.drop_last().len() ==> s.drop_last()[i] == s[i]);
        lemma_split_without_separator(s.drop_last(), sep);
        assert(s.drop_last().push(s.last()) =~= s);
    } else {
        assert(s =~= Seq::empty());
    }
}

/// The pieces on both sides of a separator, one behind the other.
pub proof fn lemma_split_at_separator<A>(a: Seq<A>, x: A, b: Seq<A>, sep: spec_fn(A) -> bool)
    requires
        sep(x),
    ensures
        split_where(a.push(x) + b, sep) == split_where(a, sep) + split_where(b, sep),
    decreases b.len(),
{
    let whole = a.push(x) + b;
    lemma_split_not_empty(a, sep);
    if b.len() == 0 {
        assert(whole =~= a.push(x));
        assert(whole.drop_last() =~= a);
        assert(split_where(whole, sep) =~= split_where(a, sep) + split_where(b, sep));
    } else {
        let front = b.drop_last();
        assert(whole.drop_last() =~= a.push(x) + front);
        assert(whole.last() == b.last());
        lemma_split_at_separator(a, x, front, sep);
        lemma_split_not_empty(front, sep);
        let left = split_where(a, sep);
        let right = split_where(front, sep);
        assert((left + right).last() == right.last());
        assert((left + right).drop_last() =~= left + right.drop_last());
        assert(split_where(whole, sep) =~= left + split_where(b, sep));
    }
}

/// Trimming the front keeps a suffix that does not start with a dropped element.
pub proof fn lemma_trim_front<A>(s: Seq<A>, drop: spec_fn(A) -> bool, from: int)
    requires
        0 <= from <= s.len(),
        forall|i: int| 0 <= i < from ==> drop(#[trigger] s[i]),
        from < s.len() ==> !drop(s[from]),
    ensures
        trim_front(s, drop) == s.skip(from),
    decreases s.len(),
{
    if from == 0 {
        assert(s.skip(0) =~= s);
    } else {
        assert(drop(s[0]));
        let rest = s.skip(1);
        assert forall|i: int| 0 <= i < from - 1 implies drop(#[trigger] rest[i]) by {
            assert(rest[i] == s[i + 1]);
        }
        lemma_trim_front(rest, drop, from - 1);
        assert(rest.skip(from - 1) =~= s.skip(from));
    }
}

/// Trimming the back keeps a prefix that does not end with a dropped element.
pub proof fn lemma_trim_back<A>(s: Seq<A>, drop: spec_fn(A) -> bool, to: int)
    requires
        0 <= to <= s.len(),
        forall|i: int| to <= i < s.len() ==> drop(#[trigger] s[i]),
        to > 0 ==> !drop(s[to - 1]),
    ensures
        trim_back(s, drop) == s.take(to),
    decreases s.len(),
{
    if to == s.len() {
        assert(s.take(to) =~= s);
    } else {
        assert(drop(s[s.len() - 1]));
        lemma_trim_back(s.drop_last(), drop, to);
        assert(s.drop_last().take(to) =~= s.take(to));
    }
}

/// Whether every element of `s` satisfies `p`.
pub open spec fn all_of<A>(s: Seq<A>, p: spec_fn(A) -> bool) -> bool {
    forall|i: int| 0 <= i < s.len() ==> p(#[trigger] s[i])
}

/// Trimming takes away exactly what was put around a core whose ends stay.
pub proof fn lemma_trim_around<A>(a: Seq<A>, core: Seq<A>, b: Seq<A>, drop: spec_fn(A) -> bool)
    requires
        all_of(a, drop),
        all_of(b, drop),
        core.len() > 0,
        !drop(core[0]),
        !drop(core.last()),
    ensures
        trim_front(a + core + b, drop) == core + b,
        trim_both(a + core + b, drop) == core,
{
    let whole = a + core + b;
    lemma_trim_front(whole, drop, a.len() as int);
    assert(whole.skip(a.len() as int) =~= core + b);
    lemma_trim_back(core + b, drop, core.len() as int);
    assert((core + b).take(core.len() as int) =~= core);
}

/// What was trimmed off the front.
pub proof fn lemma_trimmed_front<A>(s: Seq<A>, drop: spec_fn(A) -> bool) -> (off: Seq<A>)
    ensures
        s == off + trim_front(s, drop),
        all_of(off, drop),
        trim_front(s, drop).len() > 0 ==> !drop(trim_front(s, drop)[0]),
    decreases s.len(),
{
    if s.len() > 0 && drop(s[0]) {
        let more = lemma_trimmed_front(s.skip(1), drop);
        let off = seq![s[0]] + more;
        assert(s =~= seq![s[0]] + s.skip(1));
        assert(seq![s[0]] + (more + trim_front(s.skip(1), drop)) =~= off + trim_front(s, drop));
        off
    } else {
        assert(s =~= Seq::<A>::empty() + s);
        seq![]
    }
}

/// What was trimmed off the back.
pub proof fn lemma_trimmed_back<A>(s: Seq<A>, drop: spec_fn(A) -> bool) -> (off: Seq<A>)
    ensures
        s == trim_back(s, drop) + off,
        all_of(off, drop),
        trim_back(s, drop).len() > 0 ==> !drop(trim_back(s, drop).last()),
    decreases s.len(),
{
    if s.len() > 0 && drop(s.last()) {
        let more = lemma_trimmed_back(s.drop_last(), drop);
        let off = more.push(s.last());
        assert(s =~= s.drop_last().push(s.last()));
        assert((trim_back(s.drop_last(), drop) + more).push(s.last()) =~= trim_back(s, drop) + off);
        off
    } else {
        assert(s =~= s + Seq::<A>::empty());
        seq![]
    }
}

/// What was trimmed off at both ends.
pub proof fn lemma_trimmed_both<A>(s: Seq<A>, drop: spec_fn(A) -> bool) -> (off: (Seq<A>, Seq<A>))
    ensures
        s == off.0 + trim_both(s, drop) + off.1,
        all_of(off.0, drop),
        all_of(off.1, drop),
        trim_both(s, drop).len() > 0 ==> !drop(trim_both(s, drop)[0]) && !drop(
            trim_both(s, drop).last(),
        ),
{
    let front = lemma_trimmed_front(s, drop);
    let back = lemma_trimmed_back(trim_front(s, drop), drop);
    assert(front + (trim_both(s, drop) + back) =~= front + trim_both(s, drop) + back);
    if trim_both(s, drop).len() > 0 {
        assert(trim_front(s, drop)[0] == trim_both(s, drop)[0]);
    }
    (front, back)
}

} // verus!
