//! Orders and stable sorting, as mathematics.

use vstd::prelude::*;

verus! {

/// The lexicographic order that `lt` on the elements gives to sequences.
pub open spec fn lex_lt<A>(lt: spec_fn(A, A) -> bool, a: Seq<A>, b: Seq<A>) -> bool
    decreases a.len(),
{
    if b.len() == 0 {
        false
    } else if a.len() == 0 {
        true
    } else {
        lt(a[0], b[0]) || (a[0] == b[0] && lex_lt(lt, a.skip(1), b.skip(1)))
    }
}

/// `lt` is a strict total order.
pub open spec fn strict_total<A>(lt: spec_fn(A, A) -> bool) -> bool {
    &&& forall|a: A| !#[trigger] lt(a, a)
    &&& forall|a: A, b: A| #[trigger] lt(a, b) || a == b || #[trigger] lt(b, a)
    &&& forall|a: A, b: A, c: A| #[trigger] lt(a, b) && #[trigger] lt(b, c) ==> lt(a, c)
}

/// `le` is total and transitive.
pub open spec fn total_preorder<A>(le: spec_fn(A, A) -> bool) -> bool {
    &&& forall|a: A, b: A| #[trigger] le(a, b) || #[trigger] le(b, a)
    &&& forall|a: A, b: A, c: A| #[trigger] le(a, b) && #[trigger] le(b, c) ==> le(a, c)
}

/// A lexicographic order over a strict total order is irreflexive.
pub proof fn lemma_lex_irreflexive<A>(lt: spec_fn(A, A) -> bool, a: Seq<A>)
    requires
        strict_total(lt),
    ensures
        !lex_lt(lt, a, a),
    decreases a.len(),
{
    if a.len() > 0 {
        assert(!lt(a[0], a[0]));
        lemma_lex_irreflexive(lt, a.skip(1));
    }
}

/// A lexicographic order over a strict total order is total.
pub proof fn lemma_lex_total<A>(lt: spec_fn(A, A) -> bool, a: Seq<A>, b: Seq<A>)
    requires
        strict_total(lt),
    ensures
        lex_lt(lt, a, b) || a == b || lex_lt(lt, b, a),
    decreases a.len(),
{
    if a.len() == 0 || b.len() == 0 {
        if a.len() == b.len() {
            assert(a =~= b);
        }
    } else {
        assert(lt(a[0], b[0]) || a[0] == b[0] || lt(b[0], a[0]));
        lemma_lex_total(lt, a.skip(1), b.skip(1));
        if a[0] == b[0] && a.skip(1) == b.skip(1) {
            assert(a =~= seq![a[0]] + a.skip(1));
            assert(b =~= seq![b[0]] + b.skip(1));
        }
    }
}

/// A lexicographic order over a strict total order is transitive.
pub proof fn lemma_lex_transitive<A>(
    lt: spec_fn(A, A) -> bool,
    a: Seq<A>,
    b: Seq<A>,
    c: Seq<A>,
)
    requires
        strict_total(lt),
        lex_lt(lt, a, b),
        lex_lt(lt, b, c),
    ensures
        lex_lt(lt, a, c),
    decreases a.len(),
{
    if a.len() > 0 {
        if lt(a[0], b[0]) && lt(b[0], c[0]) {
            assert(lt(a[0], c[0]));
        }
        if a[0] == b[0] && b[0] == c[0] && !lt(a[0], b[0]) && !lt(b[0], c[0]) {
            lemma_lex_transitive(lt, a.skip(1), b.skip(1), c.skip(1));
        }
    }
}

/// A lexicographic order over a strict total order is a strict total order.
pub proof fn lemma_lex_strict_total<A>(lt: spec_fn(A, A) -> bool)
    requires
        strict_total(lt),
    ensures
        strict_total(|a: Seq<A>, b: Seq<A>| lex_lt(lt, a, b)),
{
    let f = |a: Seq<A>, b: Seq<A>| lex_lt(lt, a, b);
    assert forall|a: Seq<A>| !#[trigger] f(a, a) by {
        lemma_lex_irreflexive(lt, a);
    }
    assert forall|a: Seq<A>, b: Seq<A>| #[trigger] f(a, b) || a == b || #[trigger] f(b, a) by {
        lemma_lex_total(lt, a, b);
    }
    assert forall|a: Seq<A>, b: Seq<A>, c: Seq<A>| #[trigger]
        f(a, b) && #[trigger] f(b, c) implies f(a, c) by {
        lemma_lex_transitive(lt, a, b, c);
    }
}

/// `x` put into the ascending `s`, behind everything that is not above it.
pub open spec fn insert_sorted<A>(le: spec_fn(A, A) -> bool, s: Seq<A>, x: A) -> Seq<A>
    decreases s.len(),
{
    if s.len() == 0 || le(s.last(), x) {
        s.push(x)
    } else {
        insert_sorted(le, s.drop_last(), x).push(s.last())
    }
}

/// `s` in ascending order; elements of equal rank keep their order.
pub open spec fn stable_sort<A>(le: spec_fn(A, A) -> bool, s: Seq<A>) -> Seq<A>
    decreases s.len(),
{
    if s.len() == 0 {
        s
    } else {
        insert_sorted(le, stable_sort(le, s.drop_last()), s.last())
    }
}

/// Two ascending sequences merged into one; of elements of equal rank those of
/// `a` come first.
pub open spec fn merge<A>(le: spec_fn(A, A) -> bool, a: Seq<A>, b: Seq<A>) -> Seq<A>
    decreases a.len() + b.len(),
{
    if a.len() == 0 {
        b
    } else if b.len() == 0 {
        a
    } else if le(a.last(), b.last()) {
        merge(le, a, b.drop_last()).push(b.last())
    } else {
        merge(le, a.drop_last(), b).push(a.last())
    }
}

/// Each element is at most as high as those behind it.
pub open spec fn ascending<A>(le: spec_fn(A, A) -> bool, s: Seq<A>) -> bool {
    forall|i: int, j: int| 0 <= i < j < s.len() ==> le(#[trigger] s[i], #[trigger] s[j])
}

/// The elements of `s` that have the rank of `x`.
pub open spec fn rank_class<A>(le: spec_fn(A, A) -> bool, s: Seq<A>, x: A) -> Seq<A> {
    s.filter(|y: A| le(x, y) && le(y, x))
}

/// A rank class grows by the pushed element if that is of the rank.
proof fn lemma_rank_class_push<A>(le: spec_fn(A, A) -> bool, s: Seq<A>, x: A, y: A)
    ensures
        rank_class(le, s.push(x), y) == (if le(y, x) && le(x, y) {
            rank_class(le, s, y).push(x)
        } else {
            rank_class(le, s, y)
        }),
{
    reveal(Seq::filter);
    assert(s.push(x).drop_last() =~= s);
}

/// The last element of an insertion is the higher one of the two candidates.
proof fn lemma_insert_last<A>(le: spec_fn(A, A) -> bool, s: Seq<A>, x: A)
    ensures
        insert_sorted(le, s, x).len() == s.len() + 1,
        insert_sorted(le, s, x).last() == (if s.len() == 0 || le(s.last(), x) {
            x
        } else {
            s.last()
        }),
    decreases s.len(),
{
    if s.len() > 0 && !le(s.last(), x) {
        lemma_insert_last(le, s.drop_last(), x);
    }
}

/// The last element of a merge is the higher one of the two candidates.
proof fn lemma_merge_last<A>(le: spec_fn(A, A) -> bool, a: Seq<A>, b: Seq<A>)
    ensures
        merge(le, a, b).len() == a.len() + b.len(),
        a.len() == 0 && b.len() > 0 ==> merge(le, a, b).last() == b.last(),
        b.len() == 0 && a.len() > 0 ==> merge(le, a, b).last() == a.last(),
        a.len() > 0 && b.len() > 0 ==> merge(le, a, b).last() == (if le(a.last(), b.last()) {
            b.last()
        } else {
            a.last()
        }),
    decreases a.len() + b.len(),
{
    if a.len() > 0 && b.len() > 0 {
        if le(a.last(), b.last()) {
            lemma_merge_last(le, a, b.drop_last());
        } else {
            lemma_merge_last(le, a.drop_last(), b);
        }
    }
}

/// Inserting into a merge is merging with an insertion into the second part.
proof fn lemma_insert_into_merge<A>(le: spec_fn(A, A) -> bool, a: Seq<A>, b: Seq<A>, x: A)
    requires
        total_preorder(le),
    ensures
        insert_sorted(le, merge(le, a, b), x) == merge(le, a, insert_sorted(le, b, x)),
    decreases a.len() + b.len(),
{
    lemma_merge_last(le, a, b);
    lemma_insert_last(le, b, x);
    let bx = insert_sorted(le, b, x);
    if a.len() == 0 {
    } else if b.len() == 0 {
        assert(b =~= Seq::empty());
        assert(bx =~= seq![x]);
        assert(bx.drop_last() =~= Seq::empty());
        assert(merge(le, a, bx.drop_last()) == a);
        if !le(a.last(), x) {
            lemma_insert_into_merge(le, a.drop_last(), b, x);
            assert(merge(le, a.drop_last(), b) =~= a.drop_last());
        }
    } else if le(a.last(), b.last()) {
        let m = merge(le, a, b);
        assert(m.drop_last() =~= merge(le, a, b.drop_last()));
        if le(b.last(), x) {
            assert(le(a.last(), x));
            assert(bx.drop_last() =~= b);
        } else {
            lemma_insert_into_merge(le, a, b.drop_last(), x);
            assert(bx.drop_last() =~= insert_sorted(le, b.drop_last(), x));
        }
    } else {
        let m = merge(le, a, b);
        assert(le(b.last(), a.last()));
        assert(m.drop_last() =~= merge(le, a.drop_last(), b));
        if le(a.last(), x) {
            assert(le(b.last(), x));
            assert(bx.drop_last() =~= b);
        } else {
            assert(!le(a.last(), bx.last()));
            lemma_insert_into_merge(le, a.drop_last(), b, x);
        }
    }
}

/// Sorting a concatenation is merging the sorted parts.
pub proof fn lemma_sort_of_concat<A>(le: spec_fn(A, A) -> bool, a: Seq<A>, b: Seq<A>)
    requires
        total_preorder(le),
    ensures
        stable_sort(le, a + b) == merge(le, stable_sort(le, a), stable_sort(le, b)),
    decreases b.len(),
{
    if b.len() == 0 {
        assert(a + b =~= a);
        let sa = stable_sort(le, a);
        if sa.len() == 0 {
            assert(merge(le, sa, b) =~= sa);
        }
    } else {
        assert((a + b).drop_last() =~= a + b.drop_last());
        assert((a + b).last() == b.last());
        lemma_sort_of_concat(le, a, b.drop_last());
        lemma_insert_into_merge(le, stable_sort(le, a), stable_sort(le, b.drop_last()), b.last());
    }
}

/// An insertion into an ascending sequence is ascending, holds the same
/// elements and one more, and keeps the order within every rank.
proof fn lemma_insert_sorted<A>(le: spec_fn(A, A) -> bool, s: Seq<A>, x: A)
    requires
        total_preorder(le),
        ascending(le, s),
    ensures
        ascending(le, insert_sorted(le, s, x)),
        insert_sorted(le, s, x).to_multiset() =~= s.push(x).to_multiset(),
        forall|y: A|
            #![trigger rank_class(le, insert_sorted(le, s, x), y)]
            rank_class(le, insert_sorted(le, s, x), y) == rank_class(le, s.push(x), y),
    decreases s.len(),
{
    broadcast use vstd::seq_lib::group_to_multiset_ensures;

    if s.len() == 0 || le(s.last(), x) {
        let r = insert_sorted(le, s, x);
        assert forall|i: int, j: int| 0 <= i < j < r.len() implies le(
            #[trigger] r[i],
            #[trigger] r[j],
        ) by {
            if j == s.len() && i < s.len() - 1 {
                assert(le(s[i], s[s.len() - 1]));
            }
        }
    } else {
        let front = s.drop_last();
        let top = s.last();
        let inner = insert_sorted(le, front, x);
        let r = inner.push(top);
        assert(le(x, top));
        assert(ascending(le, front));
        lemma_insert_sorted(le, front, x);
        assert(s =~= front.push(top));
        assert forall|i: int| 0 <= i < inner.len() implies le(#[trigger] inner[i], top) by {
            assert(inner.to_multiset().count(inner[i]) > 0);
            assert(front.push(x).to_multiset().count(inner[i]) > 0);
            assert(front.push(x).contains(inner[i]));
            let k = choose|k: int| 0 <= k < front.push(x).len() && front.push(x)[k] == inner[i];
            if k < front.len() {
                assert(le(s[k], s[s.len() - 1]));
            }
        }
        assert(ascending(le, r));
        assert forall|y: A|
            #![trigger rank_class(le, insert_sorted(le, s, x), y)]
            rank_class(le, insert_sorted(le, s, x), y) == rank_class(le, s.push(x), y) by {
            assert(rank_class(le, inner, y) == rank_class(le, front.push(x), y));
            lemma_rank_class_push(le, inner, top, y);
            lemma_rank_class_push(le, front, x, y);
            lemma_rank_class_push(le, front, top, y);
            lemma_rank_class_push(le, s, x, y);
            // `x` and `top` are not of one rank, so at most one of them is kept.
            assert(!(le(y, x) && le(x, y) && le(y, top) && le(top, y)));
        }
    }
}

/// Sorting yields an ascending sequence that holds exactly the elements it was
/// given, and keeps the order of elements of equal rank.
pub proof fn lemma_stable_sort<A>(le: spec_fn(A, A) -> bool, s: Seq<A>)
    requires
        total_preorder(le),
    ensures
        ascending(le, stable_sort(le, s)),
        stable_sort(le, s).to_multiset() =~= s.to_multiset(),
        forall|y: A|
            #![trigger rank_class(le, stable_sort(le, s), y)]
            rank_class(le, stable_sort(le, s), y) == rank_class(le, s, y),
    decreases s.len(),
{
    broadcast use vstd::seq_lib::group_to_multiset_ensures;

    if s.len() > 0 {
        let front = s.drop_last();
        let sorted = stable_sort(le, front);
        let x = s.last();
        assert(s =~= front.push(x));
        lemma_stable_sort(le, front);
        lemma_insert_sorted(le, sorted, x);
        assert forall|y: A|
            #![trigger rank_class(le, stable_sort(le, s), y)]
            rank_class(le, stable_sort(le, s), y) == rank_class(le, s, y) by {
            assert(rank_class(le, insert_sorted(le, sorted, x), y) == rank_class(
                le,
                sorted.push(x),
                y,
            ));
            assert(rank_class(le, sorted, y) == rank_class(le, front, y));
            lemma_rank_class_push(le, sorted, x, y);
            lemma_rank_class_push(le, front, x, y);
        }
    }
}

/// What two sequences start with in common does not matter for their order.
pub proof fn lemma_lex_common_start<A>(
    lt: spec_fn(A, A) -> bool,
    start: Seq<A>,
    a: Seq<A>,
    b: Seq<A>,
)
    requires
        strict_total(lt),
    ensures
        lex_lt(lt, start + a, start + b) == lex_lt(lt, a, b),
    decreases start.len(),
{
    if start.len() == 0 {
        assert(start + a =~= a);
        assert(start + b =~= b);
    } else {
        let rest = start.skip(1);
        lemma_lex_common_start(lt, rest, a, b);
        assert((start + a)[0] == start[0] && (start + b)[0] == start[0]);
        assert((start + a).skip(1) =~= rest + a);
        assert((start + b).skip(1) =~= rest + b);
        assert(!lt(start[0], start[0]));
    }
}

} // verus!
