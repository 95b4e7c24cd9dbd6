//! Paths as the file system has them: sequences of bytes whose components are
//! separated by slashes.

use vstd::prelude::*;

use crate::order::{
    lemma_lex_common_start, lemma_lex_irreflexive, lemma_lex_strict_total, lemma_lex_total,
    lemma_lex_transitive, lex_lt, strict_total, total_preorder,
};
use crate::pieces::{
    lemma_split_at_separator, lemma_split_not_empty, lemma_split_without_separator, split_where,
};

verus! {

/// The byte that separates components.
pub const SLASH: u8 = 0x2f;

/// The byte that sets off an extension.
pub const DOT: u8 = 0x2e;

/// One component of a path.
pub enum Component {
    /// The slash that an absolute path starts with.
    RootDir,
    /// A dot at the very start of a relative path.
    CurDir,
    /// Two dots.
    ParentDir,
    /// Any other name.
    Normal { name: Seq<u8> },
}

/// What separates the pieces of a path.
pub open spec fn is_slash() -> spec_fn(u8) -> bool {
    |b: u8| b == SLASH
}

/// The pieces of a path between its slashes.
pub open spec fn path_pieces(path: Seq<u8>) -> Seq<Seq<u8>> {
    split_where(path, is_slash())
}

/// Whether a piece counts: empty pieces and single dots do not.
pub open spec fn counts(piece: Seq<u8>) -> bool {
    piece.len() > 0 && piece != seq![DOT]
}

/// The pieces of a path that count.
pub open spec fn path_names(path: Seq<u8>) -> Seq<Seq<u8>> {
    path_pieces(path).filter(|piece: Seq<u8>| counts(piece))
}

/// The component that a piece stands for.
pub open spec fn as_component(piece: Seq<u8>) -> Component {
    if piece == seq![DOT, DOT] {
        Component::ParentDir
    } else {
        Component::Normal { name: piece }
    }
}

/// The components of a path: repeated and trailing slashes do not matter, nor
/// do single dots, except for one at the very start.
pub open spec fn components(path: Seq<u8>) -> Seq<Component> {
    let start = if path.len() > 0 && path[0] == SLASH {
        seq![Component::RootDir]
    } else if path_pieces(path)[0] == seq![DOT] {
        seq![Component::CurDir]
    } else {
        seq![]
    };
    start + path_names(path).map_values(|piece: Seq<u8>| as_component(piece))
}

/// The name of the file that a path leads to: its last component, unless that
/// is no name.
pub open spec fn file_name_of(path: Seq<u8>) -> Option<Seq<u8>> {
    let names = path_names(path);
    if names.len() == 0 || names.last() == seq![DOT, DOT] {
        None
    } else {
        Some(names.last())
    }
}

/// The index of the last dot in `name`, or -1.
pub open spec fn last_dot(name: Seq<u8>) -> int
    decreases name.len(),
{
    if name.len() == 0 {
        -1
    } else if name.last() == DOT {
        name.len() - 1
    } else {
        last_dot(name.drop_last())
    }
}

/// What follows the last dot of the file name, unless the name has no dot or
/// only one at its start.
pub open spec fn extension_of(path: Seq<u8>) -> Option<Seq<u8>> {
    match file_name_of(path) {
        Some(name) => if last_dot(name) > 0 {
            Some(name.skip(last_dot(name) + 1))
        } else {
            None
        },
        None => None,
    }
}

/// The path that `name` has when seen from `base`.
pub open spec fn joined(base: Seq<u8>, name: Seq<u8>) -> Seq<u8> {
    if name.len() > 0 && name[0] == SLASH {
        name
    } else if base.len() > 0 && base.last() != SLASH {
        base + seq![SLASH] + name
    } else {
        base + name
    }
}

/// The place of a component's kind among the kinds.
pub open spec fn component_rank(c: Component) -> int {
    match c {
        Component::RootDir => 0,
        Component::CurDir => 1,
        Component::ParentDir => 2,
        Component::Normal { .. } => 3,
    }
}

/// The order of bytes.
pub open spec fn byte_lt() -> spec_fn(u8, u8) -> bool {
    |a: u8, b: u8| a < b
}

/// The order of components: by kind, and names byte by byte.
pub open spec fn component_lt() -> spec_fn(Component, Component) -> bool {
    |a: Component, b: Component|
        component_rank(a) < component_rank(b) || (a is Normal && b is Normal && lex_lt(
            byte_lt(),
            a->name,
            b->name,
        ))
}

/// The order of paths: component by component.
pub open spec fn path_lt(a: Seq<u8>, b: Seq<u8>) -> bool {
    lex_lt(component_lt(), components(a), components(b))
}

/// `a` comes before `b`, or both have the same components.
pub open spec fn path_le(a: Seq<u8>, b: Seq<u8>) -> bool {
    !path_lt(b, a)
}

/// The order of components is a strict total order.
pub proof fn lemma_component_order()
    ensures
        strict_total(component_lt()),
{
    assert(strict_total(byte_lt()));
    lemma_lex_strict_total(byte_lt());
    let lt = component_lt();
    assert forall|a: Component| !#[trigger] lt(a, a) by {
        if a is Normal {
            lemma_lex_irreflexive(byte_lt(), a->name);
        }
    }
    assert forall|a: Component, b: Component| #[trigger] lt(a, b) || a == b || #[trigger] lt(
        b,
        a,
    ) by {
        if a is Normal && b is Normal {
            lemma_lex_total(byte_lt(), a->name, b->name);
        }
    }
    assert forall|a: Component, b: Component, c: Component| #[trigger]
        lt(a, b) && #[trigger] lt(b, c) implies lt(a, c) by {
        if a is Normal && b is Normal && c is Normal {
            lemma_lex_transitive(byte_lt(), a->name, b->name, c->name);
        }
    }
}

/// Of two paths one comes before the other or both have the same components,
/// and the order is transitive.
pub proof fn lemma_path_order()
    ensures
        total_preorder(|a: Seq<u8>, b: Seq<u8>| path_le(a, b)),
        forall|a: Seq<u8>, b: Seq<u8>|
            #![trigger path_le(a, b), path_le(b, a)]
            path_le(a, b) && path_le(b, a) ==> components(a) == components(b),
{
    lemma_component_order();
    lemma_lex_strict_total(component_lt());
    let lt = |a: Seq<Component>, b: Seq<Component>| lex_lt(component_lt(), a, b);
    let le = |a: Seq<u8>, b: Seq<u8>| path_le(a, b);
    assert forall|a: Seq<u8>, b: Seq<u8>|
        #![trigger path_le(a, b), path_le(b, a)]
        path_le(a, b) && path_le(b, a) implies components(a) == components(b) by {
        assert(!lt(components(a), components(b)) && !lt(components(b), components(a)));
    }
    assert forall|a: Seq<u8>, b: Seq<u8>| #[trigger] le(a, b) || #[trigger] le(b, a) by {
        if !le(a, b) && !le(b, a) {
            assert(lt(components(a), components(b)) && lt(components(b), components(a)));
            assert(lt(components(a), components(a)));
        }
    }
    assert forall|a: Seq<u8>, b: Seq<u8>, c: Seq<u8>| #[trigger]
        le(a, b) && #[trigger] le(b, c) implies le(a, c) by {
        if lt(components(c), components(a)) {
            assert(!lt(components(b), components(a)));
            assert(!lt(components(c), components(b)));
            if components(a) != components(b) {
                assert(lt(components(a), components(b)));
                assert(lt(components(c), components(b)));
            }
        }
    }
}

/// A plain name joined to any base is the file name of the result.
pub proof fn law_joined_name_is_file_name(base: Seq<u8>, name: Seq<u8>)
    requires
        forall|i: int| 0 <= i < name.len() ==> #[trigger] name[i] != SLASH,
        counts(name),
        name != seq![DOT, DOT],
    ensures
        file_name_of(joined(base, name)) == Some(name),
{
    let whole = joined(base, name);
    let named = |piece: Seq<u8>| counts(piece);
    lemma_split_without_separator(name, is_slash());
    assert(path_pieces(whole).len() > 0 && path_pieces(whole).last() == name) by {
        if base.len() == 0 {
            assert(whole =~= name);
        } else {
            let stem = if base.last() != SLASH {
                base
            } else {
                base.drop_last()
            };
            assert(whole =~= stem.push(SLASH) + name);
            lemma_split_at_separator(stem, SLASH, name, is_slash());
        }
    }
    reveal(Seq::filter);
    assert(named(path_pieces(whole).last()));
}

/// The views of some byte vectors.
pub open spec fn byte_seqs(v: Seq<Vec<u8>>) -> Seq<Seq<u8>> {
    v.map_values(|x: Vec<u8>| x@)
}

/// A copy of `bytes`.
pub fn copy_bytes(bytes: &[u8]) -> (r: Vec<u8>)
    ensures
        r@ == bytes@,
{
    vstd::slice::slice_to_vec(bytes)
}

/// `base` and `name` one behind the other.
fn concat(base: &[u8], name: &[u8]) -> (r: Vec<u8>)
    ensures
        r@ == base@ + name@,
{
    let mut r = copy_bytes(base);
    let mut tail = copy_bytes(name);
    r.append(&mut tail);
    r
}

/// The pieces of a path between its slashes.
fn split_path(path: &[u8]) -> (r: Vec<Vec<u8>>)
    ensures
        byte_seqs(r@) == path_pieces(path@),
{
    let mut out: Vec<Vec<u8>> = Vec::new();
    let mut piece: Vec<u8> = Vec::new();
    let mut i: usize = 0;
    assert(path_pieces(path@.take(0)) =~= seq![Seq::empty()]);
    while i < path.len()
        invariant
            i <= path.len(),
            path_pieces(path@.take(i as int)).len() > 0,
            byte_seqs(out@) == path_pieces(path@.take(i as int)).drop_last(),
            path_pieces(path@.take(i as int)).last() == piece@,
        decreases path.len() - i,
    {
        let ghost before = path_pieces(path@.take(i as int));
        let ghost after = path_pieces(path@.take(i + 1));
        assert(path@.take(i + 1).drop_last() =~= path@.take(i as int));
        assert(path@.take(i + 1).last() == path@[i as int]);
        if path[i] == SLASH {
            assert(byte_seqs(out@.push(piece)) =~= byte_seqs(out@).push(piece@));
            out.push(piece);
            piece = Vec::new();
            assert(after.drop_last() =~= before);
            assert(before =~= before.drop_last().push(before.last()));
        } else {
            piece.push(path[i]);
            assert(after.drop_last() =~= before.drop_last());
        }
        i = i + 1;
    }
    assert(path@.take(i as int) =~= path@);
    proof {
        let all = path_pieces(path@);
        assert(byte_seqs(out@.push(piece)) =~= byte_seqs(out@).push(piece@));
        assert(all =~= all.drop_last().push(all.last()));
    }
    out.push(piece);
    out
}

/// Tells whether `piece` is a single dot.
fn is_dot(piece: &[u8]) -> (r: bool)
    ensures
        r == (piece@ == seq![DOT]),
{
    let r = piece.len() == 1 && piece[0] == DOT;
    assert(r ==> piece@ =~= seq![DOT]);
    r
}

/// Tells whether `piece` is two dots.
fn is_dot_dot(piece: &[u8]) -> (r: bool)
    ensures
        r == (piece@ == seq![DOT, DOT]),
{
    let r = piece.len() == 2 && piece[0] == DOT && piece[1] == DOT;
    assert(r ==> piece@ =~= seq![DOT, DOT]);
    r
}

/// The name of the file that a path leads to: its last component, unless that
/// is no name.
pub fn file_name(path: &[u8]) -> (r: Option<Vec<u8>>)
    ensures
        match r {
            Some(name) => file_name_of(path@) == Some(name@),
            None => file_name_of(path@) is None,
        },
{
    let pieces = split_path(path);
    let ghost all = path_pieces(path@);
    let mut i: usize = pieces.len();
    assert(all.take(all.len() as int) =~= all);
    while i > 0
        invariant
            i <= pieces.len(),
            byte_seqs(pieces@) == all,
            all == path_pieces(path@),
            path_names(path@) == all.take(i as int).filter(|piece: Seq<u8>| counts(piece)),
        decreases i,
    {
        i = i - 1;
        let piece = &pieces[i];
        proof {
            reveal(Seq::filter);
            assert(all[i as int] == piece@);
            assert(all.take(i + 1).drop_last() =~= all.take(i as int));
        }
        if piece.len() > 0 && !is_dot(piece) {
            if is_dot_dot(piece) {
                return None;
            }
            return Some(copy_bytes(piece));
        }
    }
    proof {
        reveal(Seq::filter);
        assert(all.take(0) =~= Seq::empty());
    }
    None
}

/// What follows the last dot of the file name, unless the name has no dot or
/// only one at its start.
pub fn extension(path: &[u8]) -> (r: Option<Vec<u8>>)
    ensures
        match r {
            Some(ext) => extension_of(path@) == Some(ext@),
            None => extension_of(path@) is None,
        },
{
    match file_name(path) {
        Some(name) => {
            let mut i: usize = name.len();
            assert(name@.take(name.len() as int) =~= name@);
            while i > 0
                invariant
                    i <= name.len(),
                    file_name_of(path@) == Some(name@),
                    last_dot(name@) == last_dot(name@.take(i as int)),
                decreases i,
            {
                i = i - 1;
                assert(name@.take(i + 1).drop_last() =~= name@.take(i as int));
                if name[i] == DOT {
                    if i == 0 {
                        return None;
                    }
                    assert(name@.subrange(i + 1, name.len() as int) =~= name@.skip(i + 1));
                    return Some(
                        copy_bytes(vstd::slice::slice_subrange(name.as_slice(), i + 1, name.len())),
                    );
                }
            }
            None
        },
        None => None,
    }
}

/// The path that `name` has when seen from `base`.
pub fn join(base: &[u8], name: &[u8]) -> (r: Vec<u8>)
    ensures
        r@ == joined(base@, name@),
{
    if name.len() > 0 && name[0] == SLASH {
        copy_bytes(name)
    } else if base.len() > 0 && base[base.len() - 1] != SLASH {
        let mut stem = copy_bytes(base);
        stem.push(SLASH);
        let r = concat(stem.as_slice(), name);
        assert(r@ =~= base@ + seq![SLASH] + name@);
        r
    } else {
        concat(base, name)
    }
}

/// One component of a path, as computed.
pub enum Part {
    RootDir,
    CurDir,
    ParentDir,
    Normal(Vec<u8>),
}

impl View for Part {
    type V = Component;

    open spec fn view(&self) -> Component {
        match *self {
            Part::RootDir => Component::RootDir,
            Part::CurDir => Component::CurDir,
            Part::ParentDir => Component::ParentDir,
            Part::Normal(name) => Component::Normal { name: name@ },
        }
    }
}

/// The components that some parts stand for.
pub open spec fn parts_view(parts: Seq<Part>) -> Seq<Component> {
    parts.map_values(|p: Part| p@)
}

/// The components of a path.
pub fn parse_path(path: &[u8]) -> (r: Vec<Part>)
    ensures
        parts_view(r@) == components(path@),
{
    let pieces = split_path(path);
    let ghost all = path_pieces(path@);
    let ghost named = |piece: Seq<u8>| counts(piece);
    let ghost to_component = |piece: Seq<u8>| as_component(piece);
    let mut out: Vec<Part> = Vec::new();
    proof {
        lemma_split_not_empty(path@, is_slash());
        assert(all[0] == pieces@[0]@);
    }
    if path.len() > 0 && path[0] == SLASH {
        out.push(Part::RootDir);
    } else if is_dot(&pieces[0]) {
        out.push(Part::CurDir);
    }
    let ghost start = parts_view(out@);
    let mut i: usize = 0;
    proof {
        reveal(Seq::filter);
        assert(all.take(0) =~= Seq::empty());
        assert(parts_view(out@) =~= start + all.take(0).filter(named).map_values(to_component));
    }
    while i < pieces.len()
        invariant
            i <= pieces.len(),
            byte_seqs(pieces@) == all,
            named == (|piece: Seq<u8>| counts(piece)),
            to_component == (|piece: Seq<u8>| as_component(piece)),
            parts_view(out@) == start + all.take(i as int).filter(named).map_values(to_component),
        decreases pieces.len() - i,
    {
        let piece = &pieces[i];
        let ghost seen = all.take(i as int).filter(named);
        proof {
            reveal(Seq::filter);
            assert(all[i as int] == piece@);
            assert(all.take(i + 1).drop_last() =~= all.take(i as int));
            assert(seen.push(piece@).map_values(to_component) =~= seen.map_values(
                to_component,
            ).push(as_component(piece@)));
        }
        if piece.len() > 0 && !is_dot(piece) {
            let ghost before = out@;
            if is_dot_dot(piece) {
                out.push(Part::ParentDir);
            } else {
                out.push(Part::Normal(copy_bytes(piece)));
            }
            assert(parts_view(out@) =~= parts_view(before).push(as_component(piece@)));
            assert(parts_view(out@) =~= start + seen.push(piece@).map_values(to_component));
        }
        i = i + 1;
    }
    assert(all.take(i as int) =~= all);
    assert(parts_view(out@) =~= components(path@));
    out
}

/// Tells whether `a` comes before `b`, byte by byte.
fn bytes_before(a: &[u8], b: &[u8]) -> (r: bool)
    ensures
        r == lex_lt(byte_lt(), a@, b@),
{
    let mut i: usize = 0;
    assert(a@.skip(0) =~= a@ && b@.skip(0) =~= b@);
    while i < a.len() && i < b.len() && a[i] == b[i]
        invariant
            i <= a.len(),
            i <= b.len(),
            lex_lt(byte_lt(), a@, b@) == lex_lt(byte_lt(), a@.skip(i as int), b@.skip(i as int)),
        decreases a.len() - i,
    {
        assert(a@.skip(i as int).skip(1) =~= a@.skip(i + 1));
        assert(b@.skip(i as int).skip(1) =~= b@.skip(i + 1));
        i = i + 1;
    }
    if i == b.len() {
        false
    } else if i == a.len() {
        true
    } else {
        a[i] < b[i]
    }
}

/// Tells how two components compare: whether the first comes before the second,
/// and whether they are the same.
fn compare_parts(a: &Part, b: &Part) -> (r: (bool, bool))
    ensures
        r.0 == component_lt()(a@, b@),
        r.1 == (a@ == b@),
{
    match (a, b) {
        (Part::Normal(x), Part::Normal(y)) => {
            let before = bytes_before(x, y);
            let after = bytes_before(y, x);
            proof {
                assert(strict_total(byte_lt()));
                lemma_lex_total(byte_lt(), x@, y@);
                lemma_lex_irreflexive(byte_lt(), x@);
            }
            (before, !before && !after)
        },
        (Part::Normal(_), _) => (false, false),
        (_, Part::Normal(_)) => (true, false),
        (Part::RootDir, Part::RootDir) => (false, true),
        (Part::RootDir, _) => (true, false),
        (_, Part::RootDir) => (false, false),
        (Part::CurDir, Part::CurDir) => (false, true),
        (Part::CurDir, _) => (true, false),
        (_, Part::CurDir) => (false, false),
        (Part::ParentDir, Part::ParentDir) => (false, true),
    }
}

/// Tells whether the path with the components `a` comes before the one with
/// the components `b`.
pub fn parts_before(a: &[Part], b: &[Part]) -> (r: bool)
    ensures
        r == lex_lt(component_lt(), parts_view(a@), parts_view(b@)),
{
    let ghost va = parts_view(a@);
    let ghost vb = parts_view(b@);
    let mut i: usize = 0;
    assert(va.skip(0) =~= va && vb.skip(0) =~= vb);
    while i < a.len() && i < b.len()
        invariant
            i <= a.len(),
            i <= b.len(),
            va == parts_view(a@),
            vb == parts_view(b@),
            lex_lt(component_lt(), va, vb) == lex_lt(
                component_lt(),
                va.skip(i as int),
                vb.skip(i as int),
            ),
        decreases a.len() - i,
    {
        let (before, same) = compare_parts(&a[i], &b[i]);
        proof {
            assert(va.skip(i as int)[0] == a@[i as int]@);
            assert(vb.skip(i as int)[0] == b@[i as int]@);
            assert(va.skip(i as int).skip(1) =~= va.skip(i + 1));
            assert(vb.skip(i as int).skip(1) =~= vb.skip(i + 1));
            lemma_component_order();
        }
        if before {
            return true;
        }
        if !same {
            return false;
        }
        i = i + 1;
    }
    i < b.len()
}

/// The names on both sides of a slash, one behind the other.
proof fn lemma_names_around_slash(p: Seq<u8>, q: Seq<u8>)
    ensures
        path_names(p.push(SLASH) + q) == path_names(p) + path_names(q),
{
    lemma_split_at_separator(p, SLASH, q, is_slash());
    Seq::filter_distributes_over_add(
        path_pieces(p),
        path_pieces(q),
        |piece: Seq<u8>| counts(piece),
    );
}

/// The components that names stand for.
spec fn name_components(names: Seq<Seq<u8>>) -> Seq<Component> {
    names.map_values(|piece: Seq<u8>| as_component(piece))
}

/// What stands behind a slash adds its names to the components.
proof fn lemma_components_behind_slash(p: Seq<u8>, q: Seq<u8>)
    ensures
        components(p.push(SLASH) + q) == components(p.push(SLASH)) + name_components(path_names(q)),
        p.len() > 0 ==> components(p.push(SLASH)) == components(p),
{
    let whole = p.push(SLASH) + q;
    let head = p.push(SLASH);
    lemma_names_around_slash(p, q);
    lemma_split_not_empty(p, is_slash());
    lemma_split_at_separator(p, SLASH, q, is_slash());
    lemma_names_around_slash(p, seq![]);
    lemma_split_at_separator(p, SLASH, seq![], is_slash());
    assert(head + seq![] =~= head);
    lemma_split_without_separator(Seq::<u8>::empty(), is_slash());
    assert(path_names(Seq::<u8>::empty()) =~= seq![]) by {
        reveal_with_fuel(Seq::filter, 2);
        assert(seq![Seq::<u8>::empty()].drop_last() =~= seq![]);
    }
    assert(path_names(head) =~= path_names(p));
    assert(whole[0] == head[0]);
    assert(path_pieces(whole)[0] == path_pieces(p)[0]);
    assert(path_pieces(head)[0] == path_pieces(p)[0]);
    assert(components(whole) =~= components(head) + name_components(path_names(q)));
    if p.len() > 0 {
        assert(head[0] == p[0]);
        assert(components(head) =~= components(p));
    }
}

/// Whether `name` is a name: it holds no slash, and is neither empty nor one or
/// two dots.
pub open spec fn is_name(name: Seq<u8>) -> bool {
    &&& name.len() > 0
    &&& forall|i: int| 0 <= i < name.len() ==> #[trigger] name[i] != 0x2f
    &&& name != seq![0x2eu8]
    &&& name != seq![0x2eu8, 0x2eu8]
}

/// Whether `tail` can follow a name: it is empty or starts with a slash.
pub open spec fn is_tail(tail: Seq<u8>) -> bool {
    tail.len() == 0 || tail[0] == 0x2f
}

/// A piece that counts is the first of the names.
proof fn lemma_first_name(piece: Seq<u8>, tail: Seq<u8>) -> (more: Seq<Seq<u8>>)
    requires
        counts(piece),
        forall|i: int| 0 <= i < piece.len() ==> #[trigger] piece[i] != SLASH,
        is_tail(tail),
    ensures
        path_names(piece + tail) == seq![piece] + more,
        path_pieces(piece + tail)[0] == piece,
{
    let named = |p: Seq<u8>| counts(p);
    lemma_split_without_separator(piece, is_slash());
    assert(path_names(piece) =~= seq![piece]) by {
        reveal_with_fuel(Seq::filter, 2);
        assert(seq![piece].drop_last() =~= seq![]);
        assert(named(piece));
    }
    if tail.len() == 0 {
        assert(piece + tail =~= piece);
        assert(seq![piece] + seq![] =~= seq![piece]);
        seq![]
    } else {
        let rest = tail.skip(1);
        assert(piece + tail =~= piece.push(SLASH) + rest);
        lemma_names_around_slash(piece, rest);
        lemma_split_at_separator(piece, SLASH, rest, is_slash());
        path_names(rest)
    }
}

/// The order of two paths whose components are the same up to a place where
/// they differ.
proof fn lemma_order_of_pieces(
    dir: Seq<u8>,
    a: Seq<u8>,
    tail_a: Seq<u8>,
    b: Seq<u8>,
    tail_b: Seq<u8>,
)
    requires
        counts(a),
        counts(b),
        forall|i: int| 0 <= i < a.len() ==> #[trigger] a[i] != SLASH,
        forall|i: int| 0 <= i < b.len() ==> #[trigger] b[i] != SLASH,
        is_tail(tail_a),
        is_tail(tail_b),
        component_lt()(as_component(a), as_component(b)),
    ensures
        path_lt(dir.push(SLASH) + (a + tail_a), dir.push(SLASH) + (b + tail_b)),
        path_lt(a + tail_a, b + tail_b),
{
    let more_a = lemma_first_name(a, tail_a);
    let more_b = lemma_first_name(b, tail_b);
    let ca = name_components(path_names(a + tail_a));
    let cb = name_components(path_names(b + tail_b));
    assert(ca[0] == as_component(a) && cb[0] == as_component(b));
    assert(lex_lt(component_lt(), ca, cb));
    lemma_components_behind_slash(dir, a + tail_a);
    lemma_components_behind_slash(dir, b + tail_b);
    lemma_component_order();
    lemma_lex_common_start(component_lt(), components(dir.push(SLASH)), ca, cb);
    assert((a + tail_a)[0] == a[0] && (b + tail_b)[0] == b[0]);
    assert(components(a + tail_a) =~= ca);
    assert(components(b + tail_b) =~= cb);
}

/// Names are ordered by their bytes as numbers: where two names first differ,
/// the one with the lower byte comes first, whatever follows in the names and
/// behind them.
pub proof fn law_names_are_in_byte_order(
    dir: Seq<u8>,
    s: Seq<u8>,
    x: u8,
    t: Seq<u8>,
    tail_a: Seq<u8>,
    y: u8,
    u: Seq<u8>,
    tail_b: Seq<u8>,
)
    requires
        x < y,
        is_name(s + seq![x] + t),
        is_name(s + seq![y] + u),
        is_tail(tail_a),
        is_tail(tail_b),
    ensures
        path_lt(
            dir + seq![0x2fu8] + (s + seq![x] + t) + tail_a,
            dir + seq![0x2fu8] + (s + seq![y] + u) + tail_b,
        ),
        path_lt(s + seq![x] + t + tail_a, s + seq![y] + u + tail_b),
{
    let a = s + seq![x] + t;
    let b = s + seq![y] + u;
    assert(strict_total(byte_lt()));
    lemma_lex_common_start(byte_lt(), s, seq![x] + t, seq![y] + u);
    assert(s + (seq![x] + t) =~= a);
    assert(s + (seq![y] + u) =~= b);
    assert((seq![x] + t)[0] == x && (seq![y] + u)[0] == y);
    assert(lex_lt(byte_lt(), a, b));
    lemma_order_of_pieces(dir, a, tail_a, b, tail_b);
    assert(dir + seq![0x2fu8] + a + tail_a =~= dir.push(SLASH) + (a + tail_a));
    assert(dir + seq![0x2fu8] + b + tail_b =~= dir.push(SLASH) + (b + tail_b));
}

/// A name comes before every longer name that starts with it.
pub proof fn law_shorter_name_comes_first(
    dir: Seq<u8>,
    s: Seq<u8>,
    tail_a: Seq<u8>,
    u: Seq<u8>,
    tail_b: Seq<u8>,
)
    requires
        is_name(s),
        is_name(s + u),
        u.len() > 0,
        is_tail(tail_a),
        is_tail(tail_b),
    ensures
        path_lt(dir + seq![0x2fu8] + s + tail_a, dir + seq![0x2fu8] + (s + u) + tail_b),
        path_lt(s + tail_a, s + u + tail_b),
{
    assert(strict_total(byte_lt()));
    lemma_lex_common_start(byte_lt(), s, seq![], u);
    assert(s + seq![] =~= s);
    assert(lex_lt(byte_lt(), s, s + u));
    lemma_order_of_pieces(dir, s, tail_a, s + u, tail_b);
    assert(dir + seq![0x2fu8] + s + tail_a =~= dir.push(SLASH) + (s + tail_a));
    assert(dir + seq![0x2fu8] + (s + u) + tail_b =~= dir.push(SLASH) + ((s + u) + tail_b));
}

/// A step up comes before every name.
pub proof fn law_parent_comes_before_names(
    dir: Seq<u8>,
    tail_a: Seq<u8>,
    name: Seq<u8>,
    tail_b: Seq<u8>,
)
    requires
        is_name(name),
        is_tail(tail_a),
        is_tail(tail_b),
    ensures
        path_lt(
            dir + seq![0x2fu8] + seq![0x2eu8, 0x2eu8] + tail_a,
            dir + seq![0x2fu8] + name + tail_b,
        ),
        path_lt(seq![0x2eu8, 0x2eu8] + tail_a, name + tail_b),
{
    let up = seq![0x2eu8, 0x2eu8];
    assert(up.len() == 2 && seq![DOT].len() == 1);
    lemma_order_of_pieces(dir, up, tail_a, name, tail_b);
    assert(dir + seq![0x2fu8] + up + tail_a =~= dir.push(SLASH) + (up + tail_a));
    assert(dir + seq![0x2fu8] + name + tail_b =~= dir.push(SLASH) + (name + tail_b));
}

/// A directory comes before everything in it.
pub proof fn law_directory_comes_before_its_content(dir: Seq<u8>, name: Seq<u8>, tail: Seq<u8>)
    requires
        is_name(name),
        is_tail(tail),
    ensures
        path_lt(dir, dir + seq![0x2fu8] + name + tail),
{
    let more = lemma_first_name(name, tail);
    lemma_components_behind_slash(dir, name + tail);
    assert(dir + seq![0x2fu8] + name + tail =~= dir.push(SLASH) + (name + tail));
    let inner = name_components(path_names(name + tail));
    assert(inner.len() > 0);
    if dir.len() > 0 {
        lemma_component_order();
        lemma_lex_common_start(component_lt(), components(dir), seq![], inner);
        assert(components(dir) + seq![] =~= components(dir));
    } else {
        assert(components(dir) =~= seq![]) by {
            lemma_split_without_separator(dir, is_slash());
            reveal_with_fuel(Seq::filter, 2);
            assert(seq![dir].drop_last() =~= seq![]);
        }
    }
}

/// An absolute path comes before every relative one, but for the empty path,
/// and a relative one that starts with a single dot before every other.
pub proof fn law_absolute_paths_come_first(
    a: Seq<u8>,
    tail: Seq<u8>,
    b: Seq<u8>,
    name: Seq<u8>,
    tail_b: Seq<u8>,
)
    requires
        b.len() > 0,
        b[0] != 0x2f,
        is_tail(tail),
        is_name(name) || name == seq![0x2eu8, 0x2eu8],
        is_tail(tail_b),
    ensures
        path_lt(seq![0x2fu8] + a, b),
        path_lt(seq![0x2eu8] + tail, name + tail_b),
{
    let root = seq![0x2fu8] + a;
    assert(components(root)[0] == Component::RootDir);
    lemma_relative_path_is_not_empty(b);
    lemma_component_order();
    assert(lex_lt(component_lt(), components(root), components(b)));
    // A single dot counts at the very start alone.
    let here = seq![0x2eu8] + tail;
    let dot = seq![0x2eu8];
    lemma_split_without_separator(dot, is_slash());
    assert(path_pieces(here)[0] == seq![DOT]) by {
        if tail.len() == 0 {
            assert(here =~= dot);
        } else {
            assert(here =~= dot.push(SLASH) + tail.skip(1));
            lemma_split_at_separator(dot, SLASH, tail.skip(1), is_slash());
        }
    }
    assert(components(here)[0] == Component::CurDir);
    assert(name.len() == 2 || is_name(name));
    assert(counts(name)) by {
        assert(seq![DOT].len() == 1);
    }
    let more = lemma_first_name(name, tail_b);
    assert((name + tail_b)[0] == name[0]);
    assert(components(name + tail_b)[0] == as_component(name));
    assert(lex_lt(component_lt(), components(here), components(name + tail_b)));
}

/// A relative path starts with a component that is no root.
proof fn lemma_relative_path_is_not_empty(b: Seq<u8>)
    requires
        b.len() > 0,
        b[0] != SLASH,
    ensures
        components(b).len() > 0,
        components(b)[0] != Component::RootDir,
{
    let (piece, tail) = lemma_first_piece(b);
    lemma_split_without_separator(piece, is_slash());
    if piece == seq![DOT] {
        assert(path_pieces(b)[0] == piece) by {
            if tail.len() == 0 {
                assert(b =~= piece);
            } else {
                assert(b =~= piece.push(SLASH) + tail.skip(1));
                lemma_split_at_separator(piece, SLASH, tail.skip(1), is_slash());
            }
        }
    } else {
        let more = lemma_first_name(piece, tail);
        assert(components(b)[0] == as_component(piece));
    }
}

/// A path is its first piece and what follows it.
proof fn lemma_first_piece(b: Seq<u8>) -> (r: (Seq<u8>, Seq<u8>))
    ensures
        b == r.0 + r.1,
        forall|i: int| 0 <= i < r.0.len() ==> #[trigger] r.0[i] != SLASH,
        is_tail(r.1),
        b.len() > 0 && b[0] != SLASH ==> r.0.len() > 0,
    decreases b.len(),
{
    if b.len() == 0 || b[0] == SLASH {
        assert(b =~= Seq::<u8>::empty() + b);
        (seq![], b)
    } else {
        let (piece, tail) = lemma_first_piece(b.skip(1));
        let longer = seq![b[0]] + piece;
        assert(b =~= seq![b[0]] + b.skip(1));
        assert(seq![b[0]] + (piece + tail) =~= longer + tail);
        (longer, tail)
    }
}

/// Repeated slashes, single dots between slashes and a slash at the end make no
/// difference for the order.
pub proof fn law_slashes_and_dots_do_not_matter(p: Seq<u8>, q: Seq<u8>)
    ensures
        ({
            let plain = p + seq![0x2fu8] + q;
            let doubled = p + seq![0x2fu8, 0x2fu8] + q;
            let dotted = p + seq![0x2fu8, 0x2eu8, 0x2fu8] + q;
            &&& path_le(plain, doubled) && path_le(doubled, plain)
            &&& path_le(plain, dotted) && path_le(dotted, plain)
        }),
        p.len() > 0 ==> path_le(p, p + seq![0x2fu8]) && path_le(p + seq![0x2fu8], p),
{
    let empty = Seq::<u8>::empty();
    let dot = seq![0x2eu8];
    assert(p + seq![0x2fu8] + q =~= p.push(SLASH) + q);
    assert(p + seq![0x2fu8, 0x2fu8] + q =~= p.push(SLASH) + (empty.push(SLASH) + q));
    assert(p + seq![0x2fu8, 0x2eu8, 0x2fu8] + q =~= p.push(SLASH) + (dot.push(SLASH) + q));
    lemma_components_behind_slash(p, q);
    lemma_components_behind_slash(p, empty.push(SLASH) + q);
    lemma_components_behind_slash(p, dot.push(SLASH) + q);
    lemma_names_around_slash(empty, q);
    lemma_names_around_slash(dot, q);
    lemma_no_names();
    assert(Seq::<Seq<u8>>::empty() + path_names(q) =~= path_names(q));
    assert(p + seq![0x2fu8] =~= p.push(SLASH));
    lemma_component_order();
    lemma_lex_irreflexive(component_lt(), components(p.push(SLASH) + q));
    lemma_lex_irreflexive(component_lt(), components(p));
}

/// Neither nothing nor a dot is a name.
proof fn lemma_no_names()
    ensures
        path_names(seq![]) == Seq::<Seq<u8>>::empty(),
        path_names(seq![DOT]) == Seq::<Seq<u8>>::empty(),
        path_names(seq![DOT, DOT]) == seq![seq![DOT, DOT]],
{
    let empty = Seq::<u8>::empty();
    let dot = seq![DOT];
    let dots = seq![DOT, DOT];
    lemma_split_without_separator(empty, is_slash());
    lemma_split_without_separator(dot, is_slash());
    lemma_split_without_separator(dots, is_slash());
    reveal_with_fuel(Seq::filter, 2);
    assert(seq![empty].drop_last() =~= seq![]);
    assert(seq![dot].drop_last() =~= seq![]);
    assert(seq![dots].drop_last() =~= seq![]);
    assert(dots.len() == 2 && dot.len() == 1);
    let named = |p: Seq<u8>| counts(p);
    assert(named(dots) && !named(dot) && !named(empty));
    assert(path_names(dots) =~= seq![dots]);
}

/// The file name is what follows the last slash. An empty piece or a single dot
/// there is passed over, two dots are no name, and neither is nothing at all.
pub proof fn law_file_name_is_the_last_name(dir: Seq<u8>, name: Seq<u8>)
    requires
        is_name(name),
    ensures
        file_name_of(dir + seq![0x2fu8] + name) == Some(name),
        file_name_of(name) == Some(name),
        file_name_of(dir + seq![0x2fu8]) == file_name_of(dir),
        file_name_of(dir + seq![0x2fu8, 0x2eu8]) == file_name_of(dir),
        file_name_of(dir + seq![0x2fu8, 0x2eu8, 0x2eu8]) is None,
        file_name_of(seq![]) is None,
        file_name_of(seq![0x2eu8]) is None,
        file_name_of(seq![0x2eu8, 0x2eu8]) is None,
{
    let empty = Seq::<u8>::empty();
    lemma_no_names();
    let more = lemma_first_name(name, empty);
    assert(name + empty =~= name);
    lemma_split_without_separator(name, is_slash());
    assert(path_names(name) =~= seq![name]) by {
        reveal_with_fuel(Seq::filter, 2);
        assert(seq![name].drop_last() =~= seq![]);
    }
    lemma_names_around_slash(dir, name);
    lemma_names_around_slash(dir, empty);
    lemma_names_around_slash(dir, seq![DOT]);
    lemma_names_around_slash(dir, seq![DOT, DOT]);
    assert(dir + seq![0x2fu8] + name =~= dir.push(SLASH) + name);
    assert(dir + seq![0x2fu8] =~= dir.push(SLASH) + empty);
    assert(dir + seq![0x2fu8, 0x2eu8] =~= dir.push(SLASH) + seq![DOT]);
    assert(dir + seq![0x2fu8, 0x2eu8, 0x2eu8] =~= dir.push(SLASH) + seq![DOT, DOT]);
    assert(path_names(dir) + Seq::<Seq<u8>>::empty() =~= path_names(dir));
    assert((path_names(dir) + seq![name]).last() == name);
    assert((path_names(dir) + seq![seq![DOT, DOT]]).last() == seq![DOT, DOT]);
}

/// The last dot is the last.
proof fn lemma_last_dot(stem: Seq<u8>, ext: Seq<u8>)
    requires
        forall|i: int| 0 <= i < ext.len() ==> #[trigger] ext[i] != DOT,
    ensures
        last_dot(stem + seq![DOT] + ext) == stem.len(),
        last_dot(ext) == -1,
    decreases ext.len(),
{
    let whole = stem + seq![DOT] + ext;
    if ext.len() > 0 {
        let shorter = ext.drop_last();
        assert(forall|i: int| 0 <= i < shorter.len() ==> shorter[i] == ext[i]);
        lemma_last_dot(stem, shorter);
        assert(whole.last() == ext[ext.len() - 1]);
        assert(whole.drop_last() =~= stem + seq![DOT] + shorter);
    }
}

/// The extension is what follows the last dot of the file name, if anything
/// stands before that dot; without such a dot, or without a file name, there is
/// none.
pub proof fn law_extension_follows_the_last_dot(
    path: Seq<u8>,
    stem: Seq<u8>,
    ext: Seq<u8>,
)
    requires
        forall|i: int| 0 <= i < ext.len() ==> #[trigger] ext[i] != 0x2e,
    ensures
        stem.len() > 0 && file_name_of(path) == Some(stem + seq![0x2eu8] + ext) ==> extension_of(
            path,
        ) == Some(ext),
        file_name_of(path) == Some(seq![0x2eu8] + ext) ==> extension_of(path) is None,
        file_name_of(path) == Some(ext) ==> extension_of(path) is None,
        file_name_of(path) is None ==> extension_of(path) is None,
{
    lemma_last_dot(stem, ext);
    lemma_last_dot(seq![], ext);
    let whole = stem + seq![0x2eu8] + ext;
    assert(whole.skip(stem.len() as int + 1) =~= ext);
    assert(Seq::<u8>::empty() + seq![0x2eu8] + ext =~= seq![0x2eu8] + ext);
}

/// A name is appended to a directory behind one slash; a path that starts with
/// a slash stands for itself.
pub proof fn law_joined_path(dir: Seq<u8>, name: Seq<u8>)
    requires
        name.len() > 0 ==> name[0] != 0x2f,
    ensures
        dir.len() > 0 && dir.last() != 0x2f ==> joined(dir, name) == dir + seq![0x2fu8] + name,
        joined(dir + seq![0x2fu8], name) == dir + seq![0x2fu8] + name,
        joined(seq![], name) == name,
        joined(dir, seq![0x2fu8] + name) == seq![0x2fu8] + name,
{
    assert(Seq::<u8>::empty() + name =~= name);
}

} // verus!
