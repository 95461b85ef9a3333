//! Paths as byte strings: splitting at separators, lexical resolution of
//! `.` and `..`, and containment of one path in another.
//!
//! Nothing here looks at a file system. A path is the sequence of its bytes;
//! its components are what stands between separators.

use vstd::prelude::*;
use vstd::slice::slice_to_vec;

verus! {

/// The byte that separates components, `/`.
pub const SEPARATOR: u8 = 47;

/// The byte `.`.
pub const DOT: u8 = 46;

/// The views of a vector of components.
pub open spec fn views(comps: Seq<Vec<u8>>) -> Seq<Seq<u8>> {
    Seq::new(comps.len(), |i: int| comps[i]@)
}

/// The view of an optional byte string.
pub open spec fn view_of(bytes: Option<Vec<u8>>) -> Option<Seq<u8>> {
    match bytes {
        None => None,
        Some(b) => Some(b@),
    }
}

/// A path that starts at the root of the file system.
pub open spec fn is_absolute(path: Seq<u8>) -> bool {
    path.len() > 0 && path[0] == SEPARATOR
}

/// The component `.`.
pub open spec fn is_current(c: Seq<u8>) -> bool {
    c.len() == 1 && c[0] == DOT
}

/// The component `..`.
pub open spec fn is_parent(c: Seq<u8>) -> bool {
    c.len() == 2 && c[0] == DOT && c[1] == DOT
}

/// A component that names an entry: not empty, not `.`, not `..`.
pub open spec fn is_name(c: Seq<u8>) -> bool {
    c.len() > 0 && !is_current(c) && !is_parent(c)
}

/// The pieces of `path` between separators. A path without a separator is
/// one piece; two separators in a row enclose an empty piece.
pub open spec fn split(path: Seq<u8>) -> Seq<Seq<u8>>
    decreases path.len(),
{
    if path.len() == 0 {
        seq![Seq::<u8>::empty()]
    } else {
        let before = split(path.drop_last());
        if path.last() == SEPARATOR {
            before.push(Seq::<u8>::empty())
        } else {
            before.drop_last().push(before.last().push(path.last()))
        }
    }
}

/// The components written out with one separator between neighbours.
pub open spec fn join(comps: Seq<Seq<u8>>) -> Seq<u8>
    decreases comps.len(),
{
    if comps.len() == 0 {
        Seq::<u8>::empty()
    } else if comps.len() == 1 {
        comps[0]
    } else {
        join(comps.drop_last()).push(SEPARATOR) + comps.last()
    }
}

/// The components that count when two paths are compared: the names and the
/// `..` steps, in order. Empty pieces and `.` say nothing.
pub open spec fn significant(comps: Seq<Seq<u8>>) -> Seq<Seq<u8>>
    decreases comps.len(),
{
    if comps.len() == 0 {
        Seq::<Seq<u8>>::empty()
    } else {
        let before = significant(comps.drop_last());
        if comps.last().len() == 0 || is_current(comps.last()) {
            before
        } else {
            before.push(comps.last())
        }
    }
}

/// How far below its starting point a walk along `comps` ends: a name leads
/// one level down, `..` one level up.
pub open spec fn depth(comps: Seq<Seq<u8>>) -> int
    decreases comps.len(),
{
    if comps.len() == 0 {
        0
    } else {
        depth(comps.drop_last()) + if is_parent(comps.last()) {
            -1int
        } else if is_name(comps.last()) {
            1int
        } else {
            0int
        }
    }
}

/// At some point along `comps` more steps have led up than down: the walk
/// has left the directory it started in.
pub open spec fn climbs_above_start(comps: Seq<Seq<u8>>) -> bool {
    exists|k: int| 0 <= k <= comps.len() && #[trigger] depth(comps.take(k)) < 0
}

/// The names that remain when `.` and empty pieces are dropped and each `..`
/// cancels the name before it; `None` when a `..` finds no name to cancel.
pub open spec fn resolve(comps: Seq<Seq<u8>>) -> Option<Seq<Seq<u8>>>
    decreases comps.len(),
{
    if comps.len() == 0 {
        Some(Seq::<Seq<u8>>::empty())
    } else {
        match resolve(comps.drop_last()) {
            None => None,
            Some(names) => {
                if is_parent(comps.last()) {
                    if names.len() == 0 {
                        None
                    } else {
                        Some(names.drop_last())
                    }
                } else if is_name(comps.last()) {
                    Some(names.push(comps.last()))
                } else {
                    Some(names)
                }
            },
        }
    }
}

/// A relative path leaves its root when it is absolute after all, or when
/// walking it climbs above the directory it starts in.
pub open spec fn escapes_root(path: Seq<u8>) -> bool {
    is_absolute(path) || climbs_above_start(split(path))
}

/// The resolved form of a relative path: its remaining names, joined.
/// `None` for a path that escapes its root.
pub open spec fn normalized(path: Seq<u8>) -> Option<Seq<u8>> {
    if is_absolute(path) {
        None
    } else {
        match resolve(split(path)) {
            None => None,
            Some(names) => Some(join(names)),
        }
    }
}

/// Some component of `path` is `..`.
pub open spec fn steps_up(path: Seq<u8>) -> bool {
    exists|i: int| 0 <= i < split(path).len() && is_parent(#[trigger] split(path)[i])
}

/// `base` is a leading part of `path`, component by component.
pub open spec fn is_under(base: Seq<u8>, path: Seq<u8>) -> bool {
    let b = significant(split(base));
    let p = significant(split(path));
    &&& is_absolute(base) == is_absolute(path)
    &&& b.len() <= p.len()
    &&& p.take(b.len() as int) == b
}

/// What is left of `path` below `base`; `None` when `path` is not under
/// `base`.
pub open spec fn relative_to(base: Seq<u8>, path: Seq<u8>) -> Option<Seq<u8>> {
    if is_under(base, path) {
        let b = significant(split(base));
        let p = significant(split(path));
        Some(join(p.skip(b.len() as int)))
    } else {
        None
    }
}

/// Resolution fails exactly on the walks that climb above their start, and
/// what it returns otherwise are names only, as many as the walk ends deep.
pub proof fn lemma_resolve_characterised(comps: Seq<Seq<u8>>)
    ensures
        resolve(comps) is None <==> climbs_above_start(comps),
        resolve(comps) matches Some(names) ==> {
            &&& names.len() == depth(comps)
            &&& forall|i: int| 0 <= i < names.len() ==> is_name(#[trigger] names[i])
        },
    decreases comps.len(),
{
    if comps.len() == 0 {
        assert forall|k: int| 0 <= k <= comps.len() implies depth(#[trigger] comps.take(k))
            >= 0 by {
            assert(comps.take(k) =~= comps);
        }
    } else {
        let init = comps.drop_last();
        let n = comps.len() as int;
        lemma_resolve_characterised(init);
        assert(comps.take(n) =~= comps);
        match resolve(init) {
            None => {
                let k = choose|k: int| 0 <= k <= init.len() && #[trigger] depth(init.take(k)) < 0;
                assert(comps.take(k) =~= init.take(k));
                assert(depth(comps.take(k)) < 0);
            },
            Some(names) => {
                if is_parent(comps.last()) && names.len() == 0 {
                    assert(depth(comps.take(n)) < 0);
                } else {
                    assert(depth(comps) >= 0);
                    assert forall|k: int| 0 <= k <= comps.len() implies depth(
                        #[trigger] comps.take(k),
                    ) >= 0 by {
                        if k < n {
                            assert(comps.take(k) =~= init.take(k));
                            assert(depth(init.take(k)) >= 0);
                        }
                    }
                }
            },
        }
    }
}

/// A path escapes its root exactly when it has no resolved form.
pub proof fn lemma_normalized_none_iff_escapes(path: Seq<u8>)
    ensures
        normalized(path) is None <==> escapes_root(path),
{
    lemma_resolve_characterised(split(path));
}

/// No byte of `c` is a separator.
pub open spec fn has_no_separator(c: Seq<u8>) -> bool {
    forall|k: int| 0 <= k < c.len() ==> c[k] != SEPARATOR
}

proof fn lemma_split_pieces(path: Seq<u8>)
    ensures
        split(path).len() >= 1,
        forall|i: int| 0 <= i < split(path).len() ==> has_no_separator(#[trigger] split(path)[i]),
    decreases path.len(),
{
    if path.len() > 0 {
        lemma_split_pieces(path.drop_last());
        let before = split(path.drop_last());
        if path.last() != SEPARATOR {
            let grown = before.last().push(path.last());
            assert(has_no_separator(before[before.len() - 1]));
            assert(has_no_separator(grown));
            assert forall|i: int| 0 <= i < split(path).len() implies has_no_separator(
                #[trigger] split(path)[i],
            ) by {
                if i < before.len() - 1 {
                    assert(split(path)[i] == before[i]);
                }
            }
        } else {
            assert forall|i: int| 0 <= i < split(path).len() implies has_no_separator(
                #[trigger] split(path)[i],
            ) by {
                if i < before.len() {
                    assert(split(path)[i] == before[i]);
                }
            }
        }
    }
}

proof fn lemma_split_one_piece(c: Seq<u8>)
    requires
        has_no_separator(c),
    ensures
        split(c) == seq![c],
    decreases c.len(),
{
    if c.len() == 0 {
        assert(c =~= Seq::<u8>::empty());
    } else {
        lemma_split_one_piece(c.drop_last());
        assert(c.drop_last().push(c.last()) =~= c);
        assert(split(c) =~= seq![c]);
    }
}

proof fn lemma_split_after_separator(a: Seq<u8>, b: Seq<u8>)
    requires
        has_no_separator(b),
    ensures
        split(a.push(SEPARATOR) + b) == split(a).push(b),
    decreases b.len(),
{
    let whole = a.push(SEPARATOR) + b;
    if b.len() == 0 {
        assert(whole =~= a.push(SEPARATOR));
        assert(whole.drop_last() =~= a);
        assert(b =~= Seq::<u8>::empty());
    } else {
        lemma_split_after_separator(a, b.drop_last());
        assert(whole.drop_last() =~= a.push(SEPARATOR) + b.drop_last());
        assert(whole.last() == b.last());
        assert(b.drop_last().push(b.last()) =~= b);
        assert(split(a).push(b.drop_last()).drop_last() =~= split(a));
    }
}

proof fn lemma_split_join(names: Seq<Seq<u8>>)
    requires
        names.len() > 0,
        forall|i: int| 0 <= i < names.len() ==> has_no_separator(#[trigger] names[i]),
    ensures
        split(join(names)) == names,
    decreases names.len(),
{
    if names.len() == 1 {
        lemma_split_one_piece(names[0]);
        assert(seq![names[0]] =~= names);
    } else {
        let init = names.drop_last();
        assert forall|i: int| 0 <= i < init.len() implies has_no_separator(#[trigger] init[i]) by {
            assert(init[i] == names[i]);
        }
        lemma_split_join(init);
        lemma_split_after_separator(join(init), names.last());
        assert(init.push(names.last()) =~= names);
    }
}

proof fn lemma_join_starts_with_first(names: Seq<Seq<u8>>)
    requires
        names.len() > 0,
        names[0].len() > 0,
    ensures
        join(names).len() > 0,
        join(names)[0] == names[0][0],
    decreases names.len(),
{
    if names.len() > 1 {
        let init = names.drop_last();
        assert(init[0] == names[0]);
        lemma_join_starts_with_first(init);
    }
}

proof fn lemma_resolve_names(names: Seq<Seq<u8>>)
    requires
        forall|i: int| 0 <= i < names.len() ==> is_name(#[trigger] names[i]),
    ensures
        resolve(names) == Some(names),
    decreases names.len(),
{
    if names.len() > 0 {
        let init = names.drop_last();
        assert forall|i: int| 0 <= i < init.len() implies is_name(#[trigger] init[i]) by {
            assert(init[i] == names[i]);
        }
        lemma_resolve_names(init);
        assert(is_name(names[names.len() - 1]));
        assert(init.push(names.last()) =~= names);
    }
}

proof fn lemma_resolve_keeps_pieces(comps: Seq<Seq<u8>>)
    requires
        forall|i: int| 0 <= i < comps.len() ==> has_no_separator(#[trigger] comps[i]),
    ensures
        resolve(comps) matches Some(names) ==> forall|i: int|
            0 <= i < names.len() ==> has_no_separator(#[trigger] names[i]),
    decreases comps.len(),
{
    if comps.len() > 0 {
        let init = comps.drop_last();
        assert forall|i: int| 0 <= i < init.len() implies has_no_separator(#[trigger] init[i]) by {
            assert(init[i] == comps[i]);
        }
        lemma_resolve_keeps_pieces(init);
        assert(has_no_separator(comps[comps.len() - 1]));
    }
}

/// The resolved form of a path resolves to itself.
pub proof fn lemma_normalized_is_fixed(path: Seq<u8>)
    ensures
        normalized(path) matches Some(resolved) ==> normalized(resolved) == Some(resolved),
{
    if normalized(path) is Some {
        let names = resolve(split(path))->0;
        let resolved = join(names);
        lemma_split_pieces(path);
        lemma_resolve_keeps_pieces(split(path));
        lemma_resolve_characterised(split(path));
        if names.len() == 0 {
            assert(resolved =~= Seq::<u8>::empty());
            let only = seq![Seq::<u8>::empty()];
            assert(split(resolved) == only);
            assert(only.drop_last() =~= Seq::<Seq<u8>>::empty());
            assert(resolve(only.drop_last()) == Some(Seq::<Seq<u8>>::empty()));
            assert(resolve(only) == Some(Seq::<Seq<u8>>::empty()));
        } else {
            lemma_split_join(names);
            lemma_resolve_names(names);
            assert(is_name(names[0]));
            assert(has_no_separator(names[0]));
            lemma_join_starts_with_first(names);
        }
    }
}

proof fn lemma_significant_pieces(comps: Seq<Seq<u8>>)
    requires
        forall|i: int| 0 <= i < comps.len() ==> has_no_separator(#[trigger] comps[i]),
    ensures
        forall|i: int|
            0 <= i < significant(comps).len() ==> (#[trigger] significant(comps)[i]).len() > 0
                && has_no_separator(significant(comps)[i]),
    decreases comps.len(),
{
    if comps.len() > 0 {
        let init = comps.drop_last();
        assert forall|i: int| 0 <= i < init.len() implies has_no_separator(#[trigger] init[i]) by {
            assert(init[i] == comps[i]);
        }
        lemma_significant_pieces(init);
        assert(has_no_separator(comps[comps.len() - 1]));
        let before = significant(init);
        let kept = significant(comps);
        assert forall|i: int| 0 <= i < kept.len() implies (#[trigger] kept[i]).len() > 0
            && has_no_separator(kept[i]) by {
            if i < before.len() {
                assert(kept[i] == before[i]);
            }
        }
    }
}

proof fn lemma_level_walk_never_climbs(comps: Seq<Seq<u8>>)
    requires
        forall|i: int| 0 <= i < comps.len() ==> !is_parent(#[trigger] comps[i]),
    ensures
        depth(comps) >= 0,
        !climbs_above_start(comps),
    decreases comps.len(),
{
    if comps.len() > 0 {
        let init = comps.drop_last();
        assert forall|i: int| 0 <= i < init.len() implies !is_parent(#[trigger] init[i]) by {
            assert(init[i] == comps[i]);
        }
        lemma_level_walk_never_climbs(init);
        assert(!is_parent(comps[comps.len() - 1]));
    }
    assert forall|k: int| 0 <= k <= comps.len() implies depth(#[trigger] comps.take(k)) >= 0 by {
        if k == comps.len() {
            assert(comps.take(k) =~= comps);
        } else {
            assert(comps.take(k) =~= comps.drop_last().take(k));
            assert(depth(comps.drop_last().take(k)) >= 0);
        }
    }
}

/// What is left of a path below a base does not escape the base, unless it
/// holds a `..`.
pub proof fn lemma_rest_stays_inside(base: Seq<u8>, path: Seq<u8>)
    requires
        relative_to(base, path) is Some,
        !steps_up(relative_to(base, path)->0),
    ensures
        !escapes_root(relative_to(base, path)->0),
{
    let rest = relative_to(base, path)->0;
    let b = significant(split(base));
    let p = significant(split(path));
    let tail = p.skip(b.len() as int);
    assert forall|i: int| 0 <= i < split(rest).len() implies !is_parent(
        #[trigger] split(rest)[i],
    ) by {}
    lemma_level_walk_never_climbs(split(rest));
    if tail.len() == 0 {
        assert(rest.len() == 0);
    } else {
        lemma_split_pieces(path);
        lemma_significant_pieces(split(path));
        assert(tail[0] == p[b.len() as int]);
        lemma_join_starts_with_first(tail);
        assert(has_no_separator(tail[0]));
    }
}

proof fn lemma_views_push(comps: Seq<Vec<u8>>, c: Vec<u8>)
    ensures
        views(comps.push(c)) == views(comps).push(c@),
{
    assert(views(comps.push(c)) =~= views(comps).push(c@));
}

proof fn lemma_views_drop_last(comps: Seq<Vec<u8>>)
    requires
        comps.len() > 0,
    ensures
        views(comps.drop_last()) == views(comps).drop_last(),
        views(comps).last() == comps.last()@,
{
    assert(views(comps.drop_last()) =~= views(comps).drop_last());
}

/// Whether two byte strings are the same.
pub fn bytes_equal(a: &[u8], b: &[u8]) -> (same: bool)
    ensures
        same == (a@ == b@),
{
    if a.len() != b.len() {
        return false;
    }
    let mut i: usize = 0;
    while i < a.len()
        invariant
            a@.len() == b@.len(),
            i <= a@.len(),
            forall|j: int| 0 <= j < i ==> a@[j] == b@[j],
        decreases a.len() - i,
    {
        if a[i] != b[i] {
            return false;
        }
        i += 1;
    }
    assert(a@ =~= b@);
    true
}

/// Appends `src` to `out`.
pub fn append_bytes(out: &mut Vec<u8>, src: &[u8])
    ensures
        final(out)@ == old(out)@ + src@,
{
    let mut i: usize = 0;
    while i < src.len()
        invariant
            i <= src@.len(),
            out@ == old(out)@ + src@.take(i as int),
        decreases src.len() - i,
    {
        out.push(src[i]);
        i += 1;
        assert(out@ =~= old(out)@ + src@.take(i as int));
    }
    assert(src@.take(src@.len() as int) =~= src@);
}

/// Whether `path` starts at the root of the file system.
pub fn path_is_absolute(path: &[u8]) -> (absolute: bool)
    ensures
        absolute == is_absolute(path@),
{
    path.len() > 0 && path[0] == SEPARATOR
}

/// Whether `c` is the component `.`.
pub fn component_is_current(c: &[u8]) -> (current: bool)
    ensures
        current == is_current(c@),
{
    c.len() == 1 && c[0] == DOT
}

/// Whether `c` is the component `..`.
pub fn component_is_parent(c: &[u8]) -> (parent: bool)
    ensures
        parent == is_parent(c@),
{
    c.len() == 2 && c[0] == DOT && c[1] == DOT
}

/// Whether some component of `path` is `..`.
pub fn path_steps_up(path: &[u8]) -> (up: bool)
    ensures
        up == steps_up(path@),
{
    let comps: Vec<Vec<u8>> = split_path(path);
    let mut i: usize = 0;
    while i < comps.len()
        invariant
            i <= comps@.len(),
            views(comps@) == split(path@),
            forall|j: int| 0 <= j < i ==> !is_parent(#[trigger] split(path@)[j]),
        decreases comps.len() - i,
    {
        assert(views(comps@)[i as int] == comps@[i as int]@);
        if component_is_parent(comps[i].as_slice()) {
            return true;
        }
        i += 1;
    }
    false
}

/// Cuts `path` at its separators.
pub fn split_path(path: &[u8]) -> (comps: Vec<Vec<u8>>)
    ensures
        views(comps@) == split(path@),
{
    let mut comps: Vec<Vec<u8>> = Vec::new();
    let mut current: Vec<u8> = Vec::new();
    let mut i: usize = 0;
    assert(path@.take(0) =~= Seq::<u8>::empty());
    assert(views(comps@).push(current@) =~= seq![Seq::<u8>::empty()]);
    while i < path.len()
        invariant
            i <= path@.len(),
            views(comps@).push(current@) == split(path@.take(i as int)),
        decreases path.len() - i,
    {
        let b: u8 = path[i];
        let ghost before = views(comps@).push(current@);
        let ghost old_comps = comps@;
        let ghost old_current = current@;
        if b == SEPARATOR {
            comps.push(current);
            current = Vec::new();
            proof {
                assert(views(comps@) =~= before);
            }
        } else {
            current.push(b);
            proof {
                assert(before.drop_last() =~= views(old_comps));
                assert(before.last() == old_current);
            }
        }
        i += 1;
        proof {
            assert(path@.take(i as int).drop_last() =~= path@.take(i - 1));
            assert(path@.take(i as int).last() == b);
        }
    }
    proof {
        assert(path@.take(path@.len() as int) =~= path@);
        lemma_views_push(comps@, current);
    }
    comps.push(current);
    comps
}

/// Writes the components out with one separator between neighbours.
pub fn join_components(comps: &Vec<Vec<u8>>) -> (path: Vec<u8>)
    ensures
        path@ == join(views(comps@)),
{
    let mut path: Vec<u8> = Vec::new();
    let mut i: usize = 0;
    assert(views(comps@).take(0) =~= Seq::<Seq<u8>>::empty());
    while i < comps.len()
        invariant
            i <= comps@.len(),
            path@ == join(views(comps@).take(i as int)),
        decreases comps.len() - i,
    {
        if i > 0 {
            path.push(SEPARATOR);
        }
        append_bytes(&mut path, comps[i].as_slice());
        i += 1;
        proof {
            let upto = views(comps@).take(i as int);
            assert(upto.drop_last() =~= views(comps@).take(i - 1));
            assert(upto.last() == comps@[i - 1]@);
            if i == 1 {
                assert(path@ =~= upto[0]);
            }
        }
    }
    assert(views(comps@).take(comps@.len() as int) =~= views(comps@));
    path
}

/// Keeps the names and the `..` steps of `comps`.
pub fn significant_components(comps: &Vec<Vec<u8>>) -> (kept: Vec<Vec<u8>>)
    ensures
        views(kept@) == significant(views(comps@)),
{
    let mut kept: Vec<Vec<u8>> = Vec::new();
    let mut i: usize = 0;
    assert(views(comps@).take(0) =~= Seq::<Seq<u8>>::empty());
    assert(views(kept@) =~= Seq::<Seq<u8>>::empty());
    while i < comps.len()
        invariant
            i <= comps@.len(),
            views(kept@) == significant(views(comps@).take(i as int)),
        decreases comps.len() - i,
    {
        let c: &Vec<u8> = &comps[i];
        let ghost old_kept = kept@;
        if c.len() > 0 && !component_is_current(c.as_slice()) {
            let copy: Vec<u8> = slice_to_vec(c.as_slice());
            kept.push(copy);
            proof {
                lemma_views_push(old_kept, copy);
            }
        }
        i += 1;
        proof {
            let upto = views(comps@).take(i as int);
            assert(upto.drop_last() =~= views(comps@).take(i - 1));
            assert(upto.last() == comps@[i - 1]@);
        }
    }
    assert(views(comps@).take(comps@.len() as int) =~= views(comps@));
    kept
}

/// Resolves `.` and `..` in `comps`; `None` when the walk climbs above its
/// start.
pub fn resolve_components(comps: &Vec<Vec<u8>>) -> (resolved: Option<Vec<Vec<u8>>>)
    ensures
        match resolved {
            Some(names) => resolve(views(comps@)) == Some(views(names@)),
            None => resolve(views(comps@)) is None,
        },
        resolved is None <==> climbs_above_start(views(comps@)),
{
    proof {
        lemma_resolve_characterised(views(comps@));
    }
    let mut names: Vec<Vec<u8>> = Vec::new();
    let mut i: usize = 0;
    assert(views(comps@).take(0) =~= Seq::<Seq<u8>>::empty());
    assert(views(names@) =~= Seq::<Seq<u8>>::empty());
    while i < comps.len()
        invariant
            i <= comps@.len(),
            resolve(views(comps@).take(i as int)) == Some(views(names@)),
        decreases comps.len() - i,
    {
        let c: &Vec<u8> = &comps[i];
        let ghost old_names = names@;
        let ghost upto = views(comps@).take(i + 1);
        proof {
            assert(upto.drop_last() =~= views(comps@).take(i as int));
            assert(upto.last() == c@);
        }
        if component_is_parent(c.as_slice()) {
            if names.len() == 0 {
                proof {
                    lemma_resolve_prefix_none(views(comps@), i + 1);
                    lemma_resolve_characterised(views(comps@));
                }
                return None;
            }
            names.pop();
            proof {
                lemma_views_drop_last(old_names);
            }
        } else if c.len() > 0 && !component_is_current(c.as_slice()) {
            let copy: Vec<u8> = slice_to_vec(c.as_slice());
            names.push(copy);
            proof {
                lemma_views_push(old_names, copy);
            }
        }
        i += 1;
    }
    assert(views(comps@).take(comps@.len() as int) =~= views(comps@));
    Some(names)
}

proof fn lemma_resolve_prefix_none(comps: Seq<Seq<u8>>, k: int)
    requires
        0 <= k <= comps.len(),
        resolve(comps.take(k)) is None,
    ensures
        resolve(comps) is None,
    decreases comps.len() - k,
{
    if k == comps.len() {
        assert(comps.take(k) =~= comps);
    } else {
        assert(comps.take(k + 1).drop_last() =~= comps.take(k));
        lemma_resolve_prefix_none(comps, k + 1);
    }
}

/// Resolves a relative path to the names it ends at, joined; `None` exactly
/// for a path that escapes its root.
pub fn normalize(path: &[u8]) -> (resolved: Option<Vec<u8>>)
    ensures
        match resolved {
            Some(p) => normalized(path@) == Some(p@),
            None => normalized(path@) is None,
        },
        resolved is None <==> escapes_root(path@),
{
    proof {
        lemma_normalized_none_iff_escapes(path@);
    }
    if path_is_absolute(path) {
        return None;
    }
    let comps: Vec<Vec<u8>> = split_path(path);
    match resolve_components(&comps) {
        None => None,
        Some(names) => Some(join_components(&names)),
    }
}

/// Whether `path` lies under `base` or is `base` itself, compared component
/// by component.
pub fn path_is_under(base: &[u8], path: &[u8]) -> (under: bool)
    ensures
        under == is_under(base@, path@),
{
    if path_is_absolute(base) != path_is_absolute(path) {
        return false;
    }
    let b: Vec<Vec<u8>> = significant_components(&split_path(base));
    let p: Vec<Vec<u8>> = significant_components(&split_path(path));
    components_start_with(&p, &b)
}

/// Whether `prefix` is a leading part of `comps`.
fn components_start_with(comps: &Vec<Vec<u8>>, prefix: &Vec<Vec<u8>>) -> (starts: bool)
    ensures
        starts == (prefix@.len() <= comps@.len() && views(comps@).take(prefix@.len() as int)
            == views(prefix@)),
{
    if prefix.len() > comps.len() {
        return false;
    }
    let mut i: usize = 0;
    while i < prefix.len()
        invariant
            prefix@.len() <= comps@.len(),
            i <= prefix@.len(),
            forall|j: int| 0 <= j < i ==> comps@[j]@ == prefix@[j]@,
        decreases prefix.len() - i,
    {
        if !bytes_equal(comps[i].as_slice(), prefix[i].as_slice()) {
            proof {
                let taken = views(comps@).take(prefix@.len() as int);
                assert(taken[i as int] == comps@[i as int]@);
                assert(views(prefix@)[i as int] == prefix@[i as int]@);
            }
            return false;
        }
        i += 1;
    }
    assert(views(comps@).take(prefix@.len() as int) =~= views(prefix@));
    true
}

/// The part of `path` below `base`, with one separator between components;
/// `None` when `path` is not under `base`.
pub fn relativize(base: &[u8], path: &[u8]) -> (rest: Option<Vec<u8>>)
    ensures
        match rest {
            Some(r) => relative_to(base@, path@) == Some(r@),
            None => relative_to(base@, path@) is None,
        },
{
    if path_is_absolute(base) != path_is_absolute(path) {
        return None;
    }
    let b: Vec<Vec<u8>> = significant_components(&split_path(base));
    let p: Vec<Vec<u8>> = significant_components(&split_path(path));
    if !components_start_with(&p, &b) {
        return None;
    }
    let mut tail: Vec<Vec<u8>> = Vec::new();
    let mut i: usize = b.len();
    assert(views(tail@) =~= views(p@).subrange(b@.len() as int, i as int));
    while i < p.len()
        invariant
            b@.len() <= i <= p@.len(),
            views(tail@) == views(p@).subrange(b@.len() as int, i as int),
        decreases p.len() - i,
    {
        let ghost old_tail = tail@;
        let copy: Vec<u8> = slice_to_vec(p[i].as_slice());
        tail.push(copy);
        i += 1;
        proof {
            lemma_views_push(old_tail, copy);
            assert(views(p@).subrange(b@.len() as int, i as int) =~= views(p@).subrange(
                b@.len() as int,
                i - 1,
            ).push(copy@));
        }
    }
    assert(views(p@).subrange(b@.len() as int, p@.len() as int) =~= views(p@).skip(
        b@.len() as int,
    ));
    Some(join_components(&tail))
}

} // verus!
