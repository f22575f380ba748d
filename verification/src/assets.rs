//! Resolving a path or a bare file name to a vault file.

use vstd::prelude::*;
use vstd::slice::slice_to_vec;

use crate::text::{
    after_last, chars_eq, contains_char, find_char, from_chars, join, joined, lemma_next_char,
    lemma_next_is, lemma_strs_push, lemma_texts_push, lowercase, next_char, nonempty,
    nonempty_of_two_lists, pieces_end_at_separators, pieces_of_two_texts, prefix_of, replace_char,
    split, split_nonempty, split_on, strictly_sorted, strs, suffix_of, tail_after_last, text_lt,
    texts, to_chars, to_lowercase, trim, trimmed, with_char_replaced,
};
use crate::paths::opt_chars;

verus! {

/// A part of a path that names something: not empty, not `.` and not `..`.
pub open spec fn plain_part(p: Seq<char>) -> bool {
    p.len() > 0 && p != seq!['.'] && p != seq!['.', '.']
}

/// Follows the parts from `i` on, starting in the folder `stack`. `None` where
/// a `..` leaves the outermost folder.
pub open spec fn collapse_from(
    stack: Seq<Seq<char>>,
    parts: Seq<Seq<char>>,
    i: int,
) -> Option<Seq<Seq<char>>>
    decreases parts.len() - i,
{
    if i < 0 || i >= parts.len() {
        Some(stack)
    } else if parts[i].len() == 0 || parts[i] == seq!['.'] {
        collapse_from(stack, parts, i + 1)
    } else if parts[i] == seq!['.', '.'] {
        if stack.len() == 0 {
            None
        } else {
            collapse_from(stack.drop_last(), parts, i + 1)
        }
    } else {
        collapse_from(stack.push(parts[i]), parts, i + 1)
    }
}

/// The folder `base_dir` as its parts.
pub open spec fn folder_parts(base_dir: Seq<char>) -> Seq<Seq<char>> {
    nonempty(split(base_dir, '/'))
}

/// The parts of `target` read from the folder `base_dir`, with `.` and `..`
/// followed.
pub open spec fn resolved_parts(base_dir: Seq<char>, target: Seq<char>) -> Option<Seq<Seq<char>>> {
    collapse_from(folder_parts(base_dir), split(target, '/'), 0)
}

/// The vault-relative path of `target` read from `base_dir`. `None` where it
/// leaves the vault or names the vault itself.
pub open spec fn resolved_path(base_dir: Seq<char>, target: Seq<char>) -> Option<Seq<char>> {
    match resolved_parts(base_dir, target) {
        Some(parts) => if parts.len() == 0 {
            None
        } else {
            Some(join(parts, seq!['/']))
        },
        None => None,
    }
}

proof fn lemma_collapse_behind(stack: Seq<Seq<char>>, p: Seq<char>, rest: Seq<Seq<char>>, i: int)
    requires
        0 <= i <= rest.len(),
    ensures
        collapse_from(stack, seq![p] + rest, i + 1) == collapse_from(stack, rest, i),
    decreases rest.len() - i,
{
    let all = seq![p] + rest;
    if i < rest.len() {
        assert(all[i + 1] == rest[i]);
        lemma_collapse_behind(stack, p, rest, i + 1);
        lemma_collapse_behind(stack.push(rest[i]), p, rest, i + 1);
        if stack.len() > 0 {
            lemma_collapse_behind(stack.drop_last(), p, rest, i + 1);
        }
    }
}

/// A path is followed part by part: `.` and an empty part stay in the folder, `..` goes to
/// the folder above, which the vault root does not have, and any other part goes down into
/// the folder of that name.
pub proof fn paths_are_followed_part_by_part(dir: Seq<char>, part: Seq<char>, target: Seq<char>)
    requires
        plain_part(part),
        !part.contains('/'),
    ensures
        resolved_parts(dir, seq!['.', '/'] + target) == resolved_parts(dir, target),
        resolved_parts(dir, seq!['/'] + target) == resolved_parts(dir, target),
        resolved_parts(dir.push('/') + part, seq!['.', '.', '/'] + target) == resolved_parts(dir, target),
        resolved_parts(seq![], seq!['.', '.', '/'] + target) is None,
        resolved_parts(dir, part + seq!['/'] + target) == resolved_parts(dir.push('/') + part, target),
        resolved_parts(dir, part) == Some(folder_parts(dir).push(part)),
{
    let rest = split(target, '/');
    let stack = folder_parts(dir);
    let dot = seq!['.'];
    let two = seq!['.', '.'];
    let none = Seq::<char>::empty();
    assert(dot[0] == '.' && two[0] == '.' && two[1] == '.');
    assert(!dot.contains('/') && !two.contains('/') && !none.contains('/'));
    pieces_end_at_separators(dot, target, '/');
    pieces_end_at_separators(two, target, '/');
    pieces_end_at_separators(none, target, '/');
    pieces_end_at_separators(part, target, '/');
    assert(dot.push('/') + target =~= seq!['.', '/'] + target);
    assert(two.push('/') + target =~= seq!['.', '.', '/'] + target);
    assert(none.push('/') + target =~= seq!['/'] + target);
    assert(part.push('/') + target =~= part + seq!['/'] + target);
    pieces_of_two_texts(dir, part, '/');
    nonempty_of_two_lists(split(dir, '/'), seq![part]);
    assert(folder_parts(dir.push('/') + part) =~= stack.push(part));
    assert(stack.push(part).drop_last() =~= stack);
    lemma_collapse_behind(stack, dot, rest, 0);
    lemma_collapse_behind(stack, none, rest, 0);
    lemma_collapse_behind(stack, two, rest, 0);
    lemma_collapse_behind(stack.push(part), part, rest, 0);
    nonempty_of_two_lists(seq![], seq![]);
    assert(split(seq![], '/') =~= seq![none]);
    assert(folder_parts(seq![]) =~= seq![]);
    assert(two != dot) by {
        assert(two.len() != dot.len());
    }
    assert(collapse_from(stack.push(part), seq![part], 1) == Some(stack.push(part)));
}

/// A resolved path holds no `.`, no `..` and no empty part.
pub proof fn resolved_parts_are_plain(stack: Seq<Seq<char>>, parts: Seq<Seq<char>>, i: int)
    requires
        0 <= i <= parts.len(),
        forall|k: int| 0 <= k < stack.len() ==> plain_part(#[trigger] stack[k]),
    ensures
        match collapse_from(stack, parts, i) {
            Some(r) => forall|k: int| 0 <= k < r.len() ==> plain_part(#[trigger] r[k]),
            None => true,
        },
    decreases parts.len() - i,
{
    if i < parts.len() {
        if parts[i].len() == 0 || parts[i] == seq!['.'] {
            resolved_parts_are_plain(stack, parts, i + 1);
        } else if parts[i] == seq!['.', '.'] {
            if stack.len() > 0 {
                resolved_parts_are_plain(stack.drop_last(), parts, i + 1);
            }
        } else {
            resolved_parts_are_plain(stack.push(parts[i]), parts, i + 1);
        }
    }
}

/// Follows `target` from the folder whose parts are `base`.
pub fn collapse(base: Vec<Vec<char>>, target: &[char]) -> (r: Option<Vec<Vec<char>>>)
    ensures
        match r {
            Some(v) => collapse_from(texts(base@), split(target@, '/'), 0) == Some(texts(v@)),
            None => collapse_from(texts(base@), split(target@, '/'), 0) is None,
        },
{
    let parts = split_on(target, '/');
    let ghost pv = split(target@, '/');
    let ghost start = texts(base@);
    let mut stack = base;
    let dot = to_chars(".");
    let dots = to_chars("..");
    proof {
        reveal_strlit(".");
        reveal_strlit("..");
        assert(dot@ =~= seq!['.']);
        assert(dots@ =~= seq!['.', '.']);
    }
    let mut i: usize = 0;
    while i < parts.len()
        invariant
            0 <= i <= parts@.len(),
            texts(parts@) == pv,
            dot@ == seq!['.'],
            dots@ == seq!['.', '.'],
            pv == split(target@, '/'),
            collapse_from(start, pv, 0) == collapse_from(texts(stack@), pv, i as int),
            start == texts(base@),
        decreases parts@.len() - i,
    {
        assert(texts(parts@)[i as int] == parts@[i as int]@);
        if parts[i].len() == 0 || chars_eq(parts[i].as_slice(), dot.as_slice()) {
        } else if chars_eq(parts[i].as_slice(), dots.as_slice()) {
            if stack.len() == 0 {
                return None;
            }
            let ghost was = stack@;
            let _ = stack.pop();
            assert(texts(stack@) =~= texts(was).drop_last());
        } else {
            let piece = slice_to_vec(parts[i].as_slice());
            proof {
                lemma_texts_push(stack@, piece);
            }
            stack.push(piece);
        }
        i = i + 1;
    }
    Some(stack)
}

/// Joins `target` onto `base_dir` and follows `.` and `..`.
pub fn normalize_asset_path(base_dir: &[char], target: &[char]) -> (r: Option<Vec<char>>)
    ensures
        opt_chars(r) == resolved_path(base_dir@, target@),
{
    let base = split_nonempty(base_dir, '/');
    match collapse(base, target) {
        None => None,
        Some(stack) => {
            if stack.len() == 0 {
                return None;
            }
            let mut slash: Vec<char> = Vec::new();
            slash.push('/');
            assert(slash@ =~= seq!['/']);
            Some(joined(&stack, slash.as_slice()))
        },
    }
}

/// How many leading parts two paths share.
pub open spec fn shared_parts(a: Seq<Seq<char>>, b: Seq<Seq<char>>) -> nat
    decreases a.len(),
{
    if a.len() > 0 && b.len() > 0 && a[0] == b[0] {
        1 + shared_parts(a.skip(1), b.skip(1))
    } else {
        0
    }
}

pub proof fn lemma_shared_parts(a: Seq<Seq<char>>, b: Seq<Seq<char>>)
    ensures
        shared_parts(a, b) <= a.len(),
        shared_parts(a, b) <= b.len(),
        a.take(shared_parts(a, b) as int) == b.take(shared_parts(a, b) as int),
    decreases a.len(),
{
    if a.len() > 0 && b.len() > 0 && a[0] == b[0] {
        lemma_shared_parts(a.skip(1), b.skip(1));
        let n = shared_parts(a, b) as int;
        assert(a.take(n) =~= seq![a[0]] + a.skip(1).take(n - 1));
        assert(b.take(n) =~= seq![b[0]] + b.skip(1).take(n - 1));
    } else {
        assert(a.take(0) =~= b.take(0));
    }
}

/// The shared parts are all that two paths have in common: behind them the paths differ, or
/// one of them ends.
pub proof fn paths_part_behind_what_they_share(a: Seq<Seq<char>>, b: Seq<Seq<char>>)
    ensures
        ({
            let n = shared_parts(a, b) as int;
            &&& n <= a.len() && n <= b.len()
            &&& a.take(n) == b.take(n)
            &&& n < a.len() && n < b.len() ==> a[n] != b[n]
        }),
    decreases a.len(),
{
    lemma_shared_parts(a, b);
    if a.len() > 0 && b.len() > 0 && a[0] == b[0] {
        paths_part_behind_what_they_share(a.skip(1), b.skip(1));
        let n = shared_parts(a, b) as int;
        if n < a.len() && n < b.len() {
            assert(a.skip(1)[n - 1] == a[n]);
            assert(b.skip(1)[n - 1] == b[n]);
        }
    }
}

pub fn count_shared(a: &Vec<Vec<char>>, b: &Vec<Vec<char>>) -> (r: usize)
    ensures
        r == shared_parts(texts(a@), texts(b@)),
        r <= a@.len(),
        r <= b@.len(),
{
    let ghost x = texts(a@);
    let ghost y = texts(b@);
    let mut i: usize = 0;
    assert(x.skip(0) =~= x);
    assert(y.skip(0) =~= y);
    while i < a.len() && i < b.len() && chars_eq(a[i].as_slice(), b[i].as_slice())
        invariant
            0 <= i <= a@.len(),
            0 <= i <= b@.len(),
            x == texts(a@),
            y == texts(b@),
            shared_parts(x, y) == i + shared_parts(x.skip(i as int), y.skip(i as int)),
        decreases a@.len() - i,
    {
        assert(x.skip(i as int)[0] == a@[i as int]@);
        assert(y.skip(i as int)[0] == b@[i as int]@);
        assert(x.skip(i as int).skip(1) =~= x.skip(i + 1));
        assert(y.skip(i as int).skip(1) =~= y.skip(i + 1));
        i = i + 1;
    }
    proof {
        if i < a@.len() && i < b@.len() {
            assert(x.skip(i as int)[0] == a@[i as int]@);
            assert(y.skip(i as int)[0] == b@[i as int]@);
        }
    }
    i
}

/// The folder of a path, as its parts.
pub open spec fn parent_parts(path: Seq<char>) -> Seq<Seq<char>> {
    let parts = folder_parts(path);
    if parts.len() == 0 {
        parts
    } else {
        parts.drop_last()
    }
}

pub fn split_parent(path: &[char]) -> (r: Vec<Vec<char>>)
    ensures
        texts(r@) == parent_parts(path@),
{
    let mut parts = split_nonempty(path, '/');
    let ghost was = parts@;
    if parts.len() > 0 {
        let _ = parts.pop();
        assert(texts(parts@) =~= texts(was).drop_last());
    }
    parts
}

/// How many folder steps lead from one folder to another.
pub open spec fn folder_hops(a: Seq<Seq<char>>, b: Seq<Seq<char>>) -> nat {
    let shared = shared_parts(a, b);
    ((a.len() - shared) + (b.len() - shared)) as nat
}

/// Folder hops between a note's folder and an asset.
pub fn asset_distance(note_dir: &[char], candidate: &[char]) -> (r: u128)
    ensures
        r == folder_hops(folder_parts(note_dir@), parent_parts(candidate@)),
{
    let note = split_nonempty(note_dir, '/');
    let asset = split_parent(candidate);
    let shared: usize = count_shared(&note, &asset);
    proof {
        assert(note@.len() == texts(note@).len());
        assert(asset@.len() == texts(asset@).len());
    }
    ((note.len() - shared) as u128) + ((asset.len() - shared) as u128)
}

// ---------------------------------------------------------------------------
// Resolving an embed
// ---------------------------------------------------------------------------

/// The asset carries the lowercased file name.
pub open spec fn has_name(path: Seq<char>, name: Seq<char>) -> bool {
    lowercase(after_last(path, '/')) == name
}

/// The `i`th asset is the nearest to the folder among those that carry the
/// name; of equally near ones the first.
pub open spec fn is_nearest(
    assets: Seq<Seq<char>>,
    note_dir: Seq<char>,
    name: Seq<char>,
    i: int,
) -> bool {
    &&& 0 <= i < assets.len()
    &&& has_name(assets[i], name)
    &&& forall|j: int|
        0 <= j < assets.len() && has_name(#[trigger] assets[j], name) ==> {
            let here = folder_hops(folder_parts(note_dir), parent_parts(assets[i]));
            let there = folder_hops(folder_parts(note_dir), parent_parts(assets[j]));
            here < there || (here == there && i <= j)
        }
}

/// The nearest asset that carries the name.
pub open spec fn nearest_asset(
    assets: Seq<Seq<char>>,
    note_dir: Seq<char>,
    name: Seq<char>,
) -> Option<Seq<char>> {
    if exists|i: int| is_nearest(assets, note_dir, name, i) {
        Some(assets[choose|i: int| is_nearest(assets, note_dir, name, i)])
    } else {
        None
    }
}

/// The asset at a path, if there is one.
pub open spec fn asset_at(assets: Seq<Seq<char>>, path: Option<Seq<char>>) -> Option<Seq<char>> {
    match path {
        Some(p) => if assets.contains(p) {
            Some(p)
        } else {
            None
        },
        None => None,
    }
}

/// Where a query or an anchor starts, or the length.
pub open spec fn suffix_start(s: Seq<char>) -> int {
    if next_char(s, 0, '?') <= next_char(s, 0, '#') {
        next_char(s, 0, '?')
    } else {
        next_char(s, 0, '#')
    }
}

/// The path an embed target names, without a query or an anchor.
pub open spec fn embed_path(raw: Seq<char>) -> Seq<char> {
    replace_char(trim(raw.take(suffix_start(raw))), '\\', '/')
}

/// The asset an embed target names in a note of the folder `note_dir`. A
/// leading `/` means the vault root. Otherwise the note's own folder comes
/// first, then the vault root, then, for a bare file name, the nearest asset
/// of that name.
pub open spec fn embedded_asset(
    assets: Seq<Seq<char>>,
    raw_target: Seq<char>,
    note_dir: Seq<char>,
) -> Option<Seq<char>> {
    let target = embed_path(raw_target);
    let here = asset_at(assets, resolved_path(note_dir, target));
    let from_root = asset_at(assets, resolved_path(seq![], target));
    if target.len() == 0 {
        None
    } else if target[0] == '/' {
        asset_at(assets, resolved_path(seq![], target.skip(1)))
    } else if here is Some {
        here
    } else if from_root is Some {
        from_root
    } else if target.contains('/') {
        None
    } else {
        nearest_asset(assets, note_dir, lowercase(target))
    }
}

fn find_asset<'a>(assets: &'a Vec<String>, path: Option<Vec<char>>) -> (r: Option<&'a str>)
    ensures
        match r {
            Some(p) => asset_at(strs(assets@), opt_chars(path)) == Some(p@),
            None => asset_at(strs(assets@), opt_chars(path)) is None,
        },
{
    match path {
        None => None,
        Some(p) => {
            let text = from_chars(p.as_slice());
            let mut i: usize = 0;
            while i < assets.len()
                invariant
                    0 <= i <= assets@.len(),
                    text@ == p@,
                    path == Some(p),
                    forall|k: int| 0 <= k < i ==> (#[trigger] assets@[k])@ != text@,
                decreases assets@.len() - i,
            {
                if assets[i] == text {
                    assert(strs(assets@)[i as int] == text@);
                    return Some(assets[i].as_str());
                }
                i = i + 1;
            }
            proof {
                if strs(assets@).contains(text@) {
                    let k = choose|k: int|
                        0 <= k < strs(assets@).len() && strs(assets@)[k] == text@;
                    assert(assets@[k]@ == text@);
                }
            }
            None
        },
    }
}

fn find_nearest<'a>(assets: &'a Vec<String>, note_dir: &[char], name: &[char]) -> (r: Option<
    &'a str,
>)
    ensures
        match r {
            Some(p) => nearest_asset(strs(assets@), note_dir@, name@) == Some(p@),
            None => nearest_asset(strs(assets@), note_dir@, name@) is None,
        },
{
    let ghost av = strs(assets@);
    let mut best: Option<usize> = None;
    let mut best_hops: u128 = 0;
    let mut i: usize = 0;
    while i < assets.len()
        invariant
            0 <= i <= assets@.len(),
            av == strs(assets@),
            match best {
                Some(b) => b < i && has_name(av[b as int], name@) && best_hops == folder_hops(
                    folder_parts(note_dir@),
                    parent_parts(av[b as int]),
                ) && forall|j: int|
                    0 <= j < i && has_name(#[trigger] av[j], name@) ==> {
                        let there = folder_hops(folder_parts(note_dir@), parent_parts(av[j]));
                        best_hops < there || (best_hops == there && b <= j)
                    },
                None => forall|j: int| 0 <= j < i ==> !has_name(#[trigger] av[j], name@),
            },
        decreases assets@.len() - i,
    {
        let path = to_chars(assets[i].as_str());
        assert(av[i as int] == path@);
        let file = from_chars(tail_after_last(path.as_slice(), '/'));
        let lower = to_lowercase(file.as_str());
        let lower_chars = to_chars(lower.as_str());
        if chars_eq(lower_chars.as_slice(), name) {
            let hops: u128 = asset_distance(note_dir, path.as_slice());
            if best.is_none() || hops < best_hops {
                best = Some(i);
                best_hops = hops;
            }
        }
        i = i + 1;
    }
    match best {
        Some(b) => {
            proof {
                assert(is_nearest(av, note_dir@, name@, b as int));
                let c = choose|c: int| is_nearest(av, note_dir@, name@, c);
                assert(b == c);
            }
            Some(assets[b].as_str())
        },
        None => None,
    }
}

/// The assets whose file has the given lower-case name, in order.
pub open spec fn assets_named(assets: Seq<Seq<char>>, name: Seq<char>) -> Seq<Seq<char>>
    decreases assets.len(),
{
    if assets.len() == 0 {
        seq![]
    } else if has_name(assets.last(), name) {
        assets_named(assets.drop_last(), name).push(assets.last())
    } else {
        assets_named(assets.drop_last(), name)
    }
}

proof fn lemma_assets_named(assets: Seq<Seq<char>>, name: Seq<char>)
    ensures
        forall|path: Seq<char>| #[trigger]
            assets_named(assets, name).contains(path) <==> assets.contains(path) && has_name(
                path,
                name,
            ),
        strictly_sorted(assets) ==> strictly_sorted(assets_named(assets, name)),
    decreases assets.len(),
{
    if assets.len() > 0 {
        let front = assets.drop_last();
        let last = assets.last();
        let prev = assets_named(front, name);
        let all = assets_named(assets, name);
        lemma_assets_named(front, name);
        assert forall|path: Seq<char>| #[trigger] all.contains(path) <==> assets.contains(path)
            && has_name(path, name) by {
            if all.contains(path) {
                let i = choose|i: int| 0 <= i < all.len() && all[i] == path;
                if i < prev.len() {
                    assert(prev[i] == path);
                    assert(prev.contains(path));
                    let k = choose|k: int| 0 <= k < front.len() && front[k] == path;
                    assert(assets[k] == path);
                } else {
                    assert(assets[assets.len() - 1] == path);
                }
            }
            if assets.contains(path) && has_name(path, name) {
                let k = choose|k: int| 0 <= k < assets.len() && assets[k] == path;
                if k < front.len() {
                    assert(front[k] == path);
                    assert(prev.contains(path));
                    let i = choose|i: int| 0 <= i < prev.len() && prev[i] == path;
                    assert(all[i] == path);
                } else {
                    assert(all[prev.len() as int] == path);
                }
            }
        }
        if strictly_sorted(assets) {
            assert(strictly_sorted(front)) by {
                assert forall|i: int, j: int| 0 <= i < j < front.len() implies text_lt(
                    #[trigger] front[i],
                    #[trigger] front[j],
                ) by {
                    assert(text_lt(assets[i], assets[j]));
                }
            }
            assert forall|i: int, j: int| 0 <= i < j < all.len() implies text_lt(
                #[trigger] all[i],
                #[trigger] all[j],
            ) by {
                if j < prev.len() {
                    assert(text_lt(prev[i], prev[j]));
                } else {
                    assert(prev[i] == all[i]);
                    assert(prev.contains(prev[i]));
                    let k = choose|k: int| 0 <= k < front.len() && front[k] == prev[i];
                    assert(text_lt(assets[k], assets[assets.len() - 1]));
                }
            }
        }
    } else {
        assert(assets_named(assets, name) =~= seq![]);
    }
}

/// The assets whose file has the given lower-case name.
pub fn select_assets_named(assets: &Vec<String>, name: &str) -> (r: Vec<String>)
    ensures
        strs(r@) == assets_named(strs(assets@), name@),
        forall|path: Seq<char>| #[trigger]
            strs(r@).contains(path) <==> strs(assets@).contains(path) && has_name(path, name@),
        strictly_sorted(strs(assets@)) ==> strictly_sorted(strs(r@)),
{
    let ghost av = strs(assets@);
    let wanted = to_chars(name);
    let mut out: Vec<String> = Vec::new();
    let mut i: usize = 0;
    assert(strs(out@) =~= assets_named(av.take(0), name@));
    while i < assets.len()
        invariant
            0 <= i <= assets@.len(),
            av == strs(assets@),
            wanted@ == name@,
            strs(out@) == assets_named(av.take(i as int), name@),
        decreases assets@.len() - i,
    {
        let path = to_chars(assets[i].as_str());
        proof {
            assert(av.take(i + 1).drop_last() =~= av.take(i as int));
            assert(av.take(i + 1).last() == path@);
        }
        let file = from_chars(tail_after_last(path.as_slice(), '/'));
        let lower = to_lowercase(file.as_str());
        let lower_chars = to_chars(lower.as_str());
        if chars_eq(lower_chars.as_slice(), wanted.as_slice()) {
            let item = assets[i].clone();
            proof {
                lemma_strs_push(out@, item);
            }
            out.push(item);
        }
        i = i + 1;
    }
    proof {
        assert(av.take(i as int) =~= av);
        lemma_assets_named(av, name@);
    }
    out
}

/// The asset an embed target names in a note of the folder `note_dir`.
pub fn resolve_embed<'a>(assets: &'a Vec<String>, raw_target: &str, note_dir: &str) -> (r: Option<
    &'a str,
>)
    ensures
        match r {
            Some(p) => embedded_asset(strs(assets@), raw_target@, note_dir@) == Some(p@),
            None => embedded_asset(strs(assets@), raw_target@, note_dir@) is None,
        },
{
    let raw = to_chars(raw_target);
    let dir = to_chars(note_dir);
    let query: usize = find_char(raw.as_slice(), 0, '?');
    let anchor: usize = find_char(raw.as_slice(), 0, '#');
    let cut: usize = if query <= anchor {
        query
    } else {
        anchor
    };
    let target = with_char_replaced(trimmed(prefix_of(raw.as_slice(), cut)), '\\', '/');
    assert(target@ == embed_path(raw_target@));
    if target.len() == 0 {
        return None;
    }
    let root: Vec<char> = Vec::new();
    assert(root@ =~= seq![]);
    if target[0] == '/' {
        let absolute = normalize_asset_path(root.as_slice(), suffix_of(target.as_slice(), 1));
        return find_asset(assets, absolute);
    }
    let here = find_asset(assets, normalize_asset_path(dir.as_slice(), target.as_slice()));
    if here.is_some() {
        return here;
    }
    let from_root = find_asset(assets, normalize_asset_path(root.as_slice(), target.as_slice()));
    if from_root.is_some() {
        return from_root;
    }
    if contains_char(target.as_slice(), '/') {
        return None;
    }
    let text = from_chars(target.as_slice());
    let lower = to_lowercase(text.as_str());
    let name = to_chars(lower.as_str());
    find_nearest(assets, dir.as_slice(), name.as_slice())
}

/// An embed resolves to a file the vault lists, or to nothing.
pub proof fn embed_resolves_to_a_listed_asset(
    assets: Seq<Seq<char>>,
    raw_target: Seq<char>,
    note_dir: Seq<char>,
)
    ensures
        match embedded_asset(assets, raw_target, note_dir) {
            Some(p) => assets.contains(p),
            None => true,
        },
{
    let name = lowercase(embed_path(raw_target));
    if exists|i: int| is_nearest(assets, note_dir, name, i) {
        let i = choose|i: int| is_nearest(assets, note_dir, name, i);
        assert(assets.contains(assets[i]));
    }
}

/// What follows a question mark or a hash names no file: a target means what
/// stands before the first of them.
pub proof fn query_and_anchor_name_no_file(path: Seq<char>, mark: char, rest: Seq<char>)
    requires
        mark == '?' || mark == '#',
        !path.contains('?') && !path.contains('#'),
    ensures
        embed_path(path.push(mark) + rest) == replace_char(trim(path), '\\', '/'),
        embed_path(path) == replace_char(trim(path), '\\', '/'),
{
    let n = path.len() as int;
    let s = path.push(mark) + rest;
    assert forall|k: int| 0 <= k < n implies s[k] != '?' && s[k] != '#' && path[k] != '?'
        && path[k] != '#' by {
        assert(path.contains(path[k]));
        assert(s[k] == path[k]);
    }
    assert(s[n] == mark);
    lemma_next_char(s, 0, '?');
    lemma_next_char(s, 0, '#');
    if mark == '?' {
        lemma_next_is(s, 0, n, '?');
    } else {
        lemma_next_is(s, 0, n, '#');
    }
    lemma_next_is(path, 0, n, '?');
    lemma_next_is(path, 0, n, '#');
    assert(s.take(n) =~= path);
    assert(path.take(n) =~= path);
}

/// The target is a file's name and nothing else.
pub open spec fn is_bare_name(name: Seq<char>) -> bool {
    &&& plain_part(name)
    &&& trim(name) == name
    &&& !name.contains('/') && !name.contains('\\') && !name.contains('?') && !name.contains('#')
}

/// A bare file name is looked for in the note's own folder, then at the vault's
/// root, and then anywhere: the nearest file that has the name, letter case aside,
/// is found, and one is found wherever there is one.
#[verifier::rlimit(40)]
pub proof fn bare_name_is_found(assets: Seq<Seq<char>>, name: Seq<char>, dir: Seq<char>)
    requires
        is_bare_name(name),
    ensures
        ({
            let here = join(folder_parts(dir).push(name), seq!['/']);
            let found = embedded_asset(assets, name, dir);
            if assets.contains(here) {
                found == Some(here)
            } else if assets.contains(name) {
                found == Some(name)
            } else {
                &&& found is Some <==> exists|j: int|
                    0 <= j < assets.len() && has_name(#[trigger] assets[j], lowercase(name))
                &&& found matches Some(p) ==> has_name(p, lowercase(name)) && assets.contains(p)
                    && forall|j: int|
                    0 <= j < assets.len() && has_name(#[trigger] assets[j], lowercase(name))
                        ==> folder_hops(folder_parts(dir), parent_parts(p)) <= folder_hops(
                        folder_parts(dir),
                        parent_parts(assets[j]),
                    )
            }
        }),
{
    let wanted = lowercase(name);
    query_and_anchor_name_no_file(name, '?', seq![]);
    assert(replace_char(name, '\\', '/') =~= name) by {
        assert forall|k: int| 0 <= k < name.len() implies name[k] != '\\' by {
            assert(name.contains(name[k]));
        }
    }
    assert(name[0] != '/') by {
        assert(name.contains(name[0]));
    }
    paths_are_followed_part_by_part(dir, name, name);
    paths_are_followed_part_by_part(seq![], name, name);
    nonempty_of_two_lists(seq![], seq![]);
    assert(!Seq::<char>::empty().contains('/'));
    pieces_end_at_separators(seq![], seq![], '/');
    nonempty_of_two_lists(seq![Seq::<char>::empty()], seq![]);
    assert(folder_parts(seq![]) =~= seq![]);
    assert(folder_parts(seq![]).push(name) =~= seq![name]);
    assert(join(seq![name], seq!['/']) == name);
    if exists|j: int| 0 <= j < assets.len() && has_name(#[trigger] assets[j], wanted) {
        lemma_nearest_exists(assets, dir, wanted);
    }
    if exists|i: int| is_nearest(assets, dir, wanted, i) {
        let i = choose|i: int| is_nearest(assets, dir, wanted, i);
        assert(assets.contains(assets[i]));
    }
}

proof fn lemma_nearest_exists(assets: Seq<Seq<char>>, dir: Seq<char>, name: Seq<char>)
    requires
        exists|j: int| 0 <= j < assets.len() && has_name(#[trigger] assets[j], name),
    ensures
        exists|i: int| is_nearest(assets, dir, name, i),
    decreases assets.len(),
{
    let front = assets.drop_last();
    let n = front.len() as int;
    if exists|j: int| 0 <= j < front.len() && has_name(#[trigger] front[j], name) {
        lemma_nearest_exists(front, dir, name);
        let i = choose|i: int| is_nearest(front, dir, name, i);
        let near = folder_hops(folder_parts(dir), parent_parts(assets[i]));
        let far = folder_hops(folder_parts(dir), parent_parts(assets[n]));
        assert forall|j: int| 0 <= j < n && has_name(#[trigger] assets[j], name) implies {
            let there = folder_hops(folder_parts(dir), parent_parts(assets[j]));
            near < there || (near == there && i <= j)
        } by {
            assert(front[j] == assets[j]);
            assert(front[i] == assets[i]);
        }
        if has_name(assets[n], name) && far < near {
            assert(is_nearest(assets, dir, name, n));
        } else {
            assert(front[i] == assets[i]);
            assert(is_nearest(assets, dir, name, i));
        }
    } else {
        let j = choose|j: int| 0 <= j < assets.len() && has_name(#[trigger] assets[j], name);
        if j < n {
            assert(front[j] == assets[j]);
        }
        assert forall|k: int| 0 <= k < n implies !has_name(#[trigger] assets[k], name) by {
            assert(front[k] == assets[k]);
        }
        assert(is_nearest(assets, dir, name, n));
    }
}

/// A target that starts with a slash is looked for from the vault's root and
/// nowhere else.
pub proof fn leading_slash_means_the_root(assets: Seq<Seq<char>>, name: Seq<char>, dir: Seq<char>)
    requires
        is_bare_name(name),
        trim(seq!['/'] + name) == seq!['/'] + name,
    ensures
        embedded_asset(assets, seq!['/'] + name, dir) == (if assets.contains(name) {
            Some(name)
        } else {
            None
        }),
{
    let s = seq!['/'] + name;
    assert forall|k: int| 0 <= k < s.len() implies s[k] != '\\' && s[k] != '?' && s[k] != '#' by {
        if k > 0 {
            assert(name.contains(name[k - 1]));
        }
    }
    query_and_anchor_name_no_file(s, '?', seq![]);
    assert(replace_char(s, '\\', '/') =~= s);
    assert(s.skip(1) =~= name);
    paths_are_followed_part_by_part(seq![], name, name);
    assert(!Seq::<char>::empty().contains('/'));
    pieces_end_at_separators(seq![], seq![], '/');
    nonempty_of_two_lists(seq![Seq::<char>::empty()], seq![]);
    assert(folder_parts(seq![]) =~= seq![]);
    assert(folder_parts(seq![]).push(name) =~= seq![name]);
    assert(join(seq![name], seq!['/']) == name);
}

} // verus!
