//! How the slug of a new note agrees with the slugs of a later scan.

use vstd::prelude::*;

use crate::exclude::ExcludeMatcher;
use crate::index::{
    catalog_notes, catalog_slugs_are_unique, claim_key, claim_keys, claim_order, file_title, is_catalog,
    lemma_catalog_prefix, note_files, note_relative, view_slugs, ScannedFile,
};
use crate::layers::{layer_of, DeclView};
use crate::note_ops::{lemma_slug_among, other_paths, slug_among, slug_at};
use crate::text::{
    lemma_lex_irreflexive, lemma_lex_transitive, lemma_path_key_injective,
    lemma_stable_order_exists, lex_lt, listed, path_key, sort_order,
};
use crate::types::{notes_view, NoteEntry, VaultIndex};

verus! {

// ---------------------------------------------------------------------------
// The claim order
// ---------------------------------------------------------------------------

/// Each path claims strictly before the next.
pub open spec fn strictly_claimed(decls: Seq<(Seq<char>, DeclView)>, paths: Seq<Seq<char>>) -> bool {
    forall|i: int, j: int|
        0 <= i < j < paths.len() ==> lex_lt(
            claim_key(decls, #[trigger] paths[i]),
            claim_key(decls, #[trigger] paths[j]),
        )
}

proof fn lemma_claim_key_injective(
    decls: Seq<(Seq<char>, DeclView)>,
    a: Seq<char>,
    b: Seq<char>,
)
    requires
        claim_key(decls, a) == claim_key(decls, b),
    ensures
        a == b,
{
    assert(claim_key(decls, a).skip(1) =~= path_key(a));
    assert(claim_key(decls, b).skip(1) =~= path_key(b));
    lemma_path_key_injective(a, b);
}

/// Distinct paths claim in one strict order, which has the same paths.
pub proof fn lemma_claim_order(decls: Seq<(Seq<char>, DeclView)>, paths: Seq<Seq<char>>)
    requires
        paths.no_duplicates(),
        paths.len() <= usize::MAX,
    ensures
        claim_order(decls, paths).len() == paths.len(),
        strictly_claimed(decls, claim_order(decls, paths)),
        forall|x: Seq<char>| #[trigger]
            claim_order(decls, paths).contains(x) <==> paths.contains(x),
{
    let keys = claim_keys(decls, paths);
    lemma_stable_order_exists(keys);
    let order = sort_order(keys);
    let out = claim_order(decls, paths);
    assert forall|i: int, j: int| 0 <= i < j < out.len() implies lex_lt(
        claim_key(decls, #[trigger] out[i]),
        claim_key(decls, #[trigger] out[j]),
    ) by {
        let a = order[i] as int;
        let b = order[j] as int;
        if keys[a] == keys[b] {
            lemma_claim_key_injective(decls, paths[a], paths[b]);
        }
    }
    assert forall|x: Seq<char>| #[trigger] out.contains(x) <==> paths.contains(x) by {
        if out.contains(x) {
            let i = choose|i: int| 0 <= i < out.len() && out[i] == x;
            assert(paths[order[i] as int] == x);
        }
        if paths.contains(x) {
            let k = choose|k: int| 0 <= k < paths.len() && paths[k] == x;
            assert(listed(order, k));
            let i = choose|i: int| 0 <= i < order.len() && #[trigger] order[i] == k;
            assert(out[i] == x);
        }
    }
}

proof fn lemma_strict_order_unique(
    decls: Seq<(Seq<char>, DeclView)>,
    a: Seq<Seq<char>>,
    b: Seq<Seq<char>>,
)
    requires
        strictly_claimed(decls, a),
        strictly_claimed(decls, b),
        forall|x: Seq<char>| #[trigger] a.contains(x) <==> b.contains(x),
    ensures
        a == b,
    decreases a.len(),
{
    if a.len() == 0 {
        if b.len() > 0 {
            assert(b.contains(b[0]));
            assert(a.contains(b[0]));
        }
        assert(a =~= b);
    } else {
        let m = a.len() - 1;
        assert(a.contains(a[m]));
        assert(b.contains(a[m]));
        let n = b.len() - 1;
        assert(b.contains(b[n]));
        assert(a.contains(b[n]));
        let j = choose|j: int| 0 <= j < b.len() && b[j] == a[m];
        let i = choose|i: int| 0 <= i < a.len() && a[i] == b[n];
        if j < n {
            assert(lex_lt(claim_key(decls, b[j]), claim_key(decls, b[n])));
            if i < m {
                assert(lex_lt(claim_key(decls, a[i]), claim_key(decls, a[m])));
                lemma_lex_transitive(
                    claim_key(decls, a[m]),
                    claim_key(decls, b[n]),
                    claim_key(decls, a[m]),
                );
            }
            lemma_lex_irreflexive(claim_key(decls, a[m]));
        }
        let p = a.drop_last();
        let q = b.drop_last();
        assert forall|x: Seq<char>| #[trigger] p.contains(x) <==> q.contains(x) by {
            lemma_lex_irreflexive(claim_key(decls, a[m]));
            if p.contains(x) {
                let k = choose|k: int| 0 <= k < p.len() && p[k] == x;
                assert(a[k] == x);
                assert(lex_lt(claim_key(decls, a[k]), claim_key(decls, a[m])));
                assert(a.contains(x));
                assert(b.contains(x));
                let l = choose|l: int| 0 <= l < b.len() && b[l] == x;
                assert(l < n);
                assert(q[l] == x);
            }
            if q.contains(x) {
                let k = choose|k: int| 0 <= k < q.len() && q[k] == x;
                assert(b[k] == x);
                assert(lex_lt(claim_key(decls, b[k]), claim_key(decls, b[n])));
                assert(b.contains(x));
                assert(a.contains(x));
                let l = choose|l: int| 0 <= l < a.len() && a[l] == x;
                assert(l < m);
                assert(p[l] == x);
            }
        }
        lemma_strict_order_unique(decls, p, q);
        assert(a =~= p.push(a[m]));
        assert(b =~= q.push(b[n]));
    }
}

// ---------------------------------------------------------------------------
// The slug of a note at a new path
// ---------------------------------------------------------------------------

proof fn lemma_other_paths(notes: Seq<NoteEntry>, exclude: Option<Seq<char>>, path: Seq<char>)
    ensures
        forall|x: Seq<char>| #[trigger]
            other_paths(notes, exclude, path).contains(x) <==> x != path && exists|i: int|
                0 <= i < notes.len() && (#[trigger] notes[i]).file@ == x && exclude != Some(
                    notes[i].slug@,
                ),
    decreases notes.len(),
{
    if notes.len() > 0 {
        let front = notes.drop_last();
        let n = notes.len() - 1;
        lemma_other_paths(front, exclude, path);
        let prev = other_paths(front, exclude, path);
        let all = other_paths(notes, exclude, path);
        assert forall|x: Seq<char>| #[trigger] all.contains(x) <==> x != path && exists|i: int|
            0 <= i < notes.len() && (#[trigger] notes[i]).file@ == x && exclude != Some(
                notes[i].slug@,
            ) by {
            if all.contains(x) {
                let k = choose|k: int| 0 <= k < all.len() && all[k] == x;
                if k < prev.len() {
                    assert(prev[k] == x);
                    assert(prev.contains(x));
                    let i = choose|i: int|
                        0 <= i < front.len() && (#[trigger] front[i]).file@ == x && exclude != Some(
                            front[i].slug@,
                        );
                    assert(notes[i] == front[i]);
                } else {
                    assert(notes[n].file@ == x);
                }
            }
            if x != path && exists|i: int|
                0 <= i < notes.len() && (#[trigger] notes[i]).file@ == x && exclude != Some(
                    notes[i].slug@,
                ) {
                let i = choose|i: int|
                    0 <= i < notes.len() && (#[trigger] notes[i]).file@ == x && exclude != Some(
                        notes[i].slug@,
                    );
                if i < n {
                    assert(front[i] == notes[i]);
                    assert(prev.contains(x));
                    let k = choose|k: int| 0 <= k < prev.len() && prev[k] == x;
                    assert(all[k] == x);
                } else {
                    assert(all[all.len() - 1] == x);
                }
            }
        }
    }
}

proof fn lemma_other_paths_distinct(
    notes: Seq<NoteEntry>,
    exclude: Option<Seq<char>>,
    path: Seq<char>,
)
    requires
        forall|i: int, j: int|
            0 <= i < j < notes.len() ==> (#[trigger] notes[i]).file@ != (#[trigger] notes[j]).file@,
    ensures
        other_paths(notes, exclude, path).no_duplicates(),
        other_paths(notes, exclude, path).len() <= notes.len(),
    decreases notes.len(),
{
    if notes.len() > 0 {
        let front = notes.drop_last();
        lemma_other_paths_distinct(front, exclude, path);
        lemma_other_paths(front, exclude, path);
        let last = notes.last().file@;
        assert(notes[notes.len() - 1] == notes.last());
        if other_paths(front, exclude, path).contains(last) {
            let i = choose|i: int|
                0 <= i < front.len() && (#[trigger] front[i]).file@ == last && exclude != Some(
                    front[i].slug@,
                );
            assert(notes[i] == front[i]);
        }
    }
}

/// The notes of a catalog stand at the paths of the scan, each at its own, and
/// have their titles from there.
pub proof fn lemma_catalog_paths(
    catalog: VaultIndex,
    files: Seq<ScannedFile>,
    decls: Seq<(Seq<char>, DeclView)>,
    exclude: &ExcludeMatcher,
)
    requires
        is_catalog(catalog, files, decls, exclude),
        note_files(exclude, files).no_duplicates(),
        note_files(exclude, files).len() <= usize::MAX,
    ensures
        catalog.by_slug@.len() == note_files(exclude, files).len(),
        forall|i: int, j: int|
            0 <= i < j < catalog.by_slug@.len() ==> (#[trigger] catalog.by_slug@[i]).file@ != (
            #[trigger] catalog.by_slug@[j]).file@,
        forall|i: int, j: int|
            0 <= i < j < catalog.by_slug@.len() ==> (#[trigger] catalog.by_slug@[i]).slug@ != (
            #[trigger] catalog.by_slug@[j]).slug@,
        forall|x: Seq<char>| #[trigger]
            note_files(exclude, files).contains(x) <==> exists|i: int|
                0 <= i < catalog.by_slug@.len() && (#[trigger] catalog.by_slug@[i]).file@ == x,
        forall|i: int|
            0 <= i < catalog.by_slug@.len() ==> (#[trigger] catalog.by_slug@[i]).title@
                == file_title(catalog.by_slug@[i].file@) && catalog.by_slug@[i].relative_path@
                == note_relative(catalog.by_slug@[i].file@),
{
    let had = note_files(exclude, files);
    let c = claim_order(decls, had);
    lemma_claim_order(decls, had);
    let notes = catalog.by_slug@;
    let root = catalog.root@;
    let views = catalog_notes(root, c, decls);
    catalog_slugs_are_unique(root, c, decls);
    assert(notes_view(notes) == views);
    assert forall|i: int| 0 <= i < notes.len() implies (#[trigger] notes[i]).file@ == c[i]
        && notes[i].slug@ == view_slugs(views)[i] && notes[i].title@ == file_title(c[i])
        && notes[i].relative_path@ == note_relative(c[i]) by {
        lemma_catalog_prefix(root, c, decls, i);
        assert(notes_view(notes)[i] == views[i]);
    }
    assert forall|i: int, j: int| 0 <= i < j < notes.len() implies (#[trigger] notes[i]).file@ != (
    #[trigger] notes[j]).file@ by {
        assert(lex_lt(claim_key(decls, c[i]), claim_key(decls, c[j])));
        lemma_lex_irreflexive(claim_key(decls, c[i]));
    }
    assert forall|x: Seq<char>| #[trigger] had.contains(x) <==> exists|i: int|
        0 <= i < notes.len() && (#[trigger] notes[i]).file@ == x by {
        assert(c.contains(x) <==> had.contains(x));
        if had.contains(x) {
            let i = choose|i: int| 0 <= i < c.len() && c[i] == x;
            assert(notes[i].file@ == x);
        }
        if exists|i: int| 0 <= i < notes.len() && (#[trigger] notes[i]).file@ == x {
            let i = choose|i: int| 0 <= i < notes.len() && (#[trigger] notes[i]).file@ == x;
            assert(c[i] == x);
        }
    }
}

/// The note at `path` has, in a scan, the slug that a listing of the same paths
/// gives it.
proof fn lemma_slug_in_scan(
    root: Seq<char>,
    decls: Seq<(Seq<char>, DeclView)>,
    scanned: Seq<Seq<char>>,
    listed: Seq<Seq<char>>,
    path: Seq<char>,
)
    requires
        scanned.no_duplicates(),
        listed.no_duplicates(),
        scanned.len() <= usize::MAX,
        listed.len() <= usize::MAX,
        forall|x: Seq<char>| #[trigger] scanned.contains(x) <==> listed.contains(x),
        listed.contains(path),
    ensures
        exists|i: int|
            0 <= i < scanned.len() && (#[trigger] catalog_notes(
                root,
                claim_order(decls, scanned),
                decls,
            )[i]).file == path && catalog_notes(root, claim_order(decls, scanned), decls)[i].slug
                == slug_among(catalog_notes(root, claim_order(decls, listed), decls), path, 0),
{
    let a = claim_order(decls, scanned);
    let b = claim_order(decls, listed);
    lemma_claim_order(decls, scanned);
    lemma_claim_order(decls, listed);
    assert forall|x: Seq<char>| #[trigger] a.contains(x) <==> b.contains(x) by {
        assert(scanned.contains(x) <==> listed.contains(x));
    }
    lemma_strict_order_unique(decls, a, b);
    assert(b.contains(path));
    let p = choose|p: int| 0 <= p < b.len() && b[p] == path;
    let notes = catalog_notes(root, b, decls);
    assert forall|k: int| 0 <= k < b.len() implies (#[trigger] notes[k]).file == b[k] by {
        lemma_catalog_prefix(root, b, decls, k);
    }
    catalog_slugs_are_unique(root, b, decls);
    assert forall|k: int| 0 <= k < p implies (#[trigger] notes[k]).file != path by {
        assert(lex_lt(claim_key(decls, b[k]), claim_key(decls, b[p])));
        lemma_lex_irreflexive(claim_key(decls, b[p]));
    }
    lemma_slug_among(notes, path, 0, p);
}

/// A note that is added to a vault is indexed, by a later scan that finds it
/// beside the same other notes, under the slug that it was given when it was
/// added.
pub proof fn added_note_keeps_its_slug(
    catalog: VaultIndex,
    files: Seq<ScannedFile>,
    later: Seq<ScannedFile>,
    decls: Seq<(Seq<char>, DeclView)>,
    exclude: &ExcludeMatcher,
    path: Seq<char>,
)
    requires
        is_catalog(catalog, files, decls, exclude),
        note_files(exclude, files).no_duplicates(),
        note_files(exclude, later).no_duplicates(),
        note_files(exclude, files).len() < usize::MAX,
        note_files(exclude, later).len() <= usize::MAX,
        forall|x: Seq<char>| #[trigger]
            note_files(exclude, later).contains(x) <==> note_files(exclude, files).contains(x) || x
                == path,
    ensures
        exists|i: int|
            0 <= i < note_files(exclude, later).len() && (#[trigger] catalog_notes(
                catalog.root@,
                claim_order(decls, note_files(exclude, later)),
                decls,
            )[i]).file == path && catalog_notes(
                catalog.root@,
                claim_order(decls, note_files(exclude, later)),
                decls,
            )[i].slug == slug_at(catalog, path, None),
{
    let notes = catalog.by_slug@;
    let others = other_paths(notes, None, path);
    let listed = others.push(path);
    lemma_catalog_paths(catalog, files, decls, exclude);
    lemma_other_paths(notes, None, path);
    lemma_other_paths_distinct(notes, None, path);
    lemma_push_contains(others, path);
    assert forall|x: Seq<char>| #[trigger]
        note_files(exclude, later).contains(x) <==> listed.contains(x) by {
        assert(listed.contains(x) <==> others.contains(x) || x == path);
        assert(note_files(exclude, later).contains(x) <==> note_files(exclude, files).contains(x)
            || x == path);
    }
    lemma_slug_in_scan(catalog.root@, decls, note_files(exclude, later), listed, path);
}

/// A note that is moved is indexed, by a later scan that finds it at its new
/// path beside the same other notes, under the slug that it was given when it
/// was moved.
pub proof fn moved_note_keeps_its_slug(
    catalog: VaultIndex,
    files: Seq<ScannedFile>,
    later: Seq<ScannedFile>,
    decls: Seq<(Seq<char>, DeclView)>,
    exclude: &ExcludeMatcher,
    m: int,
    path: Seq<char>,
)
    requires
        is_catalog(catalog, files, decls, exclude),
        note_files(exclude, files).no_duplicates(),
        note_files(exclude, later).no_duplicates(),
        note_files(exclude, files).len() < usize::MAX,
        note_files(exclude, later).len() <= usize::MAX,
        0 <= m < catalog.by_slug@.len(),
        forall|x: Seq<char>| #[trigger]
            note_files(exclude, later).contains(x) <==> (note_files(exclude, files).contains(x) && x
                != catalog.by_slug@[m].file@) || x == path,
    ensures
        exists|i: int|
            0 <= i < note_files(exclude, later).len() && (#[trigger] catalog_notes(
                catalog.root@,
                claim_order(decls, note_files(exclude, later)),
                decls,
            )[i]).file == path && catalog_notes(
                catalog.root@,
                claim_order(decls, note_files(exclude, later)),
                decls,
            )[i].slug == slug_at(catalog, path, Some(catalog.by_slug@[m].slug@)),
{
    let notes = catalog.by_slug@;
    let moved = Some(notes[m].slug@);
    let others = other_paths(notes, moved, path);
    let listed = others.push(path);
    lemma_catalog_paths(catalog, files, decls, exclude);
    lemma_other_paths(notes, moved, path);
    lemma_other_paths_distinct(notes, moved, path);
    lemma_push_contains(others, path);
    assert forall|x: Seq<char>| #[trigger]
        note_files(exclude, later).contains(x) <==> listed.contains(x) by {
        assert(listed.contains(x) <==> others.contains(x) || x == path);
        assert(note_files(exclude, later).contains(x) <==> (note_files(exclude, files).contains(x)
            && x != notes[m].file@) || x == path);
        if x != path && note_files(exclude, files).contains(x) && x != notes[m].file@ {
            let i = choose|i: int| 0 <= i < notes.len() && (#[trigger] notes[i]).file@ == x;
            assert(notes[i].slug@ != notes[m].slug@);
            assert(others.contains(x));
        }
        if others.contains(x) {
            let i = choose|i: int|
                0 <= i < notes.len() && (#[trigger] notes[i]).file@ == x && moved != Some(
                    notes[i].slug@,
                );
            assert(i != m);
            assert(notes[i].file@ != notes[m].file@);
        }
    }
    lemma_slug_in_scan(catalog.root@, decls, note_files(exclude, later), listed, path);
}

proof fn lemma_push_contains(v: Seq<Seq<char>>, last: Seq<char>)
    ensures
        forall|x: Seq<char>| #[trigger] v.push(last).contains(x) <==> v.contains(x) || x == last,
        !v.contains(last) && v.no_duplicates() ==> v.push(last).no_duplicates(),
{
    let w = v.push(last);
    assert forall|x: Seq<char>| #[trigger] w.contains(x) <==> v.contains(x) || x == last by {
        if w.contains(x) {
            let k = choose|k: int| 0 <= k < w.len() && w[k] == x;
            if k < v.len() {
                assert(v[k] == x);
            }
        }
        if v.contains(x) {
            let k = choose|k: int| 0 <= k < v.len() && v[k] == x;
            assert(w[k] == x);
        }
        assert(w[v.len() as int] == last);
    }
    if !v.contains(last) && v.no_duplicates() {
        assert forall|a: int, b: int| 0 <= a < w.len() && 0 <= b < w.len() && a != b implies w[a]
            != w[b] by {
            if a < v.len() {
                assert(v[a] == w[a]);
            }
            if b < v.len() {
                assert(v[b] == w[b]);
            }
        }
    }
}

// ---------------------------------------------------------------------------
// Default notes and layered ones
// ---------------------------------------------------------------------------

/// Where the notes on the default surface end, in an order of claims.
proof fn lemma_default_notes_first(
    decls: Seq<(Seq<char>, DeclView)>,
    paths: Seq<Seq<char>>,
) -> (n: int)
    requires
        strictly_claimed(decls, paths),
    ensures
        0 <= n <= paths.len(),
        forall|i: int|
            0 <= i < paths.len() ==> (i < n <==> layer_of(
                decls,
                note_relative(#[trigger] paths[i]),
            ) is None),
    decreases paths.len(),
{
    if paths.len() == 0 {
        0
    } else {
        let front = paths.drop_last();
        let last = paths.len() - 1;
        let n = lemma_default_notes_first(decls, front);
        if layer_of(decls, note_relative(paths[last])) is None {
            assert forall|i: int| 0 <= i < last implies layer_of(
                decls,
                note_relative(#[trigger] paths[i]),
            ) is None by {
                assert(lex_lt(claim_key(decls, paths[i]), claim_key(decls, paths[last])));
                assert(claim_key(decls, paths[i])[0] <= claim_key(decls, paths[last])[0]);
            }
            if n < last {
                assert(front[n] == paths[n]);
            }
            paths.len() as int
        } else {
            assert forall|i: int| 0 <= i < paths.len() implies (i < n <==> layer_of(
                decls,
                note_relative(#[trigger] paths[i]),
            ) is None) by {
                if i < last {
                    assert(front[i] == paths[i]);
                }
            }
            n
        }
    }
}

/// A note on the default surface has the slug that it would have without the
/// layered notes: none of those takes a slug from it.
pub proof fn layered_notes_take_no_default_slug(
    root: Seq<char>,
    decls: Seq<(Seq<char>, DeclView)>,
    paths: Seq<Seq<char>>,
    plain: Seq<Seq<char>>,
)
    requires
        paths.no_duplicates(),
        plain.no_duplicates(),
        paths.len() <= usize::MAX,
        plain.len() <= usize::MAX,
        forall|x: Seq<char>| #[trigger]
            plain.contains(x) <==> paths.contains(x) && layer_of(decls, note_relative(x)) is None,
    ensures
        plain.len() <= paths.len(),
        catalog_notes(root, claim_order(decls, paths), decls).take(plain.len() as int) == catalog_notes(
            root,
            claim_order(decls, plain),
            decls,
        ),
{
    lemma_claim_order(decls, paths);
    lemma_claim_order(decls, plain);
    let all = claim_order(decls, paths);
    let few = claim_order(decls, plain);
    let n = lemma_default_notes_first(decls, all);
    let first = all.take(n);
    assert forall|i: int, j: int| 0 <= i < j < first.len() implies lex_lt(
        claim_key(decls, #[trigger] first[i]),
        claim_key(decls, #[trigger] first[j]),
    ) by {
        assert(first[i] == all[i] && first[j] == all[j]);
    }
    assert forall|x: Seq<char>| #[trigger] first.contains(x) <==> few.contains(x) by {
        if first.contains(x) {
            let i = choose|i: int| 0 <= i < first.len() && first[i] == x;
            assert(all[i] == x);
            assert(all.contains(x));
            assert(plain.contains(x));
        }
        if few.contains(x) {
            assert(plain.contains(x));
            assert(all.contains(x));
            let i = choose|i: int| 0 <= i < all.len() && all[i] == x;
            assert(first[i] == x);
        }
    }
    lemma_strict_order_unique(decls, first, few);
    catalog_slugs_are_unique(root, all, decls);
    if n < all.len() {
        lemma_catalog_prefix(root, all, decls, n);
    } else {
        assert(first =~= all);
        let notes = catalog_notes(root, all, decls);
        assert(notes.take(n) =~= notes);
    }
}

} // verus!
