//! Where the rewritten links to a moved note lead.

use vstd::prelude::*;

use crate::asset_plan::index_entries;
use crate::claims::lemma_catalog_paths;
use crate::exclude::ExcludeMatcher;
use crate::index::{
    every_note_is_listed_once, file_title, is_catalog, linked_note, listed_notes, note_files,
    note_relative, note_with_slug, path_table, title_table, ScannedFile,
};
use crate::layers::DeclView;
use crate::paths::{
    body_target, closes_target, file_name, lemma_closer_is_first, lemma_closer_is_found,
    link_target, named_parts, next_closer, path_extension, strip_md, target_end, title_key,
};
use crate::rewrites::{backlink_target, bare_title, title_taken};
use crate::tables::{index_of, keys_of, lemma_index_from, lemma_index_of, lookup};
use crate::text::{
    after_last, ends_with, last_start, lemma_last_start, lemma_next_char, lemma_trim,
    lemma_trim_end, lemma_trim_start, next_char, replace_char, split, split_from, strs, trim,
    trim_start, whitespace,
};
use crate::types::{slugs_of, NoteEntry, VaultIndex};

verus! {

// ---------------------------------------------------------------------------
// Looking notes up
// ---------------------------------------------------------------------------

/// The text is a link target as it stands: nothing of it is an alias, an anchor
/// or an extension.
pub open spec fn plain_target(target: Seq<char>) -> bool {
    body_target(target, true) == target && link_target(target) == target
}

/// The `k`th note is the first that carries its path.
pub open spec fn found_by_path(index: VaultIndex, k: int, target: Seq<char>) -> bool {
    &&& index.by_slug@[k].relative_path@ == target
    &&& forall|j: int|
        0 <= j < k ==> title_key((#[trigger] index.by_slug@[j]).relative_path@) != title_key(target)
}

/// The `k`th note is the only one that carries a title, and no other stands at
/// the path of that name.
pub open spec fn found_by_title(index: VaultIndex, k: int, bare: Seq<char>) -> bool {
    &&& title_key(index.by_slug@[k].title@) == title_key(bare)
    &&& forall|j: int|
        0 <= j < index.by_slug@.len() && j != k ==> title_key(
            (#[trigger] index.by_slug@[j]).title@,
        ) != title_key(bare) && title_key(index.by_slug@[j].relative_path@) != title_key(bare)
}

proof fn lemma_path_lookup(index: VaultIndex, key: Seq<char>)
    requires
        path_table(index.by_slug@, index.by_path_title@),
    ensures
        match lookup(index.by_path_title@, key) {
            Some(slug) => exists|j: int|
                0 <= j < index.by_slug@.len() && title_key(
                    (#[trigger] index.by_slug@[j]).relative_path@,
                ) == key && index.by_slug@[j].slug@ == slug && (forall|i: int|
                    0 <= i < j ==> title_key((#[trigger] index.by_slug@[i]).relative_path@) != key),
            None => forall|j: int|
                0 <= j < index.by_slug@.len() ==> title_key(
                    (#[trigger] index.by_slug@[j]).relative_path@,
                ) != key,
        },
{
    let keys = keys_of(index.by_path_title@);
    lemma_index_from(keys, key, 0);
    let j = index_of(keys, key);
    assert forall|i: int| 0 <= i < index.by_slug@.len() implies keys[i] == title_key(
        (#[trigger] index.by_slug@[i]).relative_path@,
    ) by {
        assert(index.by_path_title@[i].0@ == title_key(index.by_slug@[i].relative_path@));
    }
    if j < keys.len() {
        assert(index.by_path_title@[j].1@ == index.by_slug@[j].slug@);
        assert(title_key(index.by_slug@[j].relative_path@) == key);
    }
}

proof fn lemma_title_lookup(index: VaultIndex, key: Seq<char>)
    requires
        title_table(index.by_slug@, index.by_title@),
    ensures
        match lookup(index.by_title@, key) {
            Some(slug) => exists|j: int|
                0 <= j < index.by_slug@.len() && title_key((#[trigger] index.by_slug@[j]).title@)
                    == key && index.by_slug@[j].slug@ == slug,
            None => forall|j: int|
                0 <= j < index.by_slug@.len() ==> title_key((#[trigger] index.by_slug@[j]).title@)
                    != key,
        },
{
    let keys = keys_of(index.by_title@);
    lemma_index_from(keys, key, 0);
    let j = index_of(keys, key);
    assert forall|i: int| 0 <= i < index.by_slug@.len() implies keys[i] == title_key(
        (#[trigger] index.by_slug@[i]).title@,
    ) by {
        assert(index.by_title@[i].0@ == title_key(index.by_slug@[i].title@));
    }
    if j < keys.len() {
        assert(index.by_title@[j].1@ == index.by_slug@[j].slug@);
        assert(title_key(index.by_slug@[j].title@) == key);
    }
}

proof fn lemma_own_slug(notes: Seq<NoteEntry>, k: int)
    requires
        0 <= k < notes.len(),
        slugs_of(notes).no_duplicates(),
    ensures
        note_with_slug(notes, notes[k].slug@) == Some(&notes[k]),
{
    let slugs = slugs_of(notes);
    lemma_index_of(slugs, notes[k].slug@);
    assert(slugs[k] == notes[k].slug@);
    assert(slugs.contains(slugs[k]));
}

proof fn lemma_path_leads(index: VaultIndex, k: int, target: Seq<char>)
    requires
        path_table(index.by_slug@, index.by_path_title@),
        slugs_of(index.by_slug@).no_duplicates(),
        0 <= k < index.by_slug@.len(),
        plain_target(target),
        found_by_path(index, k, target),
    ensures
        linked_note(index, target) == Some(&index.by_slug@[k]),
{
    lemma_path_lookup(index, title_key(target));
    assert(title_key(index.by_slug@[k].relative_path@) == title_key(target));
    let slug = lookup(index.by_path_title@, title_key(target))->0;
    let j = choose|j: int|
        0 <= j < index.by_slug@.len() && title_key((#[trigger] index.by_slug@[j]).relative_path@)
            == title_key(target) && index.by_slug@[j].slug@ == slug && (forall|i: int|
            0 <= i < j ==> title_key((#[trigger] index.by_slug@[i]).relative_path@) != title_key(
                target,
            ));
    assert(j == k) by {
        if j < k {
            assert(title_key(index.by_slug@[j].relative_path@) != title_key(target));
        } else if k < j {
            assert(title_key(index.by_slug@[k].relative_path@) != title_key(target));
        }
    }
    lemma_own_slug(index.by_slug@, k);
}

proof fn lemma_title_leads(index: VaultIndex, k: int, bare: Seq<char>)
    requires
        path_table(index.by_slug@, index.by_path_title@),
        title_table(index.by_slug@, index.by_title@),
        slugs_of(index.by_slug@).no_duplicates(),
        0 <= k < index.by_slug@.len(),
        link_target(body_target(bare, true)) == trim(bare),
        !bare.contains('/'),
        found_by_title(index, k, bare),
    ensures
        linked_note(index, bare) == Some(&index.by_slug@[k]),
{
    let t = trim(bare);
    lemma_trim(bare);
    assert(title_key(t) == title_key(bare));
    lemma_path_lookup(index, title_key(bare));
    lemma_title_lookup(index, title_key(bare));
    lemma_own_slug(index.by_slug@, k);
    assert(after_last(t, '/') == t) by {
        lemma_last_start(t, '/');
        let n = last_start(t, '/');
        if n > 0 {
            assert(t.contains(t[n - 1]));
        }
        assert(t.skip(0) =~= t);
    }
    match lookup(index.by_path_title@, title_key(bare)) {
        Some(slug) => {
            let j = choose|j: int|
                0 <= j < index.by_slug@.len() && title_key(
                    (#[trigger] index.by_slug@[j]).relative_path@,
                ) == title_key(bare) && index.by_slug@[j].slug@ == slug && (forall|i: int|
                    0 <= i < j ==> title_key((#[trigger] index.by_slug@[i]).relative_path@)
                        != title_key(bare));
            assert(j == k);
        },
        None => {
            assert(title_key(index.by_slug@[k].title@) == title_key(bare));
            let slug = lookup(index.by_title@, title_key(bare))->0;
            let j = choose|j: int|
                0 <= j < index.by_slug@.len() && title_key((#[trigger] index.by_slug@[j]).title@)
                    == title_key(bare) && index.by_slug@[j].slug@ == slug;
            assert(j == k);
        },
    }
}

// ---------------------------------------------------------------------------
// Titles and paths
// ---------------------------------------------------------------------------

proof fn lemma_split_last(s: Seq<char>, i: int, c: char)
    requires
        0 <= i <= s.len(),
    ensures
        split_from(s, i, c).len() > 0,
        split_from(s, i, c).last() == after_last(s.skip(i), c),
    decreases s.len() - i,
{
    lemma_next_char(s, i, c);
    let n = next_char(s, i, c);
    if n < s.len() {
        lemma_split_last(s, n + 1, c);
        lemma_after_last_skip(s.skip(i), n - i, c);
        assert(s.skip(i).skip(n - i + 1) =~= s.skip(n + 1));
    } else {
        lemma_after_last_none(s.skip(i), c);
        assert(s.subrange(i, n) =~= s.skip(i));
    }
}

proof fn lemma_after_last_none(s: Seq<char>, c: char)
    requires
        forall|k: int| 0 <= k < s.len() ==> s[k] != c,
    ensures
        after_last(s, c) == s,
    decreases s.len(),
{
    if s.len() > 0 {
        lemma_after_last_none(s.drop_last(), c);
        assert(s =~= s.drop_last().push(s.last()));
    }
}

proof fn lemma_after_last_skip(s: Seq<char>, k: int, c: char)
    requires
        0 <= k < s.len(),
        s[k] == c,
    ensures
        after_last(s, c) == after_last(s.skip(k + 1), c),
    decreases s.len(),
{
    if s.last() != c {
        lemma_after_last_skip(s.drop_last(), k, c);
        assert(s.drop_last().skip(k + 1) =~= s.skip(k + 1).drop_last());
    } else if k + 1 < s.len() {
        assert(s.skip(k + 1).last() == c);
    } else {
        assert(s.skip(k + 1) =~= seq![]);
    }
}

proof fn lemma_last_start_dot_md(head: Seq<char>)
    ensures
        last_start(head + seq!['.', 'm', 'd'], '.') == head.len() + 1,
{
    reveal_with_fuel(last_start, 4);
    let s = head + seq!['.', 'm', 'd'];
    assert(s.drop_last().drop_last() =~= head.push('.'));
    assert(s.drop_last().last() == 'm');
}

/// A note's title is the last part of its relative path.
proof fn lemma_title_of_relative(path: Seq<char>)
    requires
        ends_with(path, ".md"@),
        path_extension(path) == Some("md"@),
    ensures
        file_title(path) == after_last(strip_md(path), '/'),
{
    reveal_strlit(".md");
    reveal_strlit("md");
    let md = seq!['.', 'm', 'd'];
    assert(".md"@ =~= md);
    let head = path.take(path.len() - 3);
    assert(path =~= head + md);
    let stem = after_last(head, '/');
    reveal_with_fuel(after_last, 4);
    assert(path.drop_last().drop_last().drop_last() =~= head);
    assert(after_last(path, '/') =~= stem + md);
    lemma_split_last(path, 0, '/');
    assert(path.skip(0) =~= path);
    let parts = split(path, '/');
    let name = parts.last();
    assert(name == stem + md);
    assert(name.len() >= 3);
    assert(named_parts(parts).last() == name);
    assert(file_name(path) == Some(name)) by {
        if name == seq!['.', '.'] {
            assert(name.len() == 2);
        }
    }
    lemma_last_start_dot_md(stem);
    assert(name.take(stem.len() as int) =~= stem);
}

/// A note's file has the extension of one.
proof fn lemma_note_extension(exclude: &ExcludeMatcher, files: Seq<ScannedFile>)
    ensures
        forall|x: Seq<char>| #[trigger]
            note_files(exclude, files).contains(x) ==> path_extension(x) == Some("md"@),
    decreases files.len(),
{
    if files.len() > 0 {
        lemma_note_extension(exclude, files.drop_last());
        let front = note_files(exclude, files.drop_last());
        let all = note_files(exclude, files);
        assert forall|x: Seq<char>| #[trigger] all.contains(x) implies path_extension(x) == Some(
            "md"@,
        ) by {
            let i = choose|i: int| 0 <= i < all.len() && all[i] == x;
            if i < front.len() {
                assert(front[i] == x);
                assert(front.contains(x));
            }
        }
    }
}

/// A note outside every folder has its path for a title.
proof fn lemma_title_without_folder(path: Seq<char>)
    requires
        path_extension(path) == Some("md"@),
        !note_relative(path).contains('/'),
    ensures
        file_title(path) == note_relative(path),
{
    reveal_strlit(".md");
    reveal_strlit("md");
    let slashed = replace_char(path, '\\', '/');
    let md = seq!['.', 'm', 'd'];
    assert(".md"@ =~= md);
    // The last three characters of a path with that extension are no slashes.
    assert forall|k: int| 0 <= k < slashed.len() implies slashed[k] != '/' by {
        if slashed[k] == '/' {
            if k < note_relative(path).len() {
                assert(note_relative(path)[k] == '/');
            } else {
                assert(ends_with(slashed, md));
                assert(slashed.skip(slashed.len() - 3) =~= md);
                assert(slashed.skip(slashed.len() - 3)[k - (slashed.len() - 3)] == '/');
            }
        }
    }
    assert(slashed =~= path) by {
        assert forall|k: int| 0 <= k < path.len() implies slashed[k] == path[k] by {
            assert(slashed[k] != '/');
        }
    }
    lemma_next_char(path, 0, '/');
    assert(next_char(path, 0, '/') == path.len());
    assert(path.subrange(0, path.len() as int) =~= path);
    assert(split(path, '/') =~= seq![path]);
    reveal_with_fuel(named_parts, 2);
    assert(split(path, '/').drop_last() =~= seq![]);
    let n = last_start(path, '.');
    lemma_last_start(path, '.');
    assert(file_name(path) == Some(path));
    assert(path.skip(n) == "md"@);
    assert(path.skip(n).len() == 2);
    assert(path[n - 1] == '.');
    assert(path[n] == "md"@[0]);
    assert(path[n + 1] == "md"@[1]);
    assert(path.skip(n - 1) =~= md);
    assert(ends_with(path, md));
    assert(path.take(n - 1) =~= path.take(path.len() - 3));
}

/// The last part of a plain target is one.
proof fn lemma_bare_reads(target: Seq<char>)
    requires
        plain_target(target),
    ensures
        ({
            let bare = after_last(target, '/');
            &&& link_target(body_target(bare, true)) == trim(bare)
            &&& !bare.contains('/')
        }),
        !target.contains('\\'),
{
    let bare = after_last(target, '/');
    lemma_last_start(target, '/');
    let n = last_start(target, '/');
    assert(bare == target.skip(n));
    // Nothing closes the target.
    let e = target_end(target, true);
    lemma_closer_is_found(target, 0, true);
    lemma_trim(target.take(e));
    assert(e == target.len());
    lemma_no_closer(target, 0);
    assert forall|k: int| 0 <= k < bare.len() implies !closes_target(#[trigger] bare[k], true) by {
        assert(bare[k] == target[n + k]);
    }
    lemma_closer_is_first(bare, 0, bare.len() as int, true);
    assert(bare.take(bare.len() as int) =~= bare);
    assert(target.take(e) =~= target);
    assert(body_target(bare, true) == trim(bare));
    lemma_trim(bare);
    // The target ends in no white space and in no extension.
    lemma_trim(target);
    let stripped = strip_md(trim(target));
    assert(replace_char(stripped, '\\', '/').len() == stripped.len());
    reveal_strlit(".md");
    assert(!ends_with(target, ".md"@));
    let t = trim(bare);
    let u = trim_start(bare);
    lemma_trim_start(bare);
    lemma_trim_end(u);
    lemma_trim_start(target);
    lemma_trim_end(trim_start(target));
    if u.len() > 0 {
        assert(u.last() == bare.last());
        assert(bare.last() == target.last());
        assert(!whitespace(target.last()));
    }
    assert(t == u);
    assert(!ends_with(t, ".md"@)) by {
        if ends_with(t, ".md"@) {
            assert(t.skip(t.len() - 3) =~= target.skip(target.len() - 3));
        }
    }
    assert forall|k: int| 0 <= k < target.len() implies target[k] != '\\' by {
        assert(target[k] == replace_char(stripped, '\\', '/')[k]);
    }
    assert forall|k: int| 0 <= k < t.len() implies t[k] != '\\' by {
        assert(t[k] == bare[bare.len() - u.len() + k]);
        assert(t[k] == target[n + bare.len() - u.len() + k]);
    }
    assert(replace_char(t, '\\', '/') =~= t);
    assert(!bare.contains('/')) by {
        if bare.contains('/') {
            let k = choose|k: int| 0 <= k < bare.len() && bare[k] == '/';
            assert(target[n + k] == '/');
        }
    }
}

proof fn lemma_no_closer(body: Seq<char>, i: int)
    requires
        0 <= i <= body.len(),
        next_closer(body, i, true) == body.len(),
    ensures
        forall|k: int| i <= k < body.len() ==> !closes_target(#[trigger] body[k], true),
    decreases body.len() - i,
{
    if i < body.len() {
        lemma_no_closer(body, i + 1);
    }
}

// ---------------------------------------------------------------------------
// The law
// ---------------------------------------------------------------------------

proof fn lemma_listed_note(notes: Seq<NoteEntry>, slugs: Seq<Seq<char>>, i: int)
    requires
        slugs_of(notes).no_duplicates(),
        0 <= i < notes.len(),
        slugs.contains(notes[i].slug@),
    ensures
        exists|e: int|
            0 <= e < listed_notes(notes, slugs).len() && #[trigger] listed_notes(notes, slugs)[e]
                == notes[i],
    decreases slugs.len(),
{
    let slug = notes[i].slug@;
    let all = listed_notes(notes, slugs);
    let front = slugs.drop_last();
    let prev = listed_notes(notes, front);
    if slugs.last() == slug {
        lemma_own_slug(notes, i);
        assert(all[prev.len() as int] == notes[i]);
    } else {
        let p = choose|p: int| 0 <= p < slugs.len() && slugs[p] == slug;
        assert(front[p] == slug);
        lemma_listed_note(notes, front, i);
        let e = choose|e: int| 0 <= e < prev.len() && #[trigger] prev[e] == notes[i];
        assert(all[e] == notes[i]);
    }
}

/// Where another note of the later catalog has its place in the earlier one.
proof fn lemma_other_note(
    index: VaultIndex,
    later: VaultIndex,
    files: Seq<ScannedFile>,
    later_files: Seq<ScannedFile>,
    decls: Seq<(Seq<char>, DeclView)>,
    exclude: &ExcludeMatcher,
    m: int,
    file: Seq<char>,
    bare: Seq<char>,
    k: int,
    j: int,
)
    requires
        is_catalog(index, files, decls, exclude),
        is_catalog(later, later_files, decls, exclude),
        note_files(exclude, files).no_duplicates(),
        note_files(exclude, later_files).no_duplicates(),
        note_files(exclude, files).len() <= usize::MAX,
        note_files(exclude, later_files).len() <= usize::MAX,
        0 <= m < index.by_slug@.len(),
        moved_files(
            note_files(exclude, files),
            note_files(exclude, later_files),
            index.by_slug@[m].file@,
            file,
        ),
        !title_taken(index_entries(index), index.by_slug@[m].slug@, bare),
        0 <= k < later.by_slug@.len(),
        0 <= j < later.by_slug@.len(),
        j != k,
        later.by_slug@[k].file@ == file,
        later.by_slug@[k].title@ == bare,
        !bare.contains('/'),
    ensures
        title_key(later.by_slug@[j].title@) != title_key(bare),
        title_key(later.by_slug@[j].relative_path@) != title_key(bare),
{
    lemma_catalog_paths(index, files, decls, exclude);
    lemma_catalog_paths(later, later_files, decls, exclude);
    let path = later.by_slug@[j].file@;
    assert(note_files(exclude, later_files).contains(path));
    assert(path != file) by {
        if j < k {
            assert(later.by_slug@[j].file@ != later.by_slug@[k].file@);
        } else {
            assert(later.by_slug@[k].file@ != later.by_slug@[j].file@);
        }
    }
    assert(note_files(exclude, files).contains(path));
    let i = choose|i: int| 0 <= i < index.by_slug@.len() && (#[trigger] index.by_slug@[i]).file@
        == path;
    assert(index.by_slug@[i].slug@ != index.by_slug@[m].slug@);
    every_note_is_listed_once(index, files, decls, exclude);
    lemma_distinct_slugs(index, files, decls, exclude);
    let slugs = slugs_of(index.by_slug@);
    assert(slugs[i] == index.by_slug@[i].slug@);
    assert(slugs.contains(index.by_slug@[i].slug@));
    assert(strs(index.ordered_slugs@).contains(index.by_slug@[i].slug@));
    lemma_listed_note(index.by_slug@, strs(index.ordered_slugs@), i);
    let listed = listed_notes(index.by_slug@, strs(index.ordered_slugs@));
    let e = choose|e: int| 0 <= e < listed.len() && #[trigger] listed[e] == index.by_slug@[i];
    assert(index_entries(index)[e] == index.by_slug@[i]@);
    assert(later.by_slug@[j].title@ == index.by_slug@[i].title@);
    assert(title_key(later.by_slug@[j].title@) != title_key(bare));
    if title_key(later.by_slug@[j].relative_path@) == title_key(bare) {
        assert(later.by_path_title@[j].0@ == title_key(bare));
        assert(later.by_title@[k].0@ == title_key(bare));
        assert(!later.by_slug@[j].relative_path@.contains('/'));
        lemma_note_extension(exclude, later_files);
        lemma_title_without_folder(path);
    }
}

proof fn lemma_distinct_slugs(
    index: VaultIndex,
    files: Seq<ScannedFile>,
    decls: Seq<(Seq<char>, DeclView)>,
    exclude: &ExcludeMatcher,
)
    requires
        is_catalog(index, files, decls, exclude),
        note_files(exclude, files).no_duplicates(),
        note_files(exclude, files).len() <= usize::MAX,
    ensures
        slugs_of(index.by_slug@).no_duplicates(),
{
    lemma_catalog_paths(index, files, decls, exclude);
    let slugs = slugs_of(index.by_slug@);
    assert forall|i: int, j: int| 0 <= i < slugs.len() && 0 <= j < slugs.len() && i != j implies
        slugs[i] != slugs[j] by {
        if i < j {
            assert(index.by_slug@[i].slug@ != index.by_slug@[j].slug@);
        } else {
            assert(index.by_slug@[j].slug@ != index.by_slug@[i].slug@);
        }
    }
}

/// The later notes are the earlier ones, with the one at `source` moved to
/// `file`.
pub open spec fn moved_files(
    notes: Seq<Seq<char>>,
    later: Seq<Seq<char>>,
    source: Seq<char>,
    file: Seq<char>,
) -> bool {
    forall|x: Seq<char>| #[trigger]
        later.contains(x) <==> (notes.contains(x) && x != source) || x == file
}

/// A link that led to a note leads to it again when the note has moved and the
/// link is rewritten, to the note's bare title or to its path: in the catalog of
/// the moved files it names the note at its new file. Left out are a new path
/// that no link can spell, and a new path whose normal form an earlier note of
/// that catalog has too, since a link leads to the first that has it.
pub proof fn link_to_a_moved_note_leads_to_it(
    index: VaultIndex,
    later: VaultIndex,
    files: Seq<ScannedFile>,
    later_files: Seq<ScannedFile>,
    decls: Seq<(Seq<char>, DeclView)>,
    exclude: &ExcludeMatcher,
    m: int,
    file: Seq<char>,
    target: Seq<char>,
)
    requires
        is_catalog(index, files, decls, exclude),
        is_catalog(later, later_files, decls, exclude),
        note_files(exclude, files).no_duplicates(),
        note_files(exclude, later_files).no_duplicates(),
        note_files(exclude, files).len() <= usize::MAX,
        note_files(exclude, later_files).len() <= usize::MAX,
        0 <= m < index.by_slug@.len(),
        moved_files(
            note_files(exclude, files),
            note_files(exclude, later_files),
            index.by_slug@[m].file@,
            file,
        ),
        ends_with(file, ".md"@),
        plain_target(strip_md(file)),
        forall|i: int, k: int|
            0 <= i < k < later.by_slug@.len() && (#[trigger] later.by_slug@[k]).file@ == file
                ==> title_key((#[trigger] later.by_slug@[i]).relative_path@) != title_key(
                strip_md(file),
            ),
        linked_note(index, target) == Some(&index.by_slug@[m]),
    ensures
        ({
            let slug = index.by_slug@[m].slug@;
            let bare = bare_title(index_entries(index), slug, strip_md(file));
            let new = backlink_target(index, slug, bare, Some(strip_md(file)))(target);
            new is Some && linked_note(later, new->0) is Some && linked_note(later, new->0)->0.file@
                == file
        }),
{
    let nt = strip_md(file);
    let slug = index.by_slug@[m].slug@;
    let bare = bare_title(index_entries(index), slug, nt);
    lemma_catalog_paths(later, later_files, decls, exclude);
    lemma_distinct_slugs(later, later_files, decls, exclude);
    assert(note_files(exclude, later_files).contains(file));
    let k = choose|k: int| 0 <= k < later.by_slug@.len() && (#[trigger] later.by_slug@[k]).file@
        == file;
    lemma_note_extension(exclude, later_files);
    lemma_bare_reads(nt);
    reveal_strlit(".md");
    assert(replace_char(file, '\\', '/') =~= file) by {
        assert forall|i: int| 0 <= i < file.len() implies file[i] != '\\' by {
            if i < nt.len() {
                assert(file[i] == nt[i]);
                assert(nt.contains(nt[i]));
            } else {
                assert(file.skip(file.len() - 3)[i - (file.len() - 3)] == file[i]);
            }
        }
    }
    assert(later.by_slug@[k].relative_path@ == nt);
    assert(found_by_path(later, k, nt));
    lemma_path_leads(later, k, nt);
    if bare is Some {
        lemma_title_of_relative(file);
        let b = bare->0;
        assert(later.by_slug@[k].title@ == b);
        assert forall|j: int| 0 <= j < later.by_slug@.len() && j != k implies title_key(
            (#[trigger] later.by_slug@[j]).title@,
        ) != title_key(b) && title_key(later.by_slug@[j].relative_path@) != title_key(b) by {
            lemma_other_note(
                index, later, files, later_files, decls, exclude, m, file, b, k, j,
            );
        }
        lemma_title_leads(later, k, b);
    }
}

} // verus!
