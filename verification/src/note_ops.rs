//! The note operations: what each one checks, and what it writes and moves.
//!
//! An operation is computed from what was read of the vault. The result says
//! which files to write or move; nothing here touches the file system.

use vstd::prelude::*;
use vstd::slice::slice_to_vec;

use crate::asset_plan::{
    asset_move_plan, asset_result, every_moved_file_has_its_folder, index_entries, planned_assets,
    reference_count, MoveContext,
};
use crate::files::{existing, fact_of, find_fact, trash_note, unique_trash_note_path, FileFact};
use crate::frontmatter::block_mapping;
use crate::frontmatter_edit::edited_block;
use crate::hash::{content_hash, text_hash};
use crate::index::{
    all_under_root, catalog_notes, catalog_slugs_are_unique, claim_keys, claim_order,
    lemma_catalog_prefix, make_note, name_under_root, root_joined, sort_claims, under_root,
    view_slugs,
};
use crate::layers::{layer_of, pair_views, DeclView};
use crate::note_text::{
    block_span, block_text, clean_text, deleting_created_properties_restores_the_text, deletions,
    frontmatter_warnings, merge_properties, names_only, place_section, prepare_note_content,
    quality_warnings, replace_string, replaced, warnings_of, with_properties, with_section,
    SectionMode,
};
use crate::paths::{
    leading_slashes_are_dropped, md_stripped, named_parts, named_parts_of_two_lists, strip_md,
};
use crate::rewrites::{
    backlink_rewrite_plan, merge_rewrites, merged_plan, moved_view, planned_backlinks, MovedTo,
};
use crate::tables::{clone_strings, NoteBody};
use crate::text::{
    after_last, chars_eq, ends_with, from_chars, has_suffix, has_text, join, joined,
    lemma_last_start, lemma_stable_order_exists, lemma_strs_push, lemma_texts_push, listed,
    opt_text, pieces_end_at_separators, pieces_of_two_texts, prefix_of, push_all, push_str,
    replace_char, sort_order, split, split_on, str_eq, str_owned, strs, tail_after_last, texts,
    to_chars, trim, trim_takes_the_white_space_around, trimmed, trimmed_texts, two_lists_are_joined,
    whitespace, with_char_replaced,
};
use crate::types::{lemma_notes_push, notes_view, slugs_of, NoteEntry, NoteView, VaultIndex};
use crate::write_types::{
    await_folder, clone_error, folder_stop, made_views, move_views, rewrite_views, AssetMove,
    ErrorView, OutcomeView, PlanStop, StopView, TextRewrite, WriteError, WriteOutcome,
};

verus! {

// ---------------------------------------------------------------------------
// Paths of notes
// ---------------------------------------------------------------------------

/// The vault-relative path a caller names, with `/` between plain parts.
pub open spec fn vault_path(raw: Seq<char>) -> Result<Seq<char>, ErrorView> {
    let s = replace_char(trim(raw), '\\', '/');
    let parts = split(s, '/');
    if s.len() == 0 || named_parts(parts).len() == 0 {
        Err(ErrorView::InvalidInput("path cannot be empty"@))
    } else if s[0] == '/' {
        Err(ErrorView::InvalidInput("path must be relative to the vault"@))
    } else if parts.contains(seq!['.', '.']) {
        Err(ErrorView::InvalidInput("path cannot escape the vault"@))
    } else {
        Ok(join(named_parts(parts), seq!['/']))
    }
}

pub open spec fn path_result(r: Result<Vec<char>, WriteError>) -> Result<Seq<char>, ErrorView> {
    match r {
        Ok(v) => Ok(v@),
        Err(e) => Err(e@),
    }
}

pub fn normalize_vault_path(raw: &str) -> (r: Result<Vec<char>, WriteError>)
    ensures
        path_result(r) == vault_path(raw@),
{
    let chars = to_chars(raw);
    let s = with_char_replaced(trimmed(chars.as_slice()), '\\', '/');
    let parts = split_on(s.as_slice(), '/');
    let ghost pv = split(s@, '/');
    let dot = to_chars(".");
    let dots = to_chars("..");
    proof {
        reveal_strlit(".");
        reveal_strlit("..");
        assert(dot@ =~= seq!['.']);
        assert(dots@ =~= seq!['.', '.']);
    }
    let mut named: Vec<Vec<char>> = Vec::new();
    let mut escapes = false;
    let mut i: usize = 0;
    assert(texts(named@) =~= named_parts(pv.take(0)));
    while i < parts.len()
        invariant
            0 <= i <= parts@.len(),
            texts(parts@) == pv,
            dot@ == seq!['.'],
            dots@ == seq!['.', '.'],
            texts(named@) == named_parts(pv.take(i as int)),
            escapes == exists|k: int| 0 <= k < i && #[trigger] pv[k] == seq!['.', '.'],
        decreases parts@.len() - i,
    {
        proof {
            assert(pv.take(i + 1).drop_last() =~= pv.take(i as int));
            assert(pv.take(i + 1).last() == texts(parts@)[i as int]);
            assert(pv[i as int] == parts@[i as int]@);
        }
        if chars_eq(parts[i].as_slice(), dots.as_slice()) {
            escapes = true;
        }
        if parts[i].len() > 0 && !chars_eq(parts[i].as_slice(), dot.as_slice()) {
            let piece = slice_to_vec(parts[i].as_slice());
            proof {
                lemma_texts_push(named@, piece);
            }
            named.push(piece);
        }
        i = i + 1;
    }
    assert(pv.take(i as int) =~= pv);
    assert(escapes == pv.contains(seq!['.', '.']));
    assert(texts(named@).len() == named@.len());
    if s.len() == 0 || named.len() == 0 {
        return Err(WriteError::InvalidInput(str_owned("path cannot be empty")));
    }
    if s[0] == '/' {
        return Err(WriteError::InvalidInput(str_owned("path must be relative to the vault")));
    }
    if escapes {
        return Err(WriteError::InvalidInput(str_owned("path cannot escape the vault")));
    }
    let mut slash: Vec<char> = Vec::new();
    slash.push('/');
    assert(slash@ =~= seq!['/']);
    Ok(joined(&named, slash.as_slice()))
}

/// The file of the note a caller names: its path with the `.md` extension.
pub open spec fn note_file(raw: Seq<char>) -> Result<Seq<char>, ErrorView> {
    match vault_path(raw) {
        Err(e) => Err(e),
        Ok(path) => if ends_with(path, ".md"@) {
            Ok(path)
        } else {
            Ok(path + ".md"@)
        },
    }
}

pub fn normalize_note_relative_path(raw: &str) -> (r: Result<Vec<char>, WriteError>)
    ensures
        path_result(r) == note_file(raw@),
{
    match normalize_vault_path(raw) {
        Err(e) => Err(e),
        Ok(path) => {
            let md = to_chars(".md");
            if has_suffix(path.as_slice(), md.as_slice()) {
                Ok(path)
            } else {
                let mut out = path;
                push_all(&mut out, md.as_slice());
                Ok(out)
            }
        },
    }
}

// ---------------------------------------------------------------------------
// Slugs
// ---------------------------------------------------------------------------

/// The paths of the notes other than the excluded one and the one at `path`.
pub open spec fn other_paths(
    notes: Seq<NoteEntry>,
    exclude: Option<Seq<char>>,
    path: Seq<char>,
) -> Seq<Seq<char>>
    decreases notes.len(),
{
    if notes.len() == 0 {
        seq![]
    } else {
        let prev = other_paths(notes.drop_last(), exclude, path);
        if exclude == Some(notes.last().slug@) || notes.last().file@ == path {
            prev
        } else {
            prev.push(notes.last().file@)
        }
    }
}

/// The slug of the first note from the `i`th on that stands at `path`.
pub open spec fn slug_among(notes: Seq<NoteView>, path: Seq<char>, i: int) -> Seq<char>
    decreases notes.len() - i,
{
    if i < 0 || i >= notes.len() {
        seq![]
    } else if notes[i].file == path {
        notes[i].slug
    } else {
        slug_among(notes, path, i + 1)
    }
}

pub proof fn lemma_slug_among(notes: Seq<NoteView>, path: Seq<char>, i: int, p: int)
    requires
        0 <= i <= p < notes.len(),
        forall|k: int| i <= k < p ==> (#[trigger] notes[k]).file != path,
        notes[p].file == path,
    ensures
        slug_among(notes, path, i) == notes[p].slug,
    decreases p - i,
{
    if i < p {
        lemma_slug_among(notes, path, i + 1, p);
    }
}

/// The slug of a note at a new path: the one that a catalog of its file and of
/// the other notes' files gives it. The excluded note is the one that moves.
pub open spec fn slug_at(
    catalog: VaultIndex,
    path: Seq<char>,
    exclude: Option<Seq<char>>,
) -> Seq<char> {
    let root = catalog.root@;
    let decls = catalog.layers.decls();
    let paths = other_paths(catalog.by_slug@, exclude, path).push(path);
    slug_among(catalog_notes(root, claim_order(decls, paths), decls), path, 0)
}

proof fn lemma_claims_hold(decls: Seq<(Seq<char>, DeclView)>, paths: Seq<Seq<char>>, k: int)
    requires
        0 <= k < paths.len() <= usize::MAX,
    ensures
        claim_order(decls, paths).contains(paths[k]),
{
    let keys = claim_keys(decls, paths);
    lemma_stable_order_exists(keys);
    let order = sort_order(keys);
    assert(listed(order, k));
    let i = choose|i: int| 0 <= i < order.len() && #[trigger] order[i] == k;
    assert(claim_order(decls, paths)[i] == paths[k]);
}

/// The slug that a note at `path` has when the catalog is built anew with it,
/// beside the other notes; `exclude_slug` is the slug of the note that goes
/// there, if it is in the catalog already.
pub fn slug_for_relative_path(
    catalog: &VaultIndex,
    path: &str,
    exclude_slug: Option<&str>,
) -> (r: String)
    ensures
        r@ == slug_at(
            *catalog,
            path@,
            match exclude_slug {
                Some(s) => Some(s@),
                None => None,
            },
        ),
{
    let ghost root = catalog.root@;
    let ghost decls = catalog.layers.decls();
    let ghost exclude = match exclude_slug {
        Some(s) => Some(s@),
        None => None,
    };
    let ghost entries = catalog.by_slug@;
    let mut paths: Vec<String> = Vec::new();
    let mut i: usize = 0;
    assert(strs(paths@) =~= other_paths(entries.take(0), exclude, path@));
    while i < catalog.by_slug.len()
        invariant
            0 <= i <= catalog.by_slug@.len(),
            entries == catalog.by_slug@,
            exclude == (match exclude_slug {
                Some(s) => Some(s@),
                None => None,
            }),
            strs(paths@) == other_paths(entries.take(i as int), exclude, path@),
        decreases catalog.by_slug@.len() - i,
    {
        proof {
            assert(entries.take(i + 1).drop_last() =~= entries.take(i as int));
            assert(entries.take(i + 1).last() == entries[i as int]);
        }
        let note = &catalog.by_slug[i];
        let excluded = match exclude_slug {
            Some(s) => str_eq(s, note.slug.as_str()),
            None => false,
        };
        if !excluded && !str_eq(note.file.as_str(), path) {
            let other = note.file.clone();
            proof {
                lemma_strs_push(paths@, other);
            }
            paths.push(other);
        }
        i = i + 1;
    }
    assert(entries.take(i as int) =~= entries);
    let own = str_owned(path);
    proof {
        lemma_strs_push(paths@, own);
    }
    paths.push(own);
    let order = sort_claims(&paths, &catalog.layers);
    let ghost claims = claim_order(decls, strs(paths@));
    let ghost all = catalog_notes(root, claims, decls);
    proof {
        assert(strs(paths@)[paths@.len() - 1] == path@);
        lemma_claims_hold(decls, strs(paths@), paths@.len() - 1);
        assert forall|k: int| 0 <= k < claims.len() implies (#[trigger] all[k]).file == claims[k] by {
            lemma_catalog_prefix(root, claims, decls, k);
        }
        catalog_slugs_are_unique(root, claims, decls);
    }
    let mut notes: Vec<NoteEntry> = Vec::new();
    let mut n: usize = 0;
    assert(notes_view(notes@) =~= catalog_notes(root, claims.take(0), decls));
    while n < order.len()
        invariant
            0 <= n <= order@.len(),
            root == catalog.root@,
            decls == catalog.layers.decls(),
            strs(order@) == claims,
            all == catalog_notes(root, claims, decls),
            all.len() == claims.len(),
            forall|k: int| 0 <= k < claims.len() ==> (#[trigger] all[k]).file == claims[k],
            forall|k: int| 0 <= k < n ==> (#[trigger] claims[k]) != path@,
            notes_view(notes@) == catalog_notes(root, claims.take(n as int), decls),
            slug_at(*catalog, path@, exclude) == slug_among(all, path@, 0),
            exclude == (match exclude_slug {
                Some(s) => Some(s@),
                None => None,
            }),
        decreases order@.len() - n,
    {
        let note = make_note(catalog.root.as_str(), &order[n], &notes, &catalog.layers);
        proof {
            assert(claims[n as int] == order@[n as int]@);
            lemma_catalog_prefix(root, claims, decls, n as int);
            assert(claims.take(n + 1).drop_last() =~= claims.take(n as int));
            assert(claims.take(n + 1).last() == claims[n as int]);
            assert(slugs_of(notes@) =~= view_slugs(notes_view(notes@)));
            assert(note@ == all[n as int]);
            if claims[n as int] == path@ {
                lemma_slug_among(all, path@, 0, n as int);
            }
        }
        if str_eq(order[n].as_str(), path) {
            return note.slug;
        }
        proof {
            lemma_notes_push(notes@, note);
        }
        notes.push(note);
        n = n + 1;
    }
    proof {
        let k = choose|k: int| 0 <= k < claims.len() && claims[k] == path@;
        assert(claims[k] != path@);
    }
    str_owned("")
}

// ---------------------------------------------------------------------------
// Reading before writing
// ---------------------------------------------------------------------------

/// What reading a note's file gave.
pub enum NoteRead {
    Text(String),
    /// The file is not one that may be replaced.
    Refused(WriteError),
    /// The file could not be read, with the reason.
    Unreadable(String),
}

/// A note's text, if it is the one the caller has seen.
pub open spec fn seen_text(read: NoteRead, note: Seq<char>, expected: Seq<char>) -> Result<
    Seq<char>,
    ErrorView,
> {
    if trim(expected).len() == 0 {
        Err(ErrorView::InvalidInput("expected_content_hash cannot be empty"@))
    } else {
        match read {
            NoteRead::Refused(e) => Err(e@),
            NoteRead::Unreadable(why) => Err(
                ErrorView::Io("failed to read note '"@ + note + "': "@ + why@),
            ),
            NoteRead::Text(text) => if text_hash(text@) != trim(expected) {
                Err(changed_note(trim(expected), text_hash(text@)))
            } else {
                Ok(text@)
            },
        }
    }
}

/// The refusal of a write to a note that changed since it was read.
pub open spec fn changed_note(expected: Seq<char>, found: Seq<char>) -> ErrorView {
    ErrorView::Conflict(
        "note changed since it was read: expected "@ + expected + ", found "@ + found,
    )
}

pub fn changed_note_error(expected: &[char], found: &str) -> (r: WriteError)
    ensures
        r@ == changed_note(expected@, found@),
{
    let mut out = to_chars("note changed since it was read: expected ");
    push_all(&mut out, expected);
    push_str(&mut out, ", found ");
    push_str(&mut out, found);
    WriteError::Conflict(from_chars(out.as_slice()))
}

pub fn ensure_content_hash(read: &NoteRead, note: &str, expected: &str) -> (r: Result<
    Vec<char>,
    WriteError,
>)
    ensures
        path_result(r) == seen_text(*read, note@, expected@),
{
    let chars = to_chars(expected);
    let wanted = trimmed(chars.as_slice());
    if wanted.len() == 0 {
        return Err(
            WriteError::InvalidInput(str_owned("expected_content_hash cannot be empty")),
        );
    }
    match read {
        NoteRead::Refused(e) => Err(clone_error(e)),
        NoteRead::Unreadable(why) => {
            let mut out = to_chars("failed to read note '");
            push_str(&mut out, note);
            push_str(&mut out, "': ");
            push_str(&mut out, why.as_str());
            Err(WriteError::Io(from_chars(out.as_slice())))
        },
        NoteRead::Text(text) => {
            let actual = content_hash(text.as_str());
            let actual_chars = to_chars(actual.as_str());
            if !chars_eq(actual_chars.as_slice(), wanted) {
                return Err(changed_note_error(wanted, actual.as_str()));
            }
            Ok(to_chars(text.as_str()))
        },
    }
}

// ---------------------------------------------------------------------------
// Writing one note
// ---------------------------------------------------------------------------

/// A write of one note's file and what is reported when it is done.
pub struct NoteWrite {
    /// The vault-relative file.
    pub path: String,
    pub content: String,
    /// The hash the file must still have; `None` writes whatever is there.
    pub expected_hash: Option<String>,
    pub outcome: WriteOutcome,
}

/// What a [`NoteWrite`] says.
pub struct WriteView {
    pub path: Seq<char>,
    pub content: Seq<char>,
    pub expected_hash: Option<Seq<char>>,
    pub outcome: OutcomeView,
}

impl View for NoteWrite {
    type V = WriteView;

    open spec fn view(&self) -> WriteView {
        WriteView {
            path: self.path@,
            content: self.content@,
            expected_hash: opt_text(self.expected_hash),
            outcome: self.outcome@,
        }
    }
}

pub open spec fn write_result(r: Result<NoteWrite, WriteError>) -> Result<WriteView, ErrorView> {
    match r {
        Ok(w) => Ok(w@),
        Err(e) => Err(e@),
    }
}

/// The write of a note's file and its report.
pub open spec fn note_write(
    slug: Seq<char>,
    relative: Seq<char>,
    file: Seq<char>,
    path: Seq<char>,
    content: Seq<char>,
    warnings: Seq<Seq<char>>,
    expected: Option<Seq<char>>,
) -> WriteView {
    WriteView {
        path: file,
        content,
        expected_hash: expected,
        outcome: OutcomeView {
            slug: Some(slug),
            relative_path: Some(relative),
            content_hash: Some(text_hash(content)),
            quality_warnings: warnings,
            rewritten_notes: 0,
            moved_assets: 0,
            trashed_path: None,
            affected_paths: seq![path],
        },
    }
}

fn make_write(
    slug: &str,
    relative: &str,
    file: &str,
    path: &str,
    content: String,
    warnings: Vec<String>,
    expected: Option<String>,
) -> (r: NoteWrite)
    ensures
        r@ == note_write(
            slug@,
            relative@,
            file@,
            path@,
            content@,
            strs(warnings@),
            opt_text(expected),
        ),
{
    let hash = content_hash(content.as_str());
    let mut affected: Vec<String> = Vec::new();
    affected.push(str_owned(path));
    assert(strs(affected@) =~= seq![path@]);
    NoteWrite {
        path: str_owned(file),
        content,
        expected_hash: expected,
        outcome: WriteOutcome {
            slug: Some(str_owned(slug)),
            relative_path: Some(str_owned(relative)),
            content_hash: Some(hash),
            quality_warnings: warnings,
            rewritten_notes: 0,
            moved_assets: 0,
            trashed_path: None,
            affected_paths: affected,
        },
    }
}

pub open spec fn planned_write(r: Result<NoteWrite, PlanStop>) -> Result<WriteView, StopView> {
    match r {
        Ok(w) => Ok(w@),
        Err(stop) => Err(stop@),
    }
}

/// The creation of a note. Its folder is made before its text is looked at.
pub open spec fn creation(
    relative_path: Seq<char>,
    content: Seq<char>,
    overwrite: bool,
    catalog: VaultIndex,
    facts: Seq<FileFact>,
    made: Seq<Result<(), ErrorView>>,
) -> Result<WriteView, StopView> {
    match note_file(relative_path) {
        Err(e) => Err(StopView::Refused(e)),
        Ok(file) => if fact_of(facts, file) is Some && !overwrite {
            Err(StopView::Refused(ErrorView::Conflict("Note already exists: "@ + file)))
        } else if folder_stop(made, 0, file, "note"@) is Some {
            Err(folder_stop(made, 0, file, "note"@)->0)
        } else if content.contains('\0') {
            Err(
                StopView::Refused(
                    ErrorView::InvalidInput("note content cannot contain NUL bytes"@),
                ),
            )
        } else {
            Ok(
                note_write(
                    slug_at(catalog, file, None),
                    strip_md(file),
                    file,
                    under_root(catalog.root@, file),
                    clean_text(content),
                    quality_warnings(content),
                    None,
                ),
            )
        },
    }
}

/// Creates a note. `made` says what came of making the folders that were asked
/// for.
pub fn create_note(
    relative_path: &str,
    content: &str,
    overwrite: bool,
    catalog: &VaultIndex,
    facts: &Vec<FileFact>,
    made: &Vec<Result<(), WriteError>>,
) -> (r: Result<NoteWrite, PlanStop>)
    ensures
        planned_write(r) == creation(
            relative_path@,
            content@,
            overwrite,
            *catalog,
            facts@,
            made_views(made@),
        ),
{
    let file = match normalize_note_relative_path(relative_path) {
        Err(e) => {
            return Err(PlanStop::Refused(e));
        },
        Ok(file) => file,
    };
    if find_fact(facts, file.as_slice()).is_some() && !overwrite {
        let mut out = to_chars("Note already exists: ");
        push_all(&mut out, file.as_slice());
        return Err(PlanStop::Refused(WriteError::Conflict(from_chars(out.as_slice()))));
    }
    let path = from_chars(file.as_slice());
    match await_folder(made, 0, path.as_str(), "note") {
        Some(stop) => {
            return Err(stop);
        },
        None => {},
    }
    let chars = to_chars(content);
    match prepare_note_content(chars.as_slice()) {
        Err(e) => Err(PlanStop::Refused(e)),
        Ok(prepared) => {
            let relative = from_chars(md_stripped(file.as_slice()));
            let slug = slug_for_relative_path(catalog, path.as_str(), None);
            let full = root_joined(catalog.root.as_str(), path.as_str());
            Ok(
                make_write(
                    slug.as_str(),
                    relative.as_str(),
                    path.as_str(),
                    full.as_str(),
                    prepared.content,
                    prepared.warnings,
                    None,
                ),
            )
        },
    }
}

/// The write of a note's new text, cleaned, over the text the caller has seen.
pub open spec fn cleaned_write(entry: NoteView, text: Seq<char>, expected: Seq<char>) -> Result<
    WriteView,
    ErrorView,
> {
    if text.contains('\0') {
        Err(ErrorView::InvalidInput("note content cannot contain NUL bytes"@))
    } else {
        Ok(
            note_write(
                entry.slug,
                entry.relative_path,
                entry.file,
                entry.path,
                clean_text(text),
                quality_warnings(text),
                Some(expected),
            ),
        )
    }
}

fn write_cleaned(entry: &NoteEntry, text: &[char], expected: &str) -> (r: Result<
    NoteWrite,
    WriteError,
>)
    ensures
        write_result(r) == cleaned_write(entry@, text@, expected@),
{
    match prepare_note_content(text) {
        Err(e) => Err(e),
        Ok(prepared) => Ok(
            make_write(
                entry.slug.as_str(),
                entry.relative_path.as_str(),
                entry.file.as_str(),
                entry.path.as_str(),
                prepared.content,
                prepared.warnings,
                Some(str_owned(expected)),
            ),
        ),
    }
}

/// Replaces a note's text.
pub fn update_note(entry: &NoteEntry, current: &NoteRead, content: &str, expected: &str) -> (r:
    Result<NoteWrite, WriteError>)
    ensures
        write_result(r) == (match seen_text(*current, entry@.relative_path, expected@) {
            Err(e) => Err::<WriteView, ErrorView>(e),
            Ok(_) => cleaned_write(entry@, content@, expected@),
        }),
{
    match ensure_content_hash(current, entry.relative_path.as_str(), expected) {
        Err(e) => Err(e),
        Ok(_) => {
            let chars = to_chars(content);
            write_cleaned(entry, chars.as_slice(), expected)
        },
    }
}

/// `text` with `more` on a line of its own behind it.
pub open spec fn appended(text: Seq<char>, more: Seq<char>) -> Seq<char> {
    if text.len() > 0 && text.last() == '\n' {
        text + more
    } else {
        text + seq!['\n'] + more
    }
}

/// Adds to the end of a note's text.
pub fn append_note(entry: &NoteEntry, current: &NoteRead, content: &str, expected: &str) -> (r:
    Result<NoteWrite, WriteError>)
    ensures
        write_result(r) == (match seen_text(*current, entry@.relative_path, expected@) {
            Err(e) => Err::<WriteView, ErrorView>(e),
            Ok(text) => cleaned_write(entry@, appended(text, content@), expected@),
        }),
{
    match ensure_content_hash(current, entry.relative_path.as_str(), expected) {
        Err(e) => Err(e),
        Ok(text) => {
            let mut out = text;
            let n: usize = out.len();
            if n == 0 || out[n - 1] != '\n' {
                out.push('\n');
            }
            push_str(&mut out, content);
            assert(out@ =~= appended(text@, content@));
            write_cleaned(entry, out.as_slice(), expected)
        },
    }
}

/// Replaces a string in a note's text.
pub fn edit_note(
    entry: &NoteEntry,
    current: &NoteRead,
    old_string: &str,
    new_string: &str,
    expected: &str,
    replace_all: bool,
) -> (r: Result<NoteWrite, WriteError>)
    ensures
        write_result(r) == (match seen_text(*current, entry@.relative_path, expected@) {
            Err(e) => Err::<WriteView, ErrorView>(e),
            Ok(text) => match replaced(
                text,
                old_string@,
                new_string@,
                replace_all,
                entry@.relative_path,
            ) {
                Err(e) => Err::<WriteView, ErrorView>(e),
                Ok(new) => cleaned_write(entry@, new, expected@),
            },
        }),
{
    match ensure_content_hash(current, entry.relative_path.as_str(), expected) {
        Err(e) => Err(e),
        Ok(text) => {
            let old = to_chars(old_string);
            let new = to_chars(new_string);
            match replace_string(
                text.as_slice(),
                old.as_slice(),
                new.as_slice(),
                replace_all,
                entry.relative_path.as_str(),
            ) {
                Err(e) => Err(e),
                Ok(out) => write_cleaned(entry, out.as_slice(), expected),
            }
        },
    }
}

/// Places content at a section of a note.
pub fn replace_section(
    entry: &NoteEntry,
    current: &NoteRead,
    heading: &str,
    mode: SectionMode,
    content: &str,
    expected: &str,
) -> (r: Result<NoteWrite, WriteError>)
    ensures
        write_result(r) == (match seen_text(*current, entry@.relative_path, expected@) {
            Err(e) => Err::<WriteView, ErrorView>(e),
            Ok(text) => match with_section(
                text,
                heading@,
                mode,
                content@,
                entry@.relative_path,
            ) {
                Err(e) => Err::<WriteView, ErrorView>(e),
                Ok(new) => cleaned_write(entry@, new, expected@),
            },
        }),
{
    match ensure_content_hash(current, entry.relative_path.as_str(), expected) {
        Err(e) => Err(e),
        Ok(text) => {
            let heading_chars = to_chars(heading);
            let content_chars = to_chars(content);
            match place_section(
                text.as_slice(),
                heading_chars.as_slice(),
                mode,
                content_chars.as_slice(),
                entry.relative_path.as_str(),
            ) {
                Err(e) => Err(e),
                Ok(out) => write_cleaned(entry, out.as_slice(), expected),
            }
        },
    }
}

/// The write of a note whose text is `text` with updated properties.
pub open spec fn property_write(
    entry: NoteView,
    text: Seq<char>,
    updates: Seq<(Seq<char>, Seq<char>)>,
    expected: Seq<char>,
) -> Result<WriteView, ErrorView> {
    match with_properties(text, updates, entry.relative_path) {
        Err(e) => Err(e),
        Ok(new) => Ok(
            note_write(
                entry.slug,
                entry.relative_path,
                entry.file,
                entry.path,
                new,
                warnings_of(text),
                Some(expected),
            ),
        ),
    }
}

/// A note without properties that gets some and then has each of them deleted
/// is written as it was, whichever way its lines end. The block that was
/// created may not hold the start of a marker line, where a reader would end
/// it, and in a note with carriage returns it has to read, with those, as
/// naming no other key.
pub proof fn deleting_created_properties_restores_the_note(
    entry: NoteView,
    text: Seq<char>,
    updates: Seq<(Seq<char>, Seq<char>)>,
    expected: Seq<char>,
)
    requires
        block_span(text) is None,
        property_write(entry, text, updates, expected) is Ok,
        property_write(
            entry,
            property_write(entry, text, updates, expected)->Ok_0.content,
            deletions(updates),
            property_write(entry, text, updates, expected)->Ok_0.outcome.content_hash->0,
        ) is Ok,
        !has_text((edited_block(seq![], updates, entry.relative_path)->Ok_0)->0, "\n---"@),
        has_text(text, "\r\n"@) ==> names_only(
            block_mapping(block_text(property_write(entry, text, updates, expected)->Ok_0.content)),
            updates,
        ),
    ensures
        property_write(
            entry,
            property_write(entry, text, updates, expected)->Ok_0.content,
            deletions(updates),
            property_write(entry, text, updates, expected)->Ok_0.outcome.content_hash->0,
        )->Ok_0.content == text,
{
    deleting_created_properties_restores_the_text(text, updates, entry.relative_path);
}

/// Merges updates into a note's properties. The rest of the text is stored as
/// it is.
pub fn update_note_frontmatter(
    entry: &NoteEntry,
    current: &NoteRead,
    updates: &Vec<(String, String)>,
    expected: &str,
) -> (r: Result<NoteWrite, WriteError>)
    ensures
        write_result(r) == (if updates@.len() == 0 {
            Err::<WriteView, ErrorView>(
                ErrorView::InvalidInput("update_frontmatter needs at least one top-level key"@),
            )
        } else {
            match seen_text(*current, entry@.relative_path, expected@) {
                Err(e) => Err::<WriteView, ErrorView>(e),
                Ok(text) => property_write(entry@, text, pair_views(updates@), expected@),
            }
        }),
{
    if updates.len() == 0 {
        return Err(
            WriteError::InvalidInput(
                str_owned("update_frontmatter needs at least one top-level key"),
            ),
        );
    }
    match ensure_content_hash(current, entry.relative_path.as_str(), expected) {
        Err(e) => Err(e),
        Ok(text) => {
            let warnings = frontmatter_warnings(text.as_slice());
            match merge_properties(text.as_slice(), updates, entry.relative_path.as_str()) {
                Err(e) => Err(e),
                Ok(new) => Ok(
                    make_write(
                        entry.slug.as_str(),
                        entry.relative_path.as_str(),
                        entry.file.as_str(),
                        entry.path.as_str(),
                        from_chars(new.as_slice()),
                        warnings,
                        Some(str_owned(expected)),
                    ),
                ),
            }
        },
    }
}

// ---------------------------------------------------------------------------
// Moving and removing notes
// ---------------------------------------------------------------------------

/// The move of one note with everything that goes with it.
pub struct NoteMove {
    /// The vault's folder.
    pub root: String,
    /// The note's file and where it goes, vault-relative.
    pub source: String,
    pub destination: String,
    pub expected_hash: String,
    pub asset_moves: Vec<AssetMove>,
    pub rewrites: Vec<TextRewrite>,
    /// What is reported of the note.
    pub slug: String,
    pub relative_path: String,
    /// Where it is in the trash, without the extension.
    pub trashed_path: Option<String>,
}

/// What a [`NoteMove`] says.
pub struct MoveView {
    pub root: Seq<char>,
    pub source: Seq<char>,
    pub destination: Seq<char>,
    pub expected_hash: Seq<char>,
    pub asset_moves: Seq<(Seq<char>, Seq<char>)>,
    pub rewrites: Seq<(Seq<char>, Seq<char>)>,
    pub slug: Seq<char>,
    pub relative_path: Seq<char>,
    pub trashed_path: Option<Seq<char>>,
}

impl View for NoteMove {
    type V = MoveView;

    open spec fn view(&self) -> MoveView {
        MoveView {
            root: self.root@,
            source: self.source@,
            destination: self.destination@,
            expected_hash: self.expected_hash@,
            asset_moves: move_views(self.asset_moves@),
            rewrites: rewrite_views(self.rewrites@),
            slug: self.slug@,
            relative_path: self.relative_path@,
            trashed_path: opt_text(self.trashed_path),
        }
    }
}

pub open spec fn move_result(r: Result<NoteMove, PlanStop>) -> Result<MoveView, StopView> {
    match r {
        Ok(m) => Ok(m@),
        Err(stop) => Err(stop@),
    }
}

/// The links and files that go with a note that moves to `destination`.
pub open spec fn planned_move(
    index: VaultIndex,
    bodies: Seq<NoteBody>,
    facts: Seq<FileFact>,
    entry: NoteView,
    moved_to: Option<(Seq<char>, Seq<char>)>,
    destination: Seq<char>,
    trash: bool,
    made: Seq<Result<(), ErrorView>>,
) -> Result<(Seq<(Seq<char>, Seq<char>)>, Seq<(Seq<char>, Seq<char>)>), StopView> {
    match planned_backlinks(index, bodies, entry.slug, moved_to) {
        Err(e) => Err(StopView::Refused(e)),
        Ok(links) => {
            let context = MoveContext {
                root: index.root@,
                entries: index_entries(index),
                bodies,
                facts,
                slug: entry.slug,
                path: entry.path,
                file: entry.file,
                destination,
                trash,
                baseline: links,
                made,
            };
            match planned_assets(context) {
                Err(stop) => Err(stop),
                Ok((moves, rewrites)) => Ok((moves, merged_plan(links, rewrites))),
            }
        },
    }
}

fn plan_move(
    index: &VaultIndex,
    bodies: &Vec<NoteBody>,
    facts: &Vec<FileFact>,
    entry: &NoteEntry,
    moved_to: &Option<MovedTo>,
    destination: &str,
    trash: bool,
    made: &Vec<Result<(), WriteError>>,
) -> (r: Result<(Vec<AssetMove>, Vec<TextRewrite>), PlanStop>)
    ensures
        asset_result(r) == planned_move(
            *index,
            bodies@,
            facts@,
            entry@,
            moved_view(*moved_to),
            destination@,
            trash,
            made_views(made@),
        ),
{
    match backlink_rewrite_plan(index, bodies, entry.slug.as_str(), moved_to) {
        Err(e) => Err(PlanStop::Refused(e)),
        Ok(links) => match asset_move_plan(
            index,
            bodies,
            facts,
            entry,
            destination,
            trash,
            &links,
            made,
        ) {
            Err(e) => Err(e),
            Ok((moves, rewrites)) => Ok((moves, merge_rewrites(links, rewrites))),
        },
    }
}

proof fn lemma_move_folders(
    index: VaultIndex,
    bodies: Seq<NoteBody>,
    facts: Seq<FileFact>,
    entry: NoteView,
    moved_to: Option<(Seq<char>, Seq<char>)>,
    destination: Seq<char>,
    trash: bool,
    made: Seq<Result<(), ErrorView>>,
)
    ensures
        match planned_move(index, bodies, facts, entry, moved_to, destination, trash, made) {
            Ok((moves, _)) => moves.len() <= reference_count(bodies, entry.slug),
            Err(StopView::MakeFolder { label, .. }) => label == "asset"@ && made.len()
                < reference_count(bodies, entry.slug),
            Err(StopView::Refused(_)) => true,
        },
{
    if let Ok(links) = planned_backlinks(index, bodies, entry.slug, moved_to) {
        every_moved_file_has_its_folder(
            MoveContext {
                root: index.root@,
                entries: index_entries(index),
                bodies,
                facts,
                slug: entry.slug,
                path: entry.path,
                file: entry.file,
                destination,
                trash,
                baseline: links,
                made,
            },
        );
    }
}

/// The move or renaming of a note. The folder of its destination is made when
/// everything is planned, behind those of its files.
pub open spec fn relocation(
    index: VaultIndex,
    bodies: Seq<NoteBody>,
    facts: Seq<FileFact>,
    entry: NoteView,
    current: NoteRead,
    target: Seq<char>,
    expected: Seq<char>,
    made: Seq<Result<(), ErrorView>>,
) -> Result<MoveView, StopView> {
    match seen_text(current, entry.relative_path, expected) {
        Err(e) => Err(StopView::Refused(e)),
        Ok(_) => match note_file(target) {
            Err(e) => Err(StopView::Refused(e)),
            Ok(file) => if fact_of(facts, file) is Some {
                Err(
                    StopView::Refused(
                        ErrorView::Conflict("Destination note already exists: "@ + file),
                    ),
                )
            } else {
                match planned_move(
                    index,
                    bodies,
                    facts,
                    entry,
                    Some((strip_md(file), file)),
                    file,
                    false,
                    made,
                ) {
                    Err(stop) => Err(stop),
                    Ok((moves, rewrites)) => match folder_stop(
                        made,
                        moves.len() as int,
                        file,
                        "destination"@,
                    ) {
                        Some(stop) => Err(stop),
                        None => Ok(
                            MoveView {
                                root: index.root@,
                                source: entry.file,
                                destination: file,
                                expected_hash: expected,
                                asset_moves: moves,
                                rewrites,
                                slug: slug_at(index, file, Some(entry.slug)),
                                relative_path: strip_md(file),
                                trashed_path: None,
                            },
                        ),
                    },
                }
            },
        },
    }
}

/// Moves or renames a note, with its links and its own files. `made` says what
/// came of making the folders that were asked for.
pub fn move_or_rename_note(
    index: &VaultIndex,
    bodies: &Vec<NoteBody>,
    facts: &Vec<FileFact>,
    entry: &NoteEntry,
    current: &NoteRead,
    target_relative_path: &str,
    expected: &str,
    made: &Vec<Result<(), WriteError>>,
) -> (r: Result<NoteMove, PlanStop>)
    ensures
        move_result(r) == relocation(
            *index,
            bodies@,
            facts@,
            entry@,
            *current,
            target_relative_path@,
            expected@,
            made_views(made@),
        ),
{
    match ensure_content_hash(current, entry.relative_path.as_str(), expected) {
        Err(e) => {
            return Err(PlanStop::Refused(e));
        },
        Ok(_) => {},
    }
    let file = match normalize_note_relative_path(target_relative_path) {
        Err(e) => {
            return Err(PlanStop::Refused(e));
        },
        Ok(file) => file,
    };
    if find_fact(facts, file.as_slice()).is_some() {
        let mut out = to_chars("Destination note already exists: ");
        push_all(&mut out, file.as_slice());
        return Err(PlanStop::Refused(WriteError::Conflict(from_chars(out.as_slice()))));
    }
    let path = from_chars(file.as_slice());
    let relative = from_chars(md_stripped(file.as_slice()));
    let slug = slug_for_relative_path(index, path.as_str(), Some(entry.slug.as_str()));
    let moved_to = Some(MovedTo { new_target: relative.clone(), destination: path.clone() });
    match plan_move(index, bodies, facts, entry, &moved_to, path.as_str(), false, made) {
        Err(stop) => Err(stop),
        Ok((asset_moves, rewrites)) => match await_folder(
            made,
            asset_moves.len(),
            path.as_str(),
            "destination",
        ) {
            Some(stop) => Err(stop),
            None => Ok(
                NoteMove {
                    root: index.root.clone(),
                    source: entry.file.clone(),
                    destination: path,
                    expected_hash: str_owned(expected),
                    asset_moves,
                    rewrites,
                    slug,
                    relative_path: relative,
                    trashed_path: None,
                },
            ),
        },
    }
}

/// A folder is made for a note's destination only when the whole move is planned:
/// a move that the planner refuses leaves no empty folder there. And planning ends:
/// once there is a folder for each file that the note refers to, and one more,
/// nothing is asked for.
pub proof fn a_refused_move_makes_no_destination_folder(
    index: VaultIndex,
    bodies: Seq<NoteBody>,
    facts: Seq<FileFact>,
    entry: NoteView,
    current: NoteRead,
    target: Seq<char>,
    expected: Seq<char>,
    made: Seq<Result<(), ErrorView>>,
)
    ensures
        relocation(
            index,
            bodies,
            facts,
            entry,
            current,
            target,
            expected,
            made,
        ) matches Err(StopView::MakeFolder { file, label }) ==> {
            &&& label == "asset"@ || label == "destination"@
            &&& label == "destination"@ ==> note_file(target) == Ok::<Seq<char>, ErrorView>(file)
                && planned_move(
                index,
                bodies,
                facts,
                entry,
                Some((strip_md(file), file)),
                file,
                false,
                made,
            ) is Ok
            &&& made.len() <= reference_count(bodies, entry.slug)
        },
{
    reveal_strlit("asset");
    reveal_strlit("destination");
    if let Ok(file) = note_file(target) {
        lemma_move_folders(
            index,
            bodies,
            facts,
            entry,
            Some((strip_md(file), file)),
            file,
            false,
            made,
        );
    }
}

/// `s` without the separators at both ends.
pub open spec fn trim_slashes(s: Seq<char>) -> Seq<char> {
    trim_trailing_slashes(crate::paths::drop_slashes(s))
}

/// `s` without the separators at its end.
pub open spec fn trim_trailing_slashes(s: Seq<char>) -> Seq<char>
    decreases s.len(),
{
    if s.len() > 0 && s.last() == '/' {
        trim_trailing_slashes(s.drop_last())
    } else {
        s
    }
}

/// The separators at the end go, all of them and nothing else.
pub proof fn trailing_slashes_are_dropped(s: Seq<char>, n: nat)
    requires
        s.len() > 0 ==> s.last() != '/',
    ensures
        trim_trailing_slashes(s + Seq::new(n, |_i: int| '/')) == s,
    decreases n,
{
    let slashes = Seq::new(n, |_i: int| '/');
    if n > 0 {
        let fewer = Seq::new((n - 1) as nat, |_i: int| '/');
        assert((s + slashes).drop_last() =~= s + fewer);
        trailing_slashes_are_dropped(s, (n - 1) as nat);
    } else {
        assert(s + slashes =~= s);
    }
}

fn without_outer_slashes(s: &[char]) -> (r: &[char])
    ensures
        r@ == trim_slashes(s@),
{
    let front = crate::paths::without_leading_slashes(s);
    let mut j: usize = front.len();
    assert(front@.take(j as int) =~= front@);
    while j > 0 && front[j - 1] == '/'
        invariant
            0 <= j <= front@.len(),
            trim_trailing_slashes(front@) == trim_trailing_slashes(front@.take(j as int)),
        decreases j,
    {
        assert(front@.take(j as int).last() == front@[j - 1]);
        assert(front@.take(j as int).drop_last() =~= front@.take(j - 1));
        j = j - 1;
    }
    proof {
        if j > 0 {
            assert(front@.take(j as int).last() == front@[j - 1]);
        }
    }
    prefix_of(front, j)
}

/// Where a note goes when it is archived.
pub open spec fn archive_target(entry: NoteView, prefix: Seq<char>) -> Result<Seq<char>, ErrorView> {
    let folder = trim_slashes(trim(prefix));
    let target = folder + seq!['/'] + after_last(entry.relative_path, '/');
    if folder.len() == 0 {
        Err(ErrorView::InvalidInput("archive prefix cannot be empty"@))
    } else if target == entry.relative_path {
        Err(ErrorView::Conflict("Note is already archived: "@ + entry.relative_path))
    } else {
        Ok(target)
    }
}

/// Archiving takes the note from a layer to the default surface.
pub open spec fn promotes(index: VaultIndex, entry: NoteView, target: Seq<char>) -> bool {
    entry.layer is Some && layer_of(index.layers.decls(), target) is None
}

pub fn make_archive_target(entry: &NoteEntry, prefix: &str) -> (r: Result<Vec<char>, WriteError>)
    ensures
        path_result(r) == archive_target(entry@, prefix@),
{
    let chars = to_chars(prefix);
    let folder = without_outer_slashes(trimmed(chars.as_slice()));
    if folder.len() == 0 {
        return Err(WriteError::InvalidInput(str_owned("archive prefix cannot be empty")));
    }
    let relative = to_chars(entry.relative_path.as_str());
    let mut target = slice_to_vec(folder);
    target.push('/');
    push_all(&mut target, tail_after_last(relative.as_slice(), '/'));
    assert(target@ =~= folder@ + seq!['/'] + after_last(relative@, '/'));
    if chars_eq(target.as_slice(), relative.as_slice()) {
        let mut out = to_chars("Note is already archived: ");
        push_all(&mut out, relative.as_slice());
        return Err(WriteError::Conflict(from_chars(out.as_slice())));
    }
    Ok(target)
}

/// Moves a note into the archive folder. The flag says that the note becomes
/// visible on the default surface.
pub fn archive_note(
    index: &VaultIndex,
    bodies: &Vec<NoteBody>,
    facts: &Vec<FileFact>,
    entry: &NoteEntry,
    current: &NoteRead,
    archive_prefix: &str,
    expected: &str,
    made: &Vec<Result<(), WriteError>>,
) -> (r: Result<(NoteMove, bool), PlanStop>)
    ensures
        match archive_target(entry@, archive_prefix@) {
            Err(e) => r is Err && r->Err_0@ == StopView::Refused(e),
            Ok(target) => match relocation(
                *index,
                bodies@,
                facts@,
                entry@,
                *current,
                target,
                expected@,
                made_views(made@),
            ) {
                Err(stop) => r is Err && r->Err_0@ == stop,
                Ok(m) => r is Ok && (r->Ok_0).0@ == m && (r->Ok_0).1 == promotes(
                    *index,
                    entry@,
                    target,
                ),
            },
        },
{
    match make_archive_target(entry, archive_prefix) {
        Err(e) => Err(PlanStop::Refused(e)),
        Ok(target) => {
            let text = from_chars(target.as_slice());
            let promoted = entry.layer.is_some() && index.layers.layer_for(text.as_str()).is_none();
            match move_or_rename_note(
                index,
                bodies,
                facts,
                entry,
                current,
                text.as_str(),
                expected,
                made,
            ) {
                Err(stop) => Err(stop),
                Ok(m) => Ok((m, promoted)),
            }
        },
    }
}

/// The removal of a note into the trash. The folder in the trash is made when
/// everything is planned, behind those of the note's files.
pub open spec fn removal(
    index: VaultIndex,
    bodies: Seq<NoteBody>,
    facts: Seq<FileFact>,
    entry: NoteView,
    current: NoteRead,
    expected: Seq<char>,
    made: Seq<Result<(), ErrorView>>,
) -> Result<MoveView, StopView> {
    match seen_text(current, entry.relative_path, expected) {
        Err(e) => Err(StopView::Refused(e)),
        Ok(_) => {
            let file = trash_note(existing(facts), entry.relative_path);
            match planned_move(index, bodies, facts, entry, None, file, true, made) {
                Err(stop) => Err(stop),
                Ok((moves, rewrites)) => match folder_stop(
                    made,
                    moves.len() as int,
                    file,
                    "trash"@,
                ) {
                    Some(stop) => Err(stop),
                    None => Ok(
                        MoveView {
                            root: index.root@,
                            source: entry.file,
                            destination: file,
                            expected_hash: expected,
                            asset_moves: moves,
                            rewrites,
                            slug: entry.slug,
                            relative_path: entry.relative_path,
                            trashed_path: Some(strip_md(file)),
                        },
                    ),
                },
            }
        },
    }
}

/// A folder is made in the trash for a removed note only when the whole removal is
/// planned, and planning ends: once there is a folder for each file that the note
/// refers to, and one more, nothing is asked for.
pub proof fn a_refused_removal_makes_no_trash_folder(
    index: VaultIndex,
    bodies: Seq<NoteBody>,
    facts: Seq<FileFact>,
    entry: NoteView,
    current: NoteRead,
    expected: Seq<char>,
    made: Seq<Result<(), ErrorView>>,
)
    ensures
        removal(index, bodies, facts, entry, current, expected, made) matches Err(
            StopView::MakeFolder { file, label },
        ) ==> {
            &&& label == "asset"@ || label == "trash"@
            &&& label == "trash"@ ==> file == trash_note(existing(facts), entry.relative_path)
                && planned_move(index, bodies, facts, entry, None, file, true, made) is Ok
            &&& made.len() <= reference_count(bodies, entry.slug)
        },
{
    reveal_strlit("asset");
    reveal_strlit("trash");
    assert("asset"@[0] == 'a');
    assert("trash"@[0] == 't');
    let file = trash_note(existing(facts), entry.relative_path);
    lemma_move_folders(index, bodies, facts, entry, None, file, true, made);
}

/// Moves a note into the trash, with its own files, and removes the links to
/// it. `made` says what came of making the folders that were asked for.
pub fn delete_note(
    index: &VaultIndex,
    bodies: &Vec<NoteBody>,
    facts: &Vec<FileFact>,
    entry: &NoteEntry,
    current: &NoteRead,
    expected: &str,
    made: &Vec<Result<(), WriteError>>,
) -> (r: Result<NoteMove, PlanStop>)
    ensures
        move_result(r) == removal(
            *index,
            bodies@,
            facts@,
            entry@,
            *current,
            expected@,
            made_views(made@),
        ),
{
    match ensure_content_hash(current, entry.relative_path.as_str(), expected) {
        Err(e) => {
            return Err(PlanStop::Refused(e));
        },
        Ok(_) => {},
    }
    let relative = to_chars(entry.relative_path.as_str());
    let file = unique_trash_note_path(facts, relative.as_slice());
    match plan_move(index, bodies, facts, entry, &None, file.as_str(), true, made) {
        Err(stop) => Err(stop),
        Ok((asset_moves, rewrites)) => match await_folder(
            made,
            asset_moves.len(),
            file.as_str(),
            "trash",
        ) {
            Some(stop) => Err(stop),
            None => {
                let chars = to_chars(file.as_str());
                let trashed = from_chars(md_stripped(chars.as_slice()));
                Ok(
                    NoteMove {
                        root: index.root.clone(),
                        source: entry.file.clone(),
                        destination: file,
                        expected_hash: str_owned(expected),
                        asset_moves,
                        rewrites,
                        slug: entry.slug.clone(),
                        relative_path: entry.relative_path.clone(),
                        trashed_path: Some(trashed),
                    },
                )
            },
        },
    }
}

/// The sources and destinations of the moved files, in order.
pub open spec fn moved_paths(moves: Seq<(Seq<char>, Seq<char>)>) -> Seq<Seq<char>>
    decreases moves.len(),
{
    if moves.len() == 0 {
        seq![]
    } else {
        moved_paths(moves.drop_last()).push(moves.last().0).push(moves.last().1)
    }
}

/// What a finished move reports. The files are named as they are on disk. The
/// note's own rewrite is not counted among the other notes and its file is named
/// once.
pub open spec fn move_outcome(
    m: MoveView,
    rewritten: Seq<Seq<char>>,
    moved_content: Seq<char>,
) -> OutcomeView {
    let own = m.trashed_path is None && rewritten.contains(m.destination);
    let others: nat = if own {
        (rewritten.len() - 1) as nat
    } else {
        rewritten.len()
    };
    let named = if own {
        rewritten.push(m.source)
    } else {
        rewritten.push(m.source).push(m.destination)
    };
    OutcomeView {
        slug: Some(m.slug),
        relative_path: Some(m.relative_path),
        content_hash: if m.trashed_path is None {
            Some(text_hash(moved_content))
        } else {
            None
        },
        quality_warnings: seq![],
        rewritten_notes: others,
        moved_assets: m.asset_moves.len(),
        trashed_path: m.trashed_path,
        affected_paths: all_under_root(m.root, named + moved_paths(m.asset_moves)),
    }
}

/// The report of a finished move, from the files that were rewritten and the
/// note's text at its destination.
pub fn finish_move(m: &NoteMove, rewritten: &Vec<String>, moved_content: &str) -> (r: WriteOutcome)
    ensures
        r@ == move_outcome(m@, strs(rewritten@), moved_content@),
{
    let own = m.trashed_path.is_none() && crate::tables::contains_string(
        rewritten,
        &m.destination,
    );
    let others: usize = if own {
        proof {
            assert(rewritten@.len() == strs(rewritten@).len());
            assert(strs(rewritten@).contains(m.destination@));
        }
        rewritten.len() - 1
    } else {
        rewritten.len()
    };
    let mut affected = clone_strings(rewritten);
    let source = m.source.clone();
    proof {
        lemma_strs_push(affected@, source);
    }
    affected.push(source);
    if !own {
        let destination = m.destination.clone();
        proof {
            lemma_strs_push(affected@, destination);
        }
        affected.push(destination);
    }
    let ghost named = strs(affected@);
    let ghost mv = move_views(m.asset_moves@);
    let mut i: usize = 0;
    assert(named + moved_paths(mv.take(0)) =~= named);
    while i < m.asset_moves.len()
        invariant
            0 <= i <= m.asset_moves@.len(),
            mv == move_views(m.asset_moves@),
            strs(affected@) == named + moved_paths(mv.take(i as int)),
        decreases m.asset_moves@.len() - i,
    {
        let from = m.asset_moves[i].source.clone();
        let to = m.asset_moves[i].destination.clone();
        proof {
            assert(mv.take(i + 1).drop_last() =~= mv.take(i as int));
            assert(mv.take(i + 1).last() == mv[i as int]);
            lemma_strs_push(affected@, from);
            lemma_strs_push(affected@.push(from), to);
        }
        affected.push(from);
        affected.push(to);
        i = i + 1;
        assert(strs(affected@) =~= named + moved_paths(mv.take(i as int)));
    }
    assert(mv.take(i as int) =~= mv);
    let affected = name_under_root(m.root.as_str(), &affected);
    let hash = if m.trashed_path.is_none() {
        Some(content_hash(moved_content))
    } else {
        None
    };
    let warnings: Vec<String> = Vec::new();
    assert(strs(warnings@) =~= seq![]);
    WriteOutcome {
        slug: Some(m.slug.clone()),
        relative_path: Some(m.relative_path.clone()),
        content_hash: hash,
        quality_warnings: warnings,
        rewritten_notes: others,
        moved_assets: m.asset_moves.len(),
        trashed_path: crate::text::clone_opt(&m.trashed_path),
        affected_paths: affected,
    }
}

// ---------------------------------------------------------------------------
// Paths in the vault
// ---------------------------------------------------------------------------

/// A part of a path as it can be given by itself.
pub open spec fn is_given_part(part: Seq<char>) -> bool {
    &&& part.len() > 0
    &&& part != seq!['.'] && part != seq!['.', '.']
    &&& !part.contains('/') && !part.contains('\\')
    &&& trim(part) == part
}

proof fn lemma_slashed(a: Seq<char>, b: Seq<char>)
    ensures
        replace_char(a.push('/') + b, '\\', '/') == replace_char(a, '\\', '/').push('/')
            + replace_char(b, '\\', '/'),
{
    assert(replace_char(a.push('/') + b, '\\', '/') =~= replace_char(a, '\\', '/').push('/')
        + replace_char(b, '\\', '/'));
}

proof fn lemma_trimmed_around(a: Seq<char>, b: Seq<char>)
    requires
        a.len() > 0 && trim(a) == a,
        b.len() > 0 && trim(b) == b,
    ensures
        trim(a.push('/') + b) == a.push('/') + b,
{
    let s = a.push('/') + b;
    trimmed_texts(a);
    trimmed_texts(b);
    assert(s[0] == a[0]);
    assert(s.last() == b.last());
    trimmed_texts(s);
}

/// Two vault paths joined by a slash are what each of them is, joined by a slash.
#[verifier::rlimit(40)]
pub proof fn vault_paths_are_joined_by_a_slash(a: Seq<char>, b: Seq<char>)
    requires
        trim(a) == a && vault_path(a) is Ok,
        trim(b) == b && vault_path(b) is Ok,
    ensures
        vault_path(a.push('/') + b) == Ok::<Seq<char>, ErrorView>(
            vault_path(a)->Ok_0 + seq!['/'] + vault_path(b)->Ok_0,
        ),
{
    let ra = replace_char(a, '\\', '/');
    let rb = replace_char(b, '\\', '/');
    let pa = split(ra, '/');
    let pb = split(rb, '/');
    let up = seq!['.', '.'];
    lemma_slashed(a, b);
    lemma_trimmed_around(a, b);
    pieces_of_two_texts(ra, rb, '/');
    named_parts_of_two_lists(pa, pb, up);
    two_lists_are_joined(named_parts(pa), named_parts(pb), seq!['/']);
    assert((ra.push('/') + rb)[0] == ra[0]);
    lemma_neither_goes_up(pa, pb);
}

proof fn lemma_neither_goes_up(a: Seq<Seq<char>>, b: Seq<Seq<char>>)
    requires
        !a.contains(seq!['.', '.']),
        !b.contains(seq!['.', '.']),
    ensures
        !(a + b).contains(seq!['.', '.']),
{
    let up = seq!['.', '.'];
    let all = a + b;
    if all.contains(up) {
        let k = choose|k: int| 0 <= k < all.len() && all[k] == up;
        if k < a.len() {
            assert(a[k] == up);
        } else {
            assert(b[k - a.len()] == up);
        }
    }
}

/// A part by itself is a vault path.
pub proof fn part_is_a_vault_path(part: Seq<char>)
    requires
        is_given_part(part),
    ensures
        vault_path(part) == Ok::<Seq<char>, ErrorView>(part),
{
    let up = seq!['.', '.'];
    let one = seq![part];
    assert forall|k: int| 0 <= k < part.len() implies part[k] != '\\' && part[k] != '/' by {
        assert(part.contains(part[k]));
    }
    assert(replace_char(part, '\\', '/') =~= part);
    pieces_end_at_separators(part, part, '/');
    named_parts_of_two_lists(seq![], seq![], part);
    two_lists_are_joined(one, seq![], seq!['/']);
    if one.contains(up) {
        let k = choose|k: int| 0 <= k < one.len() && one[k] == up;
        assert(part == up);
    }
}

/// A dot for the folder itself, a slash at the end and the white space around a
/// vault path say nothing, and a backslash is a slash.
pub proof fn vault_path_has_one_form(a: Seq<char>, before: Seq<char>, after: Seq<char>)
    requires
        trim(a) == a && vault_path(a) is Ok,
        forall|i: int| 0 <= i < before.len() ==> whitespace(#[trigger] before[i]),
        forall|i: int| 0 <= i < after.len() ==> whitespace(#[trigger] after[i]),
    ensures
        vault_path(seq!['.', '/'] + a) == vault_path(a),
        vault_path(a.push('/')) == vault_path(a),
        vault_path(before + a + after) == vault_path(a),
        vault_path(replace_char(a, '\\', '/')) == vault_path(a),
{
    let ra = replace_char(a, '\\', '/');
    trimmed_texts(a);
    trim_takes_the_white_space_around(before, a, after);
    assert(!whitespace('/'));
    trimmed_texts(ra);
    assert(replace_char(ra, '\\', '/') =~= ra);
    lemma_dot_in_front(a);
    lemma_slash_behind(a);
}

#[verifier::rlimit(40)]
proof fn lemma_dot_in_front(a: Seq<char>)
    requires
        trim(a) == a && vault_path(a) is Ok,
    ensures
        vault_path(seq!['.', '/'] + a) == vault_path(a),
{
    let ra = replace_char(a, '\\', '/');
    let pa = split(ra, '/');
    let dot = seq!['.'];
    let up = seq!['.', '.'];
    assert(!whitespace('.'));
    trimmed_texts(dot);
    lemma_slashed(dot, a);
    lemma_trimmed_around(dot, a);
    assert(dot.push('/') + a =~= seq!['.', '/'] + a);
    assert(replace_char(dot, '\\', '/') =~= dot);
    assert(!dot.contains('/'));
    pieces_end_at_separators(dot, ra, '/');
    named_parts_of_two_lists(seq![dot], pa, dot);
    assert(Seq::<Seq<char>>::empty() + named_parts(pa) =~= named_parts(pa));
    assert((dot.push('/') + ra)[0] == '.');
    if seq![dot].contains(up) {
        let k = choose|k: int| 0 <= k < 1 && seq![dot][k] == up;
        assert(dot.len() == up.len());
    }
    lemma_neither_goes_up(seq![dot], pa);
}

#[verifier::rlimit(40)]
proof fn lemma_slash_behind(a: Seq<char>)
    requires
        trim(a) == a && vault_path(a) is Ok,
    ensures
        vault_path(a.push('/')) == vault_path(a),
{
    let ra = replace_char(a, '\\', '/');
    let pa = split(ra, '/');
    let none = Seq::<char>::empty();
    let up = seq!['.', '.'];
    lemma_slashed(a, none);
    assert(a.push('/') + none =~= a.push('/'));
    assert(replace_char(none, '\\', '/') =~= none);
    assert(ra.push('/') + none =~= ra.push('/'));
    trimmed_texts(a);
    assert(!whitespace('/'));
    assert(a.push('/')[0] == a[0]);
    trimmed_texts(a.push('/'));
    assert(!none.contains('/'));
    pieces_of_two_texts(ra, none, '/');
    pieces_end_at_separators(none, none, '/');
    named_parts_of_two_lists(pa, seq![none], none);
    assert(named_parts(pa) + Seq::<Seq<char>>::empty() =~= named_parts(pa));
    assert(ra.push('/')[0] == ra[0]);
    if seq![none].contains(up) {
        let k = choose|k: int| 0 <= k < 1 && seq![none][k] == up;
        assert(none.len() == up.len());
    }
    lemma_neither_goes_up(pa, seq![none]);
}

/// A path that starts with a slash is refused, and so is one that goes up, at its
/// start, at its end or between.
#[verifier::rlimit(40)]
pub proof fn paths_out_of_the_vault_are_refused(a: Seq<char>, b: Seq<char>)
    requires
        a.len() > 0 && trim(a) == a,
        b.len() > 0 && trim(b) == b,
    ensures
        vault_path(seq!['/'] + b) is Err,
        vault_path(seq!['.', '.', '/'] + b) is Err,
        vault_path(a + seq!['/', '.', '.']) is Err,
        vault_path(a + seq!['/', '.', '.', '/'] + b) is Err,
        vault_path(seq!['.', '.']) is Err,
{
    let up = seq!['.', '.'];
    let s = seq!['/'] + b;
    assert(!whitespace('.') && !whitespace('/'));
    trimmed_texts(b);
    assert(s.last() == b.last());
    trimmed_texts(s);
    assert(replace_char(s, '\\', '/')[0] == '/');
    trimmed_texts(up);
    let m = seq!['.', '.', '/'] + b;
    assert(m.last() == b.last());
    trimmed_texts(m);
    lemma_up_in_front(b);
    lemma_up_behind(a, up);
    lemma_up_behind(a, m);
    assert(a.push('/') + up =~= a + seq!['/', '.', '.']);
    assert(a.push('/') + m =~= a + seq!['/', '.', '.', '/'] + b);
}

/// The path has a part that goes up.
spec fn goes_up(s: Seq<char>) -> bool {
    split(replace_char(s, '\\', '/'), '/').contains(seq!['.', '.'])
}

proof fn lemma_up_in_front(b: Seq<char>)
    ensures
        goes_up(seq!['.', '.', '/'] + b),
        goes_up(seq!['.', '.']),
{
    let up = seq!['.', '.'];
    let rb = replace_char(b, '\\', '/');
    assert(up[0] == '.' && up[1] == '.');
    assert(replace_char(up, '\\', '/') =~= up);
    assert(!up.contains('/'));
    pieces_end_at_separators(up, rb, '/');
    lemma_slashed(up, b);
    assert(up.push('/') + b =~= seq!['.', '.', '/'] + b);
    assert((seq![up] + split(rb, '/'))[0] == up);
    assert(split(up, '/')[0] == up);
}

proof fn lemma_up_behind(a: Seq<char>, m: Seq<char>)
    requires
        a.len() > 0 && trim(a) == a,
        m.len() > 0 && trim(m) == m,
        goes_up(m),
    ensures
        vault_path(a.push('/') + m) is Err,
        vault_path(m) is Err,
{
    let up = seq!['.', '.'];
    let pa = split(replace_char(a, '\\', '/'), '/');
    let pm = split(replace_char(m, '\\', '/'), '/');
    lemma_slashed(a, m);
    lemma_trimmed_around(a, m);
    pieces_of_two_texts(replace_char(a, '\\', '/'), replace_char(m, '\\', '/'), '/');
    let k = choose|k: int| 0 <= k < pm.len() && pm[k] == up;
    assert((pa + pm)[pa.len() + k] == up);
}

/// A note's file is the vault path, with `.md` behind it unless it ends that way.
pub proof fn note_files_end_in_md(raw: Seq<char>)
    ensures
        note_file(raw) is Ok <==> vault_path(raw) is Ok,
        note_file(raw) matches Ok(file) ==> ends_with(file, ".md"@) && (file
            == vault_path(raw)->Ok_0 || (file == vault_path(raw)->Ok_0 + ".md"@ && !ends_with(
            vault_path(raw)->Ok_0,
            ".md"@,
        ))),
{
    if vault_path(raw) is Ok {
        let path = vault_path(raw)->Ok_0;
        let s = path + ".md"@;
        assert(s.skip(s.len() - ".md"@.len()) =~= ".md"@);
    }
}

/// What is appended starts a line of its own, behind all of the text, and no more
/// than one line feed comes between.
pub proof fn appended_text_starts_a_line(text: Seq<char>, more: Seq<char>)
    ensures
        appended(text, more).take(text.len() as int) == text,
        appended(text, more).skip(appended(text, more).len() - more.len()) == more,
        appended(text, more).len() > more.len(),
        appended(text, more)[appended(text, more).len() - more.len() - 1] == '\n',
        appended(text, more).len() <= text.len() + 1 + more.len(),
        text.len() > 0 && text.last() == '\n' ==> appended(text, more) == text + more,
{
    let r = appended(text, more);
    assert(r.take(text.len() as int) =~= text);
    assert(r.skip(r.len() - more.len()) =~= more);
}

/// A note is archived under its own name, in the folder that the prefix names,
/// whatever slashes stand around that. A note that is there already is not moved.
#[verifier::rlimit(40)]
pub proof fn note_is_archived_under_its_name(
    entry: NoteView,
    above: Seq<char>,
    name: Seq<char>,
    m: nat,
    folder: Seq<char>,
    n: nat,
)
    requires
        !name.contains('/'),
        entry.relative_path == name || entry.relative_path == above.push('/') + name,
        folder.len() > 0 && folder[0] != '/' && folder.last() != '/',
        trim(folder) == folder,
    ensures
        ({
            let prefix = Seq::new(m, |_i: int| '/') + folder + Seq::new(n, |_i: int| '/');
            let target = folder + seq!['/'] + name;
            if target == entry.relative_path {
                archive_target(entry, prefix) is Err
            } else {
                archive_target(entry, prefix) == Ok::<Seq<char>, ErrorView>(target)
            }
        }),
        archive_target(entry, Seq::new(m, |_i: int| '/')) is Err,
{
    let lead = Seq::new(m, |_i: int| '/');
    let trail = Seq::new(n, |_i: int| '/');
    let prefix = lead + folder + trail;
    trimmed_texts(folder);
    assert(!whitespace('/'));
    assert(prefix[0] == '/' || prefix[0] == folder[0]);
    assert(prefix.last() == '/' || prefix.last() == folder.last());
    trimmed_texts(prefix);
    assert(prefix =~= lead + (folder + trail));
    assert((folder + trail)[0] == folder[0]);
    leading_slashes_are_dropped(m, folder + trail);
    trailing_slashes_are_dropped(folder, n);
    let path = entry.relative_path;
    lemma_last_start(path, '/');
    let at = crate::text::last_start(path, '/');
    let behind = path.len() - name.len();
    assert forall|k: int| behind <= k < path.len() implies path[k] != '/' by {
        assert(name.contains(name[k - behind]));
        assert(path[k] == name[k - behind]);
    }
    if path == above.push('/') + name && path != name {
        assert(path[behind - 1] == '/');
    }
    if at > behind {
        assert(path[at - 1] == '/');
    }
    assert(path.skip(behind) =~= name);
    trimmed_texts(lead);
    leading_slashes_are_dropped(m, Seq::<char>::empty());
    assert(lead + Seq::<char>::empty() =~= lead);
}

/// Each move contributes where the file was and where it is, in order.
pub proof fn both_ends_of_every_move_are_listed(moves: Seq<(Seq<char>, Seq<char>)>)
    ensures
        moved_paths(moves).len() == 2 * moves.len(),
        forall|k: int|
            0 <= k < moves.len() ==> moved_paths(moves)[2 * k] == (#[trigger] moves[k]).0
                && moved_paths(moves)[2 * k + 1] == moves[k].1,
    decreases moves.len(),
{
    if moves.len() > 0 {
        let front = moves.drop_last();
        both_ends_of_every_move_are_listed(front);
        assert forall|k: int| 0 <= k < moves.len() implies moved_paths(moves)[2 * k] == (
        #[trigger] moves[k]).0 && moved_paths(moves)[2 * k + 1] == moves[k].1 by {
            if k < front.len() {
                assert(front[k] == moves[k]);
            }
        }
    }
}

/// A move names the note's old place, every rewritten note, and every file moved
/// along, at both ends, and the note's new place, each as a file on disk. It
/// counts every rewritten note but the moved one.
#[verifier::rlimit(40)]
pub proof fn move_names_every_path_it_touches(
    m: MoveView,
    rewritten: Seq<Seq<char>>,
    text: Seq<char>,
)
    ensures
        ({
            let touched = move_outcome(m, rewritten, text).affected_paths;
            &&& touched.contains(under_root(m.root, m.source))
            &&& touched.contains(under_root(m.root, m.destination))
            &&& forall|k: int|
                0 <= k < rewritten.len() ==> touched.contains(
                    under_root(m.root, #[trigger] rewritten[k]),
                )
            &&& forall|k: int|
                0 <= k < m.asset_moves.len() ==> touched.contains(
                    under_root(m.root, (#[trigger] m.asset_moves[k]).0),
                ) && touched.contains(under_root(m.root, m.asset_moves[k].1))
        }),
        m.trashed_path is Some || !rewritten.contains(m.destination) ==> move_outcome(
            m,
            rewritten,
            text,
        ).rewritten_notes == rewritten.len(),
        m.trashed_path is None && rewritten.contains(m.destination) ==> move_outcome(
            m,
            rewritten,
            text,
        ).rewritten_notes + 1 == rewritten.len(),
{
    let own = m.trashed_path is None && rewritten.contains(m.destination);
    let n = rewritten.len() as int;
    let named = if own {
        rewritten.push(m.source)
    } else {
        rewritten.push(m.source).push(m.destination)
    };
    let moved = moved_paths(m.asset_moves);
    let all = named + moved;
    let touched = all_under_root(m.root, all);
    both_ends_of_every_move_are_listed(m.asset_moves);
    assert(all[n] == m.source);
    assert(touched[n] == under_root(m.root, m.source));
    if own {
        let k = choose|k: int| 0 <= k < rewritten.len() && rewritten[k] == m.destination;
        assert(touched[k] == under_root(m.root, m.destination));
    } else {
        assert(touched[n + 1] == under_root(m.root, m.destination));
    }
    assert forall|k: int| 0 <= k < rewritten.len() implies touched.contains(
        under_root(m.root, #[trigger] rewritten[k]),
    ) by {
        assert(touched[k] == under_root(m.root, rewritten[k]));
    }
    assert forall|k: int| 0 <= k < m.asset_moves.len() implies touched.contains(
        under_root(m.root, (#[trigger] m.asset_moves[k]).0),
    ) && touched.contains(under_root(m.root, m.asset_moves[k].1)) by {
        let at = named.len() as int + 2 * k;
        assert(all[at] == moved[2 * k]);
        assert(all[at + 1] == moved[2 * k + 1]);
        assert(touched[at] == under_root(m.root, m.asset_moves[k].0));
        assert(touched[at + 1] == under_root(m.root, m.asset_moves[k].1));
    }
}

/// A note that is added competes with every other note for its slug: with the
/// files of all notes but those at its own path, and but the note it comes from.
pub proof fn every_other_note_competes(
    notes: Seq<NoteEntry>,
    exclude: Option<Seq<char>>,
    path: Seq<char>,
    x: Seq<char>,
)
    ensures
        other_paths(notes, exclude, path).contains(x) <==> x != path && exists|k: int|
            0 <= k < notes.len() && (#[trigger] notes[k]).file@ == x && exclude != Some(
                notes[k].slug@,
            ),
    decreases notes.len(),
{
    if notes.len() > 0 {
        let front = notes.drop_last();
        let n = front.len() as int;
        let prev = other_paths(front, exclude, path);
        let all = other_paths(notes, exclude, path);
        every_other_note_competes(front, exclude, path, x);
        if all.contains(x) {
            let i = choose|i: int| 0 <= i < all.len() && all[i] == x;
            if i < prev.len() {
                assert(prev[i] == x);
                let k = choose|k: int|
                    0 <= k < front.len() && (#[trigger] front[k]).file@ == x && exclude != Some(
                        front[k].slug@,
                    );
                assert(notes[k].file@ == x);
            } else {
                assert(notes[n].file@ == x);
            }
        }
        if x != path && exists|k: int|
            0 <= k < notes.len() && (#[trigger] notes[k]).file@ == x && exclude != Some(
                notes[k].slug@,
            ) {
            let k = choose|k: int|
                0 <= k < notes.len() && (#[trigger] notes[k]).file@ == x && exclude != Some(
                    notes[k].slug@,
                );
            if k < n {
                assert(front[k].file@ == x);
                assert(prev.contains(x));
                let i = choose|i: int| 0 <= i < prev.len() && prev[i] == x;
                assert(all[i] == x);
            } else {
                assert(all[prev.len() as int] == x);
            }
        }
    }
}

} // verus!
