//! The vault index: which notes there are, what they are called, and how they
//! are found.

use vstd::prelude::*;
use vstd::slice::slice_to_vec;

use crate::assets::{assets_named, embedded_asset, has_name, resolve_embed, select_assets_named};
use crate::exclude::{
    default_patterns, held_patterns, matcher_error, stays_relative, ExcludeMatcher,
};
use crate::hash::{content_hash, text_hash};
use crate::layers::{
    declared, file_decl, first_failed, layer_of, sorted_markers, DeclView, LayerMap, MarkerFile,
};
use crate::links::{
    build_link_graph, by_path, links_to, note_targets, path_keys, path_then_slug, resolve_slug,
    resolve_target_slug, sort_slug_links,
};
use crate::paths::{
    body_target, content_snippet, fresh_name_is_free, fresh_slug, is_servable_asset, md_stripped,
    name_stem_and_extension, normalize_title, one_final_md_is_dropped, path_extension,
    path_extension_of, path_stem, path_stem_of, servable, slug_of, slugify, snippet_of,
    split_wikilink_note_body, strip_md, title_key, unique_slug,
};
use crate::tables::{
    body_of, find_body, find_key, find_note, index_of, keys_of, lemma_index_from, lemma_index_of,
    lookup_list, NoteBody,
};
use crate::text::{
    chars_eq, clone_opt, contains_text, from_chars, has_text, is_stable_order, key_views,
    lemma_stable_order_distinct, lemma_stable_order_exists, lemma_strs_push, lemma_texts_push,
    listed, make_path_key, opt_text, path_key, prefix_of, push_str, replace_char, sort_dedup,
    sort_order, split, split_on, stable_order, starts_with, str_owned, strictly_sorted, strs, texts,
    to_chars, with_char_replaced,
};
use crate::types::{
    clone_note, lemma_notes_push, notes_view, slugs_of, ExplorerFolder, ExplorerNote, HitView,
    LinkView, Note, NoteEntry, NoteLink, NoteLinks, NoteMetadata, NoteView, SearchHit, VaultIndex,
    VaultScanConfig,
};

verus! {

// ---------------------------------------------------------------------------
// What the scan found
// ---------------------------------------------------------------------------

/// One entry of the vault's directory tree.
#[derive(Debug, Clone, PartialEq, Eq)]
pub struct ScannedFile {
    /// The vault-relative path.
    pub path: String,
    pub is_dir: bool,
    pub is_file: bool,
}

/// Neither the entry nor a folder it stands in is noise.
pub open spec fn kept(exclude: &ExcludeMatcher, file: ScannedFile) -> bool {
    &&& !exclude.excludes(file.path@, file.is_dir)
    &&& forall|k: int|
        0 <= k < file.path@.len() && #[trigger] file.path@[k] == '/' ==> !exclude.excludes(
            file.path@.take(k),
            true,
        )
}

fn is_kept(exclude: &ExcludeMatcher, file: &ScannedFile) -> (r: bool)
    requires
        stays_relative(file.path@),
    ensures
        r == kept(exclude, *file),
{
    if exclude.is_excluded(file.path.as_str(), file.is_dir) {
        return false;
    }
    let chars = to_chars(file.path.as_str());
    let mut k: usize = 0;
    while k < chars.len()
        invariant
            0 <= k <= chars@.len(),
            chars@ == file.path@,
            stays_relative(file.path@),
            !exclude.excludes(file.path@, file.is_dir),
            forall|j: int|
                0 <= j < k && #[trigger] file.path@[j] == '/' ==> !exclude.excludes(
                    file.path@.take(j),
                    true,
                ),
        decreases chars@.len() - k,
    {
        if chars[k] == '/' {
            let dir = from_chars(prefix_of(chars.as_slice(), k));
            proof {
                let a = seq!['/', '/'];
                let b = seq!['.', '/', '/', '/'];
                if starts_with(dir@, a) {
                    assert(file.path@.take(2) =~= dir@.take(2));
                }
                if starts_with(dir@, b) {
                    assert(file.path@.take(4) =~= dir@.take(4));
                }
            }
            if exclude.is_excluded(dir.as_str(), true) {
                assert(file.path@[k as int] == '/');
                return false;
            }
        }
        k = k + 1;
    }
    true
}

/// The entry is a note's file.
pub open spec fn is_note_file(exclude: &ExcludeMatcher, file: ScannedFile) -> bool {
    file.is_file && kept(exclude, file) && path_extension(file.path@) == Some("md"@)
}

/// The entry is a file the vault serves.
pub open spec fn is_asset_file(exclude: &ExcludeMatcher, file: ScannedFile) -> bool {
    file.is_file && kept(exclude, file) && path_extension(file.path@) != Some("md"@) && servable(
        file.path@,
    )
}

/// The paths of the notes' files, in the order of the scan.
pub open spec fn note_files(exclude: &ExcludeMatcher, files: Seq<ScannedFile>) -> Seq<Seq<char>>
    decreases files.len(),
{
    if files.len() == 0 {
        seq![]
    } else if is_note_file(exclude, files.last()) {
        note_files(exclude, files.drop_last()).push(files.last().path@)
    } else {
        note_files(exclude, files.drop_last())
    }
}

/// An entry is kept if and only if neither it nor a folder above it is noise.
pub proof fn entries_below_noise_are_noise(exclude: &ExcludeMatcher, file: ScannedFile)
    ensures
        kept(exclude, file) <==> !exclude.excludes(file.path@, file.is_dir) && forall|
            dir: Seq<char>,
            rest: Seq<char>,
        |
            file.path@ == #[trigger] (dir + seq!['/'] + rest) ==> !exclude.excludes(dir, true),
{
    let path = file.path@;
    if kept(exclude, file) {
        assert forall|dir: Seq<char>, rest: Seq<char>|
            path == #[trigger] (dir + seq!['/'] + rest) implies !exclude.excludes(dir, true) by {
            let k = dir.len() as int;
            assert(path[k] == '/');
            assert(path.take(k) =~= dir);
        }
    } else if !exclude.excludes(path, file.is_dir) {
        let k = choose|k: int|
            0 <= k < path.len() && #[trigger] path[k] == '/' && exclude.excludes(path.take(k), true);
        let dir = path.take(k);
        let rest = path.skip(k + 1);
        assert(path =~= dir + seq!['/'] + rest);
    }
}

/// The notes of two scans, one behind the other, are those of the one and then
/// those of the other. One entry is a note where it is a file, is kept and has the
/// extension `md`.
pub proof fn notes_of_two_scans(
    exclude: &ExcludeMatcher,
    a: Seq<ScannedFile>,
    b: Seq<ScannedFile>,
    file: ScannedFile,
)
    ensures
        note_files(exclude, a + b) == note_files(exclude, a) + note_files(exclude, b),
        note_files(exclude, seq![file]) == (if file.is_file && kept(exclude, file)
            && path_extension(file.path@) == Some("md"@) {
            seq![file.path@]
        } else {
            Seq::<Seq<char>>::empty()
        }),
    decreases b.len(),
{
    let one = seq![file];
    assert(one.drop_last() =~= seq![]);
    assert(note_files(exclude, one.drop_last()) =~= seq![]);
    assert(seq![].push(file.path@) =~= seq![file.path@]);
    if b.len() == 0 {
        assert(a + b =~= a);
        assert(note_files(exclude, a) + note_files(exclude, b) =~= note_files(exclude, a));
    } else {
        notes_of_two_scans(exclude, a, b.drop_last(), file);
        let more = note_files(exclude, b.drop_last());
        assert((a + b).drop_last() =~= a + b.drop_last());
        assert((a + b).last() == b.last());
        assert(note_files(exclude, a) + more.push(b.last().path@) =~= (note_files(exclude, a)
            + more).push(b.last().path@));
    }
}

/// The vault-relative path of an asset of the scan.
pub open spec fn is_scanned_asset(
    exclude: &ExcludeMatcher,
    files: Seq<ScannedFile>,
    path: Seq<char>,
) -> bool {
    exists|i: int|
        0 <= i < files.len() && is_asset_file(exclude, #[trigger] files[i]) && replace_char(
            files[i].path@,
            '\\',
            '/',
        ) == path
}

// ---------------------------------------------------------------------------
// The catalog
// ---------------------------------------------------------------------------

/// The file on disk: the vault's folder with a vault-relative file behind it.
pub open spec fn under_root(root: Seq<char>, file: Seq<char>) -> Seq<char> {
    if root.len() == 0 || root.last() == '/' {
        root + file
    } else {
        root + seq!['/'] + file
    }
}

/// A file on disk is the vault's folder, one slash and the file, whether or not
/// the folder is given with a slash at its end.
pub proof fn one_slash_follows_the_root(root: Seq<char>, file: Seq<char>)
    requires
        root.len() > 0 && root.last() != '/',
    ensures
        under_root(root, file) == root + seq!['/'] + file,
        under_root(root.push('/'), file) == root + seq!['/'] + file,
        under_root(seq![], file) == file,
{
    assert(root.push('/') + file =~= root + seq!['/'] + file);
    assert(Seq::<char>::empty() + file =~= file);
}

pub fn root_joined(root: &str, file: &str) -> (r: String)
    ensures
        r@ == under_root(root@, file@),
{
    let mut out = to_chars(root);
    let n: usize = out.len();
    if n > 0 && out[n - 1] != '/' {
        out.push('/');
    }
    push_str(&mut out, file);
    assert(out@ =~= under_root(root@, file@));
    from_chars(out.as_slice())
}

/// The files on disk.
pub open spec fn all_under_root(root: Seq<char>, files: Seq<Seq<char>>) -> Seq<Seq<char>> {
    Seq::new(files.len(), |i: int| under_root(root, files[i]))
}

pub fn name_under_root(root: &str, files: &Vec<String>) -> (r: Vec<String>)
    ensures
        strs(r@) == all_under_root(root@, strs(files@)),
{
    let mut out: Vec<String> = Vec::new();
    let mut i: usize = 0;
    while i < files.len()
        invariant
            0 <= i <= files@.len(),
            out@.len() == i,
            forall|k: int| 0 <= k < i ==> (#[trigger] out@[k])@ == under_root(root@, files@[k]@),
        decreases files@.len() - i,
    {
        out.push(root_joined(root, files[i].as_str()));
        i = i + 1;
    }
    assert(strs(out@) =~= all_under_root(root@, strs(files@)));
    out
}

/// A note's vault-relative path without the extension.
pub open spec fn note_relative(path: Seq<char>) -> Seq<char> {
    strip_md(replace_char(path, '\\', '/'))
}

/// Notes of the default surface sort before layered ones, and within each
/// group by path.
pub open spec fn claim_key(decls: Seq<(Seq<char>, DeclView)>, path: Seq<char>) -> Seq<u32> {
    let layered: u32 = if layer_of(decls, note_relative(path)) is Some {
        1
    } else {
        0
    };
    seq![layered] + path_key(path)
}

pub open spec fn claim_keys(
    decls: Seq<(Seq<char>, DeclView)>,
    paths: Seq<Seq<char>>,
) -> Seq<Seq<u32>> {
    Seq::new(paths.len(), |i: int| claim_key(decls, paths[i]))
}

/// The order in which the notes claim their slugs.
pub open spec fn claim_order(
    decls: Seq<(Seq<char>, DeclView)>,
    paths: Seq<Seq<char>>,
) -> Seq<Seq<char>> {
    let order = sort_order(claim_keys(decls, paths));
    Seq::new(order.len(), |i: int| paths[order[i] as int])
}

pub open spec fn view_slugs(notes: Seq<NoteView>) -> Seq<Seq<char>> {
    Seq::new(notes.len(), |i: int| notes[i].slug)
}

/// The title of the note in a file.
pub open spec fn file_title(path: Seq<char>) -> Seq<char> {
    match path_stem(path) {
        Some(stem) => stem,
        None => "Untitled"@,
    }
}

/// The slug a title asks for.
pub open spec fn base_slug(title: Seq<char>) -> Seq<char> {
    if slug_of(title).len() == 0 {
        "untitled"@
    } else {
        slug_of(title)
    }
}

/// The note in a file, beside notes that have taken the given slugs.
pub open spec fn catalog_note(
    root: Seq<char>,
    file: Seq<char>,
    taken: Seq<Seq<char>>,
    decls: Seq<(Seq<char>, DeclView)>,
) -> NoteView {
    NoteView {
        title: file_title(file),
        slug: fresh_slug(taken, base_slug(file_title(file))),
        path: under_root(root, file),
        file,
        relative_path: note_relative(file),
        layer: layer_of(decls, note_relative(file)),
    }
}

/// The notes in the given files, each taking its slug after those before it.
pub open spec fn catalog_notes(
    root: Seq<char>,
    paths: Seq<Seq<char>>,
    decls: Seq<(Seq<char>, DeclView)>,
) -> Seq<NoteView>
    decreases paths.len(),
{
    if paths.len() == 0 {
        seq![]
    } else {
        let prev = catalog_notes(root, paths.drop_last(), decls);
        prev.push(catalog_note(root, paths.last(), view_slugs(prev), decls))
    }
}

/// A note goes by its file: its title is the file's name without the extension, its
/// path is the file's without it, and its slug is made of the title, or is
/// `untitled` where the title makes none, as long as no other note has taken it.
pub proof fn note_goes_by_its_file(
    root: Seq<char>,
    dir: Seq<char>,
    name: Seq<char>,
    taken: Seq<Seq<char>>,
    decls: Seq<(Seq<char>, DeclView)>,
)
    requires
        name.len() > 0,
        !name.contains('/') && !name.contains('\\') && !dir.contains('\\'),
    ensures
        ({
            let file = dir.push('/') + (name + seq!['.'] + "md"@);
            let note = catalog_note(root, file, taken, decls);
            &&& note.title == name
            &&& note.relative_path == dir.push('/') + name
            &&& note.file == file
            &&& note.path == under_root(root, file)
            &&& note.layer == layer_of(decls, dir.push('/') + name)
            &&& slug_of(name).len() > 0 && !taken.contains(slug_of(name)) ==> note.slug == slug_of(name)
            &&& slug_of(name).len() == 0 && !taken.contains("untitled"@) ==> note.slug == "untitled"@
        }),
{
    reveal_strlit("md");
    reveal_strlit(".md");
    let tail = name + seq!['.'] + "md"@;
    let file = dir.push('/') + tail;
    assert(tail.len() > 2);
    assert(tail != seq!['.', '.']);
    name_stem_and_extension(dir, name, "md"@);
    assert forall|k: int| 0 <= k < file.len() implies file[k] != '\\' by {
        if k < dir.len() {
            assert(dir.contains(dir[k]));
        } else if dir.len() < k && k < dir.len() + 1 + name.len() {
            assert(name.contains(name[k - dir.len() - 1]));
        }
    }
    assert(replace_char(file, '\\', '/') =~= file);
    let kept = dir.push('/') + name;
    assert(file =~= kept + ".md"@);
    one_final_md_is_dropped(kept, seq![]);
}

/// The slug of each note comes after those of the notes before it.
pub proof fn lemma_catalog_prefix(
    root: Seq<char>,
    paths: Seq<Seq<char>>,
    decls: Seq<(Seq<char>, DeclView)>,
    p: int,
)
    requires
        0 <= p < paths.len(),
    ensures
        catalog_notes(root, paths, decls).len() == paths.len(),
        catalog_notes(root, paths, decls).take(p) == catalog_notes(root, paths.take(p), decls),
        catalog_notes(root, paths, decls)[p] == catalog_note(
            root,
            paths[p],
            view_slugs(catalog_notes(root, paths.take(p), decls)),
            decls,
        ),
    decreases paths.len(),
{
    catalog_slugs_are_unique(root, paths, decls);
    catalog_slugs_are_unique(root, paths.drop_last(), decls);
    let all = catalog_notes(root, paths, decls);
    let prev = catalog_notes(root, paths.drop_last(), decls);
    if p < paths.len() - 1 {
        lemma_catalog_prefix(root, paths.drop_last(), decls, p);
        assert(paths.drop_last().take(p) =~= paths.take(p));
        assert(all.take(p) =~= prev.take(p));
    } else {
        assert(paths.take(p) =~= paths.drop_last());
        assert(all.take(p) =~= prev);
    }
}

/// The slug that a title asks for, as a string.
pub fn slug_base(title: &str) -> (r: String)
    ensures
        r@ == base_slug(title@),
{
    let slug = slugify(title);
    if slug.as_str().is_empty() {
        str_owned("untitled")
    } else {
        slug
    }
}

pub fn note_relative_of(path: &str) -> (r: String)
    ensures
        r@ == note_relative(path@),
{
    let chars = to_chars(path);
    let slashed = with_char_replaced(chars.as_slice(), '\\', '/');
    from_chars(md_stripped(slashed.as_slice()))
}

pub fn file_title_of(path: &str) -> (r: String)
    ensures
        r@ == file_title(path@),
{
    let chars = to_chars(path);
    match path_stem_of(chars.as_slice()) {
        Some(stem) => from_chars(stem.as_slice()),
        None => str_owned("Untitled"),
    }
}

pub fn opt_owned(o: Option<&str>) -> (r: Option<String>)
    ensures
        match o {
            Some(s) => r is Some && r->0@ == s@,
            None => r is None,
        },
{
    match o {
        Some(s) => Some(str_owned(s)),
        None => None,
    }
}

pub(crate) fn make_note(
    root: &str,
    file: &String,
    by_slug: &Vec<NoteEntry>,
    layers: &LayerMap,
) -> (r: NoteEntry)
    ensures
        r@ == catalog_note(root@, file@, slugs_of(by_slug@), layers.decls()),
{
    let title = file_title_of(file.as_str());
    let relative = note_relative_of(file.as_str());
    let path = root_joined(root, file.as_str());
    let base = slug_base(title.as_str());
    let slug = unique_slug(base.as_str(), by_slug);
    let layer = opt_owned(layers.layer_for(relative.as_str()));
    NoteEntry { title, slug, path, file: file.clone(), relative_path: relative, layer }
}

pub(crate) fn sort_claims(paths: &Vec<String>, layers: &LayerMap) -> (r: Vec<String>)
    ensures
        strs(r@) == claim_order(layers.decls(), strs(paths@)),
{
    let ghost decls = layers.decls();
    let mut keys: Vec<Vec<u32>> = Vec::new();
    let mut i: usize = 0;
    while i < paths.len()
        invariant
            0 <= i <= paths@.len(),
            decls == layers.decls(),
            keys@.len() == i,
            forall|k: int| 0 <= k < i ==> (#[trigger] keys@[k])@ == claim_key(decls, paths@[k]@),
        decreases paths@.len() - i,
    {
        let relative = note_relative_of(paths[i].as_str());
        let layered: u32 = if layers.layer_for(relative.as_str()).is_some() {
            1
        } else {
            0
        };
        let chars = to_chars(paths[i].as_str());
        let mut tail = make_path_key(chars.as_slice());
        let mut key: Vec<u32> = Vec::new();
        key.push(layered);
        key.append(&mut tail);
        assert(key@ =~= claim_key(decls, paths@[i as int]@));
        keys.push(key);
        i = i + 1;
    }
    let ghost kv = claim_keys(decls, strs(paths@));
    assert(key_views(keys@) =~= kv);
    let order = stable_order(&keys);
    let mut out: Vec<String> = Vec::new();
    let mut n: usize = 0;
    while n < order.len()
        invariant
            0 <= n <= order@.len(),
            kv.len() == paths@.len(),
            is_stable_order(kv, order@),
            out@.len() == n,
            forall|k: int| 0 <= k < n ==> (#[trigger] out@[k])@ == paths@[order@[k] as int]@,
        decreases order@.len() - n,
    {
        assert(order@[n as int] < paths@.len());
        out.push(paths[order[n]].clone());
        n = n + 1;
    }
    assert(strs(out@) =~= claim_order(decls, strs(paths@)));
    out
}

/// `table` maps the normalized titles of the notes to their slugs. Where a title
/// has a slash its normal form has one.
pub open spec fn title_table(notes: Seq<NoteEntry>, table: Seq<(String, String)>) -> bool {
    &&& table.len() == notes.len()
    &&& forall|i: int|
        0 <= i < notes.len() ==> (#[trigger] table[i]).0@ == title_key(notes[i].title@)
            && table[i].1@ == notes[i].slug@ && (table[i].0@.contains('/')
            <==> notes[i].title@.contains('/'))
}

/// `table` maps the normalized paths of the notes to their slugs. Where a path
/// has a slash its normal form has one.
pub open spec fn path_table(notes: Seq<NoteEntry>, table: Seq<(String, String)>) -> bool {
    &&& table.len() == notes.len()
    &&& forall|i: int|
        0 <= i < notes.len() ==> (#[trigger] table[i]).0@ == title_key(notes[i].relative_path@)
            && table[i].1@ == notes[i].slug@ && (table[i].0@.contains('/')
            <==> notes[i].relative_path@.contains('/'))
}

/// The index is the catalog of a scan.
pub open spec fn is_catalog(
    index: VaultIndex,
    files: Seq<ScannedFile>,
    decls: Seq<(Seq<char>, DeclView)>,
    exclude: &ExcludeMatcher,
) -> bool {
    &&& index.layers.wf()
    &&& index.layers.decls() == decls
    &&& notes_view(index.by_slug@) == catalog_notes(
        index.root@,
        claim_order(decls, note_files(exclude, files)),
        decls,
    )
    &&& title_table(index.by_slug@, index.by_title@)
    &&& path_table(index.by_slug@, index.by_path_title@)
    &&& strs(index.ordered_slugs@) == by_path(index.by_slug@, slugs_of(index.by_slug@))
    &&& strictly_sorted(strs(index.asset_paths@))
    &&& forall|path: Seq<char>| #[trigger]
        strs(index.asset_paths@).contains(path) <==> is_scanned_asset(exclude, files, path)
}

/// The index carries the link graph of the notes' bodies.
pub open spec fn has_graph(index: VaultIndex, bodies: Seq<NoteBody>) -> bool {
    &&& keys_of(index.outgoing_by_slug@) == strs(index.ordered_slugs@)
    &&& keys_of(index.backlinks_by_slug@) == strs(index.ordered_slugs@)
    &&& forall|i: int|
        #![trigger index.outgoing_by_slug@[i]]
        0 <= i < index.ordered_slugs@.len() ==> strs(index.outgoing_by_slug@[i].1@) == by_path(
            index.by_slug@,
            note_targets(
                index.ordered_slugs@[i]@,
                slugs_of(index.by_slug@),
                index.by_title@,
                index.by_path_title@,
                bodies,
            ),
        )
    &&& forall|i: int|
        #![trigger index.backlinks_by_slug@[i]]
        0 <= i < index.ordered_slugs@.len() ==> path_then_slug(
            index.by_slug@,
            strs(index.backlinks_by_slug@[i].1@),
        ) && forall|source: Seq<char>| #[trigger]
            strs(index.backlinks_by_slug@[i].1@).contains(source) <==> strs(
                index.ordered_slugs@,
            ).contains(source) && links_to(
                source,
                index.ordered_slugs@[i]@,
                index.by_slug@,
                index.by_title@,
                index.by_path_title@,
                bodies,
            )
}

/// The slugs of a catalog are pairwise distinct.
pub proof fn catalog_slugs_are_unique(
    root: Seq<char>,
    paths: Seq<Seq<char>>,
    decls: Seq<(Seq<char>, DeclView)>,
)
    ensures
        catalog_notes(root, paths, decls).len() == paths.len(),
        view_slugs(catalog_notes(root, paths, decls)).no_duplicates(),
    decreases paths.len(),
{
    if paths.len() > 0 {
        catalog_slugs_are_unique(root, paths.drop_last(), decls);
        let prev = catalog_notes(root, paths.drop_last(), decls);
        let taken = view_slugs(prev);
        fresh_name_is_free(taken, base_slug(file_title(paths.last())), seq![]);
        let all = view_slugs(catalog_notes(root, paths, decls));
        let fresh = fresh_slug(taken, base_slug(file_title(paths.last())));
        assert(all =~= taken.push(fresh));
    }
}

/// A vault lists the slug of every note, and each once.
pub proof fn every_note_is_listed_once(
    index: VaultIndex,
    files: Seq<ScannedFile>,
    decls: Seq<(Seq<char>, DeclView)>,
    exclude: &ExcludeMatcher,
)
    requires
        is_catalog(index, files, decls, exclude),
        index.by_slug@.len() <= usize::MAX,
    ensures
        strs(index.ordered_slugs@).no_duplicates(),
        forall|slug: Seq<char>| #[trigger]
            strs(index.ordered_slugs@).contains(slug) <==> slugs_of(index.by_slug@).contains(slug),
{
    let notes = index.by_slug@;
    let root = index.root@;
    let paths = claim_order(decls, note_files(exclude, files));
    let views = catalog_notes(root, paths, decls);
    catalog_slugs_are_unique(root, paths, decls);
    let slugs = slugs_of(notes);
    assert(slugs =~= view_slugs(views)) by {
        assert forall|i: int| 0 <= i < notes.len() implies slugs[i] == #[trigger] view_slugs(
            views,
        )[i] by {
            assert(notes_view(notes)[i] == views[i]);
        }
    }
    let keys = path_keys(notes, slugs);
    lemma_stable_order_exists(keys);
    let order = sort_order(keys);
    let out = strs(index.ordered_slugs@);
    assert(out == by_path(notes, slugs));
    assert forall|i: int, j: int| 0 <= i < j < out.len() implies out[i] != out[j] by {
        lemma_stable_order_distinct(keys, order, i, j);
    }
    assert forall|slug: Seq<char>| #[trigger] out.contains(slug) <==> slugs.contains(slug) by {
        if out.contains(slug) {
            let i = choose|i: int| 0 <= i < out.len() && out[i] == slug;
            assert(slugs[order[i] as int] == slug);
        }
        if slugs.contains(slug) {
            let k = choose|k: int| 0 <= k < slugs.len() && slugs[k] == slug;
            assert(listed(order, k));
            let i = choose|i: int| 0 <= i < order.len() && #[trigger] order[i] == k;
            assert(out[i] == slug);
        }
    }
}

fn sort_files(
    files: &Vec<ScannedFile>,
    exclude: &ExcludeMatcher,
) -> (r: (Vec<String>, Vec<String>))
    requires
        forall|i: int| 0 <= i < files@.len() ==> stays_relative((#[trigger] files@[i]).path@),
    ensures
        strs(r.0@) == note_files(exclude, files@),
        forall|path: Seq<char>| #[trigger]
            strs(r.1@).contains(path) <==> is_scanned_asset(exclude, files@, path),
{
    let mut notes: Vec<String> = Vec::new();
    let mut assets: Vec<String> = Vec::new();
    let md = to_chars("md");
    let mut i: usize = 0;
    assert(strs(notes@) =~= note_files(exclude, files@.take(0)));
    while i < files.len()
        invariant
            0 <= i <= files@.len(),
            md@ == "md"@,
            forall|i: int| 0 <= i < files@.len() ==> stays_relative((#[trigger] files@[i]).path@),
            strs(notes@) == note_files(exclude, files@.take(i as int)),
            forall|path: Seq<char>| #[trigger]
                strs(assets@).contains(path) <==> is_scanned_asset(
                    exclude,
                    files@.take(i as int),
                    path,
                ),
        decreases files@.len() - i,
    {
        let file = &files[i];
        let ghost now = files@.take(i + 1);
        let ghost was = files@.take(i as int);
        let ghost old_assets = assets@;
        proof {
            assert(now.drop_last() =~= was);
            assert(now.last() == *file);
        }
        if file.is_file && is_kept(exclude, file) {
            let chars = to_chars(file.path.as_str());
            let is_md = match path_extension_of(chars.as_slice()) {
                Some(ext) => chars_eq(ext.as_slice(), md.as_slice()),
                None => false,
            };
            if is_md {
                let path = file.path.clone();
                proof {
                    lemma_strs_push(notes@, path);
                }
                notes.push(path);
            } else if is_servable_asset(file.path.as_str()) {
                let slashed = with_char_replaced(chars.as_slice(), '\\', '/');
                let path = from_chars(slashed.as_slice());
                proof {
                    lemma_strs_push(assets@, path);
                }
                assets.push(path);
                assert(strs(assets@).last() == path@);
            }
        }
        proof {
            let added = is_asset_file(exclude, *file);
            let here = replace_char(file.path@, '\\', '/');
            assert(strs(assets@) == if added {
                strs(old_assets).push(here)
            } else {
                strs(old_assets)
            });
            assert forall|path: Seq<char>| #[trigger]
                strs(assets@).contains(path) <==> is_scanned_asset(exclude, now, path) by {
                if strs(assets@).contains(path) {
                    let k = choose|k: int| 0 <= k < strs(assets@).len() && strs(assets@)[k] == path;
                    if k < old_assets.len() {
                        assert(strs(old_assets)[k] == path);
                        assert(strs(old_assets).contains(path));
                        let m = choose|m: int|
                            0 <= m < was.len() && is_asset_file(exclude, #[trigger] was[m])
                                && replace_char(was[m].path@, '\\', '/') == path;
                        assert(now[m] == was[m]);
                    } else {
                        assert(now[i as int] == *file);
                    }
                }
                if is_scanned_asset(exclude, now, path) {
                    let m = choose|m: int|
                        0 <= m < now.len() && is_asset_file(exclude, #[trigger] now[m])
                            && replace_char(now[m].path@, '\\', '/') == path;
                    if m < i {
                        assert(was[m] == now[m]);
                        assert(is_scanned_asset(exclude, was, path));
                        assert(strs(old_assets).contains(path));
                        let k = choose|k: int|
                            0 <= k < strs(old_assets).len() && strs(old_assets)[k] == path;
                        assert(strs(assets@)[k] == path);
                    } else {
                        assert(strs(assets@)[old_assets.len() as int] == path);
                    }
                }
            }
        }
        i = i + 1;
    }
    assert(files@.take(i as int) =~= files@);
    (notes, assets)
}

impl VaultIndex {
    /// The index of a scan with default configuration.
    pub fn build(
        root: &str,
        files: &Vec<ScannedFile>,
        markers: &Vec<MarkerFile>,
        bodies: &Vec<NoteBody>,
    ) -> (r: Result<Self, String>)
        requires
            forall|i: int| 0 <= i < files@.len() ==> stays_relative((#[trigger] files@[i]).path@),
        ensures
            match r {
                Ok(index) => first_failed(sorted_markers(markers@), 0) == markers@.len() && exists|
                    exclude: ExcludeMatcher,
                |
                    #[trigger] exclude.all_lines() == held_patterns(default_patterns())
                        && index.root@ == root@ && is_catalog(
                        index,
                        files@,
                        declared(sorted_markers(markers@)),
                        &exclude,
                    ) && has_graph(index, bodies@),
                Err(message) => matcher_error(seq![]) == Some(message@) || (
                first_failed(sorted_markers(markers@), 0) < markers@.len() && file_decl(
                    sorted_markers(markers@)[first_failed(sorted_markers(markers@), 0)],
                ) == Err::<DeclView, Seq<char>>(message@)),
            },
    {
        let none: Vec<String> = Vec::new();
        assert(strs(none@) =~= seq![]);
        match ExcludeMatcher::new(&none) {
            Err(message) => Err(message),
            Ok(exclude) => {
                assert(default_patterns() + strs(none@) =~= default_patterns());
                let config = VaultScanConfig { exclude };
                VaultIndex::build_with_config(root, files, markers, bodies, &config)
            },
        }
    }

    /// The index of a scan: the catalog and the link graph of the notes'
    /// bodies.
    pub fn build_with_config(
        root: &str,
        files: &Vec<ScannedFile>,
        markers: &Vec<MarkerFile>,
        bodies: &Vec<NoteBody>,
        config: &VaultScanConfig,
    ) -> (r: Result<Self, String>)
        requires
            forall|i: int| 0 <= i < files@.len() ==> stays_relative((#[trigger] files@[i]).path@),
        ensures
            match r {
                Ok(index) => first_failed(sorted_markers(markers@), 0) == markers@.len()
                    && index.root@ == root@ && is_catalog(
                    index,
                    files@,
                    declared(sorted_markers(markers@)),
                    &config.exclude,
                ) && has_graph(index, bodies@),
                Err(message) => {
                    let i = first_failed(sorted_markers(markers@), 0);
                    i < markers@.len() && file_decl(sorted_markers(markers@)[i]) == Err::<
                        DeclView,
                        Seq<char>,
                    >(message@)
                },
            },
    {
        match VaultIndex::build_catalog_with_config(root, files, markers, config) {
            Err(message) => Err(message),
            Ok(catalog) => {
                let (outgoing, backlinks) = build_link_graph(
                    &catalog.by_slug,
                    &catalog.by_title,
                    &catalog.by_path_title,
                    &catalog.ordered_slugs,
                    bodies,
                );
                let mut index = catalog;
                index.outgoing_by_slug = outgoing;
                index.backlinks_by_slug = backlinks;
                Ok(index)
            },
        }
    }

    /// The notes and assets of a scan, without reading any note: the link
    /// tables stay empty.
    pub fn build_catalog_with_config(
        root: &str,
        files: &Vec<ScannedFile>,
        markers: &Vec<MarkerFile>,
        config: &VaultScanConfig,
    ) -> (r: Result<Self, String>)
        requires
            forall|i: int| 0 <= i < files@.len() ==> stays_relative((#[trigger] files@[i]).path@),
        ensures
            match r {
                Ok(index) => first_failed(sorted_markers(markers@), 0) == markers@.len()
                    && index.root@ == root@ && is_catalog(
                    index,
                    files@,
                    declared(sorted_markers(markers@)),
                    &config.exclude,
                ) && index.outgoing_by_slug@.len() == 0 && index.backlinks_by_slug@.len() == 0,
                Err(message) => {
                    let i = first_failed(sorted_markers(markers@), 0);
                    i < markers@.len() && file_decl(sorted_markers(markers@)[i]) == Err::<
                        DeclView,
                        Seq<char>,
                    >(message@)
                },
            },
    {
        let layers = match LayerMap::collect(markers) {
            Err(message) => {
                return Err(message);
            },
            Ok(layers) => layers,
        };
        let ghost decls = layers.decls();
        let (paths, assets) = sort_files(files, &config.exclude);
        let claims = sort_claims(&paths, &layers);
        let ghost cv = claim_order(decls, note_files(&config.exclude, files@));
        let mut by_slug: Vec<NoteEntry> = Vec::new();
        let mut by_title: Vec<(String, String)> = Vec::new();
        let mut by_path_title: Vec<(String, String)> = Vec::new();
        let mut slugs: Vec<String> = Vec::new();
        let mut i: usize = 0;
        assert(notes_view(by_slug@) =~= catalog_notes(root@, cv.take(0), decls));
        assert(strs(slugs@) =~= slugs_of(by_slug@));
        while i < claims.len()
            invariant
                0 <= i <= claims@.len(),
                strs(claims@) == cv,
                decls == layers.decls(),
                notes_view(by_slug@) == catalog_notes(root@, cv.take(i as int), decls),
                title_table(by_slug@, by_title@),
                path_table(by_slug@, by_path_title@),
                strs(slugs@) == slugs_of(by_slug@),
            decreases claims@.len() - i,
        {
            let note = make_note(root, &claims[i], &by_slug, &layers);
            let slug = note.slug.clone();
            let title_slug = note.slug.clone();
            let path_slug = note.slug.clone();
            let title = normalize_title(note.title.as_str());
            let path = normalize_title(note.relative_path.as_str());
            proof {
                let t = cv.take(i + 1);
                assert(t.drop_last() =~= cv.take(i as int));
                assert(t.last() == strs(claims@)[i as int]);
                assert(view_slugs(notes_view(by_slug@)) =~= slugs_of(by_slug@));
                lemma_notes_push(by_slug@, note);
                lemma_strs_push(slugs@, slug);
            }
            by_title.push((title, title_slug));
            by_path_title.push((path, path_slug));
            slugs.push(slug);
            by_slug.push(note);
            i = i + 1;
        }
        assert(cv.take(i as int) =~= cv);
        let ordered_slugs = sort_slug_links(&slugs, &by_slug);
        let asset_paths = sort_dedup(&assets);
        Ok(
            VaultIndex {
                root: str_owned(root),
                by_slug,
                by_title,
                by_path_title,
                ordered_slugs,
                asset_paths,
                outgoing_by_slug: Vec::new(),
                backlinks_by_slug: Vec::new(),
                layers,
            },
        )
    }

    /// The notes by path.
    pub fn ordered_entries(&self) -> (r: Vec<NoteEntry>)
        ensures
            notes_view(r@) == notes_view(listed_notes(self.by_slug@, strs(self.ordered_slugs@))),
    {
        let ghost slugs = strs(self.ordered_slugs@);
        let mut out: Vec<NoteEntry> = Vec::new();
        let mut i: usize = 0;
        assert(notes_view(out@) =~= notes_view(listed_notes(self.by_slug@, slugs.take(0))));
        while i < self.ordered_slugs.len()
            invariant
                0 <= i <= self.ordered_slugs@.len(),
                slugs == strs(self.ordered_slugs@),
                notes_view(out@) == notes_view(listed_notes(self.by_slug@, slugs.take(i as int))),
            decreases self.ordered_slugs@.len() - i,
        {
            proof {
                assert(slugs.take(i + 1).drop_last() =~= slugs.take(i as int));
                assert(slugs.take(i + 1).last() == slugs[i as int]);
            }
            match find_note(&self.by_slug, &self.ordered_slugs[i]) {
                Some(n) => {
                    let note = clone_note(&self.by_slug[n]);
                    proof {
                        lemma_notes_push(out@, note);
                        lemma_notes_push(
                            listed_notes(self.by_slug@, slugs.take(i as int)),
                            self.by_slug@[n as int],
                        );
                    }
                    out.push(note);
                },
                None => {},
            }
            i = i + 1;
        }
        assert(slugs.take(i as int) =~= slugs);
        out
    }

    pub fn find_by_slug(&self, slug: &str) -> (r: Option<&NoteEntry>)
        ensures
            r == note_with_slug(self.by_slug@, slug@),
    {
        let key = str_owned(slug);
        match find_note(&self.by_slug, &key) {
            Some(i) => Some(&self.by_slug[i]),
            None => None,
        }
    }

    /// The note with the slug and its text, or why the text cannot be read.
    /// Nothing is read from the text but its hash.
    pub fn read_note_by_slug(&self, slug: &str, bodies: &Vec<NoteBody>) -> (r: Result<
        Option<Note>,
        String,
    >)
        ensures
            match note_with_slug(self.by_slug@, slug@) {
                None => r == Ok::<Option<Note>, String>(None),
                Some(entry) => match (body_of(bodies@, entry.slug@), r) {
                    (Ok(text), Ok(Some(note))) => note.title@ == entry.title@ && note.slug@
                        == entry.slug@ && note.relative_path@ == entry.relative_path@
                        && note.content@ == text && note.content_hash@ == text_hash(text)
                        && opt_text(note.layer) == opt_text(entry.layer)
                        && note.metadata.tags@.len() == 0 && note.metadata.aliases@.len() == 0
                        && note.metadata.properties is None,
                    (Err(why), Err(e)) => e@ == why,
                    _ => false,
                },
            },
    {
        match self.find_by_slug(slug) {
            None => Ok(None),
            Some(entry) => match find_body(bodies, &entry.slug) {
                Ok(content) => {
                    let hash = content_hash(content.as_str());
                    Ok(
                        Some(
                            Note {
                                title: entry.title.clone(),
                                slug: entry.slug.clone(),
                                relative_path: entry.relative_path.clone(),
                                content,
                                content_hash: hash,
                                layer: clone_opt(&entry.layer),
                                metadata: NoteMetadata::default(),
                            },
                        ),
                    )
                },
                Err(why) => Err(why),
            },
        }
    }

    /// The note a wikilink names. Aliases and anchors are dropped first.
    pub fn resolve_wikilink(&self, raw_target: &str) -> (r: Option<&NoteEntry>)
        ensures
            r == linked_note(*self, raw_target@),
    {
        let (target, _) = split_wikilink_note_body(raw_target);
        match resolve_target_slug(target, &self.by_slug, &self.by_title, &self.by_path_title) {
            Some(slug) => match find_note(&self.by_slug, &slug) {
                Some(i) => Some(&self.by_slug[i]),
                None => None,
            },
            None => None,
        }
    }

    /// The vault-relative path of the asset that a wikilink target names.
    pub fn resolve_asset(&self, raw_target: &str, note_dir: &str) -> (r: Option<&str>)
        ensures
            match r {
                Some(p) => embedded_asset(strs(self.asset_paths@), raw_target@, note_dir@) == Some(p@),
                None => embedded_asset(strs(self.asset_paths@), raw_target@, note_dir@) is None,
            },
    {
        resolve_embed(&self.asset_paths, raw_target, note_dir)
    }

    /// The vault-relative paths of the assets whose file has the given
    /// lower-case name.
    pub fn assets_by_name(&self, name: &str) -> (r: Vec<String>)
        ensures
            strs(r@) == assets_named(strs(self.asset_paths@), name@),
            forall|path: Seq<char>| #[trigger]
                strs(r@).contains(path) <==> strs(self.asset_paths@).contains(path) && has_name(
                    path,
                    name@,
                ),
            strictly_sorted(strs(self.asset_paths@)) ==> strictly_sorted(strs(r@)),
    {
        select_assets_named(&self.asset_paths, name)
    }

    /// The links of a note, both ways. `None` for an unknown slug.
    pub fn note_links(&self, slug: &str) -> (r: Option<NoteLinks>)
        ensures
            match r {
                Some(links) => slugs_of(self.by_slug@).contains(slug@) && link_views(
                    links.outgoing@,
                ) == links_for(self.by_slug@, lookup_list(self.outgoing_by_slug@, slug@))
                    && link_views(links.backlinks@) == links_for(
                    self.by_slug@,
                    lookup_list(self.backlinks_by_slug@, slug@),
                ),
                None => !slugs_of(self.by_slug@).contains(slug@),
            },
    {
        let key = str_owned(slug);
        if !crate::paths::slug_taken(&self.by_slug, &key) {
            return None;
        }
        let empty: Vec<String> = Vec::new();
        assert(strs(empty@) =~= seq![]);
        let outgoing = match find_key(&self.outgoing_by_slug, &key) {
            Some(i) => self.map_slugs_to_links(&self.outgoing_by_slug[i].1),
            None => self.map_slugs_to_links(&empty),
        };
        let backlinks = match find_key(&self.backlinks_by_slug, &key) {
            Some(i) => self.map_slugs_to_links(&self.backlinks_by_slug[i].1),
            None => self.map_slugs_to_links(&empty),
        };
        Some(NoteLinks { outgoing, backlinks })
    }

    fn map_slugs_to_links(&self, slugs: &Vec<String>) -> (r: Vec<NoteLink>)
        ensures
            link_views(r@) == links_for(self.by_slug@, strs(slugs@)),
    {
        let ghost sv = strs(slugs@);
        let mut out: Vec<NoteLink> = Vec::new();
        let mut i: usize = 0;
        assert(link_views(out@) =~= links_for(self.by_slug@, sv.take(0)));
        while i < slugs.len()
            invariant
                0 <= i <= slugs@.len(),
                sv == strs(slugs@),
                link_views(out@) == links_for(self.by_slug@, sv.take(i as int)),
            decreases slugs@.len() - i,
        {
            proof {
                assert(sv.take(i + 1).drop_last() =~= sv.take(i as int));
                assert(sv.take(i + 1).last() == sv[i as int]);
            }
            match find_note(&self.by_slug, &slugs[i]) {
                Some(n) => {
                    let note = &self.by_slug[n];
                    let ghost was = out@;
                    let link = NoteLink {
                        title: note.title.clone(),
                        slug: note.slug.clone(),
                        relative_path: note.relative_path.clone(),
                        layer: clone_opt(&note.layer),
                    };
                    assert(link@ == link_to(*note));
                    out.push(link);
                    assert(link_views(out@) =~= link_views(was).push(link@));
                },
                None => {},
            }
            i = i + 1;
        }
        assert(sv.take(i as int) =~= sv);
        out
    }

    pub fn total_notes(&self) -> (r: usize)
        ensures
            r == self.by_slug@.len(),
    {
        self.by_slug.len()
    }

    /// The notes whose title or path holds the query, by path, and behind them,
    /// if asked for, those whose body does. At most `limit` in all.
    pub fn search(
        &self,
        query: &str,
        include_content: bool,
        limit: usize,
        bodies: &Vec<NoteBody>,
    ) -> (r: Vec<SearchHit>)
        ensures
            hit_views(r@) == search_hits(*self, query@, include_content, limit as nat, bodies@),
    {
        let wanted = normalize_title(query);
        let mut out: Vec<SearchHit> = Vec::new();
        assert(hit_views(out@) =~= seq![]);
        if wanted.as_str().is_empty() || limit == 0 {
            return out;
        }
        let ghost q = title_key(query@);
        let ghost slugs = strs(self.ordered_slugs@);
        let ghost n = slugs.len() as int;
        let query_chars = to_chars(wanted.as_str());
        let mut i: usize = 0;
        while i < self.ordered_slugs.len()
            invariant
                0 <= i <= self.ordered_slugs@.len(),
                slugs == strs(self.ordered_slugs@),
                query_chars@ == q,
                hit_views(out@) == name_hits(self.by_slug@, slugs.take(i as int), q),
                out@.len() < limit,
                q == title_key(query@),
                q.len() > 0,
                limit > 0,
            decreases self.ordered_slugs@.len() - i,
        {
            proof {
                assert(slugs.take(i + 1).drop_last() =~= slugs.take(i as int));
                assert(slugs.take(i + 1).last() == slugs[i as int]);
            }
            match find_note(&self.by_slug, &self.ordered_slugs[i]) {
                Some(k) => {
                    let note = &self.by_slug[k];
                    match match_kind_of(note, query_chars.as_slice()) {
                        Some(kind) => {
                            let ghost was = out@;
                            let hit = make_hit(note, kind, None);
                            out.push(hit);
                            assert(hit_views(out@) =~= hit_views(was).push(hit@));
                            if out.len() >= limit {
                                proof {
                                    lemma_name_hits_prefix(
                                        self.by_slug@,
                                        slugs,
                                        q,
                                        i + 1,
                                    );
                                    assert(hit_views(out@) =~= name_hits(
                                        self.by_slug@,
                                        slugs,
                                        q,
                                    ).take(limit as int));
                                }
                                return out;
                            }
                        },
                        None => {},
                    }
                },
                None => {},
            }
            i = i + 1;
        }
        assert(slugs.take(i as int) =~= slugs);
        if !include_content {
            return out;
        }
        let ghost named = name_hits(self.by_slug@, slugs, q);
        let mut j: usize = 0;
        assert(hit_views(out@) =~= named + body_hits(self.by_slug@, slugs.take(0), q, bodies@, named));
        while j < self.ordered_slugs.len() && out.len() < limit
            invariant
                0 <= j <= self.ordered_slugs@.len(),
                slugs == strs(self.ordered_slugs@),
                query_chars@ == q,
                wanted@ == q,
                named == name_hits(self.by_slug@, slugs, q),
                out@.len() <= limit,
                hit_views(out@) == named + body_hits(
                    self.by_slug@,
                    slugs.take(j as int),
                    q,
                    bodies@,
                    named,
                ),
            decreases self.ordered_slugs@.len() - j,
        {
            proof {
                assert(slugs.take(j + 1).drop_last() =~= slugs.take(j as int));
                assert(slugs.take(j + 1).last() == slugs[j as int]);
            }
            match find_note(&self.by_slug, &self.ordered_slugs[j]) {
                Some(k) => {
                    let note = &self.by_slug[k];
                    let matched = match match_kind_of(note, query_chars.as_slice()) {
                        Some(_) => true,
                        None => false,
                    };
                    proof {
                        lemma_index_of(slugs_of(self.by_slug@), slugs[j as int]);
                        lemma_seen(self.by_slug@, slugs, q, j as int);
                    }
                    if !matched {
                        match find_body(bodies, &note.slug) {
                            Err(_) => {},
                            Ok(text) => {
                                match content_snippet(text.as_str(), wanted.as_str()) {
                                    None => {},
                                    Some(snippet) => {
                                        let ghost was = out@;
                                        let hit = make_hit(note, "content", Some(snippet));
                                        out.push(hit);
                                        proof {
                                            assert(hit_views(out@) =~= hit_views(was).push(hit@));
                                            assert(hit_views(out@) =~= named + body_hits(
                                                self.by_slug@,
                                                slugs.take(j + 1),
                                                q,
                                                bodies@,
                                                named,
                                            ));
                                        }
                                    },
                                }
                            },
                        }
                    }
                },
                None => {},
            }
            j = j + 1;
        }
        proof {
            assert(slugs.take(n) =~= slugs);
            let all = named + body_hits(self.by_slug@, slugs, q, bodies@, named);
            if j < n {
                lemma_body_hits_prefix(self.by_slug@, slugs, q, bodies@, named, j as int);
                assert(hit_views(out@) =~= all.take(limit as int));
            }
        }
        out
    }

    /// The notes as a tree of folders.
    pub fn explorer_tree(&self) -> (r: ExplorerFolder)
        ensures
            exists|depth: nat| #[trigger]
                is_tree(
                    r,
                    "Vault"@,
                    tree_items(self.by_slug@, strs(self.ordered_slugs@)),
                    depth,
                ),
    {
        let ghost slugs = strs(self.ordered_slugs@);
        let mut items: Vec<TreeItem> = Vec::new();
        let mut i: usize = 0;
        assert(item_views(items@) =~= tree_items(self.by_slug@, slugs.take(0)));
        while i < self.ordered_slugs.len()
            invariant
                0 <= i <= self.ordered_slugs@.len(),
                slugs == strs(self.ordered_slugs@),
                item_views(items@) == tree_items(self.by_slug@, slugs.take(i as int)),
            decreases self.ordered_slugs@.len() - i,
        {
            proof {
                assert(slugs.take(i + 1).drop_last() =~= slugs.take(i as int));
                assert(slugs.take(i + 1).last() == slugs[i as int]);
            }
            match find_note(&self.by_slug, &self.ordered_slugs[i]) {
                Some(n) => {
                    let note = &self.by_slug[n];
                    let chars = to_chars(note.relative_path.as_str());
                    let mut parts = split_on(chars.as_slice(), '/');
                    let ghost whole = parts@;
                    let _ = parts.pop();
                    assert(texts(parts@) =~= texts(whole).drop_last());
                    let item = TreeItem {
                        folders: parts,
                        title: note.title.clone(),
                        slug: note.slug.clone(),
                    };
                    let ghost was = items@;
                    assert(item@ == tree_item(*note));
                    items.push(item);
                    assert(item_views(items@) =~= item_views(was).push(item@));
                },
                None => {},
            }
            i = i + 1;
        }
        assert(slugs.take(i as int) =~= slugs);
        let depth: usize = max_depth(&items);
        let tree = grow_tree("Vault", &items, depth);
        assert(is_tree(tree, "Vault"@, tree_items(self.by_slug@, slugs), depth as nat));
        tree
    }
}

// ---------------------------------------------------------------------------
// Looking notes up
// ---------------------------------------------------------------------------

/// The note with a slug.
pub open spec fn note_with_slug<'a>(notes: Seq<NoteEntry>, slug: Seq<char>) -> Option<&'a NoteEntry> {
    let i = index_of(slugs_of(notes), slug);
    if i < notes.len() {
        Some(&notes[i])
    } else {
        None
    }
}

/// The note a wikilink names.
pub open spec fn linked_note<'a>(index: VaultIndex, raw_target: Seq<char>) -> Option<&'a NoteEntry> {
    match resolve_slug(
        body_target(raw_target, true),
        slugs_of(index.by_slug@),
        index.by_title@,
        index.by_path_title@,
    ) {
        Some(slug) => note_with_slug(index.by_slug@, slug),
        None => None,
    }
}

/// The notes with the given slugs, in order; unknown slugs are skipped.
pub open spec fn listed_notes(notes: Seq<NoteEntry>, slugs: Seq<Seq<char>>) -> Seq<NoteEntry>
    decreases slugs.len(),
{
    if slugs.len() == 0 {
        seq![]
    } else {
        let prev = listed_notes(notes, slugs.drop_last());
        match note_with_slug(notes, slugs.last()) {
            Some(note) => prev.push(*note),
            None => prev,
        }
    }
}

pub open spec fn link_to(note: NoteEntry) -> LinkView {
    LinkView {
        title: note.title@,
        slug: note.slug@,
        relative_path: note.relative_path@,
        layer: opt_text(note.layer),
    }
}

/// The links to the notes with the given slugs; unknown slugs are skipped.
pub open spec fn links_for(notes: Seq<NoteEntry>, slugs: Seq<Seq<char>>) -> Seq<LinkView>
    decreases slugs.len(),
{
    if slugs.len() == 0 {
        seq![]
    } else {
        let prev = links_for(notes, slugs.drop_last());
        match note_with_slug(notes, slugs.last()) {
            Some(note) => prev.push(link_to(*note)),
            None => prev,
        }
    }
}

/// A list of slugs gives the notes that have them, in order, each with its own
/// title, path and layer, and a slug that no note has gives nothing.
#[verifier::rlimit(40)]
pub proof fn each_slug_gives_its_note(
    notes: Seq<NoteEntry>,
    a: Seq<Seq<char>>,
    b: Seq<Seq<char>>,
    slug: Seq<char>,
    k: int,
)
    requires
        0 <= k <= notes.len(),
        forall|j: int| 0 <= j < k ==> (#[trigger] notes[j]).slug@ != slug,
        k < notes.len() ==> notes[k].slug@ == slug,
    ensures
        links_for(notes, a + b) == links_for(notes, a) + links_for(notes, b),
        listed_notes(notes, a + b) == listed_notes(notes, a) + listed_notes(notes, b),
        k < notes.len() ==> listed_notes(notes, seq![slug]) == seq![notes[k]] && links_for(
            notes,
            seq![slug],
        ) == seq![
            LinkView {
                title: notes[k].title@,
                slug,
                relative_path: notes[k].relative_path@,
                layer: opt_text(notes[k].layer),
            },
        ],
        k == notes.len() ==> listed_notes(notes, seq![slug]).len() == 0 && links_for(
            notes,
            seq![slug],
        ).len() == 0,
    decreases b.len(),
{
    let one = seq![slug];
    lemma_index_from(slugs_of(notes), slug, 0);
    let i = index_of(slugs_of(notes), slug);
    if i < k {
        assert(notes[i].slug@ == slug);
    }
    if k < notes.len() {
        assert(slugs_of(notes)[k] == slug);
    }
    assert(one.drop_last() =~= seq![]);
    assert(links_for(notes, one.drop_last()) =~= seq![]);
    assert(listed_notes(notes, one.drop_last()) =~= seq![]);
    if k < notes.len() {
        assert(seq![].push(notes[k]) =~= seq![notes[k]]);
        assert(seq![].push(link_to(notes[k])) =~= seq![link_to(notes[k])]);
    }
    if b.len() == 0 {
        assert(a + b =~= a);
        assert(links_for(notes, a) + links_for(notes, b) =~= links_for(notes, a));
        assert(listed_notes(notes, a) + listed_notes(notes, b) =~= listed_notes(notes, a));
    } else {
        each_slug_gives_its_note(notes, a, b.drop_last(), slug, k);
        assert((a + b).drop_last() =~= a + b.drop_last());
        assert((a + b).last() == b.last());
        if note_with_slug(notes, b.last()) is Some {
            let note = *note_with_slug(notes, b.last())->0;
            assert(links_for(notes, a) + links_for(notes, b.drop_last()).push(link_to(note)) =~= (
            links_for(notes, a) + links_for(notes, b.drop_last())).push(link_to(note)));
            assert(listed_notes(notes, a) + listed_notes(notes, b.drop_last()).push(note) =~= (
            listed_notes(notes, a) + listed_notes(notes, b.drop_last())).push(note));
        }
    }
}

pub open spec fn link_views(links: Seq<NoteLink>) -> Seq<LinkView> {
    Seq::new(links.len(), |i: int| links[i]@)
}

// ---------------------------------------------------------------------------
// Searching
// ---------------------------------------------------------------------------

/// Whether a note's title or else its path holds the normalized query.
pub open spec fn match_kind(note: NoteEntry, q: Seq<char>) -> Option<Seq<char>> {
    if has_text(title_key(note.title@), q) {
        Some("title"@)
    } else if has_text(title_key(note.relative_path@), q) {
        Some("path"@)
    } else {
        None
    }
}

fn match_kind_of(note: &NoteEntry, q: &[char]) -> (r: Option<&'static str>)
    ensures
        match r {
            Some(kind) => match_kind(*note, q@) == Some(kind@),
            None => match_kind(*note, q@) is None,
        },
{
    let title = normalize_title(note.title.as_str());
    let title_chars = to_chars(title.as_str());
    if contains_text(title_chars.as_slice(), q) {
        return Some("title");
    }
    let path = normalize_title(note.relative_path.as_str());
    let path_chars = to_chars(path.as_str());
    if contains_text(path_chars.as_slice(), q) {
        return Some("path");
    }
    None
}

pub open spec fn hit_of(note: NoteEntry, kind: Seq<char>, snippet: Option<Seq<char>>) -> HitView {
    HitView {
        title: note.title@,
        slug: note.slug@,
        relative_path: note.relative_path@,
        match_kind: kind,
        snippet,
    }
}

fn make_hit(note: &NoteEntry, kind: &str, snippet: Option<String>) -> (r: SearchHit)
    ensures
        r@ == hit_of(*note, kind@, opt_text(snippet)),
{
    SearchHit {
        title: note.title.clone(),
        slug: note.slug.clone(),
        relative_path: note.relative_path.clone(),
        match_kind: str_owned(kind),
        snippet,
    }
}

pub open spec fn hit_views(hits: Seq<SearchHit>) -> Seq<HitView> {
    Seq::new(hits.len(), |i: int| hits[i]@)
}

/// The notes with the given slugs whose title or path matches, in order.
pub open spec fn name_hits(notes: Seq<NoteEntry>, slugs: Seq<Seq<char>>, q: Seq<char>) -> Seq<HitView>
    decreases slugs.len(),
{
    if slugs.len() == 0 {
        seq![]
    } else {
        let prev = name_hits(notes, slugs.drop_last(), q);
        match note_with_slug(notes, slugs.last()) {
            Some(note) => match match_kind(*note, q) {
                Some(kind) => prev.push(hit_of(*note, kind, None)),
                None => prev,
            },
            None => prev,
        }
    }
}

/// A hit names the slug.
pub open spec fn seen(hits: Seq<HitView>, slug: Seq<char>) -> bool {
    exists|i: int| 0 <= i < hits.len() && (#[trigger] hits[i]).slug == slug
}

/// The notes with the given slugs that are not among the hits so far and whose
/// body matches, in order.
pub open spec fn body_hits(
    notes: Seq<NoteEntry>,
    slugs: Seq<Seq<char>>,
    q: Seq<char>,
    bodies: Seq<NoteBody>,
    named: Seq<HitView>,
) -> Seq<HitView>
    decreases slugs.len(),
{
    if slugs.len() == 0 {
        seq![]
    } else {
        let prev = body_hits(notes, slugs.drop_last(), q, bodies, named);
        match note_with_slug(notes, slugs.last()) {
            Some(note) => if seen(named, note.slug@) {
                prev
            } else {
                match body_of(bodies, note.slug@) {
                    Ok(text) => match snippet_of(text, q) {
                        Some(snippet) => prev.push(hit_of(*note, "content"@, Some(snippet))),
                        None => prev,
                    },
                    Err(_) => prev,
                }
            },
            None => prev,
        }
    }
}

/// What a search finds.
pub open spec fn search_hits(
    index: VaultIndex,
    query: Seq<char>,
    include_content: bool,
    limit: nat,
    bodies: Seq<NoteBody>,
) -> Seq<HitView> {
    let q = title_key(query);
    let slugs = strs(index.ordered_slugs@);
    let named = name_hits(index.by_slug@, slugs, q);
    let all = if include_content {
        named + body_hits(index.by_slug@, slugs, q, bodies, named)
    } else {
        named
    };
    if q.len() == 0 || limit == 0 {
        seq![]
    } else if named.len() >= limit {
        named.take(limit as int)
    } else if all.len() >= limit {
        all.take(limit as int)
    } else {
        all
    }
}

proof fn lemma_name_hits_prefix(
    notes: Seq<NoteEntry>,
    slugs: Seq<Seq<char>>,
    q: Seq<char>,
    i: int,
)
    requires
        0 <= i <= slugs.len(),
    ensures
        name_hits(notes, slugs.take(i), q).len() <= name_hits(notes, slugs, q).len(),
        name_hits(notes, slugs, q).take(name_hits(notes, slugs.take(i), q).len() as int)
            == name_hits(notes, slugs.take(i), q),
    decreases slugs.len() - i,
{
    let here = name_hits(notes, slugs.take(i), q);
    if i < slugs.len() {
        lemma_name_hits_prefix(notes, slugs, q, i + 1);
        assert(slugs.take(i + 1).drop_last() =~= slugs.take(i));
        let next = name_hits(notes, slugs.take(i + 1), q);
        assert(next.take(here.len() as int) =~= here);
        let all = name_hits(notes, slugs, q);
        assert(all.take(here.len() as int) =~= all.take(next.len() as int).take(here.len() as int));
    } else {
        assert(slugs.take(i) =~= slugs);
        assert(here.take(here.len() as int) =~= here);
    }
}

proof fn lemma_body_hits_prefix(
    notes: Seq<NoteEntry>,
    slugs: Seq<Seq<char>>,
    q: Seq<char>,
    bodies: Seq<NoteBody>,
    named: Seq<HitView>,
    i: int,
)
    requires
        0 <= i <= slugs.len(),
    ensures
        body_hits(notes, slugs.take(i), q, bodies, named).len() <= body_hits(
            notes,
            slugs,
            q,
            bodies,
            named,
        ).len(),
        body_hits(notes, slugs, q, bodies, named).take(
            body_hits(notes, slugs.take(i), q, bodies, named).len() as int,
        ) == body_hits(notes, slugs.take(i), q, bodies, named),
    decreases slugs.len() - i,
{
    let here = body_hits(notes, slugs.take(i), q, bodies, named);
    if i < slugs.len() {
        lemma_body_hits_prefix(notes, slugs, q, bodies, named, i + 1);
        assert(slugs.take(i + 1).drop_last() =~= slugs.take(i));
        let next = body_hits(notes, slugs.take(i + 1), q, bodies, named);
        assert(next.take(here.len() as int) =~= here);
        let all = body_hits(notes, slugs, q, bodies, named);
        assert(all.take(here.len() as int) =~= all.take(next.len() as int).take(here.len() as int));
    } else {
        assert(slugs.take(i) =~= slugs);
        assert(here.take(here.len() as int) =~= here);
    }
}

/// A note's slug is seen among the name hits if and only if its name matches.
proof fn lemma_seen(notes: Seq<NoteEntry>, slugs: Seq<Seq<char>>, q: Seq<char>, j: int)
    requires
        0 <= j < slugs.len(),
        index_of(slugs_of(notes), slugs[j]) < notes.len(),
    ensures
        ({
            let note = notes[index_of(slugs_of(notes), slugs[j])];
            seen(name_hits(notes, slugs, q), note.slug@) <==> match_kind(note, q) is Some
        }),
    decreases slugs.len(),
{
    let i = index_of(slugs_of(notes), slugs[j]);
    lemma_index_of(slugs_of(notes), slugs[j]);
    let note = notes[i];
    assert(note.slug@ == slugs[j]);
    lemma_hits_name_matching_notes(notes, slugs, q, note.slug@);
    if match_kind(note, q) is Some {
        lemma_match_is_hit(notes, slugs, q, j);
    }
}

proof fn lemma_hits_name_matching_notes(
    notes: Seq<NoteEntry>,
    slugs: Seq<Seq<char>>,
    q: Seq<char>,
    slug: Seq<char>,
)
    ensures
        seen(name_hits(notes, slugs, q), slug) ==> index_of(slugs_of(notes), slug) < notes.len()
            && match_kind(notes[index_of(slugs_of(notes), slug)], q) is Some,
    decreases slugs.len(),
{
    if slugs.len() > 0 {
        lemma_hits_name_matching_notes(notes, slugs.drop_last(), q, slug);
        let all = name_hits(notes, slugs, q);
        let prev = name_hits(notes, slugs.drop_last(), q);
        if seen(all, slug) {
            let k = choose|k: int| 0 <= k < all.len() && (#[trigger] all[k]).slug == slug;
            if k < prev.len() {
                assert(prev[k] == all[k]);
                assert(seen(prev, slug));
            } else {
                lemma_index_of(slugs_of(notes), slugs.last());
            }
        }
    }
}

proof fn lemma_match_is_hit(notes: Seq<NoteEntry>, slugs: Seq<Seq<char>>, q: Seq<char>, j: int)
    requires
        0 <= j < slugs.len(),
        index_of(slugs_of(notes), slugs[j]) < notes.len(),
        match_kind(notes[index_of(slugs_of(notes), slugs[j])], q) is Some,
    ensures
        seen(name_hits(notes, slugs, q), notes[index_of(slugs_of(notes), slugs[j])].slug@),
    decreases slugs.len(),
{
    let slug = notes[index_of(slugs_of(notes), slugs[j])].slug@;
    let all = name_hits(notes, slugs, q);
    let prev = name_hits(notes, slugs.drop_last(), q);
    if j == slugs.len() - 1 {
        assert(all.last().slug == slug);
        assert(all[all.len() - 1].slug == slug);
    } else {
        lemma_match_is_hit(notes, slugs.drop_last(), q, j);
        let k = choose|k: int| 0 <= k < prev.len() && (#[trigger] prev[k]).slug == slug;
        assert(all[k] == prev[k]);
    }
}

// ---------------------------------------------------------------------------
// The folder tree
// ---------------------------------------------------------------------------

/// A note with the folders it stands in.
struct TreeItem {
    folders: Vec<Vec<char>>,
    title: String,
    slug: String,
}

/// What a tree item says.
pub struct ItemView {
    pub folders: Seq<Seq<char>>,
    pub title: Seq<char>,
    pub slug: Seq<char>,
}

impl View for TreeItem {
    type V = ItemView;

    closed spec fn view(&self) -> ItemView {
        ItemView { folders: texts(self.folders@), title: self.title@, slug: self.slug@ }
    }
}

spec fn item_views(items: Seq<TreeItem>) -> Seq<ItemView> {
    Seq::new(items.len(), |i: int| items[i]@)
}

pub open spec fn tree_item(note: NoteEntry) -> ItemView {
    ItemView {
        folders: split(note.relative_path@, '/').drop_last(),
        title: note.title@,
        slug: note.slug@,
    }
}

/// The notes with the given slugs, each with its folders.
pub open spec fn tree_items(notes: Seq<NoteEntry>, slugs: Seq<Seq<char>>) -> Seq<ItemView>
    decreases slugs.len(),
{
    if slugs.len() == 0 {
        seq![]
    } else {
        let prev = tree_items(notes, slugs.drop_last());
        match note_with_slug(notes, slugs.last()) {
            Some(note) => prev.push(tree_item(*note)),
            None => prev,
        }
    }
}

/// The items that stand in no further folder, as title and slug.
pub open spec fn top_notes(items: Seq<ItemView>) -> Seq<(Seq<char>, Seq<char>)>
    decreases items.len(),
{
    if items.len() == 0 {
        seq![]
    } else {
        let prev = top_notes(items.drop_last());
        if items.last().folders.len() == 0 {
            prev.push((items.last().title, items.last().slug))
        } else {
            prev
        }
    }
}

/// The items that stand in the folder `name`, seen from there.
pub open spec fn items_in(items: Seq<ItemView>, name: Seq<char>) -> Seq<ItemView>
    decreases items.len(),
{
    if items.len() == 0 {
        seq![]
    } else {
        let prev = items_in(items.drop_last(), name);
        let last = items.last();
        if last.folders.len() > 0 && last.folders[0] == name {
            prev.push(ItemView { folders: last.folders.skip(1), ..last })
        } else {
            prev
        }
    }
}

/// Some item stands in the folder `name`.
pub open spec fn has_folder(items: Seq<ItemView>, name: Seq<char>) -> bool {
    exists|i: int|
        0 <= i < items.len() && (#[trigger] items[i]).folders.len() > 0 && items[i].folders[0]
            == name
}

pub open spec fn explorer_notes(notes: Seq<ExplorerNote>) -> Seq<(Seq<char>, Seq<char>)> {
    Seq::new(notes.len(), |i: int| (notes[i].title@, notes[i].slug@))
}

pub open spec fn folder_names(folders: Seq<ExplorerFolder>) -> Seq<Seq<char>> {
    Seq::new(folders.len(), |i: int| folders[i].name@)
}

/// `t` is the tree of the items: its notes are those in no further folder, in
/// order, and its folders are the ones that items stand in, by name, each the
/// tree of its items. `depth` bounds the nesting.
pub open spec fn is_tree(
    t: ExplorerFolder,
    name: Seq<char>,
    items: Seq<ItemView>,
    depth: nat,
) -> bool
    decreases depth,
{
    &&& t.name@ == name
    &&& explorer_notes(t.notes@) == top_notes(items)
    &&& strictly_sorted(folder_names(t.folders@))
    &&& forall|f: Seq<char>| #[trigger]
        folder_names(t.folders@).contains(f) <==> has_folder(items, f)
    &&& if depth == 0 {
        t.folders@.len() == 0
    } else {
        forall|i: int|
            0 <= i < t.folders@.len() ==> is_tree(
                #[trigger] t.folders@[i],
                t.folders@[i].name@,
                items_in(items, t.folders@[i].name@),
                (depth - 1) as nat,
            )
    }
}

fn max_depth(items: &Vec<TreeItem>) -> (r: usize)
    ensures
        forall|i: int| 0 <= i < items@.len() ==> (#[trigger] items@[i])@.folders.len() <= r,
{
    let mut r: usize = 0;
    let mut i: usize = 0;
    while i < items.len()
        invariant
            0 <= i <= items@.len(),
            forall|k: int| 0 <= k < i ==> (#[trigger] items@[k])@.folders.len() <= r,
        decreases items@.len() - i,
    {
        if items[i].folders.len() > r {
            r = items[i].folders.len();
        }
        i = i + 1;
    }
    r
}

fn enter_folder(items: &Vec<TreeItem>, name: &String) -> (r: Vec<TreeItem>)
    ensures
        item_views(r@) == items_in(item_views(items@), name@),
        forall|k: int|
            0 <= k < r@.len() ==> exists|i: int|
                0 <= i < items@.len() && (#[trigger] r@[k])@.folders.len() + 1 == (
                #[trigger] items@[i])@.folders.len(),
{
    let ghost iv = item_views(items@);
    let wanted = to_chars(name.as_str());
    let mut out: Vec<TreeItem> = Vec::new();
    let mut i: usize = 0;
    assert(item_views(out@) =~= items_in(iv.take(0), name@));
    while i < items.len()
        invariant
            0 <= i <= items@.len(),
            iv == item_views(items@),
            wanted@ == name@,
            item_views(out@) == items_in(iv.take(i as int), name@),
            forall|k: int|
                0 <= k < out@.len() ==> exists|i: int|
                    0 <= i < items@.len() && (#[trigger] out@[k])@.folders.len() + 1 == (
                    #[trigger] items@[i])@.folders.len(),
        decreases items@.len() - i,
    {
        let item = &items[i];
        proof {
            assert(iv.take(i + 1).drop_last() =~= iv.take(i as int));
            assert(iv.take(i + 1).last() == item@);
        }
        if item.folders.len() > 0 && chars_eq(item.folders[0].as_slice(), wanted.as_slice()) {
            let mut rest: Vec<Vec<char>> = Vec::new();
            let mut j: usize = 1;
            assert(texts(rest@) =~= texts(item.folders@).subrange(1, 1));
            while j < item.folders.len()
                invariant
                    1 <= j <= item.folders@.len(),
                    texts(rest@) == texts(item.folders@).subrange(1, j as int),
                decreases item.folders@.len() - j,
            {
                let part = slice_to_vec(item.folders[j].as_slice());
                proof {
                    lemma_texts_push(rest@, part);
                }
                rest.push(part);
                j = j + 1;
                assert(texts(rest@) =~= texts(item.folders@).subrange(1, j as int));
            }
            assert(texts(rest@) =~= texts(item.folders@).skip(1));
            let inner = TreeItem {
                folders: rest,
                title: item.title.clone(),
                slug: item.slug.clone(),
            };
            let ghost was = out@;
            out.push(inner);
            proof {
                assert(item_views(out@) =~= item_views(was).push(inner@));
                assert(inner@.folders.len() + 1 == items@[i as int]@.folders.len());
                assert forall|k: int| 0 <= k < out@.len() implies exists|i: int|
                    0 <= i < items@.len() && (#[trigger] out@[k])@.folders.len() + 1 == (
                    #[trigger] items@[i])@.folders.len() by {
                    if k < was.len() {
                        assert(out@[k] == was[k]);
                        let m = choose|m: int|
                            0 <= m < items@.len() && was[k]@.folders.len() + 1 == (
                            #[trigger] items@[m])@.folders.len();
                        assert(out@[k]@.folders.len() + 1 == items@[m]@.folders.len());
                    } else {
                        assert(out@[k]@.folders.len() + 1 == items@[i as int]@.folders.len());
                    }
                }
            }
        }
        i = i + 1;
    }
    assert(iv.take(i as int) =~= iv);
    out
}

fn grow_tree(name: &str, items: &Vec<TreeItem>, depth: usize) -> (r: ExplorerFolder)
    requires
        forall|i: int| 0 <= i < items@.len() ==> (#[trigger] items@[i])@.folders.len() <= depth,
    ensures
        is_tree(r, name@, item_views(items@), depth as nat),
    decreases depth,
{
    let ghost iv = item_views(items@);
    let mut notes: Vec<ExplorerNote> = Vec::new();
    let mut heads: Vec<String> = Vec::new();
    let mut i: usize = 0;
    assert(explorer_notes(notes@) =~= top_notes(iv.take(0)));
    while i < items.len()
        invariant
            0 <= i <= items@.len(),
            iv == item_views(items@),
            explorer_notes(notes@) == top_notes(iv.take(i as int)),
            forall|f: Seq<char>| #[trigger]
                strs(heads@).contains(f) <==> has_folder(iv.take(i as int), f),
        decreases items@.len() - i,
    {
        let item = &items[i];
        let ghost now = iv.take(i + 1);
        let ghost was = iv.take(i as int);
        let ghost old_heads = heads@;
        proof {
            assert(now.drop_last() =~= was);
            assert(now.last() == item@);
        }
        if item.folders.len() == 0 {
            let ghost old_notes = notes@;
            let note = ExplorerNote { title: item.title.clone(), slug: item.slug.clone() };
            notes.push(note);
            assert(explorer_notes(notes@) =~= explorer_notes(old_notes).push(
                (item.title@, item.slug@),
            ));
        } else {
            let head = from_chars(item.folders[0].as_slice());
            proof {
                lemma_strs_push(heads@, head);
            }
            heads.push(head);
        }
        proof {
            assert forall|f: Seq<char>| #[trigger] strs(heads@).contains(f) <==> has_folder(
                now,
                f,
            ) by {
                if strs(heads@).contains(f) {
                    let k = choose|k: int| 0 <= k < strs(heads@).len() && strs(heads@)[k] == f;
                    if k < old_heads.len() {
                        assert(strs(old_heads)[k] == f);
                        assert(strs(old_heads).contains(f));
                        let m = choose|m: int|
                            0 <= m < was.len() && (#[trigger] was[m]).folders.len() > 0
                                && was[m].folders[0] == f;
                        assert(now[m] == was[m]);
                    } else {
                        assert(now[i as int].folders[0] == f);
                    }
                }
                if has_folder(now, f) {
                    let m = choose|m: int|
                        0 <= m < now.len() && (#[trigger] now[m]).folders.len() > 0
                            && now[m].folders[0] == f;
                    if m < i {
                        assert(was[m] == now[m]);
                        assert(has_folder(was, f));
                        assert(strs(old_heads).contains(f));
                        let k = choose|k: int|
                            0 <= k < strs(old_heads).len() && strs(old_heads)[k] == f;
                        assert(strs(heads@)[k] == f);
                    } else {
                        assert(strs(heads@)[old_heads.len() as int] == f);
                    }
                }
            }
        }
        i = i + 1;
    }
    assert(iv.take(i as int) =~= iv);
    let names = sort_dedup(&heads);
    let mut folders: Vec<ExplorerFolder> = Vec::new();
    if depth == 0 {
        proof {
            assert forall|f: Seq<char>| !has_folder(iv, f) by {
                if has_folder(iv, f) {
                    let m = choose|m: int|
                        0 <= m < iv.len() && (#[trigger] iv[m]).folders.len() > 0
                            && iv[m].folders[0] == f;
                    assert(items@[m]@.folders.len() <= 0);
                }
            }
            if names@.len() > 0 {
                assert(strs(names@)[0] == names@[0]@);
                assert(strs(names@).contains(names@[0]@));
            }
            assert(folder_names(folders@) =~= strs(names@));
        }
    } else {
        let mut n: usize = 0;
        while n < names.len()
            invariant
                0 <= n <= names@.len(),
                depth > 0,
                iv == item_views(items@),
                forall|i: int|
                    0 <= i < items@.len() ==> (#[trigger] items@[i])@.folders.len() <= depth,
                folders@.len() == n,
                forall|k: int|
                    0 <= k < n ==> (#[trigger] folders@[k]).name@ == names@[k]@ && is_tree(
                        folders@[k],
                        folders@[k].name@,
                        items_in(iv, folders@[k].name@),
                        (depth - 1) as nat,
                    ),
            decreases names@.len() - n,
        {
            let inner = enter_folder(items, &names[n]);
            assert forall|k: int| 0 <= k < inner@.len() implies (#[trigger] inner@[k])@.folders.len()
                <= depth - 1 by {
                let m = choose|m: int|
                    0 <= m < items@.len() && inner@[k]@.folders.len() + 1 == (
                    #[trigger] items@[m])@.folders.len();
                assert(items@[m]@.folders.len() <= depth);
            }
            let folder = grow_tree(names[n].as_str(), &inner, depth - 1);
            folders.push(folder);
            n = n + 1;
        }
        assert(folder_names(folders@) =~= strs(names@));
    }
    ExplorerFolder { name: str_owned(name), folders, notes }
}

} // verus!
