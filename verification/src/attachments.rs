//! The attachment operations: listing, importing, moving, renaming, deleting.

use vstd::prelude::*;
use vstd::slice::slice_to_vec;

use crate::asset_plan::{asset_reference_rewrite_plan, index_entries, reference_plan};
use crate::asset_refs::{asset_references, is_markdown_path, markdown_path, referenced_assets};
use crate::files::{
    dir_of, dir_text, existing, fact_of, find_fact, join_path, path_joined, trash_file,
    unique_trash_attachment_relative_path, FileFact,
};
use crate::hash::{bytes_hash, content_hash_of, fnv_from, fnv_update, render_hash, FNV_OFFSET};
use crate::index::{all_under_root, name_under_root, opt_owned, root_joined, under_root};
use crate::layers::{
    declared, file_decl, first_failed, layer_of, sorted_markers, DeclView, LayerMap, MarkerFile,
};
use crate::note_ops::{normalize_vault_path, path_result, vault_path};
use crate::paths::{path_extension, path_extension_of};
use crate::tables::{clone_strings, contains_string, NoteBody};
use crate::text::{
    ascii_lower_all, chars_eq, clone_opt, contains_char, decimal, from_chars, lemma_strs_push,
    opt_text, push_all, push_str, split, split_on, str_owned, strs, texts, to_ascii_lower_all,
    to_chars, to_decimal, trim, trimmed,
};
use crate::types::{NoteEntry, VaultIndex};
use crate::write_types::{
    await_folder, folder_stop, made_views, rewrite_views, AttachmentInfo, AttachmentOutcome,
    AttachmentView, ErrorView, InfoView, PlanStop, StopView, TextRewrite, WriteError,
};

verus! {

// ---------------------------------------------------------------------------
// Describing a file
// ---------------------------------------------------------------------------

/// The size and hash of a file that is read in pieces.
pub struct FileDigest {
    size: u64,
    hash: u64,
    bytes: Ghost<Seq<u8>>,
}

/// A number of bytes, as far as it can be told.
pub open spec fn capped_size(n: nat) -> nat {
    if n <= u64::MAX {
        n
    } else {
        u64::MAX as nat
    }
}

impl FileDigest {
    /// The bytes so far.
    pub closed spec fn bytes(&self) -> Seq<u8> {
        self.bytes@
    }

    pub closed spec fn wf(&self) -> bool {
        self.size == capped_size(self.bytes@.len()) && self.hash == fnv_from(
            FNV_OFFSET,
            self.bytes@,
        )
    }

    pub fn new() -> (r: Self)
        ensures
            r.wf(),
            r.bytes() == Seq::<u8>::empty(),
    {
        FileDigest { size: 0, hash: FNV_OFFSET, bytes: Ghost(Seq::empty()) }
    }

    /// Adds the next piece.
    pub fn update(&mut self, piece: &[u8])
        requires
            old(self).wf(),
        ensures
            final(self).wf(),
            final(self).bytes() == old(self).bytes() + piece@,
    {
        let n: u64 = piece.len() as u64;
        self.size = self.size.saturating_add(n);
        self.hash = fnv_update(self.hash, piece);
        proof {
            crate::hash::hashing_in_pieces(FNV_OFFSET, self.bytes@, piece@);
        }
        self.bytes = Ghost(self.bytes@ + piece@);
    }

    /// The size and the hash.
    pub fn finish(&self) -> (r: (u64, String))
        requires
            self.wf(),
        ensures
            r.0 == capped_size(self.bytes().len()),
            r.1@ == bytes_hash(self.bytes()),
    {
        (self.size, render_hash(self.hash))
    }
}

/// The description of a file. Its layer is that of its folder.
pub open spec fn info_of(
    relative: Seq<char>,
    size: nat,
    hash: Seq<char>,
    decls: Seq<(Seq<char>, DeclView)>,
) -> InfoView {
    InfoView {
        relative_path: relative,
        size_bytes: size,
        content_hash: hash,
        layer: layer_of(decls, relative),
    }
}

pub fn attachment_info(relative: &str, size: u64, hash: &str, layers: &LayerMap) -> (r:
    AttachmentInfo)
    ensures
        r@ == info_of(relative@, size as nat, hash@, layers.decls()),
{
    AttachmentInfo {
        relative_path: str_owned(relative),
        size_bytes: size,
        content_hash: str_owned(hash),
        layer: opt_owned(layers.layer_for(relative)),
    }
}

// ---------------------------------------------------------------------------
// Listing
// ---------------------------------------------------------------------------

/// The files that the references lead to from a folder, each once, in order.
/// References to nothing and to folders are passed over; one that leads out of
/// the vault is refused.
pub open spec fn attached_files(facts: Seq<FileFact>, dir: Seq<char>, refs: Seq<Seq<char>>) -> Result<
    Seq<Seq<char>>,
    ErrorView,
>
    decreases refs.len(),
{
    if refs.len() == 0 {
        Ok(seq![])
    } else {
        match attached_files(facts, dir, refs.drop_last()) {
            Err(e) => Err(e),
            Ok(prev) => match fact_of(facts, join_path(dir, refs.last())) {
                None => Ok(prev),
                Some(fact) => if !fact.is_file {
                    Ok(prev)
                } else {
                    match fact.resolved {
                        None => Err(ErrorView::InvalidInput("path cannot escape the vault"@)),
                        Some(resolved) => if prev.contains(resolved) {
                            Ok(prev)
                        } else {
                            Ok(prev.push(resolved))
                        },
                    }
                },
            },
        }
    }
}

proof fn lemma_attached_error_stays(
    facts: Seq<FileFact>,
    dir: Seq<char>,
    refs: Seq<Seq<char>>,
    i: int,
)
    requires
        0 <= i <= refs.len(),
        attached_files(facts, dir, refs.take(i)) is Err,
    ensures
        attached_files(facts, dir, refs) == attached_files(facts, dir, refs.take(i)),
    decreases refs.len() - i,
{
    if i < refs.len() {
        assert(refs.take(i + 1).drop_last() =~= refs.take(i));
        lemma_attached_error_stays(facts, dir, refs, i + 1);
    } else {
        assert(refs.take(i) =~= refs);
    }
}

pub open spec fn names_result(r: Result<Vec<String>, WriteError>) -> Result<
    Seq<Seq<char>>,
    ErrorView,
> {
    match r {
        Ok(v) => Ok(strs(v@)),
        Err(e) => Err(e@),
    }
}

/// The vault-relative paths of a note's attachments.
pub fn list_note_attachments(
    entry: &NoteEntry,
    body: &Result<String, String>,
    facts: &Vec<FileFact>,
) -> (r: Result<Vec<String>, WriteError>)
    ensures
        names_result(r) == (match *body {
            Err(why) => Err::<Seq<Seq<char>>, ErrorView>(
                ErrorView::Io(
                    "failed to read note '"@ + entry@.relative_path + "' for attachments: "@ + why@,
                ),
            ),
            Ok(text) => attached_files(
                facts@,
                dir_text(entry@.file),
                asset_references(text@),
            ),
        }),
{
    let text = match body {
        Err(why) => {
            let mut out = to_chars("failed to read note '");
            push_str(&mut out, entry.relative_path.as_str());
            push_str(&mut out, "' for attachments: ");
            push_str(&mut out, why.as_str());
            return Err(WriteError::Io(from_chars(out.as_slice())));
        },
        Ok(text) => text,
    };
    let refs = referenced_assets(text.as_str());
    let ghost rv = asset_references(text@);
    let path = to_chars(entry.file.as_str());
    let dir = dir_of(path.as_slice());
    let mut out: Vec<String> = Vec::new();
    let mut i: usize = 0;
    assert(strs(out@) =~= seq![]);
    while i < refs.len()
        invariant
            0 <= i <= refs@.len(),
            rv == strs(refs@),
            dir@ == dir_text(entry@.file),
            body == Ok::<String, String>(*text),
            rv == asset_references(text@),
            attached_files(facts@, dir@, rv.take(i as int)) == Ok::<Seq<Seq<char>>, ErrorView>(
                strs(out@),
            ),
        decreases refs@.len() - i,
    {
        proof {
            assert(rv.take(i + 1).drop_last() =~= rv.take(i as int));
            assert(rv.take(i + 1).last() == rv[i as int]);
        }
        let reference = to_chars(refs[i].as_str());
        let target = path_joined(dir, reference.as_slice());
        match find_fact(facts, target.as_slice()) {
            None => {},
            Some(fact) => {
                if fact.is_file {
                    match &fact.resolved {
                        None => {
                            proof {
                                lemma_attached_error_stays(facts@, dir@, rv, i + 1);
                            }
                            return Err(
                                WriteError::InvalidInput(
                                    str_owned("path cannot escape the vault"),
                                ),
                            );
                        },
                        Some(resolved) => {
                            if !contains_string(&out, resolved) {
                                let item = resolved.clone();
                                proof {
                                    lemma_strs_push(out@, item);
                                }
                                out.push(item);
                            }
                        },
                    }
                }
            },
        }
        i = i + 1;
    }
    assert(rv.take(i as int) =~= rv);
    Ok(out)
}

// ---------------------------------------------------------------------------
// Importing
// ---------------------------------------------------------------------------

/// The extensions of the files that may be uploaded.
pub open spec fn uploadable_extensions() -> Seq<Seq<char>> {
    seq!["png"@, "jpg"@, "jpeg"@, "gif"@, "webp"@, "svg"@, "pdf"@, "avif"@]
}

/// The path's extension is among those that may be uploaded, in any ASCII case.
pub open spec fn uploadable(path: Seq<char>) -> bool {
    match path_extension(path) {
        Some(ext) => uploadable_extensions().contains(ascii_lower_all(ext)),
        None => false,
    }
}

/// The refusal of an extension.
pub open spec fn unsupported_extension(path: Seq<char>) -> ErrorView {
    ErrorView::InvalidInput(
        "unsupported attachment extension: "@ + match path_extension(path) {
            Some(ext) => ascii_lower_all(ext),
            None => seq![],
        },
    )
}

pub fn allowed_attachment_extensions() -> (r: Vec<String>)
    ensures
        strs(r@) == uploadable_extensions(),
{
    let mut out: Vec<String> = Vec::new();
    out.push(str_owned("png"));
    out.push(str_owned("jpg"));
    out.push(str_owned("jpeg"));
    out.push(str_owned("gif"));
    out.push(str_owned("webp"));
    out.push(str_owned("svg"));
    out.push(str_owned("pdf"));
    out.push(str_owned("avif"));
    assert(strs(out@) =~= uploadable_extensions());
    out
}

pub fn ensure_uploadable_attachment_path(path: &[char]) -> (r: Result<(), WriteError>)
    ensures
        match r {
            Ok(_) => uploadable(path@),
            Err(e) => !uploadable(path@) && e@ == unsupported_extension(path@),
        },
{
    let allowed = allowed_attachment_extensions();
    let ext = match path_extension_of(path) {
        Some(ext) => {
            let lower = to_ascii_lower_all(ext.as_slice());
            let text = from_chars(lower.as_slice());
            if contains_string(&allowed, &text) {
                return Ok(());
            }
            lower
        },
        None => Vec::new(),
    };
    let mut out = to_chars("unsupported attachment extension: ");
    push_all(&mut out, ext.as_slice());
    proof {
        if path_extension(path@) is None {
            assert(ext@ =~= seq![]);
        }
    }
    Err(WriteError::InvalidInput(from_chars(out.as_slice())))
}

/// An import: the file to write and what is reported when it is written.
pub struct AttachmentImport {
    pub path: String,
    pub outcome: AttachmentOutcome,
}

/// What an import does. The folder is made before the bytes are looked at.
pub open spec fn import_of(
    root: Seq<char>,
    target: Seq<char>,
    bytes: Seq<u8>,
    max_bytes: nat,
    overwrite: bool,
    facts: Seq<FileFact>,
    markers: Seq<MarkerFile>,
    made: Seq<Result<(), ErrorView>>,
) -> Result<(Seq<char>, AttachmentView), StopView> {
    match vault_path(target) {
        Err(e) => Err(StopView::Refused(e)),
        Ok(path) => {
            let failed = first_failed(sorted_markers(markers), 0);
            if !uploadable(path) {
                Err(StopView::Refused(unsupported_extension(path)))
            } else if folder_stop(made, 0, path, "attachment"@) is Some {
                Err(folder_stop(made, 0, path, "attachment"@)->0)
            } else if bytes.len() > max_bytes {
                Err(
                    StopView::Refused(
                        ErrorView::InvalidInput(
                            "attachment exceeds max size: "@ + decimal(bytes.len()) + " > "@
                                + decimal(max_bytes),
                        ),
                    ),
                )
            } else if fact_of(facts, path) is Some && !overwrite {
                Err(
                    StopView::Refused(
                        ErrorView::Conflict("Attachment already exists: "@ + path),
                    ),
                )
            } else if failed < markers.len() {
                Err(
                    StopView::Refused(
                        ErrorView::Io(file_decl(sorted_markers(markers)[failed])->Err_0),
                    ),
                )
            } else {
                Ok(
                    (
                        path,
                        AttachmentView {
                            attachment: info_of(
                                path,
                                bytes.len(),
                                bytes_hash(bytes),
                                declared(sorted_markers(markers)),
                            ),
                            rewritten_notes: 0,
                            trashed_path: None,
                            cleanup_warning: None,
                            affected_paths: seq![under_root(root, path)],
                        },
                    ),
                )
            }
        },
    }
}

/// Imports bytes as a file of the vault. The markers are read first, so that a
/// malformed one refuses the import before anything is written. `made` says what
/// came of making the folders that were asked for.
pub fn import_attachment_bytes(
    vault_root: &str,
    target_relative_path: &str,
    bytes: &[u8],
    max_bytes: u64,
    overwrite: bool,
    facts: &Vec<FileFact>,
    markers: &Vec<MarkerFile>,
    made: &Vec<Result<(), WriteError>>,
) -> (r: Result<AttachmentImport, PlanStop>)
    ensures
        match r {
            Ok(i) => import_of(
                vault_root@,
                target_relative_path@,
                bytes@,
                max_bytes as nat,
                overwrite,
                facts@,
                markers@,
                made_views(made@),
            ) == Ok::<(Seq<char>, AttachmentView), StopView>((i.path@, i.outcome@)),
            Err(stop) => import_of(
                vault_root@,
                target_relative_path@,
                bytes@,
                max_bytes as nat,
                overwrite,
                facts@,
                markers@,
                made_views(made@),
            ) == Err::<(Seq<char>, AttachmentView), StopView>(stop@),
        },
{
    let path = match normalize_vault_path(target_relative_path) {
        Err(e) => {
            return Err(PlanStop::Refused(e));
        },
        Ok(path) => path,
    };
    match ensure_uploadable_attachment_path(path.as_slice()) {
        Err(e) => {
            return Err(PlanStop::Refused(e));
        },
        Ok(_) => {},
    }
    let text = from_chars(path.as_slice());
    match await_folder(made, 0, text.as_str(), "attachment") {
        Some(stop) => {
            return Err(stop);
        },
        None => {},
    }
    let size: u64 = bytes.len() as u64;
    if size > max_bytes {
        let mut out = to_chars("attachment exceeds max size: ");
        let have = to_decimal(size as u128);
        let most = to_decimal(max_bytes as u128);
        push_all(&mut out, have.as_slice());
        push_str(&mut out, " > ");
        push_all(&mut out, most.as_slice());
        return Err(PlanStop::Refused(WriteError::InvalidInput(from_chars(out.as_slice()))));
    }
    if find_fact(facts, path.as_slice()).is_some() && !overwrite {
        let mut out = to_chars("Attachment already exists: ");
        push_all(&mut out, path.as_slice());
        return Err(PlanStop::Refused(WriteError::Conflict(from_chars(out.as_slice()))));
    }
    let layers = match LayerMap::collect(markers) {
        Err(message) => {
            return Err(PlanStop::Refused(WriteError::Io(message)));
        },
        Ok(layers) => layers,
    };
    let hash = content_hash_of(bytes);
    let info = attachment_info(text.as_str(), size, hash.as_str(), &layers);
    let mut affected: Vec<String> = Vec::new();
    affected.push(root_joined(vault_root, text.as_str()));
    assert(strs(affected@) =~= seq![under_root(vault_root@, text@)]);
    Ok(
        AttachmentImport {
            path: text,
            outcome: AttachmentOutcome {
                attachment: info,
                rewritten_notes: 0,
                trashed_path: None,
                cleanup_warning: None,
                affected_paths: affected,
            },
        },
    )
}

// ---------------------------------------------------------------------------
// Moving
// ---------------------------------------------------------------------------

/// A part of the path is the repository's folder.
pub open spec fn in_repository(path: Seq<char>) -> bool {
    split(path, '/').contains(".git"@)
}

pub fn is_in_repository(path: &[char]) -> (r: bool)
    ensures
        r == in_repository(path@),
{
    let parts = split_on(path, '/');
    let ghost pv = split(path@, '/');
    let git = to_chars(".git");
    let mut i: usize = 0;
    while i < parts.len()
        invariant
            0 <= i <= parts@.len(),
            pv == texts(parts@),
            pv == split(path@, '/'),
            git@ == ".git"@,
            forall|k: int| 0 <= k < i ==> #[trigger] pv[k] != ".git"@,
        decreases parts@.len() - i,
    {
        assert(pv[i as int] == parts@[i as int]@);
        if chars_eq(parts[i].as_slice(), git.as_slice()) {
            assert(pv[i as int] == ".git"@);
            return true;
        }
        i = i + 1;
    }
    false
}

/// Why a file may not be moved, or moved to a path: it is a note, or it stands
/// in the repository, as written or with links followed.
pub open spec fn unmovable(path: Seq<char>, resolved: Option<Seq<char>>) -> Option<ErrorView> {
    if markdown_path(path) {
        Some(ErrorView::InvalidInput("'"@ + path + "' is a note: use the note tools"@))
    } else if in_repository(path) || (resolved is Some && in_repository(resolved->0)) {
        Some(
            ErrorView::InvalidInput("'"@ + path + "' is inside the vault's repository"@),
        )
    } else {
        None
    }
}

fn refuse_unmovable(path: &[char], resolved: &Option<String>) -> (r: Option<WriteError>)
    ensures
        match r {
            Some(e) => unmovable(path@, opt_text(*resolved)) == Some(e@),
            None => unmovable(path@, opt_text(*resolved)) is None,
        },
{
    if is_markdown_path(path) {
        let mut out = to_chars("'");
        push_all(&mut out, path);
        push_str(&mut out, "' is a note: use the note tools");
        return Some(WriteError::InvalidInput(from_chars(out.as_slice())));
    }
    let inside = match resolved {
        Some(r) => {
            let chars = to_chars(r.as_str());
            is_in_repository(chars.as_slice())
        },
        None => false,
    };
    if is_in_repository(path) || inside {
        let mut out = to_chars("'");
        push_all(&mut out, path);
        push_str(&mut out, "' is inside the vault's repository");
        return Some(WriteError::InvalidInput(from_chars(out.as_slice())));
    }
    None
}

/// The move of one attachment with the rewrites it makes necessary.
pub struct AttachmentMove {
    /// The vault's folder.
    pub root: String,
    pub source: String,
    pub destination: String,
    pub rewrites: Vec<TextRewrite>,
    pub trashed_path: Option<String>,
}

/// What an [`AttachmentMove`] says.
pub struct AttachmentMoveView {
    pub root: Seq<char>,
    pub source: Seq<char>,
    pub destination: Seq<char>,
    pub rewrites: Seq<(Seq<char>, Seq<char>)>,
    pub trashed_path: Option<Seq<char>>,
}

impl View for AttachmentMove {
    type V = AttachmentMoveView;

    open spec fn view(&self) -> AttachmentMoveView {
        AttachmentMoveView {
            root: self.root@,
            source: self.source@,
            destination: self.destination@,
            rewrites: rewrite_views(self.rewrites@),
            trashed_path: opt_text(self.trashed_path),
        }
    }
}

pub open spec fn attachment_result(r: Result<AttachmentMove, PlanStop>) -> Result<
    AttachmentMoveView,
    StopView,
> {
    match r {
        Ok(m) => Ok(m@),
        Err(stop) => Err(stop@),
    }
}

/// The file that a caller names as an attachment.
pub open spec fn existing_attachment(facts: Seq<FileFact>, raw: Seq<char>) -> Result<
    Seq<char>,
    ErrorView,
> {
    match vault_path(raw) {
        Err(e) => Err(e),
        Ok(path) => if fact_of(facts, path) is None {
            Err(ErrorView::InvalidInput("attachment not found: "@ + path))
        } else {
            Ok(path)
        },
    }
}

fn resolve_existing_attachment_path(facts: &Vec<FileFact>, raw: &str) -> (r: Result<
    Vec<char>,
    WriteError,
>)
    ensures
        path_result(r) == existing_attachment(facts@, raw@),
{
    match normalize_vault_path(raw) {
        Err(e) => Err(e),
        Ok(path) => {
            if find_fact(facts, path.as_slice()).is_none() {
                let mut out = to_chars("attachment not found: ");
                push_all(&mut out, path.as_slice());
                return Err(WriteError::InvalidInput(from_chars(out.as_slice())));
            }
            Ok(path)
        },
    }
}

/// The move of an existing file to a path. `home` is the folder that the path
/// leads to, with links followed, as far as it exists. The target's folder is
/// the `n`th that is asked for, before the notes are looked at.
pub open spec fn attachment_relocation(
    index: VaultIndex,
    bodies: Seq<NoteBody>,
    facts: Seq<FileFact>,
    source: Seq<char>,
    target: Seq<char>,
    home: Option<Seq<char>>,
    trashed: Option<Seq<char>>,
    made: Seq<Result<(), ErrorView>>,
    n: int,
) -> Result<AttachmentMoveView, StopView> {
    let resolved = match fact_of(facts, source) {
        Some(fact) => fact.resolved,
        None => None,
    };
    if fact_of(facts, target) is Some {
        Err(
            StopView::Refused(
                ErrorView::Conflict("Destination attachment already exists: "@ + target),
            ),
        )
    } else if resolved is None {
        Err(StopView::Refused(ErrorView::InvalidInput("path cannot escape the vault"@)))
    } else if unmovable(source, resolved) is Some {
        Err(StopView::Refused(unmovable(source, resolved)->0))
    } else if unmovable(target, home) is Some {
        Err(StopView::Refused(unmovable(target, home)->0))
    } else if folder_stop(made, n, target, "attachment"@) is Some {
        Err(folder_stop(made, n, target, "attachment"@)->0)
    } else {
        match reference_plan(
            index_entries(index),
            bodies,
            facts,
            seq![],
            source,
            target,
            seq![],
        ) {
            Err(e) => Err(StopView::Refused(e)),
            Ok(rewrites) => Ok(
                AttachmentMoveView {
                    root: index.root@,
                    source,
                    destination: target,
                    rewrites,
                    trashed_path: trashed,
                },
            ),
        }
    }
}

fn move_attachment_by_paths(
    index: &VaultIndex,
    bodies: &Vec<NoteBody>,
    facts: &Vec<FileFact>,
    source: &[char],
    target: &[char],
    home: &Option<String>,
    trashed: Option<String>,
    made: &Vec<Result<(), WriteError>>,
    n: usize,
) -> (r: Result<AttachmentMove, PlanStop>)
    ensures
        attachment_result(r) == attachment_relocation(
            *index,
            bodies@,
            facts@,
            source@,
            target@,
            opt_text(*home),
            opt_text(trashed),
            made_views(made@),
            n as int,
        ),
{
    if find_fact(facts, target).is_some() {
        let mut out = to_chars("Destination attachment already exists: ");
        push_all(&mut out, target);
        return Err(PlanStop::Refused(WriteError::Conflict(from_chars(out.as_slice()))));
    }
    let resolved = match find_fact(facts, source) {
        Some(fact) => clone_opt(&fact.resolved),
        None => None,
    };
    if resolved.is_none() {
        return Err(
            PlanStop::Refused(WriteError::InvalidInput(str_owned("path cannot escape the vault"))),
        );
    }
    match refuse_unmovable(source, &resolved) {
        Some(e) => {
            return Err(PlanStop::Refused(e));
        },
        None => {},
    }
    match refuse_unmovable(target, home) {
        Some(e) => {
            return Err(PlanStop::Refused(e));
        },
        None => {},
    }
    let place = from_chars(target);
    match await_folder(made, n, place.as_str(), "attachment") {
        Some(stop) => {
            return Err(stop);
        },
        None => {},
    }
    let none: Vec<TextRewrite> = Vec::new();
    assert(rewrite_views(none@) =~= seq![]);
    let nobody = String::new();
    match asset_reference_rewrite_plan(
        index,
        bodies,
        facts,
        nobody.as_str(),
        source,
        target,
        &none,
    ) {
        Err(e) => Err(PlanStop::Refused(e)),
        Ok(rewrites) => Ok(
            AttachmentMove {
                root: index.root.clone(),
                source: from_chars(source),
                destination: place,
                rewrites,
                trashed_path: trashed,
            },
        ),
    }
}

/// Moves a file of the vault and repoints every note that refers to it.
pub fn move_attachment(
    index: &VaultIndex,
    bodies: &Vec<NoteBody>,
    facts: &Vec<FileFact>,
    source_relative_path: &str,
    target_relative_path: &str,
    home: &Option<String>,
    made: &Vec<Result<(), WriteError>>,
) -> (r: Result<AttachmentMove, PlanStop>)
    ensures
        attachment_result(r) == (match existing_attachment(facts@, source_relative_path@) {
            Err(e) => Err::<AttachmentMoveView, StopView>(StopView::Refused(e)),
            Ok(source) => match vault_path(target_relative_path@) {
                Err(e) => Err::<AttachmentMoveView, StopView>(StopView::Refused(e)),
                Ok(target) => attachment_relocation(
                    *index,
                    bodies@,
                    facts@,
                    source,
                    target,
                    opt_text(*home),
                    None,
                    made_views(made@),
                    0,
                ),
            },
        }),
{
    match resolve_existing_attachment_path(facts, source_relative_path) {
        Err(e) => Err(PlanStop::Refused(e)),
        Ok(source) => match normalize_vault_path(target_relative_path) {
            Err(e) => Err(PlanStop::Refused(e)),
            Ok(target) => move_attachment_by_paths(
                index,
                bodies,
                facts,
                source.as_slice(),
                target.as_slice(),
                home,
                None,
                made,
                0,
            ),
        },
    }
}

/// The file name that a caller gives.
pub open spec fn plain_filename(raw: Seq<char>) -> Result<Seq<char>, ErrorView> {
    let name = trim(raw);
    if name.len() == 0 || name == "."@ || name == ".."@ || name.contains('/') || name.contains(
        '\\',
    ) {
        Err(ErrorView::InvalidInput("filename must be a plain name"@))
    } else {
        Ok(name)
    }
}

fn normalize_staged_filename(raw: &str) -> (r: Result<Vec<char>, WriteError>)
    ensures
        path_result(r) == plain_filename(raw@),
{
    let chars = to_chars(raw);
    let name = trimmed(chars.as_slice());
    let dot = to_chars(".");
    let dots = to_chars("..");
    if name.len() == 0 || chars_eq(name, dot.as_slice()) || chars_eq(name, dots.as_slice())
        || contains_char(name, '/') || contains_char(name, '\\') {
        return Err(WriteError::InvalidInput(str_owned("filename must be a plain name")));
    }
    Ok(slice_to_vec(name))
}

/// Renames a file of the vault in its folder.
pub fn rename_attachment(
    index: &VaultIndex,
    bodies: &Vec<NoteBody>,
    facts: &Vec<FileFact>,
    source_relative_path: &str,
    new_filename: &str,
    home: &Option<String>,
    made: &Vec<Result<(), WriteError>>,
) -> (r: Result<AttachmentMove, PlanStop>)
    ensures
        attachment_result(r) == (match existing_attachment(facts@, source_relative_path@) {
            Err(e) => Err::<AttachmentMoveView, StopView>(StopView::Refused(e)),
            Ok(source) => match plain_filename(new_filename@) {
                Err(e) => Err::<AttachmentMoveView, StopView>(StopView::Refused(e)),
                Ok(name) => attachment_relocation(
                    *index,
                    bodies@,
                    facts@,
                    source,
                    join_path(dir_text(source), name),
                    opt_text(*home),
                    None,
                    made_views(made@),
                    0,
                ),
            },
        }),
{
    match resolve_existing_attachment_path(facts, source_relative_path) {
        Err(e) => Err(PlanStop::Refused(e)),
        Ok(source) => match normalize_staged_filename(new_filename) {
            Err(e) => Err(PlanStop::Refused(e)),
            Ok(name) => {
                let target = path_joined(dir_of(source.as_slice()), name.as_slice());
                move_attachment_by_paths(
                    index,
                    bodies,
                    facts,
                    source.as_slice(),
                    target.as_slice(),
                    home,
                    None,
                    made,
                    0,
                )
            },
        },
    }
}

/// Moves a file of the vault to the trash and repoints every note that refers
/// to it.
pub fn delete_attachment(
    index: &VaultIndex,
    bodies: &Vec<NoteBody>,
    facts: &Vec<FileFact>,
    source_relative_path: &str,
    home: &Option<String>,
    made: &Vec<Result<(), WriteError>>,
) -> (r: Result<AttachmentMove, PlanStop>)
    ensures
        attachment_result(r) == (match existing_attachment(facts@, source_relative_path@) {
            Err(e) => Err::<AttachmentMoveView, StopView>(StopView::Refused(e)),
            Ok(source) => {
                let resolved = match fact_of(facts@, source) {
                    Some(fact) => fact.resolved,
                    None => None,
                };
                if unmovable(source, resolved) is Some {
                    Err::<AttachmentMoveView, StopView>(
                        StopView::Refused(unmovable(source, resolved)->0),
                    )
                } else if folder_stop(
                    made_views(made@),
                    0,
                    trash_file(existing(facts@), source),
                    "trash"@,
                ) is Some {
                    Err::<AttachmentMoveView, StopView>(
                        folder_stop(
                            made_views(made@),
                            0,
                            trash_file(existing(facts@), source),
                            "trash"@,
                        )->0,
                    )
                } else {
                    let target = trash_file(existing(facts@), source);
                    attachment_relocation(
                        *index,
                        bodies@,
                        facts@,
                        source,
                        target,
                        opt_text(*home),
                        Some(target),
                        made_views(made@),
                        1,
                    )
                }
            },
        }),
{
    match resolve_existing_attachment_path(facts, source_relative_path) {
        Err(e) => Err(PlanStop::Refused(e)),
        Ok(source) => {
            let resolved = match find_fact(facts, source.as_slice()) {
                Some(fact) => clone_opt(&fact.resolved),
                None => None,
            };
            match refuse_unmovable(source.as_slice(), &resolved) {
                Some(e) => {
                    return Err(PlanStop::Refused(e));
                },
                None => {},
            }
            let trashed = unique_trash_attachment_relative_path(facts, source.as_slice());
            match await_folder(made, 0, trashed.as_str(), "trash") {
                Some(stop) => {
                    return Err(stop);
                },
                None => {},
            }
            let target = to_chars(trashed.as_str());
            move_attachment_by_paths(
                index,
                bodies,
                facts,
                source.as_slice(),
                target.as_slice(),
                home,
                Some(trashed),
                made,
                1,
            )
        },
    }
}

/// What a finished attachment move reports.
pub open spec fn attachment_outcome(
    m: AttachmentMoveView,
    rewritten: Seq<Seq<char>>,
    info: InfoView,
) -> AttachmentView {
    AttachmentView {
        attachment: info,
        rewritten_notes: rewritten.len(),
        trashed_path: m.trashed_path,
        cleanup_warning: None,
        affected_paths: all_under_root(m.root, rewritten.push(m.source).push(m.destination)),
    }
}

/// The report of a finished attachment move, from the files that were
/// rewritten and the moved file's description.
pub fn finish_attachment_move(m: &AttachmentMove, rewritten: &Vec<String>, info: AttachmentInfo) -> (
r: AttachmentOutcome)
    ensures
        r@ == attachment_outcome(m@, strs(rewritten@), info@),
{
    let mut affected = clone_strings(rewritten);
    let source = m.source.clone();
    let destination = m.destination.clone();
    proof {
        lemma_strs_push(affected@, source);
        lemma_strs_push(affected@.push(source), destination);
        assert(rewritten@.len() == strs(rewritten@).len());
    }
    affected.push(source);
    affected.push(destination);
    let affected = name_under_root(m.root.as_str(), &affected);
    AttachmentOutcome {
        attachment: info,
        rewritten_notes: rewritten.len(),
        trashed_path: clone_opt(&m.trashed_path),
        cleanup_warning: None,
        affected_paths: affected,
    }
}

// ---------------------------------------------------------------------------
// The files a note attaches
// ---------------------------------------------------------------------------

/// The reference leads from the folder to a file.
pub open spec fn leads_to_file(facts: Seq<FileFact>, dir: Seq<char>, target: Seq<char>) -> bool {
    fact_of(facts, join_path(dir, target)) matches Some(fact) && fact.is_file
}

/// The reference leads from the folder to the file that is really at `path`.
pub open spec fn attaches(
    facts: Seq<FileFact>,
    dir: Seq<char>,
    target: Seq<char>,
    path: Seq<char>,
) -> bool {
    leads_to_file(facts, dir, target) && fact_of(facts, join_path(dir, target))->0.resolved
        == Some(path)
}

/// A listing has the files that the references lead to, each once, and nothing
/// else. It is refused if and only if a reference leads to a file out of the vault.
#[verifier::rlimit(40)]
pub proof fn every_attached_file_is_listed_once(
    facts: Seq<FileFact>,
    dir: Seq<char>,
    refs: Seq<Seq<char>>,
)
    ensures
        attached_files(facts, dir, refs) is Err <==> exists|k: int|
            0 <= k < refs.len() && leads_to_file(facts, dir, #[trigger] refs[k]) && fact_of(
                facts,
                join_path(dir, refs[k]),
            )->0.resolved is None,
        attached_files(facts, dir, refs) matches Ok(files) ==> files.no_duplicates() && forall|
            path: Seq<char>,
        | #[trigger]
            files.contains(path) <==> exists|k: int|
                0 <= k < refs.len() && attaches(facts, dir, #[trigger] refs[k], path),
    decreases refs.len(),
{
    if refs.len() > 0 {
        let front = refs.drop_last();
        let n = front.len() as int;
        every_attached_file_is_listed_once(facts, dir, front);
        if attached_files(facts, dir, front) is Err {
            let k = choose|k: int|
                0 <= k < front.len() && leads_to_file(facts, dir, #[trigger] front[k]) && fact_of(
                    facts,
                    join_path(dir, front[k]),
                )->0.resolved is None;
            assert(refs[k] == front[k]);
        } else {
            let prev = attached_files(facts, dir, front)->Ok_0;
            assert forall|k: int| 0 <= k < n && leads_to_file(
                facts,
                dir,
                #[trigger] refs[k],
            ) implies fact_of(facts, join_path(dir, refs[k]))->0.resolved is Some by {
                assert(front[k] == refs[k]);
            }
            if attached_files(facts, dir, refs) is Ok {
                let files = attached_files(facts, dir, refs)->Ok_0;
                assert forall|path: Seq<char>| #[trigger] files.contains(path) <==> exists|k: int|
                    0 <= k < refs.len() && attaches(facts, dir, #[trigger] refs[k], path) by {
                    if files.contains(path) {
                        let i = choose|i: int| 0 <= i < files.len() && files[i] == path;
                        if i < prev.len() {
                            assert(prev[i] == path);
                            assert(prev.contains(path));
                            let k = choose|k: int|
                                0 <= k < front.len() && attaches(
                                    facts,
                                    dir,
                                    #[trigger] front[k],
                                    path,
                                );
                            assert(attaches(facts, dir, refs[k], path));
                        } else {
                            assert(attaches(facts, dir, refs[n], path));
                        }
                    }
                    if exists|k: int|
                        0 <= k < refs.len() && attaches(facts, dir, #[trigger] refs[k], path) {
                        let k = choose|k: int|
                            0 <= k < refs.len() && attaches(facts, dir, #[trigger] refs[k], path);
                        if k < n {
                            assert(attaches(facts, dir, front[k], path));
                            assert(prev.contains(path));
                        }
                        if prev.contains(path) {
                            let i = choose|i: int| 0 <= i < prev.len() && prev[i] == path;
                            assert(files[i] == path);
                        } else {
                            assert(files[prev.len() as int] == path);
                        }
                    }
                }
            } else {
                assert(leads_to_file(facts, dir, refs[n]));
            }
        }
    }
}

/// Images and PDF documents can be uploaded, by their extension, in any case of its
/// letters, and nothing else.
pub proof fn images_and_documents_can_be_uploaded(path: Seq<char>)
    ensures
        uploadable(path) <==> path_extension(path) is Some && ({
            let ext = ascii_lower_all(path_extension(path)->0);
            ext == "png"@ || ext == "jpg"@ || ext == "jpeg"@ || ext == "gif"@ || ext == "webp"@
                || ext == "svg"@ || ext == "pdf"@ || ext == "avif"@
        }),
{
    let all = uploadable_extensions();
    assert(all[0] == "png"@ && all[1] == "jpg"@ && all[2] == "jpeg"@ && all[3] == "gif"@);
    assert(all[4] == "webp"@ && all[5] == "svg"@ && all[6] == "pdf"@ && all[7] == "avif"@);
    if uploadable(path) {
        let ext = ascii_lower_all(path_extension(path)->0);
        let k = choose|k: int| 0 <= k < all.len() && all[k] == ext;
    }
}

} // verus!
