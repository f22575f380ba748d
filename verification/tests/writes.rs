use std::borrow::Borrow;
use std::cell::RefCell;
use std::collections::{BTreeMap, BTreeSet};

use hatchdoor_vault::asset_plan::asset_move_plan;
use hatchdoor_vault::asset_refs::referenced_assets;
use hatchdoor_vault::attachments;
use hatchdoor_vault::exclude::ExcludeMatcher;
use hatchdoor_vault::files::FileFact;
use hatchdoor_vault::frontmatter::read_block;
use hatchdoor_vault::hash::{content_hash, content_hash_of};
use hatchdoor_vault::index::ScannedFile;
use hatchdoor_vault::layers::{LayerMap, MarkerContent, MarkerFile, RawMarker};
use hatchdoor_vault::mutation::{next_action, Compensation, MutationAction, MutationJournal};
use hatchdoor_vault::note_ops;
use hatchdoor_vault::note_ops::{NoteMove, NoteRead, NoteWrite};
use hatchdoor_vault::note_text::{place_section, SectionMode};
use hatchdoor_vault::paths::slugify;
use hatchdoor_vault::tables::NoteBody;
use hatchdoor_vault::types::{NoteEntry, VaultIndex, VaultScanConfig};
use hatchdoor_vault::write_types::{
    AttachmentInfo, AttachmentOutcome, MutationPhase, PlanStop, TextRewrite, WriteError,
    WriteOutcome,
};

const BINARY_ASSET: &[u8] = &[
    0xFF, 0xD8, 0xFF, 0xE0, 0x00, 0x10, b'J', b'F', b'I', b'F', 0x00, 0x01, 0xFE, 0xFF, 0x80,
];

const BINARY_ASSET_NOTE: &str = "body ![](photo.jpg)";

// ---------------------------------------------------------------------------
// A vault in memory
// ---------------------------------------------------------------------------

/// The vault's folder.
const ROOT: &str = "/vault";

struct Vault {
    files: RefCell<BTreeMap<String, Vec<u8>>>,
    /// The folders that were made.
    dirs: RefCell<BTreeSet<String>>,
    /// Links, with the vault-relative paths they lead to.
    links: RefCell<BTreeMap<String, String>>,
}

struct Place<'a> {
    vault: &'a Vault,
    path: String,
}

impl<'a> Place<'a> {
    fn is_there(&self) -> bool {
        let below = format!("{}/", self.path);
        self.vault
            .files
            .borrow()
            .keys()
            .any(|path| *path == self.path || path.starts_with(&below))
            || self.vault.dirs.borrow().contains(&self.path)
    }
}

/// A path with `.` and `..` followed; `None` outside the vault.
fn follow(path: &str) -> Option<String> {
    let mut parts: Vec<&str> = Vec::new();
    for part in path.split('/') {
        match part {
            "" | "." => {}
            ".." => {
                parts.pop()?;
            }
            name => parts.push(name),
        }
    }
    Some(parts.join("/"))
}

fn folder(path: &str) -> &str {
    match path.rfind('/') {
        Some(at) => &path[..at],
        None => "",
    }
}

fn under(dir: &str, name: &str) -> String {
    if dir.is_empty() {
        name.to_string()
    } else {
        format!("{dir}/{name}")
    }
}

impl Vault {
    fn new() -> Self {
        Vault {
            files: RefCell::new(BTreeMap::new()),
            dirs: RefCell::new(BTreeSet::new()),
            links: RefCell::new(BTreeMap::new()),
        }
    }

    fn join(&self, path: impl AsRef<str>) -> Place<'_> {
        Place {
            vault: self,
            path: path.as_ref().to_string(),
        }
    }

    fn link(&self, target: &str, path: &str) {
        self.links
            .borrow_mut()
            .insert(path.to_string(), target.to_string());
    }

    /// A path with links followed.
    fn leads_to(&self, path: &str) -> Option<String> {
        let plain = follow(path)?;
        for (link, target) in self.links.borrow().iter() {
            if plain == *link {
                return Some(target.clone());
            }
            if let Some(rest) = plain.strip_prefix(&format!("{link}/")) {
                return Some(format!("{target}/{rest}"));
            }
        }
        Some(plain)
    }

    /// Makes the folder of a file.
    fn make_folder(&self, file: &str) -> Result<(), WriteError> {
        if self.home(file).is_none() {
            return Err(WriteError::InvalidInput(
                "path cannot escape the vault".to_string(),
            ));
        }
        let mut dir = folder(file);
        while !dir.is_empty() {
            if self.files.borrow().contains_key(dir) {
                return Err(WriteError::Io(format!("'{dir}' is a file")));
            }
            self.dirs.borrow_mut().insert(dir.to_string());
            dir = folder(dir);
        }
        Ok(())
    }

    /// Plans, making the folders that are asked for.
    fn plan<T>(
        &self,
        step: impl Fn(&Vec<Result<(), WriteError>>) -> Result<T, PlanStop>,
    ) -> Result<T, WriteError> {
        let mut made: Vec<Result<(), WriteError>> = Vec::new();
        loop {
            match step(&made) {
                Ok(plan) => return Ok(plan),
                Err(PlanStop::Refused(error)) => return Err(error),
                Err(PlanStop::MakeFolder(request)) => made.push(self.make_folder(&request.file)),
            }
        }
    }

    /// The folders that a plan asks for: the files they are for, and the labels.
    fn asks<T>(
        &self,
        step: impl Fn(&Vec<Result<(), WriteError>>) -> Result<T, PlanStop>,
    ) -> Vec<(String, String)> {
        let asked: RefCell<Vec<(String, String)>> = RefCell::new(Vec::new());
        let _ = self.plan(|made| {
            let result = step(made);
            if let Err(PlanStop::MakeFolder(request)) = &result {
                asked
                    .borrow_mut()
                    .push((request.file.clone(), request.label.clone()));
            }
            result
        });
        asked.into_inner()
    }

    fn scan(&self) -> Vec<ScannedFile> {
        let mut out: Vec<ScannedFile> = Vec::new();
        for path in self.files.borrow().keys() {
            for (at, _) in path.match_indices('/') {
                let dir = path[..at].to_string();
                if !out.iter().any(|file| file.path == dir) {
                    out.push(ScannedFile {
                        path: dir,
                        is_dir: true,
                        is_file: false,
                    });
                }
            }
            out.push(ScannedFile {
                path: path.clone(),
                is_dir: false,
                is_file: true,
            });
        }
        out
    }

    fn markers(&self) -> Vec<MarkerFile> {
        let mut out: Vec<MarkerFile> = Vec::new();
        for (path, bytes) in self.files.borrow().iter() {
            if !path.ends_with(".hatchdoor-layer") {
                continue;
            }
            let text = String::from_utf8_lossy(bytes).to_string();
            let content = match text.lines().find_map(|line| line.strip_prefix("name: ")) {
                Some(name) => MarkerContent::Parsed(RawMarker::Full {
                    name: name.to_string(),
                    description: text
                        .lines()
                        .find_map(|line| line.strip_prefix("description: "))
                        .map(str::to_string),
                }),
                None => MarkerContent::Malformed("not a mapping with a name".to_string()),
            };
            out.push(MarkerFile {
                dir: folder(path).to_string(),
                content,
            });
        }
        out
    }

    fn text(&self, path: &str) -> Result<String, String> {
        match self.files.borrow().get(path) {
            Some(bytes) => String::from_utf8(bytes.clone()).map_err(|error| error.to_string()),
            None => Err("no such file".to_string()),
        }
    }

    fn bodies(&self, index: &VaultIndex) -> Vec<NoteBody> {
        index
            .by_slug
            .iter()
            .map(|note| NoteBody {
                slug: note.slug.clone(),
                text: self.text(&note.file),
            })
            .collect()
    }

    fn fact(&self, path: &str) -> Option<FileFact> {
        let end = self.leads_to(path);
        let is_file = match &end {
            Some(path) => self.files.borrow().contains_key(path),
            None => false,
        };
        let is_dir = match &end {
            Some(path) => self.join(path).is_there() && !is_file,
            None => false,
        };
        if !is_file && !is_dir {
            return None;
        }
        Some(FileFact {
            path: path.to_string(),
            is_file,
            resolved: end,
        })
    }

    /// What is there, at every path that a note refers to and at the given
    /// ones.
    fn facts(&self, asked: &[&str]) -> Vec<FileFact> {
        let mut paths: Vec<String> = self.scan().into_iter().map(|file| file.path).collect();
        for path in self.files.borrow().keys() {
            if path.ends_with(".md") {
                if let Ok(text) = self.text(path) {
                    for reference in referenced_assets(&text) {
                        paths.push(under(folder(path), &reference));
                    }
                }
            }
        }
        paths.extend(self.dirs.borrow().iter().cloned());
        paths.extend(asked.iter().map(|path| path.to_string()));
        let mut out: Vec<FileFact> = Vec::new();
        for path in paths {
            if !out.iter().any(|fact| fact.path == path) {
                if let Some(fact) = self.fact(&path) {
                    out.push(fact);
                }
            }
        }
        out
    }

    fn current(&self, entry: &NoteEntry) -> NoteRead {
        match self.text(&entry.file) {
            Ok(text) => NoteRead::Text(text),
            Err(why) => NoteRead::Unreadable(why),
        }
    }

    /// The folder that a path leads to, as far as it exists.
    fn home(&self, path: &str) -> Option<String> {
        let mut dir = folder(path).to_string();
        loop {
            if dir.is_empty() {
                return Some(String::new());
            }
            if self.fact(&dir).is_some() {
                return self.leads_to(&dir);
            }
            dir = folder(&dir).to_string();
        }
    }

    fn rename(&self, source: &str, destination: &str) -> Result<(), WriteError> {
        for path in [source, destination] {
            if path.split('/').any(|part| part == "..") {
                return Err(WriteError::InvalidInput(format!("'{path}' goes up")));
            }
        }
        let mut files = self.files.borrow_mut();
        match files.remove(source) {
            Some(bytes) => {
                files.insert(destination.to_string(), bytes);
                Ok(())
            }
            None => Err(WriteError::Io(format!("'{source}' is not there"))),
        }
    }

    fn commit(&self, write: NoteWrite) -> WriteOutcome {
        self.files
            .borrow_mut()
            .insert(write.path, write.content.into_bytes());
        write.outcome
    }

    fn describe(&self, path: &str, layers: &LayerMap) -> AttachmentInfo {
        let files = self.files.borrow();
        let bytes = files.get(path).expect("described file");
        let mut digest = attachments::FileDigest::new();
        for piece in bytes.chunks(65_536) {
            digest.update(piece);
        }
        let (size, hash) = digest.finish();
        attachments::attachment_info(path, size, &hash, layers)
    }

    fn rewrite(
        &self,
        journal: &mut MutationJournal,
        rewrite: &TextRewrite,
    ) -> Result<(), WriteError> {
        let original = self.text(&rewrite.path).map_err(WriteError::Io)?;
        self.files
            .borrow_mut()
            .insert(rewrite.path.clone(), rewrite.content.clone().into_bytes());
        journal.retain_completed_rewrite(&rewrite.path, &rewrite.content, &original, true, None);
        Ok(())
    }

    fn undo(&self, journal: MutationJournal, cause: WriteError) -> WriteError {
        let mut rollback = journal.rollback(cause);
        loop {
            let succeeded = match rollback.next_step() {
                None => return rollback.finish(),
                Some(Compensation::MoveBack {
                    source,
                    destination,
                    ..
                }) => self.rename(destination, source).is_ok(),
                Some(Compensation::RestoreRewrite {
                    path,
                    original,
                    applied_hash,
                }) => match self.text(path) {
                    Ok(text) if content_hash(&text) == *applied_hash => {
                        self.files
                            .borrow_mut()
                            .insert(path.clone(), original.clone().into_bytes());
                        true
                    }
                    _ => false,
                },
            };
            rollback.record(succeeded);
        }
    }

    fn carry_out(
        &self,
        m: &NoteMove,
        mut after: impl FnMut(MutationPhase) -> Result<(), WriteError>,
    ) -> Result<WriteOutcome, WriteError> {
        let mut journal = MutationJournal::new();
        let mut rewritten: Vec<String> = Vec::new();
        let mut content = String::new();
        let mut done: usize = 0;
        let mut step = |journal: &mut MutationJournal| -> Result<bool, WriteError> {
            let action = next_action(m, done);
            match action {
                MutationAction::MoveNote => {
                    self.rename(&m.source, &m.destination)?;
                    journal.retain_completed_move(
                        MutationPhase::Note,
                        &m.source,
                        &m.destination,
                        true,
                        true,
                        false,
                    );
                    after(MutationPhase::Note)?;
                }
                MutationAction::MoveAsset(i) => {
                    let asset = &m.asset_moves[i];
                    self.rename(&asset.source, &asset.destination)?;
                    journal.retain_completed_move(
                        MutationPhase::Asset,
                        &asset.source,
                        &asset.destination,
                        true,
                        true,
                        false,
                    );
                    if i + 1 == m.asset_moves.len() {
                        after(MutationPhase::Asset)?;
                    }
                }
                MutationAction::Rewrite(i) => {
                    self.rewrite(journal, &m.rewrites[i])?;
                    rewritten.push(m.rewrites[i].path.clone());
                    if i + 1 == m.rewrites.len() {
                        after(MutationPhase::Rewrite)?;
                    }
                }
                MutationAction::ReadBack => {
                    content = self.text(&m.destination).map_err(WriteError::Io)?;
                }
                MutationAction::Finished => return Ok(false),
            }
            done += 1;
            Ok(true)
        };
        loop {
            match step(&mut journal) {
                Ok(true) => {}
                Ok(false) => break,
                Err(cause) => return Err(self.undo(journal, cause)),
            }
        }
        Ok(note_ops::finish_move(m, &rewritten, &content))
    }

    fn relocate(
        &self,
        index: &VaultIndex,
        m: &attachments::AttachmentMove,
        mut after: impl FnMut(MutationPhase) -> Result<(), WriteError>,
    ) -> Result<AttachmentOutcome, WriteError> {
        let mut journal = MutationJournal::new();
        let mut rewritten: Vec<String> = Vec::new();
        let mut run = |journal: &mut MutationJournal| -> Result<(), WriteError> {
            self.rename(&m.source, &m.destination)?;
            journal.retain_completed_move(
                MutationPhase::Asset,
                &m.source,
                &m.destination,
                true,
                true,
                false,
            );
            after(MutationPhase::Asset)?;
            for rewrite in &m.rewrites {
                self.rewrite(journal, rewrite)?;
                rewritten.push(rewrite.path.clone());
            }
            after(MutationPhase::Rewrite)
        };
        match run(&mut journal) {
            Ok(()) => {}
            Err(cause) => return Err(self.undo(journal, cause)),
        }
        let info = self.describe(&m.destination, &index.layers);
        Ok(attachments::finish_attachment_move(m, &rewritten, info))
    }
}

fn write<'a>(place: impl Borrow<Place<'a>>, content: impl AsRef<[u8]>) -> Result<(), String> {
    let place = place.borrow();
    place
        .vault
        .files
        .borrow_mut()
        .insert(place.path.clone(), content.as_ref().to_vec());
    Ok(())
}

fn read<'a>(place: impl Borrow<Place<'a>>) -> Result<Vec<u8>, String> {
    let place = place.borrow();
    match place.vault.files.borrow().get(&place.path) {
        Some(bytes) => Ok(bytes.clone()),
        None => Err(format!("no file at '{}'", place.path)),
    }
}

fn read_to_string<'a>(place: impl Borrow<Place<'a>>) -> Result<String, String> {
    let place = place.borrow();
    place.vault.text(&place.path)
}

fn build(root: &Vault) -> VaultIndex {
    let bodies = root.bodies(&build_catalog(root));
    VaultIndex::build(ROOT, &root.scan(), &root.markers(), &bodies).expect("build index")
}

fn build_catalog(root: &Vault) -> VaultIndex {
    let config = VaultScanConfig {
        exclude: ExcludeMatcher::new(&Vec::new()).expect("valid patterns"),
    };
    VaultIndex::build_catalog_with_config(ROOT, &root.scan(), &root.markers(), &config)
        .expect("build catalog")
}

fn create_note(
    root: &Vault,
    relative_path: &str,
    content: &str,
    overwrite: bool,
    catalog: &VaultIndex,
) -> Result<WriteOutcome, WriteError> {
    let write = root.plan(|made| {
        let facts = root.facts(&[]);
        note_ops::create_note(relative_path, content, overwrite, catalog, &facts, made)
    })?;
    Ok(root.commit(write))
}

fn update_note(
    root: &Vault,
    entry: &NoteEntry,
    content: &str,
    expected: &str,
) -> Result<WriteOutcome, WriteError> {
    let write = note_ops::update_note(entry, &root.current(entry), content, expected)?;
    Ok(root.commit(write))
}

fn edit_note(
    root: &Vault,
    entry: &NoteEntry,
    old: &str,
    new: &str,
    expected: &str,
    replace_all: bool,
) -> Result<WriteOutcome, WriteError> {
    let current = root.current(entry);
    let write = note_ops::edit_note(entry, &current, old, new, expected, replace_all)?;
    Ok(root.commit(write))
}

fn replace_section(
    root: &Vault,
    entry: &NoteEntry,
    heading: &str,
    mode: SectionMode,
    content: &str,
    expected: &str,
) -> Result<WriteOutcome, WriteError> {
    let current = root.current(entry);
    let write = note_ops::replace_section(entry, &current, heading, mode, content, expected)?;
    Ok(root.commit(write))
}

fn update_note_frontmatter(
    root: &Vault,
    entry: &NoteEntry,
    mut updates: Vec<(String, String)>,
    expected: &str,
) -> Result<WriteOutcome, WriteError> {
    updates.sort();
    let current = root.current(entry);
    let write = note_ops::update_note_frontmatter(entry, &current, &updates, expected)?;
    Ok(root.commit(write))
}

fn move_or_rename_note_with_failure(
    root: &Vault,
    index: &VaultIndex,
    entry: &NoteEntry,
    target: &str,
    expected: &str,
    after: impl FnMut(MutationPhase) -> Result<(), WriteError>,
) -> Result<WriteOutcome, WriteError> {
    let m = root.plan(|made| {
        note_ops::move_or_rename_note(
            index,
            &root.bodies(index),
            &root.facts(&[]),
            entry,
            &root.current(entry),
            target,
            expected,
            made,
        )
    })?;
    root.carry_out(&m, after)
}

fn move_or_rename_note(
    root: &Vault,
    index: &VaultIndex,
    entry: &NoteEntry,
    target: &str,
    expected: &str,
) -> Result<WriteOutcome, WriteError> {
    move_or_rename_note_with_failure(root, index, entry, target, expected, |_| Ok(()))
}

fn archive_note(
    root: &Vault,
    index: &VaultIndex,
    entry: &NoteEntry,
    prefix: &str,
    expected: &str,
) -> Result<WriteOutcome, WriteError> {
    let (m, _promotes) = root.plan(|made| {
        note_ops::archive_note(
            index,
            &root.bodies(index),
            &root.facts(&[]),
            entry,
            &root.current(entry),
            prefix,
            expected,
            made,
        )
    })?;
    root.carry_out(&m, |_| Ok(()))
}

fn delete_note_with_failure(
    root: &Vault,
    index: &VaultIndex,
    entry: &NoteEntry,
    expected: &str,
    after: impl FnMut(MutationPhase) -> Result<(), WriteError>,
) -> Result<WriteOutcome, WriteError> {
    let m = root.plan(|made| {
        note_ops::delete_note(
            index,
            &root.bodies(index),
            &root.facts(&[]),
            entry,
            &root.current(entry),
            expected,
            made,
        )
    })?;
    root.carry_out(&m, after)
}

fn delete_note(
    root: &Vault,
    index: &VaultIndex,
    entry: &NoteEntry,
    expected: &str,
) -> Result<WriteOutcome, WriteError> {
    delete_note_with_failure(root, index, entry, expected, |_| Ok(()))
}

fn move_attachment_with_failure(
    root: &Vault,
    index: &VaultIndex,
    source: &str,
    target: &str,
    after: impl FnMut(MutationPhase) -> Result<(), WriteError>,
) -> Result<AttachmentOutcome, WriteError> {
    let m = root.plan(|made| {
        attachments::move_attachment(
            index,
            &root.bodies(index),
            &root.facts(&[source, target]),
            source,
            target,
            &root.home(target),
            made,
        )
    })?;
    root.relocate(index, &m, after)
}

fn move_attachment(
    root: &Vault,
    index: &VaultIndex,
    source: &str,
    target: &str,
) -> Result<AttachmentOutcome, WriteError> {
    move_attachment_with_failure(root, index, source, target, |_| Ok(()))
}

fn rename_attachment(
    root: &Vault,
    index: &VaultIndex,
    source: &str,
    name: &str,
) -> Result<AttachmentOutcome, WriteError> {
    let m = root.plan(|made| {
        attachments::rename_attachment(
            index,
            &root.bodies(index),
            &root.facts(&[source]),
            source,
            name,
            &root.home(source),
            made,
        )
    })?;
    root.relocate(index, &m, |_| Ok(()))
}

fn delete_attachment(
    root: &Vault,
    index: &VaultIndex,
    source: &str,
) -> Result<AttachmentOutcome, WriteError> {
    let m = root.plan(|made| {
        attachments::delete_attachment(
            index,
            &root.bodies(index),
            &root.facts(&[source]),
            source,
            &root.home(".hatchdoor-trash/x"),
            made,
        )
    })?;
    root.relocate(index, &m, |_| Ok(()))
}

fn import_attachment_bytes(
    root: &Vault,
    target: &str,
    bytes: &[u8],
    max_bytes: u64,
    overwrite: bool,
) -> Result<AttachmentOutcome, WriteError> {
    let import = root.plan(|made| {
        attachments::import_attachment_bytes(
            ROOT,
            target,
            bytes,
            max_bytes,
            overwrite,
            &root.facts(&[target]),
            &root.markers(),
            made,
        )
    })?;
    root.files.borrow_mut().insert(import.path, bytes.to_vec());
    Ok(import.outcome)
}

fn list_note_attachments(
    root: &Vault,
    layers: &LayerMap,
    entry: &NoteEntry,
) -> Result<Vec<AttachmentInfo>, WriteError> {
    let body = root.text(&entry.file);
    let names = attachments::list_note_attachments(entry, &body, &root.facts(&[]))?;
    Ok(names.iter().map(|name| root.describe(name, layers)).collect())
}

fn links_of(table: &Vec<(String, Vec<String>)>, slug: &str) -> Vec<String> {
    match table.iter().find(|(s, _)| s == slug) {
        Some((_, links)) => links.clone(),
        None => Vec::new(),
    }
}

fn properties(text: &str) -> Vec<(String, String)> {
    let rest = text.strip_prefix("---\n").expect("opening marker");
    let end = rest.find("\n---").expect("closing marker");
    read_block(&rest[..end]).expect("a mapping")
}

fn frontmatter_entry(root: &Vault, content: &str, name: &str) -> (VaultIndex, NoteEntry) {
    write(root.join(format!("{name}.md")), content).expect("write note");
    let index = build(root);
    let entry = index
        .find_by_slug(&slugify(name))
        .unwrap_or_else(|| panic!("{} entry", slugify(name)))
        .clone();
    (index, entry)
}

fn note_with_a_binary_asset(root: &Vault) {
    write(root.join("Notes/Target.md"), BINARY_ASSET_NOTE).expect("target");
    write(root.join("Notes/photo.jpg"), BINARY_ASSET).expect("asset");
}

/// A shared folder holding the image, and a note elsewhere embedding it through
/// a parent-relative reference.
fn vault_with_a_shared_attachments_folder(root: &Vault) -> String {
    let body = "# B\n![](../_system/image.png)\n";
    write(root.join("_system/image.png"), BINARY_ASSET).expect("asset");
    write(root.join("folder-x/B.md"), body).expect("note");
    body.to_string()
}

/// A note that keeps its picture in a subfolder of its own folder.
fn vault_with_an_asset_beside_its_note(root: &Vault) -> String {
    let body = "# B\n![](./media/own.png)\n";
    write(root.join("folder-x/media/own.png"), BINARY_ASSET).expect("own asset");
    write(root.join("folder-x/B.md"), body).expect("note");
    body.to_string()
}

/// A note embedding a video that sits beside it.
fn vault_with_a_video_beside_its_note(root: &Vault) -> String {
    let body = "# Clip\n![](demo.mp4)\n";
    write(root.join("Media/demo.mp4"), BINARY_ASSET).expect("video");
    write(root.join("Media/Clip.md"), body).expect("note");
    body.to_string()
}

/// The note's embed, read from its folder, leads to the file.
fn embedded_asset_resolves_to(root: &Vault, note: &str, asset: &str) {
    let content = read_to_string(root.join(note)).expect("read note for reference check");
    let target = content
        .split_once("![](")
        .and_then(|(_, rest)| rest.split_once(')'))
        .map(|(target, _)| target.to_string())
        .unwrap_or_else(|| panic!("note '{note}' has no markdown embed: {content}"));
    assert_eq!(
        follow(&under(folder(note), &target)).as_deref(),
        Some(asset),
        "embed '{target}' in '{note}' must resolve to '{asset}'"
    );
    assert!(root.join(asset).is_there());
}

// ---------------------------------------------------------------------------
// Tests
// ---------------------------------------------------------------------------

#[test]
fn list_note_attachments_reports_the_containing_folders_layer() {
    let dir = Vault::new();
    let root = &dir;
    write(
        root.join("sources/.hatchdoor-layer"),
        "name: sources\ndescription: Raw clippings.\n",
    )
    .expect("marker");
    write(root.join("sources/Clip.md"), "# Clip\n![](diagram.png)").expect("clip");
    write(root.join("sources/diagram.png"), "png").expect("asset");
    write(root.join("Wiki.md"), "# Wiki\n![](wiki.png)").expect("wiki");
    write(root.join("wiki.png"), "png").expect("default asset");

    let index = build(root);

    let clip = index.find_by_slug("clip").expect("clip entry").clone();
    let clip_assets =
        list_note_attachments(root, &index.layers, &clip).expect("list clip attachments");
    assert_eq!(clip_assets.len(), 1);
    assert_eq!(
        clip_assets[0].layer.as_deref(),
        Some("sources"),
        "an asset in a demoted folder must report that folder's layer"
    );

    let wiki = index.find_by_slug("wiki").expect("wiki entry").clone();
    let wiki_assets =
        list_note_attachments(root, &index.layers, &wiki).expect("list wiki attachments");
    assert_eq!(wiki_assets.len(), 1);
    assert_eq!(
        wiki_assets[0].layer, None,
        "a default-surface asset reports a null layer"
    );
}

#[test]
fn create_note_rejects_traversal_and_writes_markdown() {
    let tmp = Vault::new();
    let root = &tmp;
    let catalog = build(root);
    assert!(matches!(
        create_note(root, "../Escape.md", "no", false, &catalog),
        Err(WriteError::InvalidInput(_))
    ));
    create_note(root, "Projects/New", "# New", false, &catalog).expect("create");
    assert_eq!(
        read_to_string(root.join("Projects/New.md")).expect("read"),
        "# New\n"
    );
}

#[test]
fn create_note_computes_its_slug_from_a_metadata_only_catalog() {
    let tmp = Vault::new();
    let root = &tmp;
    write(root.join("Existing.md"), "# Existing\n[[Existing]]").expect("write");
    let catalog = build_catalog(root);
    assert!(
        catalog.outgoing_by_slug.is_empty() && catalog.backlinks_by_slug.is_empty(),
        "a catalog build must not populate the wikilink graph"
    );

    let outcome =
        create_note(root, "Projects/New Note", "# New\n", false, &catalog).expect("create");
    assert_eq!(outcome.slug.as_deref(), Some("new-note"));
    assert_eq!(outcome.relative_path.as_deref(), Some("Projects/New Note"));
}

#[test]
fn create_note_disambiguates_a_slug_collision_against_the_pre_write_catalog() {
    let tmp = Vault::new();
    let root = &tmp;
    write(root.join("Home.md"), "# Home").expect("write");
    let catalog = build_catalog(root);

    let outcome =
        create_note(root, "Other/Home", "# Other Home\n", false, &catalog).expect("create");
    assert_eq!(outcome.slug.as_deref(), Some("home-2"));
}

#[test]
fn move_or_rename_note_keeps_its_own_slug_when_the_new_title_slugifies_to_the_same_value() {
    let tmp = Vault::new();
    let root = &tmp;
    write(root.join("Home.md"), "# Home").expect("write");
    let index = build(root);
    let entry = index.find_by_slug("home").expect("home");

    let outcome = move_or_rename_note(root, &index, entry, "home.md", &content_hash("# Home"))
        .expect("rename");
    assert_eq!(outcome.slug.as_deref(), Some("home"));
}

#[test]
fn move_or_rename_note_disambiguates_a_slug_collision_against_a_different_note() {
    let tmp = Vault::new();
    let root = &tmp;
    write(root.join("Home.md"), "# Home").expect("write");
    write(root.join("Projects/Other.md"), "# Other").expect("write");
    let index = build(root);
    let entry = index.find_by_slug("other").expect("other");

    let outcome = move_or_rename_note(root, &index, entry, "Home@.md", &content_hash("# Other"))
        .expect("rename");
    assert_eq!(outcome.slug.as_deref(), Some("home-2"));

    let rebuilt = build(root);
    assert_eq!(
        rebuilt
            .find_by_slug("home")
            .map(|entry| entry.relative_path.as_str()),
        Some("Home")
    );
    assert_eq!(
        rebuilt
            .find_by_slug("home-2")
            .map(|entry| entry.relative_path.as_str()),
        Some("Home@")
    );
}

#[test]
fn move_or_rename_note_wins_a_slug_collision_when_it_sorts_before_the_existing_note() {
    let tmp = Vault::new();
    let root = &tmp;
    write(root.join("Home.md"), "# Home").expect("write");
    write(root.join("Projects/Other.md"), "# Other").expect("write");
    let index = build(root);
    let entry = index.find_by_slug("other").expect("other");

    let outcome = move_or_rename_note(root, &index, entry, "Home!!.md", &content_hash("# Other"))
        .expect("rename");
    assert_eq!(
        outcome.slug.as_deref(),
        Some("home"),
        "\"Home!!.md\" sorts before \"Home.md\" as an extension-bearing path, so it wins the slug"
    );

    let rebuilt = build(root);
    assert_eq!(
        rebuilt
            .find_by_slug("home")
            .map(|entry| entry.relative_path.as_str()),
        Some("Home!!")
    );
    assert_eq!(
        rebuilt
            .find_by_slug("home-2")
            .map(|entry| entry.relative_path.as_str()),
        Some("Home")
    );
}

#[test]
fn every_link_to_a_moved_note_leads_to_it() {
    let tmp = Vault::new();
    let root = &tmp;
    let links = "[[Plan]] [[A/Plan]] [[plan.md|alias]] [[a/plan#Top]] [[Other]]";
    write(root.join("A/Plan.md"), "# Plan").expect("write");
    write(root.join("Other.md"), "# Other").expect("write");
    write(root.join("Links.md"), links).expect("write");
    for (target, path) in [("B/Draft.md", "B/Draft"), ("Other/Plan.md", "Other/Plan")] {
        let index = build(root);
        let entry = index
            .by_slug
            .iter()
            .find(|note| note.relative_path.ends_with("Plan") || note.relative_path == "B/Draft")
            .expect("note");
        let hash = content_hash("# Plan");
        move_or_rename_note(root, &index, entry, target, &hash).expect("move");
        let later = build(root);
        let text = read_to_string(root.join("Links.md")).expect("read");
        let found: Vec<String> = text
            .split("[[")
            .skip(1)
            .map(|link| link.split("]]").next().expect("link"))
            .map(|link| later.resolve_wikilink(link).expect("leads").relative_path.clone())
            .collect();
        assert_eq!(found, vec![path, path, path, path, "Other"], "{text}");
    }
}

#[test]
fn a_moved_note_gets_the_slug_that_the_next_catalog_gives_it() {
    let tmp = Vault::new();
    let root = &tmp;
    write(root.join("A/Home.md"), "# A").expect("write");
    write(root.join("B/Home.md"), "# B").expect("write");
    let index = build(root);
    let entry = index.find_by_slug("home").expect("home");
    assert_eq!(entry.relative_path, "A/Home");

    let outcome =
        move_or_rename_note(root, &index, entry, "C/Home.md", &content_hash("# A")).expect("move");
    assert_eq!(outcome.slug.as_deref(), Some("home-2"));
    let rebuilt = build(root);
    assert_eq!(
        rebuilt
            .find_by_slug("home-2")
            .map(|entry| entry.relative_path.as_str()),
        Some("C/Home")
    );
    assert_eq!(
        rebuilt
            .find_by_slug("home")
            .map(|entry| entry.relative_path.as_str()),
        Some("B/Home")
    );
}

#[test]
fn create_note_claims_a_contested_slug_ahead_of_an_existing_layered_note() {
    let tmp = Vault::new();
    let root = &tmp;
    write(root.join("sources/.hatchdoor-layer"), "name: sources\n").expect("marker");
    write(root.join("sources/Home.md"), "# Home").expect("write");
    let catalog = build_catalog(root);
    assert_eq!(
        catalog
            .find_by_slug("home")
            .map(|entry| entry.relative_path.as_str()),
        Some("sources/Home"),
        "the only existing note holds \"home\" uncontested before the write"
    );

    let outcome = create_note(root, "Home", "# Root Home\n", false, &catalog).expect("create");
    assert_eq!(
        outcome.slug.as_deref(),
        Some("home"),
        "a new default-surface note must claim the contested slug ahead of an existing layered one"
    );
}

#[test]
fn move_or_rename_note_claims_a_contested_slug_ahead_of_an_existing_layered_note() {
    let tmp = Vault::new();
    let root = &tmp;
    write(root.join("sources/.hatchdoor-layer"), "name: sources\n").expect("marker");
    write(root.join("sources/Home.md"), "# Home").expect("write");
    write(root.join("Projects/Other.md"), "# Other").expect("write");
    let index = build(root);
    let entry = index.find_by_slug("other").expect("other");
    assert_eq!(
        index
            .find_by_slug("home")
            .map(|entry| entry.relative_path.as_str()),
        Some("sources/Home"),
        "the only existing note holds \"home\" uncontested before the write"
    );

    let outcome = move_or_rename_note(root, &index, entry, "Home.md", &content_hash("# Other"))
        .expect("rename");
    assert_eq!(
        outcome.slug.as_deref(),
        Some("home"),
        "a note moved onto the default surface must claim the contested slug ahead of an existing layered one"
    );
}

#[test]
fn update_note_requires_matching_hash() {
    let tmp = Vault::new();
    let path = tmp.join("Home.md");
    write(&path, "old").expect("write");
    let index = build(&tmp);
    let entry = index.find_by_slug("home").expect("home");
    assert!(matches!(
        update_note(&tmp, entry, "new", "fnv1a64:deadbeef"),
        Err(WriteError::Conflict(_))
    ));
    update_note(&tmp, entry, "new", &content_hash("old")).expect("update");
    assert_eq!(read_to_string(path).expect("read"), "new\n");
}

#[test]
fn update_note_frontmatter_merges_top_level_keys_and_keeps_the_body_byte_for_byte() {
    let tmp = Vault::new();
    let original = "---\ntitle: Home\ntags:\n  - alpha\nnested:\n  keep: me\n---\n\n# Body\nsecret body text\n";
    let (_index, entry) = frontmatter_entry(&tmp, original, "Home");
    let mut updates: Vec<(String, String)> = Vec::new();
    updates.push(("status".to_string(), "\"active\"".to_string()));
    updates.push(("nested".to_string(), "{\"replaced\":\"wholesale\"}".to_string()));

    let outcome = update_note_frontmatter(&tmp, &entry, updates, &content_hash(original))
        .expect("frontmatter update");

    let updated = read_to_string(tmp.join(&entry.file)).expect("read");
    assert_eq!(
        updated,
        "---\ntitle: Home\ntags:\n  - alpha\nnested:\n  replaced: wholesale\nstatus: active\n---\n\n# Body\nsecret body text\n"
    );
    assert!(updated.ends_with("secret body text\n"), "body is unchanged");
    assert_eq!(
        outcome.content_hash.as_deref(),
        Some(content_hash(&updated).as_str())
    );
    assert_eq!(outcome.slug.as_deref(), Some("home"));
    assert_eq!(outcome.relative_path.as_deref(), Some("Home"));
}

#[test]
fn update_note_frontmatter_null_deletes_and_unmentioned_keys_survive() {
    let tmp = Vault::new();
    let original = "---\nkeep: yes\ndrop: me\n---\nbody stays\n";
    let (_index, entry) = frontmatter_entry(&tmp, original, "Home");
    let mut updates: Vec<(String, String)> = Vec::new();
    updates.push(("drop".to_string(), "null".to_string()));
    updates.push(("added".to_string(), "2".to_string()));

    update_note_frontmatter(&tmp, &entry, updates, &content_hash(original)).expect("update");

    let updated = read_to_string(tmp.join(&entry.file)).expect("read");
    assert!(updated.contains("added: 2"));
    assert!(updated.contains("keep: yes"));
    assert!(
        !updated.contains("drop"),
        "explicit null deletes the key: {updated}"
    );
    assert!(updated.ends_with("body stays\n"));
}

#[test]
fn update_note_frontmatter_creates_a_block_on_a_note_without_one() {
    let tmp = Vault::new();
    let original = "# Body only\nplain body\n";
    let (_index, entry) = frontmatter_entry(&tmp, original, "Home");
    let mut updates: Vec<(String, String)> = Vec::new();
    updates.push(("tags".to_string(), "[\"one\",\"two\"]".to_string()));

    update_note_frontmatter(&tmp, &entry, updates, &content_hash(original)).expect("update");

    let updated = read_to_string(tmp.join(&entry.file)).expect("read");
    assert!(
        updated.starts_with("---\ntags: [one, two]\n---\n"),
        "frontmatter block created, new list on one line: {updated}"
    );
    assert!(
        updated.ends_with("# Body only\nplain body\n"),
        "original content preserved as the body: {updated}"
    );
}

#[test]
fn update_note_frontmatter_strips_the_block_when_the_last_keys_are_deleted() {
    let tmp = Vault::new();
    let original = "---\nonly: key\n---\n\nremaining body\n";
    let (_index, entry) = frontmatter_entry(&tmp, original, "Home");
    let mut updates: Vec<(String, String)> = Vec::new();
    updates.push(("only".to_string(), "null".to_string()));

    update_note_frontmatter(&tmp, &entry, updates, &content_hash(original)).expect("update");

    assert_eq!(
        read_to_string(tmp.join(&entry.file)).expect("read"),
        "\nremaining body\n"
    );
}

#[test]
fn deleting_the_properties_that_were_created_restores_the_note() {
    for original in ["# Body\ntext\n", "# Body\r\ntext\r\n"] {
        let tmp = Vault::new();
        let (_index, entry) = frontmatter_entry(&tmp, original, "Home");
        let set = vec![
            ("a".to_string(), "1".to_string()),
            ("b".to_string(), "[\"x\"]".to_string()),
        ];
        update_note_frontmatter(&tmp, &entry, set, &content_hash(original)).expect("create");
        let created = read_to_string(tmp.join(&entry.file)).expect("read");
        assert_ne!(created, original);
        let gone = vec![
            ("a".to_string(), "null".to_string()),
            ("b".to_string(), "null".to_string()),
        ];
        update_note_frontmatter(&tmp, &entry, gone, &content_hash(&created)).expect("delete");
        assert_eq!(read_to_string(tmp.join(&entry.file)).expect("read"), original);
    }
}

#[test]
fn update_note_frontmatter_strips_the_block_without_prepending_a_blank_line() {
    let tmp = Vault::new();
    let original = "---\nonly: key\n---\nbody starts here\n";
    let (_index, entry) = frontmatter_entry(&tmp, original, "Home");
    let mut updates: Vec<(String, String)> = Vec::new();
    updates.push(("only".to_string(), "null".to_string()));

    update_note_frontmatter(&tmp, &entry, updates, &content_hash(original)).expect("update");

    assert_eq!(
        read_to_string(tmp.join(&entry.file)).expect("read"),
        "body starts here\n"
    );
}

#[test]
fn update_note_frontmatter_keeps_a_crlf_note_on_crlf_throughout() {
    let tmp = Vault::new();
    let original = "# Body only\r\nplain body\r\n";
    let (_index, entry) = frontmatter_entry(&tmp, original, "Home");

    let mut created: Vec<(String, String)> = Vec::new();
    created.push(("tags".to_string(), "[\"one\",\"two\"]".to_string()));
    update_note_frontmatter(&tmp, &entry, created, &content_hash(original)).expect("create");
    let updated = read_to_string(tmp.join(&entry.file)).expect("read");
    assert_eq!(
        updated,
        "---\r\ntags: [one, two]\r\n---\r\n# Body only\r\nplain body\r\n"
    );

    let mut edited: Vec<(String, String)> = Vec::new();
    edited.push(("status".to_string(), "\"active\"".to_string()));
    update_note_frontmatter(&tmp, &entry, edited, &content_hash(&updated)).expect("edit");
    let updated = read_to_string(tmp.join(&entry.file)).expect("read");
    assert_eq!(
        updated,
        "---\r\ntags: [one, two]\r\nstatus: active\r\n---\r\n# Body only\r\nplain body\r\n"
    );

    let mut stripped: Vec<(String, String)> = Vec::new();
    stripped.push(("tags".to_string(), "null".to_string()));
    stripped.push(("status".to_string(), "null".to_string()));
    update_note_frontmatter(&tmp, &entry, stripped, &content_hash(&updated)).expect("strip");
    assert_eq!(
        read_to_string(tmp.join(&entry.file)).expect("read"),
        original,
        "stripping the block leaves the note exactly as it started"
    );
}

#[test]
fn update_note_frontmatter_strips_a_block_whose_marker_line_has_trailing_spaces() {
    let tmp = Vault::new();
    let original = "---\nonly: key\n---  \nbody starts here\n";
    let (_index, entry) = frontmatter_entry(&tmp, original, "Home");
    let mut updates: Vec<(String, String)> = Vec::new();
    updates.push(("only".to_string(), "null".to_string()));

    update_note_frontmatter(&tmp, &entry, updates, &content_hash(original)).expect("update");

    assert_eq!(
        read_to_string(tmp.join(&entry.file)).expect("read"),
        "body starts here\n",
        "the whole marker line goes, trailing spaces included"
    );
}

#[test]
fn update_note_frontmatter_strips_a_block_that_ends_the_file() {
    let tmp = Vault::new();
    let original = "---\nonly: key\n---";
    let (_index, entry) = frontmatter_entry(&tmp, original, "Home");
    let mut updates: Vec<(String, String)> = Vec::new();
    updates.push(("only".to_string(), "null".to_string()));

    update_note_frontmatter(&tmp, &entry, updates, &content_hash(original)).expect("update");

    assert_eq!(read_to_string(tmp.join(&entry.file)).expect("read"), "");
}

#[test]
fn update_note_frontmatter_rejects_empty_updates_and_all_null_creation() {
    let tmp = Vault::new();
    let plain = "just a body\n";
    let (_index, entry) = frontmatter_entry(&tmp, plain, "Home");
    assert!(matches!(
        update_note_frontmatter(&tmp, &entry, Vec::new(), &content_hash(plain)),
        Err(WriteError::InvalidInput(_))
    ));

    let mut nulls: Vec<(String, String)> = Vec::new();
    nulls.push(("ghost".to_string(), "null".to_string()));
    assert!(
        matches!(
            update_note_frontmatter(&tmp, &entry, nulls, &content_hash(plain)),
            Err(WriteError::InvalidInput(_))
        ),
        "creating a frontmatter block from deletes-only is refused"
    );
}

#[test]
fn update_note_frontmatter_warns_when_duplicate_keys_are_collapsed() {
    let tmp = Vault::new();
    let original = "---\nkeep: first\nkeep: second\n---\nbody\n";
    let (_index, entry) = frontmatter_entry(&tmp, original, "Home");
    let mut updates: Vec<(String, String)> = Vec::new();
    updates.push(("added".to_string(), "1".to_string()));

    let outcome =
        update_note_frontmatter(&tmp, &entry, updates, &content_hash(original)).expect("update");

    assert!(
        outcome
            .quality_warnings
            .iter()
            .any(|warning| warning.contains("duplicate key")),
        "duplicate-key collapse is warned about: {:?}",
        outcome.quality_warnings
    );
}

#[test]
fn update_note_frontmatter_round_trips_edge_case_values_without_changing_their_types() {
    let tmp = Vault::new();
    let original = "---\nquoted_number: \"123\"\nbare_number: 123\nquoted_bool: \"true\"\nfloat: 1.50\ndate: 2026-08-29\nunicode: \"réseau — 日本語 🌱\"\ncolon_in_value: \"key: value\"\nmultiline: |\n  first line\n  second line\nnested:\n  keep: me\n  deeper:\n    count: 2\n    label: \"2\"\ntags:\n  - alpha\naliases:\n  - Alt Name\n---\n\nbody text\n";
    let (_index, entry) = frontmatter_entry(&tmp, original, "Home");
    let before = properties(original);

    let mut updates: Vec<(String, String)> = Vec::new();
    updates.push(("status".to_string(), "\"active\"".to_string()));
    update_note_frontmatter(&tmp, &entry, updates, &content_hash(original)).expect("frontmatter update");

    let updated = read_to_string(tmp.join(&entry.file)).expect("read");
    let after = properties(&updated);

    for (key, value) in &before {
        assert!(
            after.contains(&(key.clone(), value.clone())),
            "{key} changed across the merge round trip: {updated}"
        );
    }
    assert!(
        after.contains(&("status".to_string(), "\"active\"".to_string())),
        "the merged key is present: {updated}"
    );

    assert_eq!(
        updated,
        original.replace("---\n\nbody text\n", "status: active\n---\n\nbody text\n"),
        "every unnamed key keeps the bytes its author wrote"
    );
    assert!(
        updated.contains("float: 1.50\n") && updated.contains("quoted_number: \"123\"\n"),
        "value style survives verbatim: {updated}"
    );
}

#[test]
fn update_note_frontmatter_leaves_an_obsidian_style_block_alone_apart_from_the_named_key() {
    let tmp = Vault::new();
    let original = "---\ntags: [type/project, status/active, domain/plans, topic/kids]\n# when this project started\ncreated: 2026-03-18\n---\nbody\n";
    let (_index, entry) = frontmatter_entry(&tmp, original, "Home");
    let mut updates: Vec<(String, String)> = Vec::new();
    updates.push(("status".to_string(), "\"active\"".to_string()));

    update_note_frontmatter(&tmp, &entry, updates, &content_hash(original)).expect("update");

    let updated = read_to_string(tmp.join(&entry.file)).expect("read");
    assert_eq!(
        updated,
        original.replace("---\nbody\n", "status: active\n---\nbody\n"),
        "the added key is the only difference, comment included: {updated}"
    );
}

#[test]
fn update_note_frontmatter_deletes_only_the_lines_the_key_owned() {
    let tmp = Vault::new();
    let original = "---\ntitle: Home\ntags:\n  - alpha\n  - beta\n\n# survives the delete above it\ncreated: 2026-03-18\n---\nbody\n";
    let (_index, entry) = frontmatter_entry(&tmp, original, "Home");
    let mut updates: Vec<(String, String)> = Vec::new();
    updates.push(("tags".to_string(), "null".to_string()));

    update_note_frontmatter(&tmp, &entry, updates, &content_hash(original)).expect("update");

    assert_eq!(
        read_to_string(tmp.join(&entry.file)).expect("read"),
        "---\ntitle: Home\n\n# survives the delete above it\ncreated: 2026-03-18\n---\nbody\n"
    );
}

#[test]
fn update_note_frontmatter_refuses_a_named_duplicate_key_by_name_without_touching_the_file() {
    let tmp = Vault::new();
    let original = "---\nkeep: first\nkeep: second\nother: value\n---\nbody\n";
    let (_index, entry) = frontmatter_entry(&tmp, original, "Home");
    let mut updates: Vec<(String, String)> = Vec::new();
    updates.push(("keep".to_string(), "\"third\"".to_string()));

    let error = update_note_frontmatter(&tmp, &entry, updates, &content_hash(original))
        .expect_err("a duplicated key cannot be edited unambiguously");
    let WriteError::InvalidInput(message) = error else {
        panic!("expected an invalid-input refusal, got {error:?}");
    };
    assert!(
        message.contains("'keep'") && message.contains("ambiguous"),
        "the refusal names the key and says why: {message}"
    );
    assert_eq!(
        read_to_string(tmp.join(&entry.file)).expect("read"),
        original,
        "a refused call writes nothing"
    );

    let mut other: Vec<(String, String)> = Vec::new();
    other.push(("other".to_string(), "\"changed\"".to_string()));
    let outcome =
        update_note_frontmatter(&tmp, &entry, other, &content_hash(original)).expect("unambiguous key");
    assert!(
        outcome
            .quality_warnings
            .iter()
            .any(|warning| warning.contains("duplicate key")),
        "the duplicate is still warned about: {:?}",
        outcome.quality_warnings
    );
    assert_eq!(
        read_to_string(tmp.join(&entry.file)).expect("read"),
        "---\nkeep: first\nkeep: second\nother: changed\n---\nbody\n"
    );
}

#[test]
fn update_note_frontmatter_requires_matching_hash() {
    let tmp = Vault::new();
    let original = "---\na: b\n---\nbody\n";
    let (_index, entry) = frontmatter_entry(&tmp, original, "Home");
    let mut updates: Vec<(String, String)> = Vec::new();
    updates.push(("a".to_string(), "\"c\"".to_string()));
    assert!(matches!(
        update_note_frontmatter(&tmp, &entry, updates.clone(), "fnv1a64:deadbeef"),
        Err(WriteError::Conflict(_))
    ));
    update_note_frontmatter(&tmp, &entry, updates, &content_hash(original))
        .expect("stale hash rejected, fresh accepted");
}

#[test]
fn update_note_frontmatter_refuses_invalid_existing_yaml_without_touching_it() {
    let tmp = Vault::new();
    let original = "---\ntags: [broken\n---\nbody\n";
    let (_index, entry) = frontmatter_entry(&tmp, original, "Home");
    let mut updates: Vec<(String, String)> = Vec::new();
    updates.push(("a".to_string(), "1".to_string()));
    let error = update_note_frontmatter(&tmp, &entry, updates, &content_hash(original))
        .expect_err("malformed existing frontmatter must fail loudly");
    assert!(
        matches!(error, WriteError::InvalidInput(_)),
        "got {error:?}"
    );
    assert_eq!(read_to_string(tmp.join(&entry.file)).expect("read"), original);
}

#[test]
fn write_quality_normalizes_safe_markdown_formatting() {
    let tmp = Vault::new();
    let root = &tmp;
    let catalog = build(root);
    let outcome =
        create_note(root, "Quality", "# Quality\r\nBody", false, &catalog).expect("create");

    assert_eq!(
        read_to_string(root.join("Quality.md")).expect("read"),
        "# Quality\nBody\n"
    );
    assert_eq!(
        outcome.quality_warnings,
        vec![
            "normalized CRLF/CR line endings to LF".to_string(),
            "added final newline".to_string()
        ]
    );
    assert_eq!(
        outcome.content_hash,
        Some(content_hash("# Quality\nBody\n"))
    );
}

#[test]
fn write_quality_reports_frontmatter_warnings() {
    let tmp = Vault::new();
    let root = &tmp;
    let catalog = build(root);
    let outcome = create_note(
        root,
        "Quality",
        "---\ntags: [a]\ntags: [b]\n# Missing close\n",
        false,
        &catalog,
    )
    .expect("create");

    assert_eq!(
        outcome.quality_warnings,
        vec![
            "frontmatter has duplicate key: tags".to_string(),
            "frontmatter opening marker has no closing marker".to_string(),
        ]
    );
}

#[test]
fn write_quality_rejects_nul_bytes() {
    let tmp = Vault::new();
    let catalog = build(&tmp);
    assert!(matches!(
        create_note(&tmp, "Bad", "hello\0world", false, &catalog),
        Err(WriteError::InvalidInput(message)) if message.contains("NUL")
    ));
    assert!(!tmp.join("Bad.md").is_there());
}

#[test]
fn edit_note_replaces_unique_string() {
    let tmp = Vault::new();
    let path = tmp.join("Home.md");
    write(&path, "alpha beta gamma").expect("write");
    let index = build(&tmp);
    let entry = index.find_by_slug("home").expect("home");

    let outcome = edit_note(
        &tmp, entry,
        "beta",
        "BETA",
        &content_hash("alpha beta gamma"),
        false,
    )
    .expect("edit");

    assert_eq!(
        read_to_string(&path).expect("read"),
        "alpha BETA gamma\n"
    );
    assert_eq!(
        outcome.content_hash,
        Some(content_hash("alpha BETA gamma\n"))
    );
}

#[test]
fn edit_note_rejects_missing_string() {
    let tmp = Vault::new();
    let path = tmp.join("Home.md");
    write(&path, "alpha").expect("write");
    let index = build(&tmp);
    let entry = index.find_by_slug("home").expect("home");

    assert!(matches!(
        edit_note(&tmp, entry, "missing", "x", &content_hash("alpha"), false),
        Err(WriteError::InvalidInput(_))
    ));
    assert_eq!(read_to_string(&path).expect("read"), "alpha");
}

#[test]
fn edit_note_rejects_ambiguous_match_without_replace_all() {
    let tmp = Vault::new();
    let path = tmp.join("Home.md");
    write(&path, "x and x").expect("write");
    let index = build(&tmp);
    let entry = index.find_by_slug("home").expect("home");

    assert!(matches!(
        edit_note(&tmp, entry, "x", "y", &content_hash("x and x"), false),
        Err(WriteError::Conflict(_))
    ));
    assert_eq!(read_to_string(&path).expect("read"), "x and x");
}

#[test]
fn edit_note_replace_all_replaces_every_occurrence() {
    let tmp = Vault::new();
    let path = tmp.join("Home.md");
    write(&path, "x x x").expect("write");
    let index = build(&tmp);
    let entry = index.find_by_slug("home").expect("home");

    edit_note(&tmp, entry, "x", "y", &content_hash("x x x"), true).expect("edit");

    assert_eq!(read_to_string(&path).expect("read"), "y y y\n");
}

#[test]
fn edit_note_requires_matching_hash() {
    let tmp = Vault::new();
    let path = tmp.join("Home.md");
    write(&path, "alpha").expect("write");
    let index = build(&tmp);
    let entry = index.find_by_slug("home").expect("home");

    assert!(matches!(
        edit_note(&tmp, entry, "alpha", "beta", "fnv1a64:deadbeef", false),
        Err(WriteError::Conflict(_))
    ));
    assert_eq!(read_to_string(&path).expect("read"), "alpha");
}

#[test]
fn replace_section_replaces_heading_and_body() {
    let tmp = Vault::new();
    let path = tmp.join("Home.md");
    let body = "# Title\n\n## One\nfirst\n\n## Two\nsecond\n";
    write(&path, body).expect("write");
    let index = build(&tmp);
    let entry = index.find_by_slug("home").expect("home");

    replace_section(
        &tmp, entry,
        "## One",
        SectionMode::Replace,
        "## One\nNEW\n",
        &content_hash(body),
    )
    .expect("replace");

    assert_eq!(
        read_to_string(&path).expect("read"),
        "# Title\n\n## One\nNEW\n## Two\nsecond\n"
    );
}

#[test]
fn replace_section_before_inserts_above_heading() {
    let tmp = Vault::new();
    let path = tmp.join("Home.md");
    let body = "## One\nfirst\n## Two\nsecond\n";
    write(&path, body).expect("write");
    let index = build(&tmp);
    let entry = index.find_by_slug("home").expect("home");

    replace_section(
        &tmp, entry,
        "## Two",
        SectionMode::Before,
        "## Inserted\nx\n",
        &content_hash(body),
    )
    .expect("replace");

    assert_eq!(
        read_to_string(&path).expect("read"),
        "## One\nfirst\n## Inserted\nx\n## Two\nsecond\n"
    );
}

#[test]
fn replace_section_after_inserts_below_section() {
    let tmp = Vault::new();
    let path = tmp.join("Home.md");
    let body = "## One\nfirst\n## Two\nsecond\n";
    write(&path, body).expect("write");
    let index = build(&tmp);
    let entry = index.find_by_slug("home").expect("home");

    replace_section(
        &tmp, entry,
        "## One",
        SectionMode::After,
        "## Inserted\nx\n",
        &content_hash(body),
    )
    .expect("replace");

    assert_eq!(
        read_to_string(&path).expect("read"),
        "## One\nfirst\n## Inserted\nx\n## Two\nsecond\n"
    );
}

#[test]
fn replace_section_ignores_heading_inside_code_fence() {
    let tmp = Vault::new();
    let path = tmp.join("Home.md");
    let body = "## Real\nbefore\n```\n## Fake\n```\nafter\n## Next\nx\n";
    write(&path, body).expect("write");
    let index = build(&tmp);
    let entry = index.find_by_slug("home").expect("home");

    replace_section(
        &tmp, entry,
        "## Real",
        SectionMode::Replace,
        "## Real\nNEW\n",
        &content_hash(body),
    )
    .expect("replace");

    assert_eq!(
        read_to_string(&path).expect("read"),
        "## Real\nNEW\n## Next\nx\n"
    );
}

#[test]
fn replace_section_rejects_missing_heading() {
    let tmp = Vault::new();
    let path = tmp.join("Home.md");
    let body = "## One\nfirst\n";
    write(&path, body).expect("write");
    let index = build(&tmp);
    let entry = index.find_by_slug("home").expect("home");

    assert!(matches!(
        replace_section(
            &tmp, entry,
            "## Missing",
            SectionMode::Replace,
            "x",
            &content_hash(body),
        ),
        Err(WriteError::InvalidInput(_))
    ));
    assert_eq!(read_to_string(&path).expect("read"), body);
}

#[test]
fn replace_section_rejects_duplicate_heading() {
    let tmp = Vault::new();
    let path = tmp.join("Home.md");
    let body = "## Dup\na\n## Dup\nb\n";
    write(&path, body).expect("write");
    let index = build(&tmp);
    let entry = index.find_by_slug("home").expect("home");

    assert!(matches!(
        replace_section(
            &tmp, entry,
            "## Dup",
            SectionMode::Replace,
            "x",
            &content_hash(body),
        ),
        Err(WriteError::Conflict(_))
    ));
    assert_eq!(read_to_string(&path).expect("read"), body);
}

#[test]
fn move_note_rewrites_backlinks_and_moves_referenced_assets() {
    let tmp = Vault::new();
    let root = &tmp;
    write(root.join("Notes/Target.md"), "body\n![](image.png)").expect("target");
    write(root.join("Notes/image.png"), "png").expect("asset");
    write(
        root.join("Backlink.md"),
        "[[Target|Alias]] and ![](Notes/image.png) and `[[Target]]`\n```\n[[Target]]\n![](Notes/image.png)\n```",
    )
    .expect("backlink");
    write(
        root.join("Other/Shared.md"),
        "shared ![](../Notes/image.png) and `![](../Notes/image.png)`",
    )
    .expect("shared");
    let index = build(root);
    let entry = index.find_by_slug("target").expect("target");

    let outcome = move_or_rename_note(
        root,
        &index,
        entry,
        "Archive/Renamed.md",
        &content_hash("body\n![](image.png)"),
    )
    .expect("move");

    assert_eq!(outcome.rewritten_notes, 2);
    assert_eq!(outcome.moved_assets, 1);
    assert!(root.join("Archive/Renamed.md").is_there());
    assert!(root.join("Archive/image.png").is_there());
    let backlink = read_to_string(root.join("Backlink.md")).expect("read");
    assert!(backlink.contains("[[Renamed|Alias]]"));
    assert!(backlink.contains("![](Archive/image.png)"));
    assert!(backlink.contains("`[[Target]]`"));
    assert!(backlink.contains("```\n[[Target]]\n![](Notes/image.png)\n```"));
    let shared = read_to_string(root.join("Other/Shared.md")).expect("shared");
    assert!(shared.contains("![](../Archive/image.png)"));
    assert!(shared.contains("`![](../Notes/image.png)`"));
}

#[test]
fn archive_note_moves_to_archive_prefix_and_leaves_a_bare_title_backlink_bare() {
    let tmp = Vault::new();
    let root = &tmp;
    write(root.join("40-reference/Idea.md"), "body").expect("target");
    write(root.join("Backlink.md"), "See [[Idea]]").expect("backlink");
    let index = build(root);
    let entry = index.find_by_slug("idea").expect("idea");

    let outcome =
        archive_note(root, &index, entry, "90-archive/", &content_hash("body")).expect("archive");

    assert_eq!(outcome.relative_path, Some("90-archive/Idea".to_string()));
    assert_eq!(outcome.rewritten_notes, 0);
    assert!(!root.join("40-reference/Idea.md").is_there());
    assert!(root.join("90-archive/Idea.md").is_there());
    assert_eq!(
        read_to_string(root.join("Backlink.md")).expect("backlink"),
        "See [[Idea]]"
    );
}

#[test]
fn archive_note_rewrites_a_path_qualified_backlink_to_the_archived_path() {
    let tmp = Vault::new();
    let root = &tmp;
    write(root.join("40-reference/Idea.md"), "body").expect("target");
    write(root.join("Backlink.md"), "See [[40-reference/Idea]]").expect("backlink");
    let index = build(root);
    let entry = index.find_by_slug("idea").expect("idea");

    let outcome =
        archive_note(root, &index, entry, "90-archive/", &content_hash("body")).expect("archive");

    assert_eq!(outcome.rewritten_notes, 1);
    assert_eq!(
        read_to_string(root.join("Backlink.md")).expect("backlink"),
        "See [[90-archive/Idea]]"
    );
}

#[test]
fn delete_note_moves_note_and_assets_to_trash_and_removes_backlinks() {
    let tmp = Vault::new();
    let root = &tmp;
    write(root.join("Target.md"), "body ![](asset.pdf)").expect("target");
    write(root.join("asset.pdf"), "pdf").expect("asset");
    write(
        root.join("Backlink.md"),
        "before [[Target]] after ![](asset.pdf)",
    )
    .expect("backlink");
    let index = build(root);
    let entry = index.find_by_slug("target").expect("target");

    let outcome =
        delete_note(root, &index, entry, &content_hash("body ![](asset.pdf)")).expect("delete");

    let trash = outcome.trashed_path.expect("trash path");
    assert!(!root.join("Target.md").is_there());
    assert!(root.join(format!("{trash}.md")).is_there());
    assert!(root.join(".hatchdoor-trash/asset.pdf").is_there());
    let backlink = read_to_string(root.join("Backlink.md")).expect("backlink");
    assert_eq!(backlink, "before  after ![](.hatchdoor-trash/asset.pdf)");
}

#[test]
fn delete_note_does_not_move_already_trashed_attachment_again() {
    let tmp = Vault::new();
    let root = &tmp;
    write(root.join("Notes/Target.md"), "body ![](Media/image.png)").expect("target");
    write(root.join("Notes/Media/image.png"), "png").expect("asset");

    let index = build(root);
    delete_attachment(root, &index, "Notes/Media/image.png").expect("delete attachment");
    let rewritten = read_to_string(root.join("Notes/Target.md")).expect("target");
    assert!(rewritten.contains("![](../.hatchdoor-trash/Notes/Media/image.png)"));

    let index = build(root);
    let entry = index.find_by_slug("target").expect("target");
    let outcome = delete_note(root, &index, entry, &content_hash(&rewritten)).expect("delete note");

    assert_eq!(outcome.moved_assets, 0);
    assert!(root.join(".hatchdoor-trash/Notes/Media/image.png").is_there());
    assert!(
        !root
            .join(".hatchdoor-trash/.hatchdoor-trash/Notes/Media/image.png")
            .is_there()
    );
    assert!(root.join(".hatchdoor-trash/Notes/Target.md").is_there());
}

#[test]
fn move_attachment_carries_bytes_that_are_not_valid_utf8() {
    let tmp = Vault::new();
    let root = &tmp;
    write(root.join("Media/photo.jpg"), BINARY_ASSET).expect("asset");
    write(root.join("Note.md"), "![](Media/photo.jpg)").expect("note");
    let index = build(root);

    move_attachment(root, &index, "Media/photo.jpg", "Archive/photo.jpg").expect("move attachment");

    assert!(!root.join("Media/photo.jpg").is_there());
    assert_eq!(
        read(root.join("Archive/photo.jpg")).expect("moved asset"),
        BINARY_ASSET
    );
    assert_eq!(
        read_to_string(root.join("Note.md")).expect("note"),
        "![](Archive/photo.jpg)"
    );
}

#[test]
fn rename_attachment_keeps_bytes_that_are_not_valid_utf8() {
    let tmp = Vault::new();
    let root = &tmp;
    write(root.join("Media/photo.jpg"), BINARY_ASSET).expect("asset");
    write(root.join("Note.md"), "![](Media/photo.jpg)").expect("note");
    let index = build(root);

    rename_attachment(root, &index, "Media/photo.jpg", "cover.jpg").expect("rename attachment");

    assert!(!root.join("Media/photo.jpg").is_there());
    assert_eq!(
        read(root.join("Media/cover.jpg")).expect("renamed asset"),
        BINARY_ASSET
    );
    assert_eq!(
        read_to_string(root.join("Note.md")).expect("note"),
        "![](Media/cover.jpg)"
    );
}

#[test]
fn delete_attachment_trashes_bytes_that_are_not_valid_utf8() {
    let tmp = Vault::new();
    let root = &tmp;
    write(root.join("Media/photo.jpg"), BINARY_ASSET).expect("asset");
    write(root.join("Note.md"), "![](Media/photo.jpg)").expect("note");
    let index = build(root);

    let outcome = delete_attachment(root, &index, "Media/photo.jpg").expect("delete attachment");

    let trashed = outcome.trashed_path.expect("trash path");
    assert!(!root.join("Media/photo.jpg").is_there());
    assert_eq!(
        read(root.join(&trashed)).expect("trashed asset"),
        BINARY_ASSET
    );
}

#[test]
fn move_note_carries_a_sibling_asset_whose_bytes_are_not_valid_utf8() {
    let tmp = Vault::new();
    let root = &tmp;
    write(root.join("Notes/Target.md"), "body\n![](photo.jpg)").expect("target");
    write(root.join("Notes/photo.jpg"), BINARY_ASSET).expect("asset");
    write(root.join("Backlink.md"), "![](Notes/photo.jpg) [[Target]]").expect("backlink");
    let index = build(root);
    let entry = index.find_by_slug("target").expect("target");

    let outcome = move_or_rename_note(
        root,
        &index,
        entry,
        "Archive/Renamed.md",
        &content_hash("body\n![](photo.jpg)"),
    )
    .expect("move a note holding a binary attachment");

    assert_eq!(outcome.moved_assets, 1);
    assert!(root.join("Archive/Renamed.md").is_there());
    assert_eq!(
        read(root.join("Archive/photo.jpg")).expect("moved asset"),
        BINARY_ASSET
    );
    let backlink = read_to_string(root.join("Backlink.md")).expect("backlink");
    assert!(backlink.contains("![](Archive/photo.jpg)"));
    assert!(backlink.contains("[[Renamed]]"));
}

#[test]
fn archive_note_carries_an_asset_whose_bytes_are_not_valid_utf8() {
    let tmp = Vault::new();
    let root = &tmp;
    note_with_a_binary_asset(root);
    let index = build(root);
    let entry = index.find_by_slug("target").expect("target");

    archive_note(
        root,
        &index,
        entry,
        "90-archive/",
        &content_hash(BINARY_ASSET_NOTE),
    )
    .expect("archive a note holding a binary attachment");

    assert!(!root.join("Notes/photo.jpg").is_there());
    assert_eq!(
        read(root.join("90-archive/photo.jpg")).expect("archived asset"),
        BINARY_ASSET
    );
}

#[test]
fn delete_note_trashes_an_asset_whose_bytes_are_not_valid_utf8() {
    let tmp = Vault::new();
    let root = &tmp;
    note_with_a_binary_asset(root);
    let index = build(root);
    let entry = index.find_by_slug("target").expect("target");

    delete_note(root, &index, entry, &content_hash(BINARY_ASSET_NOTE))
        .expect("delete a note holding a binary attachment");

    assert!(!root.join("Notes/photo.jpg").is_there());
    assert_eq!(
        read(root.join(".hatchdoor-trash/photo.jpg")).expect("trashed asset"),
        BINARY_ASSET
    );
}

#[test]
fn move_note_reports_a_stale_hash_as_a_changed_note_not_an_unsafe_source() {
    let tmp = Vault::new();
    let root = &tmp;
    write(root.join("Notes/Target.md"), "body").expect("target");
    let index = build(root);
    let entry = index.find_by_slug("target").expect("target");

    let error = move_or_rename_note(
        root,
        &index,
        entry,
        "Archive/Target.md",
        &content_hash("something else"),
    )
    .expect_err("a stale hash must refuse the move");

    let WriteError::Conflict(message) = error else {
        panic!("expected a conflict");
    };
    assert!(
        message.contains("note changed since it was read"),
        "the optimistic-concurrency failure must stay distinct from an unsafe source: {message}"
    );
    assert!(root.join("Notes/Target.md").is_there());
    assert!(!root.join("Archive/Target.md").is_there());
}

#[test]
fn note_move_compensates_failures_after_every_completed_phase() {
    for failed_phase in [
        MutationPhase::Note,
        MutationPhase::Asset,
        MutationPhase::Rewrite,
    ] {
        let tmp = Vault::new();
        let root = &tmp;
        write(root.join("Notes/Target.md"), "body\n![](image.png)").expect("target");
        write(root.join("Notes/image.png"), "original asset").expect("asset");
        write(
            root.join("Backlink.md"),
            "See [[Target]] and ![](Notes/image.png)",
        )
        .expect("backlink");
        let index = build(root);
        let entry = index.find_by_slug("target").expect("target");

        let error = move_or_rename_note_with_failure(
            root,
            &index,
            entry,
            "Archive/Target.md",
            &content_hash("body\n![](image.png)"),
            |completed| {
                if completed == failed_phase {
                    Err(WriteError::Io(format!(
                        "injected failure after {completed:?} phase"
                    )))
                } else {
                    Ok(())
                }
            },
        )
        .expect_err("injected phase failure must abort the mutation");

        let WriteError::Io(message) = error else {
            panic!("expected injected I/O error");
        };
        assert!(message.contains("rollback succeeded"));
        assert_eq!(
            read_to_string(root.join("Notes/Target.md")).expect("restored note"),
            "body\n![](image.png)"
        );
        assert_eq!(
            read_to_string(root.join("Notes/image.png")).expect("restored asset"),
            "original asset"
        );
        assert_eq!(
            read_to_string(root.join("Backlink.md")).expect("restored backlink"),
            "See [[Target]] and ![](Notes/image.png)"
        );
        assert!(!root.join("Archive/Target.md").is_there());
        assert!(!root.join("Archive/image.png").is_there());
    }
}

#[test]
fn attachment_move_compensates_failures_after_every_completed_phase() {
    for failed_phase in [MutationPhase::Asset, MutationPhase::Rewrite] {
        let tmp = Vault::new();
        let root = &tmp;
        write(root.join("Media/image.png"), "original asset").expect("asset");
        write(root.join("Note.md"), "![](Media/image.png)").expect("note");
        let index = build(root);

        let error = move_attachment_with_failure(
            root,
            &index,
            "Media/image.png",
            "Archive/image.png",
            |completed| {
                if completed == failed_phase {
                    Err(WriteError::Io(format!(
                        "injected failure after {completed:?} phase"
                    )))
                } else {
                    Ok(())
                }
            },
        )
        .expect_err("injected phase failure must abort the mutation");

        let WriteError::Io(message) = error else {
            panic!("expected injected I/O error");
        };
        assert!(message.contains("rollback succeeded"));
        assert_eq!(
            read_to_string(root.join("Media/image.png")).expect("restored asset"),
            "original asset"
        );
        assert_eq!(
            read_to_string(root.join("Note.md")).expect("restored reference"),
            "![](Media/image.png)"
        );
        assert!(!root.join("Archive/image.png").is_there());
    }
}

#[test]
fn note_delete_compensates_a_failure_after_rewrites() {
    let tmp = Vault::new();
    let root = &tmp;
    write(root.join("Target.md"), "body ![](asset.pdf)").expect("target");
    write(root.join("asset.pdf"), "original asset").expect("asset");
    write(
        root.join("Backlink.md"),
        "before [[Target]] after ![](asset.pdf)",
    )
    .expect("backlink");
    let index = build(root);
    let entry = index.find_by_slug("target").expect("target");

    let error = delete_note_with_failure(
        root,
        &index,
        entry,
        &content_hash("body ![](asset.pdf)"),
        |completed| {
            if completed == MutationPhase::Rewrite {
                Err(WriteError::Io(
                    "injected failure after delete rewrites".to_string(),
                ))
            } else {
                Ok(())
            }
        },
    )
    .expect_err("late delete failure must abort");

    let WriteError::Io(message) = error else {
        panic!("expected injected I/O error");
    };
    assert!(message.contains("rollback succeeded"));
    assert_eq!(
        read_to_string(root.join("Target.md")).expect("restored note"),
        "body ![](asset.pdf)"
    );
    assert_eq!(
        read_to_string(root.join("asset.pdf")).expect("restored asset"),
        "original asset"
    );
    assert_eq!(
        read_to_string(root.join("Backlink.md")).expect("restored backlink"),
        "before [[Target]] after ![](asset.pdf)"
    );
    assert!(!root.join(".hatchdoor-trash/Target.md").is_there());
    assert!(!root.join(".hatchdoor-trash/asset.pdf").is_there());
}

#[test]
fn compensation_failure_surfaces_bounded_recovery_details_and_continues_rollback() {
    let tmp = Vault::new();
    let root = &tmp;
    write(root.join("Notes/Target.md"), "body\n![](image.png)").expect("target");
    write(root.join("Notes/image.png"), "original asset").expect("asset");
    write(
        root.join("Backlink.md"),
        "See [[Target]] and ![](Notes/image.png)",
    )
    .expect("backlink");
    let index = build(root);
    let entry = index.find_by_slug("target").expect("target");
    let backlink = root.join("Backlink.md");

    let error = move_or_rename_note_with_failure(
        root,
        &index,
        entry,
        "Archive/Target.md",
        &content_hash("body\n![](image.png)"),
        |completed| {
            if completed == MutationPhase::Rewrite {
                write(&backlink, "manual concurrent edit")
                    .expect("simulate external replacement");
                Err(WriteError::Io(
                    "injected failure after rewrite phase".to_string(),
                ))
            } else {
                Ok(())
            }
        },
    )
    .expect_err("incomplete compensation must be reported");

    let WriteError::Io(message) = error else {
        panic!("expected recovery-required I/O error");
    };
    assert!(message.contains("recovery required"));
    assert!(message.contains("Backlink.md"));
    assert!(message.contains("restore rewritten note"));

    assert_eq!(
        read_to_string(root.join("Notes/Target.md")).expect("restored note"),
        "body\n![](image.png)"
    );
    assert_eq!(
        read_to_string(root.join("Notes/image.png")).expect("restored asset"),
        "original asset"
    );
    assert!(!root.join("Archive/Target.md").is_there());
    assert!(!root.join("Archive/image.png").is_there());
    assert_eq!(
        read_to_string(backlink).expect("manual edit preserved"),
        "manual concurrent edit",
        "compensation must not overwrite a concurrent manual edit"
    );
}

#[test]
fn move_note_leaves_an_asset_outside_its_folder_in_place_and_repoints_its_own_reference() {
    for target in [
        "folder-z/B.md",
        "folder-x/deeper/B.md",
        "B.md",
        "_system/B.md",
    ] {
        let tmp = Vault::new();
        let root = &tmp;
        let body = vault_with_a_shared_attachments_folder(root);
        let index = build(root);
        let entry = index.find_by_slug("b").expect("b");

        let outcome = move_or_rename_note(root, &index, entry, target, &content_hash(&body))
            .unwrap_or_else(|error| panic!("move to '{target}' must succeed: {error:?}"));

        assert_eq!(
            outcome.moved_assets, 0,
            "an asset outside the note's folder must not travel to '{target}'"
        );
        assert_eq!(
            read(root.join("_system/image.png")).expect("asset stays put"),
            BINARY_ASSET
        );
        embedded_asset_resolves_to(root, target, "_system/image.png");
    }
}

#[test]
fn archive_note_leaves_an_asset_outside_its_folder_in_place() {
    let tmp = Vault::new();
    let root = &tmp;
    let body = vault_with_a_shared_attachments_folder(root);
    let index = build(root);
    let entry = index.find_by_slug("b").expect("b");

    let outcome = archive_note(root, &index, entry, "90-archive/", &content_hash(&body))
        .expect("archive must succeed");

    assert_eq!(outcome.moved_assets, 0);
    assert!(root.join("_system/image.png").is_there());
    embedded_asset_resolves_to(root, "90-archive/B.md", "_system/image.png");
}

#[test]
fn delete_note_leaves_an_asset_outside_its_folder_in_place_and_repoints_the_trashed_copy() {
    let tmp = Vault::new();
    let root = &tmp;
    let body = vault_with_a_shared_attachments_folder(root);
    let index = build(root);
    let entry = index.find_by_slug("b").expect("b");

    let outcome = delete_note(root, &index, entry, &content_hash(&body)).expect("delete");

    assert_eq!(outcome.moved_assets, 0);
    assert!(root.join("_system/image.png").is_there());
    let trashed = format!("{}.md", outcome.trashed_path.expect("trash path"));
    embedded_asset_resolves_to(root, &trashed, "_system/image.png");
}

#[test]
fn a_note_whose_reference_an_earlier_move_rewrote_can_still_be_moved_archived_and_deleted() {
    let tmp = Vault::new();
    let root = &tmp;
    let a_body = "# A\n![](image.png)\n";
    let b_body = "# B\n![](image.png)\n";
    write(root.join("folder-x/A.md"), a_body).expect("a");
    write(root.join("folder-x/B.md"), b_body).expect("b");
    write(root.join("folder-x/image.png"), BINARY_ASSET).expect("asset");

    let index = build(root);
    let a = index.find_by_slug("a").expect("a").clone();
    let moved_a = move_or_rename_note(root, &index, &a, "folder-y/A.md", &content_hash(a_body))
        .expect("moving A must still carry its sibling asset");
    assert_eq!(moved_a.moved_assets, 1);
    let rewritten_b = read_to_string(root.join("folder-x/B.md")).expect("b");
    assert!(
        rewritten_b.contains("![](../folder-y/image.png)"),
        "B's reference must be repointed at the moved asset: {rewritten_b}"
    );

    let index = build(root);
    let b = index.find_by_slug("b").expect("b").clone();
    move_or_rename_note(
        root,
        &index,
        &b,
        "folder-z/B.md",
        &content_hash(&rewritten_b),
    )
    .expect("B must be movable after the rewrite");
    embedded_asset_resolves_to(root, "folder-z/B.md", "folder-y/image.png");

    let moved_b = read_to_string(root.join("folder-z/B.md")).expect("b");
    let index = build(root);
    let b = index.find_by_slug("b").expect("b").clone();
    archive_note(root, &index, &b, "90-archive/", &content_hash(&moved_b))
        .expect("B must be archivable");
    embedded_asset_resolves_to(root, "90-archive/B.md", "folder-y/image.png");

    let archived_b = read_to_string(root.join("90-archive/B.md")).expect("b");
    let index = build(root);
    let b = index.find_by_slug("b").expect("b").clone();
    let deleted =
        delete_note(root, &index, &b, &content_hash(&archived_b)).expect("B must be deletable");
    assert!(
        root.join("folder-y/image.png").is_there(),
        "deleting B must not trash an asset it only references"
    );
    let trashed = format!("{}.md", deleted.trashed_path.expect("trash path"));
    embedded_asset_resolves_to(root, &trashed, "folder-y/image.png");
}

#[test]
fn move_note_carries_an_asset_held_in_a_subfolder_of_its_own_folder() {
    let tmp = Vault::new();
    let root = &tmp;
    let body = "# Target\n![](media/image.png)\n";
    write(root.join("Notes/Target.md"), body).expect("target");
    write(root.join("Notes/media/image.png"), BINARY_ASSET).expect("asset");
    let index = build(root);
    let entry = index.find_by_slug("target").expect("target");

    let outcome = move_or_rename_note(
        root,
        &index,
        entry,
        "Archive/Target.md",
        &content_hash(body),
    )
    .expect("move");

    assert_eq!(outcome.moved_assets, 1);
    assert!(!root.join("Notes/media/image.png").is_there());
    assert_eq!(
        read(root.join("Archive/media/image.png")).expect("asset travelled"),
        BINARY_ASSET
    );
    embedded_asset_resolves_to(root, "Archive/Target.md", "Archive/media/image.png");
}

#[test]
fn move_note_refuses_an_asset_reference_that_escapes_the_vault() {
    let tmp = Vault::new();
    let root = &tmp;
    write(root.join("folder-x/media/own.png"), BINARY_ASSET).expect("own asset");
    let body = "# B\n![](media/own.png)\n![](../../outside/image.png)\n";
    write(root.join("folder-x/B.md"), body).expect("note");
    let index = build(root);
    let entry = index.find_by_slug("b").expect("b");

    let error = move_or_rename_note(root, &index, entry, "folder-z/B.md", &content_hash(body))
        .expect_err("a reference pointing out of the vault must be refused");

    assert!(
        matches!(&error, WriteError::InvalidInput(message) if message.contains("outside the vault")),
        "expected an invalid-input refusal, got {error:?}"
    );
    assert!(
        root.join("folder-x/B.md").is_there(),
        "the note must not move"
    );
    assert!(
        !root.join("folder-z").is_there(),
        "a refused plan must not create any part of the destination"
    );
    assert!(
        root.join("folder-x/media/own.png").is_there(),
        "the note's own asset must not move either"
    );
}

#[test]
fn move_note_from_the_vault_root_carries_the_assets_it_references() {
    let tmp = Vault::new();
    let root = &tmp;
    let body = "# B\n![](_system/image.png)\n";
    write(root.join("_system/image.png"), BINARY_ASSET).expect("asset");
    write(root.join("B.md"), body).expect("note");
    let index = build(root);
    let entry = index.find_by_slug("b").expect("b");

    let outcome = move_or_rename_note(root, &index, entry, "folder-z/B.md", &content_hash(body))
        .expect("move");

    assert_eq!(outcome.moved_assets, 1);
    assert_eq!(
        read(root.join("folder-z/_system/image.png")).expect("asset travelled"),
        BINARY_ASSET
    );
    embedded_asset_resolves_to(root, "folder-z/B.md", "folder-z/_system/image.png");
}

#[test]
fn every_path_a_planned_asset_move_hands_the_filesystem_is_accepted_by_the_move_primitive() {
    let tmp = Vault::new();
    let root = &tmp;
    write(root.join("_system/shared.png"), BINARY_ASSET).expect("shared asset");
    write(root.join("folder-x/media/own.png"), BINARY_ASSET).expect("own asset");
    write(
        root.join("folder-x/B.md"),
        "![](../_system/shared.png)\n![](./media/own.png)\n",
    )
    .expect("note");

    let index = build(root);
    let entry = index.find_by_slug("b").expect("b").clone();
    let (moves, _rewrites) = root.plan(|made| {
        asset_move_plan(
            &index,
            &root.bodies(&index),
            &root.facts(&[]),
            &entry,
            "deeper/nest/B.md",
            false,
            &Vec::new(),
            made,
        )
    })
    .expect("plan");

    assert_eq!(moves.len(), 1, "only the note's own asset travels");
    for asset_move in &moves {
        for path in [&asset_move.source, &asset_move.destination] {
            assert!(
                !path.split('/').any(|part| part == ".."),
                "a planned path must be free of '..': {path}"
            );
        }
        root.rename(&asset_move.source, &asset_move.destination)
            .expect("the move primitive must accept every path the planner produced");
    }
}

#[test]
fn rename_note_keeps_a_bare_title_backlink_bare() {
    let tmp = Vault::new();
    let root = &tmp;
    write(root.join("homelab/decisions/Wayfinder Efforts.md"), "body").expect("target");
    write(root.join("Operating Notes.md"), "See [[Wayfinder Efforts]]").expect("backlink");
    let index = build(root);
    let entry = index
        .find_by_slug("wayfinder-efforts")
        .expect("wayfinder efforts");

    move_or_rename_note(
        root,
        &index,
        entry,
        "homelab/decisions/ADR Wayfinder Efforts.md",
        &content_hash("body"),
    )
    .expect("rename");

    assert_eq!(
        read_to_string(root.join("Operating Notes.md")).expect("backlink"),
        "See [[ADR Wayfinder Efforts]]"
    );
}

#[test]
fn move_note_leaves_a_bare_title_backlink_untouched_when_the_title_does_not_change() {
    let tmp = Vault::new();
    let root = &tmp;
    write(root.join("Idea.md"), "body").expect("target");
    write(root.join("Backlink.md"), "See [[Idea]]").expect("backlink");
    let index = build(root);
    let entry = index.find_by_slug("idea").expect("idea");

    move_or_rename_note(root, &index, entry, "Inbox/Idea.md", &content_hash("body")).expect("move");

    assert!(root.join("Inbox/Idea.md").is_there());
    assert_eq!(
        read_to_string(root.join("Backlink.md")).expect("backlink"),
        "See [[Idea]]"
    );
}

#[test]
fn move_note_rewrites_a_path_qualified_backlink_to_the_new_full_path() {
    let tmp = Vault::new();
    let root = &tmp;
    write(root.join("Notes/Target.md"), "body").expect("target");
    write(
        root.join("Backlink.md"),
        "See [[Notes/Target]], [[Notes/Target|Alias]], [[Notes/Target#Heading]] and ![[Notes/Target^block-id]]",
    )
    .expect("backlink");
    let index = build(root);
    let entry = index.find_by_slug("target").expect("target");

    move_or_rename_note(
        root,
        &index,
        entry,
        "Archive/Renamed.md",
        &content_hash("body"),
    )
    .expect("move");

    assert_eq!(
        read_to_string(root.join("Backlink.md")).expect("backlink"),
        "See [[Archive/Renamed]], [[Archive/Renamed|Alias]], [[Archive/Renamed#Heading]] and ![[Archive/Renamed^block-id]]"
    );
}

#[test]
fn move_note_falls_back_to_the_full_path_when_the_new_title_collides() {
    let tmp = Vault::new();
    let root = &tmp;
    write(root.join("Notes/Target.md"), "body").expect("target");
    write(root.join("Other/Renamed.md"), "unrelated").expect("collider");
    write(
        root.join("Backlink.md"),
        "See [[Target]], [[Target|Alias]], [[Target#Heading]] and ![[Target^block-id]]",
    )
    .expect("backlink");
    let index = build(root);
    let entry = index.find_by_slug("target").expect("target");

    let outcome = move_or_rename_note(
        root,
        &index,
        entry,
        "Archive/Renamed.md",
        &content_hash("body"),
    )
    .expect("move");

    assert_eq!(
        read_to_string(root.join("Backlink.md")).expect("backlink"),
        "See [[Archive/Renamed]], [[Archive/Renamed|Alias]], [[Archive/Renamed#Heading]] and ![[Archive/Renamed^block-id]]"
    );
    let moved_slug = outcome.slug.expect("moved slug");
    let after = build(root);
    assert_eq!(
        after
            .resolve_wikilink("Archive/Renamed")
            .expect("the rewritten link must still resolve")
            .slug,
        moved_slug,
        "the fallback form must resolve to the moved note, not its same-titled neighbour"
    );
}

#[test]
fn a_preserved_bare_title_backlink_keeps_its_alias_anchor_and_embed_form() {
    let tmp = Vault::new();
    let root = &tmp;
    write(root.join("Notes/Target.md"), "body").expect("target");
    write(
        root.join("Backlink.md"),
        "[[Target|Alias]] [[Target#Heading]] [[Target^block-id]] ![[Target]] `[[Target]]`",
    )
    .expect("backlink");
    let index = build(root);
    let entry = index.find_by_slug("target").expect("target");

    move_or_rename_note(
        root,
        &index,
        entry,
        "Archive/Renamed.md",
        &content_hash("body"),
    )
    .expect("move");

    assert_eq!(
        read_to_string(root.join("Backlink.md")).expect("backlink"),
        "[[Renamed|Alias]] [[Renamed#Heading]] [[Renamed^block-id]] ![[Renamed]] `[[Target]]`"
    );
}

#[test]
fn move_note_rewrites_a_slug_form_backlink_to_the_new_full_path() {
    let tmp = Vault::new();
    let root = &tmp;
    write(root.join("Notes/Some Note.md"), "body").expect("target");
    write(root.join("Backlink.md"), "See [[some-note]]").expect("backlink");
    let index = build(root);
    let entry = index.find_by_slug("some-note").expect("some note");

    move_or_rename_note(
        root,
        &index,
        entry,
        "Archive/Some Note.md",
        &content_hash("body"),
    )
    .expect("move");

    assert_eq!(
        read_to_string(root.join("Backlink.md")).expect("backlink"),
        "See [[Archive/Some Note]]"
    );
}

#[test]
fn renaming_a_note_keeps_an_asset_that_is_already_in_place() {
    for target in ["folder-x/C.md", "folder-x/Renamed B.md"] {
        let tmp = Vault::new();
        let root = &tmp;
        let body = vault_with_an_asset_beside_its_note(root);
        let index = build(root);
        let entry = index.find_by_slug("b").expect("b");

        let outcome = move_or_rename_note(root, &index, entry, target, &content_hash(&body))
            .unwrap_or_else(|error| panic!("rename to '{target}' must succeed: {error:?}"));

        assert_eq!(
            outcome.moved_assets, 0,
            "an asset already at its destination has not moved"
        );
        assert_eq!(
            read(root.join("folder-x/media/own.png")).expect("asset stays put"),
            BINARY_ASSET
        );
        assert_eq!(
            read_to_string(root.join(target)).expect("renamed note"),
            body,
            "the note's reference to an asset that did not move is unchanged"
        );
        embedded_asset_resolves_to(root, target, "folder-x/media/own.png");
    }
}

#[test]
fn renaming_a_note_in_the_vault_root_keeps_the_assets_it_references() {
    let tmp = Vault::new();
    let root = &tmp;
    let body = "# B\n![](_system/image.png)\n";
    write(root.join("_system/image.png"), BINARY_ASSET).expect("asset");
    write(root.join("B.md"), body).expect("note");
    let index = build(root);
    let entry = index.find_by_slug("b").expect("b");

    let outcome =
        move_or_rename_note(root, &index, entry, "C.md", &content_hash(body)).expect("rename");

    assert_eq!(outcome.moved_assets, 0);
    assert_eq!(
        read(root.join("_system/image.png")).expect("asset stays put"),
        BINARY_ASSET
    );
    embedded_asset_resolves_to(root, "C.md", "_system/image.png");
}

#[test]
fn moving_a_note_still_refuses_a_different_file_at_an_asset_destination() {
    let tmp = Vault::new();
    let root = &tmp;
    let body = vault_with_an_asset_beside_its_note(root);
    write(root.join("folder-y/media/own.png"), b"a different file").expect("occupant");
    let index = build(root);
    let entry = index.find_by_slug("b").expect("b");

    let error = move_or_rename_note(root, &index, entry, "folder-y/B.md", &content_hash(&body))
        .expect_err("a different file at the destination must still refuse the move");

    assert!(
        matches!(&error, WriteError::Conflict(message) if message.contains("Destination asset already exists")),
        "expected a conflict refusal, got {error:?}"
    );
    assert!(
        root.join("folder-x/B.md").is_there(),
        "the note must not move"
    );
    assert_eq!(
        read(root.join("folder-x/media/own.png")).expect("own asset untouched"),
        BINARY_ASSET
    );
    assert_eq!(
        read(root.join("folder-y/media/own.png")).expect("occupant untouched"),
        b"a different file"
    );
}

#[test]
fn move_attachment_relocates_a_file_the_upload_allowlist_would_refuse() {
    for name in ["demo.mp4", "rows.csv", "bundle.zip"] {
        let tmp = Vault::new();
        let root = &tmp;
        write(root.join(format!("Media/{name}")), BINARY_ASSET).expect("asset");
        write(root.join("Note.md"), format!("![](Media/{name})")).expect("note");
        let index = build(root);

        move_attachment(
            root,
            &index,
            &format!("Media/{name}"),
            &format!("Archive/{name}"),
        )
        .unwrap_or_else(|error| panic!("'{name}' must be movable: {error:?}"));

        assert!(!root.join(format!("Media/{name}")).is_there());
        assert_eq!(
            read(root.join(format!("Archive/{name}"))).expect("moved asset"),
            BINARY_ASSET
        );
        assert_eq!(
            read_to_string(root.join("Note.md")).expect("note"),
            format!("![](Archive/{name})"),
            "every reference to '{name}' must be repointed"
        );
    }
}

#[test]
fn rename_and_delete_accept_a_file_the_upload_allowlist_would_refuse() {
    let tmp = Vault::new();
    let root = &tmp;
    write(root.join("Media/demo.mp4"), BINARY_ASSET).expect("asset");
    write(root.join("Note.md"), "![](Media/demo.mp4)").expect("note");
    let index = build(root);

    rename_attachment(root, &index, "Media/demo.mp4", "clip.mp4").expect("rename the video");
    assert_eq!(
        read_to_string(root.join("Note.md")).expect("note"),
        "![](Media/clip.mp4)"
    );

    let index = build(root);
    let outcome = delete_attachment(root, &index, "Media/clip.mp4").expect("delete the video");

    let trashed = outcome.trashed_path.expect("trash path");
    assert!(!root.join("Media/clip.mp4").is_there());
    assert_eq!(
        read(root.join(&trashed)).expect("trashed asset"),
        BINARY_ASSET,
        "delete must stay recoverable trash"
    );
}

#[test]
fn a_file_with_no_extension_at_all_can_be_moved_renamed_and_deleted() {
    let tmp = Vault::new();
    let root = &tmp;
    write(root.join("Media/notes"), BINARY_ASSET).expect("asset");
    write(root.join("Note.md"), "![](Media/notes)").expect("note");
    let index = build(root);

    move_attachment(root, &index, "Media/notes", "Archive/notes").expect("move");
    assert_eq!(
        read(root.join("Archive/notes")).expect("moved asset"),
        BINARY_ASSET
    );
    assert_eq!(
        read_to_string(root.join("Note.md")).expect("note"),
        "![](Media/notes)",
        "an extensionless target is not recognised as a reference and stays as written"
    );

    let index = build(root);
    rename_attachment(root, &index, "Archive/notes", "reading").expect("rename");
    assert_eq!(
        read(root.join("Archive/reading")).expect("renamed asset"),
        BINARY_ASSET
    );

    let index = build(root);
    let outcome = delete_attachment(root, &index, "Archive/reading").expect("delete");
    let trashed = outcome.trashed_path.expect("trash path");
    assert!(!root.join("Archive/reading").is_there());
    assert_eq!(
        read(root.join(&trashed)).expect("trashed asset"),
        BINARY_ASSET
    );
}

#[test]
fn attachment_operations_refuse_a_markdown_target() {
    let expect_note_tools = |error: WriteError, what: &str| match error {
        WriteError::InvalidInput(message) => assert!(
            message.contains("note tools"),
            "{what} must point the caller at the note tools, got: {message}"
        ),
        other => panic!("{what} must be an invalid-input refusal, got {other:?}"),
    };

    for extension in ["md", "MD"] {
        let tmp = Vault::new();
        let root = &tmp;
        write(root.join("Media/demo.mp4"), BINARY_ASSET).expect("video");
        write(root.join(format!("Note.{extension}")), "body").expect("note");
        let index = build(root);

        expect_note_tools(
            move_attachment(root, &index, &format!("Note.{extension}"), "Media/Moved.md")
                .expect_err("a note is not an attachment"),
            &format!("moving '.{extension}'"),
        );
        expect_note_tools(
            move_attachment(
                root,
                &index,
                "Media/demo.mp4",
                &format!("Media/demo.{extension}"),
            )
            .expect_err("an attachment must not become a note"),
            &format!("moving to '.{extension}'"),
        );
        expect_note_tools(
            rename_attachment(root, &index, &format!("Note.{extension}"), "Renamed.md")
                .expect_err("a note is not an attachment"),
            &format!("renaming '.{extension}'"),
        );
        expect_note_tools(
            rename_attachment(root, &index, "Media/demo.mp4", &format!("demo.{extension}"))
                .expect_err("an attachment must not become a note"),
            &format!("renaming to '.{extension}'"),
        );
        expect_note_tools(
            delete_attachment(root, &index, &format!("Note.{extension}"))
                .expect_err("a note is not an attachment"),
            &format!("deleting '.{extension}'"),
        );

        assert!(
            root.join(format!("Note.{extension}")).is_there(),
            "a refused operation must leave the note where it was"
        );
    }
}

#[test]
fn attachment_operations_refuse_a_file_inside_the_git_directory() {
    let tmp = Vault::new();
    let root = &tmp;
    write(root.join(".git/config"), "[core]\n").expect("git config");
    write(root.join(".git/hooks/pre-commit.sample"), "#!/bin/sh\n").expect("git hook");
    write(root.join("Note.md"), "body").expect("note");
    let index = build(root);

    for path in [".git/config", ".git/hooks/pre-commit.sample"] {
        for error in [
            move_attachment(root, &index, path, "Media/stolen").expect_err("move must refuse"),
            rename_attachment(root, &index, path, "stolen").expect_err("rename must refuse"),
            delete_attachment(root, &index, path).expect_err("delete must refuse"),
        ] {
            assert!(
                matches!(&error, WriteError::InvalidInput(message) if message.contains("repository")),
                "'{path}' must be refused as repository internals, got {error:?}"
            );
        }
    }

    assert_eq!(
        read_to_string(root.join(".git/config")).expect("git config"),
        "[core]\n",
        "the repository must be untouched"
    );
}

#[test]
fn import_still_refuses_an_extension_outside_the_upload_allowlist() {
    let tmp = Vault::new();
    let root = &tmp;

    let error = import_attachment_bytes(root, "Media/demo.mp4", BINARY_ASSET, 1024, false)
        .expect_err("upload must still refuse a video");

    assert!(
        matches!(&error, WriteError::InvalidInput(message) if message.contains("unsupported attachment extension: mp4")),
        "expected the existing upload refusal, got {error:?}"
    );
    assert!(!root.join("Media/demo.mp4").is_there());
}

#[test]
fn move_note_carries_a_video_from_its_own_folder_and_rewrites_the_reference() {
    let tmp = Vault::new();
    let root = &tmp;
    let body = vault_with_a_video_beside_its_note(root);
    let index = build(root);
    let entry = index.find_by_slug("clip").expect("clip");

    let outcome = move_or_rename_note(root, &index, entry, "Archive/Clip.md", &content_hash(&body))
        .expect("move the note");

    assert_eq!(
        outcome.moved_assets, 1,
        "the video travels with the note it sits beside"
    );
    assert!(!root.join("Media/demo.mp4").is_there());
    assert_eq!(
        read(root.join("Archive/demo.mp4")).expect("moved video"),
        BINARY_ASSET
    );
    embedded_asset_resolves_to(root, "Archive/Clip.md", "Archive/demo.mp4");
}

#[test]
fn move_note_leaves_a_video_outside_its_folder_in_place_and_repoints_it() {
    let tmp = Vault::new();
    let root = &tmp;
    let body = "# B\n![](../_system/demo.mp4)\n";
    write(root.join("_system/demo.mp4"), BINARY_ASSET).expect("video");
    write(root.join("folder-x/B.md"), body).expect("note");
    let index = build(root);
    let entry = index.find_by_slug("b").expect("b");

    let outcome = move_or_rename_note(root, &index, entry, "folder-z/B.md", &content_hash(body))
        .expect("move the note");

    assert_eq!(outcome.moved_assets, 0, "a shared video stays put");
    assert_eq!(
        read(root.join("_system/demo.mp4")).expect("video stays put"),
        BINARY_ASSET
    );
    embedded_asset_resolves_to(root, "folder-z/B.md", "_system/demo.mp4");
}

#[test]
fn archive_and_delete_carry_a_video_the_way_they_carry_an_image() {
    let tmp = Vault::new();
    let root = &tmp;
    let body = vault_with_a_video_beside_its_note(root);
    let index = build(root);
    let entry = index.find_by_slug("clip").expect("clip");

    archive_note(root, &index, entry, "90-archive/", &content_hash(&body)).expect("archive");
    assert!(!root.join("Media/demo.mp4").is_there());
    assert_eq!(
        read(root.join("90-archive/demo.mp4")).expect("archived video"),
        BINARY_ASSET
    );

    let index = build(root);
    let entry = index.find_by_slug("clip").expect("clip");
    let outcome = delete_note(root, &index, entry, &content_hash(&body)).expect("delete");

    assert_eq!(outcome.moved_assets, 1);
    assert_eq!(
        read(root.join(".hatchdoor-trash/demo.mp4")).expect("trashed video"),
        BINARY_ASSET
    );
}

#[test]
fn list_note_attachments_reports_every_non_markdown_reference() {
    let tmp = Vault::new();
    let root = &tmp;
    write(
        root.join("Analysis.md"),
        "![](demo.mp4)\n![](still.webp)\n[rows](rows.csv)\n![[voice.m4a]]\n[[Other Note]]\n[Plain](OtherNote)\n[Suffixed](OtherNote.md)\n",
    )
    .expect("note");
    write(root.join("demo.mp4"), BINARY_ASSET).expect("video");
    write(root.join("still.webp"), BINARY_ASSET).expect("image");
    write(root.join("rows.csv"), "a,b\n").expect("data");
    write(root.join("voice.m4a"), BINARY_ASSET).expect("audio");
    write(root.join("OtherNote.md"), "other").expect("other note");
    let index = build(root);
    let entry = index.find_by_slug("analysis").expect("analysis");

    let listed = list_note_attachments(root, &index.layers, entry).expect("list attachments");

    let mut paths: Vec<&str> = listed
        .iter()
        .map(|attachment| attachment.relative_path.as_str())
        .collect();
    paths.sort_unstable();
    assert_eq!(
        paths,
        ["demo.mp4", "rows.csv", "still.webp", "voice.m4a"],
        "a link to another note is never an attachment, with or without the .md suffix"
    );
}

#[test]
fn an_attachment_larger_than_one_read_chunk_reports_its_whole_size_and_hash() {
    let tmp = Vault::new();
    let root = &tmp;
    let bytes: Vec<u8> = (0..200_000u32).map(|index| (index % 251) as u8).collect();
    write(root.join("big.bin"), &bytes).expect("asset");
    write(root.join("Note.md"), "![](big.bin)").expect("note");
    let index = build(root);
    let entry = index.find_by_slug("note").expect("note");

    let listed = list_note_attachments(root, &index.layers, entry).expect("list attachments");

    let mut expected = 0xcbf29ce484222325u64;
    for byte in &bytes {
        expected ^= u64::from(*byte);
        expected = expected.wrapping_mul(0x100000001b3);
    }
    assert_eq!(listed.len(), 1);
    assert_eq!(listed[0].size_bytes, bytes.len() as u64);
    assert_eq!(listed[0].content_hash, format!("fnv1a64:{expected:016x}"));
}

#[test]
fn a_wikilink_to_a_note_whose_title_contains_a_dot_is_not_an_asset() {
    let tmp = Vault::new();
    let root = &tmp;
    let body = "# B\nSee [[Q3 2026 v1.2]]\n";
    write(root.join("folder-x/B.md"), body).expect("note");
    write(root.join("folder-x/Q3 2026 v1.2.md"), "plan").expect("linked note");
    let index = build(root);

    let entry = index.find_by_slug("b").expect("b");
    assert!(
        list_note_attachments(root, &index.layers, entry)
            .expect("list attachments")
            .is_empty(),
        "a dotted note title is not an attachment"
    );

    let entry = index.find_by_slug("b").expect("b");
    let outcome = move_or_rename_note(root, &index, entry, "folder-z/B.md", &content_hash(body))
        .expect("move the note");

    assert_eq!(outcome.moved_assets, 0);
    assert!(
        root.join("folder-x/Q3 2026 v1.2.md").is_there(),
        "the linked note must not be dragged along as an asset"
    );
}

#[test]
fn an_asset_reference_inside_code_is_not_collected_or_rewritten_by_a_move() {
    let tmp = Vault::new();
    let root = &tmp;
    write(root.join("folder-x/media/live.png"), BINARY_ASSET).expect("live asset");
    write(root.join("folder-x/media/fenced.png"), BINARY_ASSET).expect("fenced asset");
    write(root.join("folder-x/media/inline.png"), BINARY_ASSET).expect("inline asset");
    let body = "# B\n![](./media/live.png)\n\n```markdown\n![](./media/fenced.png)\n```\n\nWrite it as `![](./media/inline.png)` in your note.\n";
    write(root.join("folder-x/B.md"), body).expect("note");
    let index = build(root);

    let entry = index.find_by_slug("b").expect("b");
    let outcome = move_or_rename_note(root, &index, entry, "folder-z/B.md", &content_hash(body))
        .expect("move the note");

    assert_eq!(outcome.moved_assets, 1, "only the live embed travels");
    assert!(
        root.join("folder-z/media/live.png").is_there(),
        "the live embed's file moved with the note"
    );
    assert!(
        root.join("folder-x/media/fenced.png").is_there(),
        "an embed inside a fenced block is not a reference"
    );
    assert!(
        root.join("folder-x/media/inline.png").is_there(),
        "an embed inside an inline code span is not a reference"
    );

    let moved = read_to_string(root.join("folder-z/B.md")).expect("read moved note");
    assert!(
        moved.contains("![](./media/fenced.png)"),
        "the fenced embed's text is left exactly as written: {moved}"
    );
    assert!(
        moved.contains("`![](./media/inline.png)`"),
        "the inline-code embed's text is left exactly as written: {moved}"
    );
}

#[test]
fn attachment_operations_refuse_a_symlink_that_leads_into_the_git_directory() {
    let tmp = Vault::new();
    let root = &tmp;
    write(root.join(".git/config"), "[core]\n").expect("git config");
    root.link(".git", "gitlink");
    root.link(".git/config", "gitcfg");
    write(root.join("Note.md"), "body").expect("note");
    let index = build(root);

    for source in ["gitlink/config", "gitcfg"] {
        let error = move_attachment(root, &index, source, "Media/stolen")
            .expect_err("a link into the repository must be refused");
        assert!(
            matches!(&error, WriteError::InvalidInput(message) if message.contains("repository")),
            "'{source}' must be refused as repository internals, got {error:?}"
        );
        let error = delete_attachment(root, &index, source)
            .expect_err("a link into the repository must be refused");
        assert!(
            matches!(&error, WriteError::InvalidInput(message) if message.contains("repository")),
            "deleting '{source}' must be refused, got {error:?}"
        );
    }

    write(root.join("photo.png"), BINARY_ASSET).expect("asset");
    let error = move_attachment(root, &index, "photo.png", "gitlink/photo.png")
        .expect_err("a destination inside the repository must be refused");
    assert!(
        matches!(&error, WriteError::InvalidInput(message) if message.contains("repository")),
        "expected a repository refusal, got {error:?}"
    );

    assert_eq!(
        read_to_string(root.join(".git/config")).expect("git config"),
        "[core]\n",
        "the repository must be untouched"
    );
}

#[test]
fn rename_rewrites_a_backlink_whose_alias_pipe_is_escaped() {
    let tmp = Vault::new();
    let root = &tmp;
    write(root.join("Target.md"), "body").expect("target");
    write(
        root.join("Backlink.md"),
        "| port | host |\n| --- | --- |\n| 80 | [[Target\\|alias]] |\n",
    )
    .expect("backlink");
    let index = build(root);

    assert_eq!(links_of(&index.outgoing_by_slug, "backlink"), vec!["target"]);

    let entry = index.find_by_slug("target").expect("target").clone();
    let outcome = move_or_rename_note(root, &index, &entry, "Renamed.md", &content_hash("body"))
        .expect("rename");

    assert_eq!(outcome.rewritten_notes, 1);
    assert!(
        read_to_string(root.join("Backlink.md"))
            .expect("read")
            .contains("[[Renamed\\|alias]]")
    );
}

#[test]
fn moving_a_note_rewrites_escaped_backlinks_by_path_and_by_anchor() {
    let tmp = Vault::new();
    let root = &tmp;
    write(root.join("Notes/Target.md"), "body").expect("target");
    write(
        root.join("Backlink.md"),
        "| a | [[Notes/Target\\|by path]] |\n| b | [[Target#Heading\\|by anchor]] |\n",
    )
    .expect("backlink");
    let index = build(root);
    let entry = index.find_by_slug("target").expect("target").clone();

    let outcome = move_or_rename_note(
        root,
        &index,
        &entry,
        "Archive/Renamed.md",
        &content_hash("body"),
    )
    .expect("move");

    assert_eq!(outcome.rewritten_notes, 1);
    let backlink = read_to_string(root.join("Backlink.md")).expect("read");
    assert!(
        backlink.contains("[[Archive/Renamed\\|by path]]"),
        "path-qualified escaped link not rewritten: {backlink}"
    );
    assert!(
        backlink.contains("[[Renamed#Heading\\|by anchor]]"),
        "anchored escaped link not rewritten: {backlink}"
    );
}

#[test]
fn archiving_a_note_rewrites_an_escaped_path_qualified_backlink() {
    let tmp = Vault::new();
    let root = &tmp;
    write(root.join("40-reference/Idea.md"), "body").expect("target");
    write(
        root.join("Backlink.md"),
        "| x | [[40-reference/Idea\\|the idea]] |",
    )
    .expect("backlink");
    let index = build(root);
    let entry = index.find_by_slug("idea").expect("idea");

    let outcome =
        archive_note(root, &index, entry, "90-archive/", &content_hash("body")).expect("archive");

    assert_eq!(outcome.rewritten_notes, 1);
    assert_eq!(
        read_to_string(root.join("Backlink.md")).expect("backlink"),
        "| x | [[90-archive/Idea\\|the idea]] |"
    );
}

#[test]
fn deleting_a_note_removes_an_escaped_backlink_like_any_other() {
    let tmp = Vault::new();
    let root = &tmp;
    write(root.join("Target.md"), "body").expect("target");
    write(root.join("Backlink.md"), "| x | [[Target\\|alias]] |").expect("backlink");
    let index = build(root);
    let entry = index.find_by_slug("target").expect("target");

    let outcome = delete_note(root, &index, entry, &content_hash("body")).expect("delete");

    assert_eq!(outcome.rewritten_notes, 1);
    assert_eq!(
        read_to_string(root.join("Backlink.md")).expect("backlink"),
        "| x |  |"
    );
}

#[test]
fn a_rename_leaves_an_escaped_link_inside_code_byte_for_byte_unchanged() {
    let tmp = Vault::new();
    let root = &tmp;
    write(root.join("Target.md"), "body").expect("target");
    let original =
        "live [[Target\\|alias]]\ninline `[[Target\\|alias]]`\n```\n[[Target\\|alias]]\n```\n";
    write(root.join("Backlink.md"), original).expect("backlink");
    let index = build(root);
    let entry = index.find_by_slug("target").expect("target").clone();

    move_or_rename_note(root, &index, &entry, "Renamed.md", &content_hash("body")).expect("rename");

    let backlink = read_to_string(root.join("Backlink.md")).expect("read");
    assert_eq!(
        backlink,
        "live [[Renamed\\|alias]]\ninline `[[Target\\|alias]]`\n```\n[[Target\\|alias]]\n```\n"
    );
}

#[test]
fn an_escaped_embed_with_a_size_suffix_travels_with_its_note() {
    let tmp = Vault::new();
    let root = &tmp;
    let body = "| pic |\n| --- |\n| ![[image.png\\|200]] |\n";
    write(root.join("Notes/Target.md"), body).expect("target");
    write(root.join("Notes/image.png"), "png").expect("asset");
    let index = build(root);
    let entry = index.find_by_slug("target").expect("target").clone();

    let outcome = move_or_rename_note(
        root,
        &index,
        &entry,
        "Archive/Renamed.md",
        &content_hash(body),
    )
    .expect("move");

    assert_eq!(outcome.moved_assets, 1);
    assert!(root.join("Archive/image.png").is_there());
    assert!(!root.join("Notes/image.png").is_there());
    assert_eq!(
        read_to_string(root.join("Archive/Renamed.md")).expect("read"),
        "| pic |\n| --- |\n| ![[image.png\\|200]] |\n",
        "the embed keeps its escape and its size suffix"
    );
}

#[test]
fn rename_rewrites_the_notes_link_to_itself() {
    let tmp = Vault::new();
    let root = &tmp;
    let body = "See [[Power returns]] and [[Other]].\n";
    write(root.join("Power returns.md"), body).expect("target");
    write(root.join("Other.md"), "Link [[Power returns]]\n").expect("other");
    let index = build(root);
    let entry = index.find_by_slug("power-returns").expect("entry");

    let outcome = move_or_rename_note(
        root,
        &index,
        entry,
        "Power restored.md",
        &content_hash(body),
    )
    .expect("rename");

    assert_eq!(
        read_to_string(root.join("Power restored.md")).expect("moved"),
        "See [[Power restored]] and [[Other]].\n"
    );
    assert_eq!(
        read_to_string(root.join("Other.md")).expect("other"),
        "Link [[Power restored]]\n"
    );
    assert_eq!(
        outcome.rewritten_notes, 1,
        "the moved note is not one of the backlinks the operation reports"
    );
}

#[test]
fn a_rename_whose_only_stale_link_is_the_notes_own_reports_no_rewritten_notes() {
    let tmp = Vault::new();
    let root = &tmp;
    let body = "Only [[Solo]].\n";
    write(root.join("Solo.md"), body).expect("target");
    let index = build(root);
    let entry = index.find_by_slug("solo").expect("entry");

    let outcome =
        move_or_rename_note(root, &index, entry, "Duet.md", &content_hash(body)).expect("rename");

    assert_eq!(
        read_to_string(root.join("Duet.md")).expect("moved"),
        "Only [[Duet]].\n"
    );
    assert_eq!(outcome.rewritten_notes, 0);
    assert_eq!(
        outcome.content_hash.as_deref(),
        Some(content_hash("Only [[Duet]].\n").as_str()),
        "the reported hash must be of the content the caller will read back"
    );
}

#[test]
fn a_self_link_falls_back_to_the_full_path_when_the_new_title_collides() {
    let tmp = Vault::new();
    let root = &tmp;
    let body = "See [[Target]].\n";
    write(root.join("Notes/Target.md"), body).expect("target");
    write(root.join("Other/Renamed.md"), "unrelated").expect("collider");
    let index = build(root);
    let entry = index.find_by_slug("target").expect("entry");

    move_or_rename_note(
        root,
        &index,
        entry,
        "Archive/Renamed.md",
        &content_hash(body),
    )
    .expect("move");

    assert_eq!(
        read_to_string(root.join("Archive/Renamed.md")).expect("moved"),
        "See [[Archive/Renamed]].\n"
    );
}

#[test]
fn move_rewrites_a_path_qualified_link_to_itself_and_leaves_the_bare_one() {
    let tmp = Vault::new();
    let root = &tmp;
    let body = "Path self [[Notes/Idea]] and bare self [[Idea]].\n";
    write(root.join("Notes/Idea.md"), body).expect("target");
    let index = build(root);
    let entry = index.find_by_slug("idea").expect("entry");

    move_or_rename_note(root, &index, entry, "Archive/Idea.md", &content_hash(body)).expect("move");

    assert_eq!(
        read_to_string(root.join("Archive/Idea.md")).expect("moved"),
        "Path self [[Archive/Idea]] and bare self [[Idea]].\n",
        "the title did not change, so only the path-qualified form is stale"
    );
}

#[test]
fn archive_rewrites_a_path_qualified_link_to_itself_and_leaves_the_bare_one() {
    let tmp = Vault::new();
    let root = &tmp;
    let body = "Path self [[Notes/Idea]] and bare self [[Idea]].\n";
    write(root.join("Notes/Idea.md"), body).expect("target");
    let index = build(root);
    let entry = index.find_by_slug("idea").expect("entry");

    archive_note(root, &index, entry, "90-archive/", &content_hash(body)).expect("archive");

    assert_eq!(
        read_to_string(root.join("90-archive/Idea.md")).expect("archived"),
        "Path self [[90-archive/Idea]] and bare self [[Idea]].\n"
    );
}

#[test]
fn a_renamed_notes_self_link_keeps_its_anchor_and_its_alias() {
    let tmp = Vault::new();
    let root = &tmp;
    let body = "[[Target#Heading]], [[Target|Alias]] and ![[Target^block-id]]\n";
    write(root.join("Target.md"), body).expect("target");
    let index = build(root);
    let entry = index.find_by_slug("target").expect("entry");

    move_or_rename_note(root, &index, entry, "Renamed.md", &content_hash(body)).expect("rename");

    assert_eq!(
        read_to_string(root.join("Renamed.md")).expect("moved"),
        "[[Renamed#Heading]], [[Renamed|Alias]] and ![[Renamed^block-id]]\n"
    );
}

#[test]
fn a_rename_leaves_a_self_link_inside_code_untouched() {
    let tmp = Vault::new();
    let root = &tmp;
    let body = "live [[Target]]\ninline `[[Target]]`\n```\n[[Target]]\n```\n";
    write(root.join("Target.md"), body).expect("target");
    let index = build(root);
    let entry = index.find_by_slug("target").expect("entry");

    move_or_rename_note(root, &index, entry, "Renamed.md", &content_hash(body)).expect("rename");

    assert_eq!(
        read_to_string(root.join("Renamed.md")).expect("moved"),
        "live [[Renamed]]\ninline `[[Target]]`\n```\n[[Target]]\n```\n"
    );
}

#[test]
fn a_move_repoints_both_a_self_link_and_a_stationary_asset_reference() {
    let tmp = Vault::new();
    let root = &tmp;
    let body = "# B\n![](../_system/image.png)\nSee [[folder-x/B]].\n";
    write(root.join("_system/image.png"), BINARY_ASSET).expect("asset");
    write(root.join("folder-x/B.md"), body).expect("note");
    let index = build(root);
    let entry = index.find_by_slug("b").expect("entry");

    let outcome =
        move_or_rename_note(root, &index, entry, "B.md", &content_hash(body)).expect("move");

    assert_eq!(outcome.moved_assets, 0, "the asset stays where it is");
    assert_eq!(
        read_to_string(root.join("B.md")).expect("moved"),
        "# B\n![](_system/image.png)\nSee [[B]].\n"
    );
    embedded_asset_resolves_to(root, "B.md", "_system/image.png");
}

#[test]
fn a_failed_move_restores_the_self_link_the_rewrite_had_changed() {
    let tmp = Vault::new();
    let root = &tmp;
    let body = "See [[Target]].\n";
    write(root.join("Notes/Target.md"), body).expect("target");
    let index = build(root);
    let entry = index.find_by_slug("target").expect("entry");

    let error = move_or_rename_note_with_failure(
        root,
        &index,
        entry,
        "Archive/Renamed.md",
        &content_hash(body),
        |completed| {
            if completed == MutationPhase::Rewrite {
                Err(WriteError::Io("injected failure".to_string()))
            } else {
                Ok(())
            }
        },
    )
    .expect_err("the injected failure must surface");
    assert!(matches!(error, WriteError::Io(_)), "got {error:?}");

    assert_eq!(
        read_to_string(root.join("Notes/Target.md")).expect("restored"),
        body,
        "the rolled-back note keeps its original self-link"
    );
    assert!(!root.join("Archive/Renamed.md").is_there());
}

#[test]
fn delete_leaves_the_trashed_bodys_link_to_itself_as_written() {
    let tmp = Vault::new();
    let root = &tmp;
    let body = "See [[Target]] and [[Other]].\n";
    write(root.join("Target.md"), body).expect("target");
    write(root.join("Other.md"), "Link [[Target]]\n").expect("other");
    let index = build(root);
    let entry = index.find_by_slug("target").expect("entry");

    let outcome = delete_note(root, &index, entry, &content_hash(body)).expect("delete");

    let trashed = format!("{}.md", outcome.trashed_path.expect("trash path"));
    assert_eq!(
        read_to_string(root.join(trashed)).expect("trashed"),
        body,
        "the trashed body is kept byte for byte, self-link included"
    );
    assert_eq!(
        read_to_string(root.join("Other.md")).expect("other"),
        "Link \n",
        "every other note still loses its link to the deleted note"
    );
    assert_eq!(outcome.rewritten_notes, 1);
}


#[test]
fn planned_asset_moves_never_carry_a_parent_component() {
    let tmp = Vault::new();
    let root = &tmp;
    write(root.join("_system/shared.png"), "img").expect("shared asset");
    write(root.join("folder-x/media/own.png"), "img").expect("own asset");
    write(
        root.join("folder-x/Note.md"),
        "![](../_system/shared.png)\n![](./media/own.png)\n",
    )
    .expect("note");

    let index = build(root);
    let entry = index.find_by_slug("note").expect("note entry").clone();
    let (moves, rewrites) = root.plan(|made| {
        asset_move_plan(
            &index,
            &root.bodies(&index),
            &root.facts(&[]),
            &entry,
            "deeper/nest/Note.md",
            false,
            &Vec::new(),
            made,
        )
    })
    .expect("plan must succeed");

    assert_eq!(
        moves.len(),
        1,
        "only the asset inside the note's own folder travels"
    );
    for asset_move in &moves {
        for path in [&asset_move.source, &asset_move.destination] {
            assert!(
                !path.split('/').any(|part| part == ".."),
                "planned path must be free of '..': {path}"
            );
        }
    }
    assert!(
        rewrites
            .iter()
            .any(|rewrite| rewrite.path == "deeper/nest/Note.md"),
        "the moving note's own reference to the asset left behind must be rewritten"
    );
}

#[test]
fn trashing_an_asset_whose_name_already_exists_in_trash_picks_a_unique_name() {
    let tmp = Vault::new();
    let root = &tmp;
    write(root.join("Note.md"), "# Note\n![img](Attachments/foo.png)\n").expect("note");
    write(root.join("Attachments/foo.png"), "img").expect("asset");
    write(root.join(".hatchdoor-trash/Attachments/foo.png"), "older").expect("older asset");

    let index = build(root);
    let entry = index.find_by_slug("note").expect("note entry").clone();
    let (moves, _rewrites) = root.plan(|made| {
        asset_move_plan(
            &index,
            &root.bodies(&index),
            &root.facts(&[".hatchdoor-trash/Attachments/foo.png"]),
            &entry,
            ".hatchdoor-trash/Note.md",
            true,
            &Vec::new(),
            made,
        )
    })
    .expect("plan must succeed");

    assert_eq!(moves.len(), 1);
    assert_eq!(
        moves[0].destination, ".hatchdoor-trash/Attachments/foo-2.png",
        "colliding trashed asset should get a unique suffix"
    );
}

#[test]
fn import_attachment_rejects_a_malformed_marker_before_writing() {
    let tmp = Vault::new();
    let root = &tmp;
    write(root.join("sources/.hatchdoor-layer"), "name: all\n").expect("marker");

    let target = "sources/image.png";
    let error = import_attachment_bytes(root, target, b"image", 1024, false)
        .expect_err("malformed marker must reject the import");

    assert!(matches!(error, WriteError::Io(_)));
    assert!(
        !root.join(target).is_there(),
        "a failed import must not leave an attachment on disk"
    );
}

#[test]
fn placed_content_stands_on_its_own_lines() {
    let chars = |text: &str| text.chars().collect::<Vec<char>>();
    let current = chars("# One\nfirst\n# Two\nsecond");
    let place = |mode: SectionMode| -> String {
        place_section(&current, &chars("# One"), mode, &chars("new"), "Note")
            .expect("placed")
            .into_iter()
            .collect()
    };
    assert_eq!(place(SectionMode::Replace), "new\n# Two\nsecond");
    assert_eq!(
        place(SectionMode::Before),
        "new\n# One\nfirst\n# Two\nsecond"
    );
    assert_eq!(
        place(SectionMode::After),
        "# One\nfirst\nnew\n# Two\nsecond"
    );
    let last: String = place_section(
        &current,
        &chars("# Two"),
        SectionMode::After,
        &chars("new"),
        "Note",
    )
    .expect("placed")
    .into_iter()
    .collect();
    assert_eq!(last, "# One\nfirst\n# Two\nsecond\nnew");
}

#[test]
fn affected_paths_lead_to_the_files_on_disk() {
    let tmp = Vault::new();
    let root = &tmp;
    let body = vault_with_an_asset_beside_its_note(root);
    let created = create_note(root, "new/Note", "text\n", false, &build(root)).expect("created");
    assert_eq!(created.affected_paths, vec!["/vault/new/Note.md"]);
    let index = build(root);
    let note = index.find_by_slug("note").expect("note").clone();
    let updated = update_note(root, &note, "more\n", &content_hash("text\n")).expect("updated");
    assert_eq!(updated.affected_paths, vec!["/vault/new/Note.md"]);

    let b = index.find_by_slug("b").expect("b").clone();
    let moved = move_or_rename_note(root, &index, &b, "there/B", &content_hash(&body));
    let mut paths = moved.expect("moved").affected_paths;
    paths.sort();
    assert_eq!(
        paths,
        vec![
            "/vault/folder-x/B.md",
            "/vault/folder-x/media/own.png",
            "/vault/there/B.md",
            "/vault/there/media/own.png",
        ]
    );

    let imported = import_attachment_bytes(root, "in/pic.png", b"image", 1024, false);
    assert_eq!(
        imported.expect("imported").affected_paths,
        vec!["/vault/in/pic.png"]
    );
    let index = build(root);
    let carried = move_attachment(root, &index, "in/pic.png", "out/pic.png").expect("carried");
    assert!(carried
        .affected_paths
        .contains(&"/vault/out/pic.png".to_string()));
    assert!(carried
        .affected_paths
        .iter()
        .all(|path| path.starts_with("/vault/")));
}

#[test]
fn an_occupied_asset_destination_is_named_on_disk() {
    let tmp = Vault::new();
    let root = &tmp;
    let body = vault_with_an_asset_beside_its_note(root);
    write(root.join("there/media/own.png"), b"other").expect("occupied");
    let index = build(root);
    let b = index.find_by_slug("b").expect("b").clone();
    let error = move_or_rename_note(root, &index, &b, "there/B", &content_hash(&body))
        .expect_err("occupied");
    assert_eq!(
        error,
        WriteError::Conflict(
            "Destination asset already exists: /vault/there/media/own.png".to_string()
        )
    );
    assert!(root.join("folder-x/media/own.png").is_there());
}

#[test]
fn a_new_note_has_its_folder_made_before_its_text_is_looked_at() {
    let tmp = Vault::new();
    let root = &tmp;
    let error = create_note(root, "deep/down/Note", "a\0b", false, &build(root))
        .expect_err("text with a NUL");
    assert_eq!(
        error,
        WriteError::InvalidInput("note content cannot contain NUL bytes".to_string())
    );
    assert!(root.join("deep/down").is_there());
    assert!(!root.join("deep/down/Note.md").is_there());

    write(root.join("blocked"), b"a file").expect("file");
    let error = create_note(root, "blocked/Note", "a\0b", false, &build(root))
        .expect_err("no folder can be made");
    assert_eq!(error, WriteError::Io("'blocked' is a file".to_string()));
}

#[test]
fn an_existing_note_is_refused_before_a_folder_is_made() {
    let tmp = Vault::new();
    let root = &tmp;
    write(root.join("a/Note.md"), b"text").expect("note");
    let catalog = build(root);
    let facts = root.facts(&[]);
    let asked = root.asks(|made| {
        note_ops::create_note("a/Note", "new", false, &catalog, &facts, made)
    });
    assert!(asked.is_empty());
}

#[test]
fn an_import_has_its_folder_made_before_its_size_is_looked_at() {
    let tmp = Vault::new();
    let root = &tmp;
    let error = import_attachment_bytes(root, "files/pic.png", b"image", 4, false)
        .expect_err("too large");
    assert_eq!(
        error,
        WriteError::InvalidInput("attachment exceeds max size: 5 > 4".to_string())
    );
    assert!(root.join("files").is_there());

    let error = import_attachment_bytes(root, "other/run.exe", b"image", 4, false)
        .expect_err("not uploadable");
    assert!(matches!(error, WriteError::InvalidInput(_)));
    assert!(!root.join("other").is_there());
}

#[test]
fn a_refused_move_leaves_no_destination_folder() {
    let tmp = Vault::new();
    let root = &tmp;
    let body = "# B\n![](../../outside.png)\n";
    write(root.join("folder-x/B.md"), body).expect("note");
    let index = build(root);
    let b = index.find_by_slug("b").expect("b").clone();
    let error = move_or_rename_note(root, &index, &b, "fresh/B", &content_hash(body))
        .expect_err("the reference leads outside");
    assert!(matches!(error, WriteError::InvalidInput(_)), "{error:?}");
    assert!(!root.join("fresh").is_there());
}

#[test]
fn folders_are_asked_for_in_the_order_in_which_they_are_needed() {
    let pair = |file: &str, label: &str| (file.to_string(), label.to_string());
    let tmp = Vault::new();
    let root = &tmp;
    let body = vault_with_an_asset_beside_its_note(root);
    let index = build(root);
    let b = index.find_by_slug("b").expect("b").clone();
    let hash = content_hash(&body);
    let bodies = root.bodies(&index);
    let facts = root.facts(&[]);
    let current = root.current(&b);

    let moved = root.asks(|made| {
        note_ops::move_or_rename_note(
            &index, &bodies, &facts, &b, &current, "there/B", &hash, made,
        )
    });
    assert_eq!(
        moved,
        vec![
            pair("there/media/own.png", "asset"),
            pair("there/B.md", "destination")
        ]
    );

    let removed = root.asks(|made| {
        note_ops::delete_note(&index, &bodies, &facts, &b, &current, &hash, made)
    });
    assert_eq!(
        removed,
        vec![
            pair(".hatchdoor-trash/media/own.png", "asset"),
            pair(".hatchdoor-trash/folder-x/B.md", "trash")
        ]
    );

    let source = "folder-x/media/own.png";
    let carried = root.asks(|made| {
        let home = root.home("out/own.png");
        attachments::move_attachment(&index, &bodies, &facts, source, "out/own.png", &home, made)
    });
    assert_eq!(carried, vec![pair("out/own.png", "attachment")]);

    let dropped = root.asks(|made| {
        let home = root.home(".hatchdoor-trash/x");
        attachments::delete_attachment(&index, &bodies, &facts, source, &home, made)
    });
    assert_eq!(dropped.len(), 2);
    assert_eq!(dropped[0].1, "trash");
    assert_eq!(dropped[1].1, "attachment");
    assert_eq!(dropped[0].0, dropped[1].0);
}
