//! The records the vault index hands out.

use vstd::prelude::*;

use crate::exclude::ExcludeMatcher;
use crate::layers::LayerMap;
use crate::text::{clone_opt, opt_text};

verus! {

/// One indexed note.
#[derive(Debug, Clone, PartialEq, Eq)]
pub struct NoteEntry {
    pub title: String,
    pub slug: String,
    /// The note's file on disk: the vault's folder with the file behind it.
    pub path: String,
    /// The note's file, as a `/`-joined vault-relative path.
    pub file: String,
    /// The vault-relative path without the `.md` extension.
    pub relative_path: String,
    /// `None` is the default surface.
    pub layer: Option<String>,
}

/// What a [`NoteEntry`] says.
pub struct NoteView {
    pub title: Seq<char>,
    pub slug: Seq<char>,
    pub path: Seq<char>,
    pub file: Seq<char>,
    pub relative_path: Seq<char>,
    pub layer: Option<Seq<char>>,
}

impl View for NoteEntry {
    type V = NoteView;

    open spec fn view(&self) -> NoteView {
        NoteView {
            title: self.title@,
            slug: self.slug@,
            path: self.path@,
            file: self.file@,
            relative_path: self.relative_path@,
            layer: opt_text(self.layer),
        }
    }
}

/// The views of a sequence of notes.
pub open spec fn notes_view(notes: Seq<NoteEntry>) -> Seq<NoteView> {
    Seq::new(notes.len(), |i: int| notes[i]@)
}

/// The slugs of a sequence of notes.
pub open spec fn slugs_of(notes: Seq<NoteEntry>) -> Seq<Seq<char>> {
    Seq::new(notes.len(), |i: int| notes[i].slug@)
}

pub proof fn lemma_notes_push(notes: Seq<NoteEntry>, note: NoteEntry)
    ensures
        notes_view(notes.push(note)) == notes_view(notes).push(note@),
        slugs_of(notes.push(note)) == slugs_of(notes).push(note.slug@),
{
    assert(notes_view(notes.push(note)) =~= notes_view(notes).push(note@));
    assert(slugs_of(notes.push(note)) =~= slugs_of(notes).push(note.slug@));
}

pub fn clone_note(note: &NoteEntry) -> (r: NoteEntry)
    ensures
        r@ == note@,
{
    NoteEntry {
        title: note.title.clone(),
        slug: note.slug.clone(),
        path: note.path.clone(),
        file: note.file.clone(),
        relative_path: note.relative_path.clone(),
        layer: clone_opt(&note.layer),
    }
}

/// What a note's frontmatter says of it.
#[derive(Debug, Clone, PartialEq, Eq)]
pub struct NoteMetadata {
    pub tags: Vec<String>,
    pub aliases: Vec<String>,
    /// The properties, as a JSON text; `None` if there are none.
    pub properties: Option<String>,
}

impl Default for NoteMetadata {
    fn default() -> (r: Self)
        ensures
            r.tags@.len() == 0,
            r.aliases@.len() == 0,
            r.properties is None,
    {
        NoteMetadata { tags: Vec::new(), aliases: Vec::new(), properties: None }
    }
}

/// One note with its text.
#[derive(Debug, Clone, PartialEq, Eq)]
pub struct Note {
    pub title: String,
    pub slug: String,
    pub relative_path: String,
    pub content: String,
    pub content_hash: String,
    /// `None` is the default surface.
    pub layer: Option<String>,
    pub metadata: NoteMetadata,
}

/// One note without its text.
#[derive(Debug, Clone, PartialEq, Eq)]
pub struct NoteSummary {
    pub title: String,
    pub slug: String,
    pub relative_path: String,
    /// The note's layer (`None` = default surface).
    pub layer: Option<String>,
    pub metadata: NoteMetadata,
}

/// The vault's notes and assets, and the links between the notes.
///
/// The tables are association lists in which the first entry of a key counts.
#[derive(Debug, Clone)]
pub struct VaultIndex {
    /// The vault's folder, as the scan was given it.
    pub root: String,
    /// The notes, in the order in which they claimed their slugs.
    pub by_slug: Vec<NoteEntry>,
    /// Normalized title to slug.
    pub by_title: Vec<(String, String)>,
    /// Normalized vault-relative path to slug.
    pub by_path_title: Vec<(String, String)>,
    /// The slugs, by vault-relative path.
    pub ordered_slugs: Vec<String>,
    /// Every servable file that is not a note, as a `/`-joined vault-relative
    /// path, sorted.
    pub asset_paths: Vec<String>,
    pub outgoing_by_slug: Vec<(String, Vec<String>)>,
    pub backlinks_by_slug: Vec<(String, Vec<String>)>,
    pub layers: LayerMap,
}

#[derive(Debug, PartialEq, Eq)]
pub struct ExplorerFolder {
    pub name: String,
    pub folders: Vec<ExplorerFolder>,
    pub notes: Vec<ExplorerNote>,
}

#[derive(Debug, Clone, PartialEq, Eq)]
pub struct ExplorerNote {
    pub title: String,
    pub slug: String,
}

#[derive(Debug, Clone, PartialEq, Eq)]
pub struct ModifiedNote {
    pub title: String,
    pub slug: String,
    pub relative_path: String,
    pub mtime_ns: i64,
    /// The note's layer (`None` = default surface).
    pub layer: Option<String>,
}

#[derive(Debug, Clone, PartialEq, Eq)]
pub struct SearchHit {
    pub title: String,
    pub slug: String,
    pub relative_path: String,
    pub match_kind: String,
    pub snippet: Option<String>,
}

/// What a [`SearchHit`] says.
pub struct HitView {
    pub title: Seq<char>,
    pub slug: Seq<char>,
    pub relative_path: Seq<char>,
    pub match_kind: Seq<char>,
    pub snippet: Option<Seq<char>>,
}

impl View for SearchHit {
    type V = HitView;

    open spec fn view(&self) -> HitView {
        HitView {
            title: self.title@,
            slug: self.slug@,
            relative_path: self.relative_path@,
            match_kind: self.match_kind@,
            snippet: opt_text(self.snippet),
        }
    }
}

#[derive(Debug, Clone, PartialEq, Eq)]
pub struct NoteLink {
    pub title: String,
    pub slug: String,
    pub relative_path: String,
    /// The linked note's layer (`None` = default surface).
    pub layer: Option<String>,
}

/// What a [`NoteLink`] says.
pub struct LinkView {
    pub title: Seq<char>,
    pub slug: Seq<char>,
    pub relative_path: Seq<char>,
    pub layer: Option<Seq<char>>,
}

impl View for NoteLink {
    type V = LinkView;

    open spec fn view(&self) -> LinkView {
        LinkView {
            title: self.title@,
            slug: self.slug@,
            relative_path: self.relative_path@,
            layer: opt_text(self.layer),
        }
    }
}

#[derive(Debug, Clone, PartialEq, Eq)]
pub struct NoteLinks {
    pub outgoing: Vec<NoteLink>,
    pub backlinks: Vec<NoteLink>,
}

/// Deployment-side scan configuration. Layer classification comes from the
/// vault itself and is not represented here.
pub struct VaultScanConfig {
    pub exclude: ExcludeMatcher,
}

} // verus!
