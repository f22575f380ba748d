//! What the write operations plan, report and refuse.

use vstd::prelude::*;

use crate::text::{opt_text, str_owned, strs};

verus! {

/// Why a write was refused or failed.
#[derive(Debug, Clone, PartialEq, Eq)]
pub enum WriteError {
    /// The vault is not in the state the caller expected.
    Conflict(String),
    /// The request itself cannot be carried out.
    InvalidInput(String),
    /// The file system failed.
    Io(String),
}

/// What a [`WriteError`] says.
pub enum ErrorView {
    Conflict(Seq<char>),
    InvalidInput(Seq<char>),
    Io(Seq<char>),
}

impl View for WriteError {
    type V = ErrorView;

    open spec fn view(&self) -> ErrorView {
        match self {
            WriteError::Conflict(m) => ErrorView::Conflict(m@),
            WriteError::InvalidInput(m) => ErrorView::InvalidInput(m@),
            WriteError::Io(m) => ErrorView::Io(m@),
        }
    }
}

pub fn clone_error(e: &WriteError) -> (r: WriteError)
    ensures
        r@ == e@,
{
    match e {
        WriteError::Conflict(m) => WriteError::Conflict(m.clone()),
        WriteError::InvalidInput(m) => WriteError::InvalidInput(m.clone()),
        WriteError::Io(m) => WriteError::Io(m.clone()),
    }
}

/// A folder that has to be there before a plan can go on.
#[derive(Debug, Clone, PartialEq, Eq)]
pub struct FolderRequest {
    /// The vault-relative file that the folder is for.
    pub file: String,
    /// What the file is to the plan.
    pub label: String,
}

/// Why there is no plan yet: a folder is asked for, or the operation is refused.
#[derive(Debug, Clone, PartialEq, Eq)]
pub enum PlanStop {
    MakeFolder(FolderRequest),
    Refused(WriteError),
}

/// What a [`PlanStop`] says.
pub enum StopView {
    MakeFolder { file: Seq<char>, label: Seq<char> },
    Refused(ErrorView),
}

impl View for PlanStop {
    type V = StopView;

    open spec fn view(&self) -> StopView {
        match self {
            PlanStop::MakeFolder(request) => StopView::MakeFolder {
                file: request.file@,
                label: request.label@,
            },
            PlanStop::Refused(e) => StopView::Refused(e@),
        }
    }
}

/// What came of making the folders that were asked for.
pub open spec fn made_views(made: Seq<Result<(), WriteError>>) -> Seq<Result<(), ErrorView>> {
    Seq::new(
        made.len(),
        |i: int|
            match made[i] {
                Ok(_) => Ok::<(), ErrorView>(()),
                Err(e) => Err::<(), ErrorView>(e@),
            },
    )
}

/// Why a plan does not go on behind its `n`th folder: it was not made yet, or
/// could not be made.
pub open spec fn folder_stop(
    made: Seq<Result<(), ErrorView>>,
    n: int,
    file: Seq<char>,
    label: Seq<char>,
) -> Option<StopView> {
    if n < 0 || n >= made.len() {
        Some(StopView::MakeFolder { file, label })
    } else {
        match made[n] {
            Ok(_) => None,
            Err(e) => Some(StopView::Refused(e)),
        }
    }
}

pub fn await_folder(made: &Vec<Result<(), WriteError>>, n: usize, file: &str, label: &str) -> (r:
    Option<PlanStop>)
    ensures
        match r {
            Some(stop) => folder_stop(made_views(made@), n as int, file@, label@) == Some(stop@),
            None => folder_stop(made_views(made@), n as int, file@, label@) is None,
        },
{
    if n >= made.len() {
        return Some(
            PlanStop::MakeFolder(FolderRequest { file: str_owned(file), label: str_owned(label) }),
        );
    }
    match &made[n] {
        Ok(_) => None,
        Err(e) => Some(PlanStop::Refused(clone_error(e))),
    }
}

/// One step of a multi-file change.
#[derive(Debug, Clone, Copy, PartialEq, Eq, Structural)]
pub enum MutationPhase {
    Note,
    Asset,
    Rewrite,
}

/// New content for one note's file.
#[derive(Debug, Clone, PartialEq, Eq)]
pub struct TextRewrite {
    /// The vault-relative path of the file.
    pub path: String,
    pub content: String,
}

impl View for TextRewrite {
    type V = (Seq<char>, Seq<char>);

    open spec fn view(&self) -> (Seq<char>, Seq<char>) {
        (self.path@, self.content@)
    }
}

pub open spec fn rewrite_views(v: Seq<TextRewrite>) -> Seq<(Seq<char>, Seq<char>)> {
    Seq::new(v.len(), |i: int| v[i]@)
}

pub proof fn lemma_rewrites_push(v: Seq<TextRewrite>, x: TextRewrite)
    ensures
        rewrite_views(v.push(x)) == rewrite_views(v).push(x@),
{
    assert(rewrite_views(v.push(x)) =~= rewrite_views(v).push(x@));
}

pub fn clone_rewrite(x: &TextRewrite) -> (r: TextRewrite)
    ensures
        r@ == x@,
{
    TextRewrite { path: x.path.clone(), content: x.content.clone() }
}

/// The move of one file.
#[derive(Debug, Clone, PartialEq, Eq)]
pub struct AssetMove {
    /// Both vault-relative.
    pub source: String,
    pub destination: String,
}

impl View for AssetMove {
    type V = (Seq<char>, Seq<char>);

    open spec fn view(&self) -> (Seq<char>, Seq<char>) {
        (self.source@, self.destination@)
    }
}

pub open spec fn move_views(v: Seq<AssetMove>) -> Seq<(Seq<char>, Seq<char>)> {
    Seq::new(v.len(), |i: int| v[i]@)
}

pub proof fn lemma_moves_push(v: Seq<AssetMove>, x: AssetMove)
    ensures
        move_views(v.push(x)) == move_views(v).push(x@),
{
    assert(move_views(v.push(x)) =~= move_views(v).push(x@));
}

/// What a note operation did.
#[derive(Debug, Clone, PartialEq, Eq)]
pub struct WriteOutcome {
    pub slug: Option<String>,
    pub relative_path: Option<String>,
    pub content_hash: Option<String>,
    pub quality_warnings: Vec<String>,
    /// How many other notes were rewritten.
    pub rewritten_notes: usize,
    pub moved_assets: usize,
    pub trashed_path: Option<String>,
    pub affected_paths: Vec<String>,
}

/// What a [`WriteOutcome`] says.
pub struct OutcomeView {
    pub slug: Option<Seq<char>>,
    pub relative_path: Option<Seq<char>>,
    pub content_hash: Option<Seq<char>>,
    pub quality_warnings: Seq<Seq<char>>,
    pub rewritten_notes: nat,
    pub moved_assets: nat,
    pub trashed_path: Option<Seq<char>>,
    pub affected_paths: Seq<Seq<char>>,
}

impl View for WriteOutcome {
    type V = OutcomeView;

    open spec fn view(&self) -> OutcomeView {
        OutcomeView {
            slug: opt_text(self.slug),
            relative_path: opt_text(self.relative_path),
            content_hash: opt_text(self.content_hash),
            quality_warnings: strs(self.quality_warnings@),
            rewritten_notes: self.rewritten_notes as nat,
            moved_assets: self.moved_assets as nat,
            trashed_path: opt_text(self.trashed_path),
            affected_paths: strs(self.affected_paths@),
        }
    }
}

/// One file of the vault that is no note.
#[derive(Debug, Clone, PartialEq, Eq)]
pub struct AttachmentInfo {
    pub relative_path: String,
    pub size_bytes: u64,
    pub content_hash: String,
    /// The layer of the folder (`None` = default surface).
    pub layer: Option<String>,
}

/// What an [`AttachmentInfo`] says.
pub struct InfoView {
    pub relative_path: Seq<char>,
    pub size_bytes: nat,
    pub content_hash: Seq<char>,
    pub layer: Option<Seq<char>>,
}

impl View for AttachmentInfo {
    type V = InfoView;

    open spec fn view(&self) -> InfoView {
        InfoView {
            relative_path: self.relative_path@,
            size_bytes: self.size_bytes as nat,
            content_hash: self.content_hash@,
            layer: opt_text(self.layer),
        }
    }
}

/// What an attachment operation did.
#[derive(Debug, Clone, PartialEq, Eq)]
pub struct AttachmentOutcome {
    pub attachment: AttachmentInfo,
    pub rewritten_notes: usize,
    pub trashed_path: Option<String>,
    pub cleanup_warning: Option<String>,
    pub affected_paths: Vec<String>,
}

/// What an [`AttachmentOutcome`] says.
pub struct AttachmentView {
    pub attachment: InfoView,
    pub rewritten_notes: nat,
    pub trashed_path: Option<Seq<char>>,
    pub cleanup_warning: Option<Seq<char>>,
    pub affected_paths: Seq<Seq<char>>,
}

impl View for AttachmentOutcome {
    type V = AttachmentView;

    open spec fn view(&self) -> AttachmentView {
        AttachmentView {
            attachment: self.attachment@,
            rewritten_notes: self.rewritten_notes as nat,
            trashed_path: opt_text(self.trashed_path),
            cleanup_warning: opt_text(self.cleanup_warning),
            affected_paths: strs(self.affected_paths@),
        }
    }
}

} // verus!
