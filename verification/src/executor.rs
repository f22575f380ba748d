//! What one background turn of a vault does, and what it publishes.
//!
//! The turns are made of steps that wait or that touch the disk, the cache and
//! the repository. Here stands which step comes next, and what the turn
//! concludes.

use vstd::prelude::*;

use crate::tables::{clone_strings, find_value, lookup};
use crate::text::{
    clone_opt, from_chars, opt_text, push_str, str_eq, str_owned, strs, to_chars, trim, trimmed,
};

verus! {

// ---------------------------------------------------------------------------
// Types
// ---------------------------------------------------------------------------

/// The kinds of background turns.
#[derive(Debug, Clone, Copy, PartialEq, Eq, Structural)]
pub enum VaultWorkKind {
    Git,
    Commit,
    Index,
    Repair,
}

/// The paths that keep a repository from being used.
#[derive(Debug, Clone, PartialEq, Eq)]
pub struct AffectedPaths {
    pub paths: Vec<String>,
    /// How many there are, listed or not.
    pub total: usize,
}

/// Why a turn failed.
#[derive(Debug, Clone, PartialEq, Eq)]
pub struct VaultWorkError {
    pub code: String,
    pub message: String,
    pub retryable: bool,
    pub detail: Option<AffectedPaths>,
}

/// What a [`VaultWorkError`] says.
pub struct WorkErrorView {
    pub code: Seq<char>,
    pub message: Seq<char>,
    pub retryable: bool,
    pub detail: Option<(Seq<Seq<char>>, nat)>,
}

impl View for VaultWorkError {
    type V = WorkErrorView;

    open spec fn view(&self) -> WorkErrorView {
        WorkErrorView {
            code: self.code@,
            message: self.message@,
            retryable: self.retryable,
            detail: match self.detail {
                Some(d) => Some((strs(d.paths@), d.total as nat)),
                None => None,
            },
        }
    }
}

/// A failure without affected paths.
pub open spec fn plain_failure(code: Seq<char>, message: Seq<char>, retryable: bool) -> WorkErrorView {
    WorkErrorView { code, message, retryable, detail: None }
}

impl VaultWorkError {
    pub fn new(code: &str, message: &str, retryable: bool) -> (r: Self)
        ensures
            r@ == plain_failure(code@, message@, retryable),
    {
        VaultWorkError {
            code: str_owned(code),
            message: str_owned(message),
            retryable,
            detail: None,
        }
    }
}

pub fn clone_work_error(e: &VaultWorkError) -> (r: VaultWorkError)
    ensures
        r@ == e@,
{
    let detail = match &e.detail {
        Some(d) => Some(AffectedPaths { paths: clone_strings(&d.paths), total: d.total }),
        None => None,
    };
    VaultWorkError {
        code: e.code.clone(),
        message: e.message.clone(),
        retryable: e.retryable,
        detail,
    }
}

pub open spec fn work_result(r: Result<(), VaultWorkError>) -> Result<(), WorkErrorView> {
    match r {
        Ok(_) => Ok(()),
        Err(e) => Err(e@),
    }
}

/// A vault's search, as it is reported.
#[derive(Debug, Clone, Copy, PartialEq, Eq, Structural)]
pub enum VaultSearchStatus {
    Indexing,
    Browsable,
    Ready,
    Stale,
    Unavailable,
}

/// A vault's repository, as it is reported.
#[derive(Debug, Clone, Copy, PartialEq, Eq, Structural)]
pub enum VaultGitStatus {
    Ready,
    Unavailable,
}

/// A vault's files, as they are reported.
#[derive(Debug, Clone, Copy, PartialEq, Eq, Structural)]
pub enum LocalContentStatus {
    ReadWrite,
    ReadOnly,
    Unavailable,
}

// ---------------------------------------------------------------------------
// Settings
// ---------------------------------------------------------------------------

/// The value of a setting, trimmed, unless it is blank.
pub open spec fn setting(settings: Seq<(String, String)>, name: Seq<char>) -> Option<Seq<char>> {
    match lookup(settings, name) {
        Some(value) => if trim(value).len() == 0 {
            None
        } else {
            Some(trim(value))
        },
        None => None,
    }
}

fn non_empty_setting(settings: &Vec<(String, String)>, name: &str) -> (r: Option<String>)
    ensures
        opt_text(r) == setting(settings@, name@),
{
    let key = str_owned(name);
    match find_value(settings, &key) {
        Some(value) => {
            let chars = to_chars(value.as_str());
            let t = trimmed(chars.as_slice());
            if t.len() == 0 {
                None
            } else {
                Some(from_chars(t))
            }
        },
        None => None,
    }
}

/// The author of commits in vaults without an identity of their own.
pub open spec fn author_defaults(settings: Seq<(String, String)>) -> (Seq<char>, Seq<char>) {
    (
        match setting(settings, "HATCHDOOR_GIT_AUTHOR_NAME"@) {
            Some(name) => name,
            None => "Hatchdoor"@,
        },
        match setting(settings, "HATCHDOOR_GIT_AUTHOR_EMAIL"@) {
            Some(email) => email,
            None => "hatchdoor@localhost"@,
        },
    )
}

pub fn git_author_defaults(settings: &Vec<(String, String)>) -> (r: (String, String))
    ensures
        (r.0@, r.1@) == author_defaults(settings@),
{
    let name = match non_empty_setting(settings, "HATCHDOOR_GIT_AUTHOR_NAME") {
        Some(name) => name,
        None => str_owned("Hatchdoor"),
    };
    let email = match non_empty_setting(settings, "HATCHDOOR_GIT_AUTHOR_EMAIL") {
        Some(email) => email,
        None => str_owned("hatchdoor@localhost"),
    };
    (name, email)
}

/// What a turn of a kind runs.
#[derive(Debug, Clone, PartialEq, Eq)]
pub enum Turn {
    Git { author_name: String, author_email: String },
    Commit { author_name: String, author_email: String },
    Index { embed_layers: bool },
    Refused(VaultWorkError),
}

/// The turn of a kind, under the settings at its start. Layered notes are
/// embedded unless the setting says otherwise.
pub fn turn_for(
    kind: VaultWorkKind,
    settings: &Vec<(String, String)>,
    embed_layers: Option<bool>,
) -> (r: Turn)
    ensures
        match (kind, r) {
            (VaultWorkKind::Git, Turn::Git { author_name, author_email }) => (
                author_name@,
                author_email@,
            ) == author_defaults(settings@),
            (VaultWorkKind::Commit, Turn::Commit { author_name, author_email }) => (
                author_name@,
                author_email@,
            ) == author_defaults(settings@),
            (VaultWorkKind::Index, Turn::Index { embed_layers: e }) => e == (embed_layers
                != Some(false)),
            (VaultWorkKind::Repair, Turn::Refused(e)) => e@ == plain_failure(
                "vault_work_kind_not_yet_implemented"@,
                "Repair dispatch is not implemented yet"@,
                false,
            ),
            _ => false,
        },
{
    match kind {
        VaultWorkKind::Git => {
            let (author_name, author_email) = git_author_defaults(settings);
            Turn::Git { author_name, author_email }
        },
        VaultWorkKind::Commit => {
            let (author_name, author_email) = git_author_defaults(settings);
            Turn::Commit { author_name, author_email }
        },
        VaultWorkKind::Index => {
            let e = match embed_layers {
                Some(b) => b,
                None => true,
            };
            Turn::Index { embed_layers: e }
        },
        VaultWorkKind::Repair => Turn::Refused(
            VaultWorkError::new(
                "vault_work_kind_not_yet_implemented",
                "Repair dispatch is not implemented yet",
                false,
            ),
        ),
    }
}

// ---------------------------------------------------------------------------
// What the collection concludes
// ---------------------------------------------------------------------------

/// Every active vault's search is ready, and there is one.
pub open spec fn all_ready(statuses: Seq<Option<VaultSearchStatus>>) -> bool {
    statuses.len() > 0 && forall|i: int|
        0 <= i < statuses.len() ==> #[trigger] statuses[i] == Some(VaultSearchStatus::Ready)
}

/// Whether the collection is indexed, from the search status of each active
/// vault; a vault without a runtime has none.
pub fn collection_indexes_ready(statuses: &Vec<Option<VaultSearchStatus>>) -> (r: bool)
    ensures
        r == all_ready(statuses@),
{
    if statuses.len() == 0 {
        return false;
    }
    let mut i: usize = 0;
    while i < statuses.len()
        invariant
            0 <= i <= statuses@.len(),
            statuses@.len() > 0,
            forall|k: int| 0 <= k < i ==> #[trigger] statuses@[k] == Some(VaultSearchStatus::Ready),
        decreases statuses@.len() - i,
    {
        let ready = match statuses[i] {
            Some(VaultSearchStatus::Ready) => true,
            _ => false,
        };
        if !ready {
            assert(statuses@[i as int] != Some(VaultSearchStatus::Ready));
            return false;
        }
        i = i + 1;
    }
    true
}

/// What a finished turn changes about startup.
#[derive(Debug, Clone, Copy, PartialEq, Eq, Structural)]
pub enum StartupChange {
    Ready,
    Failed,
    Unchanged,
}

/// How a finished turn is logged.
#[derive(Debug, Clone, Copy, PartialEq, Eq, Structural)]
pub enum TurnLog {
    Nothing,
    /// The kind of turn is known not to be there yet.
    Expected,
    Failure,
}

/// What a finished turn means for the instance. An index turn that completes a
/// ready collection ends startup; one that fails fails it, unless the model was
/// not there yet.
pub fn publish_outcome(
    kind: VaultWorkKind,
    result: &Result<(), VaultWorkError>,
    indexes_ready: bool,
) -> (r: (StartupChange, TurnLog))
    ensures
        r.0 == (if kind is Index {
            match *result {
                Ok(_) => if indexes_ready {
                    StartupChange::Ready
                } else {
                    StartupChange::Unchanged
                },
                Err(e) => if e.code@ == "embedder_not_ready"@ {
                    StartupChange::Unchanged
                } else {
                    StartupChange::Failed
                },
            }
        } else {
            StartupChange::Unchanged
        }),
        r.1 == (match *result {
            Ok(_) => TurnLog::Nothing,
            Err(e) => if e.code@ == "vault_work_kind_not_yet_implemented"@ {
                TurnLog::Expected
            } else {
                TurnLog::Failure
            },
        }),
{
    let change = match kind {
        VaultWorkKind::Index => match result {
            Ok(_) => if indexes_ready {
                StartupChange::Ready
            } else {
                StartupChange::Unchanged
            },
            Err(e) => if str_eq(e.code.as_str(), "embedder_not_ready") {
                StartupChange::Unchanged
            } else {
                StartupChange::Failed
            },
        },
        _ => StartupChange::Unchanged,
    };
    let log = match result {
        Ok(_) => TurnLog::Nothing,
        Err(e) => if str_eq(e.code.as_str(), "vault_work_kind_not_yet_implemented") {
            TurnLog::Expected
        } else {
            TurnLog::Failure
        },
    };
    (change, log)
}

// ---------------------------------------------------------------------------
// The index turn
// ---------------------------------------------------------------------------

/// A step of an index turn.
#[derive(Debug, PartialEq, Eq)]
pub enum IndexStage {
    /// Take the vault's mutation lock for reading.
    AcquireReads,
    /// Report that the vault is being indexed.
    ReportIndexing,
    /// Take the vault's refresh lock.
    AcquireRefresh,
    /// Mark the kept snapshot as stale while it is rebuilt.
    MarkStale,
    /// Read the vault's notes.
    ReadNotes,
    /// Publish the notes without their vectors.
    PublishStructure,
    /// Report that the vault can be browsed.
    ReportBrowsable,
    /// Build and publish the whole snapshot.
    Publish,
    /// Mark the kept snapshot as stale because of the failure.
    MarkFailed(VaultWorkError),
    /// Look at the kept snapshot.
    InspectSnapshot { error: VaultWorkError, mark_error: Option<String> },
    /// Report the vault's search and end the turn.
    Report { status: VaultSearchStatus, error: Option<VaultWorkError>, result: Result<
        (),
        VaultWorkError,
    > },
    /// End the turn, with nothing reported.
    End(Result<(), VaultWorkError>),
}

/// What came of a step.
#[derive(Debug, Clone, PartialEq, Eq)]
pub enum IndexEvent {
    Done,
    /// The step had nothing to do.
    Nothing,
    /// The step failed, with its message and whether it may be tried again.
    Failed { message: String, retryable: bool },
    /// The task was aborted, with the reason.
    Panicked(String),
    /// The snapshot was published.
    Published(VaultSnapshotFreshness),
    /// What is known of the kept snapshot; `None` if there is none or it cannot
    /// be told.
    Snapshot(Option<SnapshotStatus>),
}

/// Whether a snapshot is as new as the notes.
#[derive(Debug, Clone, Copy, PartialEq, Eq, Structural)]
pub enum VaultSnapshotFreshness {
    Fresh,
    Stale,
}

/// The freshness that a snapshot is published with: one that a note overtook
/// while it was built is stale.
pub open spec fn freshness_after(mutated: bool) -> VaultSnapshotFreshness {
    if mutated {
        VaultSnapshotFreshness::Stale
    } else {
        VaultSnapshotFreshness::Fresh
    }
}

pub fn freshness_at_publication(mutated: bool) -> (r: VaultSnapshotFreshness)
    ensures
        r == freshness_after(mutated),
{
    if mutated {
        VaultSnapshotFreshness::Stale
    } else {
        VaultSnapshotFreshness::Fresh
    }
}

/// What is known of a snapshot.
#[derive(Debug, Clone, Copy, PartialEq, Eq, Structural)]
pub struct SnapshotStatus {
    /// It takes part in reads.
    pub participating: bool,
    /// It has vectors.
    pub searchable: bool,
}

/// Where an index turn starts: without the model it is put off, and for a vault
/// that is gone there is nothing to do.
pub fn start_index_turn(embedder_ready: bool, vault_active: bool) -> (r: IndexStage)
    ensures
        match r {
            IndexStage::End(Err(e)) => !embedder_ready && e@ == plain_failure(
                "embedder_not_ready"@,
                "The search model is still being set up; indexing resumes when setup completes."@,
                true,
            ),
            IndexStage::End(Ok(_)) => embedder_ready && !vault_active,
            IndexStage::AcquireReads => embedder_ready && vault_active,
            _ => false,
        },
{
    if !embedder_ready {
        return IndexStage::End(
            Err(
                VaultWorkError::new(
                    "embedder_not_ready",
                    "The search model is still being set up; indexing resumes when setup completes.",
                    true,
                ),
            ),
        );
    }
    if !vault_active {
        return IndexStage::End(Ok(()));
    }
    IndexStage::AcquireReads
}

/// The failure of a step of an index turn.
pub open spec fn index_failure(message: Seq<char>, retryable: bool) -> WorkErrorView {
    plain_failure("vault_index_failed"@, message, retryable)
}

pub fn vault_index_error(message: &str, retryable: bool) -> (r: VaultWorkError)
    ensures
        r@ == index_failure(message@, retryable),
{
    VaultWorkError::new("vault_index_failed", message, retryable)
}

/// The abortion of an index turn's task.
pub open spec fn index_panic(message: Seq<char>) -> WorkErrorView {
    plain_failure("vault_index_task_panicked"@, message, false)
}

/// The status of a vault whose index turn failed: what the kept snapshot can
/// still do.
pub open spec fn status_after_failure(snapshot: Option<SnapshotStatus>) -> VaultSearchStatus {
    match snapshot {
        Some(s) => if s.participating && s.searchable {
            VaultSearchStatus::Stale
        } else if s.participating {
            VaultSearchStatus::Browsable
        } else {
            VaultSearchStatus::Unavailable
        },
        None => VaultSearchStatus::Unavailable,
    }
}

/// The message of a failed index turn.
pub open spec fn failure_message(message: Seq<char>, mark_error: Option<Seq<char>>) -> Seq<char> {
    match mark_error {
        Some(e) => message + " (also could not mark the retained snapshot stale: "@ + e + ")"@,
        None => message,
    }
}

/// The event is one that the step can have.
pub open spec fn index_fits(stage: IndexStage, event: IndexEvent) -> bool {
    match stage {
        IndexStage::AcquireReads => event is Done || event is Failed,
        IndexStage::ReportIndexing => event is Done || event is Failed,
        IndexStage::AcquireRefresh => event is Done || event is Failed,
        IndexStage::MarkStale => event is Done || event is Failed,
        IndexStage::ReadNotes => event is Done || event is Failed || event is Panicked,
        IndexStage::PublishStructure => event is Done || event is Nothing || event is Failed || event
            is Panicked,
        IndexStage::ReportBrowsable => event is Done || event is Failed,
        IndexStage::Publish => event is Published || event is Failed || event is Panicked,
        IndexStage::MarkFailed(_) => event is Done || event is Failed,
        IndexStage::InspectSnapshot { .. } => event is Snapshot,
        _ => false,
    }
}

/// The step behind a step of an index turn.
pub open spec fn index_next(stage: IndexStage, event: IndexEvent, next: IndexStage) -> bool {
    match (stage, event) {
        (IndexStage::AcquireReads, IndexEvent::Done) => next is ReportIndexing,
        (IndexStage::ReportIndexing, IndexEvent::Done) => next is AcquireRefresh,
        (IndexStage::AcquireRefresh, IndexEvent::Done) => next is MarkStale,
        (IndexStage::AcquireReads, IndexEvent::Failed { message, retryable }) => ends_with_error(
            next,
            index_failure(message@, retryable),
        ),
        (IndexStage::ReportIndexing, IndexEvent::Failed { message, retryable }) => ends_with_error(
            next,
            index_failure(message@, retryable),
        ),
        (IndexStage::AcquireRefresh, IndexEvent::Failed { message, retryable }) => ends_with_error(
            next,
            index_failure(message@, retryable),
        ),
        (IndexStage::MarkStale, _) => next is ReadNotes,
        (IndexStage::ReadNotes, IndexEvent::Done) => next is PublishStructure,
        (IndexStage::ReadNotes, IndexEvent::Failed { message, retryable }) => next is MarkFailed
            && next->MarkFailed_0@ == index_failure(message@, retryable),
        (IndexStage::ReadNotes, IndexEvent::Panicked(message)) => next is MarkFailed
            && next->MarkFailed_0@ == index_panic(message@),
        (IndexStage::PublishStructure, IndexEvent::Done) => next is ReportBrowsable,
        (IndexStage::PublishStructure, IndexEvent::Panicked(message)) => next is MarkFailed
            && next->MarkFailed_0@ == index_panic(message@),
        (IndexStage::PublishStructure, _) => next is Publish,
        (IndexStage::ReportBrowsable, _) => next is Publish,
        (IndexStage::Publish, IndexEvent::Published(freshness)) => match next {
            IndexStage::Report { status, error, result } => status == (if freshness is Stale {
                VaultSearchStatus::Stale
            } else {
                VaultSearchStatus::Ready
            }) && error is None && result is Ok,
            _ => false,
        },
        (IndexStage::Publish, IndexEvent::Failed { message, .. }) => match next {
            IndexStage::InspectSnapshot { error, mark_error } => error@ == index_failure(
                message@,
                true,
            ) && mark_error is None,
            _ => false,
        },
        (IndexStage::Publish, IndexEvent::Panicked(message)) => next is MarkFailed
            && next->MarkFailed_0@ == index_panic(message@),
        (IndexStage::MarkFailed(e), IndexEvent::Done) => match next {
            IndexStage::InspectSnapshot { error, mark_error } => error@ == e@ && mark_error is None,
            _ => false,
        },
        (IndexStage::MarkFailed(e), IndexEvent::Failed { message, .. }) => match next {
            IndexStage::InspectSnapshot { error, mark_error } => error@ == e@ && opt_text(mark_error)
                == Some(message@),
            _ => false,
        },
        (
            IndexStage::InspectSnapshot { error: e, mark_error },
            IndexEvent::Snapshot(snapshot),
        ) => match next {
            IndexStage::Report { status, error, result } => status == status_after_failure(snapshot)
                && error is Some && error->0@ == (WorkErrorView {
                message: failure_message(e@.message, opt_text(mark_error)),
                detail: None,
                ..e@
            }) && result is Err && result->Err_0@ == e@,
            _ => false,
        },
        _ => true,
    }
}

pub open spec fn ends_with_error(stage: IndexStage, e: WorkErrorView) -> bool {
    match stage {
        IndexStage::End(Err(error)) => error@ == e,
        _ => false,
    }
}

/// The step behind a step of an index turn.
pub fn advance_index_turn(stage: &IndexStage, event: &IndexEvent) -> (r: IndexStage)
    requires
        index_fits(*stage, *event),
    ensures
        index_next(*stage, *event, r),
{
    match stage {
        IndexStage::AcquireReads => match event {
            IndexEvent::Failed { message, retryable } => IndexStage::End(
                Err(vault_index_error(message.as_str(), *retryable)),
            ),
            _ => IndexStage::ReportIndexing,
        },
        IndexStage::ReportIndexing => match event {
            IndexEvent::Failed { message, retryable } => IndexStage::End(
                Err(vault_index_error(message.as_str(), *retryable)),
            ),
            _ => IndexStage::AcquireRefresh,
        },
        IndexStage::AcquireRefresh => match event {
            IndexEvent::Failed { message, retryable } => IndexStage::End(
                Err(vault_index_error(message.as_str(), *retryable)),
            ),
            _ => IndexStage::MarkStale,
        },
        IndexStage::MarkStale => IndexStage::ReadNotes,
        IndexStage::ReadNotes => match event {
            IndexEvent::Failed { message, retryable } => IndexStage::MarkFailed(
                vault_index_error(message.as_str(), *retryable),
            ),
            IndexEvent::Panicked(message) => IndexStage::MarkFailed(
                VaultWorkError::new("vault_index_task_panicked", message.as_str(), false),
            ),
            _ => IndexStage::PublishStructure,
        },
        IndexStage::PublishStructure => match event {
            IndexEvent::Done => IndexStage::ReportBrowsable,
            IndexEvent::Panicked(message) => IndexStage::MarkFailed(
                VaultWorkError::new("vault_index_task_panicked", message.as_str(), false),
            ),
            _ => IndexStage::Publish,
        },
        IndexStage::ReportBrowsable => IndexStage::Publish,
        IndexStage::Publish => match event {
            IndexEvent::Published(freshness) => IndexStage::Report {
                status: match freshness {
                    VaultSnapshotFreshness::Stale => VaultSearchStatus::Stale,
                    VaultSnapshotFreshness::Fresh => VaultSearchStatus::Ready,
                },
                error: None,
                result: Ok(()),
            },
            IndexEvent::Failed { message, .. } => IndexStage::InspectSnapshot {
                error: vault_index_error(message.as_str(), true),
                mark_error: None,
            },
            IndexEvent::Panicked(message) => IndexStage::MarkFailed(
                VaultWorkError::new("vault_index_task_panicked", message.as_str(), false),
            ),
            _ => IndexStage::End(Ok(())),
        },
        IndexStage::MarkFailed(e) => match event {
            IndexEvent::Failed { message, .. } => IndexStage::InspectSnapshot {
                error: clone_work_error(e),
                mark_error: Some(message.clone()),
            },
            _ => IndexStage::InspectSnapshot { error: clone_work_error(e), mark_error: None },
        },
        IndexStage::InspectSnapshot { error, mark_error } => match event {
            IndexEvent::Snapshot(snapshot) => {
                let status = match snapshot {
                    Some(s) => if s.participating && s.searchable {
                        VaultSearchStatus::Stale
                    } else if s.participating {
                        VaultSearchStatus::Browsable
                    } else {
                        VaultSearchStatus::Unavailable
                    },
                    None => VaultSearchStatus::Unavailable,
                };
                let mut message = to_chars(error.message.as_str());
                match mark_error {
                    Some(e) => {
                        push_str(
                            &mut message,
                            " (also could not mark the retained snapshot stale: ",
                        );
                        push_str(&mut message, e.as_str());
                        push_str(&mut message, ")");
                    },
                    None => {},
                }
                IndexStage::Report {
                    status,
                    error: Some(
                        VaultWorkError {
                            code: error.code.clone(),
                            message: from_chars(message.as_slice()),
                            retryable: error.retryable,
                            detail: None,
                        },
                    ),
                    result: Err(clone_work_error(error)),
                }
            },
            _ => IndexStage::End(Ok(())),
        },
        IndexStage::Report { .. } => IndexStage::End(Ok(())),
        IndexStage::End(_) => IndexStage::End(Ok(())),
    }
}

/// A snapshot that a note overtook is never reported as current.
pub proof fn overtaken_snapshot_is_reported_stale(next: IndexStage)
    requires
        index_next(IndexStage::Publish, IndexEvent::Published(freshness_after(true)), next),
    ensures
        next is Report,
        next->Report_status == VaultSearchStatus::Stale,
{
}

/// A failed turn never reports a vault without vectors as searchable.
pub proof fn failed_turn_grants_search_only_with_vectors(snapshot: Option<SnapshotStatus>)
    ensures
        status_after_failure(snapshot) == VaultSearchStatus::Stale ==> snapshot is Some
            && snapshot->0.searchable,
        status_after_failure(snapshot) != VaultSearchStatus::Ready,
{
}

// ---------------------------------------------------------------------------
// Planning a repository turn
// ---------------------------------------------------------------------------

/// How a vault's repository is used.
#[derive(Debug, Clone, Copy, PartialEq, Eq, Structural)]
pub enum VaultGitMode {
    /// Commits, without a remote.
    LocalHistory,
    /// Takes over what the remote has, without commits of its own.
    PullOnly,
    /// Commits, and exchanges them with the remote.
    TwoWay,
}

/// Where a vault comes from.
#[derive(Debug, Clone, PartialEq, Eq)]
pub enum VaultSource {
    Local { path: String },
    /// A checkout that its owner keeps.
    ExistingGit {
        repository_path: String,
        repository_url: Option<String>,
        branch: String,
        mode: VaultGitMode,
    },
    /// A checkout that is kept for the vault.
    ManagedGit {
        repository_url: String,
        branch: String,
        vault_subdirectory: Option<String>,
        mode: VaultGitMode,
        poll_interval_secs: u64,
    },
}

/// A vault, as far as its repository turns read it.
#[derive(Debug, Clone, PartialEq, Eq)]
pub struct VaultDefinition {
    pub vault_id: u64,
    /// The folder of the vault's notes.
    pub vault_path: String,
    pub source: VaultSource,
}

/// What a remote is told.
#[derive(Clone, PartialEq, Eq)]
pub struct HttpsCredentials {
    pub username: String,
    pub password: String,
}

pub open spec fn credentials_view(c: Option<HttpsCredentials>) -> Option<(Seq<char>, Seq<char>)> {
    match c {
        Some(c) => Some((c.username@, c.password@)),
        None => None,
    }
}

fn clone_credentials(c: &Option<HttpsCredentials>) -> (r: Option<HttpsCredentials>)
    ensures
        credentials_view(r) == credentials_view(*c),
{
    match c {
        Some(c) => Some(
            HttpsCredentials { username: c.username.clone(), password: c.password.clone() },
        ),
        None => None,
    }
}

/// Who commits.
#[derive(Debug, Clone, PartialEq, Eq)]
pub struct CommitAuthor {
    pub name: String,
    pub email: String,
}

impl View for CommitAuthor {
    type V = (Seq<char>, Seq<char>);

    open spec fn view(&self) -> (Seq<char>, Seq<char>) {
        (self.name@, self.email@)
    }
}

fn clone_author(author: &CommitAuthor) -> (r: CommitAuthor)
    ensures
        r@ == author@,
{
    CommitAuthor { name: author.name.clone(), email: author.email.clone() }
}

/// What a turn on a managed checkout needs.
#[derive(Clone, PartialEq, Eq)]
pub struct ManagedGitTurnConfig {
    pub vault_id: u64,
    pub state_directory: String,
    pub repository_url: String,
    pub branch: String,
    pub vault_subdirectory: Option<String>,
    pub mode: VaultGitMode,
    pub credentials: Option<HttpsCredentials>,
    pub author: CommitAuthor,
}

/// What a [`ManagedGitTurnConfig`] says.
pub struct ConfigView {
    pub vault_id: u64,
    pub state_directory: Seq<char>,
    pub repository_url: Seq<char>,
    pub branch: Seq<char>,
    pub vault_subdirectory: Option<Seq<char>>,
    pub mode: VaultGitMode,
    pub credentials: Option<(Seq<char>, Seq<char>)>,
    pub author: (Seq<char>, Seq<char>),
}

impl View for ManagedGitTurnConfig {
    type V = ConfigView;

    open spec fn view(&self) -> ConfigView {
        ConfigView {
            vault_id: self.vault_id,
            state_directory: self.state_directory@,
            repository_url: self.repository_url@,
            branch: self.branch@,
            vault_subdirectory: opt_text(self.vault_subdirectory),
            mode: self.mode,
            credentials: credentials_view(self.credentials),
            author: self.author@,
        }
    }
}

/// What a repository turn runs.
#[derive(Clone, PartialEq, Eq)]
pub enum GitTurnWork {
    /// Commit what has changed in the vault's own checkout.
    LocalHistory { vault_path: String, author: CommitAuthor },
    /// Commit in an existing checkout.
    ExistingCommit {
        repository_path: String,
        vault_path: String,
        branch: String,
        mode: VaultGitMode,
        author: CommitAuthor,
    },
    /// Exchange with the remote of an existing checkout.
    ExistingRemote {
        repository_path: String,
        vault_path: String,
        repository_url: Option<String>,
        branch: String,
        mode: VaultGitMode,
        credentials: Option<HttpsCredentials>,
        author: CommitAuthor,
    },
    /// Commit in the managed checkout.
    ManagedCommit(ManagedGitTurnConfig),
    /// Exchange with the remote of the managed checkout.
    ManagedRemote(ManagedGitTurnConfig),
}

/// What a [`GitTurnWork`] says.
pub enum WorkView {
    LocalHistory { vault_path: Seq<char>, author: (Seq<char>, Seq<char>) },
    ExistingCommit {
        repository_path: Seq<char>,
        vault_path: Seq<char>,
        branch: Seq<char>,
        mode: VaultGitMode,
        author: (Seq<char>, Seq<char>),
    },
    ExistingRemote {
        repository_path: Seq<char>,
        vault_path: Seq<char>,
        repository_url: Option<Seq<char>>,
        branch: Seq<char>,
        mode: VaultGitMode,
        credentials: Option<(Seq<char>, Seq<char>)>,
        author: (Seq<char>, Seq<char>),
    },
    ManagedCommit(ConfigView),
    ManagedRemote(ConfigView),
}

impl View for GitTurnWork {
    type V = WorkView;

    open spec fn view(&self) -> WorkView {
        match self {
            GitTurnWork::LocalHistory { vault_path, author } => WorkView::LocalHistory {
                vault_path: vault_path@,
                author: author@,
            },
            GitTurnWork::ExistingCommit { repository_path, vault_path, branch, mode, author } => {
                WorkView::ExistingCommit {
                    repository_path: repository_path@,
                    vault_path: vault_path@,
                    branch: branch@,
                    mode: *mode,
                    author: author@,
                }
            },
            GitTurnWork::ExistingRemote {
                repository_path,
                vault_path,
                repository_url,
                branch,
                mode,
                credentials,
                author,
            } => WorkView::ExistingRemote {
                repository_path: repository_path@,
                vault_path: vault_path@,
                repository_url: opt_text(*repository_url),
                branch: branch@,
                mode: *mode,
                credentials: credentials_view(*credentials),
                author: author@,
            },
            GitTurnWork::ManagedCommit(config) => WorkView::ManagedCommit(config@),
            GitTurnWork::ManagedRemote(config) => WorkView::ManagedRemote(config@),
        }
    }
}

/// A repository turn: what it runs, and under which lock.
#[derive(Clone, PartialEq, Eq)]
pub struct GitTurnPlan {
    /// Whether the turn keeps notes from being written meanwhile.
    pub holds_mutation_lock: bool,
    /// The code of the failure that an aborted task is reported as.
    pub panic_code: String,
    pub work: GitTurnWork,
}

/// What a [`GitTurnPlan`] says.
pub struct PlanView {
    pub holds_mutation_lock: bool,
    pub panic_code: Seq<char>,
    pub work: WorkView,
}

impl View for GitTurnPlan {
    type V = PlanView;

    open spec fn view(&self) -> PlanView {
        PlanView {
            holds_mutation_lock: self.holds_mutation_lock,
            panic_code: self.panic_code@,
            work: self.work@,
        }
    }
}

pub open spec fn plan_view(plan: Option<GitTurnPlan>) -> Option<PlanView> {
    match plan {
        Some(p) => Some(p@),
        None => None,
    }
}

pub open spec fn plan_result_view(r: Result<Option<GitTurnPlan>, VaultWorkError>) -> Result<
    Option<PlanView>,
    WorkErrorView,
> {
    match r {
        Ok(p) => Ok(plan_view(p)),
        Err(e) => Err(e@),
    }
}

/// The work needs the lease of the managed checkout.
pub open spec fn needs_lease(work: WorkView) -> bool {
    work is ManagedCommit || work is ManagedRemote
}

/// The plan of a vault's commit turn. Only a mode that commits has one. It
/// holds the mutation lock where it stages from the whole checkout, and takes
/// no credentials.
pub open spec fn commit_plan(
    vault: VaultDefinition,
    state_directory: Seq<char>,
    author: (Seq<char>, Seq<char>),
) -> Option<PlanView> {
    match vault.source {
        VaultSource::Local { .. } => None,
        VaultSource::ExistingGit { repository_path, branch, mode, .. } => match mode {
            VaultGitMode::LocalHistory => Some(
                PlanView {
                    holds_mutation_lock: false,
                    panic_code: "existing_git_local_history_task_panicked"@,
                    work: WorkView::LocalHistory { vault_path: vault.vault_path@, author },
                },
            ),
            VaultGitMode::TwoWay => Some(
                PlanView {
                    holds_mutation_lock: true,
                    panic_code: "existing_git_commit_task_panicked"@,
                    work: WorkView::ExistingCommit {
                        repository_path: repository_path@,
                        vault_path: vault.vault_path@,
                        branch: branch@,
                        mode,
                        author,
                    },
                },
            ),
            VaultGitMode::PullOnly => None,
        },
        VaultSource::ManagedGit { repository_url, branch, vault_subdirectory, mode, .. } => {
            if mode == VaultGitMode::TwoWay {
                Some(
                    PlanView {
                        holds_mutation_lock: true,
                        panic_code: "managed_git_commit_task_panicked"@,
                        work: WorkView::ManagedCommit(
                            ConfigView {
                                vault_id: vault.vault_id,
                                state_directory,
                                repository_url: repository_url@,
                                branch: branch@,
                                vault_subdirectory: opt_text(vault_subdirectory),
                                mode,
                                credentials: None,
                                author,
                            },
                        ),
                    },
                )
            } else {
                None
            }
        },
    }
}

/// The plan of a vault's commit turn, or `None` if its mode makes no commits.
pub fn plan_commit_turn(vault: &VaultDefinition, state_directory: &str, author: &CommitAuthor) -> (r:
    Option<GitTurnPlan>)
    ensures
        plan_view(r) == commit_plan(*vault, state_directory@, author@),
{
    match &vault.source {
        VaultSource::Local { .. } => None,
        VaultSource::ExistingGit { repository_path, branch, mode, .. } => match mode {
            VaultGitMode::LocalHistory => Some(
                GitTurnPlan {
                    holds_mutation_lock: false,
                    panic_code: str_owned("existing_git_local_history_task_panicked"),
                    work: GitTurnWork::LocalHistory {
                        vault_path: vault.vault_path.clone(),
                        author: clone_author(author),
                    },
                },
            ),
            VaultGitMode::TwoWay => Some(
                GitTurnPlan {
                    holds_mutation_lock: true,
                    panic_code: str_owned("existing_git_commit_task_panicked"),
                    work: GitTurnWork::ExistingCommit {
                        repository_path: repository_path.clone(),
                        vault_path: vault.vault_path.clone(),
                        branch: branch.clone(),
                        mode: VaultGitMode::TwoWay,
                        author: clone_author(author),
                    },
                },
            ),
            VaultGitMode::PullOnly => None,
        },
        VaultSource::ManagedGit { repository_url, branch, vault_subdirectory, mode, .. } => {
            match mode {
                VaultGitMode::TwoWay => Some(
                    GitTurnPlan {
                        holds_mutation_lock: true,
                        panic_code: str_owned("managed_git_commit_task_panicked"),
                        work: GitTurnWork::ManagedCommit(
                            ManagedGitTurnConfig {
                                vault_id: vault.vault_id,
                                state_directory: str_owned(state_directory),
                                repository_url: repository_url.clone(),
                                branch: branch.clone(),
                                vault_subdirectory: clone_opt(vault_subdirectory),
                                mode: VaultGitMode::TwoWay,
                                credentials: None,
                                author: clone_author(author),
                            },
                        ),
                    },
                ),
                _ => None,
            }
        },
    }
}

/// Why the vault's credentials could not be read.
pub open spec fn registry_failure(message: Seq<char>) -> WorkErrorView {
    plain_failure("managed_git_registry_unavailable"@, message, true)
}

/// The plan of a vault's exchange with its remote, or of its commits where it
/// has no remote. A turn that needs the credentials fails where they could not
/// be read.
pub open spec fn git_plan(
    vault: VaultDefinition,
    state_directory: Seq<char>,
    credentials: Result<Option<(Seq<char>, Seq<char>)>, Seq<char>>,
    author: (Seq<char>, Seq<char>),
) -> Result<Option<PlanView>, WorkErrorView> {
    match vault.source {
        VaultSource::Local { .. } => Ok(None),
        VaultSource::ExistingGit { repository_path, repository_url, branch, mode } => {
            if mode == VaultGitMode::LocalHistory {
                Ok(commit_plan(vault, state_directory, author))
            } else {
                match credentials {
                    Err(why) => Err(registry_failure(why)),
                    Ok(credentials) => Ok(
                        Some(
                            PlanView {
                                holds_mutation_lock: true,
                                panic_code: "existing_git_remote_task_panicked"@,
                                work: WorkView::ExistingRemote {
                                    repository_path: repository_path@,
                                    vault_path: vault.vault_path@,
                                    repository_url: opt_text(repository_url),
                                    branch: branch@,
                                    mode,
                                    credentials,
                                    author,
                                },
                            },
                        ),
                    ),
                }
            }
        },
        VaultSource::ManagedGit { repository_url, branch, vault_subdirectory, mode, .. } => {
            match credentials {
                Err(why) => Err(registry_failure(why)),
                Ok(credentials) => Ok(
                    Some(
                        PlanView {
                            holds_mutation_lock: true,
                            panic_code: "managed_git_task_panicked"@,
                            work: WorkView::ManagedRemote(
                                ConfigView {
                                    vault_id: vault.vault_id,
                                    state_directory,
                                    repository_url: repository_url@,
                                    branch: branch@,
                                    vault_subdirectory: opt_text(vault_subdirectory),
                                    mode,
                                    credentials,
                                    author,
                                },
                            ),
                        },
                    ),
                ),
            }
        },
    }
}

/// What reading the vault's credentials gave.
pub open spec fn read_credentials(r: Result<Option<HttpsCredentials>, String>) -> Result<
    Option<(Seq<char>, Seq<char>)>,
    Seq<char>,
> {
    match r {
        Ok(c) => Ok(credentials_view(c)),
        Err(why) => Err(why@),
    }
}

fn git_credentials(read: &Result<Option<HttpsCredentials>, String>) -> (r: Result<
    Option<HttpsCredentials>,
    VaultWorkError,
>)
    ensures
        match (*read, r) {
            (Ok(c), Ok(d)) => credentials_view(c) == credentials_view(d),
            (Err(why), Err(e)) => e@ == registry_failure(why@),
            _ => false,
        },
{
    match read {
        Ok(c) => Ok(clone_credentials(c)),
        Err(why) => Err(
            VaultWorkError::new("managed_git_registry_unavailable", why.as_str(), true),
        ),
    }
}

/// The plan of a vault's repository turn, or `None` if it has no repository.
pub fn plan_git_turn(
    vault: &VaultDefinition,
    state_directory: &str,
    credentials: &Result<Option<HttpsCredentials>, String>,
    author: &CommitAuthor,
) -> (r: Result<Option<GitTurnPlan>, VaultWorkError>)
    ensures
        plan_result_view(r) == git_plan(
            *vault,
            state_directory@,
            read_credentials(*credentials),
            author@,
        ),
{
    match &vault.source {
        VaultSource::Local { .. } => Ok(None),
        VaultSource::ExistingGit { repository_path, repository_url, branch, mode } => {
            match mode {
                VaultGitMode::LocalHistory => {
                    return Ok(plan_commit_turn(vault, state_directory, author));
                },
                _ => {},
            }
            match git_credentials(credentials) {
                Err(e) => Err(e),
                Ok(credentials) => Ok(
                    Some(
                        GitTurnPlan {
                            holds_mutation_lock: true,
                            panic_code: str_owned("existing_git_remote_task_panicked"),
                            work: GitTurnWork::ExistingRemote {
                                repository_path: repository_path.clone(),
                                vault_path: vault.vault_path.clone(),
                                repository_url: clone_opt(repository_url),
                                branch: branch.clone(),
                                mode: *mode,
                                credentials,
                                author: clone_author(author),
                            },
                        },
                    ),
                ),
            }
        },
        VaultSource::ManagedGit { repository_url, branch, vault_subdirectory, mode, .. } => {
            match git_credentials(credentials) {
                Err(e) => Err(e),
                Ok(credentials) => Ok(
                    Some(
                        GitTurnPlan {
                            holds_mutation_lock: true,
                            panic_code: str_owned("managed_git_task_panicked"),
                            work: GitTurnWork::ManagedRemote(
                                ManagedGitTurnConfig {
                                    vault_id: vault.vault_id,
                                    state_directory: str_owned(state_directory),
                                    repository_url: repository_url.clone(),
                                    branch: branch.clone(),
                                    vault_subdirectory: clone_opt(vault_subdirectory),
                                    mode: *mode,
                                    credentials,
                                    author: clone_author(author),
                                },
                            ),
                        },
                    ),
                ),
            }
        },
    }
}

/// How a vault's repository is used, if it has one.
pub open spec fn git_mode(vault: VaultDefinition) -> Option<VaultGitMode> {
    match vault.source {
        VaultSource::Local { .. } => None,
        VaultSource::ExistingGit { mode, .. } => Some(mode),
        VaultSource::ManagedGit { mode, .. } => Some(mode),
    }
}

/// A vault that only pulls, or has no repository, is never committed to.
pub proof fn pull_only_vault_makes_no_commits(
    vault: VaultDefinition,
    state_directory: Seq<char>,
    author: (Seq<char>, Seq<char>),
)
    requires
        git_mode(vault) is None || git_mode(vault) == Some(VaultGitMode::PullOnly),
    ensures
        commit_plan(vault, state_directory, author) is None,
{
}

/// A commit turn never talks to the remote, and takes no credentials.
pub proof fn commit_turn_leaves_the_remote_alone(
    vault: VaultDefinition,
    state_directory: Seq<char>,
    author: (Seq<char>, Seq<char>),
)
    requires
        commit_plan(vault, state_directory, author) is Some,
    ensures
        match commit_plan(vault, state_directory, author)->0.work {
            WorkView::LocalHistory { .. } => true,
            WorkView::ExistingCommit { .. } => true,
            WorkView::ManagedCommit(config) => config.credentials is None,
            _ => false,
        },
{
}

/// A turn that lets notes be written meanwhile has no remote.
pub proof fn turn_without_lock_has_no_remote(
    vault: VaultDefinition,
    state_directory: Seq<char>,
    credentials: Result<Option<(Seq<char>, Seq<char>)>, Seq<char>>,
    author: (Seq<char>, Seq<char>),
)
    requires
        git_plan(vault, state_directory, credentials, author) is Ok,
        git_plan(vault, state_directory, credentials, author)->Ok_0 is Some,
        !git_plan(vault, state_directory, credentials, author)->Ok_0->0.holds_mutation_lock,
    ensures
        git_plan(vault, state_directory, credentials, author)->Ok_0->0.work is LocalHistory,
{
}

// ---------------------------------------------------------------------------
// Running a repository turn
// ---------------------------------------------------------------------------

/// A step of a planned turn.
#[derive(Debug, Clone, Copy, PartialEq, Eq, Structural)]
pub enum TurnStage {
    /// Take the lease of the managed checkout.
    AcquireLease,
    /// Take the vault's mutation lock.
    AcquireLock,
    /// Run the work.
    Work,
}

/// What came of a step.
#[derive(Debug, Clone, PartialEq, Eq)]
pub enum TurnEvent {
    Done,
    Failed(VaultWorkError),
    /// The work's task was aborted, with the reason.
    Panicked(String),
}

/// What a planned turn does next.
#[derive(Debug, PartialEq, Eq)]
pub enum TurnNext {
    Step(TurnStage),
    /// The turn is over. `keep_lease` says to keep the lease for the next turn.
    Finish { keep_lease: bool, result: Result<(), VaultWorkError> },
}

/// The first step of a planned turn: the lease comes before the lock.
pub open spec fn first_stage(plan: GitTurnPlan) -> TurnStage {
    if needs_lease(plan.work@) {
        TurnStage::AcquireLease
    } else {
        after_lease(plan)
    }
}

pub open spec fn after_lease(plan: GitTurnPlan) -> TurnStage {
    if plan.holds_mutation_lock {
        TurnStage::AcquireLock
    } else {
        TurnStage::Work
    }
}

fn has_lease(work: &GitTurnWork) -> (r: bool)
    ensures
        r == needs_lease(work@),
{
    match work {
        GitTurnWork::ManagedCommit(_) => true,
        GitTurnWork::ManagedRemote(_) => true,
        _ => false,
    }
}

pub fn start_planned_turn(plan: &GitTurnPlan) -> (r: TurnStage)
    ensures
        r == first_stage(*plan),
{
    if has_lease(&plan.work) {
        TurnStage::AcquireLease
    } else if plan.holds_mutation_lock {
        TurnStage::AcquireLock
    } else {
        TurnStage::Work
    }
}

/// The failure to take the mutation lock.
pub open spec fn lock_failure(e: WorkErrorView) -> WorkErrorView {
    plain_failure("managed_git_mutation_unavailable"@, e.message, e.retryable)
}

pub fn managed_git_mutation_error(e: &VaultWorkError) -> (r: VaultWorkError)
    ensures
        r@ == lock_failure(e@),
{
    VaultWorkError::new("managed_git_mutation_unavailable", e.message.as_str(), e.retryable)
}

/// What a planned turn does behind a step. A turn whose work was aborted has
/// lost its lease; one that failed keeps it.
pub open spec fn turn_next(plan: GitTurnPlan, stage: TurnStage, event: TurnEvent, next: TurnNext) -> bool {
    match (stage, event) {
        (TurnStage::AcquireLease, TurnEvent::Done) => next == TurnNext::Step(after_lease(plan)),
        (TurnStage::AcquireLease, TurnEvent::Failed(e)) => finishes(next, false, Err(e@)),
        (TurnStage::AcquireLock, TurnEvent::Done) => next == TurnNext::Step(TurnStage::Work),
        (TurnStage::AcquireLock, TurnEvent::Failed(e)) => finishes(
            next,
            false,
            Err(lock_failure(e@)),
        ),
        (TurnStage::Work, TurnEvent::Done) => finishes(next, needs_lease(plan.work@), Ok(())),
        (TurnStage::Work, TurnEvent::Failed(e)) => finishes(next, needs_lease(plan.work@), Err(e@)),
        (TurnStage::Work, TurnEvent::Panicked(why)) => finishes(
            next,
            false,
            Err(plain_failure(plan.panic_code@, why@, false)),
        ),
        _ => true,
    }
}

pub open spec fn finishes(next: TurnNext, keep: bool, result: Result<(), WorkErrorView>) -> bool {
    match next {
        TurnNext::Finish { keep_lease, result: r } => keep_lease == keep && work_result(r)
            == result,
        _ => false,
    }
}

/// What a planned turn does behind a step.
pub fn run_planned_turn(plan: &GitTurnPlan, stage: TurnStage, event: &TurnEvent) -> (r: TurnNext)
    requires
        event is Panicked ==> stage is Work,
    ensures
        turn_next(*plan, stage, *event, r),
{
    match stage {
        TurnStage::AcquireLease => match event {
            TurnEvent::Failed(e) => TurnNext::Finish {
                keep_lease: false,
                result: Err(clone_work_error(e)),
            },
            _ => if plan.holds_mutation_lock {
                TurnNext::Step(TurnStage::AcquireLock)
            } else {
                TurnNext::Step(TurnStage::Work)
            },
        },
        TurnStage::AcquireLock => match event {
            TurnEvent::Failed(e) => TurnNext::Finish {
                keep_lease: false,
                result: Err(managed_git_mutation_error(e)),
            },
            _ => TurnNext::Step(TurnStage::Work),
        },
        TurnStage::Work => match event {
            TurnEvent::Done => TurnNext::Finish { keep_lease: has_lease(&plan.work), result: Ok(()) },
            TurnEvent::Failed(e) => TurnNext::Finish {
                keep_lease: has_lease(&plan.work),
                result: Err(clone_work_error(e)),
            },
            TurnEvent::Panicked(why) => TurnNext::Finish {
                keep_lease: false,
                result: Err(
                    VaultWorkError::new(plan.panic_code.as_str(), why.as_str(), false),
                ),
            },
        },
    }
}

/// What the turn of a vault's repository does at its start.
pub enum GitDispatch {
    /// The vault is gone: it leaves the schedule.
    Deactivate,
    /// The vault has no repository.
    Nothing,
    /// The turn fails before it runs, and is published as failed.
    Fail(VaultWorkError),
    Run(GitTurnPlan),
}

pub fn dispatch_git_turn_with(
    vault: Option<&VaultDefinition>,
    state_directory: &str,
    credentials: &Result<Option<HttpsCredentials>, String>,
    author: &CommitAuthor,
) -> (r: GitDispatch)
    ensures
        match vault {
            None => r is Deactivate,
            Some(vault) => match (
                git_plan(*vault, state_directory@, read_credentials(*credentials), author@),
                r,
            ) {
                (Ok(None), GitDispatch::Nothing) => true,
                (Ok(Some(plan)), GitDispatch::Run(p)) => p@ == plan,
                (Err(e), GitDispatch::Fail(f)) => f@ == e,
                _ => false,
            },
        },
{
    match vault {
        None => GitDispatch::Deactivate,
        Some(vault) => match plan_git_turn(vault, state_directory, credentials, author) {
            Ok(Some(plan)) => GitDispatch::Run(plan),
            Ok(None) => GitDispatch::Nothing,
            Err(e) => GitDispatch::Fail(e),
        },
    }
}

/// The plan of a vault's commit turn, unless the vault is gone or makes no
/// commits.
pub fn dispatch_commit_turn(
    vault: Option<&VaultDefinition>,
    state_directory: &str,
    author: &CommitAuthor,
) -> (r: Option<GitTurnPlan>)
    ensures
        plan_view(r) == (match vault {
            Some(vault) => commit_plan(*vault, state_directory@, author@),
            None => None,
        }),
{
    match vault {
        Some(vault) => plan_commit_turn(vault, state_directory, author),
        None => None,
    }
}

// ---------------------------------------------------------------------------
// Publishing a repository turn
// ---------------------------------------------------------------------------

/// What a finished commit turn does.
#[derive(Debug, Clone, PartialEq, Eq)]
pub struct CommitPublication {
    /// Whether automatic commits are held back from now on.
    pub arm_cooldown: bool,
    pub git: VaultGitStatus,
    pub error: Option<VaultWorkError>,
}

/// Publishes a commit turn: a failure is reported and holds further commits
/// back, a success ends both.
pub fn finish_commit_turn(result: &Result<(), VaultWorkError>) -> (r: CommitPublication)
    ensures
        match *result {
            Ok(_) => !r.arm_cooldown && r.git == VaultGitStatus::Ready && r.error is None,
            Err(e) => r.arm_cooldown && r.git == VaultGitStatus::Unavailable && r.error is Some
                && r.error->0@ == e@,
        },
{
    match result {
        Ok(_) => CommitPublication {
            arm_cooldown: false,
            git: VaultGitStatus::Ready,
            error: None,
        },
        Err(e) => CommitPublication {
            arm_cooldown: true,
            git: VaultGitStatus::Unavailable,
            error: Some(clone_work_error(e)),
        },
    }
}

/// What a finished exchange with the remote does.
#[derive(Debug, Clone, PartialEq, Eq)]
pub struct GitPublication {
    pub git: VaultGitStatus,
    pub error: Option<VaultWorkError>,
    /// The vault's files, if they are to be reported anew.
    pub local_content: Option<LocalContentStatus>,
    /// Whether an index turn is asked for.
    pub request_index: bool,
    /// What the schedule is told.
    pub succeeded: bool,
}

/// Publishes an exchange with the remote. A success reports the files that are
/// now there and asks for an index turn if they can be read; a failure leaves
/// what is reported of the files alone.
pub fn publish_managed_git_turn_outcome(
    result: &Result<(), VaultWorkError>,
    accepting_operations: bool,
    local_content: LocalContentStatus,
) -> (r: GitPublication)
    ensures
        match *result {
            Ok(_) => r.git == VaultGitStatus::Ready && r.error is None && r.local_content == Some(
                local_content,
            ) && r.request_index == (accepting_operations && local_content
                != LocalContentStatus::Unavailable) && r.succeeded,
            Err(e) => r.git == VaultGitStatus::Unavailable && r.error is Some && r.error->0@ == e@
                && r.local_content is None && !r.request_index && !r.succeeded,
        },
{
    match result {
        Ok(_) => {
            let readable = match local_content {
                LocalContentStatus::Unavailable => false,
                _ => true,
            };
            GitPublication {
                git: VaultGitStatus::Ready,
                error: None,
                local_content: Some(local_content),
                request_index: accepting_operations && readable,
                succeeded: true,
            }
        },
        Err(e) => GitPublication {
            git: VaultGitStatus::Unavailable,
            error: Some(clone_work_error(e)),
            local_content: None,
            request_index: false,
            succeeded: false,
        },
    }
}

// ---------------------------------------------------------------------------
// Whole turns
// ---------------------------------------------------------------------------

/// A step is over, whether or not it worked.
pub open spec fn is_over(event: IndexEvent) -> bool {
    event is Done || event is Failed
}

/// An index turn in which the notes are read and the snapshot is published reports
/// success: the vault as ready where the snapshot is fresh, and as stale where it
/// is not. Marking the old snapshot, publishing the structure and reporting it may
/// fail on the way.
pub proof fn published_turn_reports_success(
    s1: IndexStage,
    s2: IndexStage,
    s3: IndexStage,
    marked: IndexEvent,
    s4: IndexStage,
    s5: IndexStage,
    structured: IndexEvent,
    s6: IndexStage,
    reported: IndexEvent,
    s7: IndexStage,
    freshness: VaultSnapshotFreshness,
    s8: IndexStage,
)
    requires
        index_next(IndexStage::AcquireReads, IndexEvent::Done, s1),
        index_next(s1, IndexEvent::Done, s2),
        index_next(s2, IndexEvent::Done, s3),
        is_over(marked) && index_next(s3, marked, s4),
        index_next(s4, IndexEvent::Done, s5),
        is_over(structured) || structured is Nothing,
        index_next(s5, structured, s6),
        is_over(reported),
        if structured is Done {
            index_next(s6, reported, s7)
        } else {
            s7 == s6
        },
        index_next(s7, IndexEvent::Published(freshness), s8),
    ensures
        match s8 {
            IndexStage::Report { status, error, result } => {
                &&& error is None
                &&& result is Ok
                &&& freshness is Fresh ==> status == VaultSearchStatus::Ready
                &&& freshness is Stale ==> status == VaultSearchStatus::Stale
            },
            _ => false,
        },
{
}

/// An index turn whose notes cannot be read ends with that error, whether or not
/// the snapshot can be marked, and never reports the vault as ready.
pub proof fn unread_notes_end_the_turn(
    failed: IndexEvent,
    s1: IndexStage,
    marked: IndexEvent,
    s2: IndexStage,
    snapshot: Option<SnapshotStatus>,
    s3: IndexStage,
)
    requires
        failed is Failed || failed is Panicked,
        index_next(IndexStage::ReadNotes, failed, s1),
        is_over(marked) && index_next(s1, marked, s2),
        index_next(s2, IndexEvent::Snapshot(snapshot), s3),
    ensures
        match s3 {
            IndexStage::Report { status, error, result } => {
                &&& status != VaultSearchStatus::Ready
                &&& result is Err
                &&& error is Some
                &&& error->0@.code == result->Err_0@.code
                &&& error->0@.retryable == result->Err_0@.retryable
                &&& marked is Done ==> error->0@.message == result->Err_0@.message
                &&& failed matches IndexEvent::Failed { message, retryable } ==> result->Err_0@.code
                    == "vault_index_failed"@ && result->Err_0@.message == message@
                    && result->Err_0@.retryable == retryable
                &&& failed matches IndexEvent::Panicked(message) ==> result->Err_0@.code
                    == "vault_index_task_panicked"@ && result->Err_0@.message == message@
                    && !result->Err_0@.retryable
            },
            _ => false,
        },
{
}

/// An index turn that cannot begin, because the vault's reads or its refresh cannot
/// be had or nothing can be reported, ends with that error and reports nothing.
pub proof fn turn_that_cannot_begin_ends(
    stage: IndexStage,
    message: String,
    retryable: bool,
    next: IndexStage,
)
    requires
        stage is AcquireReads || stage is ReportIndexing || stage is AcquireRefresh,
        index_next(stage, IndexEvent::Failed { message, retryable }, next),
    ensures
        match next {
            IndexStage::End(Err(e)) => e@.code == "vault_index_failed"@ && e@.message == message@
                && e@.retryable == retryable,
            _ => false,
        },
{
}

/// A repository turn takes the lease first, where it needs one, and then the lock,
/// where it needs one, and only then works. It keeps the lease behind its work
/// where it has one, whether the work is done or has failed, but not where the
/// work was aborted or never began.
pub proof fn turn_takes_lease_and_lock_before_it_works(
    plan: GitTurnPlan,
    stage: TurnStage,
    event: TurnEvent,
    next: TurnNext,
)
    requires
        turn_next(plan, stage, event, next),
        stage is Work || !(event is Panicked),
    ensures
        first_stage(plan) is AcquireLease <==> needs_lease(plan.work@),
        !needs_lease(plan.work@) ==> (first_stage(plan) is AcquireLock
            <==> plan.holds_mutation_lock),
        stage is AcquireLease && event is Done ==> next == TurnNext::Step(
            if plan.holds_mutation_lock {
                TurnStage::AcquireLock
            } else {
                TurnStage::Work
            },
        ),
        stage is AcquireLock && event is Done ==> next == TurnNext::Step(TurnStage::Work),
        event is Failed || event is Panicked ==> next is Finish && next->result is Err,
        stage is Work && event is Done ==> next is Finish && next->result is Ok,
        next is Finish ==> (next->keep_lease <==> needs_lease(plan.work@) && stage is Work && !(
        event is Panicked)),
{
}

/// A vault that goes both ways is committed to under the lock, and a vault with a
/// remote has a turn whenever its credentials can be had. Where they cannot be had
/// the turn fails, and can be tried again.
pub proof fn every_repository_has_its_turn(
    vault: VaultDefinition,
    state_directory: Seq<char>,
    credentials: Result<Option<(Seq<char>, Seq<char>)>, Seq<char>>,
    author: (Seq<char>, Seq<char>),
)
    ensures
        git_mode(vault) == Some(VaultGitMode::TwoWay) ==> commit_plan(
            vault,
            state_directory,
            author,
        ) is Some && commit_plan(vault, state_directory, author)->0.holds_mutation_lock,
        vault.source is Local ==> git_plan(vault, state_directory, credentials, author) == Ok::<
            Option<PlanView>,
            WorkErrorView,
        >(None),
        !(vault.source is Local) && credentials is Ok ==> git_plan(
            vault,
            state_directory,
            credentials,
            author,
        ) matches Ok(Some(_)),
        !(vault.source is Local) && credentials is Err && !(vault.source is ExistingGit && git_mode(
            vault,
        ) == Some(VaultGitMode::LocalHistory)) ==> (git_plan(
            vault,
            state_directory,
            credentials,
            author,
        ) matches Err(e) && e.retryable),
{
}

} // verus!
