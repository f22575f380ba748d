//! Changes that touch several files: the order of their steps, and how they are
//! taken back when one fails.

use vstd::prelude::*;

use crate::attachments::AttachmentMove;
use crate::hash::{content_hash, text_hash};
use crate::note_ops::NoteMove;
use crate::text::{from_chars, join, push_all, push_str, str_eq, str_owned, to_chars};
use crate::write_types::{clone_error, ErrorView, MutationPhase, WriteError};

verus! {

// ---------------------------------------------------------------------------
// The journal
// ---------------------------------------------------------------------------

/// How one completed step is taken back.
#[derive(Debug, Clone, PartialEq, Eq)]
pub enum Compensation {
    /// Move the file from `destination` back to `source`.
    MoveBack { phase: MutationPhase, source: String, destination: String },
    /// Write `original` back, if the file still has the hash `applied_hash`.
    RestoreRewrite { path: String, original: String, applied_hash: String },
}

/// What a [`Compensation`] says.
pub enum CompensationView {
    MoveBack { phase: MutationPhase, source: Seq<char>, destination: Seq<char> },
    RestoreRewrite { path: Seq<char>, original: Seq<char>, applied_hash: Seq<char> },
}

impl View for Compensation {
    type V = CompensationView;

    open spec fn view(&self) -> CompensationView {
        match self {
            Compensation::MoveBack { phase, source, destination } => CompensationView::MoveBack {
                phase: *phase,
                source: source@,
                destination: destination@,
            },
            Compensation::RestoreRewrite { path, original, applied_hash } => {
                CompensationView::RestoreRewrite {
                    path: path@,
                    original: original@,
                    applied_hash: applied_hash@,
                }
            },
        }
    }
}

pub open spec fn compensation_views(v: Seq<Compensation>) -> Seq<CompensationView> {
    Seq::new(v.len(), |i: int| v[i]@)
}

proof fn lemma_compensations_push(v: Seq<Compensation>, x: Compensation)
    ensures
        compensation_views(v.push(x)) == compensation_views(v).push(x@),
{
    assert(compensation_views(v.push(x)) =~= compensation_views(v).push(x@));
}

/// The completed steps of a change, in order.
pub struct MutationJournal {
    completed: Vec<Compensation>,
}

impl MutationJournal {
    pub closed spec fn steps(&self) -> Seq<CompensationView> {
        compensation_views(self.completed@)
    }

    pub fn new() -> (r: Self)
        ensures
            r.steps() == Seq::<CompensationView>::empty(),
    {
        let r = MutationJournal { completed: Vec::new() };
        assert(r.steps() =~= Seq::<CompensationView>::empty());
        r
    }

    /// Records a file move. It counts as completed if it succeeded, and also if
    /// it failed but the file is at its destination and gone from its source.
    pub fn retain_completed_move(
        &mut self,
        phase: MutationPhase,
        source: &str,
        destination: &str,
        succeeded: bool,
        at_destination: bool,
        at_source: bool,
    )
        ensures
            final(self).steps() == if succeeded || (at_destination && !at_source) {
                old(self).steps().push(
                    CompensationView::MoveBack {
                        phase,
                        source: source@,
                        destination: destination@,
                    },
                )
            } else {
                old(self).steps()
            },
    {
        if succeeded || (at_destination && !at_source) {
            let step = Compensation::MoveBack {
                phase,
                source: str_owned(source),
                destination: str_owned(destination),
            };
            proof {
                lemma_compensations_push(self.completed@, step);
            }
            self.completed.push(step);
        }
    }

    /// Records the rewrite of a file whose text was `original`. It counts as
    /// completed if it succeeded, and also if it failed but the file holds the
    /// new text. Returns whether it counts.
    pub fn retain_completed_rewrite(
        &mut self,
        path: &str,
        content: &str,
        original: &str,
        succeeded: bool,
        current: Option<&str>,
    ) -> (r: bool)
        ensures
            r == (succeeded || (current is Some && current->0@ == content@)),
            final(self).steps() == if r {
                old(self).steps().push(
                    CompensationView::RestoreRewrite {
                        path: path@,
                        original: original@,
                        applied_hash: text_hash(content@),
                    },
                )
            } else {
                old(self).steps()
            },
    {
        let landed = match current {
            Some(text) => str_eq(text, content),
            None => false,
        };
        if succeeded || landed {
            let step = Compensation::RestoreRewrite {
                path: str_owned(path),
                original: str_owned(original),
                applied_hash: content_hash(content),
            };
            proof {
                lemma_compensations_push(self.completed@, step);
            }
            self.completed.push(step);
            true
        } else {
            false
        }
    }

    /// Starts taking the change back because of `cause`.
    pub fn rollback(self, cause: WriteError) -> (r: Rollback)
        ensures
            r.pending() == self.steps(),
            r.failures() == Seq::<CompensationView>::empty(),
            r.cause() == cause@,
            r.attempted() == false,
    {
        let r = Rollback {
            pending: self.completed,
            failures: Vec::new(),
            cause,
            attempted: false,
        };
        assert(r.failures() =~= Seq::<CompensationView>::empty());
        r
    }
}

// ---------------------------------------------------------------------------
// Taking a change back
// ---------------------------------------------------------------------------

/// The taking back of a change: the last completed step first. A step that
/// cannot be taken back is remembered, and the others are still tried.
pub struct Rollback {
    pending: Vec<Compensation>,
    failures: Vec<Compensation>,
    cause: WriteError,
    attempted: bool,
}

/// What a step's compensation is called.
pub open spec fn compensation_label(c: CompensationView) -> Seq<char> {
    match c {
        CompensationView::MoveBack { phase, .. } => match phase {
            MutationPhase::Note => "restore moved note"@,
            _ => "restore moved asset"@,
        },
        CompensationView::RestoreRewrite { .. } => "restore rewritten note"@,
    }
}

/// The files that a step's compensation concerns.
pub open spec fn compensation_paths(c: CompensationView) -> Seq<char> {
    match c {
        CompensationView::MoveBack { source, destination, .. } => source + ", "@ + destination,
        CompensationView::RestoreRewrite { path, .. } => path,
    }
}

/// One step that could not be taken back.
pub open spec fn failure_text(c: CompensationView) -> Seq<char> {
    compensation_label(c) + " ["@ + compensation_paths(c) + "]"@
}

pub open spec fn failure_texts(v: Seq<CompensationView>) -> Seq<Seq<char>> {
    Seq::new(v.len(), |i: int| failure_text(v[i]))
}

/// An error with a remark behind its message.
pub open spec fn annotated(e: ErrorView, remark: Seq<char>) -> ErrorView {
    match e {
        ErrorView::Conflict(m) => ErrorView::Conflict(m + remark),
        ErrorView::InvalidInput(m) => ErrorView::InvalidInput(m + remark),
        ErrorView::Io(m) => ErrorView::Io(m + remark),
    }
}

/// A failure that a person has to resolve.
pub open spec fn recovery_error(details: Seq<char>) -> ErrorView {
    ErrorView::Io("vault recovery required: "@ + details)
}

/// What a change that was taken back reports: its cause alone if no step was
/// completed, its cause with a remark if every step was taken back, and
/// otherwise the steps that were not.
pub open spec fn rollback_error(
    cause: ErrorView,
    attempted: bool,
    failures: Seq<CompensationView>,
) -> ErrorView {
    if !attempted {
        cause
    } else if failures.len() == 0 {
        annotated(cause, "; rollback succeeded"@)
    } else {
        recovery_error(
            "vault mutation rollback was incomplete: "@ + join(failure_texts(failures), "; "@),
        )
    }
}

pub fn recovery_required(details: &[char]) -> (r: WriteError)
    ensures
        r@ == recovery_error(details@),
{
    let mut out = to_chars("vault recovery required: ");
    push_all(&mut out, details);
    WriteError::Io(from_chars(out.as_slice()))
}

/// The label of a step that could not be taken back.
pub fn label_of(c: &Compensation) -> (r: &'static str)
    ensures
        r@ == compensation_label(c@),
{
    match c {
        Compensation::MoveBack { phase, .. } => match phase {
            MutationPhase::Note => "restore moved note",
            _ => "restore moved asset",
        },
        Compensation::RestoreRewrite { .. } => "restore rewritten note",
    }
}

fn make_failure_text(c: &Compensation) -> (r: Vec<char>)
    ensures
        r@ == failure_text(c@),
{
    let mut paths: Vec<char> = Vec::new();
    match c {
        Compensation::MoveBack { source, destination, .. } => {
            push_str(&mut paths, source.as_str());
            push_str(&mut paths, ", ");
            push_str(&mut paths, destination.as_str());
        },
        Compensation::RestoreRewrite { path, .. } => {
            push_str(&mut paths, path.as_str());
        },
    }
    assert(paths@ =~= compensation_paths(c@));
    let mut out = to_chars(label_of(c));
    push_str(&mut out, " [");
    push_all(&mut out, paths.as_slice());
    push_str(&mut out, "]");
    out
}

pub fn annotate_rollback_succeeded(error: &WriteError) -> (r: WriteError)
    ensures
        r@ == annotated(error@, "; rollback succeeded"@),
{
    match error {
        WriteError::Conflict(m) => {
            let mut out = to_chars(m.as_str());
            push_str(&mut out, "; rollback succeeded");
            WriteError::Conflict(from_chars(out.as_slice()))
        },
        WriteError::InvalidInput(m) => {
            let mut out = to_chars(m.as_str());
            push_str(&mut out, "; rollback succeeded");
            WriteError::InvalidInput(from_chars(out.as_slice()))
        },
        WriteError::Io(m) => {
            let mut out = to_chars(m.as_str());
            push_str(&mut out, "; rollback succeeded");
            WriteError::Io(from_chars(out.as_slice()))
        },
    }
}

impl Rollback {
    pub closed spec fn pending(&self) -> Seq<CompensationView> {
        compensation_views(self.pending@)
    }

    pub closed spec fn failures(&self) -> Seq<CompensationView> {
        compensation_views(self.failures@)
    }

    pub closed spec fn cause(&self) -> ErrorView {
        self.cause@
    }

    pub closed spec fn attempted(&self) -> bool {
        self.attempted
    }

    /// The step to take back next: the last one still pending.
    pub fn next_step(&self) -> (r: Option<&Compensation>)
        ensures
            match r {
                Some(step) => self.pending().len() > 0 && step@ == self.pending().last(),
                None => self.pending().len() == 0,
            },
    {
        if self.pending.len() == 0 {
            None
        } else {
            Some(&self.pending[self.pending.len() - 1])
        }
    }

    /// Records whether the next step could be taken back.
    pub fn record(&mut self, succeeded: bool)
        requires
            old(self).pending().len() > 0,
        ensures
            final(self).pending() == old(self).pending().drop_last(),
            final(self).attempted() == true,
            final(self).cause() == old(self).cause(),
            final(self).failures() == if succeeded {
                old(self).failures()
            } else {
                old(self).failures().push(old(self).pending().last())
            },
    {
        let ghost was = self.pending@;
        self.attempted = true;
        match self.pending.pop() {
            None => {},
            Some(step) => {
                assert(compensation_views(self.pending@) =~= compensation_views(was).drop_last());
                if !succeeded {
                    proof {
                        lemma_compensations_push(self.failures@, step);
                    }
                    self.failures.push(step);
                }
            },
        }
    }

    /// What the change reports.
    pub fn finish(&self) -> (r: WriteError)
        requires
            self.pending().len() == 0,
        ensures
            r@ == rollback_error(self.cause(), self.attempted(), self.failures()),
    {
        if !self.attempted {
            return clone_error(&self.cause);
        }
        if self.failures.len() == 0 {
            return annotate_rollback_succeeded(&self.cause);
        }
        let ghost fv = failure_texts(self.failures());
        let mut parts: Vec<Vec<char>> = Vec::new();
        let mut i: usize = 0;
        while i < self.failures.len()
            invariant
                0 <= i <= self.failures@.len(),
                fv == failure_texts(self.failures()),
                crate::text::texts(parts@) == fv.take(i as int),
            decreases self.failures@.len() - i,
        {
            let text = make_failure_text(&self.failures[i]);
            proof {
                crate::text::lemma_texts_push(parts@, text);
            }
            parts.push(text);
            i = i + 1;
            assert(crate::text::texts(parts@) =~= fv.take(i as int));
        }
        assert(fv.take(i as int) =~= fv);
        let sep = to_chars("; ");
        let list = crate::text::joined(&parts, sep.as_slice());
        let mut details = to_chars("vault mutation rollback was incomplete: ");
        push_all(&mut details, list.as_slice());
        recovery_required(details.as_slice())
    }
}

// ---------------------------------------------------------------------------
// Taking every step back restores the vault
// ---------------------------------------------------------------------------

/// One step of a change: a file moves, or gets a new text.
pub enum Step {
    Move { phase: MutationPhase, source: Seq<char>, destination: Seq<char> },
    Rewrite { path: Seq<char>, content: Seq<char> },
}

/// The step can be carried out: the file is there, and nothing is at its
/// destination.
pub open spec fn possible(files: Map<Seq<char>, Seq<char>>, step: Step) -> bool {
    match step {
        Step::Move { source, destination, .. } => files.contains_key(source)
            && !files.contains_key(destination),
        Step::Rewrite { path, .. } => files.contains_key(path),
    }
}

/// The files behind a step.
pub open spec fn carried_out(files: Map<Seq<char>, Seq<char>>, step: Step) -> Map<
    Seq<char>,
    Seq<char>,
> {
    match step {
        Step::Move { source, destination, .. } => files.remove(source).insert(
            destination,
            files[source],
        ),
        Step::Rewrite { path, content } => files.insert(path, content),
    }
}

/// What the journal records of a step.
pub open spec fn recorded(files: Map<Seq<char>, Seq<char>>, step: Step) -> CompensationView {
    match step {
        Step::Move { phase, source, destination } => CompensationView::MoveBack {
            phase,
            source,
            destination,
        },
        Step::Rewrite { path, content } => CompensationView::RestoreRewrite {
            path,
            original: files[path],
            applied_hash: text_hash(content),
        },
    }
}

/// The files behind a compensation. A rewritten file is only restored if it
/// still has the hash it was given.
pub open spec fn taken_back(files: Map<Seq<char>, Seq<char>>, c: CompensationView) -> Map<
    Seq<char>,
    Seq<char>,
> {
    match c {
        CompensationView::MoveBack { source, destination, .. } => if files.contains_key(destination)
            && !files.contains_key(source) {
            files.remove(destination).insert(source, files[destination])
        } else {
            files
        },
        CompensationView::RestoreRewrite { path, original, applied_hash } => if files.contains_key(
            path,
        ) && text_hash(files[path]) == applied_hash {
            files.insert(path, original)
        } else {
            files
        },
    }
}

/// The files behind the first `n` steps.
pub open spec fn after_steps(files: Map<Seq<char>, Seq<char>>, steps: Seq<Step>, n: int) -> Map<
    Seq<char>,
    Seq<char>,
>
    decreases n,
{
    if n <= 0 {
        files
    } else {
        carried_out(after_steps(files, steps, n - 1), steps[n - 1])
    }
}

/// What the journal holds behind the first `n` steps.
pub open spec fn journal_of(
    files: Map<Seq<char>, Seq<char>>,
    steps: Seq<Step>,
    n: int,
) -> Seq<CompensationView>
    decreases n,
{
    if n <= 0 {
        seq![]
    } else {
        journal_of(files, steps, n - 1).push(
            recorded(after_steps(files, steps, n - 1), steps[n - 1]),
        )
    }
}

/// The files behind taking back the journal, its last entry first.
pub open spec fn rolled_back(
    files: Map<Seq<char>, Seq<char>>,
    journal: Seq<CompensationView>,
) -> Map<Seq<char>, Seq<char>>
    decreases journal.len(),
{
    if journal.len() == 0 {
        files
    } else {
        rolled_back(taken_back(files, journal.last()), journal.drop_last())
    }
}

/// Whatever the step at which a change fails, taking back its journal leaves
/// every file as it was before the change.
pub proof fn rollback_restores_every_file(
    files: Map<Seq<char>, Seq<char>>,
    steps: Seq<Step>,
    n: int,
)
    requires
        0 <= n <= steps.len(),
        forall|k: int|
            0 <= k < n ==> possible(after_steps(files, steps, k), #[trigger] steps[k]),
    ensures
        rolled_back(after_steps(files, steps, n), journal_of(files, steps, n)) == files,
    decreases n,
{
    if n > 0 {
        let before = after_steps(files, steps, n - 1);
        let step = steps[n - 1];
        let journal = journal_of(files, steps, n);
        assert(possible(before, step));
        assert(journal.drop_last() =~= journal_of(files, steps, n - 1));
        assert(taken_back(carried_out(before, step), recorded(before, step)) =~= before);
        rollback_restores_every_file(files, steps, n - 1);
    }
}

// ---------------------------------------------------------------------------
// The steps of a note's move
// ---------------------------------------------------------------------------

/// What a note's move does next.
#[derive(Debug, Clone, PartialEq, Eq)]
pub enum MutationAction {
    /// Move the note's file.
    MoveNote,
    /// Move the file with this number.
    MoveAsset(usize),
    /// Carry out the rewrite with this number.
    Rewrite(usize),
    /// Read the note's text at its destination.
    ReadBack,
    Finished,
}

/// The action behind `done` completed ones: first the note, then its files,
/// then the rewrites, and last the note's text is read back.
pub open spec fn action_after(moves: nat, rewrites: nat, done: int) -> MutationAction {
    if done <= 0 {
        MutationAction::MoveNote
    } else if done <= moves {
        MutationAction::MoveAsset((done - 1) as usize)
    } else if done <= moves + rewrites {
        MutationAction::Rewrite((done - 1 - moves) as usize)
    } else if done == moves + rewrites + 1 {
        MutationAction::ReadBack
    } else {
        MutationAction::Finished
    }
}

/// The next action of a note's move, given how many are done.
pub fn next_action(m: &NoteMove, done: usize) -> (r: MutationAction)
    ensures
        r == action_after(m@.asset_moves.len(), m@.rewrites.len(), done as int),
{
    let moves: usize = m.asset_moves.len();
    let rewrites: usize = m.rewrites.len();
    assert(m@.asset_moves.len() == moves);
    assert(m@.rewrites.len() == rewrites);
    if done == 0 {
        MutationAction::MoveNote
    } else if done <= moves {
        MutationAction::MoveAsset(done - 1)
    } else if done - moves <= rewrites {
        MutationAction::Rewrite(done - 1 - moves)
    } else if done - moves - rewrites == 1 {
        MutationAction::ReadBack
    } else {
        MutationAction::Finished
    }
}

/// The action of an attachment's move behind `done` completed ones: first the
/// file, then the rewrites.
pub open spec fn attachment_action_after(rewrites: nat, done: int) -> MutationAction {
    if done <= 0 {
        MutationAction::MoveAsset(0)
    } else if done <= rewrites {
        MutationAction::Rewrite((done - 1) as usize)
    } else {
        MutationAction::Finished
    }
}

/// The next action of an attachment's move, given how many are done.
pub fn next_attachment_action(m: &AttachmentMove, taken: usize) -> (r: MutationAction)
    ensures
        r == attachment_action_after(m@.rewrites.len(), taken as int),
{
    let rewrites: usize = m.rewrites.len();
    assert(m@.rewrites.len() == rewrites);
    if taken == 0 {
        MutationAction::MoveAsset(0)
    } else if taken <= rewrites {
        MutationAction::Rewrite(taken - 1)
    } else {
        MutationAction::Finished
    }
}

/// A note's move has its actions one behind the other: the note's file, each file
/// moved along by its number, each rewrite by its number, reading back, and then
/// nothing.
pub proof fn actions_follow_one_another(moves: nat, rewrites: nat, done: int, k: usize)
    requires
        0 <= done,
    ensures
        action_after(moves, rewrites, 0) == MutationAction::MoveNote,
        k < moves ==> action_after(moves, rewrites, 1 + k) == MutationAction::MoveAsset(k),
        k < rewrites ==> action_after(moves, rewrites, 1 + moves + k) == MutationAction::Rewrite(k),
        action_after(moves, rewrites, (1 + moves + rewrites) as int) == MutationAction::ReadBack,
        action_after(moves, rewrites, done) is Finished <==> done > 1 + moves + rewrites,
        attachment_action_after(rewrites, 0) == MutationAction::MoveAsset(0),
        k < rewrites ==> attachment_action_after(rewrites, 1 + k) == MutationAction::Rewrite(k),
        attachment_action_after(rewrites, done) is Finished <==> done > rewrites,
{
}

} // verus!
