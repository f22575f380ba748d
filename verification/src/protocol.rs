//! The steps of a guarded write and of a guarded move, and how each step's
//! result decides about the next.
//!
//! The file system is reached through single steps. A machine names the next
//! step, and is told what came of it.

use vstd::prelude::*;
use vstd::slice::slice_to_vec;

use crate::assets::plain_part;
use crate::hash::{content_hash, text_hash};
use crate::mutation::{recovery_error, recovery_required};
use crate::note_ops::{changed_note, changed_note_error};
use crate::paths::{file_name, file_name_of, named_parts};
use crate::text::{
    chars_eq, contains_char, from_chars, lemma_strs_push, lemma_texts_push, opt_text, push_str,
    split, split_on, str_owned, strs, texts, to_chars, trim, trimmed,
};
use crate::write_types::{ErrorView, WriteError};

verus! {

/// How many names are tried for a temporary file.
pub const RESERVE_ATTEMPTS: usize = 32;

/// The start of the name of the temporary file that a write parks its bytes in.
pub open spec fn sidecar_prefix(filename: Seq<char>) -> Seq<char> {
    "."@ + filename + ".hatchdoor-tmp-"@
}

pub fn temporary_sidecar_prefix(filename: &str) -> (r: String)
    ensures
        r@ == sidecar_prefix(filename@),
{
    let mut out = to_chars(".");
    push_str(&mut out, filename);
    push_str(&mut out, ".hatchdoor-tmp-");
    from_chars(out.as_slice())
}

// ---------------------------------------------------------------------------
// The way to a file
// ---------------------------------------------------------------------------

/// The name a path is reported under: its file name, without the folders it
/// stands in.
pub open spec fn reported_name(path: Seq<char>) -> Seq<char> {
    match file_name(path) {
        Some(name) => name,
        None => "<vault path>"@,
    }
}

pub fn bounded_write_name(path: &str) -> (r: String)
    ensures
        r@ == reported_name(path@),
{
    let chars = to_chars(path);
    match file_name_of(chars.as_slice()) {
        Some(name) => from_chars(name.as_slice()),
        None => str_owned("<vault path>"),
    }
}

/// How the folder of a file is reached: folders to open one inside the other
/// from the root, then perhaps a refusal, and the file's name.
#[derive(Debug, Clone, PartialEq, Eq)]
pub struct Descent {
    pub folders: Vec<String>,
    pub refusal: Option<String>,
    pub name: String,
}

/// What a [`Descent`] says.
pub struct DescentView {
    pub folders: Seq<Seq<char>>,
    pub refusal: Option<Seq<char>>,
    pub name: Seq<char>,
}

impl View for Descent {
    type V = DescentView;

    open spec fn view(&self) -> DescentView {
        DescentView {
            folders: strs(self.folders@),
            refusal: opt_text(self.refusal),
            name: self.name@,
        }
    }
}

/// Why a part of a path is not opened.
pub open spec fn part_refusal(part: Seq<char>) -> Option<Seq<char>> {
    if part == seq!['.', '.'] {
        Some("write path has unsupported component"@)
    } else if part.contains('\0') {
        Some("path component has NUL"@)
    } else {
        None
    }
}

/// The first part from `i` on that is not opened, or the number of parts.
pub open spec fn first_refused(parts: Seq<Seq<char>>, i: int) -> int
    decreases parts.len() - i,
{
    if i < 0 || i >= parts.len() {
        parts.len() as int
    } else if part_refusal(parts[i]) is Some {
        i
    } else {
        first_refused(parts, i + 1)
    }
}

/// The way to an absolute path, or why there is none.
pub open spec fn descent_to(path: Seq<char>) -> Result<DescentView, Seq<char>> {
    let parts = named_parts(split(path, '/'));
    match file_name(path) {
        None => Err("write destination has no filename"@),
        Some(name) => if name.contains('\0') {
            Err("write destination filename has NUL"@)
        } else if path[0] != '/' {
            Err("write destination must be absolute"@)
        } else {
            let above = parts.drop_last();
            let n = first_refused(above, 0);
            Ok(
                DescentView {
                    folders: above.take(n),
                    refusal: if n < above.len() {
                        part_refusal(above[n])
                    } else {
                        None
                    },
                    name,
                },
            )
        },
    }
}

fn list_named_parts(path: &[char]) -> (r: Vec<Vec<char>>)
    ensures
        texts(r@) == named_parts(split(path@, '/')),
{
    let parts = split_on(path, '/');
    let ghost pv = split(path@, '/');
    let mut out: Vec<Vec<char>> = Vec::new();
    let mut i: usize = 0;
    assert(texts(out@) =~= named_parts(pv.take(0)));
    while i < parts.len()
        invariant
            0 <= i <= parts@.len(),
            texts(parts@) == pv,
            texts(out@) == named_parts(pv.take(i as int)),
        decreases parts@.len() - i,
    {
        proof {
            assert(pv.take(i + 1).drop_last() =~= pv.take(i as int));
            assert(pv.take(i + 1).last() == pv[i as int]);
            assert(texts(parts@)[i as int] == parts@[i as int]@);
        }
        let part = &parts[i];
        let skip = part.len() == 0 || (part.len() == 1 && part[0] == '.');
        proof {
            assert(part@.len() == 1 && part@[0] == '.' ==> part@ =~= seq!['.']);
        }
        if !skip {
            let piece = slice_to_vec(part.as_slice());
            proof {
                lemma_texts_push(out@, piece);
            }
            out.push(piece);
        }
        i = i + 1;
    }
    assert(pv.take(i as int) =~= pv);
    out
}

fn refuse_part(part: &[char]) -> (r: Option<String>)
    ensures
        opt_text(r) == part_refusal(part@),
{
    let dots = part.len() == 2 && part[0] == '.' && part[1] == '.';
    proof {
        assert(dots ==> part@ =~= seq!['.', '.']);
    }
    if dots {
        Some(str_owned("write path has unsupported component"))
    } else if contains_char(part, '\0') {
        Some(str_owned("path component has NUL"))
    } else {
        None
    }
}

/// Plans the way to an absolute path. The folders are to be opened in order,
/// and the refusal, where there is one, is met behind the last of them.
pub fn plan_descent(path: &str) -> (r: Result<Descent, String>)
    ensures
        match r {
            Ok(d) => descent_to(path@) == Ok::<DescentView, Seq<char>>(d@),
            Err(e) => descent_to(path@) == Err::<DescentView, Seq<char>>(e@),
        },
{
    let chars = to_chars(path);
    let name = match file_name_of(chars.as_slice()) {
        None => {
            return Err(str_owned("write destination has no filename"));
        },
        Some(name) => name,
    };
    if contains_char(name.as_slice(), '\0') {
        return Err(str_owned("write destination filename has NUL"));
    }
    proof {
        if chars@.len() == 0 {
            reveal_with_fuel(named_parts, 2);
            assert(split(path@, '/').len() == 1);
            assert(split(path@, '/')[0].len() == 0);
        }
    }
    if chars[0] != '/' {
        return Err(str_owned("write destination must be absolute"));
    }
    let parts = list_named_parts(chars.as_slice());
    let ghost pv = named_parts(split(path@, '/'));
    let ghost above = pv.drop_last();
    let mut folders: Vec<String> = Vec::new();
    let mut i: usize = 0;
    assert(strs(folders@) =~= above.take(0));
    let last: usize = parts.len() - 1;
    while i < last
        invariant
            0 <= i <= last,
            last == parts@.len() - 1,
            pv == texts(parts@),
            pv == named_parts(split(path@, '/')),
            above == pv.drop_last(),
            file_name(path@) == Some(name@),
            !name@.contains('\0'),
            path@.len() > 0,
            path@[0] == '/',
            strs(folders@) == above.take(i as int),
            first_refused(above, 0) == first_refused(above, i as int),
        decreases parts@.len() - i,
    {
        assert(above[i as int] == parts@[i as int]@);
        match refuse_part(parts[i].as_slice()) {
            Some(message) => {
                return Ok(
                    Descent {
                        folders,
                        refusal: Some(message),
                        name: from_chars(name.as_slice()),
                    },
                );
            },
            None => {
                let folder = from_chars(parts[i].as_slice());
                proof {
                    lemma_strs_push(folders@, folder);
                    assert(above.take(i + 1) =~= above.take(i as int).push(above[i as int]));
                }
                folders.push(folder);
            },
        }
        i = i + 1;
    }
    Ok(Descent { folders, refusal: None, name: from_chars(name.as_slice()) })
}

/// No folder on the way is `..`, and the name is plain: what is opened lies
/// below the root, one name at a time.
pub proof fn way_opens_plain_names(path: Seq<char>)
    ensures
        match descent_to(path) {
            Ok(d) => (forall|i: int|
                0 <= i < d.folders.len() ==> plain_part(#[trigger] d.folders[i])) && plain_part(
                d.name,
            ),
            Err(_) => true,
        },
{
    let parts = split(path, '/');
    lemma_named_parts_are_named(parts);
    match descent_to(path) {
        Ok(d) => {
            let above = named_parts(parts).drop_last();
            lemma_first_refused(above, 0);
            assert forall|i: int| 0 <= i < d.folders.len() implies plain_part(
                #[trigger] d.folders[i],
            ) by {
                assert(d.folders[i] == above[i]);
                assert(above[i] == named_parts(parts)[i]);
            }
            assert(d.name == named_parts(parts)[named_parts(parts).len() - 1]);
        },
        Err(_) => {},
    }
}

proof fn lemma_named_parts_are_named(parts: Seq<Seq<char>>)
    ensures
        forall|i: int|
            0 <= i < named_parts(parts).len() ==> (#[trigger] named_parts(parts)[i]).len() > 0
                && named_parts(parts)[i] != seq!['.'],
    decreases parts.len(),
{
    if parts.len() > 0 {
        let front = named_parts(parts.drop_last());
        lemma_named_parts_are_named(parts.drop_last());
        assert forall|i: int| 0 <= i < named_parts(parts).len() implies (
        #[trigger] named_parts(parts)[i]).len() > 0 && named_parts(parts)[i] != seq!['.'] by {
            if i < front.len() {
                assert(named_parts(parts)[i] == front[i]);
            }
        }
    }
}

proof fn lemma_first_refused(parts: Seq<Seq<char>>, i: int)
    requires
        0 <= i <= parts.len(),
    ensures
        i <= first_refused(parts, i) <= parts.len(),
        forall|k: int|
            i <= k < first_refused(parts, i) ==> part_refusal(#[trigger] parts[k]) is None,
    decreases parts.len() - i,
{
    if i < parts.len() && part_refusal(parts[i]) is None {
        lemma_first_refused(parts, i + 1);
    }
}

// ---------------------------------------------------------------------------
// Steps and their results
// ---------------------------------------------------------------------------

/// What stands at a path, links not followed.
#[derive(Debug, Clone, Copy, PartialEq, Eq, Structural)]
pub enum EntryKind {
    Missing,
    Regular,
    Symlink,
    Other,
}

/// What came of a step.
#[derive(Debug, Clone, PartialEq, Eq)]
pub enum StepResult {
    Done,
    /// The step failed, with the reason.
    Failed(String),
    /// The name is already taken.
    Taken,
    /// No random name could be made, with the reason.
    NoEntropy(String),
    /// The text that was read.
    Text(String),
    /// What stands at the destination.
    Found(EntryKind),
}

/// What a [`StepResult`] says.
pub enum ResultView {
    Done,
    Failed(Seq<char>),
    Taken,
    NoEntropy(Seq<char>),
    Text(Seq<char>),
    Found(EntryKind),
}

impl View for StepResult {
    type V = ResultView;

    open spec fn view(&self) -> ResultView {
        match self {
            StepResult::Done => ResultView::Done,
            StepResult::Failed(w) => ResultView::Failed(w@),
            StepResult::Taken => ResultView::Taken,
            StepResult::NoEntropy(w) => ResultView::NoEntropy(w@),
            StepResult::Text(t) => ResultView::Text(t@),
            StepResult::Found(k) => ResultView::Found(*k),
        }
    }
}

fn message2(a: &str, b: &str) -> (r: String)
    ensures
        r@ == a@ + b@,
{
    let mut out = to_chars(a);
    push_str(&mut out, b);
    from_chars(out.as_slice())
}

fn message3(a: &str, b: &str, c: &str) -> (r: String)
    ensures
        r@ == a@ + b@ + c@,
{
    let mut out = to_chars(a);
    push_str(&mut out, b);
    push_str(&mut out, c);
    from_chars(out.as_slice())
}

fn message4(a: &str, b: &str, c: &str, d: &str) -> (r: String)
    ensures
        r@ == a@ + b@ + c@ + d@,
{
    let mut out = to_chars(a);
    push_str(&mut out, b);
    push_str(&mut out, c);
    push_str(&mut out, d);
    from_chars(out.as_slice())
}

// ---------------------------------------------------------------------------
// The guarded write
// ---------------------------------------------------------------------------

/// The names that a write's messages use.
pub struct WriteContext {
    /// The destination, as errors name it.
    pub label: String,
    /// The destination's file name.
    pub note: String,
    /// The temporary file's name, once there is one.
    pub sidecar: String,
    /// The hash that the replaced text must have; `None` replaces any file.
    pub expected: Option<String>,
}

/// A step of a guarded write.
#[derive(Debug, Clone, PartialEq, Eq)]
pub enum WriteStage {
    /// Open the destination's folder.
    OpenParent,
    /// Create a temporary file under a random name; `attempts` have failed.
    Reserve { attempts: usize },
    /// Write the new bytes into the temporary file.
    Fill,
    /// Exchange the temporary file and the destination.
    Exchange,
    /// Read the replaced text, now in the temporary file.
    ReadBack,
    /// Exchange back, because the replaced text could not be read.
    UndoUnread { why: String },
    /// Exchange back, because the replaced text is not the expected one.
    UndoChanged { found: String },
    /// Look at the destination.
    Inspect,
    /// Rename the temporary file to the destination.
    Rename,
}

/// What a [`WriteStage`] says.
pub enum WriteStageView {
    OpenParent,
    Reserve { attempts: int },
    Fill,
    Exchange,
    ReadBack,
    UndoUnread { why: Seq<char> },
    UndoChanged { found: Seq<char> },
    Inspect,
    Rename,
}

impl View for WriteStage {
    type V = WriteStageView;

    open spec fn view(&self) -> WriteStageView {
        match self {
            WriteStage::OpenParent => WriteStageView::OpenParent,
            WriteStage::Reserve { attempts } => WriteStageView::Reserve {
                attempts: *attempts as int,
            },
            WriteStage::Fill => WriteStageView::Fill,
            WriteStage::Exchange => WriteStageView::Exchange,
            WriteStage::ReadBack => WriteStageView::ReadBack,
            WriteStage::UndoUnread { why } => WriteStageView::UndoUnread { why: why@ },
            WriteStage::UndoChanged { found } => WriteStageView::UndoChanged { found: found@ },
            WriteStage::Inspect => WriteStageView::Inspect,
            WriteStage::Rename => WriteStageView::Rename,
        }
    }
}

/// How a write ended.
#[derive(Debug, Clone, PartialEq, Eq)]
pub enum WriteEnd {
    /// The destination holds the new bytes.
    Written,
    /// The destination is as it was.
    Refused(WriteError),
    /// The destination holds the new bytes and should not.
    Recovery(WriteError),
}

/// What a [`WriteEnd`] says.
pub enum WriteEndView {
    Written,
    Refused(ErrorView),
    Recovery(ErrorView),
}

impl View for WriteEnd {
    type V = WriteEndView;

    open spec fn view(&self) -> WriteEndView {
        match self {
            WriteEnd::Written => WriteEndView::Written,
            WriteEnd::Refused(e) => WriteEndView::Refused(e@),
            WriteEnd::Recovery(e) => WriteEndView::Recovery(e@),
        }
    }
}

/// What a write does next.
#[derive(Debug, Clone, PartialEq, Eq)]
pub enum WriteNext {
    Step(WriteStage),
    /// The write is over. `unlink` says to remove the temporary file.
    Finish { unlink: bool, end: WriteEnd },
}

/// What a [`WriteNext`] says.
pub enum WriteNextView {
    Step(WriteStageView),
    Finish { unlink: bool, end: WriteEndView },
}

impl View for WriteNext {
    type V = WriteNextView;

    open spec fn view(&self) -> WriteNextView {
        match self {
            WriteNext::Step(s) => WriteNextView::Step(s@),
            WriteNext::Finish { unlink, end } => WriteNextView::Finish { unlink: *unlink, end: end@ },
        }
    }
}

/// The result is one that the step can have.
pub open spec fn write_fits(stage: WriteStageView, result: ResultView) -> bool {
    match stage {
        WriteStageView::Reserve { attempts } => 0 <= attempts < RESERVE_ATTEMPTS && (result is Done
            || result is Failed || result is Taken || result is NoEntropy),
        WriteStageView::ReadBack => result is Text || result is Failed,
        WriteStageView::Inspect => result is Found || result is Failed,
        _ => result is Done || result is Failed,
    }
}

pub open spec fn refused(e: ErrorView) -> WriteNextView {
    WriteNextView::Finish { unlink: false, end: WriteEndView::Refused(e) }
}

pub open spec fn refused_clean(e: ErrorView) -> WriteNextView {
    WriteNextView::Finish { unlink: true, end: WriteEndView::Refused(e) }
}

/// The report of a write whose replaced text could not be read and which could
/// not be taken back.
pub open spec fn unread_recovery(
    note: Seq<char>,
    sidecar: Seq<char>,
    why: Seq<char>,
    undo: Seq<char>,
) -> ErrorView {
    recovery_error(
        "note '"@ + note + "' was replaced, its prior content could not be read back ("@ + why
            + "), and the replacement could not be undone ("@ + undo
            + "). The new content is committed and was never checked against the expected hash; the prior content is in '"@
            + sidecar + "' beside it if that file still exists."@,
    )
}

/// The report of a write over a changed note which could not be taken back.
pub open spec fn changed_recovery(note: Seq<char>, sidecar: Seq<char>, undo: Seq<char>) -> ErrorView {
    recovery_error(
        "note '"@ + note
            + "' changed since it was read, and the replacement could not be undone ("@ + undo
            + "). The new content is committed over that change, whose content is in '"@ + sidecar
            + "' beside it if that file still exists."@,
    )
}

/// The refusal to replace what stands at a destination.
pub open spec fn unsafe_destination(kind: EntryKind, label: Seq<char>) -> Option<ErrorView> {
    match kind {
        EntryKind::Symlink => Some(
            ErrorView::Conflict("refusing to replace symlink destination '"@ + label + "'"@),
        ),
        EntryKind::Other => Some(
            ErrorView::Conflict("refusing to replace non-file destination '"@ + label + "'"@),
        ),
        _ => None,
    }
}

/// What a write does behind a step.
pub open spec fn write_next(
    label: Seq<char>,
    note: Seq<char>,
    sidecar: Seq<char>,
    expected: Option<Seq<char>>,
    stage: WriteStageView,
    result: ResultView,
) -> WriteNextView {
    match (stage, result) {
        (WriteStageView::OpenParent, ResultView::Done) => WriteNextView::Step(
            WriteStageView::Reserve { attempts: 0 },
        ),
        (WriteStageView::OpenParent, ResultView::Failed(why)) => refused(
            ErrorView::Io("failed to open verified parent for '"@ + label + "': "@ + why),
        ),
        (WriteStageView::Reserve { .. }, ResultView::Done) => WriteNextView::Step(
            WriteStageView::Fill,
        ),
        (WriteStageView::Reserve { attempts }, ResultView::Taken) => if attempts + 1
            < RESERVE_ATTEMPTS {
            WriteNextView::Step(WriteStageView::Reserve { attempts: attempts + 1 })
        } else {
            refused(
                ErrorView::Io("failed to reserve a unique temporary file after 32 attempts"@),
            )
        },
        (WriteStageView::Reserve { .. }, ResultView::NoEntropy(why)) => refused(
            ErrorView::Io("failed to generate temporary filename entropy: "@ + why),
        ),
        (WriteStageView::Reserve { .. }, ResultView::Failed(why)) => refused(
            ErrorView::Io("failed to create a temporary file beside '"@ + note + "': "@ + why),
        ),
        (WriteStageView::Fill, ResultView::Done) => if expected is Some {
            WriteNextView::Step(WriteStageView::Exchange)
        } else {
            WriteNextView::Step(WriteStageView::Inspect)
        },
        (WriteStageView::Fill, ResultView::Failed(why)) => refused_clean(
            ErrorView::Io("failed to write temporary file for '"@ + label + "': "@ + why),
        ),
        (WriteStageView::Exchange, ResultView::Done) => WriteNextView::Step(
            WriteStageView::ReadBack,
        ),
        (WriteStageView::Exchange, ResultView::Failed(why)) => refused(ErrorView::Io(why)),
        (WriteStageView::ReadBack, ResultView::Text(prior)) => if expected is Some && text_hash(
            prior,
        ) == trim(expected->0) {
            WriteNextView::Finish { unlink: true, end: WriteEndView::Written }
        } else {
            WriteNextView::Step(WriteStageView::UndoChanged { found: text_hash(prior) })
        },
        (WriteStageView::ReadBack, ResultView::Failed(why)) => WriteNextView::Step(
            WriteStageView::UndoUnread { why },
        ),
        (WriteStageView::UndoUnread { why }, ResultView::Done) => refused_clean(
            ErrorView::Io("failed to inspect replaced note '"@ + label + "': "@ + why),
        ),
        (WriteStageView::UndoUnread { why }, ResultView::Failed(undo)) => WriteNextView::Finish {
            unlink: false,
            end: WriteEndView::Recovery(unread_recovery(note, sidecar, why, undo)),
        },
        (WriteStageView::UndoChanged { found }, ResultView::Done) => refused_clean(
            changed_note(
                match expected {
                    Some(e) => trim(e),
                    None => seq![],
                },
                found,
            ),
        ),
        (WriteStageView::UndoChanged { .. }, ResultView::Failed(undo)) => WriteNextView::Finish {
            unlink: false,
            end: WriteEndView::Recovery(changed_recovery(note, sidecar, undo)),
        },
        (WriteStageView::Inspect, ResultView::Found(kind)) => match unsafe_destination(kind, label) {
            Some(e) => refused(e),
            None => WriteNextView::Step(WriteStageView::Rename),
        },
        (WriteStageView::Inspect, ResultView::Failed(why)) => refused(
            ErrorView::Io("failed to inspect write destination '"@ + label + "': "@ + why),
        ),
        (WriteStageView::Rename, ResultView::Done) => WriteNextView::Finish {
            unlink: false,
            end: WriteEndView::Written,
        },
        (WriteStageView::Rename, ResultView::Failed(why)) => refused(
            ErrorView::Io("failed to commit descriptor-relative rename: "@ + why),
        ),
        _ => refused(ErrorView::Io(seq![])),
    }
}

/// Where a write starts.
pub fn start_write() -> (r: WriteStage)
    ensures
        r@ == WriteStageView::OpenParent,
{
    WriteStage::OpenParent
}

fn finish_refused(unlink: bool, error: WriteError) -> (r: WriteNext)
    ensures
        r@ == (WriteNextView::Finish { unlink, end: WriteEndView::Refused(error@) }),
{
    WriteNext::Finish { unlink, end: WriteEnd::Refused(error) }
}

/// The refusal to replace what stands at a destination.
pub fn check_destination(kind: EntryKind, label: &str) -> (r: Option<WriteError>)
    ensures
        match r {
            Some(e) => unsafe_destination(kind, label@) == Some(e@),
            None => unsafe_destination(kind, label@) is None,
        },
{
    match kind {
        EntryKind::Symlink => Some(
            WriteError::Conflict(
                message3("refusing to replace symlink destination '", label, "'"),
            ),
        ),
        EntryKind::Other => Some(
            WriteError::Conflict(
                message3("refusing to replace non-file destination '", label, "'"),
            ),
        ),
        _ => None,
    }
}

/// What a write does behind a step.
pub fn advance_write(c: &WriteContext, stage: &WriteStage, result: &StepResult) -> (r: WriteNext)
    requires
        write_fits(stage@, result@),
    ensures
        r@ == write_next(
            c.label@,
            c.note@,
            c.sidecar@,
            opt_text(c.expected),
            stage@,
            result@,
        ),
{
    match stage {
        WriteStage::OpenParent => match result {
            StepResult::Failed(why) => finish_refused(
                false,
                WriteError::Io(
                    message4(
                        "failed to open verified parent for '",
                        c.label.as_str(),
                        "': ",
                        why.as_str(),
                    ),
                ),
            ),
            _ => WriteNext::Step(WriteStage::Reserve { attempts: 0 }),
        },
        WriteStage::Reserve { attempts } => match result {
            StepResult::Taken => if *attempts + 1 < RESERVE_ATTEMPTS {
                WriteNext::Step(WriteStage::Reserve { attempts: *attempts + 1 })
            } else {
                finish_refused(
                    false,
                    WriteError::Io(
                        str_owned("failed to reserve a unique temporary file after 32 attempts"),
                    ),
                )
            },
            StepResult::NoEntropy(why) => finish_refused(
                false,
                WriteError::Io(
                    message2("failed to generate temporary filename entropy: ", why.as_str()),
                ),
            ),
            StepResult::Failed(why) => finish_refused(
                false,
                WriteError::Io(
                    message4(
                        "failed to create a temporary file beside '",
                        c.note.as_str(),
                        "': ",
                        why.as_str(),
                    ),
                ),
            ),
            _ => WriteNext::Step(WriteStage::Fill),
        },
        WriteStage::Fill => match result {
            StepResult::Failed(why) => finish_refused(
                true,
                WriteError::Io(
                    message4(
                        "failed to write temporary file for '",
                        c.label.as_str(),
                        "': ",
                        why.as_str(),
                    ),
                ),
            ),
            _ => if c.expected.is_some() {
                WriteNext::Step(WriteStage::Exchange)
            } else {
                WriteNext::Step(WriteStage::Inspect)
            },
        },
        WriteStage::Exchange => match result {
            StepResult::Failed(why) => finish_refused(false, WriteError::Io(why.clone())),
            _ => WriteNext::Step(WriteStage::ReadBack),
        },
        WriteStage::ReadBack => match result {
            StepResult::Text(prior) => {
                let found = content_hash(prior.as_str());
                let found_chars = to_chars(found.as_str());
                let matches = match &c.expected {
                    Some(e) => {
                        let wanted = to_chars(e.as_str());
                        chars_eq(found_chars.as_slice(), trimmed(wanted.as_slice()))
                    },
                    None => false,
                };
                if matches {
                    WriteNext::Finish { unlink: true, end: WriteEnd::Written }
                } else {
                    WriteNext::Step(WriteStage::UndoChanged { found })
                }
            },
            StepResult::Failed(why) => WriteNext::Step(
                WriteStage::UndoUnread { why: why.clone() },
            ),
            _ => finish_refused(false, WriteError::Io(String::new())),
        },
        WriteStage::UndoUnread { why } => match result {
            StepResult::Failed(undo) => {
                let mut out = to_chars("note '");
                push_str(&mut out, c.note.as_str());
                push_str(
                    &mut out,
                    "' was replaced, its prior content could not be read back (",
                );
                push_str(&mut out, why.as_str());
                push_str(&mut out, "), and the replacement could not be undone (");
                push_str(&mut out, undo.as_str());
                push_str(
                    &mut out,
                    "). The new content is committed and was never checked against the expected hash; the prior content is in '",
                );
                push_str(&mut out, c.sidecar.as_str());
                push_str(&mut out, "' beside it if that file still exists.");
                WriteNext::Finish {
                    unlink: false,
                    end: WriteEnd::Recovery(recovery_required(out.as_slice())),
                }
            },
            _ => finish_refused(
                true,
                WriteError::Io(
                    message4(
                        "failed to inspect replaced note '",
                        c.label.as_str(),
                        "': ",
                        why.as_str(),
                    ),
                ),
            ),
        },
        WriteStage::UndoChanged { found } => match result {
            StepResult::Failed(undo) => {
                let mut out = to_chars("note '");
                push_str(&mut out, c.note.as_str());
                push_str(
                    &mut out,
                    "' changed since it was read, and the replacement could not be undone (",
                );
                push_str(&mut out, undo.as_str());
                push_str(
                    &mut out,
                    "). The new content is committed over that change, whose content is in '",
                );
                push_str(&mut out, c.sidecar.as_str());
                push_str(&mut out, "' beside it if that file still exists.");
                WriteNext::Finish {
                    unlink: false,
                    end: WriteEnd::Recovery(recovery_required(out.as_slice())),
                }
            },
            _ => {
                let expected = match &c.expected {
                    Some(e) => to_chars(e.as_str()),
                    None => Vec::new(),
                };
                let error = changed_note_error(trimmed(expected.as_slice()), found.as_str());
                proof {
                    if c.expected is None {
                        assert(trim(expected@) =~= seq![]);
                    }
                }
                finish_refused(true, error)
            },
        },
        WriteStage::Inspect => match result {
            StepResult::Found(kind) => match check_destination(*kind, c.label.as_str()) {
                Some(e) => finish_refused(false, e),
                None => WriteNext::Step(WriteStage::Rename),
            },
            StepResult::Failed(why) => finish_refused(
                false,
                WriteError::Io(
                    message4(
                        "failed to inspect write destination '",
                        c.label.as_str(),
                        "': ",
                        why.as_str(),
                    ),
                ),
            ),
            _ => finish_refused(false, WriteError::Io(String::new())),
        },
        WriteStage::Rename => match result {
            StepResult::Failed(why) => finish_refused(
                false,
                WriteError::Io(
                    message2("failed to commit descriptor-relative rename: ", why.as_str()),
                ),
            ),
            _ => WriteNext::Finish { unlink: false, end: WriteEnd::Written },
        },
    }
}

/// The destination holds the new bytes when the step is due.
pub open spec fn replaced_at(stage: WriteStageView) -> bool {
    stage is ReadBack || stage is UndoUnread || stage is UndoChanged
}

/// The destination holds the new bytes behind the step: an exchange that
/// succeeds swaps them in or back out.
pub open spec fn replaced_after(stage: WriteStageView, result: ResultView) -> bool {
    match stage {
        WriteStageView::Exchange => result is Done,
        WriteStageView::UndoUnread { .. } => !(result is Done),
        WriteStageView::UndoChanged { .. } => !(result is Done),
        WriteStageView::Rename => result is Done,
        _ => replaced_at(stage),
    }
}

/// A write always says truly whether the destination holds the new bytes: a
/// refusal leaves it as it was, a success and a call for recovery do not.
pub proof fn write_reports_what_is_in_place(
    label: Seq<char>,
    note: Seq<char>,
    sidecar: Seq<char>,
    expected: Option<Seq<char>>,
    stage: WriteStageView,
    result: ResultView,
)
    requires
        write_fits(stage, result),
    ensures
        match write_next(label, note, sidecar, expected, stage, result) {
            WriteNextView::Step(next) => replaced_at(next) == replaced_after(stage, result),
            WriteNextView::Finish { end: WriteEndView::Written, .. } => replaced_after(
                stage,
                result,
            ),
            WriteNextView::Finish { end: WriteEndView::Refused(_), .. } => !replaced_after(
                stage,
                result,
            ),
            WriteNextView::Finish { end: WriteEndView::Recovery(_), .. } => replaced_after(
                stage,
                result,
            ),
        },
{
}

/// A guarded write only succeeds over the text whose hash was expected.
pub proof fn guarded_write_replaces_only_the_expected_text(
    label: Seq<char>,
    note: Seq<char>,
    sidecar: Seq<char>,
    expected: Seq<char>,
    stage: WriteStageView,
    result: ResultView,
)
    requires
        write_fits(stage, result),
        !(stage is Rename),
        write_next(label, note, sidecar, Some(expected), stage, result) is Finish,
        (write_next(label, note, sidecar, Some(expected), stage, result)->end) is Written,
    ensures
        stage is ReadBack,
        result is Text,
        text_hash(result->Text_0) == trim(expected),
{
}

/// A guarded write never takes the unguarded rename.
pub proof fn guarded_write_never_renames(
    label: Seq<char>,
    note: Seq<char>,
    sidecar: Seq<char>,
    expected: Seq<char>,
    stage: WriteStageView,
    result: ResultView,
)
    requires
        write_fits(stage, result),
        !(stage is Inspect),
        !(stage is Rename),
    ensures
        match write_next(label, note, sidecar, Some(expected), stage, result) {
            WriteNextView::Step(next) => !(next is Inspect) && !(next is Rename),
            _ => true,
        },
{
}

// ---------------------------------------------------------------------------
// The guarded move
// ---------------------------------------------------------------------------

/// The names that a move's messages use.
pub struct MoveContext {
    /// The file and its destination, as errors name them.
    pub source: String,
    pub destination: String,
    /// The hash that the file's text must have; `None` moves any regular file.
    pub expected: Option<String>,
}

/// Why a move is taken back.
#[derive(Debug, Clone, PartialEq, Eq)]
pub enum MoveRefusal {
    /// The file's text has another hash.
    Changed(String),
    /// The file is not a regular file or cannot be read.
    Unsafe(String),
}

/// What a [`MoveRefusal`] says.
pub enum RefusalView {
    Changed(Seq<char>),
    Unsafe(Seq<char>),
}

impl View for MoveRefusal {
    type V = RefusalView;

    open spec fn view(&self) -> RefusalView {
        match self {
            MoveRefusal::Changed(found) => RefusalView::Changed(found@),
            MoveRefusal::Unsafe(why) => RefusalView::Unsafe(why@),
        }
    }
}

fn clone_refusal(r: &MoveRefusal) -> (c: MoveRefusal)
    ensures
        c@ == r@,
{
    match r {
        MoveRefusal::Changed(found) => MoveRefusal::Changed(found.clone()),
        MoveRefusal::Unsafe(why) => MoveRefusal::Unsafe(why.clone()),
    }
}

/// A step of a guarded move.
#[derive(Debug, Clone, PartialEq, Eq)]
pub enum MoveStage {
    OpenSource,
    OpenDestination,
    /// Put an empty folder, the placeholder, at the destination.
    Gate,
    /// Exchange the file and the placeholder.
    Exchange,
    /// Check the file at its destination.
    Check,
    /// Exchange back.
    Restore(MoveRefusal),
    /// Remove the placeholder from the destination.
    RemoveGate(MoveRefusal),
    /// Remove the placeholder from the source.
    Finalize,
}

/// What a [`MoveStage`] says.
pub enum MoveStageView {
    OpenSource,
    OpenDestination,
    Gate,
    Exchange,
    Check,
    Restore(RefusalView),
    RemoveGate(RefusalView),
    Finalize,
}

impl View for MoveStage {
    type V = MoveStageView;

    open spec fn view(&self) -> MoveStageView {
        match self {
            MoveStage::OpenSource => MoveStageView::OpenSource,
            MoveStage::OpenDestination => MoveStageView::OpenDestination,
            MoveStage::Gate => MoveStageView::Gate,
            MoveStage::Exchange => MoveStageView::Exchange,
            MoveStage::Check => MoveStageView::Check,
            MoveStage::Restore(r) => MoveStageView::Restore(r@),
            MoveStage::RemoveGate(r) => MoveStageView::RemoveGate(r@),
            MoveStage::Finalize => MoveStageView::Finalize,
        }
    }
}

/// What a move does next.
#[derive(Debug, Clone, PartialEq, Eq)]
pub enum MoveNext {
    Step(MoveStage),
    /// The move is over. `drop_gate` says to remove the placeholder from the
    /// destination, as far as that works.
    Finish { drop_gate: bool, error: Option<WriteError> },
}

/// What a [`MoveNext`] says.
pub enum MoveNextView {
    Step(MoveStageView),
    Finish { drop_gate: bool, error: Option<ErrorView> },
}

impl View for MoveNext {
    type V = MoveNextView;

    open spec fn view(&self) -> MoveNextView {
        match self {
            MoveNext::Step(s) => MoveNextView::Step(s@),
            MoveNext::Finish { drop_gate, error } => MoveNextView::Finish {
                drop_gate: *drop_gate,
                error: match error {
                    Some(e) => Some(e@),
                    None => None,
                },
            },
        }
    }
}

/// The result is one that the step can have. A guarded check reads the text.
pub open spec fn move_fits(guarded: bool, stage: MoveStageView, result: ResultView) -> bool {
    match stage {
        MoveStageView::Gate => result is Done || result is Failed || result is Taken,
        MoveStageView::Check => result is Failed || (if guarded {
            result is Text
        } else {
            result is Done
        }),
        _ => result is Done || result is Failed,
    }
}

pub open spec fn move_failed(e: ErrorView) -> MoveNextView {
    MoveNextView::Finish { drop_gate: false, error: Some(e) }
}

/// The refusal of a move that was taken back.
pub open spec fn refusal_error(
    source: Seq<char>,
    expected: Option<Seq<char>>,
    r: RefusalView,
) -> ErrorView {
    match r {
        RefusalView::Changed(found) => changed_note(
            match expected {
                Some(e) => trim(e),
                None => seq![],
            },
            found,
        ),
        RefusalView::Unsafe(why) => ErrorView::Conflict(
            "refusing to move unsafe source '"@ + source + "': "@ + why,
        ),
    }
}

/// What a move does behind a step.
pub open spec fn move_next(
    source: Seq<char>,
    destination: Seq<char>,
    expected: Option<Seq<char>>,
    stage: MoveStageView,
    result: ResultView,
) -> MoveNextView {
    match (stage, result) {
        (MoveStageView::OpenSource, ResultView::Done) => MoveNextView::Step(
            MoveStageView::OpenDestination,
        ),
        (MoveStageView::OpenSource, ResultView::Failed(why)) => move_failed(
            ErrorView::Io("failed to open verified parent for '"@ + source + "': "@ + why),
        ),
        (MoveStageView::OpenDestination, ResultView::Done) => MoveNextView::Step(
            MoveStageView::Gate,
        ),
        (MoveStageView::OpenDestination, ResultView::Failed(why)) => move_failed(
            ErrorView::Io("failed to open verified parent for '"@ + destination + "': "@ + why),
        ),
        (MoveStageView::Gate, ResultView::Done) => MoveNextView::Step(MoveStageView::Exchange),
        (MoveStageView::Gate, ResultView::Taken) => move_failed(
            ErrorView::Conflict("destination already exists: "@ + destination),
        ),
        (MoveStageView::Gate, ResultView::Failed(why)) => move_failed(
            ErrorView::Io("failed to reserve destination '"@ + destination + "': "@ + why),
        ),
        (MoveStageView::Exchange, ResultView::Done) => MoveNextView::Step(MoveStageView::Check),
        (MoveStageView::Exchange, ResultView::Failed(why)) => MoveNextView::Finish {
            drop_gate: true,
            error: Some(
                ErrorView::Io(
                    "failed to atomically move '"@ + source + "' to '"@ + destination + "': "@ + why,
                ),
            ),
        },
        (MoveStageView::Check, ResultView::Done) => MoveNextView::Step(MoveStageView::Finalize),
        (MoveStageView::Check, ResultView::Text(text)) => if expected is Some && text_hash(text)
            == trim(expected->0) {
            MoveNextView::Step(MoveStageView::Finalize)
        } else {
            MoveNextView::Step(MoveStageView::Restore(RefusalView::Changed(text_hash(text))))
        },
        (MoveStageView::Check, ResultView::Failed(why)) => MoveNextView::Step(
            MoveStageView::Restore(RefusalView::Unsafe(why)),
        ),
        (MoveStageView::Restore(r), ResultView::Done) => MoveNextView::Step(
            MoveStageView::RemoveGate(r),
        ),
        (MoveStageView::Restore(_), ResultView::Failed(why)) => move_failed(
            ErrorView::Io("failed to restore unsafe move from '"@ + source + "': "@ + why),
        ),
        (MoveStageView::RemoveGate(r), ResultView::Done) => move_failed(
            refusal_error(source, expected, r),
        ),
        (MoveStageView::RemoveGate(_), ResultView::Failed(why)) => move_failed(
            ErrorView::Io("failed to remove move gate for '"@ + source + "': "@ + why),
        ),
        (MoveStageView::Finalize, ResultView::Done) => MoveNextView::Finish {
            drop_gate: false,
            error: None,
        },
        (MoveStageView::Finalize, ResultView::Failed(why)) => move_failed(
            ErrorView::Io("failed to finalize move from '"@ + source + "': "@ + why),
        ),
        _ => move_failed(ErrorView::Io(seq![])),
    }
}

/// Where a move starts.
pub fn start_move() -> (r: MoveStage)
    ensures
        r@ == MoveStageView::OpenSource,
{
    MoveStage::OpenSource
}

fn fail_move(error: WriteError) -> (r: MoveNext)
    ensures
        r@ == move_failed(error@),
{
    MoveNext::Finish { drop_gate: false, error: Some(error) }
}

/// What a move does behind a step.
pub fn advance_move(c: &MoveContext, stage: &MoveStage, result: &StepResult) -> (r: MoveNext)
    requires
        move_fits(c.expected is Some, stage@, result@),
    ensures
        r@ == move_next(c.source@, c.destination@, opt_text(c.expected), stage@, result@),
{
    match stage {
        MoveStage::OpenSource => match result {
            StepResult::Failed(why) => fail_move(
                WriteError::Io(
                    message4(
                        "failed to open verified parent for '",
                        c.source.as_str(),
                        "': ",
                        why.as_str(),
                    ),
                ),
            ),
            _ => MoveNext::Step(MoveStage::OpenDestination),
        },
        MoveStage::OpenDestination => match result {
            StepResult::Failed(why) => fail_move(
                WriteError::Io(
                    message4(
                        "failed to open verified parent for '",
                        c.destination.as_str(),
                        "': ",
                        why.as_str(),
                    ),
                ),
            ),
            _ => MoveNext::Step(MoveStage::Gate),
        },
        MoveStage::Gate => match result {
            StepResult::Taken => fail_move(
                WriteError::Conflict(
                    message2("destination already exists: ", c.destination.as_str()),
                ),
            ),
            StepResult::Failed(why) => fail_move(
                WriteError::Io(
                    message4(
                        "failed to reserve destination '",
                        c.destination.as_str(),
                        "': ",
                        why.as_str(),
                    ),
                ),
            ),
            _ => MoveNext::Step(MoveStage::Exchange),
        },
        MoveStage::Exchange => match result {
            StepResult::Failed(why) => {
                let mut out = to_chars("failed to atomically move '");
                push_str(&mut out, c.source.as_str());
                push_str(&mut out, "' to '");
                push_str(&mut out, c.destination.as_str());
                push_str(&mut out, "': ");
                push_str(&mut out, why.as_str());
                MoveNext::Finish {
                    drop_gate: true,
                    error: Some(WriteError::Io(from_chars(out.as_slice()))),
                }
            },
            _ => MoveNext::Step(MoveStage::Check),
        },
        MoveStage::Check => match result {
            StepResult::Text(text) => {
                let found = content_hash(text.as_str());
                let found_chars = to_chars(found.as_str());
                let matches = match &c.expected {
                    Some(e) => {
                        let wanted = to_chars(e.as_str());
                        chars_eq(found_chars.as_slice(), trimmed(wanted.as_slice()))
                    },
                    None => false,
                };
                if matches {
                    MoveNext::Step(MoveStage::Finalize)
                } else {
                    MoveNext::Step(MoveStage::Restore(MoveRefusal::Changed(found)))
                }
            },
            StepResult::Failed(why) => MoveNext::Step(
                MoveStage::Restore(MoveRefusal::Unsafe(why.clone())),
            ),
            _ => MoveNext::Step(MoveStage::Finalize),
        },
        MoveStage::Restore(refusal) => match result {
            StepResult::Failed(why) => fail_move(
                WriteError::Io(
                    message4(
                        "failed to restore unsafe move from '",
                        c.source.as_str(),
                        "': ",
                        why.as_str(),
                    ),
                ),
            ),
            _ => MoveNext::Step(MoveStage::RemoveGate(clone_refusal(refusal))),
        },
        MoveStage::RemoveGate(refusal) => match result {
            StepResult::Failed(why) => fail_move(
                WriteError::Io(
                    message4(
                        "failed to remove move gate for '",
                        c.source.as_str(),
                        "': ",
                        why.as_str(),
                    ),
                ),
            ),
            _ => match refusal {
                MoveRefusal::Changed(found) => {
                    let expected = match &c.expected {
                        Some(e) => to_chars(e.as_str()),
                        None => Vec::new(),
                    };
                    proof {
                        if c.expected is None {
                            assert(trim(expected@) =~= seq![]);
                        }
                    }
                    fail_move(changed_note_error(trimmed(expected.as_slice()), found.as_str()))
                },
                MoveRefusal::Unsafe(why) => fail_move(
                    WriteError::Conflict(
                        message4(
                            "refusing to move unsafe source '",
                            c.source.as_str(),
                            "': ",
                            why.as_str(),
                        ),
                    ),
                ),
            },
        },
        MoveStage::Finalize => match result {
            StepResult::Failed(why) => fail_move(
                WriteError::Io(
                    message4(
                        "failed to finalize move from '",
                        c.source.as_str(),
                        "': ",
                        why.as_str(),
                    ),
                ),
            ),
            _ => MoveNext::Finish { drop_gate: false, error: None },
        },
    }
}

/// The file is at its destination when the step is due.
pub open spec fn moved_at(stage: MoveStageView) -> bool {
    stage is Check || stage is Restore || stage is Finalize
}

/// The file is at its destination behind the step.
pub open spec fn moved_after(stage: MoveStageView, result: ResultView) -> bool {
    match stage {
        MoveStageView::Exchange => result is Done,
        MoveStageView::Restore(_) => !(result is Done),
        _ => moved_at(stage),
    }
}

/// A move that succeeds leaves the file at its destination. One that fails
/// leaves it at its source, unless the last cleaning up or the taking back
/// itself failed.
pub proof fn move_reports_where_the_file_is(
    source: Seq<char>,
    destination: Seq<char>,
    expected: Option<Seq<char>>,
    stage: MoveStageView,
    result: ResultView,
)
    requires
        move_fits(expected is Some, stage, result),
    ensures
        match move_next(source, destination, expected, stage, result) {
            MoveNextView::Step(next) => moved_at(next) == moved_after(stage, result),
            MoveNextView::Finish { error: None, .. } => moved_after(stage, result),
            MoveNextView::Finish { error: Some(_), .. } => moved_after(stage, result) ==> (
            stage is Finalize || stage is Restore) && result is Failed,
        },
{
}

/// A guarded move only succeeds for the text whose hash was expected: it is
/// finalized behind the check of that text alone.
pub proof fn guarded_move_moves_only_the_expected_text(
    source: Seq<char>,
    destination: Seq<char>,
    expected: Seq<char>,
    stage: MoveStageView,
    result: ResultView,
)
    requires
        move_fits(true, stage, result),
        move_next(source, destination, Some(expected), stage, result) == MoveNextView::Step(
            MoveStageView::Finalize,
        ),
    ensures
        stage is Check,
        result is Text,
        text_hash(result->Text_0) == trim(expected),
{
}

// ---------------------------------------------------------------------------
// The exchange of two files
// ---------------------------------------------------------------------------

/// A name in an exchange.
#[derive(Debug, Clone, Copy, PartialEq, Eq, Structural)]
pub enum Slot {
    From,
    To,
    Parking,
}

/// A step of an exchange.
#[derive(Debug, Clone, Copy, PartialEq, Eq, Structural)]
pub enum ExchangeStage {
    /// Exchange in one step.
    Native,
    /// Reserve a name to park a file at; `attempts` were taken.
    Reserve { attempts: usize },
    /// Rename `From` to the parking name.
    Park,
    /// Rename `To` to `From`.
    Swap,
    /// Rename the parked file to `To`.
    Land,
}

/// What came of a step of an exchange.
#[derive(Debug, Clone, PartialEq, Eq)]
pub enum ExchangeResult {
    Done,
    /// The file system has no such step.
    Unsupported,
    /// The name is taken.
    Taken,
    /// There is no entropy for a name.
    NoEntropy(String),
    Failed(String),
}

/// What an [`ExchangeResult`] says.
pub enum ExchangeView {
    Done,
    Unsupported,
    Taken,
    NoEntropy(Seq<char>),
    Failed(Seq<char>),
}

impl View for ExchangeResult {
    type V = ExchangeView;

    open spec fn view(&self) -> ExchangeView {
        match self {
            ExchangeResult::Done => ExchangeView::Done,
            ExchangeResult::Unsupported => ExchangeView::Unsupported,
            ExchangeResult::Taken => ExchangeView::Taken,
            ExchangeResult::NoEntropy(why) => ExchangeView::NoEntropy(why@),
            ExchangeResult::Failed(why) => ExchangeView::Failed(why@),
        }
    }
}

/// What an exchange does next.
#[derive(Debug, Clone, PartialEq, Eq)]
pub enum ExchangeNext {
    Step(ExchangeStage),
    Exchanged,
    /// The exchange failed. The renames in `undo` put the files back; `unlink`
    /// says to remove the file at the parking name.
    Failed { undo: Vec<(Slot, Slot)>, unlink: bool, why: String },
}

/// What an [`ExchangeNext`] says.
pub enum ExchangeNextView {
    Step(ExchangeStage),
    Exchanged,
    Failed { undo: Seq<(Slot, Slot)>, unlink: bool, why: Seq<char> },
}

impl View for ExchangeNext {
    type V = ExchangeNextView;

    open spec fn view(&self) -> ExchangeNextView {
        match self {
            ExchangeNext::Step(next) => ExchangeNextView::Step(*next),
            ExchangeNext::Exchanged => ExchangeNextView::Exchanged,
            ExchangeNext::Failed { undo, unlink, why } => ExchangeNextView::Failed {
                undo: undo@,
                unlink: *unlink,
                why: why@,
            },
        }
    }
}

/// The step can have this result.
pub open spec fn exchange_fits(stage: ExchangeStage, result: ExchangeView) -> bool {
    match stage {
        ExchangeStage::Native => result is Done || result is Unsupported || result is Failed,
        ExchangeStage::Reserve { attempts } => attempts < RESERVE_ATTEMPTS && !(
        result is Unsupported),
        _ => result is Done || result is Failed,
    }
}

/// The renames that put the files back when a step failed.
pub open spec fn exchange_undo(stage: ExchangeStage) -> Seq<(Slot, Slot)> {
    match stage {
        ExchangeStage::Swap => seq![(Slot::Parking, Slot::From)],
        ExchangeStage::Land => seq![(Slot::From, Slot::To), (Slot::Parking, Slot::From)],
        _ => seq![],
    }
}

/// The failure of an exchange at a step.
pub open spec fn exchange_failed(stage: ExchangeStage, why: Seq<char>) -> ExchangeNextView {
    ExchangeNextView::Failed { undo: exchange_undo(stage), unlink: stage is Park, why }
}

/// What an exchange of the file `from` does behind a step. A parking name that
/// is taken is followed by another one, a bounded number of times.
pub open spec fn exchange_next(
    from: Seq<char>,
    stage: ExchangeStage,
    result: ExchangeView,
) -> ExchangeNextView {
    match (stage, result) {
        (ExchangeStage::Native, ExchangeView::Done) => ExchangeNextView::Exchanged,
        (ExchangeStage::Native, ExchangeView::Unsupported) => ExchangeNextView::Step(
            ExchangeStage::Reserve { attempts: 0 },
        ),
        (ExchangeStage::Native, ExchangeView::Failed(why)) => exchange_failed(stage, why),
        (ExchangeStage::Reserve { .. }, ExchangeView::Done) => ExchangeNextView::Step(
            ExchangeStage::Park,
        ),
        (ExchangeStage::Reserve { attempts }, ExchangeView::Taken) => if attempts + 1
            < RESERVE_ATTEMPTS {
            ExchangeNextView::Step(ExchangeStage::Reserve { attempts: (attempts + 1) as usize })
        } else {
            exchange_failed(
                stage,
                "failed to reserve a unique temporary file after 32 attempts"@,
            )
        },
        (ExchangeStage::Reserve { .. }, ExchangeView::NoEntropy(why)) => exchange_failed(
            stage,
            "failed to generate temporary filename entropy: "@ + why,
        ),
        (ExchangeStage::Reserve { .. }, ExchangeView::Failed(why)) => exchange_failed(
            stage,
            "failed to create a temporary file beside '"@ + from + "': "@ + why,
        ),
        (ExchangeStage::Park, ExchangeView::Done) => ExchangeNextView::Step(ExchangeStage::Swap),
        (ExchangeStage::Swap, ExchangeView::Done) => ExchangeNextView::Step(ExchangeStage::Land),
        (ExchangeStage::Land, ExchangeView::Done) => ExchangeNextView::Exchanged,
        (_, ExchangeView::Failed(why)) => exchange_failed(
            stage,
            "failed to commit descriptor-relative rename: "@ + why,
        ),
        _ => exchange_failed(stage, seq![]),
    }
}

/// What an exchange of the file `from` does behind a step.
pub fn advance_exchange(from: &str, stage: ExchangeStage, result: &ExchangeResult) -> (r:
    ExchangeNext)
    requires
        exchange_fits(stage, result@),
    ensures
        r@ == exchange_next(from@, stage, result@),
{
    match (stage, result) {
        (ExchangeStage::Native, ExchangeResult::Unsupported) => ExchangeNext::Step(
            ExchangeStage::Reserve { attempts: 0 },
        ),
        (ExchangeStage::Native, ExchangeResult::Failed(why)) => fail_exchange(stage, why.clone()),
        (ExchangeStage::Native, _) => ExchangeNext::Exchanged,
        (ExchangeStage::Reserve { attempts }, ExchangeResult::Taken) => if attempts + 1
            < RESERVE_ATTEMPTS {
            ExchangeNext::Step(ExchangeStage::Reserve { attempts: attempts + 1 })
        } else {
            fail_exchange(
                stage,
                str_owned("failed to reserve a unique temporary file after 32 attempts"),
            )
        },
        (ExchangeStage::Reserve { .. }, ExchangeResult::NoEntropy(why)) => fail_exchange(
            stage,
            message2("failed to generate temporary filename entropy: ", why.as_str()),
        ),
        (ExchangeStage::Reserve { .. }, ExchangeResult::Failed(why)) => fail_exchange(
            stage,
            message4("failed to create a temporary file beside '", from, "': ", why.as_str()),
        ),
        (ExchangeStage::Reserve { .. }, _) => ExchangeNext::Step(ExchangeStage::Park),
        (_, ExchangeResult::Failed(why)) => fail_exchange(
            stage,
            message2("failed to commit descriptor-relative rename: ", why.as_str()),
        ),
        (ExchangeStage::Park, _) => ExchangeNext::Step(ExchangeStage::Swap),
        (ExchangeStage::Swap, _) => ExchangeNext::Step(ExchangeStage::Land),
        (ExchangeStage::Land, _) => ExchangeNext::Exchanged,
    }
}

fn fail_exchange(stage: ExchangeStage, why: String) -> (r: ExchangeNext)
    ensures
        r@ == exchange_failed(stage, why@),
{
    let mut undo: Vec<(Slot, Slot)> = Vec::new();
    match stage {
        ExchangeStage::Swap => {
            undo.push((Slot::Parking, Slot::From));
        },
        ExchangeStage::Land => {
            undo.push((Slot::From, Slot::To));
            undo.push((Slot::Parking, Slot::From));
        },
        _ => {},
    }
    assert(undo@ =~= exchange_undo(stage));
    let unlink = match stage {
        ExchangeStage::Park => true,
        _ => false,
    };
    ExchangeNext::Failed { undo, unlink, why }
}

/// An exchange asks for no more than a bounded number of parking names: a name
/// that is taken brings the last attempt closer or ends the exchange.
pub proof fn parking_names_are_bounded(from: Seq<char>, attempts: usize)
    requires
        attempts < RESERVE_ATTEMPTS,
    ensures
        match exchange_next(
            from,
            ExchangeStage::Reserve { attempts },
            ExchangeView::Taken,
        ) {
            ExchangeNextView::Step(next) => next == (ExchangeStage::Reserve {
                attempts: (attempts + 1) as usize,
            }) && attempts + 1 < RESERVE_ATTEMPTS,
            ExchangeNextView::Failed { undo, unlink, .. } => attempts + 1 == RESERVE_ATTEMPTS
                && undo.len() == 0 && !unlink,
            ExchangeNextView::Exchanged => false,
        },
{
}

/// The rename of a step.
pub open spec fn stage_rename(stage: ExchangeStage) -> Option<(Slot, Slot)> {
    match stage {
        ExchangeStage::Park => Some((Slot::From, Slot::Parking)),
        ExchangeStage::Swap => Some((Slot::To, Slot::From)),
        ExchangeStage::Land => Some((Slot::Parking, Slot::To)),
        _ => None,
    }
}

/// The files behind a rename.
pub open spec fn renamed<C>(files: Map<Slot, C>, rename: (Slot, Slot)) -> Map<Slot, C> {
    files.remove(rename.0).insert(rename.1, files[rename.0])
}

/// The files behind several renames.
pub open spec fn renamed_all<C>(files: Map<Slot, C>, renames: Seq<(Slot, Slot)>) -> Map<Slot, C>
    decreases renames.len(),
{
    if renames.len() == 0 {
        files
    } else {
        renamed_all(renamed(files, renames[0]), renames.skip(1))
    }
}

/// Three renames exchange two files. The reserved file at the parking name, if
/// one stands there, is the only one that is gone behind them.
pub proof fn three_renames_exchange<C>(files: Map<Slot, C>)
    requires
        files.contains_key(Slot::From),
        files.contains_key(Slot::To),
    ensures
        ({
            let parked = renamed(files, stage_rename(ExchangeStage::Park)->0);
            let swapped = renamed(parked, stage_rename(ExchangeStage::Swap)->0);
            let landed = renamed(swapped, stage_rename(ExchangeStage::Land)->0);
            landed == files.remove(Slot::Parking).insert(Slot::From, files[Slot::To]).insert(
                Slot::To,
                files[Slot::From],
            )
        }),
{
    let parked = renamed(files, stage_rename(ExchangeStage::Park)->0);
    let swapped = renamed(parked, stage_rename(ExchangeStage::Swap)->0);
    let landed = renamed(swapped, stage_rename(ExchangeStage::Land)->0);
    assert(landed =~= files.remove(Slot::Parking).insert(Slot::From, files[Slot::To]).insert(
        Slot::To,
        files[Slot::From],
    ));
}

/// The renames that undo a failed step put both files back, and leave nothing
/// at the parking name.
pub proof fn failed_exchange_puts_files_back<C>(files: Map<Slot, C>)
    requires
        files.contains_key(Slot::From),
        files.contains_key(Slot::To),
    ensures
        ({
            let parked = renamed(files, stage_rename(ExchangeStage::Park)->0);
            let swapped = renamed(parked, stage_rename(ExchangeStage::Swap)->0);
            &&& renamed_all(parked, exchange_undo(ExchangeStage::Swap)) == files.remove(
                Slot::Parking,
            )
            &&& renamed_all(swapped, exchange_undo(ExchangeStage::Land)) == files.remove(
                Slot::Parking,
            )
        }),
{
    let parked = renamed(files, stage_rename(ExchangeStage::Park)->0);
    let swapped = renamed(parked, stage_rename(ExchangeStage::Swap)->0);
    let one = exchange_undo(ExchangeStage::Swap);
    let two = exchange_undo(ExchangeStage::Land);
    assert(one.skip(1) =~= seq![]);
    assert(two.skip(1) =~= one);
    reveal_with_fuel(renamed_all, 3);
    assert(renamed(parked, one[0]) =~= files.remove(Slot::Parking));
    assert(renamed(swapped, two[0]) =~= parked);
}

// ---------------------------------------------------------------------------
// Whole writes and moves
// ---------------------------------------------------------------------------

/// What a write does behind steps that came out as given, from a stage on.
pub open spec fn write_run(
    label: Seq<char>,
    note: Seq<char>,
    sidecar: Seq<char>,
    expected: Option<Seq<char>>,
    stage: WriteStageView,
    results: Seq<ResultView>,
) -> WriteNextView
    decreases results.len(),
{
    let next = write_next(label, note, sidecar, expected, stage, results[0]);
    if results.len() <= 1 {
        next
    } else {
        match next {
            WriteNextView::Step(s) => write_run(label, note, sidecar, expected, s, results.skip(1)),
            WriteNextView::Finish { .. } => next,
        }
    }
}

/// A write without a guard fills a file beside the note, looks at what it is to
/// replace, and renames. What is no file is not replaced.
pub proof fn plain_write_renames_over_files_only(
    label: Seq<char>,
    note: Seq<char>,
    sidecar: Seq<char>,
    kind: EntryKind,
)
    ensures
        ({
            let done = ResultView::Done;
            let end = write_run(
                label,
                note,
                sidecar,
                None,
                WriteStageView::OpenParent,
                seq![done, done, done, ResultView::Found(kind), done],
            );
            if kind is Symlink || kind is Other {
                end matches WriteNextView::Finish {
                    unlink: false,
                    end: WriteEndView::Refused(ErrorView::Conflict(_)),
                }
            } else {
                end == WriteNextView::Finish { unlink: false, end: WriteEndView::Written }
            }
        }),
{
    let done = ResultView::Done;
    let all = seq![done, done, done, ResultView::Found(kind), done];
    reveal_with_fuel(write_run, 6);
    assert(all.skip(1) =~= seq![done, done, ResultView::Found(kind), done]);
    assert(all.skip(1).skip(1) =~= seq![done, ResultView::Found(kind), done]);
    assert(all.skip(1).skip(1).skip(1) =~= seq![ResultView::Found(kind), done]);
    assert(all.skip(1).skip(1).skip(1).skip(1) =~= seq![done]);
}

/// A guarded write exchanges the note with the new file and reads what was there. If
/// that has the expected hash, the note is written and the old text goes. If not,
/// the exchange is undone, the new file goes, and the conflict names both hashes.
pub proof fn guarded_write_is_undone_over_another_text(
    label: Seq<char>,
    note: Seq<char>,
    sidecar: Seq<char>,
    expected: Seq<char>,
    prior: Seq<char>,
)
    ensures
        ({
            let done = ResultView::Done;
            let end = write_run(
                label,
                note,
                sidecar,
                Some(expected),
                WriteStageView::OpenParent,
                seq![done, done, done, done, ResultView::Text(prior), done],
            );
            if text_hash(prior) == trim(expected) {
                end == WriteNextView::Finish { unlink: true, end: WriteEndView::Written }
            } else {
                end == WriteNextView::Finish {
                    unlink: true,
                    end: WriteEndView::Refused(
                        ErrorView::Conflict(
                            "note changed since it was read: expected "@ + trim(expected)
                                + ", found "@ + text_hash(prior),
                        ),
                    ),
                }
            }
        }),
{
    let done = ResultView::Done;
    let text = ResultView::Text(prior);
    let all = seq![done, done, done, done, text, done];
    reveal_with_fuel(write_run, 7);
    assert(all.skip(1) =~= seq![done, done, done, text, done]);
    assert(all.skip(1).skip(1) =~= seq![done, done, text, done]);
    assert(all.skip(1).skip(1).skip(1) =~= seq![done, text, done]);
    assert(all.skip(1).skip(1).skip(1).skip(1) =~= seq![text, done]);
    assert(all.skip(1).skip(1).skip(1).skip(1).skip(1) =~= seq![done]);
}

/// A write tries 32 names for its file, and then gives up.
pub proof fn taken_names_are_passed_over(
    label: Seq<char>,
    note: Seq<char>,
    sidecar: Seq<char>,
    expected: Option<Seq<char>>,
    attempts: int,
)
    requires
        0 <= attempts < 32,
    ensures
        write_next(
            label,
            note,
            sidecar,
            expected,
            WriteStageView::Reserve { attempts },
            ResultView::Taken,
        ) == (if attempts < 31 {
            WriteNextView::Step(WriteStageView::Reserve { attempts: attempts + 1 })
        } else {
            WriteNextView::Finish {
                unlink: false,
                end: WriteEndView::Refused(
                    ErrorView::Io("failed to reserve a unique temporary file after 32 attempts"@),
                ),
            }
        }),
{
}

/// What a move does behind steps that came out as given, from a stage on.
pub open spec fn move_run(
    source: Seq<char>,
    destination: Seq<char>,
    expected: Option<Seq<char>>,
    stage: MoveStageView,
    results: Seq<ResultView>,
) -> MoveNextView
    decreases results.len(),
{
    let next = move_next(source, destination, expected, stage, results[0]);
    if results.len() <= 1 {
        next
    } else {
        match next {
            MoveNextView::Step(s) => move_run(source, destination, expected, s, results.skip(1)),
            MoveNextView::Finish { .. } => next,
        }
    }
}

/// A guarded move whose file has the expected hash goes through. One whose file has
/// another is put back, and the conflict names both hashes. A move to a place that
/// is taken is refused.
pub proof fn guarded_move_is_undone_over_another_text(
    source: Seq<char>,
    destination: Seq<char>,
    expected: Seq<char>,
    found: Seq<char>,
)
    ensures
        ({
            let done = ResultView::Done;
            let end = move_run(
                source,
                destination,
                Some(expected),
                MoveStageView::OpenSource,
                seq![done, done, done, done, ResultView::Text(found), done, done],
            );
            if text_hash(found) == trim(expected) {
                end == MoveNextView::Finish { drop_gate: false, error: None }
            } else {
                end == MoveNextView::Finish {
                    drop_gate: false,
                    error: Some(
                        ErrorView::Conflict(
                            "note changed since it was read: expected "@ + trim(expected)
                                + ", found "@ + text_hash(found),
                        ),
                    ),
                }
            }
        }),
        move_run(
            source,
            destination,
            Some(expected),
            MoveStageView::OpenSource,
            seq![ResultView::Done, ResultView::Done, ResultView::Taken],
        ) == (MoveNextView::Finish {
            drop_gate: false,
            error: Some(ErrorView::Conflict("destination already exists: "@ + destination)),
        }),
{
    let done = ResultView::Done;
    let text = ResultView::Text(found);
    let all = seq![done, done, done, done, text, done, done];
    reveal_with_fuel(move_run, 8);
    assert(all.skip(1) =~= seq![done, done, done, text, done, done]);
    assert(all.skip(1).skip(1) =~= seq![done, done, text, done, done]);
    assert(all.skip(1).skip(1).skip(1) =~= seq![done, text, done, done]);
    assert(all.skip(1).skip(1).skip(1).skip(1) =~= seq![text, done, done]);
    assert(all.skip(1).skip(1).skip(1).skip(1).skip(1) =~= seq![done, done]);
    assert(all.skip(1).skip(1).skip(1).skip(1).skip(1).skip(1) =~= seq![done]);
    let few = seq![done, done, ResultView::Taken];
    assert(few.skip(1) =~= seq![done, ResultView::Taken]);
    assert(few.skip(1).skip(1) =~= seq![ResultView::Taken]);
}

} // verus!
