use std::collections::BTreeMap;

use hatchdoor_vault::attachments::AttachmentMove;
use hatchdoor_vault::hash::content_hash;
use hatchdoor_vault::mutation::{
    annotate_rollback_succeeded, label_of, next_attachment_action, Compensation, MutationAction,
    MutationJournal,
};
use hatchdoor_vault::protocol::{
    advance_exchange, advance_move, advance_write, bounded_write_name, check_destination,
    plan_descent, start_move, start_write, temporary_sidecar_prefix, EntryKind, ExchangeNext, ExchangeResult, ExchangeStage, MoveContext,
    MoveNext, MoveStage, Slot, StepResult, WriteContext, WriteEnd, WriteNext, WriteStage,
};
use hatchdoor_vault::write_types::{MutationPhase, TextRewrite, WriteError};

const BINARY_ASSET: &[u8] = &[
    0xFF, 0xD8, 0xFF, 0xE0, 0x00, 0x10, b'J', b'F', b'I', b'F', 0x00, 0x01, 0xFE, 0xFF, 0x80,
];

#[derive(Debug, Clone, PartialEq, Eq)]
enum Item {
    File(Vec<u8>),
    /// A file that cannot be read.
    Sealed(Vec<u8>),
    Link,
    Fifo,
    Dir,
}

/// One folder's entries by name. A name with a folder that is not there cannot
/// be opened.
#[derive(Debug, Clone, PartialEq, Eq)]
struct Folder {
    items: BTreeMap<String, Item>,
    planted: Option<String>,
    /// No entry can be removed.
    sealed: bool,
}

impl Folder {
    fn new() -> Self {
        Folder {
            items: BTreeMap::new(),
            planted: None,
            sealed: false,
        }
    }

    fn put(&mut self, name: &str, text: &str) {
        self.items
            .insert(name.to_string(), Item::File(text.as_bytes().to_vec()));
    }

    fn text(&self, name: &str) -> Result<String, String> {
        match self.items.get(name) {
            Some(Item::File(bytes)) => {
                String::from_utf8(bytes.clone()).map_err(|error| error.to_string())
            }
            Some(Item::Sealed(_)) => Err("permission denied".to_string()),
            Some(_) => Err("not a regular file".to_string()),
            None => Err("no such file".to_string()),
        }
    }

    fn swap(&mut self, a: &str, b: &str) -> StepResult {
        match (self.items.get(a).cloned(), self.items.get(b).cloned()) {
            (Some(x), Some(y)) => {
                self.items.insert(a.to_string(), y);
                self.items.insert(b.to_string(), x);
                StepResult::Done
            }
            _ => StepResult::Failed("no such file".to_string()),
        }
    }

    fn kind(&self, name: &str) -> EntryKind {
        match self.items.get(name) {
            None => EntryKind::Missing,
            Some(Item::File(_)) | Some(Item::Sealed(_)) => EntryKind::Regular,
            Some(Item::Link) => EntryKind::Symlink,
            Some(_) => EntryKind::Other,
        }
    }

    fn sidecars(&self, note: &str) -> Vec<String> {
        let prefix = temporary_sidecar_prefix(note);
        self.items
            .keys()
            .filter(|name| name.starts_with(&prefix))
            .cloned()
            .collect()
    }

    fn write(
        &mut self,
        note: &str,
        content: &str,
        expected: Option<String>,
        before_exchange: impl Fn(&mut Folder),
        after_exchange: impl Fn(&mut Folder),
    ) -> WriteEnd {
        let mut context = WriteContext {
            label: format!("/vault/{note}"),
            note: note.to_string(),
            sidecar: String::new(),
            expected,
        };
        let mut stage = start_write();
        loop {
            let result = match &stage {
                WriteStage::OpenParent => StepResult::Done,
                WriteStage::Reserve { attempts } => {
                    let name = match (&self.planted, attempts) {
                        (Some(planted), 0) => planted.clone(),
                        _ => format!("{}{attempts}", temporary_sidecar_prefix(note)),
                    };
                    if self.items.contains_key(&name) {
                        StepResult::Taken
                    } else {
                        self.put(&name, "");
                        context.sidecar = name;
                        StepResult::Done
                    }
                }
                WriteStage::Fill => {
                    self.put(&context.sidecar.clone(), content);
                    StepResult::Done
                }
                WriteStage::Exchange => {
                    before_exchange(self);
                    let result = self.swap(&context.sidecar, note);
                    after_exchange(self);
                    result
                }
                WriteStage::ReadBack => match self.text(&context.sidecar) {
                    Ok(text) => StepResult::Text(text),
                    Err(why) => StepResult::Failed(why),
                },
                WriteStage::UndoUnread { .. } | WriteStage::UndoChanged { .. } => {
                    self.swap(&context.sidecar, note)
                }
                WriteStage::Inspect => StepResult::Found(self.kind(note)),
                WriteStage::Rename => match self.items.remove(&context.sidecar) {
                    Some(item) => {
                        self.items.insert(note.to_string(), item);
                        StepResult::Done
                    }
                    None => StepResult::Failed("no such file".to_string()),
                },
            };
            match advance_write(&context, &stage, &result) {
                WriteNext::Step(next) => stage = next,
                WriteNext::Finish { unlink, end } => {
                    if unlink && !self.sealed {
                        self.items.remove(&context.sidecar);
                    }
                    return end;
                }
            }
        }
    }

    fn relocate(
        &mut self,
        source: &str,
        destination: &str,
        expected: Option<String>,
        after_exchange: impl Fn(&mut Folder),
    ) -> Result<(), WriteError> {
        let guarded = expected.is_some();
        let context = MoveContext {
            source: source.to_string(),
            destination: destination.to_string(),
            expected,
        };
        let opened = |path: &str| {
            let way = plan_descent(&format!("/vault/{path}")).expect("an absolute path");
            if way.folders.contains(&"missing".to_string()) {
                StepResult::Failed("no such folder".to_string())
            } else {
                match way.refusal {
                    Some(message) => StepResult::Failed(message),
                    None => StepResult::Done,
                }
            }
        };
        let mut stage = start_move();
        loop {
            let result = match &stage {
                MoveStage::OpenSource => opened(source),
                MoveStage::OpenDestination => opened(destination),
                MoveStage::Gate => {
                    if self.items.contains_key(destination) {
                        StepResult::Taken
                    } else {
                        self.items.insert(destination.to_string(), Item::Dir);
                        StepResult::Done
                    }
                }
                MoveStage::Exchange => {
                    let result = self.swap(source, destination);
                    after_exchange(self);
                    result
                }
                MoveStage::Check => match (self.kind(destination), guarded) {
                    (EntryKind::Regular, true) => match self.text(destination) {
                        Ok(text) => StepResult::Text(text),
                        Err(why) => StepResult::Failed(why),
                    },
                    (EntryKind::Regular, false) => StepResult::Done,
                    _ => StepResult::Failed("not a regular file".to_string()),
                },
                MoveStage::Restore(_) => self.swap(source, destination),
                MoveStage::RemoveGate(_) => {
                    self.items.remove(destination);
                    StepResult::Done
                }
                MoveStage::Finalize => {
                    self.items.remove(source);
                    StepResult::Done
                }
            };
            match advance_move(&context, &stage, &result) {
                MoveNext::Step(next) => stage = next,
                MoveNext::Finish { drop_gate, error } => {
                    if drop_gate {
                        self.items.remove(destination);
                    }
                    return match error {
                        Some(error) => Err(error),
                        None => Ok(()),
                    };
                }
            }
        }
    }

    fn undo(
        &mut self,
        journal: MutationJournal,
        cause: WriteError,
        labels: &mut Vec<&'static str>,
    ) -> WriteError {
        let mut rollback = journal.rollback(cause);
        loop {
            let succeeded = match rollback.next_step().cloned() {
                None => return rollback.finish(),
                Some(Compensation::MoveBack {
                    phase,
                    source,
                    destination,
                }) => {
                    labels.push(match phase {
                        MutationPhase::Note => "restore moved note",
                        _ => "restore moved asset",
                    });
                    self.relocate(&destination, &source, None, |_| {}).is_ok()
                }
                Some(Compensation::RestoreRewrite {
                    path,
                    original,
                    applied_hash,
                }) => {
                    labels.push("restore rewritten note");
                    let end = self.write(&path, &original, Some(applied_hash), |_| {}, |_| {});
                    end == WriteEnd::Written
                }
            };
            rollback.record(succeeded);
        }
    }
}

fn conflict(end: WriteEnd) -> String {
    match end {
        WriteEnd::Refused(WriteError::Conflict(message)) => message,
        other => panic!("expected a conflict, got {other:?}"),
    }
}

fn recovery(end: WriteEnd) -> String {
    match end {
        WriteEnd::Recovery(WriteError::Io(message)) => {
            assert!(message.contains("recovery required"), "{message}");
            message
        }
        other => panic!("expected a recovery report, got {other:?}"),
    }
}

#[test]
fn atomic_write_persists_content_and_leaves_no_temp_file() {
    let mut folder = Folder::new();
    let end = folder.write("Note.md", "# Note\nbody\n", None, |_| {}, |_| {});
    assert_eq!(end, WriteEnd::Written);
    assert_eq!(folder.text("Note.md").unwrap(), "# Note\nbody\n");
    assert!(folder.sidecars("Note.md").is_empty());

    let end = folder.write("Note.md", "# Note\nupdated\n", None, |_| {}, |_| {});
    assert_eq!(end, WriteEnd::Written);
    assert_eq!(folder.text("Note.md").unwrap(), "# Note\nupdated\n");
    assert!(folder.sidecars("Note.md").is_empty());
}

#[test]
fn atomic_write_avoids_a_planted_temporary_sidecar_without_touching_its_target() {
    let mut folder = Folder::new();
    folder
        .items
        .insert("Note.md.hatchdoor-tmp".to_string(), Item::Link);
    folder.planted = Some("Note.md.hatchdoor-tmp".to_string());
    let end = folder.write("Note.md", "# Note\nupdated\n", None, |_| {}, |_| {});
    assert_eq!(end, WriteEnd::Written);
    assert_eq!(folder.text("Note.md").unwrap(), "# Note\nupdated\n");
    assert_eq!(
        folder.items.get("Note.md.hatchdoor-tmp"),
        Some(&Item::Link),
        "the planted sidecar itself must remain untouched"
    );
}

#[test]
fn a_write_never_replaces_a_link_or_a_folder() {
    for (item, word) in [(Item::Link, "symlink"), (Item::Dir, "")] {
        let mut folder = Folder::new();
        folder.items.insert("image.png".to_string(), item.clone());
        let message = conflict(folder.write("image.png", "new image", None, |_| {}, |_| {}));
        assert!(message.contains(word), "{message}");
        assert_eq!(folder.items.get("image.png"), Some(&item));
    }
    assert!(check_destination(EntryKind::Missing, "x").is_none());
    assert!(check_destination(EntryKind::Regular, "x").is_none());
    assert!(check_destination(EntryKind::Symlink, "x").is_some());
}

#[test]
fn conditional_atomic_write_preserves_a_manual_edit_made_before_commit() {
    let mut folder = Folder::new();
    folder.put("Note.md", "original");
    let expected = content_hash("original");
    let end = folder.write(
        "Note.md",
        "agent edit",
        Some(expected),
        |folder| folder.put("Note.md", "manual edit"),
        |_| {},
    );
    conflict(end);
    assert_eq!(folder.text("Note.md").unwrap(), "manual edit");
    assert!(folder.sidecars("Note.md").is_empty());
}

#[test]
fn atomic_write_reports_recovery_when_a_committed_exchange_cannot_be_undone() {
    let mut folder = Folder::new();
    folder.put("Note.md", "original");
    let end = folder.write(
        "Note.md",
        "agent edit",
        Some(content_hash("original")),
        |_| {},
        |folder| {
            for name in folder.sidecars("Note.md") {
                folder.items.remove(&name);
            }
        },
    );
    assert_eq!(folder.text("Note.md").unwrap(), "agent edit");
    let message = recovery(end);
    assert!(message.contains("Note.md"), "{message}");
    assert!(
        !message.contains("/vault"),
        "a recovery message must not carry the host path: {message}"
    );
}

#[test]
fn atomic_write_restores_the_note_and_clears_its_sidecar_when_the_undo_succeeds() {
    let mut folder = Folder::new();
    folder.put("Note.md", "original");
    let end = folder.write(
        "Note.md",
        "agent edit",
        Some(content_hash("original")),
        |_| {},
        |folder| {
            for name in folder.sidecars("Note.md") {
                folder
                    .items
                    .insert(name, Item::Sealed(b"original".to_vec()));
            }
        },
    );
    assert!(matches!(end, WriteEnd::Refused(WriteError::Io(_))), "{end:?}");
    assert_eq!(
        folder.items.get("Note.md"),
        Some(&Item::Sealed(b"original".to_vec()))
    );
    assert!(folder.sidecars("Note.md").is_empty());
}

#[test]
fn atomic_write_succeeds_when_its_verified_sidecar_cannot_be_removed() {
    let mut folder = Folder::new();
    folder.put("Note.md", "original");
    let end = folder.write(
        "Note.md",
        "agent edit",
        Some(content_hash("original")),
        |_| {},
        |folder| folder.sealed = true,
    );
    assert!(
        matches!(end, WriteEnd::Written),
        "a verified write must not fail over an unremovable sidecar: {end:?}"
    );
    assert_eq!(folder.text("Note.md"), Ok("agent edit".to_string()));
    assert_eq!(folder.sidecars("Note.md").len(), 1);
}

#[test]
fn an_attachment_moves_before_the_notes_that_name_it_change() {
    let rewrite = |path: &str| TextRewrite {
        path: path.to_string(),
        content: "text".to_string(),
    };
    let m = AttachmentMove {
        root: "/vault".to_string(),
        source: "a.png".to_string(),
        destination: "b.png".to_string(),
        rewrites: vec![rewrite("One.md"), rewrite("Two.md")],
        trashed_path: None,
    };
    let actions: Vec<MutationAction> =
        (0..5).map(|taken| next_attachment_action(&m, taken)).collect();
    assert_eq!(
        actions,
        vec![
            MutationAction::MoveAsset(0),
            MutationAction::Rewrite(0),
            MutationAction::Rewrite(1),
            MutationAction::Finished,
            MutationAction::Finished,
        ]
    );
}

#[test]
fn a_compensation_is_named_by_what_it_restores() {
    let back = |phase| Compensation::MoveBack {
        phase,
        source: "a".to_string(),
        destination: "b".to_string(),
    };
    assert_eq!(label_of(&back(MutationPhase::Note)), "restore moved note");
    assert_eq!(label_of(&back(MutationPhase::Asset)), "restore moved asset");
    let rewritten = Compensation::RestoreRewrite {
        path: "a".to_string(),
        original: "x".to_string(),
        applied_hash: content_hash("y"),
    };
    assert_eq!(label_of(&rewritten), "restore rewritten note");
}

#[test]
fn atomic_write_reports_recovery_when_a_concurrent_change_cannot_be_restored() {
    let mut folder = Folder::new();
    folder.put("Note.md", "original");
    let end = folder.write(
        "Note.md",
        "agent edit",
        Some(content_hash("what the caller last read")),
        |_| {},
        |folder| {
            folder.items.remove("Note.md");
        },
    );
    let message = recovery(end);
    assert!(message.contains("Note.md"), "{message}");
}

#[test]
fn a_write_gives_up_behind_too_many_taken_names() {
    let context = WriteContext {
        label: "Note.md".to_string(),
        note: "Note.md".to_string(),
        sidecar: String::new(),
        expected: None,
    };
    let mut stage = WriteStage::Reserve { attempts: 0 };
    let mut tries: usize = 0;
    loop {
        match advance_write(&context, &stage, &StepResult::Taken) {
            WriteNext::Step(next) => {
                stage = next;
                tries += 1;
            }
            WriteNext::Finish { unlink, end } => {
                assert!(!unlink);
                assert!(matches!(end, WriteEnd::Refused(_)));
                break;
            }
        }
    }
    assert!(tries > 0);
    assert!(matches!(
        advance_write(
            &context,
            &WriteStage::Reserve { attempts: 0 },
            &StepResult::NoEntropy("none left".to_string())
        ),
        WriteNext::Finish {
            end: WriteEnd::Refused(WriteError::Io(_)),
            ..
        }
    ));
}

#[test]
fn conditional_move_keeps_a_manual_save_after_the_exchange() {
    let mut folder = Folder::new();
    folder.put("Source.md", "original");
    folder
        .relocate("Source.md", "Moved.md", Some(content_hash("original")), |folder| {
            assert_eq!(
                folder.items.get("Source.md"),
                Some(&Item::Dir),
                "a save must not land at the source until cleanup finishes"
            );
        })
        .expect("move");
    assert_eq!(folder.text("Moved.md").unwrap(), "original");
    assert!(folder.items.get("Source.md").is_none());
}

#[test]
fn conditional_move_puts_a_changed_file_back() {
    let mut folder = Folder::new();
    folder.put("Source.md", "manual edit");
    let error = folder
        .relocate("Source.md", "Moved.md", Some(content_hash("original")), |_| {})
        .expect_err("a changed file must not move");
    assert!(
        matches!(&error, WriteError::Conflict(message) if message.contains("changed since it was read")),
        "{error:?}"
    );
    assert_eq!(folder.text("Source.md").unwrap(), "manual edit");
    assert!(folder.items.get("Moved.md").is_none());
}

#[test]
fn move_file_no_follow_rejects_a_symlink_source_and_restores_it() {
    let mut folder = Folder::new();
    folder.items.insert("asset.png".to_string(), Item::Link);
    let error = folder
        .relocate("asset.png", "moved.png", None, |_| {})
        .expect_err("symlink sources must not be moved");
    assert!(matches!(error, WriteError::Conflict(_)));
    assert_eq!(folder.items.get("asset.png"), Some(&Item::Link));
    assert!(folder.items.get("moved.png").is_none());
}

#[test]
fn move_file_no_follow_rejects_a_path_carrying_a_parent_component() {
    let mut folder = Folder::new();
    folder
        .items
        .insert("asset.png".to_string(), Item::File(BINARY_ASSET.to_vec()));
    let error = folder
        .relocate("asset.png", "folder-x/../moved.png", None, |_| {})
        .expect_err("a destination carrying '..' must not reach the file system");
    let WriteError::Io(message) = error else {
        panic!("expected an I/O error naming the unsupported component");
    };
    assert!(
        message.contains("write path has unsupported component"),
        "unexpected message: {message}"
    );
    assert!(folder.items.contains_key("asset.png"));
}

#[test]
fn move_file_no_follow_moves_bytes_that_are_not_valid_utf8() {
    let mut folder = Folder::new();
    folder
        .items
        .insert("photo.jpg".to_string(), Item::File(BINARY_ASSET.to_vec()));
    folder
        .relocate("photo.jpg", "moved.jpg", None, |_| {})
        .expect("a binary asset must move");
    assert!(folder.items.get("photo.jpg").is_none());
    assert_eq!(
        folder.items.get("moved.jpg"),
        Some(&Item::File(BINARY_ASSET.to_vec()))
    );
}

#[test]
fn move_file_no_follow_rejects_a_fifo_source_and_restores_it() {
    let mut folder = Folder::new();
    folder.items.insert("asset.png".to_string(), Item::Fifo);
    let error = folder
        .relocate("asset.png", "moved.png", None, |_| {})
        .expect_err("a FIFO must not be moved");
    assert!(matches!(error, WriteError::Conflict(_)));
    assert_eq!(folder.items.get("asset.png"), Some(&Item::Fifo));
    assert!(folder.items.get("moved.png").is_none());
}

#[test]
fn a_move_never_replaces_a_file() {
    let mut folder = Folder::new();
    folder.put("a.png", "a");
    folder.put("b.png", "b");
    let error = folder
        .relocate("a.png", "b.png", None, |_| {})
        .expect_err("an occupied destination must refuse the move");
    assert!(
        matches!(&error, WriteError::Conflict(message) if message == "destination already exists: b.png")
    );
    assert_eq!(folder.text("b.png").unwrap(), "b");
}

#[test]
fn mutation_journal_restores_binary_asset_bytes_when_a_later_move_fails() {
    let mut folder = Folder::new();
    folder
        .items
        .insert("photo.jpg".to_string(), Item::File(BINARY_ASSET.to_vec()));
    folder.put("notes.txt", "text asset");
    let before = folder.clone();
    let mut journal = MutationJournal::new();
    for (source, destination) in [
        ("photo.jpg", "dst-photo.jpg"),
        ("notes.txt", "missing/notes.txt"),
    ] {
        let result = folder.relocate(source, destination, None, |_| {});
        journal.retain_completed_move(
            MutationPhase::Asset,
            source,
            destination,
            result.is_ok(),
            folder.items.contains_key(destination),
            folder.items.contains_key(source),
        );
        if let Err(cause) = result {
            let error = folder.undo(journal, cause, &mut Vec::new());
            assert!(matches!(error, WriteError::Io(_)));
            assert_eq!(folder, before);
            return;
        }
    }
    panic!("the later move must fail");
}

#[test]
fn mutation_journal_compensates_rewrite_asset_and_note_in_reverse_order() {
    let mut folder = Folder::new();
    folder.put("Note.md", "note");
    folder.put("asset.png", "asset");
    folder.put("Backlink.md", "original backlink");
    let before = folder.clone();
    let mut journal = MutationJournal::new();
    folder
        .relocate("Note.md", "Moved.md", Some(content_hash("note")), |_| {})
        .expect("move note");
    journal.retain_completed_move(MutationPhase::Note, "Note.md", "Moved.md", true, true, false);
    folder
        .relocate("asset.png", "moved.png", None, |_| {})
        .expect("move asset");
    journal.retain_completed_move(
        MutationPhase::Asset,
        "asset.png",
        "moved.png",
        true,
        true,
        false,
    );
    folder.write("Backlink.md", "rewritten backlink", None, |_| {}, |_| {});
    assert!(journal.retain_completed_rewrite(
        "Backlink.md",
        "rewritten backlink",
        "original backlink",
        true,
        None
    ));
    let mut labels: Vec<&'static str> = Vec::new();
    let error = folder.undo(
        journal,
        WriteError::Io("injected after rewrite".to_string()),
        &mut labels,
    );
    let WriteError::Io(message) = error else {
        panic!("expected injected failure");
    };
    assert!(message.contains("rollback succeeded"));
    assert_eq!(
        labels,
        vec![
            "restore rewritten note",
            "restore moved asset",
            "restore moved note"
        ]
    );
    assert_eq!(folder, before);
}

#[test]
fn mutation_journal_preserves_a_manual_edit_before_forward_rewrite_commit() {
    let mut folder = Folder::new();
    folder.put("Note.md", "note");
    folder.put("Backlink.md", "original backlink");
    let mut journal = MutationJournal::new();
    folder
        .relocate("Note.md", "Moved.md", Some(content_hash("note")), |_| {})
        .expect("move note");
    journal.retain_completed_move(MutationPhase::Note, "Note.md", "Moved.md", true, true, false);
    let end = folder.write(
        "Backlink.md",
        "rewritten backlink",
        Some(content_hash("original backlink")),
        |folder| folder.put("Backlink.md", "manual edit"),
        |_| {},
    );
    let WriteEnd::Refused(cause) = end else {
        panic!("the rewrite must be refused");
    };
    assert!(!journal.retain_completed_rewrite(
        "Backlink.md",
        "rewritten backlink",
        "original backlink",
        false,
        Some("manual edit")
    ));
    let error = folder.undo(journal, cause, &mut Vec::new());
    let WriteError::Conflict(message) = error else {
        panic!("expected rewrite conflict");
    };
    assert!(message.contains("rollback succeeded"));
    assert_eq!(folder.text("Note.md").unwrap(), "note");
    assert_eq!(folder.text("Backlink.md").unwrap(), "manual edit");
    assert!(folder.items.get("Moved.md").is_none());
}

#[test]
fn a_journal_without_steps_reports_the_cause_alone() {
    let cause = WriteError::Io("disk full".to_string());
    let error = Folder::new().undo(MutationJournal::new(), cause.clone(), &mut Vec::new());
    assert_eq!(error, cause);
    assert!(matches!(
        annotate_rollback_succeeded(&cause),
        WriteError::Io(message) if message.starts_with("disk full") && message.contains("rollback succeeded")
    ));
}

#[test]
fn an_exchange_without_a_native_step_parks_one_file() {
    let done = ExchangeResult::Done;
    let next = |stage, result: &ExchangeResult| advance_exchange("a.md", stage, result);
    let reserve = |attempts| ExchangeStage::Reserve { attempts };
    assert_eq!(next(ExchangeStage::Native, &done), ExchangeNext::Exchanged);
    assert_eq!(
        next(ExchangeStage::Native, &ExchangeResult::Unsupported),
        ExchangeNext::Step(reserve(0))
    );
    assert_eq!(next(reserve(0), &done), ExchangeNext::Step(ExchangeStage::Park));
    assert_eq!(
        next(ExchangeStage::Park, &done),
        ExchangeNext::Step(ExchangeStage::Swap)
    );
    assert_eq!(
        next(ExchangeStage::Swap, &done),
        ExchangeNext::Step(ExchangeStage::Land)
    );
    assert_eq!(next(ExchangeStage::Land, &done), ExchangeNext::Exchanged);
    let failed = ExchangeResult::Failed("gone".to_string());
    assert_eq!(
        next(ExchangeStage::Land, &failed),
        ExchangeNext::Failed {
            undo: vec![(Slot::From, Slot::To), (Slot::Parking, Slot::From)],
            unlink: false,
            why: "failed to commit descriptor-relative rename: gone".to_string()
        }
    );
    assert_eq!(
        next(ExchangeStage::Park, &failed),
        ExchangeNext::Failed {
            undo: vec![],
            unlink: true,
            why: "failed to commit descriptor-relative rename: gone".to_string()
        }
    );
    assert_eq!(
        next(ExchangeStage::Native, &failed),
        ExchangeNext::Failed {
            undo: vec![],
            unlink: false,
            why: "gone".to_string()
        }
    );
}

#[test]
fn an_exchange_tries_several_parking_names() {
    let mut stage = ExchangeStage::Reserve { attempts: 0 };
    for attempts in 1..32 {
        match advance_exchange("a.md", stage, &ExchangeResult::Taken) {
            ExchangeNext::Step(next) => stage = next,
            other => panic!("{other:?}"),
        }
        assert_eq!(stage, ExchangeStage::Reserve { attempts });
    }
    let failure = |why: &str| ExchangeNext::Failed {
        undo: vec![],
        unlink: false,
        why: why.to_string(),
    };
    assert_eq!(
        advance_exchange("a.md", stage, &ExchangeResult::Taken),
        failure("failed to reserve a unique temporary file after 32 attempts")
    );
    assert_eq!(
        advance_exchange("a.md", stage, &ExchangeResult::NoEntropy("none".to_string())),
        failure("failed to generate temporary filename entropy: none")
    );
    assert_eq!(
        advance_exchange("a.md", stage, &ExchangeResult::Failed("full".to_string())),
        failure("failed to create a temporary file beside 'a.md': full")
    );
}

#[test]
fn mutation_journal_rolls_back_already_moved_assets_on_failure() {
    let mut folder = Folder::new();
    folder.put("a.png", "a");
    folder.put("b.png", "b");
    let mut journal = MutationJournal::new();
    folder
        .relocate("a.png", "dst/a.png", None, |_| {})
        .expect("first move");
    journal.retain_completed_move(MutationPhase::Asset, "a.png", "dst/a.png", true, true, false);
    let cause = folder
        .relocate("b.png", "missing/b.png", None, |_| {})
        .expect_err("second move must fail");
    journal.retain_completed_move(
        MutationPhase::Asset,
        "b.png",
        "missing/b.png",
        false,
        false,
        true,
    );
    let error = folder.undo(journal, cause, &mut Vec::new());

    assert!(matches!(error, WriteError::Io(_)));
    assert_eq!(
        folder.text("a.png").as_deref(),
        Ok("a"),
        "a.png should be rolled back to its source"
    );
    assert!(
        !folder.items.contains_key("dst/a.png"),
        "a.png should not remain at the destination"
    );
    assert_eq!(
        folder.text("b.png").as_deref(),
        Ok("b"),
        "b.png should still be at its source"
    );
}

#[test]
fn mutation_journal_restores_prior_rewrites_when_a_later_rewrite_fails() {
    let mut folder = Folder::new();
    folder.put("First.md", "original first\n");
    let mut journal = MutationJournal::new();
    let end = folder.write(
        "First.md",
        "rewritten first\n",
        Some(content_hash("original first\n")),
        |_| {},
        |_| {},
    );
    assert_eq!(end, WriteEnd::Written);
    assert!(journal.retain_completed_rewrite(
        "First.md",
        "rewritten first\n",
        "original first\n",
        true,
        None
    ));

    let cause = WriteError::Io("missing/Second.md: no such file".to_string());
    let error = folder.undo(journal, cause, &mut Vec::new());

    let WriteError::Io(message) = error else {
        panic!("expected I/O failure");
    };
    assert!(message.contains("rollback succeeded"));
    assert_eq!(folder.text("First.md").as_deref(), Ok("original first\n"));
}

#[test]
fn the_way_to_a_file_is_one_plain_name_at_a_time() {
    let way = plan_descent("/vault//./Notes/Home.md").expect("absolute");
    assert_eq!(way.folders, vec!["vault", "Notes"]);
    assert_eq!(way.refusal, None);
    assert_eq!(way.name, "Home.md");

    let way = plan_descent("/vault/a/../b/Home.md").expect("absolute");
    assert_eq!(way.folders, vec!["vault", "a"]);
    assert_eq!(
        way.refusal.as_deref(),
        Some("write path has unsupported component")
    );
    let way = plan_descent("/vault/a\0b/Home.md").expect("absolute");
    assert_eq!(way.folders, vec!["vault"]);
    assert_eq!(way.refusal.as_deref(), Some("path component has NUL"));

    for path in ["", "/", "/vault/.."] {
        assert_eq!(
            plan_descent(path),
            Err("write destination has no filename".to_string())
        );
    }
    assert_eq!(
        plan_descent("/vault/a\0.md"),
        Err("write destination filename has NUL".to_string())
    );
    assert_eq!(
        plan_descent("vault/Home.md"),
        Err("write destination must be absolute".to_string())
    );
    assert_eq!(bounded_write_name("/vault/Notes/Home.md"), "Home.md");
    assert_eq!(bounded_write_name("/vault/.."), "<vault path>");
}
