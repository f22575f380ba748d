use hatchdoor_vault::executor::{
    advance_index_turn, collection_indexes_ready, dispatch_commit_turn, dispatch_git_turn_with,
    finish_commit_turn, freshness_at_publication, git_author_defaults, plan_commit_turn, plan_git_turn, publish_outcome,
    publish_managed_git_turn_outcome, run_planned_turn, start_index_turn, start_planned_turn,
    turn_for, AffectedPaths, CommitAuthor, GitDispatch, GitTurnPlan, GitTurnWork, HttpsCredentials,
    IndexEvent, IndexStage, LocalContentStatus, SnapshotStatus, StartupChange, Turn, TurnEvent,
    TurnLog, TurnNext, TurnStage, VaultDefinition, VaultGitMode, VaultGitStatus, VaultSearchStatus,
    VaultSnapshotFreshness, VaultSource, VaultWorkError, VaultWorkKind,
};
use hatchdoor_vault::vault_error::{VaultOperationError, VaultReadError};

fn vault(source: VaultSource) -> VaultDefinition {
    VaultDefinition {
        vault_id: 7,
        vault_path: "/vault".to_string(),
        source,
    }
}

fn existing(mode: VaultGitMode) -> VaultDefinition {
    vault(VaultSource::ExistingGit {
        repository_path: "/repo".to_string(),
        repository_url: Some("https://example.test/repo.git".to_string()),
        branch: "main".to_string(),
        mode,
    })
}

fn managed(mode: VaultGitMode) -> VaultDefinition {
    vault(VaultSource::ManagedGit {
        repository_url: "https://example.test/repo.git".to_string(),
        branch: "main".to_string(),
        vault_subdirectory: Some("notes".to_string()),
        mode,
        poll_interval_secs: 60,
    })
}

fn local() -> VaultDefinition {
    vault(VaultSource::Local {
        path: "/vault".to_string(),
    })
}

fn author() -> CommitAuthor {
    CommitAuthor {
        name: "A".to_string(),
        email: "a@example.test".to_string(),
    }
}

fn commit_plan(vault: &VaultDefinition) -> Option<GitTurnPlan> {
    plan_commit_turn(vault, "/state", &author())
}

fn git_plan(vault: &VaultDefinition) -> Option<GitTurnPlan> {
    match plan_git_turn(vault, "/state", &Ok(None), &author()) {
        Ok(plan) => plan,
        Err(error) => panic!("unexpected {error:?}"),
    }
}

fn planned(plan: Option<GitTurnPlan>) -> GitTurnPlan {
    match plan {
        Some(plan) => plan,
        None => panic!("no turn is planned"),
    }
}

fn failure(code: &str) -> VaultWorkError {
    VaultWorkError::new(code, "it failed", true)
}

#[test]
fn git_author_defaults_follow_a_saved_settings_change_without_a_restart() {
    let mut settings: Vec<(String, String)> = Vec::new();
    assert_eq!(
        git_author_defaults(&settings),
        ("Hatchdoor".to_string(), "hatchdoor@localhost".to_string())
    );

    settings.push((
        "HATCHDOOR_GIT_AUTHOR_NAME".to_string(),
        "Second Author".to_string(),
    ));
    settings.push((
        "HATCHDOOR_GIT_AUTHOR_EMAIL".to_string(),
        "second@example.test".to_string(),
    ));
    assert_eq!(
        git_author_defaults(&settings),
        (
            "Second Author".to_string(),
            "second@example.test".to_string()
        )
    );
}

#[test]
fn a_blank_setting_counts_as_absent() {
    let settings = vec![(
        "HATCHDOOR_GIT_AUTHOR_NAME".to_string(),
        "   ".to_string(),
    )];
    assert_eq!(git_author_defaults(&settings).0, "Hatchdoor");
}

#[test]
fn startup_readiness_follows_collection_index_completion() {
    assert!(!collection_indexes_ready(&Vec::new()));
    assert!(!collection_indexes_ready(&vec![Some(
        VaultSearchStatus::Indexing
    )]));
    assert!(!collection_indexes_ready(&vec![
        Some(VaultSearchStatus::Ready),
        None
    ]));
    assert!(collection_indexes_ready(&vec![
        Some(VaultSearchStatus::Ready),
        Some(VaultSearchStatus::Ready)
    ]));
}

#[test]
fn each_kind_of_turn_is_told_apart() {
    let settings: Vec<(String, String)> = Vec::new();
    assert!(matches!(
        turn_for(VaultWorkKind::Git, &settings, None),
        Turn::Git { author_name, .. } if author_name == "Hatchdoor"
    ));
    assert!(matches!(
        turn_for(VaultWorkKind::Commit, &settings, None),
        Turn::Commit { .. }
    ));
    assert_eq!(
        turn_for(VaultWorkKind::Index, &settings, None),
        Turn::Index { embed_layers: true }
    );
    assert_eq!(
        turn_for(VaultWorkKind::Index, &settings, Some(false)),
        Turn::Index {
            embed_layers: false
        }
    );
    assert!(matches!(
        turn_for(VaultWorkKind::Repair, &settings, None),
        Turn::Refused(error) if error.code == "vault_work_kind_not_yet_implemented"
            && error.message == "Repair dispatch is not implemented yet" && !error.retryable
    ));
}

#[test]
fn publish_outcome_moves_startup_only_behind_index_turns() {
    assert_eq!(
        publish_outcome(VaultWorkKind::Index, &Ok(()), true),
        (StartupChange::Ready, TurnLog::Nothing)
    );
    assert_eq!(
        publish_outcome(VaultWorkKind::Index, &Ok(()), false).0,
        StartupChange::Unchanged
    );
    assert_eq!(
        publish_outcome(VaultWorkKind::Index, &Err(failure("embedder_not_ready")), false),
        (StartupChange::Unchanged, TurnLog::Failure)
    );
    assert_eq!(
        publish_outcome(VaultWorkKind::Index, &Err(failure("vault_index_failed")), true).0,
        StartupChange::Failed
    );
    assert_eq!(
        publish_outcome(
            VaultWorkKind::Git,
            &Err(failure("vault_work_kind_not_yet_implemented")),
            true
        ),
        (StartupChange::Unchanged, TurnLog::Expected)
    );
}

#[test]
fn an_index_turn_is_put_off_while_the_model_is_being_set_up() {
    assert!(matches!(
        start_index_turn(false, true),
        IndexStage::End(Err(error)) if error.code == "embedder_not_ready" && error.retryable
    ));
    assert_eq!(start_index_turn(true, false), IndexStage::End(Ok(())));
    assert_eq!(start_index_turn(true, true), IndexStage::AcquireReads);
}

#[test]
fn an_index_turn_walks_its_steps_and_reports_ready_or_stale() {
    let mut stage = start_index_turn(true, true);
    for expected in [
        IndexStage::ReportIndexing,
        IndexStage::AcquireRefresh,
        IndexStage::MarkStale,
        IndexStage::ReadNotes,
        IndexStage::PublishStructure,
        IndexStage::ReportBrowsable,
        IndexStage::Publish,
    ] {
        stage = advance_index_turn(&stage, &IndexEvent::Done);
        assert_eq!(stage, expected);
    }
    for (mutated, status) in [
        (false, VaultSearchStatus::Ready),
        (true, VaultSearchStatus::Stale),
    ] {
        assert_eq!(
            advance_index_turn(
                &stage,
                &IndexEvent::Published(freshness_at_publication(mutated))
            ),
            IndexStage::Report {
                status,
                error: None,
                result: Ok(())
            }
        );
    }
}

#[test]
fn a_failed_index_turn_reports_what_the_kept_snapshot_can_do() {
    let failed = IndexEvent::Failed {
        message: "unreadable".to_string(),
        retryable: false,
    };
    let marked = advance_index_turn(&IndexStage::ReadNotes, &failed);
    let inspect = advance_index_turn(
        &marked,
        &IndexEvent::Failed {
            message: "locked".to_string(),
            retryable: true,
        },
    );
    for (snapshot, expected) in [
        (
            Some(SnapshotStatus {
                participating: true,
                searchable: true,
            }),
            VaultSearchStatus::Stale,
        ),
        (
            Some(SnapshotStatus {
                participating: true,
                searchable: false,
            }),
            VaultSearchStatus::Browsable,
        ),
        (None, VaultSearchStatus::Unavailable),
    ] {
        match advance_index_turn(&inspect, &IndexEvent::Snapshot(snapshot)) {
            IndexStage::Report {
                status,
                error: Some(error),
                result: Err(result),
            } => {
                assert_eq!(status, expected);
                assert_eq!(
                    error.message,
                    "unreadable (also could not mark the retained snapshot stale: locked)"
                );
                assert_eq!(result.message, "unreadable");
                assert_eq!(result.code, "vault_index_failed");
            }
            other => panic!("unexpected {other:?}"),
        }
    }
    let panicked = advance_index_turn(
        &IndexStage::Publish,
        &IndexEvent::Panicked("boom".to_string()),
    );
    assert!(matches!(
        panicked,
        IndexStage::MarkFailed(error) if error.code == "vault_index_task_panicked"
            && !error.retryable
    ));
    // A snapshot that could not be replaced is still the one that was there.
    assert!(matches!(
        advance_index_turn(&IndexStage::Publish, &failed),
        IndexStage::InspectSnapshot { error, mark_error: None } if error.retryable
    ));
}

#[test]
fn only_modes_that_commit_have_a_commit_turn() {
    assert!(commit_plan(&local()).is_none());
    assert!(commit_plan(&existing(VaultGitMode::PullOnly)).is_none());
    assert!(commit_plan(&managed(VaultGitMode::PullOnly)).is_none());
    assert!(commit_plan(&managed(VaultGitMode::LocalHistory)).is_none());
    let history = planned(commit_plan(&existing(VaultGitMode::LocalHistory)));
    assert!(!history.holds_mutation_lock);
    assert_eq!(
        history.panic_code,
        "existing_git_local_history_task_panicked"
    );
    assert!(matches!(
        history.work,
        GitTurnWork::LocalHistory { vault_path, author: by } if vault_path == "/vault" && by == author()
    ));
    let two_way = planned(commit_plan(&existing(VaultGitMode::TwoWay)));
    assert!(two_way.holds_mutation_lock);
    assert!(matches!(
        two_way.work,
        GitTurnWork::ExistingCommit { repository_path, branch, mode: VaultGitMode::TwoWay, .. }
            if repository_path == "/repo" && branch == "main"
    ));
    let managed_plan = planned(commit_plan(&managed(VaultGitMode::TwoWay)));
    assert_eq!(managed_plan.panic_code, "managed_git_commit_task_panicked");
    assert!(matches!(
        managed_plan.work,
        GitTurnWork::ManagedCommit(config) if config.vault_id == 7
            && config.state_directory == "/state"
            && config.vault_subdirectory.as_deref() == Some("notes")
            && config.credentials.is_none()
    ));
    let two_way = managed(VaultGitMode::TwoWay);
    assert!(dispatch_commit_turn(None, "/state", &author()).is_none());
    assert!(dispatch_commit_turn(Some(&two_way), "/state", &author()).is_some());
}

#[test]
fn a_turn_with_a_remote_needs_the_credentials() {
    let unreadable = Err("registry locked".to_string());
    assert!(matches!(
        plan_git_turn(&local(), "/state", &unreadable, &author()),
        Ok(None)
    ));
    let history = existing(VaultGitMode::LocalHistory);
    assert!(matches!(
        plan_git_turn(&history, "/state", &unreadable, &author()),
        Ok(Some(_))
    ));
    assert!(matches!(
        plan_git_turn(&managed(VaultGitMode::PullOnly), "/state", &unreadable, &author()),
        Err(error) if error.code == "managed_git_registry_unavailable"
            && error.message == "registry locked" && error.retryable
    ));
    let known = Ok(Some(HttpsCredentials {
        username: "u".to_string(),
        password: "p".to_string(),
    }));
    match plan_git_turn(&existing(VaultGitMode::PullOnly), "/state", &known, &author()) {
        Ok(Some(plan)) => {
            assert_eq!(plan.panic_code, "existing_git_remote_task_panicked");
            assert!(plan.holds_mutation_lock);
            assert!(matches!(
                plan.work,
                GitTurnWork::ExistingRemote { credentials: Some(c), .. } if c.username == "u"
            ));
        }
        _ => panic!("a turn must be planned"),
    }
    assert!(matches!(
        dispatch_git_turn_with(None, "/state", &known, &author()),
        GitDispatch::Deactivate
    ));
    assert!(matches!(
        dispatch_git_turn_with(Some(&local()), "/state", &known, &author()),
        GitDispatch::Nothing
    ));
    let two_way = managed(VaultGitMode::TwoWay);
    assert!(matches!(
        dispatch_git_turn_with(Some(&two_way), "/state", &unreadable, &author()),
        GitDispatch::Fail(_)
    ));
    assert!(matches!(
        dispatch_git_turn_with(Some(&two_way), "/state", &known, &author()),
        GitDispatch::Run(GitTurnPlan {
            holds_mutation_lock: true,
            ..
        })
    ));
}

#[test]
fn a_planned_turn_takes_the_lease_before_the_lock_and_loses_it_when_aborted() {
    let plan = planned(git_plan(&managed(VaultGitMode::TwoWay)));
    assert_eq!(start_planned_turn(&plan), TurnStage::AcquireLease);
    assert_eq!(
        run_planned_turn(&plan, TurnStage::AcquireLease, &TurnEvent::Done),
        TurnNext::Step(TurnStage::AcquireLock)
    );
    assert_eq!(
        run_planned_turn(&plan, TurnStage::AcquireLock, &TurnEvent::Done),
        TurnNext::Step(TurnStage::Work)
    );
    assert_eq!(
        run_planned_turn(&plan, TurnStage::Work, &TurnEvent::Done),
        TurnNext::Finish {
            keep_lease: true,
            result: Ok(())
        }
    );
    assert_eq!(
        run_planned_turn(
            &plan,
            TurnStage::Work,
            &TurnEvent::Panicked("boom".to_string())
        ),
        TurnNext::Finish {
            keep_lease: false,
            result: Err(VaultWorkError::new(
                "managed_git_task_panicked",
                "boom",
                false
            ))
        }
    );
    assert_eq!(
        run_planned_turn(
            &plan,
            TurnStage::AcquireLock,
            &TurnEvent::Failed(failure("vault_gone"))
        ),
        TurnNext::Finish {
            keep_lease: false,
            result: Err(failure("managed_git_mutation_unavailable"))
        }
    );
    let history = planned(commit_plan(&existing(VaultGitMode::LocalHistory)));
    assert_eq!(start_planned_turn(&history), TurnStage::Work);
    assert_eq!(
        run_planned_turn(
            &history,
            TurnStage::Work,
            &TurnEvent::Failed(failure("git"))
        ),
        TurnNext::Finish {
            keep_lease: false,
            result: Err(failure("git"))
        }
    );
}

#[test]
fn a_failed_commit_turn_holds_further_commits_back() {
    let mut dirty = failure("managed_git_dirty_working_copy");
    dirty.detail = Some(AffectedPaths {
        paths: vec!["outside.md".to_string()],
        total: 1,
    });
    let failed = finish_commit_turn(&Err(dirty.clone()));
    assert!(failed.arm_cooldown);
    assert_eq!(failed.git, VaultGitStatus::Unavailable);
    assert_eq!(failed.error, Some(dirty));
    let done = finish_commit_turn(&Ok(()));
    assert!(!done.arm_cooldown);
    assert_eq!(done.git, VaultGitStatus::Ready);
    assert_eq!(done.error, None);
}

#[test]
fn publish_managed_git_turn_outcome_isolates_a_failure_from_already_acquired_local_markdown() {
    let failed = publish_managed_git_turn_outcome(
        &Err(failure("git")),
        true,
        LocalContentStatus::ReadWrite,
    );
    assert_eq!(failed.git, VaultGitStatus::Unavailable);
    assert_eq!(failed.local_content, None);
    assert!(!failed.request_index && !failed.succeeded);
    let done = publish_managed_git_turn_outcome(&Ok(()), true, LocalContentStatus::ReadOnly);
    assert_eq!(done.local_content, Some(LocalContentStatus::ReadOnly));
    assert!(done.request_index && done.succeeded);
    assert!(
        !publish_managed_git_turn_outcome(&Ok(()), true, LocalContentStatus::Unavailable)
            .request_index
    );
    assert!(
        !publish_managed_git_turn_outcome(&Ok(()), false, LocalContentStatus::ReadWrite)
            .request_index
    );
}

#[test]
fn a_read_failure_is_an_operation_failure() {
    let error = VaultOperationError::from(VaultReadError {
        code: "vault_missing".to_string(),
        message: "no such vault".to_string(),
        vault_id: Some(3),
        retryable: true,
    });
    assert_eq!(
        error,
        VaultOperationError::new("vault_missing", "no such vault", Some(3), true)
    );
}

#[test]
fn a_snapshot_that_a_note_overtook_is_published_stale() {
    assert_eq!(freshness_at_publication(true), VaultSnapshotFreshness::Stale);
    assert_eq!(freshness_at_publication(false), VaultSnapshotFreshness::Fresh);
}
