use hatchdoor_vault::requests::{unanswered, RequestBody, PROPFIND_BODY};
use hatchdoor_vault::scheduler::{WebDavScheduler, WEBDAV_BACKOFF_BASE_MS, WEBDAV_BACKOFF_MAX_MS};
use hatchdoor_vault::sync::{
    accept_state, ancestor_dirs, fingerprint_changed, fingerprint_of, first_run_state,
    is_hatchdoor_name, is_http_404, is_mkcol_already_exists, is_new_since_last_sync, join_rel,
    FetchResult, LocalKind, LocalStep, MkdirResult, RemoteStep, RemoveResult, StoredFile, Sync,
    SyncState, STATE_VERSION,
};
use hatchdoor_vault::webdav::{
    entries_of_nodes, parse_multistatus, parse_number, percent_decode, urlencode_segment,
    WebDavClient, WebDavCredentials, WebDavEntry, WebDavError, XmlNode,
};

fn stored(size: u64, etag: Option<&str>) -> StoredFile {
    StoredFile {
        size,
        etag: etag.map(str::to_string),
    }
}

fn entry(path: &str, is_dir: bool, size: u64, etag: Option<&str>) -> WebDavEntry {
    WebDavEntry {
        path: path.to_string(),
        is_dir,
        size,
        etag: etag.map(str::to_string),
    }
}

fn client(base: &str) -> WebDavClient {
    match WebDavClient::new(base, None) {
        Ok(client) => client,
        Err(error) => panic!("{}", error.0),
    }
}

fn listing(xml: &str) -> Vec<WebDavEntry> {
    match parse_multistatus(xml) {
        Ok(entries) => entries,
        Err(error) => panic!("{}", error.0),
    }
}

#[test]
fn urlencode_encodes_segments() {
    assert_eq!(urlencode_segment("Home.md"), "Home.md");
    assert_eq!(urlencode_segment("a b"), "a%20b");
    assert_eq!(urlencode_segment("a?b"), "a%3Fb");
    assert_eq!(urlencode_segment("a#b"), "a%23b");
    assert_eq!(urlencode_segment("a&b"), "a%26b");
}

#[test]
fn url_for_joins_and_encodes() {
    let c = client("https://ex/dav");
    // file URLs have no trailing slash; collections do.
    assert_eq!(c.file_url(""), "https://ex/dav/");
    assert_eq!(c.collection_url(""), "https://ex/dav/");
    assert_eq!(c.file_url("Home.md"), "https://ex/dav/Home.md");
    assert_eq!(c.file_url("Notes/a b.md"), "https://ex/dav/Notes/a%20b.md");
    assert_eq!(c.collection_url("Notes"), "https://ex/dav/Notes/");
}

#[test]
fn an_address_that_is_not_http_is_refused() {
    let refused = WebDavClient::new("ftp://ex/dav", None);
    assert!(matches!(refused, Err(WebDavError(why)) if why == "WebDAV URL must be http(s)://"));
    assert_eq!(
        client("  http://ex/dav//  ").file_url("a"),
        "http://ex/dav/a"
    );
}

#[test]
fn parses_multistatus() {
    let xml = r#"<?xml version="1.0"?>
<D:multistatus xmlns:D="DAV:">
  <D:response>
    <D:href>/dav/</D:href>
    <D:propstat><D:prop><D:resourcetype><D:collection/></D:resourcetype></D:prop>
    <D:status>HTTP/1.1 200 OK</D:status></D:propstat>
  </D:response>
  <D:response>
    <D:href>/dav/Home.md</D:href>
    <D:propstat><D:prop>
      <D:resourcetype/>
      <D:getcontentlength>123</D:getcontentlength>
      <D:getetag>"abc"</D:getetag>
    </D:prop><D:status>HTTP/1.1 200 OK</D:status></D:propstat>
  </D:response>
  <D:response>
    <D:href>/dav/Notes/</D:href>
    <D:propstat><D:prop><D:resourcetype><D:collection/></D:resourcetype></D:prop>
    <D:status>HTTP/1.1 200 OK</D:status></D:propstat>
  </D:response>
  <D:response>
    <D:href>/dav/Notes/Note%20One.md</D:href>
    <D:propstat><D:prop>
      <D:resourcetype/>
      <D:getcontentlength>20</D:getcontentlength>
    </D:prop><D:status>HTTP/1.1 200 OK</D:status></D:propstat>
  </D:response>
</D:multistatus>"#;
    let entries = listing(xml);
    assert_eq!(entries.len(), 4);
    assert!(entries[0].is_dir);
    assert_eq!(entries[0].path, "");
    // file
    assert!(!entries[1].is_dir);
    assert_eq!(entries[1].path, "Home.md");
    assert_eq!(entries[1].size, 123);
    assert_eq!(entries[1].etag.as_deref(), Some("\"abc\""));
    // subdir (trailing slash stripped)
    assert!(entries[2].is_dir);
    assert_eq!(entries[2].path, "Notes");
    // percent-encoded space in a nested file decoded
    assert!(!entries[3].is_dir);
    assert_eq!(entries[3].path, "Notes/Note One.md");
}

#[test]
fn a_listing_that_is_no_xml_is_refused() {
    let refused = parse_multistatus("not xml");
    assert!(matches!(refused, Err(WebDavError(why)) if why.starts_with("webdav PROPFIND parse: ")));
}

#[test]
fn percent_decode_handles_encodings() {
    assert_eq!(percent_decode("Home.md"), "Home.md");
    assert_eq!(percent_decode("Note%20One.md"), "Note One.md");
    assert_eq!(percent_decode("a%2Fb"), "a/b");
    assert_eq!(percent_decode("100%25"), "100%");
    assert_eq!(percent_decode("caf%C3%A9"), "café");
    assert_eq!(percent_decode("a+b"), "a+b"); // `+` is literal in a path
    assert_eq!(percent_decode("a%2"), "a%2"); // malformed escape stays literal
}

#[test]
fn bytes_that_are_no_text_are_replaced() {
    assert_eq!(percent_decode("a%FFb"), "a\u{fffd}b");
}

#[test]
fn decoding_an_encoded_segment_gives_it_back() {
    for segment in ["Home.md", "a b/c", "100%", "café 資料", "%41", ""] {
        assert_eq!(percent_decode(&urlencode_segment(segment)), segment);
    }
}

#[test]
fn credentials_redact_password_in_debug() {
    let c = WebDavCredentials {
        username: "u".to_string(),
        password: "s3cret".to_string(),
    };
    let s = c.redacted();
    assert!(!s.contains("s3cret"));
    assert!(s.contains("[REDACTED]"));
}

#[test]
fn requests_name_their_method_address_and_headers() {
    let c = client("https://ex/dav");
    let list = c.list("Notes");
    assert_eq!(list.method, "PROPFIND");
    assert_eq!(list.url, "https://ex/dav/Notes/");
    assert_eq!(
        list.headers,
        vec![
            ("Depth".to_string(), "1".to_string()),
            ("Content-Type".to_string(), "application/xml".to_string()),
        ]
    );
    assert_eq!(list.body, RequestBody::Properties);
    assert!(PROPFIND_BODY.contains("<d:getetag/>"));
    assert_eq!(
        list.refused("HTTP status client error (404 Not Found)").0,
        "webdav PROPFIND Notes: HTTP status client error (404 Not Found)"
    );
    assert_eq!(c.get("a b.md").url, "https://ex/dav/a%20b.md");
    let put = c.put("a.md", vec![1, 2], Some("\"v1\""));
    assert_eq!(put.method, "PUT");
    assert_eq!(put.body, RequestBody::Contents(vec![1, 2]));
    assert_eq!(
        put.headers[1],
        ("If-Match".to_string(), "\"v1\"".to_string())
    );
    assert_eq!(c.put("a.md", vec![], None).headers.len(), 1);
    assert_eq!(c.mkdir("Notes").url, "https://ex/dav/Notes/");
    assert_eq!(c.delete("a.md").method, "DELETE");
    assert_eq!(unanswered("timed out").0, "webdav http: timed out");
}

#[test]
fn numbers_are_read_as_the_remote_writes_them() {
    let read = |s: &str| parse_number(&s.chars().collect::<Vec<char>>());
    assert_eq!(read("20"), Some(20));
    assert_eq!(read("+20"), Some(20));
    assert_eq!(read("18446744073709551615"), Some(u64::MAX));
    assert_eq!(read("18446744073709551616"), None);
    assert_eq!(read("-1"), None);
    assert_eq!(read(""), None);
}

#[test]
fn a_listing_without_responses_is_empty() {
    let nodes: Vec<XmlNode> = Vec::new();
    assert!(entries_of_nodes(&nodes).is_empty());
}

#[test]
fn fingerprint_changed_compares_size_and_etag() {
    // No stored fingerprint (first run / freshly pushed): always changed.
    assert!(fingerprint_changed(None, 10, Some("\"a\"")));
    // Same size and same etag -> unchanged.
    let same = stored(10, Some("\"a\""));
    assert!(!fingerprint_changed(Some(&same), 10, Some("\"a\"")));
    // Etag differs (server reports a new one) -> changed.
    assert!(fingerprint_changed(Some(&same), 10, Some("\"b\"")));
    // Size differs -> changed even when the etag matches.
    assert!(fingerprint_changed(Some(&same), 11, Some("\"a\"")));
    // No etag reported on either side: size is the only signal.
    let no_etag = stored(10, None);
    assert!(!fingerprint_changed(Some(&no_etag), 10, None));
    assert!(fingerprint_changed(Some(&no_etag), 11, None));
    // One side reports an etag and the other does not -> changed.
    assert!(fingerprint_changed(Some(&no_etag), 10, Some("\"a\"")));
    assert!(fingerprint_changed(Some(&same), 10, None));
}

#[test]
fn mtime_decision_pushes_only_files_newer_than_last_sync() {
    assert!(is_new_since_last_sync(11, 10));
    assert!(!is_new_since_last_sync(10, 10)); // equal: predates the last sync
    assert!(!is_new_since_last_sync(9, 10));
}

#[test]
fn hatchdoor_names_are_always_skipped() {
    assert!(is_hatchdoor_name(".hatchdoor"));
    assert!(is_hatchdoor_name(".hatchdoor/webdav-sync.json"));
    assert!(is_hatchdoor_name(".hatchdoor-cache.sqlite3"));
    assert!(is_hatchdoor_name(".hatchdoor-trash"));
    assert!(is_hatchdoor_name(".hatchdoorish.md")); // prefix rule, no separator
    assert!(!is_hatchdoor_name("notes.md"));
    assert!(!is_hatchdoor_name(".obsidian/app.json")); // only `.hatchdoor` is reserved
}

#[test]
fn missing_corrupt_and_wrong_version_state_fall_back_to_first_run() {
    // A missing or corrupt sidecar holds no state.
    let missing = accept_state(None, 1_788_360_000);
    assert_eq!(missing.version, 1);
    assert!(missing.files.is_empty());
    assert!(missing.last_sync_at_unix > 0);
    let wrong = SyncState {
        version: 99,
        last_sync_at_unix: 1,
        files: vec![("a.md".to_string(), stored(1, None))],
    };
    let accepted = accept_state(Some(wrong), 5);
    assert!(accepted.files.is_empty());
    assert_eq!(accepted.last_sync_at_unix, 5);
    let right = SyncState {
        version: 1,
        last_sync_at_unix: 1,
        files: vec![("a.md".to_string(), stored(1, None))],
    };
    assert_eq!(accept_state(Some(right.clone()), 5), right);
}

#[test]
fn error_text_helpers_detect_404_and_existing_mkcol() {
    let not_found =
        WebDavError("webdav PROPFIND x: HTTP status client error (404 Not Found)".to_string());
    let server_error = WebDavError(
        "webdav PROPFIND x: HTTP status client error (500 Internal Server Error)".to_string(),
    );
    assert!(is_http_404(&not_found));
    assert!(!is_http_404(&server_error));
    let mkcol_405 = WebDavError(
        "webdav MKCOL x: HTTP status client error (405 Method Not Allowed)".to_string(),
    );
    let mkcol_301 = WebDavError("webdav MKCOL x: (301)".to_string());
    let mkcol_409 =
        WebDavError("webdav MKCOL x: HTTP status client error (409 Conflict)".to_string());
    assert!(is_mkcol_already_exists(&mkcol_405));
    assert!(is_mkcol_already_exists(&mkcol_301));
    assert!(!is_mkcol_already_exists(&mkcol_409));
}

#[test]
fn ancestor_dirs_skips_the_file_name_and_orders_shallowest_first() {
    assert_eq!(ancestor_dirs("x.md"), Vec::<String>::new());
    assert_eq!(ancestor_dirs("a/x.md"), vec!["a"]);
    assert_eq!(ancestor_dirs("a/b/c.md"), vec!["a", "a/b"]);
}

#[test]
fn join_rel_joins_under_the_root() {
    assert_eq!(join_rel("", "x.md"), "x.md");
    assert_eq!(join_rel("a", "x.md"), "a/x.md");
    assert_eq!(join_rel("a/", "x.md"), "a/x.md");
}

#[test]
fn a_pass_pulls_refreshes_keeps_and_forgets() {
    let state = SyncState {
        version: 1,
        last_sync_at_unix: 100,
        files: vec![
            ("Same.md".to_string(), stored(1, Some("s"))),
            ("Old.md".to_string(), stored(2, Some("o"))),
            ("Gone.md".to_string(), stored(3, None)),
        ],
    };
    let mut sync = Sync::start(state);
    let root = entry("", true, 0, None);
    assert_eq!(
        sync.reconcile_entry("", &root, true, false),
        RemoteStep::Itself
    );
    let same = entry("Same.md", false, 1, Some("s"));
    assert_eq!(
        sync.reconcile_entry("", &same, false, true),
        RemoteStep::Keep
    );
    let old = entry("Old.md", false, 2, Some("new"));
    assert_eq!(
        sync.reconcile_entry("", &old, false, true),
        RemoteStep::Refresh {
            rel: "Old.md".to_string()
        }
    );
    sync.record_fetch("Old.md", &old, true, FetchResult::Stored);
    let new = entry("New.md", false, 9, None);
    assert_eq!(
        sync.reconcile_entry("", &new, false, false),
        RemoteStep::Pull {
            rel: "New.md".to_string()
        }
    );
    sync.record_fetch("New.md", &new, false, FetchResult::Stored);
    let dir = entry("Notes", true, 0, None);
    assert_eq!(
        sync.reconcile_entry("", &dir, false, false),
        RemoteStep::Enter {
            rel: "Notes".to_string(),
            create: true
        }
    );
    let outcome = sync.outcome();
    assert_eq!(
        (outcome.pulled, outcome.refreshed, outcome.errors),
        (1, 1, 0)
    );
    let kept = sync.finish(200);
    assert_eq!(kept.version, STATE_VERSION);
    assert_eq!(kept.last_sync_at_unix, 200);
    let names: Vec<&str> = kept.files.iter().map(|(name, _)| name.as_str()).collect();
    assert!(names.contains(&"Same.md") && names.contains(&"Old.md") && names.contains(&"New.md"));
    assert!(!names.contains(&"Gone.md"));
    // The next pass finds nothing to fetch.
    let mut next = Sync::start(kept);
    assert_eq!(next.reconcile_entry("", &old, false, true), RemoteStep::Keep);
    assert_eq!(next.reconcile_entry("", &new, false, true), RemoteStep::Keep);
    // A file that was gone is fetched when it comes back.
    let back = entry("Gone.md", false, 3, None);
    assert_eq!(
        next.reconcile_entry("", &back, false, true),
        RemoteStep::Refresh {
            rel: "Gone.md".to_string()
        }
    );
    assert_eq!(fingerprint_of(&new), stored(9, None));
}

#[test]
fn a_local_file_is_sent_removed_or_left_alone() {
    let sync = Sync::start(first_run_state(100));
    let child = |name: &str, listed: bool, kind: LocalKind, mtime: Option<u64>| {
        sync.reconcile_local_child("", name, listed, kind, mtime)
    };
    assert_eq!(
        child("a.md", false, LocalKind::File, Some(101)),
        LocalStep::Push {
            rel: "a.md".to_string()
        }
    );
    assert_eq!(
        child("a.md", false, LocalKind::File, Some(100)),
        LocalStep::Remove {
            rel: "a.md".to_string()
        }
    );
    assert_eq!(
        child("a.md", true, LocalKind::File, Some(101)),
        LocalStep::Skip
    );
    assert_eq!(
        child(".hatchdoor", false, LocalKind::Dir, None),
        LocalStep::Skip
    );
    assert_eq!(
        child("Notes", false, LocalKind::Dir, None),
        LocalStep::Enter {
            rel: "Notes".to_string()
        }
    );
}

#[test]
fn missing_parents_are_created_once() {
    let mut sync = Sync::start(first_run_state(1));
    assert_eq!(
        sync.next_missing_parent("a/b/c.md").as_deref(),
        Some("a")
    );
    assert!(sync.record_mkdir("a", MkdirResult::Created));
    assert_eq!(
        sync.next_missing_parent("a/b/c.md").as_deref(),
        Some("a/b")
    );
    assert!(sync.record_mkdir("a/b", MkdirResult::Exists));
    assert_eq!(sync.next_missing_parent("a/b/c.md"), None);
    assert!(!sync.record_mkdir("x", MkdirResult::Failed));
    sync.record_push("a/b/c.md", 4, true);
    sync.record_removal(RemoveResult::Removed);
    sync.record_error();
    let outcome = sync.outcome();
    assert_eq!(outcome.created_dirs, 1);
    assert_eq!(outcome.pushed, 1);
    assert_eq!(outcome.deleted, 1);
    // A file that was just sent is fetched once more, for its tag.
    let listed = entry("a/b/c.md", false, 4, Some("t"));
    assert_eq!(
        sync.reconcile_entry("", &listed, false, true),
        RemoteStep::Refresh {
            rel: "a/b/c.md".to_string()
        }
    );
}

#[test]
fn only_a_missing_folder_counts_as_empty() {
    let missing = WebDavError("webdav PROPFIND a: (404 Not Found)".to_string());
    let broken = WebDavError("webdav PROPFIND a: (500)".to_string());
    assert!(Sync::listing_counts_as_empty("a", &missing));
    assert!(!Sync::listing_counts_as_empty("", &missing));
    assert!(!Sync::listing_counts_as_empty("a", &broken));
}

#[test]
fn a_vault_is_due_at_once_and_backs_off_behind_failures() {
    let mut scheduler = WebDavScheduler::new();
    scheduler.activate(7, 5_000, 100);
    scheduler.activate(3, 5_000, 100);
    assert_eq!(scheduler.tick(99, &vec![]), Vec::<u64>::new());
    assert_eq!(scheduler.tick(100, &vec![]), vec![3, 7]);
    assert_eq!(scheduler.tick(100, &vec![3]), vec![7]);
    scheduler.record_outcome(3, true, 100);
    assert_eq!(scheduler.tick(5_099, &vec![]), vec![7]);
    assert_eq!(scheduler.tick(5_100, &vec![7]), vec![3]);
    scheduler.record_outcome(7, false, 0);
    assert_eq!(
        scheduler.tick(WEBDAV_BACKOFF_BASE_MS - 1, &vec![3]),
        Vec::<u64>::new()
    );
    assert_eq!(scheduler.tick(WEBDAV_BACKOFF_BASE_MS, &vec![3]), vec![7]);
    // The wait doubles up to its bound.
    scheduler.record_outcome(7, false, 0);
    scheduler.record_outcome(7, false, 0);
    assert_eq!(
        scheduler.tick(WEBDAV_BACKOFF_MAX_MS - 1, &vec![3]),
        Vec::<u64>::new()
    );
    assert_eq!(scheduler.tick(WEBDAV_BACKOFF_MAX_MS, &vec![3]), vec![7]);
    scheduler.deactivate(7);
    assert_eq!(scheduler.tick(u64::MAX, &vec![3]), Vec::<u64>::new());
    scheduler.record_outcome(7, true, 0);
    assert_eq!(scheduler.tick(u64::MAX, &vec![3]), Vec::<u64>::new());
}

#[test]
fn a_status_in_an_address_is_no_status() {
    let fault = |text: &str| WebDavError(text.to_string());
    assert!(!is_http_404(&fault(
        "webdav GET notes/404.md: HTTP status server error (500 Internal Server Error)"
    )));
    assert!(!is_http_404(&fault("webdav GET notes (404)/x.md: timed out")));
    assert!(!Sync::listing_counts_as_empty(
        "notes/404",
        &fault("webdav PROPFIND notes/404: HTTP status server error (500 Internal Server Error)")
    ));
    assert!(Sync::listing_counts_as_empty(
        "notes/500",
        &fault("webdav PROPFIND notes/500: HTTP status client error (404 Not Found)")
    ));
    assert!(is_http_404(&fault(
        "webdav GET a: b.md: HTTP status client error (404 Not Found) for url (https://x/(500))"
    )));
    assert!(!is_mkcol_already_exists(&fault(
        "webdav MKCOL notes/301: HTTP status client error (409 Conflict)"
    )));
    assert!(!is_mkcol_already_exists(&fault(
        "webdav MKCOL notes (405)/x: HTTP status client error (409 Conflict)"
    )));
}

#[test]
fn a_user_name_is_shown_with_escapes() {
    let c = WebDavCredentials {
        username: "a\"b\\\n".to_string(),
        password: "s3cret".to_string(),
    };
    assert_eq!(
        c.redacted(),
        "WebDavCredentials { username: \"a\\\"b\\\\\\n\", password: \"[REDACTED]\" }"
    );
}

#[test]
fn a_listed_file_has_a_name() {
    let answer = |href: &str, kind: &str| {
        format!(
            "<D:response><D:href>{href}</D:href><D:propstat><D:prop><D:resourcetype>{kind}\
             </D:resourcetype></D:prop></D:propstat></D:response>"
        )
    };
    let xml = format!(
        "<D:multistatus xmlns:D=\"DAV:\">{}{}{}{}{}{}</D:multistatus>",
        answer("/dav/", "<D:collection/>"),
        answer("/dav/", ""),
        answer("/dav/", "<D:collection/>"),
        answer("/dav/a.md", ""),
        answer("/dav/%2Fb.md", ""),
        answer("/dav/%2F", ""),
    );
    assert_eq!(
        listing(&xml),
        vec![
            entry("", true, 0, None),
            entry("", true, 0, None),
            entry("a.md", false, 0, None),
            entry("b.md", false, 0, None),
        ]
    );
}
