use hatchdoor_vault::exclude::ExcludeMatcher;
use hatchdoor_vault::index::ScannedFile;
use hatchdoor_vault::layers::{MarkerContent, MarkerFile, RawMarker};
use hatchdoor_vault::paths::{
    content_snippet, is_servable_asset, normalize_link_target, normalize_title,
    relative_note_path_without_ext, servable_asset_extensions, slugify, split_wikilink_asset_body,
    split_wikilink_note_body, strip_md_extension, unique_slug,
};
use hatchdoor_vault::tables::NoteBody;
use hatchdoor_vault::types::{VaultIndex, VaultScanConfig};

/// The files of a vault.
#[derive(Clone)]
struct Disk {
    files: Vec<(String, String)>,
}

impl Disk {
    fn new() -> Self {
        Disk { files: Vec::new() }
    }

    fn write(&mut self, path: &str, text: &str) {
        self.files.retain(|(p, _)| p != path);
        self.files.push((path.to_string(), text.to_string()));
    }

    fn text(&self, path: &str) -> Option<String> {
        self.files
            .iter()
            .find(|(p, _)| p == path)
            .map(|(_, text)| text.clone())
    }

    fn scan(&self) -> Vec<ScannedFile> {
        let mut out: Vec<ScannedFile> = Vec::new();
        for (path, _) in &self.files {
            for (at, _) in path.match_indices('/') {
                let dir = path[..at].to_string();
                if !out.iter().any(|f| f.path == dir) {
                    out.push(ScannedFile {
                        path: dir,
                        is_dir: true,
                        is_file: false,
                    });
                }
            }
            out.push(ScannedFile {
                path: path.clone(),
                is_dir: false,
                is_file: true,
            });
        }
        out
    }

    fn markers(&self) -> Vec<MarkerFile> {
        let mut out: Vec<MarkerFile> = Vec::new();
        for (path, text) in &self.files {
            let (dir, name) = match path.rfind('/') {
                Some(at) => (&path[..at], &path[at + 1..]),
                None => ("", path.as_str()),
            };
            if name == ".hatchdoor-layer" {
                out.push(MarkerFile {
                    dir: dir.to_string(),
                    content: MarkerContent::Parsed(RawMarker::Bare(text.trim().to_string())),
                });
            }
        }
        out
    }

    fn bodies(&self, index: &VaultIndex) -> Vec<NoteBody> {
        index
            .by_slug
            .iter()
            .map(|note| NoteBody {
                slug: note.slug.clone(),
                text: self.text(&note.file).ok_or_else(|| "no such file".to_string()),
            })
            .collect()
    }

    fn catalog(&self) -> VaultIndex {
        let config = VaultScanConfig {
            exclude: ExcludeMatcher::new(&Vec::new()).expect("valid patterns"),
        };
        VaultIndex::build_catalog_with_config("/vault", &self.scan(), &self.markers(), &config)
            .expect("catalog")
    }

    fn index(&self) -> VaultIndex {
        let bodies = self.bodies(&self.catalog());
        VaultIndex::build("/vault", &self.scan(), &self.markers(), &bodies).expect("build vault")
    }
}

#[test]
fn normalize_title_trims_and_lowercases() {
    assert_eq!(normalize_title("  My NOTE  "), "my note");
}

#[test]
fn strip_md_extension_only_removes_suffix() {
    assert_eq!(strip_md_extension("Note.md"), "Note");
    assert_eq!(strip_md_extension("Note.markdown"), "Note.markdown");
}

#[test]
fn slugify_reduces_symbols_to_clean_slug() {
    assert_eq!(slugify("  My Great_Note!!  "), "my-great-note");
}

#[test]
fn normalize_link_target_strips_md_and_normalizes_separators() {
    assert_eq!(
        normalize_link_target(r"Folder\My Note.md"),
        "Folder/My Note"
    );
}

#[test]
fn build_indexes_markdown_files_only() {
    let mut disk = Disk::new();
    disk.write("Home.md", "# Home");
    disk.write("readme.txt", "ignore");
    disk.write(".hatchdoor-trash/Deleted.md", "# Deleted");

    let vault = disk.index();
    assert_eq!(vault.total_notes(), 1);
    assert!(vault.resolve_wikilink("Home").is_some());
    let found = vault.find_by_slug("home").expect("home by slug");
    assert_eq!(found.relative_path, "Home");
}

#[test]
fn resolve_wikilink_supports_title_slug_and_md_suffix() {
    let mut disk = Disk::new();
    disk.write("Second Note.md", "content");

    let vault = disk.index();
    assert!(vault.resolve_wikilink("Second Note").is_some());
    assert!(vault.resolve_wikilink("second-note").is_some());
    assert!(vault.resolve_wikilink("Second Note.md").is_some());
}

#[test]
fn resolve_wikilink_strips_heading_and_block_anchors() {
    let mut disk = Disk::new();
    disk.write("My Quotes.md", "content");

    let vault = disk.index();
    let result = vault
        .resolve_wikilink("My Quotes#Marcus Aurelius")
        .expect("heading anchor should resolve to note");
    assert_eq!(result.slug, "my-quotes");

    let result = vault
        .resolve_wikilink("My Quotes^block-id")
        .expect("block anchor should resolve to note");
    assert_eq!(result.slug, "my-quotes");
}

#[test]
fn duplicate_titles_get_unique_slugs() {
    let mut disk = Disk::new();
    disk.write("a/Note.md", "first");
    disk.write("b/Note.md", "second");

    let vault = disk.index();
    assert!(vault.find_by_slug("note").is_some());
    assert!(vault.find_by_slug("note-2").is_some());
}

#[test]
fn resolve_wikilink_duplicate_title_uses_deterministic_first_path() {
    let mut disk = Disk::new();
    disk.write("b/Note.md", "b");
    disk.write("a/Note.md", "a");

    let vault = disk.index();
    let resolved = vault.resolve_wikilink("Note").expect("note exists");
    assert_eq!(resolved.path, "/vault/a/Note.md");
}

#[test]
fn resolve_wikilink_supports_folder_qualified_targets() {
    let mut disk = Disk::new();
    disk.write("folder/Doc.md", "content");

    let vault = disk.index();
    let resolved = vault
        .resolve_wikilink("folder/Doc")
        .expect("folder-qualified match");
    assert_eq!(resolved.path, "/vault/folder/Doc.md");
}

#[test]
fn explorer_tree_preserves_folder_structure() {
    let mut disk = Disk::new();
    disk.write("Home.md", "home");
    disk.write("projects/Plan.md", "plan");
    disk.write("projects/rust/Notes.md", "notes");

    let vault = disk.index();
    let tree = vault.explorer_tree();

    assert_eq!(tree.name, "Vault");
    assert_eq!(tree.notes.len(), 1);
    assert_eq!(tree.notes[0].title, "Home");
    assert_eq!(tree.folders.len(), 1);
    assert_eq!(tree.folders[0].name, "projects");
    assert_eq!(tree.folders[0].notes[0].title, "Plan");
    assert_eq!(tree.folders[0].folders[0].name, "rust");
    assert_eq!(tree.folders[0].folders[0].notes[0].title, "Notes");
}

#[test]
fn read_note_by_slug_reads_existing_and_handles_missing() {
    let mut disk = Disk::new();
    disk.write("Home.md", "hello");
    let vault = disk.index();

    let note = vault
        .read_note_by_slug("home", &disk.bodies(&vault))
        .expect("read success")
        .expect("note exists");
    assert_eq!(note.title, "Home");
    assert_eq!(note.relative_path, "Home");
    assert_eq!(note.content, "hello");

    let missing = vault.read_note_by_slug("missing", &disk.bodies(&vault)).expect("read success");
    assert!(missing.is_none());
}

#[test]
fn search_finds_title_and_path_matches() {
    let mut disk = Disk::new();
    disk.write("Projects/Plan.md", "alpha");

    let vault = disk.index();
    let by_title = vault.search("plan", false, 10, &disk.bodies(&vault));
    assert_eq!(by_title.len(), 1);
    assert_eq!(by_title[0].match_kind, "title");

    let by_path = vault.search("projects", false, 10, &disk.bodies(&vault));
    assert_eq!(by_path.len(), 1);
    assert_eq!(by_path[0].match_kind, "path");
}

#[test]
fn search_content_extension_returns_snippet() {
    let mut disk = Disk::new();
    disk.write("Home.md", "Line 1\nSecret token here\nLine 3");

    let vault = disk.index();
    let hits = vault.search("token", true, 10, &disk.bodies(&vault));
    assert_eq!(hits.len(), 1);
    assert_eq!(hits[0].match_kind, "content");
    assert_eq!(hits[0].snippet.as_deref(), Some("Secret token here"));
}

#[test]
fn search_returns_empty_for_blank_query_and_zero_limit() {
    let mut disk = Disk::new();
    disk.write("Home.md", "secret token");

    let vault = disk.index();
    assert!(vault.search("   ", true, 10, &disk.bodies(&vault)).is_empty());
    assert!(vault.search("token", true, 0, &disk.bodies(&vault)).is_empty());
}

#[test]
fn search_content_snippet_truncates_long_lines() {
    let mut disk = Disk::new();
    let long_line = format!("{} token", "A".repeat(220));
    disk.write("Home.md", &long_line);

    let vault = disk.index();
    let hits = vault.search("token", true, 10, &disk.bodies(&vault));
    assert_eq!(hits.len(), 1);
    let snippet = hits[0].snippet.clone().expect("snippet");
    assert!(snippet.ends_with("..."));
    assert_eq!(snippet.chars().count(), 180);
}

#[test]
fn explorer_tree_keeps_notes_with_case_only_path_differences() {
    let mut disk = Disk::new();
    disk.write("Foo.md", "upper");
    disk.write("foo.md", "lower");

    let vault = disk.index();
    let tree = vault.explorer_tree();

    assert_eq!(tree.notes.len(), 2);
    assert_eq!(tree.notes[0].title, "Foo");
    assert_eq!(tree.notes[1].title, "foo");
}

#[test]
fn note_links_returns_outgoing_and_backlinks() {
    let mut disk = Disk::new();
    disk.write("Home.md", "[[Plan]]\n[[Docs/Guide]]\n![[Image.png]]");
    disk.write("Plan.md", "[[Home]]");
    disk.write("Docs/Guide.md", "Guide body");

    let vault = disk.index();
    let home_links = vault.note_links("home").expect("home links");

    assert_eq!(home_links.outgoing.len(), 2);
    assert_eq!(home_links.outgoing[0].slug, "guide");
    assert_eq!(home_links.outgoing[1].slug, "plan");
    assert_eq!(home_links.backlinks.len(), 1);
    assert_eq!(home_links.backlinks[0].slug, "plan");

    let guide_links = vault.note_links("guide").expect("guide links");
    assert_eq!(guide_links.backlinks.len(), 1);
    assert_eq!(guide_links.backlinks[0].slug, "home");
    assert!(vault.note_links("missing").is_none());
}

#[test]
fn note_links_ignore_wikilinks_in_fenced_and_inline_code() {
    let mut disk = Disk::new();
    disk.write("Home.md", &[
            "```md",
            "[[Plan]]",
            "```",
            "",
            "Inline `[[Plan]]` sample.",
            "",
            "Real [[Guide]] link.",
        ]
        .join("\n"));
    disk.write("Plan.md", "Plan body");
    disk.write("Guide.md", "Guide body");

    let vault = disk.index();
    let home_links = vault.note_links("home").expect("home links");

    assert_eq!(home_links.outgoing.len(), 1);
    assert_eq!(home_links.outgoing[0].slug, "guide");

    let plan_links = vault.note_links("plan").expect("plan links");
    assert!(plan_links.backlinks.is_empty());
}

#[test]
fn note_links_dedup_targets_and_ignore_self_references() {
    let mut disk = Disk::new();
    disk.write("Home.md", "[[Plan]]\n[[Plan#Heading]]\n[[Plan^block]]\n[[Home]]");
    disk.write("Plan.md", "plan");

    let vault = disk.index();
    let links = vault.note_links("home").expect("home links");
    assert_eq!(links.outgoing.len(), 1);
    assert_eq!(links.outgoing[0].slug, "plan");
}

#[test]
fn read_note_by_slug_surfaces_io_error_for_deleted_file() {
    let mut disk = Disk::new();
    disk.write("Home.md", "hello");

    let vault = disk.index();
    disk.files.clear();

    let result = vault.read_note_by_slug("home", &disk.bodies(&vault));
    assert!(result.is_err());
}

#[test]
fn build_assigns_layers_and_skips_noise() {
    let mut disk = Disk::new();
    disk.write("sources/.hatchdoor-layer", "sources");
    disk.write("sources/Clipping.md", "# Clipping");
    disk.write("wiki/Topic.md", "# Topic");
    disk.write(".obsidian/Plugin Notes.md", "# Noise");
    disk.write("wiki/Scratch.tmp", "ignored");

    let index = disk.index();

    let layer_of = |title: &str| {
        index
            .by_slug
            .iter()
            .find(|entry| entry.title == title)
            .map(|entry| entry.layer.clone())
    };

    assert_eq!(layer_of("Clipping"), Some(Some("sources".to_string())));
    assert_eq!(layer_of("Topic"), Some(None));
    assert_eq!(layer_of("Plugin Notes"), None, "noise must not be indexed");
    assert_eq!(index.layers.layer_names(), vec!["sources".to_string()]);
}

#[test]
fn build_gives_the_unsuffixed_slug_to_the_default_surface() {
    // A compiled page named after the source it compiles is the normal case in
    // a layered vault, and `sources/` sorts before `wiki/`. Without precedence
    // every [[Melatonin]] would resolve to the clipping.
    let mut disk = Disk::new();
    disk.write("sources/.hatchdoor-layer", "sources");
    disk.write("sources/Melatonin.md", "# Source");
    disk.write("wiki/Melatonin.md", "# Compiled");

    let index = disk.index();

    let compiled = index.find_by_slug("melatonin").expect("slug melatonin");
    assert_eq!(compiled.relative_path, "wiki/Melatonin");
    assert_eq!(compiled.layer, None);

    let source = index.find_by_slug("melatonin-2").expect("slug melatonin-2");
    assert_eq!(source.relative_path, "sources/Melatonin");
    assert_eq!(source.layer.as_deref(), Some("sources"));

    assert_eq!(
        index.resolve_wikilink("Melatonin").map(|e| e.slug.as_str()),
        Some("melatonin")
    );
}

#[test]
fn build_with_config_honours_user_supplied_exclude_patterns() {
    let mut disk = Disk::new();
    disk.write("drafts/Scratch.md", "# Scratch");
    disk.write("wiki/Keep.md", "# Keep");

    let config = VaultScanConfig {
        exclude: ExcludeMatcher::new(&vec!["drafts/".to_string()]).expect("valid pattern"),
    };

    let index = VaultIndex::build_with_config(
        "/vault",
        &disk.scan(),
        &disk.markers(),
        &disk.bodies(&disk.catalog()),
        &config,
    ).expect("index");

    assert!(
        index.find_by_slug("keep").is_some(),
        "Keep should be indexed"
    );
    assert!(
        index.find_by_slug("scratch").is_none(),
        "Scratch should be excluded"
    );
}

#[test]
fn resolve_asset_finds_a_bare_filename_anywhere_in_the_vault() {
    let mut disk = Disk::new();
    disk.write("97_Notes/Some note.md", "![[Some document.pdf]]");
    disk.write("98_Attachments/Some document.pdf", "pdf");

    let index = disk.index();

    assert_eq!(
        index.resolve_asset("Some document.pdf", "97_Notes"),
        Some("98_Attachments/Some document.pdf")
    );
}

#[test]
fn resolve_asset_prefers_the_notes_own_folder_over_a_distant_namesake() {
    let mut disk = Disk::new();
    disk.write("projects/diagram.png", "near");
    disk.write("98_Attachments/diagram.png", "far");

    let index = disk.index();

    assert_eq!(
        index.resolve_asset("diagram.png", "projects"),
        Some("projects/diagram.png")
    );
    assert_eq!(
        index.resolve_asset("diagram.png", ""),
        Some("98_Attachments/diagram.png")
    );
}

#[test]
fn resolve_asset_reads_a_leading_slash_as_vault_root_relative() {
    let mut disk = Disk::new();
    disk.write("98_Attachments/plan.pdf", "root");
    // A namesake the note-relative reading would reach first, so the assertion
    // fails if the leading slash is not honoured.
    disk.write("a/b/98_Attachments/plan.pdf", "near");

    let index = disk.index();

    assert_eq!(
        index.resolve_asset("/98_Attachments/plan.pdf", "a/b"),
        Some("98_Attachments/plan.pdf")
    );
}

#[test]
fn resolve_asset_still_honours_relative_paths_written_for_hatchdoor() {
    let mut disk = Disk::new();
    disk.write("98_Attachments/shot.png", "png");
    // Same relative path from the note's folder and from the Vault root, so the
    // note's own folder has to win for the first assertion to hold.
    disk.write("97_Notes/inline/near.png", "near");
    disk.write("inline/near.png", "root");

    let index = disk.index();

    assert_eq!(
        index.resolve_asset("inline/near.png", "97_Notes"),
        Some("97_Notes/inline/near.png")
    );
    assert_eq!(
        index.resolve_asset("../98_Attachments/shot.png", "97_Notes"),
        Some("98_Attachments/shot.png")
    );
    assert_eq!(
        index.resolve_asset("98_Attachments/shot.png", "97_Notes"),
        Some("98_Attachments/shot.png")
    );
}

#[test]
fn resolve_asset_rejects_targets_that_escape_the_vault_root() {
    let mut disk = Disk::new();
    disk.write("notes/secret.png", "png");

    let index = disk.index();

    assert_eq!(index.resolve_asset("../../notes/secret.png", "notes"), None);
}

#[test]
fn resolve_asset_returns_none_for_an_absent_or_unservable_target() {
    let mut disk = Disk::new();
    disk.write("notes.txt", "text");
    disk.write("demo.mp4", "video");

    let index = disk.index();

    assert_eq!(index.resolve_asset("missing.png", ""), None);
    assert_eq!(index.resolve_asset("notes.txt", ""), None);
    // The asset name index still holds only servable types, so a video the
    // attachment tools now manage never resolves as a wikilink (#247).
    assert_eq!(index.resolve_asset("demo.mp4", ""), None);
}

#[test]
fn resolve_asset_ignores_anchors_and_query_suffixes_on_the_target() {
    let mut disk = Disk::new();
    disk.write("plan.pdf", "pdf");

    let index = disk.index();

    assert_eq!(index.resolve_asset("plan.pdf#page=3", ""), Some("plan.pdf"));
}

#[test]
fn split_wikilink_body_reads_an_escaped_alias_pipe_as_syntax() {
    // #252: the backslash belongs to the suffix, so a rewriter hands it back
    // and the table cell it protects stays valid Markdown.
    assert_eq!(
        split_wikilink_note_body(r"Some Note\|alias"),
        ("Some Note", r"\|alias")
    );
    assert_eq!(
        split_wikilink_note_body("Some Note|alias"),
        ("Some Note", "|alias")
    );
    assert_eq!(
        split_wikilink_note_body(r"folder/Old#Heading\|alias"),
        ("folder/Old", r"#Heading\|alias")
    );
    // A backslash that is a path separator rather than an escape stays put.
    assert_eq!(
        split_wikilink_note_body(r"folder\Some Note"),
        (r"folder\Some Note", "")
    );
    assert_eq!(split_wikilink_note_body(r"\|alias"), ("", r"\|alias"));
    // An embed's `#page=3` addresses the viewer, so only `|` closes a target.
    assert_eq!(
        split_wikilink_asset_body(r"image.png\|200"),
        ("image.png", r"\|200")
    );
    assert_eq!(
        split_wikilink_asset_body("Plan.pdf#page=3"),
        ("Plan.pdf#page=3", "")
    );
}

#[test]
fn link_graph_records_a_link_whose_alias_pipe_is_escaped() {
    let mut disk = Disk::new();
    disk.write("Target.md", "body");
    disk.write("Backlink.md", "| port | host |\n| --- | --- |\n| 80 | [[Target\\|alias]] |\n");

    let vault = disk.index();

    assert_eq!(*list(&vault.outgoing_by_slug, "backlink"), vec!["target"]);
    assert_eq!(*list(&vault.backlinks_by_slug, "target"), vec!["backlink"]);
}

#[test]
fn link_graph_still_ignores_an_escaped_link_inside_code() {
    let mut disk = Disk::new();
    disk.write("Target.md", "body");
    disk.write("Backlink.md", "inline `[[Target\\|alias]]`\n```\n[[Target\\|alias]]\n```\n");

    let vault = disk.index();

    assert!(list(&vault.outgoing_by_slug, "backlink").is_empty());
}

#[test]
fn resolve_wikilink_resolves_an_escaped_alias_pipe_like_the_unescaped_form() {
    let mut disk = Disk::new();
    disk.write("Some Note.md", "body");

    let vault = disk.index();
    let expected = vault.resolve_wikilink("Some Note").expect("plain target");

    assert_eq!(
        vault
            .resolve_wikilink(r"Some Note\|alias")
            .expect("escaped body")
            .slug,
        expected.slug
    );
    assert_eq!(
        vault
            .resolve_wikilink("Some Note|alias")
            .expect("unescaped body")
            .slug,
        expected.slug
    );
}

fn list<'a>(table: &'a Vec<(String, Vec<String>)>, slug: &str) -> &'a Vec<String> {
    match table.iter().find(|(s, _)| s == slug) {
        Some((_, links)) => links,
        None => panic!("no links of {slug}"),
    }
}

#[test]
fn a_marker_that_cannot_be_read_fails_the_build() {
    let mut disk = Disk::new();
    disk.write("Home.md", "home");
    let broken = vec![MarkerFile {
        dir: "sources".to_string(),
        content: MarkerContent::Malformed("a sequence".to_string()),
    }];
    assert!(VaultIndex::build("/vault", &disk.scan(), &broken, &Vec::new()).is_err());
}

#[test]
fn every_slug_is_listed_once_and_by_path() {
    let mut disk = Disk::new();
    disk.write("b/Note.md", "");
    disk.write("a/Note.md", "");
    disk.write("Note!.md", "");
    let vault = disk.index();
    assert_eq!(vault.ordered_slugs.len(), 3);
    let paths: Vec<String> = vault
        .ordered_entries()
        .iter()
        .map(|e| e.relative_path.clone())
        .collect();
    assert_eq!(paths, vec!["Note!", "a/Note", "b/Note"]);
}

#[test]
fn a_slug_is_clean_and_its_own_slug() {
    for title in ["  My Great_Note!!  ", "--a  b--", "Ünïcode", "***", "2026-01-02"] {
        let slug = slugify(title);
        assert_eq!(slugify(&slug), slug);
        assert!(!slug.starts_with('-') && !slug.ends_with('-') && !slug.contains("--"));
    }
    assert_eq!(slugify("--a  b--"), "a-b");
    assert_eq!(slugify("***"), "");
}

#[test]
fn a_taken_slug_is_numbered_from_two() {
    let mut disk = Disk::new();
    disk.write("Note.md", "");
    let vault = disk.index();
    assert_eq!(unique_slug("note", &vault.by_slug), "note-2");
    assert_eq!(unique_slug("other", &vault.by_slug), "other");
    disk.write("x/Note.md", "");
    assert_eq!(unique_slug("note", &disk.index().by_slug), "note-3");
}

#[test]
fn names_and_paths_are_read() {
    assert!(is_servable_asset("a/b.PNG"));
    assert!(!is_servable_asset("a/b.mp4"));
    assert!(servable_asset_extensions().contains(&"pdf"));
    assert_eq!(
        relative_note_path_without_ext("/vault", "/vault/a/Note.md").as_deref(),
        Some("a/Note")
    );
    assert_eq!(
        content_snippet("Line 1\nSecret TOKEN here\nLine 3", "token").as_deref(),
        Some("Secret TOKEN here")
    );
    assert_eq!(content_snippet("nothing", "token"), None);
}

#[test]
fn a_search_finds_no_note_twice() {
    let mut disk = Disk::new();
    disk.write("token/Token.md", "a token in the text");
    disk.write("Other.md", "another token");
    disk.write("Third.md", "a third token");

    let vault = disk.index();
    let bodies = disk.bodies(&vault);
    let found: Vec<(String, String)> = vault
        .search("token", true, 10, &bodies)
        .into_iter()
        .map(|hit| (hit.slug, hit.match_kind))
        .collect();
    assert_eq!(
        found,
        vec![
            ("token".to_string(), "title".to_string()),
            ("other".to_string(), "content".to_string()),
            ("third".to_string(), "content".to_string()),
        ]
    );
    assert_eq!(vault.search("token", true, 2, &bodies).len(), 2);
}

#[test]
fn backlinks_are_outgoing_links_read_backwards() {
    let mut disk = Disk::new();
    disk.write("A.md", "[[B]] [[C]] [[Nowhere]]");
    disk.write("B.md", "[[A]]");
    disk.write("C.md", "none");

    let vault = disk.index();
    for from in &vault.ordered_slugs {
        for to in &vault.ordered_slugs {
            assert_eq!(
                list(&vault.outgoing_by_slug, from).contains(to),
                list(&vault.backlinks_by_slug, to).contains(from)
            );
        }
    }
    assert_eq!(*list(&vault.outgoing_by_slug, "a"), vec!["b", "c"]);
    assert_eq!(*list(&vault.backlinks_by_slug, "a"), vec!["b"]);
}

#[test]
fn layered_notes_leave_the_default_slugs_alone() {
    let mut plain = Disk::new();
    plain.write("b/Home.md", "one");
    plain.write("c/Home.md", "two");
    let mut layered = plain.clone();
    layered.write("a/.hatchdoor-layer", "sources");
    layered.write("a/Home.md", "three");

    let few = plain.index();
    let all = layered.index();
    for note in &few.by_slug {
        let same = all.find_by_slug(&note.slug).expect("still there");
        assert_eq!(same.path, note.path);
    }
    assert_eq!(all.find_by_slug("home-3").expect("layered").file, "a/Home.md");
}

#[test]
fn a_swapped_target_keeps_what_is_behind_it() {
    for body in ["Old|shown", "Old\\|shown", "Old#part|shown", "Old"] {
        let (target, suffix) = split_wikilink_note_body(body);
        assert_eq!(target, "Old");
        let swapped = format!("New/Place{suffix}");
        assert_eq!(split_wikilink_note_body(&swapped), ("New/Place", suffix));
    }
}

#[test]
fn a_normal_form_keeps_the_slashes() {
    assert_eq!(normalize_title(" A/B\u{130} "), "a/bi\u{307}");
    assert_eq!(normalize_title("\u{212a}elvin"), "kelvin");
}

#[test]
fn a_note_names_its_file_on_disk() {
    let mut disk = Disk::new();
    disk.write("a/b/Note.md", "# Note");
    for (root, path) in [
        ("/vault", "/vault/a/b/Note.md"),
        ("/", "/a/b/Note.md"),
        ("", "a/b/Note.md"),
        (".", "./a/b/Note.md"),
    ] {
        let index = VaultIndex::build(root, &disk.scan(), &Vec::new(), &Vec::new()).expect("build");
        assert_eq!(index.root, root);
        let note = index.find_by_slug("note").expect("note");
        assert_eq!(note.path, path);
        assert_eq!(note.file, "a/b/Note.md");
        assert_eq!(note.relative_path, "a/b/Note");
    }
}

#[test]
fn assets_are_found_by_their_lower_case_names() {
    let mut disk = Disk::new();
    disk.write("b/Image.PNG", "x");
    disk.write("a/image.png", "x");
    disk.write("image.png", "x");
    disk.write("other.png", "x");
    let index = disk.index();
    assert_eq!(
        index.assets_by_name("image.png"),
        vec!["a/image.png", "b/Image.PNG", "image.png"]
    );
    assert_eq!(index.assets_by_name("Image.PNG"), Vec::<String>::new());
    assert_eq!(index.assets_by_name("other.png"), vec!["other.png"]);
}
