use hatchdoor_vault::layers::{
    marker_dir, normalize_layer_name, parse_marker, sanitize_description, LayerDecl, LayerMap, MarkerContent,
    MarkerFile, RawMarker,
};

fn bare(name: &str) -> RawMarker {
    RawMarker::Bare(name.to_string())
}

fn full(name: &str, description: Option<&str>) -> RawMarker {
    RawMarker::Full {
        name: name.to_string(),
        description: description.map(|d| d.to_string()),
    }
}

fn marker(dir: &str, raw: RawMarker) -> MarkerFile {
    MarkerFile {
        dir: dir.to_string(),
        content: MarkerContent::Parsed(raw),
    }
}

fn collect(markers: Vec<MarkerFile>) -> LayerMap {
    LayerMap::collect(&markers).expect("collect")
}

#[test]
fn normalize_layer_name_slugifies() {
    assert_eq!(normalize_layer_name("Sources").expect("valid"), "sources");
    assert_eq!(
        normalize_layer_name("  My Sources  ").expect("valid"),
        "my-sources"
    );
}

#[test]
fn normalize_layer_name_rejects_reserved_and_malformed() {
    for reserved in ["default", "all", "noise", "none", "DEFAULT"] {
        assert!(
            normalize_layer_name(reserved).is_err(),
            "{reserved} must be reserved"
        );
    }
    assert!(normalize_layer_name("").is_err());
    assert!(normalize_layer_name("   ").is_err());
    assert!(normalize_layer_name("-leading").is_err());
    assert!(normalize_layer_name("has_underscore").is_err());
    assert!(normalize_layer_name(&"x".repeat(33)).is_err());
}

#[test]
fn normalize_layer_name_applies_nfkc_before_validating() {
    // NFKC folds compatibility variants, so a full-width name is usable
    // rather than mysteriously rejected.
    assert_eq!(
        normalize_layer_name("\u{ff33}\u{ff2f}\u{ff35}\u{ff32}\u{ff23}\u{ff25}\u{ff33}")
            .expect("valid"),
        "sources"
    );
    // It also collapses composed and decomposed spellings of the same
    // accented name into one layer, rather than two that look identical.
    assert_eq!(
        normalize_layer_name("sourc\u{0065}\u{0301}s").expect("valid"),
        normalize_layer_name("sourc\u{00e9}s").expect("valid")
    );
}

#[test]
fn normalize_layer_name_accepts_non_ascii_scripts() {
    // A vault is not required to be English. Names are Unicode.
    assert_eq!(
        normalize_layer_name("Sources-Privées").expect("valid"),
        "sources-privées"
    );
    assert_eq!(normalize_layer_name("資料").expect("valid"), "資料");
    assert_eq!(
        normalize_layer_name("Материалы").expect("valid"),
        "материалы"
    );
}

#[test]
fn normalize_layer_name_rejects_invisible_and_directional_characters() {
    // These are the characters that let two names render identically or
    // reorder the tool schema an agent reads. None are alphanumeric, so
    // the whitelist refuses them without a rule of their own.
    assert!(
        normalize_layer_name("sour\u{200b}ces").is_err(),
        "zero-width space"
    );
    assert!(
        normalize_layer_name("sour\u{200d}ces").is_err(),
        "zero-width joiner"
    );
    assert!(
        normalize_layer_name("sour\u{202e}ces").is_err(),
        "right-to-left override"
    );
    assert!(normalize_layer_name("sources\u{1f600}").is_err(), "emoji");
    assert!(normalize_layer_name("sources/raw").is_err(), "punctuation");
}

#[test]
fn normalize_layer_name_caps_length_in_characters_not_bytes() {
    // `é` is one character and two bytes: a byte-based cap would reject a
    // name that is well under the limit.
    let thirty_two_chars = "é".repeat(32);
    assert_eq!(thirty_two_chars.len(), 64, "precondition: 64 bytes");
    assert_eq!(
        normalize_layer_name(&thirty_two_chars)
            .expect("valid")
            .chars()
            .count(),
        32
    );
    assert!(normalize_layer_name(&"é".repeat(33)).is_err());
}

#[test]
fn sanitize_description_strips_format_characters() {
    // Format characters (Cf category) can visually reorder or hide text in
    // schemas that agents read. They must be removed along with control
    // characters. Test the specific ranges that matter for visual spoofing.

    // Zero-width space U+200B, ZWNJ U+200D, ZWJ U+200C, LRM U+200E, RLM U+200F
    let with_zwsp = "normal\u{200b}text";
    assert!(!sanitize_description(with_zwsp).contains('\u{200b}'));

    let with_zwnj = "normal\u{200d}text";
    assert!(!sanitize_description(with_zwnj).contains('\u{200d}'));

    let with_zwj = "normal\u{200c}text";
    assert!(!sanitize_description(with_zwj).contains('\u{200c}'));

    let with_lrm = "normal\u{200e}text";
    assert!(!sanitize_description(with_lrm).contains('\u{200e}'));

    let with_rlm = "normal\u{200f}text";
    assert!(!sanitize_description(with_rlm).contains('\u{200f}'));

    // Legacy bidi embedding/override controls: U+202A–U+202E
    let with_lre = "normal\u{202a}text";
    assert!(!sanitize_description(with_lre).contains('\u{202a}'));

    let with_rle = "normal\u{202b}text";
    assert!(!sanitize_description(with_rle).contains('\u{202b}'));

    let with_pdf = "normal\u{202c}text";
    assert!(!sanitize_description(with_pdf).contains('\u{202c}'));

    let with_lro = "normal\u{202d}text";
    assert!(!sanitize_description(with_lro).contains('\u{202d}'));

    let with_rlo = "normal\u{202e}text";
    assert!(!sanitize_description(with_rlo).contains('\u{202e}'));

    // Word joiner and invisible operators: U+2060–U+2064
    let with_wj = "normal\u{2060}text";
    assert!(!sanitize_description(with_wj).contains('\u{2060}'));

    let with_ifm = "normal\u{2061}text";
    assert!(!sanitize_description(with_ifm).contains('\u{2061}'));

    let with_it = "normal\u{2062}text";
    assert!(!sanitize_description(with_it).contains('\u{2062}'));

    let with_is = "normal\u{2063}text";
    assert!(!sanitize_description(with_is).contains('\u{2063}'));

    let with_ip = "normal\u{2064}text";
    assert!(!sanitize_description(with_ip).contains('\u{2064}'));

    // Directional isolates: U+2066–U+2069
    let with_ldi = "normal\u{2066}text";
    assert!(!sanitize_description(with_ldi).contains('\u{2066}'));

    let with_rdi = "normal\u{2067}text";
    assert!(!sanitize_description(with_rdi).contains('\u{2067}'));

    let with_fsi = "normal\u{2068}text";
    assert!(!sanitize_description(with_fsi).contains('\u{2068}'));

    let with_pdi = "normal\u{2069}text";
    assert!(!sanitize_description(with_pdi).contains('\u{2069}'));

    // Byte-order mark / zero-width no-break space: U+FEFF
    let with_bom = "normal\u{feff}text";
    assert!(!sanitize_description(with_bom).contains('\u{feff}'));

    // Verify ordinary text still survives
    assert_eq!(
        sanitize_description("A normal description"),
        "A normal description"
    );
    assert_eq!(
        sanitize_description("with    multiple  spaces"),
        "with multiple spaces"
    );
    assert_eq!(
        sanitize_description("unicode: café, 資料, Материалы"),
        "unicode: café, 資料, Материалы"
    );
}

#[test]
fn parse_marker_accepts_bare_scalar_form() {
    assert_eq!(
        parse_marker(&bare("sources")).expect("valid"),
        LayerDecl::Named {
            name: "sources".to_string(),
            description: None
        }
    );
}

#[test]
fn parse_marker_accepts_mapping_form_and_ignores_unknown_keys() {
    assert_eq!(
        parse_marker(&full("sources", Some("Ground truth."))).expect("valid"),
        LayerDecl::Named {
            name: "sources".to_string(),
            description: Some("Ground truth.".to_string())
        }
    );
}

#[test]
fn parse_marker_recognises_default_reinclude() {
    assert_eq!(
        parse_marker(&bare("default")).expect("valid"),
        LayerDecl::Default
    );
    assert_eq!(
        parse_marker(&full("default", None)).expect("valid"),
        LayerDecl::Default
    );
}

#[test]
fn parse_marker_reads_quoted_unicode_and_block_scalar_forms() {
    assert_eq!(
        parse_marker(&bare("sources")).expect("quoted bare form"),
        LayerDecl::Named {
            name: "sources".to_string(),
            description: None
        }
    );
    assert_eq!(
        parse_marker(&full("sources", Some("Ground truth."))).expect("single quotes"),
        LayerDecl::Named {
            name: "sources".to_string(),
            description: Some("Ground truth.".to_string())
        }
    );
    assert_eq!(
        parse_marker(&full("réseau-日本", Some("Sources — 🌱"))).expect("unicode"),
        LayerDecl::Named {
            name: "réseau-日本".to_string(),
            description: Some("Sources — 🌱".to_string())
        }
    );
    // A block scalar carries its trailing newline; the description sanitizer
    // collapses it.
    assert_eq!(
        parse_marker(&full("sources", Some("Ground truth.\n"))).expect("block scalar"),
        LayerDecl::Named {
            name: "sources".to_string(),
            description: Some("Ground truth.".to_string())
        }
    );
    assert_eq!(
        parse_marker(&full("2026", None)).expect("quoted numeric name"),
        LayerDecl::Named {
            name: "2026".to_string(),
            description: None
        }
    );
}

#[test]
fn parse_marker_rejects_malformed_and_reserved() {
    for text in ["", "- a\n- b\n"] {
        let broken = vec![MarkerFile {
            dir: "sources".to_string(),
            content: MarkerContent::Malformed(text.to_string()),
        }];
        assert!(LayerMap::collect(&broken).is_err());
    }
    assert!(parse_marker(&bare("")).is_err());
    assert!(parse_marker(&full("all", None)).is_err());
}

#[test]
fn parse_marker_sanitizes_and_caps_description() {
    let text = format!("line one\nline\ttwo\u{7} {}", "x".repeat(600));
    let LayerDecl::Named { description, .. } =
        parse_marker(&full("sources", Some(&text))).expect("valid")
    else {
        panic!("expected a named layer");
    };
    let description = description.expect("description present");
    assert!(!description.contains('\n'));
    assert!(!description.contains('\u{0007}'));
    assert!(description.starts_with("line one line two"));
    assert_eq!(description.chars().count(), 500);
}

#[test]
fn layer_map_resolves_nearest_marker_and_inherits() {
    let map = collect(vec![marker("sources", bare("sources"))]);
    assert_eq!(map.layer_for("sources/A.md"), Some("sources"));
    assert_eq!(map.layer_for("sources/deep/B.md"), Some("sources"));
    assert_eq!(map.layer_for("wiki/C.md"), None);
    assert_eq!(map.layer_for("Top.md"), None);
}

#[test]
fn layer_map_default_marker_reincludes_subtree() {
    let map = collect(vec![
        marker("sources", bare("sources")),
        marker("sources/curated", bare("default")),
    ]);
    assert_eq!(map.layer_for("sources/A.md"), Some("sources"));
    assert_eq!(map.layer_for("sources/curated/B.md"), None);
}

#[test]
fn layer_map_two_folders_may_share_one_layer_name() {
    let map = collect(vec![
        marker("raw", bare("sources")),
        marker("inbox", bare("sources")),
    ]);
    assert_eq!(map.layer_for("raw/A.md"), Some("sources"));
    assert_eq!(map.layer_for("inbox/B.md"), Some("sources"));
    assert_eq!(map.layer_names(), vec!["sources".to_string()]);
}

#[test]
fn layer_map_description_tiebreak_is_lexicographically_first_marker() {
    let map = collect(vec![
        marker("zzz", full("sources", Some("from zzz"))),
        marker("aaa", full("sources", Some("from aaa"))),
    ]);
    assert_eq!(map.description("sources"), Some("from aaa"));
}

#[test]
fn layer_map_rejects_named_marker_at_vault_root() {
    let err =
        LayerMap::collect(&vec![marker("", bare("sources"))]).expect_err("root marker must fail");
    assert!(err.contains("vault root"), "unexpected error: {err}");
}

#[test]
fn layer_map_reports_malformed_marker_with_its_path() {
    let broken = vec![MarkerFile {
        dir: "sources".to_string(),
        content: MarkerContent::Malformed("a sequence".to_string()),
    }];
    let err = LayerMap::collect(&broken).expect_err("malformed marker must fail");
    assert!(
        err.contains("sources/.hatchdoor-layer"),
        "unexpected: {err}"
    );
    let unreadable = vec![MarkerFile {
        dir: "sources".to_string(),
        content: MarkerContent::Unreadable("permission denied".to_string()),
    }];
    assert_eq!(
        LayerMap::collect(&unreadable).expect_err("unreadable marker must fail"),
        "could not read sources/.hatchdoor-layer: permission denied"
    );
}

#[test]
fn layer_map_does_not_confuse_sibling_directories_sharing_a_prefix() {
    let map = collect(vec![
        marker("sources", full("primary", None)),
        marker("sources-old", full("archive", None)),
    ]);
    assert_eq!(map.layer_for("sources/A.md"), Some("primary"));
    assert_eq!(map.layer_for("sources-old/B.md"), Some("archive"));
}

#[test]
fn layer_map_does_not_confuse_sibling_directories_when_only_prefix_has_marker() {
    let map = collect(vec![marker("sources", bare("primary"))]);
    assert_eq!(map.layer_for("sources/A.md"), Some("primary"));
    assert_eq!(map.layer_for("sources-old/B.md"), None);
}

#[test]
fn hash_input_changes_on_add_rename_and_description_edit() {
    let a = collect(vec![marker("sources", bare("sources"))]).hash_input();
    let b = collect(vec![
        marker("sources", bare("sources")),
        marker("archive", bare("archive")),
    ])
    .hash_input();
    assert_ne!(a, b, "adding a marker must change the hash input");
    let c = collect(vec![
        marker("sources", bare("primary")),
        marker("archive", bare("archive")),
    ])
    .hash_input();
    assert_ne!(b, c, "renaming a layer must change the hash input");
    let d = collect(vec![
        marker("sources", full("primary", Some("now with detail"))),
        marker("archive", bare("archive")),
    ])
    .hash_input();
    assert_ne!(c, d, "editing a description must change the hash input");
}

#[test]
fn hash_input_is_stable_across_recollection() {
    let markers = vec![marker("sources", full("sources", Some("ground truth")))];
    let first = LayerMap::collect(&markers).expect("collect").hash_input();
    let second = LayerMap::collect(&markers).expect("collect").hash_input();
    assert_eq!(first, second, "hash input must be deterministic");
}

#[test]
fn named_markers_excludes_default_reincludes() {
    let markers = collect(vec![
        marker("sources", bare("sources")),
        marker("sources/curated", bare("default")),
    ])
    .named_markers();
    assert_eq!(
        markers,
        vec![("sources".to_string(), "sources".to_string())]
    );
}

#[test]
fn layer_map_description_backfills_when_the_first_marker_has_none() {
    let map = collect(vec![
        marker("aaa", full("sources", None)),
        marker("zzz", full("sources", Some("This is the archive."))),
    ]);
    assert_eq!(
        map.description("sources"),
        Some("This is the archive."),
        "description should backfill from later marker"
    );
}

#[test]
fn description_conflicts_list_the_markers_that_disagree() {
    let conflicts = LayerMap::description_conflicts(&vec![
        marker("aaa", full("sources", Some("one"))),
        marker("zzz", full("sources", Some("two"))),
        marker("raw", full("other", Some("same"))),
        marker("inbox", full("other", Some("same"))),
    ]);
    assert_eq!(conflicts.len(), 1);
    assert_eq!(conflicts[0].0, "sources");
    assert_eq!(conflicts[0].1.len(), 2);
}

#[test]
fn the_nearest_marker_governs_a_path() {
    let map = collect(vec![
        marker("a", bare("outer")),
        marker("a/b/c", bare("inner")),
    ]);
    assert_eq!(map.layer_for("a/b/x.md"), Some("outer"));
    assert_eq!(map.layer_for("a/b/c/x.md"), Some("inner"));
    assert_eq!(map.marker_paths(), vec!["a".to_string(), "a/b/c".to_string()]);
    assert_eq!(LayerMap::empty().layer_for("a/b/c/x.md"), None);
    assert_eq!(map.copy().layer_for("a/b/c/x.md"), Some("inner"));
}

#[test]
fn an_empty_description_says_nothing() {
    let map = collect(vec![
        marker("aaa", full("sources", Some(""))),
        marker("bbb", full("sources", Some(" \u{200b} "))),
        marker("zzz", full("sources", Some("Archive"))),
    ]);
    assert_eq!(map.description("sources"), Some("Archive"));
    let silent = collect(vec![marker("aaa", full("sources", Some("")))]);
    assert_eq!(silent.description("sources"), None);
}

#[test]
fn a_directory_marked_twice_goes_by_the_later_marker() {
    let map = collect(vec![
        marker("a", bare("one")),
        marker("a", bare("two")),
        marker("b", bare("three")),
    ]);
    assert_eq!(map.marker_paths(), vec!["a".to_string(), "b".to_string()]);
    assert_eq!(map.layer_for("a/x.md"), Some("two"));
    assert_eq!(map.named_markers().len(), 2);
}

#[test]
fn every_named_marker_governs_its_own_directory() {
    let map = collect(vec![
        marker("sources", bare("sources")),
        marker("sources/curated", bare("default")),
        marker("sources/curated/raw", bare("raw")),
    ]);
    for (dir, name) in map.named_markers() {
        assert_eq!(map.layer_for(&format!("{dir}/x.md")), Some(name.as_str()));
    }
    assert_eq!(map.named_markers().len(), 2);
    assert_eq!(map.layer_for("sources/curated/x.md"), None);
}

#[test]
fn equal_marker_sets_and_no_others_have_one_hash_input() {
    let one = || vec![marker("a", full("x", Some("d"))), marker("b", bare("y"))];
    let turned = vec![marker("b", bare("y")), marker("a", full("x", Some("d")))];
    let plain = vec![marker("a", bare("x")), marker("b", bare("y"))];
    let empty = vec![marker("a", full("x", Some(""))), marker("b", bare("y"))];
    assert_eq!(collect(one()).hash_input(), collect(turned).hash_input());
    assert_ne!(collect(one()).hash_input(), collect(plain.clone()).hash_input());
    assert_eq!(collect(plain).hash_input(), collect(empty).hash_input());
}

#[test]
fn a_marker_directory_has_slashes_between_its_parts() {
    assert_eq!(marker_dir("a\\b\\c"), "a/b/c");
    assert_eq!(marker_dir("a/b"), "a/b");
}
