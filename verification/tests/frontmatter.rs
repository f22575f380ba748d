use hatchdoor_vault::frontmatter::{read_block, top_level_keys};
use hatchdoor_vault::frontmatter_edit::{edit_frontmatter_block, FrontmatterEdit};
use hatchdoor_vault::write_types::WriteError;

/// Edits a block by properties whose values are JSON texts.
fn edit(block: &str, updates: &[(&str, &str)]) -> Result<String, WriteError> {
    let updates: Vec<(String, String)> = updates
        .iter()
        .map(|(key, value)| (key.to_string(), value.to_string()))
        .collect();
    match edit_frontmatter_block(block, &updates, "Note")? {
        FrontmatterEdit::Block(block) => Ok(block),
        FrontmatterEdit::Empty => Ok(String::new()),
    }
}

#[test]
fn an_unnamed_key_keeps_its_order_and_its_one_line_list() {
    let block = "tags: [type/project, status/active]\ncreated: 2026-03-18";
    let edited = edit(block, &[("status", "\"active\"")]).expect("edit");
    assert_eq!(
        edited,
        "tags: [type/project, status/active]\ncreated: 2026-03-18\nstatus: active"
    );
}

#[test]
fn a_comment_and_a_blank_line_survive_a_neighbouring_delete() {
    let block = "one: 1\n\n# about two\ntwo: 2\nthree: 3";
    let edited = edit(block, &[("two", "null")]).expect("edit");
    assert_eq!(edited, "one: 1\n\n# about two\nthree: 3");
}

#[test]
fn a_replacement_inherits_the_shape_the_author_used() {
    let block = "flow: [a, b]\nblock:\n  - a\n  - b";
    let edited = edit(
        block,
        &[("block", "[\"x\",\"y\"]"), ("flow", "[\"x\",\"y\"]")],
    )
    .expect("edit");
    assert_eq!(edited, "flow: [x, y]\nblock:\n  - x\n  - y");
}

#[test]
fn a_duplicate_key_is_refused_by_name_only_when_it_is_named() {
    let block = "keep: first\nkeep: second\nother: value";
    let error = edit(block, &[("keep", "\"third\"")])
        .expect_err("a duplicate key cannot be edited unambiguously");
    let WriteError::InvalidInput(message) = error else {
        panic!("expected an invalid-input refusal");
    };
    assert!(message.contains("'keep'"), "{message}");
    assert!(message.contains("appears 2 times"), "{message}");

    let edited = edit(block, &[("other", "\"changed\"")]).expect("edit");
    assert_eq!(edited, "keep: first\nkeep: second\nother: changed");
}

#[test]
fn a_url_value_is_not_mistaken_for_a_second_key() {
    let block = "home: value\nurl: https://example.com/a:b";
    let edited = edit(block, &[("home", "\"changed\"")]).expect("edit");
    assert_eq!(edited, "home: changed\nurl: https://example.com/a:b");
}

#[test]
fn deleting_an_ambiguous_key_refuses_rather_than_taking_the_block_with_it() {
    let error = edit(
        "keep: first\nkeep: second",
        &[("keep", "null")],
    )
    .expect_err("a duplicated key is as ambiguous to delete as it is to change");
    let WriteError::InvalidInput(message) = error else {
        panic!("expected an invalid-input refusal");
    };
    assert!(message.contains("'keep'"), "{message}");
}

#[test]
fn an_emptied_list_falls_back_to_the_one_line_form() {
    // A block sequence with no items is not expressible in YAML, so the
    // shape cannot be inherited here whatever the author wrote.
    let edited = edit("tags:\n  - a\n  - b", &[("tags", "[]")]).expect("edit");
    assert_eq!(edited, "tags: []");
}

#[test]
fn a_crlf_block_keeps_its_line_endings_on_the_lines_this_module_writes() {
    let block = "title: Home\r\ntags: [a]\r";
    let edited =
        edit(block, &[("status", "\"new\""), ("tags", "[\"b\"]")]).expect("edit");
    assert_eq!(edited, "title: Home\r\ntags: [b]\r\nstatus: new\r");
}

#[test]
fn a_new_key_lands_above_a_trailing_blank_line_not_below_it() {
    let edited = edit("title: Home\n", &[("status", "\"new\"")]).expect("edit");
    assert_eq!(edited, "title: Home\nstatus: new\n");
}

#[test]
fn a_new_key_lands_below_a_trailing_comment() {
    let edited = edit(
        "title: Home\n# a note to self",
        &[("status", "\"new\"")],
    )
    .expect("edit");
    assert_eq!(edited, "title: Home\n# a note to self\nstatus: new");
}

#[test]
fn a_block_whose_keys_are_all_indented_is_refused_rather_than_half_edited() {
    // Valid YAML that this scanner finds no top-level key in. Naming an
    // existing key is refused for being unlocatable; adding a new one is
    // caught by the reparse check, because appending at column zero would
    // change what the block means.
    let block = "  title: Home\n  tags: [a]";
    for updates in [
        &[("title", "\"Changed\"")],
        &[("status", "\"new\"")],
    ] {
        let error = edit(block, updates).expect_err("this block is not safely editable");
        assert!(matches!(error, WriteError::InvalidInput(_)), "{error:?}");
    }
}

#[test]
fn a_quoted_key_holding_a_colon_still_has_its_block_list_seen() {
    let block = "\"a: b\":\n  - one";
    let edited = edit(block, &[("a: b", "[\"two\"]")]).expect("edit");
    assert_eq!(edited, "\"a: b\":\n  - two");
}

#[test]
fn a_flow_item_that_needs_quoting_gets_it() {
    let edited = edit(
        "a: 1",
        &[("tags", "[\"plain\",\"key: value\",\"x,y\"]")],
    )
    .expect("edit");
    assert_eq!(edited, "a: 1\ntags: [plain, \"key: value\", \"x,y\"]");
}

#[test]
fn a_block_that_is_no_mapping_is_refused() {
    let error = edit("- a\n- b", &[("status", "\"new\"")]).expect_err("a list has no keys");
    let WriteError::InvalidInput(message) = error else {
        panic!("expected an invalid-input refusal");
    };
    assert!(message.contains("Note"), "{message}");
    assert!(read_block("- a\n- b").is_none());
}

#[test]
fn a_block_is_read_as_its_properties() {
    assert_eq!(
        read_block("title: Home\ncount: 2\ntags: [a, b]"),
        Some(vec![
            ("count".to_string(), "2".to_string()),
            ("tags".to_string(), "[\"a\",\"b\"]".to_string()),
            ("title".to_string(), "\"Home\"".to_string()),
        ])
    );
    assert_eq!(read_block(""), Some(Vec::new()));
}

#[test]
fn deleting_every_key_empties_the_block() {
    assert_eq!(
        edit("title: Home", &[("title", "null")]).expect("edit"),
        ""
    );
}

#[test]
fn an_edited_block_reads_as_the_merged_properties() {
    let edited = edit(
        "a: 1\nb: [x]\n# note\nc: old",
        &[("b", "null"), ("c", "\"new\""), ("d", "true")],
    )
    .expect("edit");
    assert_eq!(
        read_block(&edited),
        Some(vec![
            ("a".to_string(), "1".to_string()),
            ("c".to_string(), "\"new\"".to_string()),
            ("d".to_string(), "true".to_string()),
        ])
    );
}

#[test]
fn top_level_keys_are_found_with_their_lines() {
    let lines: Vec<Vec<char>> = ["a: 1", "# c", "b:", "  - x", "'c d': 2"]
        .iter()
        .map(|line| line.chars().collect())
        .collect();
    assert_eq!(top_level_keys(&lines).len(), 3);
}
