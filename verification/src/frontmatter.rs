//! Editing a note's leading YAML block in place.
//!
//! The block is edited as text. Only the lines that a named key owns are
//! rewritten; every other line comes back as its author wrote it.
//!
//! A property value is a JSON text in the compact form of `serde_json`.

use vstd::prelude::*;
use vstd::slice::slice_to_vec;

use crate::layers::pair_views;
use crate::text::{
    chars_eq, ends_with, find_char, from_chars, has_prefix, has_suffix, is_whitespace, join, joined,
    lemma_next_char, lemma_next_is, lemma_texts_push, lemma_trim_end, lemma_trim_end_is,
    lemma_trim_start, lemma_trim_start_is, lines, next_char, prefix_of, push_all, push_str, split,
    split_lines, split_on, starts_with, strs, suffix_of, texts, to_chars, trim, trim_end,
    trim_end_of, trim_start, trim_start_of, trimmed, whitespace,
};

verus! {

// ---------------------------------------------------------------------------
// The YAML and JSON crates
// ---------------------------------------------------------------------------

/// The top-level mapping of a YAML document as `serde_yaml_ng` reads it into
/// `serde_json` values: each key with its value's JSON text. `None` where the
/// document is malformed or no mapping.
pub uninterp spec fn yaml_mapping(block: Seq<char>) -> Option<Seq<(Seq<char>, Seq<char>)>>;

/// `serde_yaml_ng::from_str` into a `serde_json::Value`: the mapping's entries,
/// which depend on the document alone.
#[verifier::external_body]
fn read_mapping(block: &str) -> (r: Option<Vec<(String, String)>>)
    ensures
        match r {
            Some(v) => yaml_mapping(block@) == Some(pair_views(v@)),
            None => yaml_mapping(block@) is None,
        },
{
    match serde_yaml_ng::from_str::<serde_json::Value>(block) {
        Ok(serde_json::Value::Object(map)) => Some(
            map.iter().map(|(key, value)| (key.clone(), value.to_string())).collect(),
        ),
        _ => None,
    }
}

/// The properties of a block's inner text; a blank one has none.
pub open spec fn block_mapping(block: Seq<char>) -> Option<Seq<(Seq<char>, Seq<char>)>> {
    if trim(block).len() == 0 {
        Some(seq![])
    } else {
        yaml_mapping(block)
    }
}

pub fn read_block(block: &str) -> (r: Option<Vec<(String, String)>>)
    ensures
        match r {
            Some(v) => block_mapping(block@) == Some(pair_views(v@)),
            None => block_mapping(block@) is None,
        },
{
    let chars = to_chars(block);
    if trimmed(chars.as_slice()).len() == 0 {
        let none: Vec<(String, String)> = Vec::new();
        assert(pair_views(none@) =~= seq![]);
        return Some(none);
    }
    read_mapping(block)
}

/// The YAML text of a mapping with one entry, or why there is none.
pub uninterp spec fn yaml_entry(key: Seq<char>, json: Seq<char>) -> Result<Seq<char>, Seq<char>>;

/// `serde_yaml_ng::to_string` of the one-entry mapping whose value
/// `serde_json::from_str` reads from the JSON text. The text, or the message of
/// the call that failed, depends on the key and the JSON text alone.
#[verifier::external_body]
fn emit(key: &str, json: &str) -> (r: Result<String, String>)
    ensures
        text_result(r) == yaml_entry(key@, json@),
{
    let value: serde_json::Value = match serde_json::from_str(json) {
        Ok(value) => value,
        Err(error) => return Err(error.to_string()),
    };
    let mut single = serde_json::Map::new();
    single.insert(key.to_string(), value);
    serde_yaml_ng::to_string(&single).map_err(|error| error.to_string())
}

/// The YAML text of a value, or why there is none.
pub uninterp spec fn yaml_value(json: Seq<char>) -> Result<Seq<char>, Seq<char>>;

/// `serde_yaml_ng::to_string` of the value that `serde_json::from_str` reads
/// from the JSON text. The text, or the message of the call that failed,
/// depends on the JSON text alone.
#[verifier::external_body]
fn emit_value(json: &str) -> (r: Result<String, String>)
    ensures
        text_result(r) == yaml_value(json@),
{
    let value: serde_json::Value = match serde_json::from_str(json) {
        Ok(value) => value,
        Err(error) => return Err(error.to_string()),
    };
    serde_yaml_ng::to_string(&value).map_err(|error| error.to_string())
}

/// The items of a JSON array, each as its JSON text; `None` for any other text.
pub uninterp spec fn json_array(json: Seq<char>) -> Option<Seq<Seq<char>>>;

/// `serde_json::from_str` into a list of values: the items of an array, which
/// depend on the text alone.
#[verifier::external_body]
fn json_items(json: &str) -> (r: Option<Vec<String>>)
    ensures
        match r {
            Some(v) => json_array(json@) == Some(strs(v@)),
            None => json_array(json@) is None,
        },
{
    match serde_json::from_str::<Vec<serde_json::Value>>(json) {
        Ok(items) => Some(items.iter().map(|value| value.to_string()).collect()),
        Err(_) => None,
    }
}

/// The string a YAML document stands for; `None` where it is no string.
pub uninterp spec fn yaml_string(text: Seq<char>) -> Option<Seq<char>>;

/// `serde_yaml_ng::from_str` into a string, which depends on the text alone.
#[verifier::external_body]
fn read_string(text: &str) -> (r: Option<String>)
    ensures
        match r {
            Some(s) => yaml_string(text@) == Some(s@),
            None => yaml_string(text@) is None,
        },
{
    match serde_yaml_ng::from_str::<String>(text) {
        Ok(s) => Some(s),
        Err(_) => None,
    }
}

pub open spec fn text_result(r: Result<String, String>) -> Result<Seq<char>, Seq<char>> {
    match r {
        Ok(s) => Ok(s@),
        Err(e) => Err(e@),
    }
}

// ---------------------------------------------------------------------------
// Finding keys
// ---------------------------------------------------------------------------

/// The position of the quote that closes a quoted key, from `i` on. In double
/// quotes a backslash escapes the next character.
pub open spec fn closing_quote(s: Seq<char>, i: int, quote: char) -> Option<int>
    decreases s.len() - i,
{
    if i < 0 || i >= s.len() {
        None
    } else if s[i] == '\\' && quote == '"' {
        if i + 1 >= s.len() {
            None
        } else {
            closing_quote(s, i + 2, quote)
        }
    } else if s[i] == quote {
        Some(i)
    } else {
        closing_quote(s, i + 1, quote)
    }
}

proof fn lemma_closing_quote(s: Seq<char>, i: int, quote: char)
    requires
        0 <= i,
    ensures
        match closing_quote(s, i, quote) {
            Some(k) => i <= k < s.len(),
            None => true,
        },
    decreases s.len() - i,
{
    if i < s.len() {
        if s[i] == '\\' && quote == '"' {
            if i + 1 < s.len() {
                lemma_closing_quote(s, i + 2, quote);
            }
        } else if s[i] != quote {
            lemma_closing_quote(s, i + 1, quote);
        }
    }
}

fn find_closing_quote(s: &[char], quote: char) -> (r: Option<usize>)
    ensures
        match r {
            Some(i) => closing_quote(s@, 0, quote) == Some(i as int) && i < s@.len() <= usize::MAX,
            None => closing_quote(s@, 0, quote) is None,
        },
{
    let mut i: usize = 0;
    while i < s.len()
        invariant
            0 <= i <= s@.len(),
            closing_quote(s@, 0, quote) == closing_quote(s@, i as int, quote),
        decreases s@.len() - i,
    {
        if s[i] == '\\' && quote == '"' {
            if s.len() - i < 2 {
                return None;
            }
            i = i + 2;
        } else if s[i] == quote {
            return Some(i);
        } else {
            i = i + 1;
        }
    }
    None
}

/// The text inside a quoted key's quotes and what follows its colon.
pub open spec fn quoted_key(after_quote: Seq<char>, quote: char) -> Option<(Seq<char>, Seq<char>)> {
    match closing_quote(after_quote, 0, quote) {
        Some(end) => {
            let rest = after_quote.skip(end + 1);
            if rest.len() > 0 && rest[0] == ':' {
                Some((after_quote.take(end), rest.skip(1)))
            } else {
                None
            }
        },
        None => None,
    }
}

pub fn split_quoted_key(after_quote: &[char], quote: char) -> (r: Option<(Vec<char>, Vec<char>)>)
    ensures
        match r {
            Some((raw, rest)) => quoted_key(after_quote@, quote) == Some((raw@, rest@)),
            None => quoted_key(after_quote@, quote) is None,
        },
{
    match find_closing_quote(after_quote, quote) {
        None => None,
        Some(end) => {
            let rest = suffix_of(after_quote, end + 1);
            if rest.len() > 0 && rest[0] == ':' {
                Some(
                    (
                        slice_to_vec(prefix_of(after_quote, end)),
                        slice_to_vec(suffix_of(rest, 1)),
                    ),
                )
            } else {
                None
            }
        },
    }
}

/// The line opens no key: it is blank, indented, a comment or a list item.
pub open spec fn opens_no_key(line: Seq<char>) -> bool {
    trim(line).len() == 0 || whitespace(line[0]) || line[0] == '#' || starts_with(line, "- "@)
        || trim_end(line) == "-"@
}

/// The name before the colon of a key line, and what follows the colon.
pub open spec fn name_and_rest(line: Seq<char>) -> Option<(Seq<char>, Seq<char>)> {
    if line[0] == '"' || line[0] == '\'' {
        match quoted_key(line.skip(1), line[0]) {
            Some((raw, rest)) => match yaml_string(seq![line[0]] + raw + seq![line[0]]) {
                Some(name) => Some((name, rest)),
                None => None,
            },
            None => None,
        }
    } else {
        let colon = next_char(line, 0, ':');
        if colon < line.len() {
            Some((line.take(colon), line.skip(colon + 1)))
        } else {
            None
        }
    }
}

/// The key a line opens and what follows its colon. The colon must be followed
/// by a blank or the end of the line.
pub open spec fn key_line(line: Seq<char>) -> Option<(Seq<char>, Seq<char>)> {
    if opens_no_key(line) {
        None
    } else {
        match name_and_rest(line) {
            Some((name, rest)) => if name.len() == 0 || (rest.len() > 0 && rest[0] != ' '
                && rest[0] != '\t') {
                None
            } else {
                Some((name, rest))
            },
            None => None,
        }
    }
}

proof fn lemma_trim_nonempty(s: Seq<char>)
    ensures
        trim(s).len() > 0 ==> s.len() > 0,
{
}

fn read_name_and_rest(line: &[char]) -> (r: Option<(Vec<char>, Vec<char>)>)
    requires
        line@.len() > 0,
    ensures
        match r {
            Some((name, rest)) => name_and_rest(line@) == Some((name@, rest@)),
            None => name_and_rest(line@) is None,
        },
{
    let quote = line[0];
    if quote == '"' || quote == '\'' {
        match split_quoted_key(suffix_of(line, 1), quote) {
            None => None,
            Some((raw, rest)) => {
                let mut text: Vec<char> = Vec::new();
                text.push(quote);
                push_all(&mut text, raw.as_slice());
                text.push(quote);
                assert(text@ =~= seq![quote] + raw@ + seq![quote]);
                let document = from_chars(text.as_slice());
                match read_string(document.as_str()) {
                    Some(name) => Some((to_chars(name.as_str()), rest)),
                    None => None,
                }
            },
        }
    } else {
        let colon: usize = find_char(line, 0, ':');
        if colon < line.len() {
            Some((slice_to_vec(prefix_of(line, colon)), slice_to_vec(suffix_of(line, colon + 1))))
        } else {
            None
        }
    }
}

pub fn top_level_key_line(line: &[char]) -> (r: Option<(Vec<char>, Vec<char>)>)
    ensures
        match r {
            Some((name, rest)) => key_line(line@) == Some((name@, rest@)),
            None => key_line(line@) is None,
        },
{
    proof {
        lemma_trim_nonempty(line@);
    }
    if trimmed(line).len() == 0 {
        return None;
    }
    let item = to_chars("- ");
    let dash = to_chars("-");
    if is_whitespace(line[0]) || line[0] == '#' || has_prefix(line, item.as_slice()) || chars_eq(
        trim_end_of(line),
        dash.as_slice(),
    ) {
        return None;
    }
    match read_name_and_rest(line) {
        None => None,
        Some((name, rest)) => {
            if name.len() == 0 || (rest.len() > 0 && rest[0] != ' ' && rest[0] != '\t') {
                None
            } else {
                Some((name, rest))
            }
        },
    }
}

/// How a key's value is laid out: as a block list with the given indent, or
/// otherwise.
#[derive(Debug, Clone, PartialEq, Eq)]
pub enum ValueShape {
    BlockList { indent: String },
    NoBlockList,
}

/// What a [`ValueShape`] says: the indent of a block list.
pub open spec fn shape_view(s: ValueShape) -> Option<Seq<char>> {
    match s {
        ValueShape::BlockList { indent } => Some(indent@),
        ValueShape::NoBlockList => None,
    }
}

/// A blank line or a comment.
pub open spec fn blank_or_comment(line: Seq<char>) -> bool {
    let t = trim_start(line);
    t.len() == 0 || t[0] == '#'
}

fn is_blank_or_comment(line: &[char]) -> (r: bool)
    ensures
        r == blank_or_comment(line@),
{
    let t = trim_start_of(line);
    t.len() == 0 || t[0] == '#'
}

/// The indent of the block list that the lines from `i` on start with, blank
/// lines and comments aside.
pub open spec fn list_indent(below: Seq<Seq<char>>, i: int) -> Option<Seq<char>>
    decreases below.len() - i,
{
    if i < 0 || i >= below.len() {
        None
    } else if blank_or_comment(below[i]) {
        list_indent(below, i + 1)
    } else {
        let t = trim_start(below[i]);
        if starts_with(t, "- "@) || trim_end(t) == "-"@ {
            Some(below[i].take(below[i].len() - t.len()))
        } else {
            None
        }
    }
}

/// The shape of a value, given what follows the colon and the lines below.
pub open spec fn shape_of(inline: Seq<char>, below: Seq<Seq<char>>) -> Option<Seq<char>> {
    if trim(inline).len() > 0 {
        None
    } else {
        list_indent(below, 0)
    }
}

pub fn value_shape(inline: &[char], all: &Vec<Vec<char>>, start: usize, end: usize) -> (r:
    ValueShape)
    requires
        start <= end <= all@.len(),
    ensures
        shape_view(r) == shape_of(inline@, texts(all@).subrange(start as int, end as int)),
{
    if trimmed(inline).len() > 0 {
        return ValueShape::NoBlockList;
    }
    let ghost below = texts(all@).subrange(start as int, end as int);
    let item = to_chars("- ");
    let dash = to_chars("-");
    let mut i: usize = start;
    while i < end
        invariant
            start <= i <= end <= all@.len(),
            below == texts(all@).subrange(start as int, end as int),
            item@ == "- "@,
            dash@ == "-"@,
            shape_of(inline@, below) == list_indent(below, 0),
            list_indent(below, 0) == list_indent(below, i - start),
        decreases end - i,
    {
        let line = all[i].as_slice();
        assert(below[i - start] == line@);
        if !is_blank_or_comment(line) {
            let t = trim_start_of(line);
            proof {
                lemma_trim_start(line@);
            }
            if has_prefix(t, item.as_slice()) || chars_eq(trim_end_of(t), dash.as_slice()) {
                let indent = from_chars(prefix_of(line, line.len() - t.len()));
                return ValueShape::BlockList { indent };
            }
            return ValueShape::NoBlockList;
        }
        i = i + 1;
    }
    ValueShape::NoBlockList
}

/// One top-level key and the lines it owns.
#[derive(Debug, Clone, PartialEq, Eq)]
pub struct KeyEntry {
    pub name: String,
    /// The `key:` line.
    pub start: usize,
    /// One past the last line the key owns. Blank lines and comments behind the
    /// value are not owned.
    pub end: usize,
    pub shape: ValueShape,
    /// The key's line up to and including its colon.
    pub prefix: String,
}

/// What a [`KeyEntry`] says.
pub struct EntryView {
    pub name: Seq<char>,
    pub start: int,
    pub end: int,
    pub shape: Option<Seq<char>>,
    pub prefix: Seq<char>,
}

impl View for KeyEntry {
    type V = EntryView;

    open spec fn view(&self) -> EntryView {
        EntryView {
            name: self.name@,
            start: self.start as int,
            end: self.end as int,
            shape: shape_view(self.shape),
            prefix: self.prefix@,
        }
    }
}

pub open spec fn entry_views(v: Seq<KeyEntry>) -> Seq<EntryView> {
    Seq::new(v.len(), |i: int| v[i]@)
}

/// The first line from `i` on that opens a key, or the number of lines.
pub open spec fn next_key(all: Seq<Seq<char>>, i: int) -> int
    decreases all.len() - i,
{
    if i >= all.len() {
        all.len() as int
    } else if key_line(all[i]) is Some {
        i
    } else {
        next_key(all, i + 1)
    }
}

/// `end` moved up over blank lines and comments, but not past the line behind
/// `start`.
pub open spec fn owned_end(all: Seq<Seq<char>>, start: int, end: int) -> int
    decreases end - start,
{
    if end > start + 1 && blank_or_comment(all[end - 1]) {
        owned_end(all, start, end - 1)
    } else {
        end
    }
}

/// The key that the `i`th line opens.
pub open spec fn entry_at(all: Seq<Seq<char>>, i: int) -> EntryView {
    let (name, inline) = key_line(all[i])->0;
    let end = owned_end(all, i, next_key(all, i + 1));
    EntryView {
        name,
        start: i,
        end,
        shape: shape_of(inline, all.subrange(i + 1, end)),
        prefix: all[i].take(all[i].len() - inline.len()),
    }
}

/// The keys that the lines from `i` on open.
pub open spec fn entries_from(all: Seq<Seq<char>>, i: int) -> Seq<EntryView>
    decreases all.len() - i,
{
    if i < 0 || i >= all.len() {
        seq![]
    } else if key_line(all[i]) is Some {
        seq![entry_at(all, i)] + entries_from(all, i + 1)
    } else {
        entries_from(all, i + 1)
    }
}

proof fn lemma_next_key(all: Seq<Seq<char>>, i: int)
    requires
        0 <= i <= all.len(),
    ensures
        i <= next_key(all, i) <= all.len(),
        forall|k: int| i <= k < next_key(all, i) ==> key_line(all[k]) is None,
        next_key(all, i) < all.len() ==> key_line(all[next_key(all, i)]) is Some,
    decreases all.len() - i,
{
    if i < all.len() && key_line(all[i]) is None {
        lemma_next_key(all, i + 1);
    }
}

proof fn lemma_owned_end(all: Seq<Seq<char>>, start: int, end: int)
    requires
        0 <= start < end <= all.len(),
    ensures
        start < owned_end(all, start, end) <= end,
    decreases end - start,
{
    if end > start + 1 && blank_or_comment(all[end - 1]) {
        lemma_owned_end(all, start, end - 1);
    }
}

proof fn lemma_rest_len(line: Seq<char>)
    requires
        key_line(line) is Some,
    ensures
        (key_line(line)->0).1.len() <= line.len(),
{
    lemma_trim_nonempty(line);
    lemma_next_char(line, 0, ':');
    lemma_closing_quote(line.skip(1), 0, line[0]);
}

pub fn top_level_keys(all: &Vec<Vec<char>>) -> (r: Vec<KeyEntry>)
    ensures
        entry_views(r@) == entries_from(texts(all@), 0),
{
    let ghost av = texts(all@);
    let mut out: Vec<KeyEntry> = Vec::new();
    let mut i: usize = 0;
    assert(entry_views(out@) + entries_from(av, 0) =~= entries_from(av, 0));
    while i < all.len()
        invariant
            0 <= i <= all@.len(),
            av == texts(all@),
            entries_from(av, 0) == entry_views(out@) + entries_from(av, i as int),
        decreases all@.len() - i,
    {
        let line = all[i].as_slice();
        assert(av[i as int] == line@);
        match top_level_key_line(line) {
            None => {},
            Some((name, inline)) => {
                let mut next: usize = i + 1;
                while next < all.len() && top_level_key_line(all[next].as_slice()).is_none()
                    invariant
                        i < next <= all@.len(),
                        av == texts(all@),
                        next_key(av, i + 1) == next_key(av, next as int),
                    decreases all@.len() - next,
                {
                    assert(av[next as int] == all@[next as int]@);
                    next = next + 1;
                }
                proof {
                    if next < all@.len() {
                        assert(av[next as int] == all@[next as int]@);
                    }
                }
                let mut end: usize = next;
                while end > i + 1 && is_blank_or_comment(all[end - 1].as_slice())
                    invariant
                        i < end <= next <= all@.len(),
                        av == texts(all@),
                        owned_end(av, i as int, next as int) == owned_end(
                            av,
                            i as int,
                            end as int,
                        ),
                    decreases end,
                {
                    assert(av[end - 1] == all@[end - 1]@);
                    end = end - 1;
                }
                proof {
                    assert(av[end - 1] == all@[end - 1]@);
                    lemma_rest_len(line@);
                }
                let shape = value_shape(inline.as_slice(), all, i + 1, end);
                let prefix = from_chars(prefix_of(line, line.len() - inline.len()));
                let ghost was = out@;
                let entry = KeyEntry {
                    name: from_chars(name.as_slice()),
                    start: i,
                    end,
                    shape,
                    prefix,
                };
                assert(entry@ == entry_at(av, i as int));
                out.push(entry);
                proof {
                    assert(entry_views(out@) =~= entry_views(was).push(entry@));
                    assert(entry_views(out@) + entries_from(av, i + 1) =~= entry_views(was)
                        + entries_from(av, i as int));
                }
            },
        }
        i = i + 1;
    }
    assert(entry_views(out@) =~= entries_from(av, 0));
    out
}

// ---------------------------------------------------------------------------
// Laying values out
// ---------------------------------------------------------------------------

/// A list item that may stand plainly in a one-line list.
pub open spec fn flow_safe(s: Seq<char>) -> bool {
    s.len() > 0 && trim(s) == s && forall|i: int| 0 <= i < s.len() ==> !needs_quotes(#[trigger] s[i])
}

/// A control character, or one that means something in a one-line list.
pub open spec fn needs_quotes(c: char) -> bool {
    (c as u32) <= 0x1f || (0x7f <= (c as u32) <= 0x9f) || c == ',' || c == '[' || c == ']' || c == '{'
        || c == '}' || c == '#' || c == '&' || c == '*' || c == '!' || c == '|' || c == '>' || c
        == '%' || c == '@' || c == '`' || c == '"' || c == '\'' || c == ':'
}

fn char_needs_quotes(c: char) -> (r: bool)
    ensures
        r == needs_quotes(c),
{
    let u: u32 = c as u32;
    u <= 0x1f || (0x7f <= u && u <= 0x9f) || c == ',' || c == '[' || c == ']' || c == '{' || c == '}'
        || c == '#' || c == '&' || c == '*' || c == '!' || c == '|' || c == '>' || c == '%' || c
        == '@' || c == '`' || c == '"' || c == '\'' || c == ':'
}

pub fn is_flow_safe(s: &[char]) -> (r: bool)
    ensures
        r == flow_safe(s@),
{
    if s.len() == 0 || !chars_eq(trimmed(s), s) {
        return false;
    }
    let mut i: usize = 0;
    while i < s.len()
        invariant
            0 <= i <= s@.len(),
            trim(s@) == s@,
            s@.len() > 0,
            forall|k: int| 0 <= k < i ==> !needs_quotes(#[trigger] s@[k]),
        decreases s@.len() - i,
    {
        if char_needs_quotes(s[i]) {
            assert(needs_quotes(s@[i as int]));
            return false;
        }
        i = i + 1;
    }
    true
}

/// `s` without the line feeds at its end.
pub open spec fn drop_line_feeds(s: Seq<char>) -> Seq<char>
    decreases s.len(),
{
    if s.len() > 0 && s.last() == '\n' {
        drop_line_feeds(s.drop_last())
    } else {
        s
    }
}

fn without_line_feeds(s: &[char]) -> (r: &[char])
    ensures
        r@ == drop_line_feeds(s@),
{
    let mut j: usize = s.len();
    assert(s@.take(j as int) =~= s@);
    while j > 0 && s[j - 1] == '\n'
        invariant
            0 <= j <= s@.len(),
            drop_line_feeds(s@) == drop_line_feeds(s@.take(j as int)),
        decreases j,
    {
        assert(s@.take(j as int).last() == s@[j - 1]);
        assert(s@.take(j as int).drop_last() =~= s@.take(j - 1));
        j = j - 1;
    }
    proof {
        if j > 0 {
            assert(s@.take(j as int).last() == s@[j - 1]);
        }
    }
    prefix_of(s, j)
}

/// What the emitters make of a key and its value.
pub struct Emitted {
    /// The entry itself.
    pub entry: Result<String, String>,
    /// The key with an empty list.
    pub empty: Result<String, String>,
    /// The key with no value.
    pub null: Result<String, String>,
    /// The items of a list: each one's JSON text and its YAML text.
    pub items: Option<Vec<(String, Result<String, String>)>>,
}

/// What an [`Emitted`] says.
pub struct EmittedView {
    pub entry: Result<Seq<char>, Seq<char>>,
    pub empty: Result<Seq<char>, Seq<char>>,
    pub null: Result<Seq<char>, Seq<char>>,
    pub items: Option<Seq<(Seq<char>, Result<Seq<char>, Seq<char>>)>>,
}

pub open spec fn item_results(v: Seq<(String, Result<String, String>)>) -> Seq<
    (Seq<char>, Result<Seq<char>, Seq<char>>),
> {
    Seq::new(v.len(), |i: int| (v[i].0@, text_result(v[i].1)))
}

impl View for Emitted {
    type V = EmittedView;

    open spec fn view(&self) -> EmittedView {
        EmittedView {
            entry: text_result(self.entry),
            empty: text_result(self.empty),
            null: text_result(self.null),
            items: match self.items {
                Some(v) => Some(item_results(v@)),
                None => None,
            },
        }
    }
}

/// Why a value was not written.
pub open spec fn unserializable(e: Seq<char>) -> Seq<char> {
    "updated frontmatter cannot be serialized as YAML: "@ + e
}

/// The items of a one-line list: each plainly where that reads back unchanged,
/// else as JSON.
pub open spec fn flow_list(items: Seq<(Seq<char>, Result<Seq<char>, Seq<char>>)>) -> Result<
    Seq<Seq<char>>,
    Seq<char>,
>
    decreases items.len(),
{
    if items.len() == 0 {
        Ok(seq![])
    } else {
        match flow_list(items.drop_last()) {
            Err(e) => Err(e),
            Ok(prev) => match items.last().1 {
                Err(e) => Err(unserializable(e)),
                Ok(yaml) => {
                    let plain = drop_line_feeds(yaml);
                    if flow_safe(plain) {
                        Ok(prev.push(plain))
                    } else {
                        Ok(prev.push(items.last().0))
                    }
                },
            },
        }
    }
}

/// The lines behind the first, indented.
pub open spec fn indented(all: Seq<Seq<char>>, indent: Seq<char>) -> Seq<Seq<char>> {
    Seq::new(
        all.len(),
        |i: int|
            if i == 0 {
                all[i]
            } else {
                indent + all[i]
            },
    )
}

/// The lines of a key and its value, with the emitter's own spelling of the
/// key. A list takes the block form it had; otherwise it goes on one line.
pub open spec fn plain_layout(key: Seq<char>, shape: Option<Seq<char>>, e: EmittedView) -> Result<
    Seq<Seq<char>>,
    Seq<char>,
> {
    match e.items {
        Some(items) => if shape is Some && items.len() > 0 {
            match e.entry {
                Err(m) => Err(unserializable(m)),
                Ok(text) => {
                    let all = lines(text);
                    if all.len() == 0 {
                        Ok(seq![seq![]])
                    } else {
                        Ok(indented(all, shape->0))
                    }
                },
            }
        } else {
            match e.empty {
                Err(m) => Err(unserializable(m)),
                Ok(text) => {
                    let head = drop_line_feeds(text);
                    if !ends_with(head, "[]"@) {
                        Err("frontmatter key '"@ + key + "' cannot be serialized"@)
                    } else {
                        match flow_list(items) {
                            Err(m) => Err(m),
                            Ok(parts) => Ok(
                                seq![
                                    head.take(head.len() - 2) + seq!['['] + join(parts, ", "@)
                                        + seq![']'],
                                ],
                            ),
                        }
                    }
                },
            }
        },
        None => match e.entry {
            Err(m) => Err(unserializable(m)),
            Ok(text) => Ok(split(drop_line_feeds(text), '\n')),
        },
    }
}

/// The lines with the emitter's spelling of the key replaced by the author's.
pub open spec fn respelled(
    all: Seq<Seq<char>>,
    prefix: Seq<char>,
    null_text: Seq<char>,
) -> Seq<Seq<char>> {
    let t = trim_end(null_text);
    let emitted = t.take(t.len() - 5);
    if ends_with(t, " null"@) && all.len() > 0 && starts_with(all[0], emitted) {
        all.update(0, prefix + all[0].skip(emitted.len() as int))
    } else {
        all
    }
}

/// The lines of a key and its value. `prefix` is the author's spelling of a key
/// that already exists.
pub open spec fn layout(
    key: Seq<char>,
    shape: Option<Seq<char>>,
    prefix: Option<Seq<char>>,
    e: EmittedView,
) -> Result<Seq<Seq<char>>, Seq<char>> {
    match plain_layout(key, shape, e) {
        Err(m) => Err(m),
        Ok(all) => match prefix {
            None => Ok(all),
            Some(p) => match e.null {
                Err(m) => Err(unserializable(m)),
                Ok(null_text) => Ok(respelled(all, p, null_text)),
            },
        },
    }
}

pub open spec fn lines_result(r: Result<Vec<Vec<char>>, String>) -> Result<
    Seq<Seq<char>>,
    Seq<char>,
> {
    match r {
        Ok(v) => Ok(texts(v@)),
        Err(e) => Err(e@),
    }
}

fn unserializable_message(e: &str) -> (r: String)
    ensures
        r@ == unserializable(e@),
{
    let mut out = to_chars("updated frontmatter cannot be serialized as YAML: ");
    push_str(&mut out, e);
    from_chars(out.as_slice())
}

proof fn lemma_flow_error_stays(
    items: Seq<(Seq<char>, Result<Seq<char>, Seq<char>>)>,
    i: int,
)
    requires
        0 <= i <= items.len(),
        flow_list(items.take(i)) is Err,
    ensures
        flow_list(items) == flow_list(items.take(i)),
    decreases items.len() - i,
{
    if i < items.len() {
        assert(items.take(i + 1).drop_last() =~= items.take(i));
        lemma_flow_error_stays(items, i + 1);
    } else {
        assert(items.take(i) =~= items);
    }
}

fn flow_items(items: &Vec<(String, Result<String, String>)>) -> (r: Result<
    Vec<Vec<char>>,
    String,
>)
    ensures
        lines_result(r) == flow_list(item_results(items@)),
{
    let ghost iv = item_results(items@);
    let mut out: Vec<Vec<char>> = Vec::new();
    let mut i: usize = 0;
    assert(texts(out@) =~= seq![]);
    while i < items.len()
        invariant
            0 <= i <= items@.len(),
            iv == item_results(items@),
            flow_list(iv.take(i as int)) == Ok::<Seq<Seq<char>>, Seq<char>>(texts(out@)),
        decreases items@.len() - i,
    {
        proof {
            assert(iv.take(i + 1).drop_last() =~= iv.take(i as int));
            assert(iv.take(i + 1).last() == iv[i as int]);
        }
        match &items[i].1 {
            Err(e) => {
                proof {
                    lemma_flow_error_stays(iv, i + 1);
                }
                return Err(unserializable_message(e.as_str()));
            },
            Ok(yaml) => {
                let chars = to_chars(yaml.as_str());
                let plain = without_line_feeds(chars.as_slice());
                let piece = if is_flow_safe(plain) {
                    slice_to_vec(plain)
                } else {
                    to_chars(items[i].0.as_str())
                };
                proof {
                    lemma_texts_push(out@, piece);
                }
                out.push(piece);
            },
        }
        i = i + 1;
    }
    assert(iv.take(i as int) =~= iv);
    Ok(out)
}

fn render_emitted(key: &str, shape: &ValueShape, e: &Emitted) -> (r: Result<Vec<Vec<char>>, String>)
    ensures
        lines_result(r) == plain_layout(key@, shape_view(*shape), e@),
{
    match &e.items {
        Some(items) => {
            match shape {
                ValueShape::BlockList { indent } => {
                    if items.len() > 0 {
                        return match &e.entry {
                            Err(m) => Err(unserializable_message(m.as_str())),
                            Ok(text) => {
                                let chars = to_chars(text.as_str());
                                let all = split_lines(chars.as_slice());
                                let ghost av = lines(text@);
                                let mut out: Vec<Vec<char>> = Vec::new();
                                if all.len() == 0 {
                                    out.push(Vec::new());
                                    assert(av.len() == 0);
                                    assert(texts(out@)[0] =~= seq![]);
                                    assert(texts(out@) =~= seq![seq![]]);
                                    return Ok(out);
                                }
                                let mut i: usize = 0;
                                while i < all.len()
                                    invariant
                                        0 <= i <= all@.len(),
                                        texts(all@) == av,
                                        texts(out@) == indented(av, indent@).take(i as int),
                                    decreases all@.len() - i,
                                {
                                    assert(av[i as int] == all@[i as int]@);
                                    let mut line: Vec<char> = Vec::new();
                                    if i > 0 {
                                        push_str(&mut line, indent.as_str());
                                    }
                                    push_all(&mut line, all[i].as_slice());
                                    assert(line@ =~= indented(av, indent@)[i as int]);
                                    proof {
                                        lemma_texts_push(out@, line);
                                    }
                                    out.push(line);
                                    i = i + 1;
                                    assert(texts(out@) =~= indented(av, indent@).take(i as int));
                                }
                                assert(texts(out@) =~= indented(av, indent@));
                                Ok(out)
                            },
                        };
                    }
                },
                ValueShape::NoBlockList => {},
            }
            match &e.empty {
                Err(m) => Err(unserializable_message(m.as_str())),
                Ok(text) => {
                    let chars = to_chars(text.as_str());
                    let head = without_line_feeds(chars.as_slice());
                    let brackets = to_chars("[]");
                    proof {
                        reveal_strlit("[]");
                    }
                    if !has_suffix(head, brackets.as_slice()) {
                        let mut out = to_chars("frontmatter key '");
                        push_str(&mut out, key);
                        push_str(&mut out, "' cannot be serialized");
                        return Err(from_chars(out.as_slice()));
                    }
                    match flow_items(items) {
                        Err(m) => Err(m),
                        Ok(parts) => {
                            let comma = to_chars(", ");
                            let list = joined(&parts, comma.as_slice());
                            let mut line = slice_to_vec(prefix_of(head, head.len() - 2));
                            line.push('[');
                            push_all(&mut line, list.as_slice());
                            line.push(']');
                            proof {
                                let want = head@.take(head@.len() - 2) + seq!['['] + join(
                                    texts(parts@),
                                    ", "@,
                                ) + seq![']'];
                                assert(line@ =~= want);
                            }
                            let mut out: Vec<Vec<char>> = Vec::new();
                            out.push(line);
                            assert(texts(out@) =~= seq![line@]);
                            Ok(out)
                        },
                    }
                },
            }
        },
        None => match &e.entry {
            Err(m) => Err(unserializable_message(m.as_str())),
            Ok(text) => {
                let chars = to_chars(text.as_str());
                Ok(split_on(without_line_feeds(chars.as_slice()), '\n'))
            },
        },
    }
}

/// The lines of a key and its value, from what the emitters make of them.
pub fn lay_out_key(key: &str, shape: &ValueShape, prefix: Option<&String>, e: &Emitted) -> (r:
    Result<Vec<Vec<char>>, String>)
    ensures
        lines_result(r) == layout(
            key@,
            shape_view(*shape),
            match prefix {
                Some(p) => Some(p@),
                None => None,
            },
            e@,
        ),
{
    match render_emitted(key, shape, e) {
        Err(m) => Err(m),
        Ok(all) => match prefix {
            None => Ok(all),
            Some(p) => match &e.null {
                Err(m) => Err(unserializable_message(m.as_str())),
                Ok(null_text) => {
                    let chars = to_chars(null_text.as_str());
                    let t = trim_end_of(chars.as_slice());
                    let suffix = to_chars(" null");
                    proof {
                        reveal_strlit(" null");
                    }
                    let ghost was = texts(all@);
                    if has_suffix(t, suffix.as_slice()) && all.len() > 0 {
                        let emitted = prefix_of(t, t.len() - 5);
                        assert(was[0] == all@[0]@);
                        if has_prefix(all[0].as_slice(), emitted) {
                            let mut line = to_chars(p.as_str());
                            push_all(&mut line, suffix_of(all[0].as_slice(), emitted.len()));
                            let mut out = all;
                            out[0] = line;
                            assert(texts(out@) =~= was.update(0, line@));
                            return Ok(out);
                        }
                    }
                    Ok(all)
                },
            },
        },
    }
}

/// What the emitters make of a key and its value.
pub open spec fn emitted(key: Seq<char>, json: Seq<char>) -> EmittedView {
    EmittedView {
        entry: yaml_entry(key, json),
        empty: yaml_entry(key, "[]"@),
        null: yaml_entry(key, "null"@),
        items: match json_array(json) {
            Some(items) => Some(Seq::new(items.len(), |i: int| (items[i], yaml_value(items[i])))),
            None => None,
        },
    }
}

fn emit_all(key: &str, json: &str) -> (r: Emitted)
    ensures
        r@ == emitted(key@, json@),
{
    let items = match json_items(json) {
        None => None,
        Some(texts) => {
            let mut out: Vec<(String, Result<String, String>)> = Vec::new();
            let mut i: usize = 0;
            while i < texts.len()
                invariant
                    0 <= i <= texts@.len(),
                    out@.len() == i,
                    forall|k: int|
                        0 <= k < i ==> (#[trigger] out@[k]).0@ == texts@[k]@ && text_result(out@[k].1)
                            == yaml_value(texts@[k]@),
                decreases texts@.len() - i,
            {
                let yaml = emit_value(texts[i].as_str());
                out.push((texts[i].clone(), yaml));
                i = i + 1;
            }
            proof {
                let want = Seq::new(
                    strs(texts@).len(),
                    |i: int| (strs(texts@)[i], yaml_value(strs(texts@)[i])),
                );
                assert(item_results(out@) =~= want);
            }
            Some(out)
        },
    };
    Emitted { entry: emit(key, json), empty: emit(key, "[]"), null: emit(key, "null"), items }
}

/// The lines of a key and its new value.
pub fn render_key(key: &str, json: &str, shape: &ValueShape, prefix: Option<&String>) -> (r: Result<
    Vec<Vec<char>>,
    String,
>)
    ensures
        lines_result(r) == layout(
            key@,
            shape_view(*shape),
            match prefix {
                Some(p) => Some(p@),
                None => None,
            },
            emitted(key@, json@),
        ),
{
    let e = emit_all(key, json);
    lay_out_key(key, shape, prefix, &e)
}

// ---------------------------------------------------------------------------
// Replacing lines
// ---------------------------------------------------------------------------

/// What happens to the lines of one key.
pub enum KeyEdit {
    Keep,
    Delete,
    Replace(Vec<Vec<char>>),
}

/// The new lines of a key; `None` keeps them.
pub open spec fn edit_view(e: KeyEdit) -> Option<Seq<Seq<char>>> {
    match e {
        KeyEdit::Keep => None,
        KeyEdit::Delete => Some(seq![]),
        KeyEdit::Replace(v) => Some(texts(v@)),
    }
}

pub open spec fn edit_views(v: Seq<KeyEdit>) -> Seq<Option<Seq<Seq<char>>>> {
    Seq::new(v.len(), |i: int| edit_view(v[i]))
}

/// The keys follow one another: each owns at least its own line, and ends
/// before the next starts.
pub open spec fn entries_ordered(entries: Seq<EntryView>, from: int, n: int) -> bool {
    &&& forall|k: int|
        0 <= k < entries.len() ==> from <= (#[trigger] entries[k]).start < entries[k].end <= n
    &&& forall|j: int, k: int|
        0 <= j < k < entries.len() ==> (#[trigger] entries[j]).end <= (#[trigger] entries[k]).start
}

/// The lines from `i` on with the edits applied to the keys from the `k`th on.
/// Lines that no key owns, and the lines of keys without an edit, stay.
pub open spec fn edited_from(
    all: Seq<Seq<char>>,
    entries: Seq<EntryView>,
    edits: Seq<Option<Seq<Seq<char>>>>,
    i: int,
    k: int,
) -> Seq<Seq<char>>
    decreases entries.len() - k,
{
    if k < 0 || k >= entries.len() || k >= edits.len() {
        all.skip(i)
    } else {
        let e = entries[k];
        let own = match edits[k] {
            Some(new) => new,
            None => all.subrange(e.start, e.end),
        };
        all.subrange(i, e.start) + own + edited_from(all, entries, edits, e.end, k + 1)
    }
}

/// The lines with the edits applied.
pub open spec fn edited_lines(
    all: Seq<Seq<char>>,
    entries: Seq<EntryView>,
    edits: Seq<Option<Seq<Seq<char>>>>,
) -> Seq<Seq<char>> {
    edited_from(all, entries, edits, 0, 0)
}

fn push_lines(out: &mut Vec<Vec<char>>, all: &Vec<Vec<char>>, from: usize, to: usize)
    requires
        from <= to <= all@.len(),
    ensures
        texts(final(out)@) == texts(old(out)@) + texts(all@).subrange(from as int, to as int),
{
    let ghost start = texts(out@);
    let mut i: usize = from;
    assert(start + texts(all@).subrange(from as int, from as int) =~= start);
    while i < to
        invariant
            from <= i <= to <= all@.len(),
            texts(out@) == start + texts(all@).subrange(from as int, i as int),
        decreases to - i,
    {
        let line = slice_to_vec(all[i].as_slice());
        proof {
            lemma_texts_push(out@, line);
        }
        out.push(line);
        i = i + 1;
        assert(texts(out@) =~= start + texts(all@).subrange(from as int, i as int));
    }
}

/// Applies edits to the keys of a block.
pub fn apply_edits(all: &Vec<Vec<char>>, entries: &Vec<KeyEntry>, edits: &Vec<KeyEdit>) -> (r: Vec<
    Vec<char>,
>)
    requires
        entries_ordered(entry_views(entries@), 0, all@.len() as int),
        entries@.len() == edits@.len(),
    ensures
        texts(r@) == edited_lines(texts(all@), entry_views(entries@), edit_views(edits@)),
{
    let ghost av = texts(all@);
    let ghost ev = entry_views(entries@);
    let ghost dv = edit_views(edits@);
    let mut out: Vec<Vec<char>> = Vec::new();
    let mut i: usize = 0;
    let mut k: usize = 0;
    assert(texts(out@) + edited_from(av, ev, dv, 0, 0) =~= edited_lines(av, ev, dv));
    while k < entries.len()
        invariant
            0 <= k <= entries@.len(),
            entries@.len() == edits@.len(),
            0 <= i <= all@.len(),
            av == texts(all@),
            ev == entry_views(entries@),
            dv == edit_views(edits@),
            entries_ordered(ev, 0, all@.len() as int),
            k > 0 ==> i == ev[k - 1].end,
            k == 0 ==> i == 0,
            edited_lines(av, ev, dv) == texts(out@) + edited_from(av, ev, dv, i as int, k as int),
        decreases entries@.len() - k,
    {
        let entry = &entries[k];
        proof {
            assert(ev[k as int] == entry@);
            if k > 0 {
                assert(ev[k - 1].end <= ev[k as int].start);
            }
        }
        let ghost was = texts(out@);
        push_lines(&mut out, all, i, entry.start);
        match &edits[k] {
            KeyEdit::Keep => {
                push_lines(&mut out, all, entry.start, entry.end);
            },
            KeyEdit::Delete => {},
            KeyEdit::Replace(new) => {
                push_lines(&mut out, new, 0, new.len());
                assert(texts(new@).subrange(0, new@.len() as int) =~= texts(new@));
            },
        }
        proof {
            let own = match dv[k as int] {
                Some(new) => new,
                None => av.subrange(entry@.start, entry@.end),
            };
            let rest = edited_from(av, ev, dv, entry@.end, k + 1);
            assert(dv[k as int] == edit_view(edits@[k as int]));
            assert(texts(out@) =~= was + (av.subrange(i as int, entry@.start) + own));
            assert(texts(out@) + rest =~= was + (av.subrange(i as int, entry@.start) + own + rest));
        }
        i = entry.end;
        k = k + 1;
    }
    let ghost was = texts(out@);
    push_lines(&mut out, all, i, all.len());
    assert(av.subrange(i as int, all@.len() as int) =~= av.skip(i as int));
    out
}

proof fn lemma_keep_all(
    all: Seq<Seq<char>>,
    entries: Seq<EntryView>,
    edits: Seq<Option<Seq<Seq<char>>>>,
    i: int,
    k: int,
)
    requires
        0 <= k <= entries.len(),
        entries.len() == edits.len(),
        0 <= i <= all.len(),
        entries_ordered(entries, 0, all.len() as int),
        k < entries.len() ==> i <= entries[k].start,
        forall|j: int| k <= j < edits.len() ==> (#[trigger] edits[j]) is None,
    ensures
        edited_from(all, entries, edits, i, k) == all.skip(i),
    decreases entries.len() - k,
{
    if k < entries.len() {
        let e = entries[k];
        if k + 1 < entries.len() {
            assert(entries[k].end <= entries[k + 1].start);
        }
        lemma_keep_all(all, entries, edits, e.end, k + 1);
        assert(edits[k] is None);
        assert(all.subrange(i, e.start) + all.subrange(e.start, e.end) + all.skip(e.end) =~= all.skip(
            i,
        ));
    }
}

/// How many lines the edits of the first `k` keys add.
pub open spec fn lines_added(
    entries: Seq<EntryView>,
    edits: Seq<Option<Seq<Seq<char>>>>,
    k: int,
) -> int
    decreases k,
{
    if k <= 0 {
        0
    } else {
        lines_added(entries, edits, k - 1) + match edits[k - 1] {
            Some(new) => new.len() - (entries[k - 1].end - entries[k - 1].start),
            None => 0,
        }
    }
}

/// The line stands between the `k`th key and the one before, or is a line of
/// the `k`th key and that has no edit: no edited key owns it.
pub open spec fn kept_before(
    entries: Seq<EntryView>,
    edits: Seq<Option<Seq<Seq<char>>>>,
    line: int,
    k: int,
) -> bool {
    &&& 0 <= k <= entries.len()
    &&& k > 0 ==> entries[k - 1].end <= line
    &&& k < entries.len() ==> line < entries[k].start || (line < entries[k].end && edits[k] is None)
}

/// The lines in front of the `k`th key and its own, edited.
spec fn edited_head(
    all: Seq<Seq<char>>,
    entries: Seq<EntryView>,
    edits: Seq<Option<Seq<Seq<char>>>>,
    i: int,
    k: int,
) -> Seq<Seq<char>> {
    all.subrange(i, entries[k].start) + match edits[k] {
        Some(new) => new,
        None => all.subrange(entries[k].start, entries[k].end),
    }
}

proof fn lemma_edited_step(
    all: Seq<Seq<char>>,
    entries: Seq<EntryView>,
    edits: Seq<Option<Seq<Seq<char>>>>,
    i: int,
    k: int,
)
    requires
        0 <= k < entries.len(),
        entries.len() == edits.len(),
        0 <= i <= all.len(),
        entries_ordered(entries, 0, all.len() as int),
        k < entries.len() ==> i <= entries[k].start,
        k > 0 ==> entries[k - 1].end == i,
    ensures
        edited_from(all, entries, edits, i, k) == edited_head(all, entries, edits, i, k)
            + edited_from(all, entries, edits, entries[k].end, k + 1),
        edited_head(all, entries, edits, i, k).len() == entries[k].end - i + lines_added(
            entries,
            edits,
            k + 1,
        ) - lines_added(entries, edits, k),
        0 <= entries[k].end <= all.len(),
        k + 1 < entries.len() ==> entries[k].end <= entries[k + 1].start,
{
}

proof fn lemma_edited_len(
    all: Seq<Seq<char>>,
    entries: Seq<EntryView>,
    edits: Seq<Option<Seq<Seq<char>>>>,
    i: int,
    k: int,
)
    requires
        0 <= k <= entries.len(),
        entries.len() == edits.len(),
        0 <= i <= all.len(),
        entries_ordered(entries, 0, all.len() as int),
        k < entries.len() ==> i <= entries[k].start,
        k > 0 ==> entries[k - 1].end == i,
    ensures
        edited_from(all, entries, edits, i, k).len() == all.len() - i + lines_added(
            entries,
            edits,
            entries.len() as int,
        ) - lines_added(entries, edits, k),
    decreases entries.len() - k,
{
    if k < entries.len() {
        lemma_edited_step(all, entries, edits, i, k);
        lemma_edited_len(all, entries, edits, entries[k].end, k + 1);
    }
}

proof fn lemma_line_kept(
    all: Seq<Seq<char>>,
    entries: Seq<EntryView>,
    edits: Seq<Option<Seq<Seq<char>>>>,
    i: int,
    k: int,
    line: int,
    j: int,
)
    requires
        0 <= k <= entries.len(),
        entries.len() == edits.len(),
        0 <= i <= all.len(),
        entries_ordered(entries, 0, all.len() as int),
        k < entries.len() ==> i <= entries[k].start,
        k > 0 ==> entries[k - 1].end == i,
        k <= j,
        i <= line < all.len(),
        kept_before(entries, edits, line, j),
    ensures
        ({
            let out = edited_from(all, entries, edits, i, k);
            let at = line + lines_added(entries, edits, j) - lines_added(entries, edits, k) - i;
            0 <= at < out.len() && out[at] == all[line]
        }),
    decreases entries.len() - k,
{
    if k < entries.len() {
        lemma_edited_step(all, entries, edits, i, k);
        let head = edited_head(all, entries, edits, i, k);
        let rest = edited_from(all, entries, edits, entries[k].end, k + 1);
        if j == k {
            assert((head + rest)[line - i] == head[line - i]);
        } else {
            assert(j == k + 1 || entries[k].end <= entries[j - 1].start);
            lemma_line_kept(all, entries, edits, entries[k].end, k + 1, line, j);
            let at = line + lines_added(entries, edits, j) - lines_added(entries, edits, k + 1)
                - entries[k].end;
            assert((head + rest)[head.len() + at] == rest[at]);
        }
    }
}

proof fn lemma_edit_placed(
    all: Seq<Seq<char>>,
    entries: Seq<EntryView>,
    edits: Seq<Option<Seq<Seq<char>>>>,
    i: int,
    k: int,
    j: int,
)
    requires
        0 <= k <= entries.len(),
        entries.len() == edits.len(),
        0 <= i <= all.len(),
        entries_ordered(entries, 0, all.len() as int),
        k < entries.len() ==> i <= entries[k].start,
        k > 0 ==> entries[k - 1].end == i,
        k <= j < entries.len(),
        edits[j] is Some,
    ensures
        ({
            let out = edited_from(all, entries, edits, i, k);
            let new = edits[j]->0;
            let at = entries[j].start + lines_added(entries, edits, j) - lines_added(
                entries,
                edits,
                k,
            ) - i;
            0 <= at && at + new.len() <= out.len() && out.subrange(at, at + new.len()) == new
        }),
    decreases entries.len() - k,
{
    lemma_edited_step(all, entries, edits, i, k);
    let head = edited_head(all, entries, edits, i, k);
    let rest = edited_from(all, entries, edits, entries[k].end, k + 1);
    let new = edits[j]->0;
    if j == k {
        let at = entries[k].start - i;
        assert((head + rest).subrange(at, at + new.len()) =~= new);
    } else {
        lemma_edit_placed(all, entries, edits, entries[k].end, k + 1, j);
        let at = entries[j].start + lines_added(entries, edits, j) - lines_added(
            entries,
            edits,
            k + 1,
        ) - entries[k].end;
        assert((head + rest).subrange(head.len() + at, head.len() + at + new.len())
            =~= rest.subrange(at, at + new.len()));
    }
}

/// Editing any keys changes the lines that those keys own and no others. Each
/// edited key's new lines stand in the place of its old ones; every line that
/// no edited key owns stands where it stood, moved by what the edits before it
/// added or took; and nothing else is there.
pub proof fn only_the_named_lines_change(
    all: Seq<Seq<char>>,
    entries: Seq<EntryView>,
    edits: Seq<Option<Seq<Seq<char>>>>,
)
    requires
        entries.len() == edits.len(),
        entries_ordered(entries, 0, all.len() as int),
    ensures
        edited_lines(all, entries, edits).len() == all.len() + lines_added(
            entries,
            edits,
            entries.len() as int,
        ),
        forall|line: int, k: int|
            0 <= line < all.len() && #[trigger] kept_before(entries, edits, line, k) ==> {
                let at = line + lines_added(entries, edits, k);
                0 <= at < edited_lines(all, entries, edits).len() && edited_lines(
                    all,
                    entries,
                    edits,
                )[at] == all[line]
            },
        forall|k: int|
            0 <= k < entries.len() && (#[trigger] edits[k]) is Some ==> {
                let at = entries[k].start + lines_added(entries, edits, k);
                0 <= at && at + edits[k]->0.len() <= edited_lines(all, entries, edits).len()
                    && edited_lines(all, entries, edits).subrange(at, at + edits[k]->0.len())
                    == edits[k]->0
            },
{
    let out = edited_lines(all, entries, edits);
    lemma_edited_len(all, entries, edits, 0, 0);
    assert forall|line: int, k: int|
        0 <= line < all.len() && #[trigger] kept_before(entries, edits, line, k) implies {
        let at = line + lines_added(entries, edits, k);
        0 <= at < out.len() && out[at] == all[line]
    } by {
        lemma_line_kept(all, entries, edits, 0, 0, line, k);
    }
    assert forall|k: int| 0 <= k < entries.len() && (#[trigger] edits[k]) is Some implies {
        let at = entries[k].start + lines_added(entries, edits, k);
        0 <= at && at + edits[k]->0.len() <= out.len() && out.subrange(at, at + edits[k]->0.len())
            == edits[k]->0
    } by {
        lemma_edit_placed(all, entries, edits, 0, 0, k);
    }
}

/// Every line is a line of an edited key or one that stays.
pub proof fn every_line_is_edited_or_kept(
    entries: Seq<EntryView>,
    edits: Seq<Option<Seq<Seq<char>>>>,
    n: int,
    line: int,
)
    requires
        entries.len() == edits.len(),
        entries_ordered(entries, 0, n),
        0 <= line < n,
    ensures
        (exists|k: int| #[trigger] kept_before(entries, edits, line, k)) <==> !(exists|k: int|
            0 <= k < entries.len() && (#[trigger] edits[k]) is Some && entries[k].start <= line
                < entries[k].end),
{
    let k = keys_ended(entries, line, 0);
    lemma_keys_ended(entries, n, line, 0);
    if exists|j: int|
        0 <= j < entries.len() && (#[trigger] edits[j]) is Some && entries[j].start <= line
            < entries[j].end {
        let j = choose|j: int|
            0 <= j < entries.len() && (#[trigger] edits[j]) is Some && entries[j].start <= line
                < entries[j].end;
        if exists|m: int| #[trigger] kept_before(entries, edits, line, m) {
            let m = choose|m: int| #[trigger] kept_before(entries, edits, line, m);
            if m < j {
                assert(entries[m].end <= entries[j].start);
            } else if m > j {
                assert(m - 1 == j || entries[j].end <= entries[m - 1].start);
            }
        }
    } else {
        if k < entries.len() {
            assert(edits[k] is None || !(entries[k].start <= line < entries[k].end));
        }
        assert(kept_before(entries, edits, line, k));
    }
}

/// The first key from the `i`th on that ends behind the line.
spec fn keys_ended(entries: Seq<EntryView>, line: int, i: int) -> int
    decreases entries.len() - i,
{
    if i < 0 || i >= entries.len() {
        entries.len() as int
    } else if entries[i].end > line {
        i
    } else {
        keys_ended(entries, line, i + 1)
    }
}

proof fn lemma_keys_ended(entries: Seq<EntryView>, n: int, line: int, i: int)
    requires
        entries_ordered(entries, 0, n),
        0 <= i <= entries.len(),
        i > 0 ==> entries[i - 1].end <= line,
    ensures
        i <= keys_ended(entries, line, i) <= entries.len(),
        keys_ended(entries, line, i) > 0 ==> entries[keys_ended(entries, line, i) - 1].end <= line,
        keys_ended(entries, line, i) < entries.len() ==> entries[keys_ended(
            entries,
            line,
            i,
        )].end > line,
    decreases entries.len() - i,
{
    if i < entries.len() && entries[i].end <= line {
        lemma_keys_ended(entries, n, line, i + 1);
    }
}

/// Editing no key changes nothing.
pub proof fn editing_nothing_keeps_every_line(
    all: Seq<Seq<char>>,
    entries: Seq<EntryView>,
    edits: Seq<Option<Seq<Seq<char>>>>,
)
    requires
        entries.len() == edits.len(),
        entries_ordered(entries, 0, all.len() as int),
        forall|j: int| 0 <= j < edits.len() ==> (#[trigger] edits[j]) is None,
    ensures
        edited_lines(all, entries, edits) == all,
{
    lemma_keep_all(all, entries, edits, 0, 0);
    assert(all.skip(0) =~= all);
}

/// The keys that are found follow one another.
pub proof fn found_keys_are_ordered(all: Seq<Seq<char>>, i: int)
    requires
        0 <= i <= all.len(),
    ensures
        entries_ordered(entries_from(all, i), i, all.len() as int),
    decreases all.len() - i,
{
    if i < all.len() {
        found_keys_are_ordered(all, i + 1);
        let rest = entries_from(all, i + 1);
        if key_line(all[i]) is Some {
            let whole = entries_from(all, i);
            let e = entry_at(all, i);
            lemma_next_key(all, i + 1);
            lemma_owned_end(all, i, next_key(all, i + 1));
            lemma_first_start(all, i + 1);
            assert(whole =~= seq![e] + rest);
            assert forall|j: int, k: int| 0 <= j < k < whole.len() implies (#[trigger] whole[j]).end
                <= (#[trigger] whole[k]).start by {
                assert(whole[k] == rest[k - 1]);
                if j > 0 {
                    assert(whole[j] == rest[j - 1]);
                } else {
                    assert(rest[k - 1].start >= next_key(all, i + 1));
                }
            }
            assert forall|k: int| 0 <= k < whole.len() implies i <= (#[trigger] whole[k]).start
                < whole[k].end <= all.len() by {
                if k > 0 {
                    assert(whole[k] == rest[k - 1]);
                }
            }
        }
    }
}

proof fn lemma_first_start(all: Seq<Seq<char>>, i: int)
    requires
        0 <= i <= all.len(),
    ensures
        forall|k: int|
            0 <= k < entries_from(all, i).len() ==> (#[trigger] entries_from(all, i)[k]).start
                >= next_key(all, i),
    decreases all.len() - i,
{
    if i < all.len() {
        lemma_first_start(all, i + 1);
        lemma_next_key(all, i + 1);
        let rest = entries_from(all, i + 1);
        let whole = entries_from(all, i);
        if key_line(all[i]) is Some {
            assert(whole =~= seq![entry_at(all, i)] + rest);
            assert forall|k: int| 0 <= k < whole.len() implies (#[trigger] whole[k]).start
                >= next_key(all, i) by {
                if k > 0 {
                    assert(whole[k] == rest[k - 1]);
                }
            }
        }
    }
}

// ---------------------------------------------------------------------------
// Keys, and the lines they own
// ---------------------------------------------------------------------------

proof fn lemma_closing_quote_behind(a: Seq<char>, b: Seq<char>, i: int, quote: char)
    requires
        0 <= i,
    ensures
        closing_quote(a + b, a.len() + i, quote) == (match closing_quote(b, i, quote) {
            Some(k) => Some(a.len() + k),
            None => None,
        }),
    decreases b.len() - i,
{
    let s = a + b;
    if i < b.len() {
        assert(s[a.len() + i] == b[i]);
        lemma_closing_quote_behind(a, b, i + 1, quote);
        if i + 1 < b.len() {
            lemma_closing_quote_behind(a, b, i + 2, quote);
        }
    }
}

proof fn lemma_closing_quote_from(s: Seq<char>, i: int, n: int, quote: char)
    requires
        0 <= i <= n <= s.len(),
        forall|k: int|
            i <= k < n ==> #[trigger] s[k] != quote && (quote == '"' ==> s[k] != '\\'),
    ensures
        closing_quote(s, i, quote) == closing_quote(s, n, quote),
    decreases n - i,
{
    if i < n {
        assert(s[i] != quote);
        lemma_closing_quote_from(s, i + 1, n, quote);
    }
}

/// The characters that stand for themselves in a key in the given quotes.
pub open spec fn plain_in_quotes(piece: Seq<char>, quote: char) -> bool {
    forall|k: int|
        0 <= k < piece.len() ==> #[trigger] piece[k] != quote && (quote == '"' ==> piece[k]
            != '\\')
}

/// A quoted key ends at the first quote of its kind. In double quotes a backslash
/// and the character behind it are passed over, whatever that is.
#[verifier::rlimit(40)]
pub proof fn quoted_key_ends_at_its_quote(
    piece: Seq<char>,
    quote: char,
    c: char,
    rest: Seq<char>,
)
    requires
        plain_in_quotes(piece, quote),
    ensures
        quote != '\\' ==> closing_quote(piece + seq![quote] + rest, 0, quote) == Some(
            piece.len() as int,
        ),
        closing_quote(piece, 0, quote) is None,
        quote == '"' ==> closing_quote(piece + seq!['\\', c] + rest, 0, quote) == (
        match closing_quote(rest, 0, quote) {
            Some(k) => Some(piece.len() + 2 + k),
            None => None,
        }),
{
    let n = piece.len() as int;
    let s = piece + seq![quote] + rest;
    assert forall|k: int| 0 <= k < n implies #[trigger] s[k] != quote && (quote == '"' ==> s[k]
        != '\\') by {
        assert(s[k] == piece[k]);
    }
    lemma_closing_quote_from(s, 0, n, quote);
    assert(s[n] == quote);
    lemma_closing_quote_from(piece, 0, n, quote);
    let u = piece + seq!['\\', c] + rest;
    assert forall|k: int| 0 <= k < n implies #[trigger] u[k] != quote && (quote == '"' ==> u[k]
        != '\\') by {
        assert(u[k] == piece[k]);
    }
    lemma_closing_quote_from(u, 0, n, quote);
    assert(u[n] == '\\');
    let head = piece + seq!['\\', c];
    assert(u =~= head + rest);
    lemma_closing_quote_behind(head, rest, 0, quote);
}

/// A line opens a key where it starts with a name, a colon, and then a space, a
/// tab or nothing. What stands behind the first colon is the key's value.
#[verifier::rlimit(40)]
pub proof fn plain_line_names_its_key(name: Seq<char>, rest: Seq<char>)
    requires
        name.len() > 0,
        !whitespace(name[0]),
        name[0] != '#' && name[0] != '"' && name[0] != '\'',
        !(name[0] == '-' && name.len() > 1 && name[1] == ' '),
        !name.contains(':'),
    ensures
        key_line(name.push(':') + rest) == (if rest.len() == 0 || rest[0] == ' ' || rest[0]
            == '\t' {
            Some((name, rest))
        } else {
            None
        }),
{
    let line = name.push(':') + rest;
    let n = name.len() as int;
    assert(line[0] == name[0]);
    assert forall|k: int| 0 <= k < n implies line[k] != ':' by {
        assert(name.contains(name[k]));
        assert(line[k] == name[k]);
    }
    lemma_next_is(line, 0, n, ':');
    assert(line.take(n) =~= name);
    assert(line.skip(n + 1) =~= rest);
    lemma_trim_start_is(line, 0);
    assert(line.skip(0) =~= line);
    lemma_trim_end(line);
    let e = trim_end(line);
    reveal_strlit("- ");
    reveal_strlit("-");
    if e.len() <= n {
        assert(whitespace(line[n]));
    }
    if e == "-"@ {
        assert(line[n] == ':');
    }
    if starts_with(line, "- "@) {
        assert(line.take(2)[0] == '-' && line.take(2)[1] == ' ');
        assert(line[1] == ' ');
    }
}

/// A line that is blank, indented, a comment or a list item opens no key, and
/// neither does one without a colon that does not start with a quote.
pub proof fn other_lines_name_no_key(line: Seq<char>)
    requires
        line.len() == 0 || whitespace(line[0]) || line[0] == '#' || (line[0] == '-' && (line.len()
            == 1 || line[1] == ' ')) || (!line.contains(':') && line[0] != '"' && line[0] != '\''),
    ensures
        key_line(line) is None,
{
    reveal_strlit("- ");
    reveal_strlit("-");
    if line.len() > 0 && line[0] == '-' {
        if line.len() == 1 {
            lemma_trim_end_is(line, 1);
            assert(trim_end(line) =~= "-"@);
        } else if line[1] == ' ' {
            assert(line.take(2) =~= "- "@);
        }
    }
    if line.len() > 0 {
        lemma_next_char(line, 0, ':');
    }
}

/// The key `e` owns its lines: it is named on the first of them, no other is
/// named on one of them, the last is neither blank nor a comment unless it is the
/// first, and up to the next key only blank lines and comments follow.
pub open spec fn owns_its_lines(all: Seq<Seq<char>>, e: EntryView) -> bool {
    &&& 0 <= e.start < e.end <= all.len()
    &&& key_line(all[e.start]) is Some
    &&& {
        let (name, inline) = key_line(all[e.start])->0;
        &&& e.name == name
        &&& e.prefix == all[e.start].take(all[e.start].len() - inline.len())
        &&& e.shape == (if trim(inline).len() > 0 {
            None
        } else {
            list_indent(all.subrange(e.start + 1, e.end), 0)
        })
    }
    &&& forall|j: int| e.start < j < e.end ==> key_line(#[trigger] all[j]) is None
    &&& e.end == e.start + 1 || !blank_or_comment(all[e.end - 1])
    &&& exists|next: int|
        #![trigger line_from(all, next)]
        e.end <= next <= all.len() && line_from(all, next) && (forall|j: int|
            e.end <= j < next ==> blank_or_comment(#[trigger] all[j]) && key_line(all[j]) is None)
}

/// A key is named on the line, or it is behind the last one.
pub open spec fn line_from(all: Seq<Seq<char>>, i: int) -> bool {
    i == all.len() || (0 <= i < all.len() && key_line(all[i]) is Some)
}

/// Every line that names a key is found, in order, and each key with the lines it
/// owns.
pub proof fn every_key_is_found(all: Seq<Seq<char>>, i: int)
    requires
        0 <= i <= all.len(),
    ensures
        forall|k: int|
            0 <= k < entries_from(all, i).len() ==> owns_its_lines(
                all,
                #[trigger] entries_from(all, i)[k],
            ),
        forall|line: int|
            i <= line < all.len() && key_line(#[trigger] all[line]) is Some ==> exists|k: int|
                0 <= k < entries_from(all, i).len() && (#[trigger] entries_from(all, i)[k]).start
                    == line,
    decreases all.len() - i,
{
    if i < all.len() {
        every_key_is_found(all, i + 1);
        let rest = entries_from(all, i + 1);
        let whole = entries_from(all, i);
        if key_line(all[i]) is Some {
            let e = entry_at(all, i);
            let next = next_key(all, i + 1);
            lemma_next_key(all, i + 1);
            lemma_owned_lines(all, i, next);
            assert(line_from(all, next));
            assert(owns_its_lines(all, e));
            assert(whole =~= seq![e] + rest);
            assert forall|k: int| 0 <= k < whole.len() implies owns_its_lines(
                all,
                #[trigger] whole[k],
            ) by {
                if k > 0 {
                    assert(whole[k] == rest[k - 1]);
                }
            }
            assert forall|line: int| i <= line < all.len() && key_line(
                #[trigger] all[line],
            ) is Some implies exists|k: int|
                0 <= k < whole.len() && (#[trigger] whole[k]).start == line by {
                if line == i {
                    assert(whole[0].start == line);
                } else {
                    let k = choose|k: int|
                        0 <= k < rest.len() && (#[trigger] rest[k]).start == line;
                    assert(whole[k + 1].start == line);
                }
            }
        }
    }
}

proof fn lemma_owned_lines(all: Seq<Seq<char>>, start: int, end: int)
    requires
        0 <= start < end <= all.len(),
    ensures
        start < owned_end(all, start, end) <= end,
        owned_end(all, start, end) == start + 1 || !blank_or_comment(
            all[owned_end(all, start, end) - 1],
        ),
        forall|j: int|
            owned_end(all, start, end) <= j < end ==> blank_or_comment(#[trigger] all[j]),
    decreases end - start,
{
    if end > start + 1 && blank_or_comment(all[end - 1]) {
        lemma_owned_lines(all, start, end - 1);
    }
}

/// A key's value is a block list where the first line below it that is neither
/// blank nor a comment is a list item, and the list's indent is that line's. It is
/// none where that line is something else, or where there is none.
#[verifier::rlimit(40)]
pub proof fn first_line_tells_a_list(
    below: Seq<Seq<char>>,
    i: int,
    indent: Seq<char>,
    rest: Seq<char>,
)
    requires
        0 <= i <= below.len(),
        forall|j: int| 0 <= j < i ==> blank_or_comment(#[trigger] below[j]),
        forall|j: int| 0 <= j < indent.len() ==> whitespace(#[trigger] indent[j]),
        rest.len() > 0 && !whitespace(rest[0]) && rest[0] != '#',
    ensures
        i == below.len() ==> list_indent(below, 0) is None,
        i < below.len() && below[i] == indent + rest && rest[0] == '-' && (rest.len() == 1
            || rest[1] == ' ') ==> list_indent(below, 0) == Some(indent),
        i < below.len() && below[i] == indent + rest && (rest[0] != '-' || (rest.len() > 1
            && !whitespace(rest[1]))) ==> list_indent(below, 0) is None,
{
    lemma_blank_lines(below, 0, i);
    if i < below.len() && below[i] == indent + rest {
        let line = below[i];
        let n = indent.len() as int;
        assert forall|k: int| 0 <= k < n implies whitespace(#[trigger] line[k]) by {
            assert(line[k] == indent[k]);
        }
        assert(line[n] == rest[0]);
        lemma_trim_start_is(line, n);
        assert(line.skip(n) =~= rest);
        assert(line.take(n) =~= indent);
        reveal_strlit("- ");
        reveal_strlit("-");
        if rest.len() == 1 {
            lemma_trim_end_is(rest, 1);
            if rest[0] == '-' {
                assert(trim_end(rest) =~= "-"@);
            }
        } else if rest[0] == '-' && rest[1] == ' ' {
            assert(rest.take(2) =~= "- "@);
        }
        if starts_with(rest, "- "@) {
            assert(rest.take(2)[0] == '-' && rest.take(2)[1] == ' ');
        }
        lemma_trim_end(rest);
        if trim_end(rest) == "-"@ {
            assert(trim_end(rest)[0] == rest[0]);
            if rest.len() > 1 {
                assert(whitespace(rest[1]));
            }
        }
    }
}

proof fn lemma_blank_lines(below: Seq<Seq<char>>, from: int, i: int)
    requires
        0 <= from <= i <= below.len(),
        forall|j: int| 0 <= j < i ==> blank_or_comment(#[trigger] below[j]),
    ensures
        list_indent(below, from) == list_indent(below, i),
    decreases i - from,
{
    if from < i {
        lemma_blank_lines(below, from + 1, i);
    }
}

/// The line feeds at the end of a text are dropped, and no others.
pub proof fn trailing_line_feeds_are_dropped(s: Seq<char>, n: nat)
    requires
        s.len() > 0 ==> s.last() != '\n',
    ensures
        drop_line_feeds(s + Seq::new(n, |i: int| '\n')) == s,
    decreases n,
{
    let u = s + Seq::new(n, |i: int| '\n');
    if n == 0 {
        assert(u =~= s);
    } else {
        trailing_line_feeds_are_dropped(s, (n - 1) as nat);
        assert(u.drop_last() =~= s + Seq::new((n - 1) as nat, |i: int| '\n'));
    }
}

/// A list on one line has one part for each item: what YAML writes for it, where
/// that can stand in a list as it is, and its JSON text otherwise. An item that
/// YAML cannot write refuses the list.
pub proof fn every_item_is_written(items: Seq<(Seq<char>, Result<Seq<char>, Seq<char>>)>)
    ensures
        flow_list(items) is Ok <==> forall|k: int|
            0 <= k < items.len() ==> (#[trigger] items[k]).1 is Ok,
        flow_list(items) matches Ok(parts) ==> parts.len() == items.len() && forall|k: int|
            0 <= k < items.len() ==> {
                let plain = drop_line_feeds((#[trigger] items[k]).1->Ok_0);
                parts[k] == (if flow_safe(plain) {
                    plain
                } else {
                    items[k].0
                })
            },
    decreases items.len(),
{
    if items.len() > 0 {
        let front = items.drop_last();
        let n = front.len() as int;
        every_item_is_written(front);
        if flow_list(items) is Ok {
            let parts = flow_list(items)->Ok_0;
            let prev = flow_list(front)->Ok_0;
            assert forall|k: int| 0 <= k < items.len() implies (#[trigger] items[k]).1 is Ok by {
                if k < n {
                    assert(front[k] == items[k]);
                }
            }
            assert forall|k: int| 0 <= k < items.len() implies {
                let plain = drop_line_feeds((#[trigger] items[k]).1->Ok_0);
                parts[k] == (if flow_safe(plain) {
                    plain
                } else {
                    items[k].0
                })
            } by {
                if k < n {
                    assert(front[k] == items[k]);
                    assert(parts[k] == prev[k]);
                }
            }
        } else if forall|k: int| 0 <= k < items.len() ==> (#[trigger] items[k]).1 is Ok {
            assert(items[n].1 is Ok);
            assert forall|k: int| 0 <= k < n implies (#[trigger] front[k]).1 is Ok by {
                assert(front[k] == items[k]);
            }
        }
    }
}

/// An edited key keeps its author's spelling: where YAML writes the key with
/// nothing as `head null`, and the new first line starts with `head`, the
/// author's words stand in the place of `head`.
pub proof fn key_keeps_its_spelling(
    head: Seq<char>,
    tail: Seq<char>,
    more: Seq<Seq<char>>,
    prefix: Seq<char>,
)
    ensures
        respelled(seq![head + tail] + more, prefix, head + " null"@ + seq!['\n']) == seq![
            prefix + tail,
        ] + more,
{
    let all = seq![head + tail] + more;
    let s = head + " null"@ + seq!['\n'];
    let n = head.len() as int;
    reveal_strlit(" null");
    lemma_trim_end_is(s, n + 5);
    let t = s.take(n + 5);
    assert(t.take(t.len() - 5) =~= head);
    assert(t.skip(t.len() - 5) =~= " null"@);
    assert(all[0].take(n) =~= head);
    assert(all[0].skip(n) =~= tail);
    assert(all.update(0, prefix + tail) =~= seq![prefix + tail] + more);
}

} // verus!
