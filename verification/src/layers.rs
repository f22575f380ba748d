//! Layer markers: what a `.hatchdoor-layer` file declares, and which layer a
//! vault path belongs to.

use vstd::prelude::*;
use vstd::slice::slice_to_vec;

use unicode_normalization::UnicodeNormalization;

use crate::text::{
    alphanumeric, before, chars_eq, clone_opt, from_chars, is_alphanumeric, is_stable_order,
    is_whitespace, join, joined, key_views, lemma_lex_irreflexive, lemma_lex_transitive,
    lemma_next_char, lemma_strs_push, lemma_text_key_injective, lowercase, make_text_key, next_char,
    nonempty, nonempty_of_two_lists, opt_text, pieces_end_at_separators, pieces_of_two_texts,
    prefix_of, push_str, replace_char, sort_dedup, sort_order, split, split_from, split_nonempty,
    stable_order, starts_with, str_eq, str_owned, strictly_sorted, strs, text_key, text_lt,
    to_chars, to_lowercase, trim, trimmed, two_lists_are_joined, whitespace, with_char_replaced,
};

verus! {

/// The name of the file that marks a directory's layer.
pub const MARKER_FILE_NAME: &'static str = ".hatchdoor-layer";

/// The longest layer name, in characters.
pub const MAX_NAME_CHARS: usize = 32;

/// The longest layer description, in characters.
pub const MAX_DESCRIPTION_CHARS: usize = 500;

// ---------------------------------------------------------------------------
// Layer names
// ---------------------------------------------------------------------------

/// The names that select surfaces and that no layer may claim.
pub open spec fn reserved_names() -> Seq<Seq<char>> {
    seq!["default"@, "all"@, "noise"@, "none"@]
}

/// What `nfkc` of the crate `unicode-normalization` makes of a string.
pub uninterp spec fn nfkc(s: Seq<char>) -> Seq<char>;

/// `UnicodeNormalization::nfkc`, collected: the compatibility composition of
/// the string, which depends on the string alone.
#[verifier::external_body]
fn to_nfkc(s: &str) -> (r: String)
    ensures
        r@ == nfkc(s@),
{
    s.nfkc().collect::<String>()
}

/// A raw name composed, trimmed and in lower case.
pub open spec fn folded(raw: Seq<char>) -> Seq<char> {
    lowercase(trim(nfkc(raw)))
}

fn fold_name(raw: &str) -> (r: String)
    ensures
        r@ == folded(raw@),
{
    let composed = to_nfkc(raw);
    let chars = to_chars(composed.as_str());
    let inner = from_chars(trimmed(chars.as_slice()));
    to_lowercase(inner.as_str())
}

/// The layer name a raw name stands for, if it is a valid one.
pub open spec fn name_candidate(raw: Seq<char>) -> Seq<char> {
    replace_char(folded(raw), ' ', '-')
}

/// Why a candidate is no layer name.
pub open spec fn name_error(name: Seq<char>) -> Option<Seq<char>> {
    if name.len() == 0 {
        Some("layer name is empty"@)
    } else if name.len() > MAX_NAME_CHARS {
        Some("layer name '"@ + name + "' exceeds 32 characters"@)
    } else if reserved_names().contains(name) {
        Some("layer name '"@ + name + "' is reserved"@)
    } else if !alphanumeric(name[0]) {
        Some("layer name '"@ + name + "' must start with a letter or digit"@)
    } else if exists|i: int|
        1 <= i < name.len() && !alphanumeric(#[trigger] name[i]) && name[i] != '-' {
        Some("layer name '"@ + name + "' may contain only letters, digits and '-'"@)
    } else {
        None
    }
}

/// No character is a control code.
pub open spec fn free_of_controls(s: Seq<char>) -> bool {
    forall|i: int| 0 <= i < s.len() ==> (#[trigger] s[i]) as u32 > 0x1f
}

fn is_reserved(name: &[char]) -> (r: bool)
    ensures
        r == reserved_names().contains(name@),
{
    let a = to_chars("default");
    let b = to_chars("all");
    let c = to_chars("noise");
    let d = to_chars("none");
    proof {
        assert(reserved_names()[0] == "default"@);
        assert(reserved_names()[1] == "all"@);
        assert(reserved_names()[2] == "noise"@);
        assert(reserved_names()[3] == "none"@);
    }
    chars_eq(name, a.as_slice()) || chars_eq(name, b.as_slice()) || chars_eq(name, c.as_slice())
        || chars_eq(name, d.as_slice())
}

fn name_message(name: &[char], tail: &str) -> (r: String)
    ensures
        r@ == "layer name '"@ + name@ + tail@,
{
    let mut out = to_chars("layer name '");
    crate::text::push_all(&mut out, name);
    push_str(&mut out, tail);
    from_chars(out.as_slice())
}

/// Composes, trims, lowers and dashes a raw name, then accepts only letters,
/// digits and dashes, of any script.
pub fn normalize_layer_name(raw: &str) -> (r: Result<String, String>)
    ensures
        match r {
            Ok(name) => name@ == name_candidate(raw@) && name_error(name_candidate(raw@)) is None
                && free_of_controls(name@),
            Err(message) => name_error(name_candidate(raw@)) == Some(message@),
        },
{
    let lower = fold_name(raw);
    let lower_chars = to_chars(lower.as_str());
    let name = with_char_replaced(lower_chars.as_slice(), ' ', '-');
    if name.len() == 0 {
        return Err(str_owned("layer name is empty"));
    }
    if name.len() > MAX_NAME_CHARS {
        return Err(name_message(name.as_slice(), "' exceeds 32 characters"));
    }
    if is_reserved(name.as_slice()) {
        return Err(name_message(name.as_slice(), "' is reserved"));
    }
    if !is_alphanumeric(name[0]) {
        return Err(name_message(name.as_slice(), "' must start with a letter or digit"));
    }
    let mut i: usize = 1;
    while i < name.len()
        invariant
            1 <= i <= name@.len(),
            name@ == name_candidate(raw@),
            0 < name@.len() <= MAX_NAME_CHARS,
            !reserved_names().contains(name@),
            alphanumeric(name@[0]),
            forall|k: int| 1 <= k < i ==> alphanumeric(#[trigger] name@[k]) || name@[k] == '-',
            forall|k: int| 0 <= k < i ==> (#[trigger] name@[k]) as u32 > 0x1f,
        decreases name@.len() - i,
    {
        if !is_alphanumeric(name[i]) && name[i] != '-' {
            return Err(
                name_message(name.as_slice(), "' may contain only letters, digits and '-'"),
            );
        }
        i = i + 1;
    }
    Ok(from_chars(name.as_slice()))
}

// ---------------------------------------------------------------------------
// Markers
// ---------------------------------------------------------------------------

/// What a `.hatchdoor-layer` file declares about its folder.
#[derive(Debug, Clone, PartialEq, Eq)]
pub enum LayerDecl {
    /// Re-include this subtree onto the default surface, overriding an
    /// inherited layer.
    Default,
    Named { name: String, description: Option<String> },
}

/// What a [`LayerDecl`] says.
pub enum DeclView {
    Default,
    Named { name: Seq<char>, description: Option<Seq<char>> },
}

impl View for LayerDecl {
    type V = DeclView;

    open spec fn view(&self) -> DeclView {
        match self {
            LayerDecl::Default => DeclView::Default,
            LayerDecl::Named { name, description } => DeclView::Named {
                name: name@,
                description: opt_text(*description),
            },
        }
    }
}

/// A marker document: a bare name, or a mapping with a name and perhaps a
/// description.
#[derive(Debug, Clone, PartialEq, Eq)]
pub enum RawMarker {
    Bare(String),
    Full { name: String, description: Option<String> },
}

impl RawMarker {
    pub open spec fn name(&self) -> Seq<char> {
        match self {
            RawMarker::Bare(name) => name@,
            RawMarker::Full { name, .. } => name@,
        }
    }

    pub open spec fn description(&self) -> Option<Seq<char>> {
        match self {
            RawMarker::Bare(_) => None,
            RawMarker::Full { description, .. } => opt_text(*description),
        }
    }
}

/// A control character, or a format character that can hide or reorder text.
pub open spec fn invisible(c: char) -> bool {
    let u = c as u32;
    u <= 0x1f || (0x7f <= u <= 0x9f) || format_character(c)
}

/// The zero-width, directional and joining characters.
pub open spec fn format_character(c: char) -> bool {
    let u = c as u32;
    (0x200b <= u <= 0x200f) || (0x202a <= u <= 0x202e) || (0x2060 <= u <= 0x2064) || (0x2066 <= u
        <= 0x2069) || u == 0xfeff
}

fn is_format_character(c: char) -> (r: bool)
    ensures
        r == format_character(c),
{
    let u: u32 = c as u32;
    (0x200b <= u && u <= 0x200f) || (0x202a <= u && u <= 0x202e) || (0x2060 <= u && u <= 0x2064) || (
    0x2066 <= u && u <= 0x2069) || u == 0xfeff
}

fn is_invisible(c: char) -> (r: bool)
    ensures
        r == invisible(c),
{
    let u: u32 = c as u32;
    u <= 0x1f || (0x7f <= u && u <= 0x9f) || is_format_character(c)
}

/// Every invisible character and every white space as a plain space.
pub open spec fn spaced(s: Seq<char>) -> Seq<char> {
    Seq::new(s.len(), |i: int| if invisible(s[i]) || whitespace(s[i]) { ' ' } else { s[i] })
}

/// A description on one line, words one space apart, without invisible
/// characters and of bounded length.
pub open spec fn clean_description(raw: Seq<char>) -> Seq<char> {
    let words = join(nonempty(split(spaced(raw), ' ')), seq![' ']);
    if words.len() > MAX_DESCRIPTION_CHARS {
        words.take(MAX_DESCRIPTION_CHARS as int)
    } else {
        words
    }
}

pub fn sanitize_description(raw: &str) -> (r: String)
    ensures
        r@ == clean_description(raw@),
{
    let chars = to_chars(raw);
    let mut plain: Vec<char> = Vec::new();
    let mut i: usize = 0;
    while i < chars.len()
        invariant
            0 <= i <= chars@.len(),
            plain@ == spaced(chars@).take(i as int),
        decreases chars@.len() - i,
    {
        if is_invisible(chars[i]) || is_whitespace(chars[i]) {
            plain.push(' ');
        } else {
            plain.push(chars[i]);
        }
        i = i + 1;
        assert(plain@ =~= spaced(chars@).take(i as int));
    }
    assert(plain@ =~= spaced(chars@));
    let words = split_nonempty(plain.as_slice(), ' ');
    let mut space: Vec<char> = Vec::new();
    space.push(' ');
    assert(space@ =~= seq![' ']);
    let line = joined(&words, space.as_slice());
    if line.len() > MAX_DESCRIPTION_CHARS {
        from_chars(prefix_of(line.as_slice(), MAX_DESCRIPTION_CHARS))
    } else {
        from_chars(line.as_slice())
    }
}

proof fn lemma_split_free_of_controls(s: Seq<char>, i: int, c: char)
    requires
        free_of_controls(s),
        0 <= i <= s.len(),
    ensures
        forall|k: int|
            0 <= k < split_from(s, i, c).len() ==> free_of_controls(
                #[trigger] split_from(s, i, c)[k],
            ),
    decreases s.len() - i,
{
    lemma_next_char(s, i, c);
    let j = next_char(s, i, c);
    if j < s.len() {
        lemma_split_free_of_controls(s, j + 1, c);
        assert forall|k: int| 0 <= k < split_from(s, i, c).len() implies free_of_controls(
            #[trigger] split_from(s, i, c)[k],
        ) by {
            if k > 0 {
                assert(split_from(s, i, c)[k] == split_from(s, j + 1, c)[k - 1]);
            }
        }
    }
}

proof fn lemma_joined_free_of_controls(parts: Seq<Seq<char>>)
    requires
        forall|k: int| 0 <= k < parts.len() ==> free_of_controls(#[trigger] parts[k]),
    ensures
        free_of_controls(join(nonempty(parts), seq![' '])),
        forall|k: int|
            0 <= k < nonempty(parts).len() ==> free_of_controls(#[trigger] nonempty(parts)[k]),
    decreases parts.len(),
{
    if parts.len() > 0 {
        let front = parts.drop_last();
        lemma_joined_free_of_controls(front);
        assert(parts.last() == parts[parts.len() - 1]);
        let kept = nonempty(parts);
        assert forall|k: int| 0 <= k < kept.len() implies free_of_controls(#[trigger] kept[k]) by {
            if k < nonempty(front).len() {
                assert(kept[k] == nonempty(front)[k]);
            }
        }
        if parts.last().len() > 0 {
            assert(kept.drop_last() =~= nonempty(front));
        }
    }
}

/// A cleaned description holds no control code.
proof fn lemma_description_free_of_controls(raw: Seq<char>)
    ensures
        free_of_controls(clean_description(raw)),
{
    lemma_split_free_of_controls(spaced(raw), 0, ' ');
    lemma_joined_free_of_controls(split(spaced(raw), ' '));
}

/// No text of the declaration holds a control code.
pub open spec fn decl_free_of_controls(d: DeclView) -> bool {
    match d {
        DeclView::Default => true,
        DeclView::Named { name, description } => free_of_controls(name) && free_of_controls(
            description_or_empty(description),
        ),
    }
}

/// What a marker document declares, or why it declares nothing.
pub open spec fn marker_decl(name: Seq<char>, description: Option<Seq<char>>) -> Result<
    DeclView,
    Seq<char>,
> {
    if folded(name) == "default"@ {
        Ok(DeclView::Default)
    } else {
        match name_error(name_candidate(name)) {
            Some(message) => Err(message),
            None => Ok(
                DeclView::Named {
                    name: name_candidate(name),
                    description: match description {
                        Some(d) => Some(clean_description(d)),
                        None => None,
                    },
                },
            ),
        }
    }
}

pub open spec fn decl_result(r: Result<LayerDecl, String>) -> Result<DeclView, Seq<char>> {
    match r {
        Ok(d) => Ok(d@),
        Err(e) => Err(e@),
    }
}

pub fn parse_marker(raw: &RawMarker) -> (r: Result<LayerDecl, String>)
    ensures
        decl_result(r) == marker_decl(raw.name(), raw.description()),
        r is Ok ==> decl_free_of_controls(r->Ok_0@),
{
    let name = match raw {
        RawMarker::Bare(name) => name,
        RawMarker::Full { name, .. } => name,
    };
    let lower = fold_name(name.as_str());
    if str_eq(lower.as_str(), "default") {
        return Ok(LayerDecl::Default);
    }
    match normalize_layer_name(name.as_str()) {
        Err(message) => Err(message),
        Ok(clean) => {
            let description = match raw {
                RawMarker::Bare(_) => None,
                RawMarker::Full { description, .. } => match description {
                    Some(d) => {
                        proof {
                            lemma_description_free_of_controls(d@);
                        }
                        Some(sanitize_description(d.as_str()))
                    },
                    None => None,
                },
            };
            Ok(LayerDecl::Named { name: clean, description })
        },
    }
}

/// What reading one marker file gave.
#[derive(Debug, Clone, PartialEq, Eq)]
pub enum MarkerContent {
    /// The file could not be read, with the reason.
    Unreadable(String),
    /// The file is no marker document, with the reason.
    Malformed(String),
    Parsed(RawMarker),
}

/// One marker file of the vault.
#[derive(Debug, Clone, PartialEq, Eq)]
pub struct MarkerFile {
    /// The vault-relative directory, empty for the vault root.
    pub dir: String,
    pub content: MarkerContent,
}

/// The directory of a marker file as a [`MarkerFile`] names it: the parts of its
/// vault-relative path between `/`, whatever separated them.
pub fn marker_dir(relative: &str) -> (r: String)
    ensures
        r@ == replace_char(relative@, '\\', '/'),
{
    let chars = to_chars(relative);
    let slashed = with_char_replaced(chars.as_slice(), '\\', '/');
    from_chars(slashed.as_slice())
}

/// The vault-relative path of a directory's marker file.
pub open spec fn marker_display(dir: Seq<char>) -> Seq<char> {
    if dir.len() == 0 {
        MARKER_FILE_NAME@
    } else {
        dir + "/"@ + MARKER_FILE_NAME@
    }
}

/// A declaration as a vault goes by it: an empty description is none.
pub open spec fn settled(d: DeclView) -> DeclView {
    match d {
        DeclView::Named { name, description: Some(text) } => if text.len() == 0 {
            DeclView::Named { name, description: None }
        } else {
            d
        },
        _ => d,
    }
}

/// What one marker file declares, or what the scan reports of it.
pub open spec fn file_decl(m: MarkerFile) -> Result<DeclView, Seq<char>> {
    match m.content {
        MarkerContent::Unreadable(e) => Err(
            "could not read "@ + marker_display(m.dir@) + ": "@ + e@,
        ),
        MarkerContent::Malformed(e) => Err(
            marker_display(m.dir@) + ": "@ + ("malformed "@ + MARKER_FILE_NAME@ + ": "@ + e@),
        ),
        MarkerContent::Parsed(raw) => match marker_decl(raw.name(), raw.description()) {
            Err(e) => Err(marker_display(m.dir@) + ": "@ + e),
            Ok(d) => if m.dir@.len() == 0 && d is Named {
                Err(
                    marker_display(m.dir@) + ": "@
                        + "a named layer marker at the vault root would demote the entire vault, leaving the default surface empty"@,
                )
            } else {
                Ok(settled(d))
            },
        },
    }
}

fn show_marker(dir: &str) -> (r: Vec<char>)
    ensures
        r@ == marker_display(dir@),
{
    let chars = to_chars(dir);
    if chars.len() == 0 {
        to_chars(MARKER_FILE_NAME)
    } else {
        let mut out = chars;
        push_str(&mut out, "/");
        push_str(&mut out, MARKER_FILE_NAME);
        out
    }
}

fn settle(d: LayerDecl) -> (r: LayerDecl)
    ensures
        r@ == settled(d@),
{
    match d {
        LayerDecl::Default => LayerDecl::Default,
        LayerDecl::Named { name, description } => {
            let description = match description {
                Some(text) => if text.as_str().is_empty() {
                    None
                } else {
                    Some(text)
                },
                None => None,
            };
            LayerDecl::Named { name, description }
        },
    }
}

fn read_marker(m: &MarkerFile) -> (r: Result<LayerDecl, String>)
    ensures
        decl_result(r) == file_decl(*m),
        r is Ok ==> proper_decl(r->Ok_0@),
{
    let display = show_marker(m.dir.as_str());
    match &m.content {
        MarkerContent::Unreadable(e) => {
            let mut out = to_chars("could not read ");
            crate::text::push_all(&mut out, display.as_slice());
            push_str(&mut out, ": ");
            push_str(&mut out, e.as_str());
            Err(from_chars(out.as_slice()))
        },
        MarkerContent::Malformed(e) => {
            let mut why = to_chars("malformed ");
            push_str(&mut why, MARKER_FILE_NAME);
            push_str(&mut why, ": ");
            push_str(&mut why, e.as_str());
            let mut out = display;
            push_str(&mut out, ": ");
            crate::text::push_all(&mut out, why.as_slice());
            Err(from_chars(out.as_slice()))
        },
        MarkerContent::Parsed(raw) => match parse_marker(raw) {
            Err(e) => {
                let mut out = display;
                push_str(&mut out, ": ");
                push_str(&mut out, e.as_str());
                Err(from_chars(out.as_slice()))
            },
            Ok(d) => {
                let named = match &d {
                    LayerDecl::Default => false,
                    LayerDecl::Named { .. } => true,
                };
                if m.dir.as_str().is_empty() && named {
                    let mut out = display;
                    push_str(&mut out, ": ");
                    push_str(
                        &mut out,
                        "a named layer marker at the vault root would demote the entire vault, leaving the default surface empty",
                    );
                    Err(from_chars(out.as_slice()))
                } else {
                    Ok(settle(d))
                }
            },
        },
    }
}

/// The marker files by directory.
pub open spec fn sorted_markers(markers: Seq<MarkerFile>) -> Seq<MarkerFile> {
    let order = sort_order(dir_keys(markers));
    Seq::new(order.len(), |i: int| markers[order[i] as int])
}

pub open spec fn dir_keys(markers: Seq<MarkerFile>) -> Seq<Seq<u32>> {
    Seq::new(markers.len(), |i: int| text_key(markers[i].dir@))
}

/// The first marker from `i` on that declares nothing.
pub open spec fn first_failed(markers: Seq<MarkerFile>, i: int) -> int
    decreases markers.len() - i,
{
    if i >= markers.len() {
        markers.len() as int
    } else if file_decl(markers[i]) is Err {
        i
    } else {
        first_failed(markers, i + 1)
    }
}

/// The declarations of a scan without failures. A directory that is marked
/// again goes by the later marker.
pub open spec fn declared(markers: Seq<MarkerFile>) -> Seq<(Seq<char>, DeclView)>
    decreases markers.len(),
{
    if markers.len() == 0 {
        seq![]
    } else {
        let prev = declared(markers.drop_last());
        let here = (markers.last().dir@, file_decl(markers.last())->Ok_0);
        if prev.len() > 0 && prev.last().0 == here.0 {
            prev.drop_last().push(here)
        } else {
            prev.push(here)
        }
    }
}

/// The marked directories.
pub open spec fn dirs_of(decls: Seq<(Seq<char>, DeclView)>) -> Seq<Seq<char>> {
    Seq::new(decls.len(), |i: int| decls[i].0)
}

/// What a vault's declarations are like: no control codes, and no empty
/// description.
pub open spec fn proper_decl(d: DeclView) -> bool {
    decl_free_of_controls(d) && match d {
        DeclView::Named { description: Some(text), .. } => text.len() > 0,
        _ => true,
    }
}

/// The declarations are in the order of their directories, each directory
/// once, and each is proper.
pub open spec fn proper_decls(decls: Seq<(Seq<char>, DeclView)>) -> bool {
    &&& strictly_sorted(dirs_of(decls))
    &&& forall|i: int| 0 <= i < decls.len() ==> proper_decl((#[trigger] decls[i]).1)
}

// ---------------------------------------------------------------------------
// The layer map
// ---------------------------------------------------------------------------

/// Which layer each marked directory declares.
#[derive(Debug, Clone)]
pub struct LayerMap {
    by_dir: Vec<(String, LayerDecl)>,
}

pub open spec fn decl_views(v: Seq<(String, LayerDecl)>) -> Seq<(Seq<char>, DeclView)> {
    Seq::new(v.len(), |i: int| (v[i].0@, v[i].1@))
}

/// The directory `dir` holds `path`, or is it.
pub open spec fn covers(dir: Seq<char>, path: Seq<char>) -> bool {
    dir.len() == 0 || path == dir || starts_with(path, dir + "/"@)
}

/// The `i`th declaration decides about `path`: it is the one for the longest
/// directory that holds the path.
pub open spec fn governs(decls: Seq<(Seq<char>, DeclView)>, path: Seq<char>, i: int) -> bool {
    &&& 0 <= i < decls.len()
    &&& covers(decls[i].0, path)
    &&& forall|j: int|
        0 <= j < decls.len() && covers((#[trigger] decls[j]).0, path) ==> decls[j].0.len()
            < decls[i].0.len() || (decls[j].0.len() == decls[i].0.len() && j <= i)
}

/// The layer of a vault-relative path; `None` is the default surface.
pub open spec fn layer_of(decls: Seq<(Seq<char>, DeclView)>, path: Seq<char>) -> Option<Seq<char>> {
    if exists|i: int| governs(decls, path, i) {
        let i = choose|i: int| governs(decls, path, i);
        match decls[i].1 {
            DeclView::Named { name, .. } => Some(name),
            DeclView::Default => None,
        }
    } else {
        None
    }
}

/// One declaration decides at most.
pub proof fn governing_marker_is_unique(
    decls: Seq<(Seq<char>, DeclView)>,
    path: Seq<char>,
    i: int,
    j: int,
)
    requires
        governs(decls, path, i),
        governs(decls, path, j),
    ensures
        i == j,
{
}

/// A path that no marked directory holds is on the default surface.
pub proof fn unmarked_path_is_default(decls: Seq<(Seq<char>, DeclView)>, path: Seq<char>)
    requires
        forall|i: int| 0 <= i < decls.len() ==> !covers((#[trigger] decls[i]).0, path),
    ensures
        layer_of(decls, path) is None,
{
}

/// The first description that a marker gives the layer `name`, from the `i`th
/// declaration on.
pub open spec fn description_from(
    decls: Seq<(Seq<char>, DeclView)>,
    name: Seq<char>,
    i: int,
) -> Option<Seq<char>>
    decreases decls.len() - i,
{
    if i < 0 || i >= decls.len() {
        None
    } else {
        match decls[i].1 {
            DeclView::Named { name: n, description: Some(d) } => if n == name {
                Some(d)
            } else {
                description_from(decls, name, i + 1)
            },
            _ => description_from(decls, name, i + 1),
        }
    }
}

/// One marker as the marker-set text spells it.
pub open spec fn marker_record(dir: Seq<char>, decl: DeclView) -> Seq<char> {
    dir + seq!['\u{1}'] + (match decl {
        DeclView::Default => "default"@,
        DeclView::Named { name, description } => "named"@ + seq!['\u{1}'] + name + seq!['\u{1}']
            + description_or_empty(description),
    }) + seq!['\u{2}']
}

pub open spec fn description_or_empty(d: Option<Seq<char>>) -> Seq<char> {
    match d {
        Some(t) => t,
        None => Seq::<char>::empty(),
    }
}

/// The marker-set text: every marker's record, one after the other.
pub open spec fn marker_set_text(decls: Seq<(Seq<char>, DeclView)>) -> Seq<char>
    decreases decls.len(),
{
    if decls.len() == 0 {
        seq![]
    } else {
        marker_record(decls[0].0, decls[0].1) + marker_set_text(decls.skip(1))
    }
}

/// The named markers from `i` on, as directory and layer name.
pub open spec fn named_from(decls: Seq<(Seq<char>, DeclView)>, i: int) -> Seq<(Seq<char>, Seq<char>)>
    decreases decls.len() - i,
{
    if i < 0 || i >= decls.len() {
        seq![]
    } else {
        match decls[i].1 {
            DeclView::Named { name, .. } => seq![(decls[i].0, name)] + named_from(decls, i + 1),
            DeclView::Default => named_from(decls, i + 1),
        }
    }
}

/// Some marker declares the layer `name`.
pub open spec fn declares(decls: Seq<(Seq<char>, DeclView)>, name: Seq<char>) -> bool {
    exists|i: int|
        0 <= i < decls.len() && (#[trigger] decls[i]).1 is Named && decls[i].1->Named_name == name
}

/// Some readable marker gives the layer `name` the description `text`.
pub open spec fn describes(markers: Seq<MarkerFile>, name: Seq<char>, text: Seq<char>) -> bool {
    exists|i: int|
        0 <= i < markers.len() && plain_decl(#[trigger] markers[i]) == Some(
            DeclView::Named { name, description: Some(text) },
        )
}

/// What a marker declares wherever it stands, if it can be read.
pub open spec fn plain_decl(m: MarkerFile) -> Option<DeclView> {
    match m.content {
        MarkerContent::Parsed(raw) => match marker_decl(raw.name(), raw.description()) {
            Ok(d) => Some(d),
            Err(_) => None,
        },
        _ => None,
    }
}

pub open spec fn pair_views(v: Seq<(String, String)>) -> Seq<(Seq<char>, Seq<char>)> {
    Seq::new(v.len(), |i: int| (v[i].0@, v[i].1@))
}

pub open spec fn first_names(v: Seq<(String, Vec<String>)>) -> Seq<Seq<char>> {
    Seq::new(v.len(), |i: int| v[i].0@)
}

proof fn lemma_later_dir(markers: Seq<MarkerFile>, order: Seq<usize>, n: int)
    requires
        is_stable_order(dir_keys(markers), order),
        0 < n < order.len(),
    ensures
        markers[order[n - 1] as int].dir@ == markers[order[n] as int].dir@ || text_lt(
            markers[order[n - 1] as int].dir@,
            markers[order[n] as int].dir@,
        ),
{
    let a = order[n - 1] as int;
    let b = order[n] as int;
    assert(before(dir_keys(markers), a, b));
    if dir_keys(markers)[a] == dir_keys(markers)[b] {
        lemma_text_key_injective(markers[a].dir@, markers[b].dir@);
    }
}

proof fn lemma_proper_push(
    decls: Seq<(Seq<char>, DeclView)>,
    d: (Seq<char>, DeclView),
    again: bool,
)
    requires
        proper_decls(decls),
        proper_decl(d.1),
        again ==> decls.len() > 0 && decls.last().0 == d.0,
        !again && decls.len() > 0 ==> text_lt(decls.last().0, d.0),
    ensures
        proper_decls(
            if again {
                decls.drop_last().push(d)
            } else {
                decls.push(d)
            },
        ),
{
    let now = if again {
        decls.drop_last().push(d)
    } else {
        decls.push(d)
    };
    let had = dirs_of(decls);
    let dirs = dirs_of(now);
    assert forall|i: int, j: int| 0 <= i < j < dirs.len() implies text_lt(
        #[trigger] dirs[i],
        #[trigger] dirs[j],
    ) by {
        assert(dirs[i] == had[i]);
        if j < decls.len() {
            assert(dirs[j] == had[j]);
        } else if i < decls.len() - 1 {
            assert(text_lt(had[i], had[decls.len() - 1]));
            lemma_lex_transitive(
                text_key(had[i]),
                text_key(had[decls.len() - 1]),
                text_key(d.0),
            );
        }
    }
}

fn clone_decl(d: &LayerDecl) -> (r: LayerDecl)
    ensures
        r@ == d@,
{
    match d {
        LayerDecl::Default => LayerDecl::Default,
        LayerDecl::Named { name, description } => LayerDecl::Named {
            name: name.clone(),
            description: clone_opt(description),
        },
    }
}

impl LayerMap {
    /// The declarations, by directory.
    pub closed spec fn decls(&self) -> Seq<(Seq<char>, DeclView)> {
        decl_views(self.by_dir@)
    }

    /// Each directory stands once, in order.
    pub open spec fn wf(&self) -> bool {
        proper_decls(self.decls())
    }

    /// A map without markers: everything is on the default surface.
    pub fn empty() -> (r: LayerMap)
        ensures
            r.wf(),
            r.decls() == Seq::<(Seq<char>, DeclView)>::empty(),
    {
        let r = LayerMap { by_dir: Vec::new() };
        assert(r.decls() =~= Seq::<(Seq<char>, DeclView)>::empty());
        r
    }

    pub fn copy(&self) -> (r: LayerMap)
        ensures
            r.decls() == self.decls(),
    {
        let mut by_dir: Vec<(String, LayerDecl)> = Vec::new();
        let mut i: usize = 0;
        while i < self.by_dir.len()
            invariant
                0 <= i <= self.by_dir@.len(),
                by_dir@.len() == i,
                forall|k: int|
                    0 <= k < i ==> (#[trigger] by_dir@[k]).0@ == self.by_dir@[k].0@ && by_dir@[k].1@
                        == self.by_dir@[k].1@,
            decreases self.by_dir@.len() - i,
        {
            by_dir.push((self.by_dir[i].0.clone(), clone_decl(&self.by_dir[i].1)));
            i = i + 1;
        }
        let r = LayerMap { by_dir };
        assert(r.decls() =~= self.decls());
        r
    }

    /// The layer map of the vault's marker files, taken in the order of their
    /// directories. The first one that declares nothing is reported.
    pub fn collect(markers: &Vec<MarkerFile>) -> (r: Result<LayerMap, String>)
        ensures
            match r {
                Ok(map) => first_failed(sorted_markers(markers@), 0) == markers@.len() && map.wf()
                    && map.decls() == declared(sorted_markers(markers@)),
                Err(message) => {
                    let sorted = sorted_markers(markers@);
                    let i = first_failed(sorted, 0);
                    0 <= i < markers@.len() && file_decl(sorted[i]) == Err::<DeclView, Seq<char>>(
                        message@,
                    )
                },
            },
    {
        let mut keys: Vec<Vec<u32>> = Vec::new();
        let mut i: usize = 0;
        while i < markers.len()
            invariant
                0 <= i <= markers@.len(),
                keys@.len() == i,
                forall|k: int| 0 <= k < i ==> (#[trigger] keys@[k])@ == text_key(markers@[k].dir@),
            decreases markers@.len() - i,
        {
            let chars = to_chars(markers[i].dir.as_str());
            keys.push(make_text_key(chars.as_slice()));
            i = i + 1;
        }
        assert(key_views(keys@) =~= dir_keys(markers@));
        let order = stable_order(&keys);
        let ghost sorted = sorted_markers(markers@);
        let mut by_dir: Vec<(String, LayerDecl)> = Vec::new();
        let mut n: usize = 0;
        while n < order.len()
            invariant
                0 <= n <= order@.len(),
                order@.len() == markers@.len(),
                is_stable_order(dir_keys(markers@), order@),
                order@ == sort_order(dir_keys(markers@)),
                sorted == sorted_markers(markers@),
                first_failed(sorted, 0) == first_failed(sorted, n as int),
                decl_views(by_dir@) == declared(sorted.take(n as int)),
                proper_decls(decl_views(by_dir@)),
                n > 0 ==> by_dir@.len() > 0 && by_dir@.last().0@ == sorted[n - 1].dir@,
                n == 0 ==> by_dir@.len() == 0,
            decreases order@.len() - n,
        {
            assert(order@[n as int] < markers@.len());
            let m = &markers[order[n]];
            assert(sorted[n as int] == *m);
            let ghost was = by_dir@;
            let ghost had = decl_views(was);
            proof {
                assert(sorted.take(n + 1).drop_last() =~= sorted.take(n as int));
                assert(sorted.take(n + 1).last() == *m);
            }
            match read_marker(m) {
                Err(message) => {
                    return Err(message);
                },
                Ok(decl) => {
                    let again = by_dir.len() > 0 && str_eq(
                        by_dir[by_dir.len() - 1].0.as_str(),
                        m.dir.as_str(),
                    );
                    if again {
                        let _ = by_dir.pop();
                    }
                    let item = (m.dir.clone(), decl);
                    by_dir.push(item);
                    proof {
                        let here = (m.dir@, decl@);
                        if again {
                            assert(decl_views(by_dir@) =~= had.drop_last().push(here));
                        } else {
                            assert(decl_views(by_dir@) =~= had.push(here));
                            if n > 0 {
                                lemma_later_dir(markers@, order@, n as int);
                            }
                        }
                        lemma_proper_push(had, here, again);
                    }
                },
            }
            n = n + 1;
        }
        assert(sorted.take(n as int) =~= sorted);
        Ok(LayerMap { by_dir })
    }

    /// The layer of a vault-relative path; `None` is the default surface.
    pub fn layer_for(&self, relative_path: &str) -> (r: Option<&str>)
        ensures
            match r {
                Some(name) => layer_of(self.decls(), relative_path@) == Some(name@),
                None => layer_of(self.decls(), relative_path@) is None,
            },
    {
        let path = to_chars(relative_path);
        let ghost decls = self.decls();
        let mut best: Option<usize> = None;
        let mut best_len: usize = 0;
        let mut i: usize = 0;
        while i < self.by_dir.len()
            invariant
                0 <= i <= self.by_dir@.len(),
                decls == self.decls(),
                path@ == relative_path@,
                match best {
                    Some(b) => b < i && best_len == decls[b as int].0.len() && covers(
                        decls[b as int].0,
                        path@,
                    ) && forall|j: int|
                        0 <= j < i && covers((#[trigger] decls[j]).0, path@) ==> decls[j].0.len()
                            < best_len || (decls[j].0.len() == best_len && j <= b),
                    None => best_len == 0 && forall|j: int|
                        0 <= j < i ==> !covers((#[trigger] decls[j]).0, path@),
                },
            decreases self.by_dir@.len() - i,
        {
            let dir = to_chars(self.by_dir[i].0.as_str());
            assert(decls[i as int].0 == dir@);
            let mut prefix = slice_to_vec(dir.as_slice());
            push_str(&mut prefix, "/");
            let covered = dir.len() == 0 || chars_eq(path.as_slice(), dir.as_slice())
                || crate::text::has_prefix(path.as_slice(), prefix.as_slice());
            if covered && (dir.len() >= best_len || best.is_none()) {
                best_len = dir.len();
                best = Some(i);
            }
            i = i + 1;
        }
        match best {
            None => {
                proof {
                    unmarked_path_is_default(decls, relative_path@);
                }
                None
            },
            Some(b) => {
                proof {
                    assert(governs(decls, relative_path@, b as int));
                    let c = choose|c: int| governs(decls, relative_path@, c);
                    governing_marker_is_unique(decls, relative_path@, b as int, c);
                    assert(decls[b as int].1 == self.by_dir@[b as int].1@);
                }
                match &self.by_dir[b].1 {
                    LayerDecl::Named { name, .. } => Some(name.as_str()),
                    LayerDecl::Default => None,
                }
            },
        }
    }

    /// The declared layers, by name, each once.
    pub fn layer_names(&self) -> (r: Vec<String>)
        ensures
            strictly_sorted(strs(r@)),
            forall|name: Seq<char>| #[trigger] strs(r@).contains(name) <==> declares(self.decls(), name),
    {
        let mut names: Vec<String> = Vec::new();
        let ghost decls = self.decls();
        let mut i: usize = 0;
        while i < self.by_dir.len()
            invariant
                0 <= i <= self.by_dir@.len(),
                decls == self.decls(),
                forall|name: Seq<char>| #[trigger]
                    strs(names@).contains(name) <==> declares(decls.take(i as int), name),
            decreases self.by_dir@.len() - i,
        {
            let ghost before = names@;
            let ghost here = decls[i as int].1;
            assert(here == self.by_dir@[i as int].1@);
            match &self.by_dir[i].1 {
                LayerDecl::Named { name, .. } => {
                    let copy = name.clone();
                    proof {
                        lemma_strs_push(names@, copy);
                    }
                    names.push(copy);
                },
                LayerDecl::Default => {},
            }
            proof {
                assert forall|name: Seq<char>| #[trigger]
                    strs(names@).contains(name) <==> declares(decls.take(i + 1), name) by {
                    let now = decls.take(i + 1);
                    let was = decls.take(i as int);
                    if declares(now, name) {
                        let k = choose|k: int|
                            0 <= k < now.len() && (#[trigger] now[k]).1 is Named
                                && now[k].1->Named_name == name;
                        if k < i {
                            assert(was[k] == now[k]);
                            assert(declares(was, name));
                            assert(strs(before).contains(name));
                            let w = choose|w: int|
                                0 <= w < strs(before).len() && strs(before)[w] == name;
                            assert(strs(names@)[w] == name);
                        } else {
                            assert(strs(names@)[strs(before).len() as int] == name);
                        }
                    }
                    if strs(names@).contains(name) {
                        let w = choose|w: int|
                            0 <= w < strs(names@).len() && strs(names@)[w] == name;
                        if w < strs(before).len() {
                            assert(strs(before)[w] == name);
                            assert(strs(before).contains(name));
                            assert(declares(was, name));
                            let k = choose|k: int|
                                0 <= k < was.len() && (#[trigger] was[k]).1 is Named
                                    && was[k].1->Named_name == name;
                            assert(now[k] == was[k]);
                        } else {
                            assert(now[i as int] == decls[i as int]);
                        }
                    }
                }
            }
            i = i + 1;
        }
        assert(decls.take(i as int) =~= decls);
        sort_dedup(&names)
    }

    /// The description of a layer: the first that a marker gives it, in
    /// directory order.
    pub fn description(&self, name: &str) -> (r: Option<&str>)
        ensures
            match r {
                Some(text) => description_from(self.decls(), name@, 0) == Some(text@),
                None => description_from(self.decls(), name@, 0) is None,
            },
    {
        let ghost decls = self.decls();
        let mut i: usize = 0;
        while i < self.by_dir.len()
            invariant
                0 <= i <= self.by_dir@.len(),
                decls == self.decls(),
                description_from(decls, name@, 0) == description_from(decls, name@, i as int),
            decreases self.by_dir@.len() - i,
        {
            assert(decls[i as int].1 == self.by_dir@[i as int].1@);
            match &self.by_dir[i].1 {
                LayerDecl::Named { name: n, description } => match description {
                    Some(text) => {
                        if str_eq(n.as_str(), name) {
                            return Some(text.as_str());
                        }
                    },
                    None => {},
                },
                LayerDecl::Default => {},
            }
            i = i + 1;
        }
        None
    }

    /// The marked directories, in order.
    pub fn marker_paths(&self) -> (r: Vec<String>)
        ensures
            r@.len() == self.decls().len(),
            forall|i: int| 0 <= i < r@.len() ==> (#[trigger] r@[i])@ == self.decls()[i].0,
    {
        let mut out: Vec<String> = Vec::new();
        let mut i: usize = 0;
        while i < self.by_dir.len()
            invariant
                0 <= i <= self.by_dir@.len(),
                out@.len() == i,
                forall|k: int| 0 <= k < i ==> (#[trigger] out@[k])@ == self.by_dir@[k].0@,
            decreases self.by_dir@.len() - i,
        {
            out.push(self.by_dir[i].0.clone());
            i = i + 1;
        }
        out
    }

    /// The layers whose markers give them more than one description, with those
    /// descriptions. Markers that cannot be read count for nothing.
    pub fn description_conflicts(markers: &Vec<MarkerFile>) -> (r: Vec<(String, Vec<String>)>)
        ensures
            strictly_sorted(first_names(r@)),
            forall|k: int|
                #![trigger r@[k]]
                0 <= k < r@.len() ==> r@[k].1@.len() > 1 && strictly_sorted(strs(r@[k].1@)) && forall|
                    text: Seq<char>,
                | #[trigger]
                    strs(r@[k].1@).contains(text) <==> describes(markers@, r@[k].0@, text),
            forall|name: Seq<char>, a: Seq<char>, b: Seq<char>|
                #[trigger] describes(markers@, name, a) && #[trigger] describes(markers@, name, b)
                    && a != b ==> first_names(r@).contains(name),
    {
        let mut names: Vec<String> = Vec::new();
        let mut pairs: Vec<(String, String)> = Vec::new();
        let mut i: usize = 0;
        while i < markers.len()
            invariant
                0 <= i <= markers@.len(),
                names@.len() == pairs@.len(),
                forall|k: int| 0 <= k < names@.len() ==> (#[trigger] names@[k])@ == pairs@[k].0@,
                forall|k: int|
                    0 <= k < pairs@.len() ==> describes(
                        markers@,
                        (#[trigger] pairs@[k]).0@,
                        pairs@[k].1@,
                    ),
                forall|name: Seq<char>, text: Seq<char>| #[trigger]
                    describes(markers@.take(i as int), name, text) ==> pair_views(pairs@).contains(
                        (name, text),
                    ),
            decreases markers@.len() - i,
        {
            let ghost before = pairs@;
            let ghost decl = plain_decl(markers@[i as int]);
            match &markers[i].content {
                MarkerContent::Parsed(raw) => {
                    match parse_marker(raw) {
                        Ok(LayerDecl::Named { name, description: Some(text) }) => {
                            assert(describes(markers@, name@, text@));
                            names.push(name.clone());
                            pairs.push((name, text));
                        },
                        _ => {},
                    }
                },
                _ => {},
            }
            proof {
                assert forall|name: Seq<char>, text: Seq<char>| #[trigger]
                    describes(markers@.take(i + 1), name, text) implies pair_views(
                    pairs@,
                ).contains((name, text)) by {
                    let now = markers@.take(i + 1);
                    let was = markers@.take(i as int);
                    let k = choose|k: int|
                        0 <= k < now.len() && plain_decl(#[trigger] now[k]) == Some(
                            DeclView::Named { name, description: Some(text) },
                        );
                    if k < i {
                        assert(was[k] == now[k]);
                        assert(describes(was, name, text));
                        let w = choose|w: int|
                            0 <= w < pair_views(before).len() && pair_views(before)[w] == (
                                name,
                                text,
                            );
                        assert(pair_views(pairs@)[w] == (name, text));
                    } else {
                        assert(pair_views(pairs@)[before.len() as int] == (name, text));
                    }
                }
            }
            i = i + 1;
        }
        assert(markers@.take(i as int) =~= markers@);
        let sorted = sort_dedup(&names);
        let mut out: Vec<(String, Vec<String>)> = Vec::new();
        let mut n: usize = 0;
        while n < sorted.len()
            invariant
                0 <= n <= sorted@.len(),
                strictly_sorted(strs(sorted@)),
                names@.len() == pairs@.len(),
                forall|k: int| 0 <= k < names@.len() ==> (#[trigger] names@[k])@ == pairs@[k].0@,
                forall|x: Seq<char>| #[trigger]
                    strs(sorted@).contains(x) <==> strs(names@).contains(x),
                forall|k: int|
                    0 <= k < pairs@.len() ==> describes(
                        markers@,
                        (#[trigger] pairs@[k]).0@,
                        pairs@[k].1@,
                    ),
                forall|name: Seq<char>, text: Seq<char>| #[trigger]
                    describes(markers@, name, text) ==> pair_views(pairs@).contains((name, text)),
                strictly_sorted(first_names(out@)),
                n == 0 ==> out@.len() == 0,
                forall|k: int|
                    #![trigger out@[k]]
                    0 <= k < out@.len() ==> exists|m: int|
                        0 <= m < n && out@[k].0@ == (#[trigger] sorted@[m])@,
                forall|k: int|
                    #![trigger out@[k]]
                    0 <= k < out@.len() ==> out@[k].1@.len() > 1 && strictly_sorted(
                        strs(out@[k].1@),
                    ) && forall|text: Seq<char>| #[trigger]
                        strs(out@[k].1@).contains(text) <==> describes(markers@, out@[k].0@, text),
                forall|m: int, a: Seq<char>, b: Seq<char>|
                    0 <= m < n && #[trigger] describes(markers@, sorted@[m]@, a)
                        && #[trigger] describes(markers@, sorted@[m]@, b) && a != b ==> first_names(
                        out@,
                    ).contains(sorted@[m]@),
            decreases sorted@.len() - n,
        {
            let name = sorted[n].clone();
            let mut found: Vec<String> = Vec::new();
            let mut j: usize = 0;
            while j < pairs.len()
                invariant
                    0 <= j <= pairs@.len(),
                    forall|k: int|
                        0 <= k < pairs@.len() ==> describes(
                            markers@,
                            (#[trigger] pairs@[k]).0@,
                            pairs@[k].1@,
                        ),
                    forall|text: Seq<char>| #[trigger]
                        strs(found@).contains(text) ==> describes(markers@, name@, text),
                    forall|k: int|
                        0 <= k < j && (#[trigger] pairs@[k]).0@ == name@ ==> strs(
                            found@,
                        ).contains(pairs@[k].1@),
                decreases pairs@.len() - j,
            {
                let ghost before = found@;
                if pairs[j].0 == name {
                    let text = pairs[j].1.clone();
                    proof {
                        lemma_strs_push(found@, text);
                    }
                    found.push(text);
                    proof {
                        assert(strs(found@)[before.len() as int] == pairs@[j as int].1@);
                        assert forall|k: int|
                            0 <= k < j && (#[trigger] pairs@[k]).0@ == name@ implies strs(
                            found@,
                        ).contains(pairs@[k].1@) by {
                            assert(strs(before).contains(pairs@[k].1@));
                            let w = choose|w: int|
                                0 <= w < strs(before).len() && strs(before)[w] == pairs@[k].1@;
                            assert(strs(found@)[w] == pairs@[k].1@);
                        }
                        assert forall|t: Seq<char>| #[trigger] strs(found@).contains(t) implies describes(
                            markers@,
                            name@,
                            t,
                        ) by {
                            let w = choose|w: int| 0 <= w < strs(found@).len() && strs(found@)[w] == t;
                            if w < before.len() {
                                assert(strs(before)[w] == t);
                                assert(strs(before).contains(t));
                            }
                        }
                    }
                }
                j = j + 1;
            }
            let texts = sort_dedup(&found);
            proof {
                assert forall|text: Seq<char>| #[trigger] strs(texts@).contains(text) <==> describes(
                    markers@,
                    name@,
                    text,
                ) by {
                    if describes(markers@, name@, text) {
                        assert(pair_views(pairs@).contains((name@, text)));
                        let k = choose|k: int|
                            0 <= k < pair_views(pairs@).len() && pair_views(pairs@)[k] == (
                                name@,
                                text,
                            );
                        assert(pairs@[k].0@ == name@ && pairs@[k].1@ == text);
                        assert(strs(found@).contains(text));
                    }
                }
            }
            let ghost before_out = out@;
            if texts.len() > 1 {
                out.push((name, texts));
                proof {
                    assert(first_names(out@) =~= first_names(before_out).push(name@));
                    assert forall|a: int, b: int| 0 <= a < b < first_names(out@).len() implies crate::text::text_lt(
                        #[trigger] first_names(out@)[a],
                        #[trigger] first_names(out@)[b],
                    ) by {
                        if b == before_out.len() {
                            let m = choose|m: int|
                                0 <= m < n && before_out[a].0@ == (#[trigger] sorted@[m])@;
                            assert(before_out[a] == out@[a]);
                            assert(crate::text::text_lt(strs(sorted@)[m], strs(sorted@)[n as int]));
                        } else {
                            assert(first_names(before_out)[a] == first_names(out@)[a]);
                            assert(first_names(before_out)[b] == first_names(out@)[b]);
                        }
                    }
                    assert forall|k: int|
                        #![trigger out@[k]]
                        0 <= k < out@.len() implies exists|m: int|
                        0 <= m < n + 1 && out@[k].0@ == (#[trigger] sorted@[m])@ by {
                        if k == before_out.len() {
                            assert(out@[k].0@ == sorted@[n as int]@);
                        } else {
                            assert(before_out[k] == out@[k]);
                        }
                    }
                    assert forall|m: int, a: Seq<char>, b: Seq<char>|
                        0 <= m < n + 1 && #[trigger] describes(markers@, sorted@[m]@, a)
                            && #[trigger] describes(markers@, sorted@[m]@, b) && a
                            != b implies first_names(out@).contains(sorted@[m]@) by {
                        if m == n {
                            assert(first_names(out@)[before_out.len() as int] == sorted@[m]@);
                        } else {
                            assert(first_names(before_out).contains(sorted@[m]@));
                            let w = choose|w: int|
                                0 <= w < first_names(before_out).len() && first_names(before_out)[w]
                                    == sorted@[m]@;
                            assert(first_names(out@)[w] == sorted@[m]@);
                        }
                    }
                }
            } else {
                proof {
                    assert forall|m: int, a: Seq<char>, b: Seq<char>|
                        0 <= m < n + 1 && #[trigger] describes(markers@, sorted@[m]@, a)
                            && #[trigger] describes(markers@, sorted@[m]@, b) && a
                            != b implies first_names(out@).contains(sorted@[m]@) by {
                        if m == n {
                            assert(strs(texts@).contains(a));
                            assert(strs(texts@).contains(b));
                        }
                    }
                    assert forall|k: int|
                        #![trigger out@[k]]
                        0 <= k < out@.len() implies exists|m: int|
                        0 <= m < n + 1 && out@[k].0@ == (#[trigger] sorted@[m])@ by {
                        let m = choose|m: int|
                            0 <= m < n && out@[k].0@ == (#[trigger] sorted@[m])@;
                        assert(out@[k].0@ == sorted@[m]@);
                    }
                }
            }
            n = n + 1;
        }
        proof {
            assert forall|name: Seq<char>, a: Seq<char>, b: Seq<char>|
                #[trigger] describes(markers@, name, a) && #[trigger] describes(markers@, name, b)
                    && a != b implies first_names(out@).contains(name) by {
                assert(pair_views(pairs@).contains((name, a)));
                let k = choose|k: int|
                    0 <= k < pair_views(pairs@).len() && pair_views(pairs@)[k] == (name, a);
                assert(strs(names@)[k] == name);
                assert(strs(names@).contains(name));
                assert(strs(sorted@).contains(name));
                let m = choose|m: int| 0 <= m < strs(sorted@).len() && strs(sorted@)[m] == name;
                assert(sorted@[m]@ == name);
                assert(describes(markers@, sorted@[m]@, a));
            }
        }
        out
    }

    /// A text that covers every marker's directory and declaration. Hashing it
    /// tells one marker set from another.
    pub fn hash_input(&self) -> (r: String)
        ensures
            r@ == marker_set_text(self.decls()),
    {
        let ghost decls = self.decls();
        let mut out: Vec<char> = Vec::new();
        let mut i: usize = 0;
        assert(decls.skip(0) =~= decls);
        assert(out@ + marker_set_text(decls) =~= marker_set_text(decls));
        while i < self.by_dir.len()
            invariant
                0 <= i <= self.by_dir@.len(),
                decls == self.decls(),
                marker_set_text(decls) == out@ + marker_set_text(decls.skip(i as int)),
            decreases self.by_dir@.len() - i,
        {
            let ghost start = out@;
            push_str(&mut out, self.by_dir[i].0.as_str());
            out.push('\u{1}');
            match &self.by_dir[i].1 {
                LayerDecl::Default => {
                    push_str(&mut out, "default");
                },
                LayerDecl::Named { name, description } => {
                    push_str(&mut out, "named");
                    out.push('\u{1}');
                    push_str(&mut out, name.as_str());
                    out.push('\u{1}');
                    match description {
                        Some(text) => {
                            push_str(&mut out, text.as_str());
                        },
                        None => {},
                    }
                },
            }
            out.push('\u{2}');
            proof {
                let rest = decls.skip(i as int);
                assert(rest[0] == decls[i as int]);
                assert(decls[i as int] == (
                    self.by_dir@[i as int].0@,
                    self.by_dir@[i as int].1@,
                ));
                assert(rest.skip(1) =~= decls.skip(i + 1));
                assert(out@ =~= start + marker_record(rest[0].0, rest[0].1));
                assert(start + (marker_record(rest[0].0, rest[0].1) + marker_set_text(
                    decls.skip(i + 1),
                )) =~= out@ + marker_set_text(decls.skip(i + 1)));
            }
            i = i + 1;
        }
        assert(decls.skip(i as int).len() == 0);
        assert(out@ =~= marker_set_text(decls));
        from_chars(out.as_slice())
    }

    /// The named markers, as directory and layer name. Re-includes are left
    /// out: they are no layers.
    pub fn named_markers(&self) -> (r: Vec<(String, String)>)
        ensures
            pair_views(r@) == named_from(self.decls(), 0),
    {
        let ghost decls = self.decls();
        let mut out: Vec<(String, String)> = Vec::new();
        let mut i: usize = 0;
        assert(pair_views(out@) + named_from(decls, 0) =~= named_from(decls, 0));
        while i < self.by_dir.len()
            invariant
                0 <= i <= self.by_dir@.len(),
                decls == self.decls(),
                named_from(decls, 0) == pair_views(out@) + named_from(decls, i as int),
            decreases self.by_dir@.len() - i,
        {
            let ghost start = out@;
            assert(decls[i as int] == (self.by_dir@[i as int].0@, self.by_dir@[i as int].1@));
            match &self.by_dir[i].1 {
                LayerDecl::Named { name, .. } => {
                    out.push((self.by_dir[i].0.clone(), name.clone()));
                    assert(pair_views(out@) =~= pair_views(start).push((decls[i as int].0, name@)));
                    assert(pair_views(out@) + named_from(decls, i + 1) =~= pair_views(start)
                        + named_from(decls, i as int));
                },
                LayerDecl::Default => {},
            }
            i = i + 1;
        }
        assert(pair_views(out@) =~= named_from(decls, 0));
        out
    }
}

// ---------------------------------------------------------------------------
// The marker-set text tells marker sets apart
// ---------------------------------------------------------------------------

/// `s` holds neither of the characters that separate fields and records.
pub open spec fn free_of_separators(s: Seq<char>) -> bool {
    !s.contains('\u{1}') && !s.contains('\u{2}')
}

/// No field of the declaration holds a separator, and no description is empty.
spec fn clean_decl(d: (Seq<char>, DeclView)) -> bool {
    free_of_separators(d.0) && match d.1 {
        DeclView::Default => true,
        DeclView::Named { name, description } => free_of_separators(name) && free_of_separators(
            description_or_empty(description),
        ) && (description is Some ==> description->0.len() > 0),
    }
}

/// Cutting two equal texts behind their first `c` leaves equal parts.
proof fn lemma_cut_equal(a: Seq<char>, x: Seq<char>, b: Seq<char>, y: Seq<char>, c: char)
    requires
        !a.contains(c),
        !b.contains(c),
        a + seq![c] + x == b + seq![c] + y,
    ensures
        a == b,
        x == y,
{
    let s = a + seq![c] + x;
    let t = b + seq![c] + y;
    if a.len() < b.len() {
        assert(s[a.len() as int] == c);
        assert(t[a.len() as int] == b[a.len() as int]);
        assert(b.contains(c));
    }
    if b.len() < a.len() {
        assert(t[b.len() as int] == c);
        assert(s[b.len() as int] == a[b.len() as int]);
        assert(a.contains(c));
    }
    assert(s.take(a.len() as int) =~= a);
    assert(t.take(b.len() as int) =~= b);
    assert(s.skip(a.len() as int + 1) =~= x);
    assert(t.skip(b.len() as int + 1) =~= y);
}

/// A record without its closing separator.
spec fn record_fields(d: (Seq<char>, DeclView)) -> Seq<char> {
    d.0 + seq!['\u{1}'] + record_tail(d.1)
}

spec fn record_tail(d: DeclView) -> Seq<char> {
    match d {
        DeclView::Default => "default"@,
        DeclView::Named { name, description } => "named"@ + seq!['\u{1}'] + (name + seq!['\u{1}']
            + description_or_empty(description)),
    }
}

proof fn lemma_fields_free(d: (Seq<char>, DeclView))
    requires
        clean_decl(d),
    ensures
        !record_fields(d).contains('\u{2}'),
        marker_record(d.0, d.1) =~= record_fields(d) + seq!['\u{2}'],
{
    reveal_strlit("default");
    reveal_strlit("named");
    let f = record_fields(d);
    if f.contains('\u{2}') {
        let k = choose|k: int| 0 <= k < f.len() && f[k] == '\u{2}';
        let head = d.0 + seq!['\u{1}'];
        if k < d.0.len() {
            assert(d.0[k] == '\u{2}');
        } else if k >= head.len() {
            let j = k - head.len();
            assert(record_tail(d.1)[j] == '\u{2}');
            match d.1 {
                DeclView::Default => {},
                DeclView::Named { name, description } => {
                    let t = description_or_empty(description);
                    let n = "named"@.len() + 1;
                    if j >= n && j < n + name.len() {
                        assert(name[j - n] == '\u{2}');
                    } else if j > n + name.len() {
                        assert(t[j - n - name.len() - 1] == '\u{2}');
                    }
                },
            }
        }
    }
}

proof fn lemma_fields_tell_apart(a: (Seq<char>, DeclView), b: (Seq<char>, DeclView))
    requires
        clean_decl(a),
        clean_decl(b),
        record_fields(a) == record_fields(b),
    ensures
        a == b,
{
    reveal_strlit("default");
    reveal_strlit("named");
    lemma_cut_equal(a.0, record_tail(a.1), b.0, record_tail(b.1), '\u{1}');
    match (a.1, b.1) {
        (
            DeclView::Named { name: n, description: d },
            DeclView::Named { name: m, description: e },
        ) => {
            let x = n + seq!['\u{1}'] + description_or_empty(d);
            let y = m + seq!['\u{1}'] + description_or_empty(e);
            assert(record_tail(a.1).skip(6) =~= x);
            assert(record_tail(b.1).skip(6) =~= y);
            lemma_cut_equal(n, description_or_empty(d), m, description_or_empty(e), '\u{1}');
        },
        (DeclView::Default, DeclView::Default) => {},
        (DeclView::Default, DeclView::Named { .. }) => {
            assert(record_tail(a.1)[0] == 'd');
            assert(record_tail(b.1)[0] == 'n');
        },
        (DeclView::Named { .. }, DeclView::Default) => {
            assert(record_tail(a.1)[0] == 'n');
            assert(record_tail(b.1)[0] == 'd');
        },
    }
}

proof fn lemma_text_tells_apart(
    a: Seq<(Seq<char>, DeclView)>,
    b: Seq<(Seq<char>, DeclView)>,
)
    requires
        forall|i: int| 0 <= i < a.len() ==> clean_decl(#[trigger] a[i]),
        forall|i: int| 0 <= i < b.len() ==> clean_decl(#[trigger] b[i]),
        marker_set_text(a) == marker_set_text(b),
    ensures
        a == b,
    decreases a.len(),
{
    if a.len() == 0 {
        if b.len() > 0 {
            assert(marker_record(b[0].0, b[0].1).len() > 0);
        }
        assert(a =~= b);
    } else if b.len() == 0 {
        assert(marker_record(a[0].0, a[0].1).len() > 0);
    } else {
        lemma_fields_free(a[0]);
        lemma_fields_free(b[0]);
        lemma_cut_equal(
            record_fields(a[0]),
            marker_set_text(a.skip(1)),
            record_fields(b[0]),
            marker_set_text(b.skip(1)),
            '\u{2}',
        );
        lemma_fields_tell_apart(a[0], b[0]);
        lemma_text_tells_apart(a.skip(1), b.skip(1));
        assert(a =~= seq![a[0]] + a.skip(1));
        assert(b =~= seq![b[0]] + b.skip(1));
    }
}

proof fn lemma_proper_is_clean(decls: Seq<(Seq<char>, DeclView)>)
    requires
        proper_decls(decls),
        forall|i: int| 0 <= i < decls.len() ==> free_of_separators((#[trigger] decls[i]).0),
    ensures
        forall|i: int| 0 <= i < decls.len() ==> clean_decl(#[trigger] decls[i]),
{
    assert forall|i: int| 0 <= i < decls.len() implies clean_decl(#[trigger] decls[i]) by {
        assert(proper_decl(decls[i].1));
    }
}

/// The marker-set texts of two vaults are equal if and only if the vaults mark
/// the same directories with the same declarations, as long as no directory's
/// name holds a separator.
pub proof fn marker_set_text_tells_sets_apart(a: LayerMap, b: LayerMap)
    requires
        a.wf(),
        b.wf(),
        forall|i: int| 0 <= i < a.decls().len() ==> free_of_separators((#[trigger] a.decls()[i]).0),
        forall|i: int| 0 <= i < b.decls().len() ==> free_of_separators((#[trigger] b.decls()[i]).0),
    ensures
        marker_set_text(a.decls()) == marker_set_text(b.decls()) <==> a.decls() == b.decls(),
{
    lemma_proper_is_clean(a.decls());
    lemma_proper_is_clean(b.decls());
    if marker_set_text(a.decls()) == marker_set_text(b.decls()) {
        lemma_text_tells_apart(a.decls(), b.decls());
    }
}

// ---------------------------------------------------------------------------
// Named markers and layers
// ---------------------------------------------------------------------------

proof fn lemma_named_from(
    decls: Seq<(Seq<char>, DeclView)>,
    i: int,
    dir: Seq<char>,
    name: Seq<char>,
)
    requires
        0 <= i <= decls.len(),
    ensures
        named_from(decls, i).contains((dir, name)) <==> exists|k: int|
            i <= k < decls.len() && (#[trigger] decls[k]).0 == dir && decls[k].1 is Named
                && decls[k].1->Named_name == name,
    decreases decls.len() - i,
{
    if i < decls.len() {
        lemma_named_from(decls, i + 1, dir, name);
        let all = named_from(decls, i);
        let rest = named_from(decls, i + 1);
        match decls[i].1 {
            DeclView::Named { name: n, .. } => {
                assert(all[0] == (decls[i].0, n));
                if all.contains((dir, name)) {
                    let k = choose|k: int| 0 <= k < all.len() && all[k] == (dir, name);
                    if k > 0 {
                        assert(rest[k - 1] == (dir, name));
                    }
                }
                if rest.contains((dir, name)) {
                    let k = choose|k: int| 0 <= k < rest.len() && rest[k] == (dir, name);
                    assert(all[k + 1] == (dir, name));
                }
            },
            DeclView::Default => {},
        }
    }
}

/// The markers that are listed as named agree with the layers: a marked
/// directory is listed under a name if and only if that is its layer, and only
/// marked directories are listed. A re-include is listed under none.
pub proof fn named_markers_agree_with_layers(map: LayerMap, dir: Seq<char>, name: Seq<char>)
    requires
        map.wf(),
    ensures
        dirs_of(map.decls()).contains(dir) ==> (named_from(map.decls(), 0).contains((dir, name))
            <==> layer_of(map.decls(), dir) == Some(name)),
        named_from(map.decls(), 0).contains((dir, name)) ==> dirs_of(map.decls()).contains(dir),
{
    let decls = map.decls();
    let dirs = dirs_of(decls);
    lemma_named_from(decls, 0, dir, name);
    if dirs.contains(dir) {
        let i = choose|i: int| 0 <= i < dirs.len() && dirs[i] == dir;
        assert forall|j: int| 0 <= j < decls.len() && covers(
            (#[trigger] decls[j]).0,
            dir,
        ) implies decls[j].0.len() < decls[i].0.len() || (decls[j].0.len() == decls[i].0.len()
            && j <= i) by {
            if decls[j].0.len() >= decls[i].0.len() {
                reveal_strlit("/");
                assert(decls[j].0 =~= dir);
                assert(dirs[j] == dir);
                lemma_same_dir(dirs, i, j);
            }
        }
        assert(governs(decls, dir, i));
        let g = choose|g: int| governs(decls, dir, g);
        governing_marker_is_unique(decls, dir, i, g);
        assert(decls[i].0 == dir);
        if named_from(decls, 0).contains((dir, name)) {
            let k = choose|k: int|
                0 <= k < decls.len() && (#[trigger] decls[k]).0 == dir && decls[k].1 is Named
                    && decls[k].1->Named_name == name;
            assert(dirs[k] == dir);
            lemma_same_dir(dirs, i, k);
        }
    }
    if named_from(decls, 0).contains((dir, name)) {
        let k = choose|k: int|
            0 <= k < decls.len() && (#[trigger] decls[k]).0 == dir && decls[k].1 is Named
                && decls[k].1->Named_name == name;
        assert(dirs[k] == dir);
    }
}

/// In a strict order a text stands once.
proof fn lemma_same_dir(dirs: Seq<Seq<char>>, i: int, j: int)
    requires
        strictly_sorted(dirs),
        0 <= i < dirs.len(),
        0 <= j < dirs.len(),
        dirs[i] == dirs[j],
    ensures
        i == j,
{
    lemma_lex_irreflexive(text_key(dirs[i]));
    if i < j {
        assert(text_lt(dirs[i], dirs[j]));
    } else if j < i {
        assert(text_lt(dirs[j], dirs[i]));
    }
}

// ---------------------------------------------------------------------------
// Names, descriptions and folders
// ---------------------------------------------------------------------------

/// A layer name is one to 32 letters, digits and hyphens, not starting with a
/// hyphen, and none of the words that select surfaces. Nothing else is one.
pub proof fn layer_names_are_short_words(name: Seq<char>)
    ensures
        name_error(name) is None <==> {
            &&& 1 <= name.len() <= 32
            &&& alphanumeric(name[0])
            &&& forall|i: int|
                0 <= i < name.len() ==> alphanumeric(#[trigger] name[i]) || name[i] == '-'
            &&& name != "default"@
            &&& name != "all"@
            &&& name != "noise"@
            &&& name != "none"@
        },
{
    let names = reserved_names();
    assert(names[0] == "default"@);
    assert(names[1] == "all"@);
    assert(names[2] == "noise"@);
    assert(names[3] == "none"@);
    if names.contains(name) {
        let k = choose|k: int| 0 <= k < names.len() && names[k] == name;
    }
    if 1 <= name.len() {
        assert(name[0] == name[0]);
    }
}

/// No character of a word is white space or invisible.
pub open spec fn is_word(s: Seq<char>) -> bool {
    &&& s.len() > 0
    &&& forall|i: int| 0 <= i < s.len() ==> !whitespace(#[trigger] s[i]) && !invisible(s[i])
}

/// The words of a description, before it is cut.
spec fn words_of(raw: Seq<char>) -> Seq<Seq<char>> {
    nonempty(split(spaced(raw), ' '))
}

proof fn lemma_words_of_two_texts(a: Seq<char>, c: char, b: Seq<char>)
    requires
        whitespace(c) || invisible(c),
    ensures
        words_of(a.push(c) + b) == words_of(a) + words_of(b),
{
    assert(spaced(a.push(c) + b) =~= spaced(a).push(' ') + spaced(b));
    pieces_of_two_texts(spaced(a), spaced(b), ' ');
    nonempty_of_two_lists(split(spaced(a), ' '), split(spaced(b), ' '));
}

proof fn lemma_word(word: Seq<char>)
    requires
        is_word(word),
    ensures
        words_of(word) == seq![word],
{
    assert(spaced(word) =~= word);
    assert(!word.contains(' ')) by {
        if word.contains(' ') {
            let k = choose|k: int| 0 <= k < word.len() && word[k] == ' ';
            assert(!whitespace(word[k]));
        }
    }
    pieces_end_at_separators(word, word, ' ');
    nonempty_of_two_lists(seq![], seq![word]);
    assert(Seq::<Seq<char>>::empty() + seq![word] =~= seq![word]);
}

/// A description is cleaned word by word. What stands before and behind a white
/// space or an invisible character is cleaned by itself, and one space joins the
/// two, unless one of them has no word. A word alone stays. What would be longer
/// than 500 characters is cut there.
#[verifier::rlimit(40)]
pub proof fn description_is_cleaned_word_by_word(
    a: Seq<char>,
    c: char,
    b: Seq<char>,
    word: Seq<char>,
)
    requires
        whitespace(c) || invisible(c),
        is_word(word),
    ensures
        clean_description(Seq::<char>::empty()).len() == 0,
        clean_description(word) == (if word.len() <= 500 {
            word
        } else {
            word.take(500)
        }),
        clean_description(a).len() == 0 ==> clean_description(a.push(c) + b) == clean_description(b),
        clean_description(b).len() == 0 ==> clean_description(a.push(c) + b) == clean_description(a),
        clean_description(a).len() > 0 && clean_description(b).len() > 0 ==> {
            let both = clean_description(a) + seq![' '] + clean_description(b);
            clean_description(a.push(c) + b) == (if both.len() <= 500 {
                both
            } else {
                both.take(500)
            })
        },
{
    let sep = seq![' '];
    let none = Seq::<char>::empty();
    assert(spaced(none) =~= none);
    pieces_end_at_separators(none, none, ' ');
    nonempty_of_two_lists(seq![], seq![none]);
    assert(Seq::<Seq<char>>::empty() + seq![none] =~= seq![none]);
    lemma_word(word);
    two_lists_are_joined(seq![word], seq![], sep);
    assert(clean_description(word) =~= if word.len() <= 500 {
        word
    } else {
        word.take(500)
    });
    lemma_words_of_two_texts(a, c, b);
    let x = words_of(a);
    let y = words_of(b);
    two_lists_are_joined(x, y, sep);
    two_lists_are_joined(y, x, sep);
    lemma_words_are_not_empty(a);
    lemma_words_are_not_empty(b);
    if y.len() == 0 {
        assert(x + y =~= x);
    }
    if x.len() > 0 && y.len() > 0 {
        let both = clean_description(a) + sep + clean_description(b);
        let whole = clean_description(a.push(c) + b);
        assert(whole =~= if both.len() <= 500 {
            both
        } else {
            both.take(500)
        });
    }
}

/// A text has a word or is cleaned to nothing.
proof fn lemma_words_are_not_empty(raw: Seq<char>)
    ensures
        words_of(raw).len() == 0 <==> clean_description(raw).len() == 0,
{
    let x = words_of(raw);
    let parts = split(spaced(raw), ' ');
    lemma_kept_parts(parts);
    if x.len() > 1 {
        assert(x.last().len() > 0);
    }
}

proof fn lemma_kept_parts(parts: Seq<Seq<char>>)
    ensures
        forall|k: int| 0 <= k < nonempty(parts).len() ==> (#[trigger] nonempty(parts)[k]).len() > 0,
    decreases parts.len(),
{
    if parts.len() > 0 {
        let front = nonempty(parts.drop_last());
        lemma_kept_parts(parts.drop_last());
        assert forall|k: int| 0 <= k < nonempty(parts).len() implies (#[trigger] nonempty(
            parts,
        )[k]).len() > 0 by {
            if k < front.len() {
                assert(nonempty(parts)[k] == front[k]);
            }
        }
    }
}

/// `dir` is the folder of `path`, or one above it, or `path` itself.
pub open spec fn stands_in(path: Seq<char>, dir: Seq<char>) -> bool {
    path == dir || exists|rest: Seq<char>| path == #[trigger] (dir + seq!['/'] + rest)
}

/// The nearest marker above a path decides its layer: where no marked folder
/// stands deeper on the way to the path, the path is in the layer that the
/// marker names, and on the default surface where it is a re-include.
#[verifier::rlimit(40)]
pub proof fn nearest_marker_decides(decls: Seq<(Seq<char>, DeclView)>, i: int, path: Seq<char>)
    requires
        strictly_sorted(dirs_of(decls)),
        0 <= i < decls.len(),
        stands_in(path, decls[i].0) || decls[i].0.len() == 0,
        forall|j: int|
            0 <= j < decls.len() && decls[j].0.len() > decls[i].0.len() ==> !stands_in(
                path,
                (#[trigger] decls[j]).0,
            ),
    ensures
        layer_of(decls, path) == (match decls[i].1 {
            DeclView::Named { name, .. } => Some(name),
            DeclView::Default => None,
        }),
{
    let dirs = dirs_of(decls);
    assert forall|j: int| 0 <= j < decls.len() implies (covers((#[trigger] decls[j]).0, path)
        <==> stands_in(path, decls[j].0) || decls[j].0.len() == 0) by {
        lemma_covered_paths(decls[j].0, path);
    }
    assert forall|j: int| 0 <= j < decls.len() && covers(
        (#[trigger] decls[j]).0,
        path,
    ) implies decls[j].0.len() < decls[i].0.len() || (decls[j].0.len() == decls[i].0.len() && j
        <= i) by {
        if decls[j].0.len() >= decls[i].0.len() {
            reveal_strlit("/");
            assert(decls[i].0 =~= path.take(decls[i].0.len() as int));
            assert(decls[j].0 =~= path.take(decls[j].0.len() as int));
            assert(dirs[i] == dirs[j]);
            lemma_same_dir(dirs, i, j);
        }
    }
    assert(covers(decls[i].0, path));
    assert(governs(decls, path, i));
    let g = choose|g: int| governs(decls, path, g);
    governing_marker_is_unique(decls, path, i, g);
}

proof fn lemma_covered_paths(dir: Seq<char>, path: Seq<char>)
    ensures
        covers(dir, path) <==> stands_in(path, dir) || dir.len() == 0,
{
    reveal_strlit("/");
    let head = dir + seq!['/'];
    assert(dir + "/"@ =~= head);
    if starts_with(path, head) {
        let rest = path.skip(head.len() as int);
        assert(path =~= dir + seq!['/'] + rest);
    }
    if exists|rest: Seq<char>| path == #[trigger] (dir + seq!['/'] + rest) {
        let rest = choose|rest: Seq<char>| path == #[trigger] (dir + seq!['/'] + rest);
        assert(path.take(head.len() as int) =~= head);
    }
}

/// A path on the way to which no marked folder stands is on the default surface,
/// and so is a folder whose name only starts like that of a marked one.
pub proof fn unmarked_folders_are_default(decls: Seq<(Seq<char>, DeclView)>, path: Seq<char>)
    requires
        forall|j: int|
            0 <= j < decls.len() ==> (#[trigger] decls[j]).0.len() > 0 && !stands_in(
                path,
                decls[j].0,
            ),
    ensures
        layer_of(decls, path) is None,
{
    assert forall|j: int| 0 <= j < decls.len() implies !covers((#[trigger] decls[j]).0, path) by {
        lemma_covered_paths(decls[j].0, path);
    }
}

/// The `i`th declaration describes the layer `name`.
pub open spec fn describes_at(
    decls: Seq<(Seq<char>, DeclView)>,
    name: Seq<char>,
    i: int,
    text: Seq<char>,
) -> bool {
    0 <= i < decls.len() && decls[i].1 == (DeclView::Named { name, description: Some(text) })
}

/// A layer goes by the first description that a marker gives it, and has none
/// where no marker gives one.
pub proof fn first_description_counts(
    decls: Seq<(Seq<char>, DeclView)>,
    name: Seq<char>,
    i: int,
    text: Seq<char>,
)
    ensures
        describes_at(decls, name, i, text) && (forall|j: int, other: Seq<char>|
            0 <= j < i ==> !#[trigger] describes_at(decls, name, j, other)) ==> description_from(
            decls,
            name,
            0,
        ) == Some(text),
        (forall|j: int, other: Seq<char>| !#[trigger] describes_at(decls, name, j, other))
            ==> description_from(decls, name, 0) is None,
{
    if describes_at(decls, name, i, text) && (forall|j: int, other: Seq<char>|
        0 <= j < i ==> !#[trigger] describes_at(decls, name, j, other)) {
        lemma_described_at(decls, name, 0, i, text);
    }
    if forall|j: int, other: Seq<char>| !#[trigger] describes_at(decls, name, j, other) {
        lemma_not_described(decls, name, 0);
    }
}

proof fn lemma_described_at(
    decls: Seq<(Seq<char>, DeclView)>,
    name: Seq<char>,
    from: int,
    i: int,
    text: Seq<char>,
)
    requires
        0 <= from <= i,
        describes_at(decls, name, i, text),
        forall|j: int, other: Seq<char>|
            0 <= j < i ==> !#[trigger] describes_at(decls, name, j, other),
    ensures
        description_from(decls, name, from) == Some(text),
    decreases i - from,
{
    if from < i {
        lemma_described_at(decls, name, from + 1, i, text);
        if let DeclView::Named { name: n, description: Some(d) } = decls[from].1 {
            if n == name {
                assert(describes_at(decls, name, from, d));
            }
        }
    }
}

proof fn lemma_not_described(decls: Seq<(Seq<char>, DeclView)>, name: Seq<char>, from: int)
    requires
        forall|j: int, other: Seq<char>| !#[trigger] describes_at(decls, name, j, other),
    ensures
        description_from(decls, name, from) is None,
    decreases decls.len() - from,
{
    if 0 <= from < decls.len() {
        lemma_not_described(decls, name, from + 1);
        if let DeclView::Named { name: n, description: Some(d) } = decls[from].1 {
            if n == name {
                assert(describes_at(decls, name, from, d));
            }
        }
    }
}

/// Where the markers of one folder stand together, each marked folder is declared
/// once, as its last marker declares it, and nothing else is declared.
#[verifier::rlimit(40)]
pub proof fn last_marker_of_a_folder_counts(
    markers: Seq<MarkerFile>,
    dir: Seq<char>,
    decl: DeclView,
)
    requires
        forall|i: int, j: int, k: int|
            0 <= i <= k <= j < markers.len() && (#[trigger] markers[i]).dir@ == (
            #[trigger] markers[j]).dir@ ==> (#[trigger] markers[k]).dir@ == markers[i].dir@,
        forall|i: int| 0 <= i < markers.len() ==> file_decl(#[trigger] markers[i]) is Ok,
    ensures
        declared(markers).contains((dir, decl)) <==> exists|i: int|
            #![trigger markers[i]]
            0 <= i < markers.len() && markers[i].dir@ == dir && file_decl(markers[i]) == Ok::<
                DeclView,
                Seq<char>,
            >(decl) && (i + 1 == markers.len() || markers[i + 1].dir@ != dir),
    decreases markers.len(),
{
    if markers.len() > 0 {
        let front = markers.drop_last();
        let n = front.len() as int;
        assert forall|i: int, j: int, k: int|
            0 <= i <= k <= j < front.len() && (#[trigger] front[i]).dir@ == (
            #[trigger] front[j]).dir@ implies (#[trigger] front[k]).dir@ == front[i].dir@ by {
            assert(markers[i].dir@ == markers[j].dir@);
            assert(markers[k].dir@ == markers[i].dir@);
        }
        assert forall|i: int| 0 <= i < front.len() implies file_decl(#[trigger] front[i]) is Ok by {
            assert(markers[i] == front[i]);
        }
        last_marker_of_a_folder_counts(front, dir, decl);
        lemma_declared_dirs(front);
        let prev = declared(front);
        let all = declared(markers);
        if all.contains((dir, decl)) {
            let k = choose|k: int| 0 <= k < all.len() && all[k] == (dir, decl);
            if k == all.len() - 1 {
                assert(markers[n].dir@ == dir);
            } else {
                assert(prev[k] == (dir, decl));
                assert(prev.contains((dir, decl)));
                let i = choose|i: int|
                    #![trigger front[i]]
                    0 <= i < front.len() && front[i].dir@ == dir && file_decl(front[i]) == Ok::<
                        DeclView,
                        Seq<char>,
                    >(decl) && (i + 1 == front.len() || front[i + 1].dir@ != dir);
                assert(markers[i] == front[i]);
                if i + 1 < n {
                    assert(markers[i + 1] == front[i + 1]);
                } else {
                    assert(prev.last().0 == dir);
                    lemma_declared_once(front, k);
                }
            }
        }
        if exists|i: int|
            #![trigger markers[i]]
            0 <= i < markers.len() && markers[i].dir@ == dir && file_decl(markers[i]) == Ok::<
                DeclView,
                Seq<char>,
            >(decl) && (i + 1 == markers.len() || markers[i + 1].dir@ != dir) {
            let i = choose|i: int|
                #![trigger markers[i]]
                0 <= i < markers.len() && markers[i].dir@ == dir && file_decl(markers[i]) == Ok::<
                    DeclView,
                    Seq<char>,
                >(decl) && (i + 1 == markers.len() || markers[i + 1].dir@ != dir);
            if i == n {
                assert(all[all.len() - 1] == (dir, decl));
            } else {
                assert(front[i] == markers[i]);
                if i + 1 < n {
                    assert(front[i + 1] == markers[i + 1]);
                }
                assert(prev.contains((dir, decl)));
                let k = choose|k: int| 0 <= k < prev.len() && prev[k] == (dir, decl);
                if all.len() == prev.len() && k == prev.len() - 1 {
                    assert(markers[n].dir@ == dir);
                    assert(markers[i + 1].dir@ == dir);
                } else {
                    assert(all[k] == (dir, decl));
                }
            }
        }
    }
}

/// The last declaration is that of the last marker's folder.
proof fn lemma_declared_dirs(markers: Seq<MarkerFile>)
    ensures
        markers.len() > 0 <==> declared(markers).len() > 0,
        markers.len() > 0 ==> declared(markers).last().0 == markers.last().dir@,
{
}

/// Only the last declaration is of the last marker's folder.
proof fn lemma_declared_once(markers: Seq<MarkerFile>, k: int)
    requires
        forall|i: int, j: int, m: int|
            0 <= i <= m <= j < markers.len() && (#[trigger] markers[i]).dir@ == (
            #[trigger] markers[j]).dir@ ==> (#[trigger] markers[m]).dir@ == markers[i].dir@,
        0 <= k < declared(markers).len(),
        declared(markers)[k].0 == markers.last().dir@,
    ensures
        k == declared(markers).len() - 1,
    decreases markers.len(),
{
    if markers.len() > 0 && k < declared(markers).len() - 1 {
        let front = markers.drop_last();
        let n = front.len() as int;
        lemma_declared_dirs(front);
        lemma_declared_place(front, k);
        let i = choose|i: int| 0 <= i < n && (#[trigger] front[i]).dir@ == declared(front)[k].0;
        assert(markers[i] == front[i]);
        assert(markers[n - 1] == front[n - 1]);
        assert(markers[n - 1].dir@ == markers[i].dir@ && markers[n].dir@ == markers[i].dir@);
        assert forall|i: int, j: int, m: int|
            0 <= i <= m <= j < front.len() && (#[trigger] front[i]).dir@ == (
            #[trigger] front[j]).dir@ implies (#[trigger] front[m]).dir@ == front[i].dir@ by {
            assert(markers[i].dir@ == markers[j].dir@);
            assert(markers[m].dir@ == markers[i].dir@);
        }
        lemma_declared_once(front, k);
    }
}

/// What is declared is a marker's folder.
proof fn lemma_declared_place(markers: Seq<MarkerFile>, k: int)
    requires
        0 <= k < declared(markers).len(),
    ensures
        exists|i: int|
            0 <= i < markers.len() && (#[trigger] markers[i]).dir@ == declared(markers)[k].0,
    decreases markers.len(),
{
    if markers.len() > 0 {
        let front = markers.drop_last();
        if k < declared(markers).len() - 1 {
            lemma_declared_place(front, k);
            let i = choose|i: int|
                0 <= i < front.len() && (#[trigger] front[i]).dir@ == declared(front)[k].0;
            assert(markers[i] == front[i]);
        } else {
            assert(markers[markers.len() - 1].dir@ == declared(markers)[k].0);
        }
    }
}

/// A scan fails at the first marker that declares nothing, and at none where all
/// declare.
pub proof fn first_failure_is_reported(markers: Seq<MarkerFile>, i: int)
    requires
        0 <= i <= markers.len(),
        forall|j: int| 0 <= j < i ==> file_decl(#[trigger] markers[j]) is Ok,
        i < markers.len() ==> file_decl(markers[i]) is Err,
    ensures
        first_failed(markers, 0) == i,
{
    lemma_first_failed(markers, 0, i);
}

proof fn lemma_first_failed(markers: Seq<MarkerFile>, from: int, i: int)
    requires
        0 <= from <= i <= markers.len(),
        forall|j: int| 0 <= j < i ==> file_decl(#[trigger] markers[j]) is Ok,
        i < markers.len() ==> file_decl(markers[i]) is Err,
    ensures
        first_failed(markers, from) == i,
    decreases i - from,
{
    if from < i {
        lemma_first_failed(markers, from + 1, i);
    }
}

} // verus!
