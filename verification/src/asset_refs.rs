//! References to files in a note's body: `[text](path)` and `[[path]]`.

use vstd::prelude::*;
use vstd::slice::{slice_subrange, slice_to_vec};

use crate::links::without_pair;
use crate::markdown::{
    code_spans_are_kept, fence_line, fenced_block_is_kept, fenced_block_is_not_read, is_code,
    keeps_fence, no_fence, non_code_lines, plain_line_is_read, plain_line_is_rewritten, prose,
    rewrite_lines, rewrite_plain_lines, rewrite_segments, ticks, transform_non_inline_code_segments,
    visible_text, LineRewrite, SegmentRewrite,
};
use crate::paths::{
    body_suffix, body_target, find_target_end, opt_chars, path_extension, path_extension_of,
};
use crate::text::{
    ascii_lower_all, chars_eq, find_char, find_from, find_text, from_chars, has_prefix, has_text,
    is_whitespace, lemma_find_behind, lemma_find_from, lemma_find_is, lemma_next_behind,
    lemma_next_char, lemma_next_is, lemma_pair_at, lemma_strs_push, lemma_trim_start,
    lemma_trim_start_is, lines, matches_at, next_char, prefix_of, push_all, raw_lines, starts_with,
    strs, suffix_of, texts, to_ascii_lower_all, to_chars, trim, trim_start, trim_start_of, trimmed,
    whitespace,
};

verus! {

// ---------------------------------------------------------------------------
// Targets
// ---------------------------------------------------------------------------

/// The path is a note's, in any ASCII case of the extension.
pub open spec fn markdown_path(path: Seq<char>) -> bool {
    match path_extension(path) {
        Some(ext) => ascii_lower_all(ext) == "md"@,
        None => false,
    }
}

pub fn is_markdown_path(path: &[char]) -> (r: bool)
    ensures
        r == markdown_path(path@),
{
    match path_extension_of(path) {
        Some(ext) => {
            let lower = to_ascii_lower_all(ext.as_slice());
            let md = to_chars("md");
            chars_eq(lower.as_slice(), md.as_slice())
        },
        None => false,
    }
}

/// The file a reference target names: a relative path with an extension that
/// is not a note's. Web addresses, anchors and absolute paths name none.
pub open spec fn asset_target(target: Seq<char>) -> Option<Seq<char>> {
    let t = trim(target);
    if t.len() == 0 || starts_with(t, "http://"@) || starts_with(t, "https://"@) || t[0] == '#'
        || t[0] == '/' || path_extension(t) is None || markdown_path(t) {
        None
    } else {
        Some(t)
    }
}

pub fn asset_path_from_target(target: &[char]) -> (r: Option<Vec<char>>)
    ensures
        opt_chars(r) == asset_target(target@),
{
    let t = trimmed(target);
    if t.len() == 0 {
        return None;
    }
    let http = to_chars("http://");
    let https = to_chars("https://");
    if has_prefix(t, http.as_slice()) || has_prefix(t, https.as_slice()) || t[0] == '#' || t[0]
        == '/' {
        return None;
    }
    match path_extension_of(t) {
        None => {
            return None;
        },
        Some(_) => {},
    }
    if is_markdown_path(t) {
        return None;
    }
    Some(slice_to_vec(t))
}

/// The first position at or after `i` that holds white space, or the length.
pub open spec fn next_space(s: Seq<char>, i: int) -> int
    decreases s.len() - i,
{
    if i >= s.len() {
        s.len() as int
    } else if whitespace(s[i]) {
        i
    } else {
        next_space(s, i + 1)
    }
}

fn find_space(s: &[char]) -> (r: usize)
    ensures
        r == next_space(s@, 0),
        r <= s@.len(),
{
    let mut i: usize = 0;
    while i < s.len() && !is_whitespace(s[i])
        invariant
            0 <= i <= s@.len(),
            next_space(s@, 0) == next_space(s@, i as int),
        decreases s@.len() - i,
    {
        i = i + 1;
    }
    i
}

/// The first word of a text.
pub open spec fn first_word(s: Seq<char>) -> Seq<char> {
    let t = trim_start(s);
    t.take(next_space(t, 0))
}

proof fn lemma_next_space_is(s: Seq<char>, i: int, p: int)
    requires
        0 <= i <= p <= s.len(),
        forall|k: int| i <= k < p ==> !whitespace(#[trigger] s[k]),
        p < s.len() ==> whitespace(s[p]),
    ensures
        next_space(s, i) == p,
    decreases p - i,
{
    if i < p {
        lemma_next_space_is(s, i + 1, p);
    }
}

/// In parentheses the target is the first word; white space in front of it and what
/// follows it are kept when it is replaced.
pub proof fn target_in_parentheses_is_the_first_word(
    blank: Seq<char>,
    word: Seq<char>,
    rest: Seq<char>,
    f: spec_fn(Seq<char>) -> Seq<char>,
)
    requires
        forall|k: int| 0 <= k < blank.len() ==> whitespace(#[trigger] blank[k]),
        word.len() > 0,
        forall|k: int| 0 <= k < word.len() ==> !whitespace(#[trigger] word[k]),
        rest.len() > 0 ==> whitespace(rest[0]),
    ensures
        first_word(blank + word + rest) == word,
        link_asset_body(blank + word + rest, f) == (match asset_target(word) {
            Some(asset) => blank + f(asset) + rest,
            None => blank + word + rest,
        }),
{
    let body = blank + word + rest;
    let n = blank.len() as int;
    assert(body[n] == word[0]);
    lemma_trim_start_is(body, n);
    let t = body.skip(n);
    assert(t =~= word + rest);
    assert forall|k: int| 0 <= k < word.len() implies !whitespace(#[trigger] t[k]) by {
        assert(t[k] == word[k]);
    }
    assert(rest.len() > 0 ==> t[word.len() as int] == rest[0]);
    lemma_next_space_is(t, 0, word.len() as int);
    assert(t.take(word.len() as int) =~= word);
    assert(t.skip(word.len() as int) =~= rest);
    assert(body.take(body.len() - t.len()) =~= blank);
}

/// A reference names a file if it is a relative path with an extension that is not a
/// note's: not empty, no web address, no anchor and no absolute path.
pub proof fn files_are_named_by_relative_paths(target: Seq<char>)
    ensures
        ({
            let t = trim(target);
            asset_target(target) == (if t.len() > 0 && !starts_with(t, "http://"@) && !starts_with(
                t,
                "https://"@,
            ) && t[0] != '#' && t[0] != '/' && path_extension(t) is Some && ascii_lower_all(
                path_extension(t)->0,
            ) != "md"@ {
                Some(t)
            } else {
                None
            })
        }),
{
}

// ---------------------------------------------------------------------------
// Reading references
// ---------------------------------------------------------------------------

/// The references in brackets and parentheses from `i` on, in order.
pub open spec fn link_assets_from(s: Seq<char>, i: int) -> Seq<Seq<char>>
    decreases s.len() - i via link_assets_from_decreases
{
    let start = find_from(s, i, seq![']', '(']);
    if i < 0 || start == -1 {
        seq![]
    } else {
        let end = next_char(s, start + 2, ')');
        if end >= s.len() {
            seq![]
        } else {
            let rest = link_assets_from(s, end + 1);
            match asset_target(first_word(s.subrange(start + 2, end))) {
                Some(asset) => seq![asset] + rest,
                None => rest,
            }
        }
    }
}

#[via_fn]
proof fn link_assets_from_decreases(s: Seq<char>, i: int) {
    if i >= 0 {
        lemma_find_from(s, i, seq![']', '(']);
        let start = find_from(s, i, seq![']', '(']);
        if start != -1 {
            lemma_next_char(s, start + 2, ')');
        }
    }
}

fn extract_markdown_assets(line: &[char], assets: &mut Vec<String>)
    ensures
        strs(final(assets)@) == strs(old(assets)@) + link_assets_from(line@, 0),
{
    let ghost first = strs(assets@);
    let mut open: Vec<char> = Vec::new();
    open.push(']');
    open.push('(');
    assert(open@ =~= seq![']', '(']);
    let mut i: usize = 0;
    loop
        invariant
            0 <= i <= line@.len(),
            open@ == seq![']', '('],
            first == strs(old(assets)@),
            first + link_assets_from(line@, 0) =~= strs(assets@) + link_assets_from(
                line@,
                i as int,
            ),
        decreases line@.len() - i,
    {
        match find_text(line, i, open.as_slice()) {
            None => {
                assert(strs(assets@) =~= first + link_assets_from(line@, 0));
                return;
            },
            Some(start) => {
                proof {
                    lemma_next_char(line@, start + 2, ')');
                }
                let end: usize = find_char(line, start + 2, ')');
                if end >= line.len() {
                    assert(strs(assets@) =~= first + link_assets_from(line@, 0));
                    return;
                }
                let ghost was = assets@;
                let body = slice_subrange(line, start + 2, end);
                let rest = trim_start_of(body);
                let cut: usize = find_space(rest);
                match asset_path_from_target(prefix_of(rest, cut)) {
                    Some(asset) => {
                        let text = from_chars(asset.as_slice());
                        proof {
                            lemma_strs_push(assets@, text);
                        }
                        assets.push(text);
                    },
                    None => {},
                }
                assert(strs(assets@) + link_assets_from(line@, end + 1) =~= strs(was)
                    + link_assets_from(line@, i as int));
                i = end + 1;
            },
        }
    }
}

/// The references in double brackets from `i` on, in order.
pub open spec fn wiki_assets_from(s: Seq<char>, i: int) -> Seq<Seq<char>>
    decreases s.len() - i via wiki_assets_from_decreases
{
    let start = find_from(s, i, seq!['[', '[']);
    if i < 0 || start == -1 {
        seq![]
    } else {
        let end = find_from(s, start + 2, seq![']', ']']);
        if end == -1 {
            seq![]
        } else {
            let rest = wiki_assets_from(s, end + 2);
            match asset_target(body_target(s.subrange(start + 2, end), false)) {
                Some(asset) => seq![asset] + rest,
                None => rest,
            }
        }
    }
}

#[via_fn]
proof fn wiki_assets_from_decreases(s: Seq<char>, i: int) {
    if i >= 0 {
        lemma_find_from(s, i, seq!['[', '[']);
        let start = find_from(s, i, seq!['[', '[']);
        if start != -1 {
            lemma_find_from(s, start + 2, seq![']', ']']);
        }
    }
}

fn extract_wiki_assets(line: &[char], assets: &mut Vec<String>)
    ensures
        strs(final(assets)@) == strs(old(assets)@) + wiki_assets_from(line@, 0),
{
    let ghost first = strs(assets@);
    let mut open: Vec<char> = Vec::new();
    open.push('[');
    open.push('[');
    assert(open@ =~= seq!['[', '[']);
    let mut close: Vec<char> = Vec::new();
    close.push(']');
    close.push(']');
    assert(close@ =~= seq![']', ']']);
    let mut i: usize = 0;
    loop
        invariant
            0 <= i <= line@.len(),
            open@ == seq!['[', '['],
            close@ == seq![']', ']'],
            first == strs(old(assets)@),
            first + wiki_assets_from(line@, 0) =~= strs(assets@) + wiki_assets_from(
                line@,
                i as int,
            ),
        decreases line@.len() - i,
    {
        match find_text(line, i, open.as_slice()) {
            None => {
                assert(strs(assets@) =~= first + wiki_assets_from(line@, 0));
                return;
            },
            Some(start) => {
                match find_text(line, start + 2, close.as_slice()) {
                    None => {
                        assert(strs(assets@) =~= first + wiki_assets_from(line@, 0));
                        return;
                    },
                    Some(end) => {
                        let ghost was = assets@;
                        let body = slice_subrange(line, start + 2, end);
                        let cut: usize = find_target_end(body, false);
                        match asset_path_from_target(trimmed(prefix_of(body, cut))) {
                            Some(asset) => {
                                let text = from_chars(asset.as_slice());
                                proof {
                                    lemma_strs_push(assets@, text);
                                }
                                assets.push(text);
                            },
                            None => {},
                        }
                        assert(strs(assets@) + wiki_assets_from(line@, end + 2) =~= strs(was)
                            + wiki_assets_from(line@, i as int));
                        i = end + 2;
                    },
                }
            },
        }
    }
}

proof fn lemma_link_assets_behind(a: Seq<char>, b: Seq<char>, k: int)
    requires
        0 <= k <= b.len(),
    ensures
        link_assets_from(a + b, a.len() + k) == link_assets_from(b, k),
    decreases b.len() - k,
{
    let s = a + b;
    let open = seq![']', '('];
    lemma_find_behind(a, b, k, open);
    lemma_find_from(b, k, open);
    let start = find_from(b, k, open);
    if start != -1 {
        lemma_next_behind(a, b, start + 2, ')');
        lemma_next_char(b, start + 2, ')');
        let end = next_char(b, start + 2, ')');
        if end < b.len() {
            lemma_link_assets_behind(a, b, end + 1);
            assert(s.subrange(a.len() + start + 2, a.len() + end) =~= b.subrange(start + 2, end));
        }
    }
}

proof fn lemma_wiki_assets_behind(a: Seq<char>, b: Seq<char>, k: int)
    requires
        0 <= k <= b.len(),
    ensures
        wiki_assets_from(a + b, a.len() + k) == wiki_assets_from(b, k),
    decreases b.len() - k,
{
    let s = a + b;
    let open = seq!['[', '['];
    let close = seq![']', ']'];
    lemma_find_behind(a, b, k, open);
    lemma_find_from(b, k, open);
    let start = find_from(b, k, open);
    if start != -1 {
        lemma_find_behind(a, b, start + 2, close);
        lemma_find_from(b, start + 2, close);
        let end = find_from(b, start + 2, close);
        if end != -1 {
            lemma_wiki_assets_behind(a, b, end + 2);
            assert(s.subrange(a.len() + start + 2, a.len() + end) =~= b.subrange(start + 2, end));
        }
    }
}

/// The first reference in parentheses of a text stands between `a` and `b`: its opening is
/// the first, and it runs to the next closing parenthesis.
pub open spec fn first_link(a: Seq<char>, body: Seq<char>, b: Seq<char>) -> bool {
    let open = seq![']', '('];
    &&& !body.contains(')')
    &&& forall|k: int|
        0 <= k < a.len() ==> !#[trigger] matches_at(a + open + body + seq![')'] + b, k, open)
}

proof fn lemma_first_link(a: Seq<char>, body: Seq<char>, b: Seq<char>)
    requires
        first_link(a, body, b),
    ensures
        ({
            let s = a + seq![']', '('] + body + seq![')'] + b;
            let n = a.len() as int;
            let end = n + 2 + body.len();
            &&& find_from(s, 0, seq![']', '(']) == a.len()
            &&& next_char(s, n + 2, ')') == end
            &&& s.subrange(n + 2, end) == body
            &&& s.subrange(0, n + 2) == a + seq![']', '(']
            &&& end < s.len()
        }),
{
    let open = seq![']', '('];
    let s = a + open + body + seq![')'] + b;
    let n = a.len() as int;
    let end = n + 2 + body.len();
    assert(s.subrange(n, n + 2) =~= open);
    lemma_find_is(s, 0, n, open);
    assert forall|k: int| n + 2 <= k < end implies s[k] != ')' by {
        assert(body.contains(body[k - n - 2]));
    }
    lemma_next_is(s, n + 2, end, ')');
    assert(s.subrange(n + 2, end) =~= body);
    assert(s.subrange(0, n + 2) =~= a + open);
}

/// The first reference in double brackets of a text stands between `a` and `b`.
pub open spec fn first_wiki(a: Seq<char>, body: Seq<char>, b: Seq<char>) -> bool {
    without_pair(a.push('['), '[') && without_pair(body.push(']'), ']')
}

proof fn lemma_first_wiki(a: Seq<char>, body: Seq<char>, b: Seq<char>)
    requires
        first_wiki(a, body, b),
    ensures
        ({
            let s = a + seq!['[', '['] + body + seq![']', ']'] + b;
            let n = a.len() as int;
            let end = n + 2 + body.len();
            &&& find_from(s, 0, seq!['[', '[']) == a.len()
            &&& find_from(s, n + 2, seq![']', ']']) == end
            &&& s.subrange(n + 2, end) == body
            &&& s.subrange(0, n + 2) == a + seq!['[', '[']
            &&& end + 2 <= s.len()
        }),
{
    let open = seq!['[', '['];
    let close = seq![']', ']'];
    let s = a + open + body + close + b;
    let n = a.len() as int;
    let end = n + 2 + body.len();
    assert forall|k: int| 0 <= k < n implies !#[trigger] matches_at(s, k, open) by {
        lemma_pair_at(s, k, '[', '[');
        assert(a.push('[')[k] == s[k]);
        assert(a.push('[')[k + 1] == s[k + 1]);
    }
    lemma_pair_at(s, n, '[', '[');
    lemma_find_is(s, 0, n, open);
    assert forall|k: int| n + 2 <= k < end implies !#[trigger] matches_at(s, k, close) by {
        lemma_pair_at(s, k, ']', ']');
        let x = k - n - 2;
        assert(body.push(']')[x] == s[k]);
        assert(body.push(']')[x + 1] == s[k + 1]);
    }
    lemma_pair_at(s, end, ']', ']');
    lemma_find_is(s, n + 2, end, close);
    assert(s.subrange(n + 2, end) =~= body);
    assert(s.subrange(0, n + 2) =~= a + open);
}

/// References are read one after the other: the first names the file of its target, if it
/// names one, and what follows it is read on its own.
pub proof fn references_are_read_one_after_the_other(a: Seq<char>, body: Seq<char>, b: Seq<char>)
    ensures
        first_link(a, body, b) ==> link_assets_from(a + seq![']', '('] + body + seq![')'] + b, 0) == (
        match asset_target(first_word(body)) {
            Some(asset) => seq![asset],
            None => seq![],
        }) + link_assets_from(b, 0),
        first_wiki(a, body, b) ==> wiki_assets_from(a + seq!['[', '['] + body + seq![']', ']'] + b, 0)
            == (match asset_target(body_target(body, false)) {
            Some(asset) => seq![asset],
            None => seq![],
        }) + wiki_assets_from(b, 0),
        !has_text(a, seq![']', '(']) ==> link_assets_from(a, 0) == Seq::<Seq<char>>::empty(),
        !has_text(a, seq!['[', '[']) ==> wiki_assets_from(a, 0) == Seq::<Seq<char>>::empty(),
{
    if first_link(a, body, b) {
        let front = a + seq![']', '('] + body + seq![')'];
        lemma_first_link(a, body, b);
        lemma_link_assets_behind(front, b, 0);
        assert(seq![] + link_assets_from(b, 0) =~= link_assets_from(b, 0));
    }
    if first_wiki(a, body, b) {
        let front = a + seq!['[', '['] + body + seq![']', ']'];
        lemma_first_wiki(a, body, b);
        lemma_wiki_assets_behind(front, b, 0);
        assert(seq![] + wiki_assets_from(b, 0) =~= wiki_assets_from(b, 0));
    }
    lemma_find_from(a, 0, seq![']', '(']);
    lemma_find_from(a, 0, seq!['[', '[']);
}

/// The references of a line: first those in parentheses, then those in double
/// brackets.
pub open spec fn line_assets(line: Seq<char>) -> Seq<Seq<char>> {
    link_assets_from(line, 0) + wiki_assets_from(line, 0)
}

/// The references of the lines from `i` on.
pub open spec fn assets_from(all: Seq<Seq<char>>, i: int) -> Seq<Seq<char>>
    decreases all.len() - i,
{
    if i < 0 || i >= all.len() {
        seq![]
    } else {
        line_assets(all[i]) + assets_from(all, i + 1)
    }
}

/// The files a note's body refers to, outside code, in order.
pub open spec fn asset_references(content: Seq<char>) -> Seq<Seq<char>> {
    assets_from(prose(content), 0)
}

proof fn lemma_assets_behind(a: Seq<Seq<char>>, b: Seq<Seq<char>>, k: int)
    requires
        0 <= k <= b.len(),
    ensures
        assets_from(a + b, a.len() + k) == assets_from(b, k),
    decreases b.len() - k,
{
    if k < b.len() {
        assert((a + b)[a.len() + k] == b[k]);
        lemma_assets_behind(a, b, k + 1);
    }
}

/// The references of a text are read line by line: of a line that is no fence, without its
/// code spans, first those in parentheses and then those in double brackets.
pub proof fn references_are_read_line_by_line(line: Seq<char>, rest: Seq<char>)
    requires
        !line.contains('\n'),
        line.len() > 0 ==> line.last() != '\r',
        no_fence(line),
    ensures
        asset_references(line.push('\n') + rest) == link_assets_from(visible_text(line), 0)
            + wiki_assets_from(visible_text(line), 0) + asset_references(rest),
        line.len() > 0 ==> asset_references(line) == link_assets_from(visible_text(line), 0)
            + wiki_assets_from(visible_text(line), 0),
        asset_references(seq![]) == Seq::<Seq<char>>::empty(),
{
    plain_line_is_read(line, rest);
    let one = seq![visible_text(line)];
    lemma_assets_behind(one, prose(rest), 0);
    if line.len() > 0 {
        assert(assets_from(one, 1) =~= seq![]);
        assert(asset_references(line) =~= line_assets(visible_text(line)));
    }
}

/// No reference is read in a fenced block, and what follows it is read on its own.
pub proof fn no_references_are_read_in_fenced_blocks(
    open: Seq<char>,
    inner: Seq<char>,
    close: Seq<char>,
    rest: Seq<char>,
    k: int,
    l: int,
    c: char,
    n: nat,
    m: nat,
)
    requires
        !open.contains('\n'),
        !close.contains('\n'),
        open.last() != '\r',
        close.last() != '\r',
        fence_line(open, k, c, n),
        fence_line(close, l, c, m),
        n <= m,
        inner.len() > 0 ==> inner.last() == '\n',
        forall|j: int, x: int, y: nat|
            0 <= j < lines(inner).len() && n <= y ==> !#[trigger] fence_line(
                lines(inner)[j],
                x,
                c,
                y,
            ),
    ensures
        asset_references(open.push('\n') + inner + close.push('\n') + rest) == asset_references(rest),
        asset_references(open.push('\n') + inner) == Seq::<Seq<char>>::empty(),
{
    fenced_block_is_not_read(open, inner, close, rest, k, l, c, n, m);
}

pub fn referenced_assets(content: &str) -> (r: Vec<String>)
    ensures
        strs(r@) == asset_references(content@),
{
    let chars = to_chars(content);
    let all = non_code_lines(chars.as_slice());
    let ghost views = prose(content@);
    let mut out: Vec<String> = Vec::new();
    let mut i: usize = 0;
    assert(strs(out@) + assets_from(views, 0) =~= asset_references(content@));
    while i < all.len()
        invariant
            0 <= i <= all@.len(),
            texts(all@) == views,
            asset_references(content@) == strs(out@) + assets_from(views, i as int),
        decreases all@.len() - i,
    {
        let ghost was = strs(out@);
        extract_markdown_assets(all[i].as_slice(), &mut out);
        extract_wiki_assets(all[i].as_slice(), &mut out);
        assert(texts(all@)[i as int] == all@[i as int]@);
        assert(strs(out@) + assets_from(views, i + 1) =~= was + assets_from(views, i as int));
        i = i + 1;
    }
    assert(strs(out@) =~= asset_references(content@));
    out
}

// ---------------------------------------------------------------------------
// Rewriting references
// ---------------------------------------------------------------------------

/// A new target for every referenced file.
pub trait AssetRetarget {
    spec fn asset_image(&self) -> spec_fn(Seq<char>) -> Seq<char>;

    fn retarget_asset(&self, target: &[char]) -> (r: Vec<char>)
        ensures
            r@ == self.asset_image()(target@),
    ;
}

/// The inside of the parentheses with its target replaced; white space before
/// it and a title behind it stay.
pub open spec fn link_asset_body(body: Seq<char>, f: spec_fn(Seq<char>) -> Seq<char>) -> Seq<char> {
    let t = trim_start(body);
    let n = next_space(t, 0);
    match asset_target(t.take(n)) {
        Some(asset) => body.take(body.len() - t.len()) + f(asset) + t.skip(n),
        None => body,
    }
}

fn transform_markdown_asset_body<T: AssetRetarget>(body: &[char], t: &T) -> (r: Vec<char>)
    ensures
        r@ == link_asset_body(body@, t.asset_image()),
{
    let rest = trim_start_of(body);
    proof {
        lemma_trim_start(body@);
    }
    let n: usize = find_space(rest);
    match asset_path_from_target(prefix_of(rest, n)) {
        None => slice_to_vec(body),
        Some(asset) => {
            let mut out = slice_to_vec(prefix_of(body, body.len() - rest.len()));
            let target = t.retarget_asset(asset.as_slice());
            push_all(&mut out, target.as_slice());
            push_all(&mut out, suffix_of(rest, n));
            out
        },
    }
}

/// The text from `i` on with the references in parentheses rewritten.
pub open spec fn link_refs_from(s: Seq<char>, i: int, f: spec_fn(Seq<char>) -> Seq<char>) -> Seq<char>
    decreases s.len() - i via link_refs_from_decreases
{
    let start = find_from(s, i, seq![']', '(']);
    if i < 0 || i > s.len() {
        seq![]
    } else if start == -1 || next_char(s, start + 2, ')') >= s.len() {
        s.skip(i)
    } else {
        let end = next_char(s, start + 2, ')');
        s.subrange(i, start + 2) + link_asset_body(s.subrange(start + 2, end), f) + seq![')']
            + link_refs_from(s, end + 1, f)
    }
}

#[via_fn]
proof fn link_refs_from_decreases(s: Seq<char>, i: int, f: spec_fn(Seq<char>) -> Seq<char>) {
    if i >= 0 {
        lemma_find_from(s, i, seq![']', '(']);
        let start = find_from(s, i, seq![']', '(']);
        if start != -1 {
            lemma_next_char(s, start + 2, ')');
        }
    }
}

fn transform_markdown_asset_references_in_line<T: AssetRetarget>(s: &[char], t: &T) -> (r: Vec<char>)
    ensures
        r@ == link_refs_from(s@, 0, t.asset_image()),
{
    let ghost f = t.asset_image();
    let mut open: Vec<char> = Vec::new();
    open.push(']');
    open.push('(');
    assert(open@ =~= seq![']', '(']);
    let mut out: Vec<char> = Vec::new();
    let mut i: usize = 0;
    assert(out@ + link_refs_from(s@, 0, f) =~= link_refs_from(s@, 0, f));
    loop
        invariant
            0 <= i <= s@.len(),
            f == t.asset_image(),
            open@ == seq![']', '('],
            link_refs_from(s@, 0, f) == out@ + link_refs_from(s@, i as int, f),
        decreases s@.len() - i,
    {
        match find_text(s, i, open.as_slice()) {
            None => {
                push_all(&mut out, suffix_of(s, i));
                return out;
            },
            Some(start) => {
                proof {
                    lemma_next_char(s@, start + 2, ')');
                }
                let end: usize = find_char(s, start + 2, ')');
                if end >= s.len() {
                    push_all(&mut out, suffix_of(s, i));
                    return out;
                }
                let ghost was = out@;
                push_all(&mut out, slice_subrange(s, i, start + 2));
                let body = transform_markdown_asset_body(slice_subrange(s, start + 2, end), t);
                push_all(&mut out, body.as_slice());
                out.push(')');
                proof {
                    let rest = link_refs_from(s@, end + 1, f);
                    assert(out@ + rest =~= was + (s@.subrange(i as int, start + 2)
                        + link_asset_body(s@.subrange(start + 2, end as int), f) + seq![')'] + rest));
                }
                i = end + 1;
            },
        }
    }
}

/// The inside of the double brackets with its target replaced.
pub open spec fn wiki_asset_body(body: Seq<char>, f: spec_fn(Seq<char>) -> Seq<char>) -> Seq<char> {
    match asset_target(body_target(body, false)) {
        Some(asset) => f(asset) + body_suffix(body, false),
        None => body,
    }
}

fn transform_wiki_asset_body<T: AssetRetarget>(body: &[char], t: &T) -> (r: Vec<char>)
    ensures
        r@ == wiki_asset_body(body@, t.asset_image()),
{
    let end: usize = find_target_end(body, false);
    match asset_path_from_target(trimmed(prefix_of(body, end))) {
        None => slice_to_vec(body),
        Some(asset) => {
            let mut out = t.retarget_asset(asset.as_slice());
            push_all(&mut out, suffix_of(body, end));
            out
        },
    }
}

/// The text from `i` on with the references in double brackets rewritten.
pub open spec fn wiki_refs_from(s: Seq<char>, i: int, f: spec_fn(Seq<char>) -> Seq<char>) -> Seq<char>
    decreases s.len() - i via wiki_refs_from_decreases
{
    let start = find_from(s, i, seq!['[', '[']);
    if i < 0 || i > s.len() {
        seq![]
    } else if start == -1 || find_from(s, start + 2, seq![']', ']']) == -1 {
        s.skip(i)
    } else {
        let end = find_from(s, start + 2, seq![']', ']']);
        s.subrange(i, start + 2) + wiki_asset_body(s.subrange(start + 2, end), f) + seq![']', ']']
            + wiki_refs_from(s, end + 2, f)
    }
}

#[via_fn]
proof fn wiki_refs_from_decreases(s: Seq<char>, i: int, f: spec_fn(Seq<char>) -> Seq<char>) {
    if i >= 0 {
        lemma_find_from(s, i, seq!['[', '[']);
        let start = find_from(s, i, seq!['[', '[']);
        if start != -1 {
            lemma_find_from(s, start + 2, seq![']', ']']);
        }
    }
}

fn transform_wiki_asset_references_in_line<T: AssetRetarget>(s: &[char], t: &T) -> (r: Vec<char>)
    ensures
        r@ == wiki_refs_from(s@, 0, t.asset_image()),
{
    let ghost f = t.asset_image();
    let mut open: Vec<char> = Vec::new();
    open.push('[');
    open.push('[');
    assert(open@ =~= seq!['[', '[']);
    let mut close: Vec<char> = Vec::new();
    close.push(']');
    close.push(']');
    assert(close@ =~= seq![']', ']']);
    let mut out: Vec<char> = Vec::new();
    let mut i: usize = 0;
    assert(out@ + wiki_refs_from(s@, 0, f) =~= wiki_refs_from(s@, 0, f));
    loop
        invariant
            0 <= i <= s@.len(),
            f == t.asset_image(),
            open@ == seq!['[', '['],
            close@ == seq![']', ']'],
            wiki_refs_from(s@, 0, f) == out@ + wiki_refs_from(s@, i as int, f),
        decreases s@.len() - i,
    {
        match find_text(s, i, open.as_slice()) {
            None => {
                push_all(&mut out, suffix_of(s, i));
                return out;
            },
            Some(start) => {
                match find_text(s, start + 2, close.as_slice()) {
                    None => {
                        push_all(&mut out, suffix_of(s, i));
                        return out;
                    },
                    Some(end) => {
                        let ghost was = out@;
                        push_all(&mut out, slice_subrange(s, i, start + 2));
                        let body = transform_wiki_asset_body(
                            slice_subrange(s, start + 2, end),
                            t,
                        );
                        push_all(&mut out, body.as_slice());
                        push_all(&mut out, close.as_slice());
                        proof {
                            let rest = wiki_refs_from(s@, end + 2, f);
                            assert(out@ + rest =~= was + (s@.subrange(i as int, start + 2)
                                + wiki_asset_body(s@.subrange(start + 2, end as int), f) + seq![
                                ']',
                                ']',
                            ] + rest));
                        }
                        i = end + 2;
                    },
                }
            },
        }
    }
}

/// A stretch of text with its references rewritten, those in parentheses
/// first.
pub open spec fn refs_segment(s: Seq<char>, f: spec_fn(Seq<char>) -> Seq<char>) -> Seq<char> {
    wiki_refs_from(link_refs_from(s, 0, f), 0, f)
}

/// A line with its references rewritten, outside code spans.
pub open spec fn refs_line(line: Seq<char>, f: spec_fn(Seq<char>) -> Seq<char>) -> Seq<char> {
    rewrite_segments(line, |s: Seq<char>| refs_segment(s, f))
}

/// A text with its references rewritten, outside code.
pub open spec fn refs_text(content: Seq<char>, f: spec_fn(Seq<char>) -> Seq<char>) -> Seq<char> {
    rewrite_lines(content, |line: Seq<char>| refs_line(line, f))
}

proof fn lemma_link_refs_behind(
    a: Seq<char>,
    b: Seq<char>,
    k: int,
    f: spec_fn(Seq<char>) -> Seq<char>,
)
    requires
        0 <= k <= b.len(),
    ensures
        link_refs_from(a + b, a.len() + k, f) == link_refs_from(b, k, f),
    decreases b.len() - k,
{
    let s = a + b;
    let open = seq![']', '('];
    lemma_find_behind(a, b, k, open);
    lemma_find_from(b, k, open);
    let start = find_from(b, k, open);
    assert(s.skip(a.len() + k) =~= b.skip(k));
    if start != -1 {
        lemma_next_behind(a, b, start + 2, ')');
        lemma_next_char(b, start + 2, ')');
        let end = next_char(b, start + 2, ')');
        if end < b.len() {
            lemma_link_refs_behind(a, b, end + 1, f);
            assert(s.subrange(a.len() + start + 2, a.len() + end) =~= b.subrange(start + 2, end));
            assert(s.subrange(a.len() + k, a.len() + start + 2) =~= b.subrange(k, start + 2));
        }
    }
}

proof fn lemma_wiki_refs_behind(
    a: Seq<char>,
    b: Seq<char>,
    k: int,
    f: spec_fn(Seq<char>) -> Seq<char>,
)
    requires
        0 <= k <= b.len(),
    ensures
        wiki_refs_from(a + b, a.len() + k, f) == wiki_refs_from(b, k, f),
    decreases b.len() - k,
{
    let s = a + b;
    let open = seq!['[', '['];
    let close = seq![']', ']'];
    lemma_find_behind(a, b, k, open);
    lemma_find_from(b, k, open);
    let start = find_from(b, k, open);
    assert(s.skip(a.len() + k) =~= b.skip(k));
    if start != -1 {
        lemma_find_behind(a, b, start + 2, close);
        lemma_find_from(b, start + 2, close);
        let end = find_from(b, start + 2, close);
        if end != -1 {
            lemma_wiki_refs_behind(a, b, end + 2, f);
            assert(s.subrange(a.len() + start + 2, a.len() + end) =~= b.subrange(start + 2, end));
            assert(s.subrange(a.len() + k, a.len() + start + 2) =~= b.subrange(k, start + 2));
        }
    }
}

/// References are rewritten one after the other: the target of the first is replaced, if it
/// names a file, what is around it is kept, and what follows it is rewritten on its own. A
/// text without references is kept.
pub proof fn references_are_rewritten_one_after_the_other(
    a: Seq<char>,
    body: Seq<char>,
    b: Seq<char>,
    f: spec_fn(Seq<char>) -> Seq<char>,
)
    ensures
        first_link(a, body, b) ==> link_refs_from(a + seq![']', '('] + body + seq![')'] + b, 0, f) == a
            + seq![']', '('] + link_asset_body(body, f) + seq![')'] + link_refs_from(b, 0, f),
        first_wiki(a, body, b) ==> wiki_refs_from(
            a + seq!['[', '['] + body + seq![']', ']'] + b,
            0,
            f,
        ) == a + seq!['[', '['] + (match asset_target(body_target(body, false)) {
            Some(asset) => f(asset) + body_suffix(body, false),
            None => body,
        }) + seq![']', ']'] + wiki_refs_from(b, 0, f),
        !has_text(a, seq![']', '(']) ==> link_refs_from(a, 0, f) == a,
        !has_text(a, seq!['[', '[']) ==> wiki_refs_from(a, 0, f) == a,
{
    if first_link(a, body, b) {
        lemma_first_link(a, body, b);
        lemma_link_refs_behind(a + seq![']', '('] + body + seq![')'], b, 0, f);
    }
    if first_wiki(a, body, b) {
        lemma_first_wiki(a, body, b);
        lemma_wiki_refs_behind(a + seq!['[', '['] + body + seq![']', ']'], b, 0, f);
    }
    lemma_find_from(a, 0, seq![']', '(']);
    lemma_find_from(a, 0, seq!['[', '[']);
    assert(a.skip(0) =~= a);
}

/// References are rewritten around code spans, which are kept, and line by line outside
/// fenced blocks.
pub proof fn references_are_rewritten_outside_code(
    head: Seq<char>,
    n: nat,
    code: Seq<char>,
    tail: Seq<char>,
    line: Seq<char>,
    rest: Seq<char>,
    f: spec_fn(Seq<char>) -> Seq<char>,
)
    requires
        !head.contains('`'),
        is_code(code, n),
        tail.len() > 0 ==> tail[0] != '`',
        !line.contains('\n'),
        no_fence(line),
    ensures
        refs_line(head + ticks(n) + code + ticks(n) + tail, f) == refs_line(head, f) + ticks(n) + code
            + ticks(n) + refs_line(tail, f),
        refs_line(head + ticks(n) + code, f) == refs_line(head, f) + ticks(n) + code,
        head.len() > 0 ==> refs_line(head, f) == wiki_refs_from(link_refs_from(head, 0, f), 0, f),
        refs_text(line.push('\n') + rest, f) == refs_line(line, f) + seq!['\n'] + refs_text(rest, f),
        line.len() > 0 ==> refs_text(line, f) == refs_line(line, f),
{
    code_spans_are_kept(head, n, code, tail, |s: Seq<char>| refs_segment(s, f));
    plain_line_is_rewritten(line, rest, |line: Seq<char>| refs_line(line, f));
}

/// A fenced block is kept with all its references, and what follows it is rewritten on its
/// own.
pub proof fn references_in_fenced_blocks_are_kept(
    open: Seq<char>,
    inner: Seq<char>,
    close: Seq<char>,
    rest: Seq<char>,
    k: int,
    l: int,
    c: char,
    n: nat,
    m: nat,
    f: spec_fn(Seq<char>) -> Seq<char>,
)
    requires
        !open.contains('\n'),
        !close.contains('\n'),
        fence_line(open, k, c, n),
        fence_line(close, l, c, m),
        n <= m,
        inner.len() > 0 ==> inner.last() == '\n',
        keeps_fence(raw_lines(inner), c, n),
    ensures
        refs_text(open.push('\n') + inner + close.push('\n') + rest, f) == open.push('\n') + inner
            + close.push('\n') + refs_text(rest, f),
        refs_text(open.push('\n') + inner, f) == open.push('\n') + inner,
{
    fenced_block_is_kept(
        open,
        inner,
        close,
        rest,
        k,
        l,
        c,
        n,
        m,
        |line: Seq<char>| refs_line(line, f),
    );
}

struct RefSegments<'a, T> {
    inner: &'a T,
}

impl<'a, T: AssetRetarget> SegmentRewrite for RefSegments<'a, T> {
    closed spec fn segment_image(&self) -> spec_fn(Seq<char>) -> Seq<char> {
        |s: Seq<char>| refs_segment(s, self.inner.asset_image())
    }

    fn rewrite_segment(&self, segment: &[char]) -> (r: Vec<char>) {
        let linked = transform_markdown_asset_references_in_line(segment, self.inner);
        transform_wiki_asset_references_in_line(linked.as_slice(), self.inner)
    }
}

impl<'a, T: AssetRetarget> LineRewrite for RefSegments<'a, T> {
    closed spec fn image(&self) -> spec_fn(Seq<char>) -> Seq<char> {
        |line: Seq<char>| refs_line(line, self.inner.asset_image())
    }

    fn rewrite_line(&self, line: &[char]) -> (r: Vec<char>) {
        transform_non_inline_code_segments(line, self)
    }
}

pub fn transform_asset_references<T: AssetRetarget>(content: &[char], t: &T) -> (r: Vec<char>)
    ensures
        r@ == refs_text(content@, t.asset_image()),
{
    let lines = RefSegments { inner: t };
    rewrite_plain_lines(content, &lines)
}

} // verus!
