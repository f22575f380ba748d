//! Computing a note's new text: cleaning, replacing, sections, properties.

use vstd::prelude::*;
use vstd::slice::{slice_subrange, slice_to_vec};

use crate::frontmatter::block_mapping;
use crate::frontmatter_edit::{
    edit_frontmatter_block, edited_block, merged_value, merges_to_nothing, value_from, value_of,
    FrontmatterEdit,
};
use crate::layers::pair_views;
use crate::markdown::{
    count_run, fence_after, fence_line, fence_view, fences_are_read, in_fence, keeps_fence,
    lemma_fence_kept, lemma_run_is, lemma_run_len, line_body, no_fence, run_len, step_fence,
};
use crate::text::{
    ascii_white_space, chars_eq, contains_char, contains_text, decimal, find_char, find_from,
    find_text, first_raw_line, from_chars, has_prefix, has_text, is_whitespace, last_raw_line,
    lemma_find_behind, lemma_find_from, lemma_find_is, lemma_next_behind, lemma_next_char,
    lemma_next_is, lemma_strs_push, lemma_trim, lemma_trim_start, lemma_trim_start_is, lines,
    lines_of_two_texts, matches_at, next_char, prefix_of, push_all, push_str, raw_lines,
    split_lines, split_raw_lines, starts_with, str_owned, strs, suffix_of, texts, to_chars,
    to_decimal, trim, trim_end, trim_end_of, trim_start, trim_start_of, trimmed, whitespace,
};
use crate::write_types::{ErrorView, WriteError};

verus! {

// ---------------------------------------------------------------------------
// Cleaning
// ---------------------------------------------------------------------------

/// The text from `i` on with every line ending as a line feed.
pub open spec fn lf_from(s: Seq<char>, i: int) -> Seq<char>
    decreases s.len() - i,
{
    if i < 0 || i >= s.len() {
        seq![]
    } else if s[i] == '\r' {
        if i + 1 < s.len() && s[i + 1] == '\n' {
            seq!['\n'] + lf_from(s, i + 2)
        } else {
            seq!['\n'] + lf_from(s, i + 1)
        }
    } else {
        seq![s[i]] + lf_from(s, i + 1)
    }
}

/// The text with every line ending as a line feed.
pub open spec fn with_lf(s: Seq<char>) -> Seq<char> {
    lf_from(s, 0)
}

fn to_lf(s: &[char]) -> (r: Vec<char>)
    ensures
        r@ == with_lf(s@),
{
    let mut out: Vec<char> = Vec::new();
    let mut i: usize = 0;
    assert(out@ + lf_from(s@, 0) =~= with_lf(s@));
    while i < s.len()
        invariant
            0 <= i <= s@.len(),
            with_lf(s@) == out@ + lf_from(s@, i as int),
        decreases s@.len() - i,
    {
        let ghost was = out@;
        if s[i] == '\r' {
            out.push('\n');
            if s.len() - i > 1 && s[i + 1] == '\n' {
                assert(out@ + lf_from(s@, i + 2) =~= was + lf_from(s@, i as int));
                i = i + 2;
            } else {
                assert(out@ + lf_from(s@, i + 1) =~= was + lf_from(s@, i as int));
                i = i + 1;
            }
        } else {
            out.push(s[i]);
            assert(out@ + lf_from(s@, i + 1) =~= was + lf_from(s@, i as int));
            i = i + 1;
        }
    }
    assert(out@ =~= with_lf(s@));
    out
}

/// Cleaned text holds no carriage return.
pub proof fn cleaned_text_has_no_carriage_return(s: Seq<char>, i: int)
    requires
        0 <= i <= s.len(),
    ensures
        !lf_from(s, i).contains('\r'),
    decreases s.len() - i,
{
    if i < s.len() {
        let rest = if s[i] == '\r' && i + 1 < s.len() && s[i + 1] == '\n' {
            i + 2
        } else {
            i + 1
        };
        cleaned_text_has_no_carriage_return(s, rest);
        let tail = lf_from(s, rest);
        let whole = lf_from(s, i);
        if whole.contains('\r') {
            let k = choose|k: int| 0 <= k < whole.len() && whole[k] == '\r';
            if k > 0 {
                assert(tail[k - 1] == '\r');
            }
        }
    }
}

/// Cleaning a text that holds no carriage return keeps it.
pub proof fn text_without_carriage_return_is_kept(s: Seq<char>, i: int)
    requires
        0 <= i <= s.len(),
        !s.contains('\r'),
    ensures
        lf_from(s, i) == s.skip(i),
    decreases s.len() - i,
{
    if i < s.len() {
        assert(s.contains(s[i]));
        text_without_carriage_return_is_kept(s, i + 1);
        assert(s.skip(i) =~= seq![s[i]] + s.skip(i + 1));
    } else {
        assert(s.skip(i) =~= seq![]);
    }
}

proof fn lemma_lf_behind(a: Seq<char>, b: Seq<char>, k: int)
    requires
        0 <= k <= b.len(),
    ensures
        lf_from(a + b, a.len() + k) == lf_from(b, k),
    decreases b.len() - k,
{
    if k < b.len() {
        assert((a + b)[a.len() + k] == b[k]);
        assert(k + 1 < b.len() ==> (a + b)[a.len() + k + 1] == b[k + 1]);
        lemma_lf_behind(a, b, k + 1);
        if k + 1 < b.len() {
            lemma_lf_behind(a, b, k + 2);
        }
    }
}

proof fn lemma_lf_plain(s: Seq<char>, i: int, to: int)
    requires
        0 <= i <= to <= s.len(),
        forall|k: int| i <= k < to ==> s[k] != '\r',
    ensures
        lf_from(s, i) == s.subrange(i, to) + lf_from(s, to),
    decreases to - i,
{
    if i < to {
        lemma_lf_plain(s, i + 1, to);
        assert(seq![s[i]] + (s.subrange(i + 1, to) + lf_from(s, to)) =~= s.subrange(i, to) + lf_from(
            s,
            to,
        ));
    } else {
        assert(s.subrange(i, to) + lf_from(s, to) =~= lf_from(s, to));
    }
}

/// A carriage return with a line feed behind it, and one without, become a line feed;
/// what stands before and behind is kept and cleaned on its own.
pub proof fn line_endings_become_line_feeds(a: Seq<char>, b: Seq<char>)
    requires
        !a.contains('\r'),
    ensures
        with_lf(a + seq!['\r', '\n'] + b) == a + seq!['\n'] + with_lf(b),
        (b.len() > 0 ==> b[0] != '\n') ==> with_lf(a.push('\r') + b) == a + seq!['\n'] + with_lf(b),
        with_lf(a) == a,
{
    let n = a.len() as int;
    let s = a + seq!['\r', '\n'] + b;
    let u = a.push('\r') + b;
    assert forall|k: int| 0 <= k < n implies s[k] != '\r' && u[k] != '\r' && a[k] != '\r' by {
        assert(a.contains(a[k]));
    }
    lemma_lf_plain(s, 0, n);
    assert(s[n] == '\r' && s[n + 1] == '\n');
    lemma_lf_behind(a + seq!['\r', '\n'], b, 0);
    assert(s.subrange(0, n) =~= a);
    assert(with_lf(s) =~= a + seq!['\n'] + with_lf(b));
    lemma_lf_plain(a, 0, n);
    assert(a.subrange(0, n) + lf_from(a, n) =~= a);
    if b.len() > 0 ==> b[0] != '\n' {
        lemma_lf_plain(u, 0, n);
        assert(u[n] == '\r');
        assert(n + 1 < u.len() ==> u[n + 1] == b[0]);
        lemma_lf_behind(a.push('\r'), b, 0);
        assert(u.subrange(0, n) =~= a);
        assert(with_lf(u) =~= a + seq!['\n'] + with_lf(b));
    }
}

/// The text with a line feed at its end; an empty text stays empty.
pub open spec fn with_final_newline(s: Seq<char>) -> Seq<char> {
    if s.len() > 0 && s.last() != '\n' {
        s.push('\n')
    } else {
        s
    }
}

/// A note's text as it is stored.
pub open spec fn clean_text(s: Seq<char>) -> Seq<char> {
    with_final_newline(with_lf(s))
}

/// A note is stored with line feeds and with one at its end: one is added to a text
/// that is not empty and has none, and nothing else.
pub proof fn stored_text_ends_with_a_line_feed(s: Seq<char>)
    ensures
        with_lf(s).len() == 0 ==> clean_text(s) == with_lf(s),
        with_lf(s).len() > 0 && with_lf(s).last() == '\n' ==> clean_text(s) == with_lf(s),
        with_lf(s).len() > 0 && with_lf(s).last() != '\n' ==> clean_text(s) == with_lf(s) + seq!['\n'],
{
    assert(with_lf(s).push('\n') =~= with_lf(s) + seq!['\n']);
}

/// The part of a line before its first colon, trimmed.
pub open spec fn warned_key(line: Seq<char>) -> Option<Seq<char>> {
    let colon = next_char(line, 0, ':');
    if line.len() == 0 || whitespace(line[0]) || colon >= line.len() {
        None
    } else {
        let key = trim(line.take(colon));
        if key.len() == 0 {
            None
        } else {
            Some(key)
        }
    }
}

/// What is wrong with a block's lines from `i` on, given the keys seen so far:
/// a key that comes again, and a closing marker that never comes.
pub open spec fn block_warnings(all: Seq<Seq<char>>, i: int, seen: Seq<Seq<char>>) -> Seq<Seq<char>>
    decreases all.len() - i,
{
    if i < 0 || i >= all.len() {
        seq!["frontmatter opening marker has no closing marker"@]
    } else if trim(all[i]) == "---"@ {
        seq![]
    } else {
        match warned_key(all[i]) {
            None => block_warnings(all, i + 1, seen),
            Some(key) => if seen.contains(key) {
                seq!["frontmatter has duplicate key: "@ + key] + block_warnings(all, i + 1, seen)
            } else {
                block_warnings(all, i + 1, seen.push(key))
            },
        }
    }
}

/// What is wrong with a note's leading block, if it has one.
pub open spec fn warnings_of(content: Seq<char>) -> Seq<Seq<char>> {
    if starts_with(content, "---\n"@) {
        block_warnings(lines(content.skip(4)), 0, seq![])
    } else {
        seq![]
    }
}

/// A line that starts at the margin names the key before its first colon.
pub proof fn warned_key_precedes_the_colon(name: Seq<char>, rest: Seq<char>)
    requires
        !name.contains(':'),
    ensures
        name.len() > 0 && !whitespace(name[0]) ==> warned_key(name.push(':') + rest) == Some(
            trim(name),
        ),
        name.len() == 0 || whitespace(name[0]) ==> warned_key(name.push(':') + rest) is None,
        warned_key(name) is None,
{
    let line = name.push(':') + rest;
    let n = name.len() as int;
    assert forall|k: int| 0 <= k < n implies line[k] != ':' && name[k] != ':' by {
        assert(name.contains(name[k]));
        assert(line[k] == name[k]);
    }
    lemma_next_is(line, 0, n, ':');
    lemma_next_is(name, 0, n, ':');
    assert(line.take(n) =~= name);
    lemma_trim(name);
    if n > 0 && !whitespace(name[0]) {
        assert(name.contains(name[0]));
        assert(trim(name).contains(name[0]));
    }
}

/// The line names a key that a line before it names too.
pub open spec fn repeats(all: Seq<Seq<char>>, i: int) -> bool {
    &&& 0 <= i < all.len()
    &&& warned_key(all[i]) is Some
    &&& exists|j: int| 0 <= j < i && warned_key(#[trigger] all[j]) == warned_key(all[i])
}

/// A block that ends at the line `n` is warned of once for each line that names a
/// key again, in order, and for nothing else but that no line ends it. The lines
/// warned of are the result.
pub proof fn repeated_keys_are_warned_of(all: Seq<Seq<char>>, n: int) -> (at: Seq<int>)
    requires
        0 <= n <= all.len(),
        forall|i: int| 0 <= i < n ==> trim(#[trigger] all[i]) != "---"@,
        n < all.len() ==> trim(all[n]) == "---"@,
    ensures
        block_warnings(all, 0, seq![]).len() == at.len() + (if n < all.len() {
            0int
        } else {
            1
        }),
        n == all.len() ==> block_warnings(all, 0, seq![]).last()
            == "frontmatter opening marker has no closing marker"@,
        forall|k: int|
            0 <= k < at.len() ==> 0 <= (#[trigger] at[k]) < n && repeats(all, at[k])
                && block_warnings(all, 0, seq![])[k] == "frontmatter has duplicate key: "@
                + warned_key(all[at[k]])->0,
        forall|j: int, k: int| 0 <= j < k < at.len() ==> at[j] < at[k],
        forall|i: int| 0 <= i < n && #[trigger] repeats(all, i) ==> at.contains(i),
{
    lemma_warned_lines(all, 0, n, seq![])
}

#[verifier::rlimit(40)]
proof fn lemma_warned_lines(all: Seq<Seq<char>>, from: int, n: int, seen: Seq<Seq<char>>) -> (at: Seq<
    int,
>)
    requires
        0 <= from <= n <= all.len(),
        forall|i: int| 0 <= i < n ==> trim(#[trigger] all[i]) != "---"@,
        n < all.len() ==> trim(all[n]) == "---"@,
        forall|key: Seq<char>| #[trigger]
            seen.contains(key) <==> exists|j: int|
                0 <= j < from && warned_key(#[trigger] all[j]) == Some(key),
    ensures
        block_warnings(all, from, seen).len() == at.len() + (if n < all.len() {
            0int
        } else {
            1
        }),
        n == all.len() ==> block_warnings(all, from, seen).last()
            == "frontmatter opening marker has no closing marker"@,
        forall|k: int|
            0 <= k < at.len() ==> from <= (#[trigger] at[k]) < n && repeats(all, at[k])
                && block_warnings(all, from, seen)[k] == "frontmatter has duplicate key: "@
                + warned_key(all[at[k]])->0,
        forall|j: int, k: int| 0 <= j < k < at.len() ==> at[j] < at[k],
        forall|i: int| from <= i < n && #[trigger] repeats(all, i) ==> at.contains(i),
    decreases n - from,
{
    if from == n {
        Seq::empty()
    } else {
        let here = warned_key(all[from]);
        let again = here is Some && seen.contains(here->0);
        let now = if here is Some && !again {
            seen.push(here->0)
        } else {
            seen
        };
        assert forall|key: Seq<char>| #[trigger] now.contains(key) <==> exists|j: int|
            0 <= j < from + 1 && warned_key(#[trigger] all[j]) == Some(key) by {
            if now.contains(key) {
                let k = choose|k: int| 0 <= k < now.len() && now[k] == key;
                if k < seen.len() {
                    assert(seen[k] == key);
                    assert(seen.contains(key));
                    let j = choose|j: int|
                        0 <= j < from && warned_key(#[trigger] all[j]) == Some(key);
                    assert(warned_key(all[j]) == Some(key));
                } else {
                    assert(warned_key(all[from]) == Some(key));
                }
            }
            if exists|j: int| 0 <= j < from + 1 && warned_key(#[trigger] all[j]) == Some(key) {
                let j = choose|j: int|
                    0 <= j < from + 1 && warned_key(#[trigger] all[j]) == Some(key);
                if j < from {
                    assert(seen.contains(key));
                    let k = choose|k: int| 0 <= k < seen.len() && seen[k] == key;
                    assert(now[k] == key);
                } else if !again {
                    assert(now[seen.len() as int] == key);
                }
            }
        }
        let rest = lemma_warned_lines(all, from + 1, n, now);
        let later = block_warnings(all, from + 1, now);
        if again {
            let at = seq![from] + rest;
            let whole = block_warnings(all, from, seen);
            assert(repeats(all, from)) by {
                let j = choose|j: int|
                    0 <= j < from && warned_key(#[trigger] all[j]) == Some(here->0);
                assert(warned_key(all[j]) == warned_key(all[from]));
            }
            assert forall|k: int| 0 <= k < at.len() implies from <= (#[trigger] at[k]) < n
                && repeats(all, at[k]) && whole[k] == "frontmatter has duplicate key: "@
                + warned_key(all[at[k]])->0 by {
                if k > 0 {
                    assert(at[k] == rest[k - 1]);
                    assert(whole[k] == later[k - 1]);
                }
            }
            assert forall|i: int| from <= i < n && #[trigger] repeats(all, i) implies at.contains(
                i,
            ) by {
                if i == from {
                    assert(at[0] == i);
                } else {
                    assert(rest.contains(i));
                    let k = choose|k: int| 0 <= k < rest.len() && rest[k] == i;
                    assert(at[k + 1] == i);
                }
            }
            assert(n == all.len() ==> whole.last() == later.last());
            at
        } else {
            assert(!repeats(all, from)) by {
                if repeats(all, from) {
                    let j = choose|j: int|
                        0 <= j < from && warned_key(#[trigger] all[j]) == warned_key(all[from]);
                    assert(seen.contains(here->0));
                }
            }
            rest
        }
    }
}

fn read_warned_key(line: &[char]) -> (r: Option<Vec<char>>)
    ensures
        crate::paths::opt_chars(r) == warned_key(line@),
{
    if line.len() == 0 || is_whitespace(line[0]) {
        return None;
    }
    let colon: usize = find_char(line, 0, ':');
    if colon >= line.len() {
        return None;
    }
    let key = trimmed(prefix_of(line, colon));
    if key.len() == 0 {
        None
    } else {
        Some(slice_to_vec(key))
    }
}

pub fn frontmatter_warnings(content: &[char]) -> (r: Vec<String>)
    ensures
        strs(r@) == warnings_of(content@),
{
    let mut out: Vec<String> = Vec::new();
    let open = to_chars("---\n");
    proof {
        reveal_strlit("---\n");
    }
    if !has_prefix(content, open.as_slice()) {
        assert(strs(out@) =~= seq![]);
        return out;
    }
    let all = split_lines(suffix_of(content, 4));
    let ghost av = lines(content@.skip(4));
    let marker = to_chars("---");
    let mut seen: Vec<String> = Vec::new();
    let mut i: usize = 0;
    assert(strs(seen@) =~= seq![]);
    assert(strs(out@) + block_warnings(av, 0, seq![]) =~= warnings_of(content@));
    while i < all.len()
        invariant
            0 <= i <= all@.len(),
            av == texts(all@),
            marker@ == "---"@,
            warnings_of(content@) == strs(out@) + block_warnings(av, i as int, strs(seen@)),
        decreases all@.len() - i,
    {
        let line = all[i].as_slice();
        assert(av[i as int] == line@);
        if chars_eq(trimmed(line), marker.as_slice()) {
            assert(strs(out@) =~= warnings_of(content@));
            return out;
        }
        match read_warned_key(line) {
            None => {},
            Some(key) => {
                let text = from_chars(key.as_slice());
                if crate::tables::contains_string(&seen, &text) {
                    let mut message = to_chars("frontmatter has duplicate key: ");
                    push_all(&mut message, key.as_slice());
                    let warning = from_chars(message.as_slice());
                    let ghost was = out@;
                    proof {
                        lemma_strs_push(out@, warning);
                    }
                    out.push(warning);
                    assert(strs(out@) + block_warnings(av, i + 1, strs(seen@)) =~= strs(was)
                        + block_warnings(av, i as int, strs(seen@)));
                } else {
                    proof {
                        lemma_strs_push(seen@, text);
                    }
                    seen.push(text);
                }
            },
        }
        i = i + 1;
    }
    let warning = str_owned("frontmatter opening marker has no closing marker");
    proof {
        lemma_strs_push(out@, warning);
    }
    out.push(warning);
    assert(strs(out@) =~= warnings_of(content@));
    out
}

/// What is reported of a note's text when it is stored.
pub open spec fn quality_warnings(s: Seq<char>) -> Seq<Seq<char>> {
    (if with_lf(s) != s {
        seq!["normalized CRLF/CR line endings to LF"@]
    } else {
        seq![]
    }) + (if with_lf(s).len() > 0 && with_lf(s).last() != '\n' {
        seq!["added final newline"@]
    } else {
        seq![]
    }) + warnings_of(clean_text(s))
}

/// A text as it is stored, with what is reported of it.
pub struct PreparedNoteContent {
    pub content: String,
    pub warnings: Vec<String>,
}

/// A note's text as it is stored. NUL bytes are refused.
pub fn prepare_note_content(content: &[char]) -> (r: Result<PreparedNoteContent, WriteError>)
    ensures
        match r {
            Ok(p) => !content@.contains('\0') && p.content@ == clean_text(content@) && strs(
                p.warnings@,
            ) == quality_warnings(content@),
            Err(e) => content@.contains('\0') && e@ == ErrorView::InvalidInput(
                "note content cannot contain NUL bytes"@,
            ),
        },
{
    if contains_char(content, '\0') {
        return Err(
            WriteError::InvalidInput(str_owned("note content cannot contain NUL bytes")),
        );
    }
    let mut warnings: Vec<String> = Vec::new();
    let mut text = to_lf(content);
    assert(strs(warnings@) =~= seq![]);
    if !chars_eq(text.as_slice(), content) {
        let warning = str_owned("normalized CRLF/CR line endings to LF");
        proof {
            lemma_strs_push(warnings@, warning);
        }
        warnings.push(warning);
    }
    let ghost first = strs(warnings@);
    let n: usize = text.len();
    if n > 0 && text[n - 1] != '\n' {
        text.push('\n');
        let warning = str_owned("added final newline");
        proof {
            lemma_strs_push(warnings@, warning);
        }
        warnings.push(warning);
    }
    let more = frontmatter_warnings(text.as_slice());
    let ghost head = strs(warnings@);
    let mut i: usize = 0;
    assert(head + strs(more@).take(0) =~= head);
    while i < more.len()
        invariant
            0 <= i <= more@.len(),
            strs(warnings@) == head + strs(more@).take(i as int),
        decreases more@.len() - i,
    {
        let warning = more[i].clone();
        proof {
            lemma_strs_push(warnings@, warning);
        }
        warnings.push(warning);
        i = i + 1;
        assert(strs(warnings@) =~= head + strs(more@).take(i as int));
    }
    assert(strs(more@).take(i as int) =~= strs(more@));
    assert(strs(warnings@) =~= quality_warnings(content@));
    Ok(PreparedNoteContent { content: from_chars(text.as_slice()), warnings })
}

// ---------------------------------------------------------------------------
// Replacing a string
// ---------------------------------------------------------------------------

/// How often `pat` stands in `s` from `i` on, without overlaps.
pub open spec fn count_from(s: Seq<char>, i: int, pat: Seq<char>) -> nat
    decreases s.len() - i via count_from_decreases
{
    let k = find_from(s, i, pat);
    if i < 0 || pat.len() == 0 || k == -1 {
        0
    } else {
        1 + count_from(s, k + pat.len(), pat)
    }
}

#[via_fn]
proof fn count_from_decreases(s: Seq<char>, i: int, pat: Seq<char>) {
    if i >= 0 {
        lemma_find_from(s, i, pat);
    }
}

/// `s` from `i` on with the first `limit` occurrences of `pat` replaced.
pub open spec fn replace_from(s: Seq<char>, i: int, pat: Seq<char>, new: Seq<char>, limit: nat) -> Seq<
    char,
>
    decreases s.len() - i via replace_from_decreases
{
    let k = find_from(s, i, pat);
    if i < 0 || i > s.len() {
        seq![]
    } else if pat.len() == 0 || limit == 0 || k == -1 {
        s.skip(i)
    } else {
        s.subrange(i, k) + new + replace_from(s, k + pat.len(), pat, new, (limit - 1) as nat)
    }
}

#[via_fn]
proof fn replace_from_decreases(
    s: Seq<char>,
    i: int,
    pat: Seq<char>,
    new: Seq<char>,
    limit: nat,
) {
    if i >= 0 {
        lemma_find_from(s, i, pat);
    }
}

pub fn count_matches(s: &[char], pat: &[char]) -> (r: usize)
    requires
        pat@.len() > 0,
    ensures
        r == count_from(s@, 0, pat@),
{
    let mut n: usize = 0;
    let mut i: usize = 0;
    loop
        invariant
            0 <= i <= s@.len(),
            n <= i,
            pat@.len() > 0,
            count_from(s@, 0, pat@) == n + count_from(s@, i as int, pat@),
        decreases s@.len() - i,
    {
        match find_text(s, i, pat) {
            None => {
                return n;
            },
            Some(k) => {
                n = n + 1;
                i = k + pat.len();
            },
        }
    }
}

pub fn replace_text(s: &[char], pat: &[char], new: &[char], limit: usize) -> (r: Vec<char>)
    requires
        pat@.len() > 0,
    ensures
        r@ == replace_from(s@, 0, pat@, new@, limit as nat),
{
    let mut out: Vec<char> = Vec::new();
    let mut i: usize = 0;
    let mut left: usize = limit;
    assert(out@ + replace_from(s@, 0, pat@, new@, limit as nat) =~= replace_from(
        s@,
        0,
        pat@,
        new@,
        limit as nat,
    ));
    loop
        invariant
            0 <= i <= s@.len(),
            pat@.len() > 0,
            replace_from(s@, 0, pat@, new@, limit as nat) == out@ + replace_from(
                s@,
                i as int,
                pat@,
                new@,
                left as nat,
            ),
        decreases s@.len() - i,
    {
        if left == 0 {
            push_all(&mut out, suffix_of(s, i));
            return out;
        }
        match find_text(s, i, pat) {
            None => {
                push_all(&mut out, suffix_of(s, i));
                return out;
            },
            Some(k) => {
                let ghost was = out@;
                push_all(&mut out, slice_subrange(s, i, k));
                push_all(&mut out, new);
                proof {
                    let rest = replace_from(s@, k + pat@.len(), pat@, new@, (left - 1) as nat);
                    assert(out@ + rest =~= was + (s@.subrange(i as int, k as int) + new@ + rest));
                }
                i = k + pat.len();
                left = left - 1;
            },
        }
    }
}

/// The text with the old string replaced: everywhere, or where it stands once.
/// `Err` where it is missing or, without `replace_all`, not unique.
pub open spec fn replaced(
    current: Seq<char>,
    old: Seq<char>,
    new: Seq<char>,
    replace_all: bool,
    note: Seq<char>,
) -> Result<Seq<char>, ErrorView> {
    let n = count_from(current, 0, old);
    if old.len() == 0 {
        Err(ErrorView::InvalidInput("old_string cannot be empty"@))
    } else if n == 0 {
        Err(ErrorView::InvalidInput("old_string not found in note '"@ + note + "'"@))
    } else if n > 1 && !replace_all {
        Err(
            ErrorView::Conflict(
                "old_string is not unique in note '"@ + note + "' ("@ + decimal(n)
                    + " matches); add surrounding context or pass replace_all"@,
            ),
        )
    } else {
        Ok(replace_from(current, 0, old, new, n))
    }
}

proof fn lemma_count_behind(a: Seq<char>, b: Seq<char>, k: int, pat: Seq<char>)
    requires
        0 <= k,
    ensures
        count_from(a + b, a.len() + k, pat) == count_from(b, k, pat),
    decreases b.len() + 1 - k,
{
    lemma_find_behind(a, b, k, pat);
    lemma_find_from(b, k, pat);
    let p = find_from(b, k, pat);
    if pat.len() > 0 && p != -1 {
        lemma_count_behind(a, b, p + pat.len(), pat);
    }
}

proof fn lemma_replace_behind(
    a: Seq<char>,
    b: Seq<char>,
    k: int,
    pat: Seq<char>,
    new: Seq<char>,
    limit: nat,
)
    requires
        0 <= k <= b.len(),
    ensures
        replace_from(a + b, a.len() + k, pat, new, limit) == replace_from(b, k, pat, new, limit),
    decreases b.len() - k,
{
    lemma_find_behind(a, b, k, pat);
    lemma_find_from(b, k, pat);
    let p = find_from(b, k, pat);
    if pat.len() == 0 || limit == 0 || p == -1 {
        assert((a + b).skip(a.len() + k) =~= b.skip(k));
    } else {
        lemma_replace_behind(a, b, p + pat.len(), pat, new, (limit - 1) as nat);
        assert((a + b).subrange(a.len() + k, a.len() + p) =~= b.subrange(k, p));
    }
}

/// What a text becomes when every occurrence of `old` is replaced; a text without one
/// stays.
pub open spec fn all_replaced(s: Seq<char>, old: Seq<char>, new: Seq<char>, note: Seq<char>) -> Seq<char> {
    match replaced(s, old, new, true, note) {
        Ok(text) => text,
        Err(_) => s,
    }
}

/// Occurrences are replaced one after the other, from the left: where `old` first stands
/// it gives way to `new`, what is in front of it is kept, and what is behind it is treated
/// on its own. Unless all may be replaced, `old` has to stand in one place only. An `old`
/// that is empty or not there is refused.
pub proof fn occurrences_are_replaced_one_after_the_other(
    a: Seq<char>,
    old: Seq<char>,
    b: Seq<char>,
    new: Seq<char>,
    note: Seq<char>,
)
    requires
        old.len() > 0,
        forall|k: int| 0 <= k < a.len() ==> !#[trigger] matches_at(a + old + b, k, old),
    ensures
        replaced(a + old + b, old, new, true, note) == Ok::<Seq<char>, ErrorView>(
            a + new + all_replaced(b, old, new, note),
        ),
        has_text(b, old) ==> replaced(a + old + b, old, new, false, note) matches Err(
            ErrorView::Conflict(_),
        ),
        !has_text(b, old) ==> replaced(a + old + b, old, new, false, note) == Ok::<
            Seq<char>,
            ErrorView,
        >(a + new + b),
{
    let s = a + old + b;
    let front = a + old;
    let n = a.len() as int;
    assert(s.subrange(n, n + old.len()) =~= old);
    lemma_find_is(s, 0, n, old);
    lemma_count_behind(front, b, 0, old);
    let m = count_from(b, 0, old);
    assert(count_from(s, 0, old) == 1 + m);
    lemma_replace_behind(front, b, 0, old, new, m);
    assert(s.subrange(0, n) =~= a);
    lemma_find_from(b, 0, old);
    if has_text(b, old) {
        let k = choose|k: int| matches_at(b, k, old);
        assert(matches_at(b, k, old));
    } else {
        assert(b.skip(0) =~= b);
    }
    if m == 0 {
        assert(b.skip(0) =~= b);
    }
}

/// An `old` that is empty, or that the text does not hold, is refused.
pub proof fn missing_text_is_refused(
    s: Seq<char>,
    old: Seq<char>,
    new: Seq<char>,
    replace_all: bool,
    note: Seq<char>,
)
    ensures
        (old.len() == 0 || !has_text(s, old)) <==> replaced(s, old, new, replace_all, note) matches Err(
            ErrorView::InvalidInput(_),
        ),
{
    lemma_find_from(s, 0, old);
    if has_text(s, old) {
        let k = choose|k: int| matches_at(s, k, old);
        assert(matches_at(s, k, old));
    }
}

pub open spec fn text_or_error(r: Result<Vec<char>, WriteError>) -> Result<Seq<char>, ErrorView> {
    match r {
        Ok(v) => Ok(v@),
        Err(e) => Err(e@),
    }
}

pub fn replace_string(
    current: &[char],
    old_string: &[char],
    new_string: &[char],
    replace_all: bool,
    note: &str,
) -> (r: Result<Vec<char>, WriteError>)
    ensures
        text_or_error(r) == replaced(current@, old_string@, new_string@, replace_all, note@),
{
    if old_string.len() == 0 {
        return Err(WriteError::InvalidInput(str_owned("old_string cannot be empty")));
    }
    let n: usize = count_matches(current, old_string);
    if n == 0 {
        let mut out = to_chars("old_string not found in note '");
        push_str(&mut out, note);
        push_str(&mut out, "'");
        return Err(WriteError::InvalidInput(from_chars(out.as_slice())));
    }
    if n > 1 && !replace_all {
        let mut out = to_chars("old_string is not unique in note '");
        push_str(&mut out, note);
        push_str(&mut out, "' (");
        let digits = to_decimal(n as u128);
        push_all(&mut out, digits.as_slice());
        push_str(&mut out, " matches); add surrounding context or pass replace_all");
        return Err(WriteError::Conflict(from_chars(out.as_slice())));
    }
    Ok(replace_text(current, old_string, new_string, n))
}

// ---------------------------------------------------------------------------
// Sections
// ---------------------------------------------------------------------------

/// The level and text of the heading that a line is, if it is one: one to six
/// number signs, then white space.
pub open spec fn heading_of(body: Seq<char>) -> Option<(nat, Seq<char>)> {
    let t = trim_start(body);
    let level = run_len(t, 0, '#');
    if 1 <= level <= 6 && level < t.len() && whitespace(t[level as int]) {
        Some((level, trim_end(t)))
    } else {
        None
    }
}

/// A heading: where its line starts, its level and its text.
pub struct HeadingView {
    pub offset: int,
    pub level: nat,
    pub text: Seq<char>,
}

/// The headings of the lines from `i` on, outside fenced blocks. `offset` is
/// where the `i`th line starts.
pub open spec fn headings_from(
    raws: Seq<Seq<char>>,
    i: int,
    fence: Option<(char, nat)>,
    offset: int,
) -> Seq<HeadingView>
    decreases raws.len() - i,
{
    if i < 0 || i >= raws.len() {
        seq![]
    } else {
        let body = line_body(raws[i]);
        let rest = headings_from(raws, i + 1, fence_after(fence, body), offset + raws[i].len());
        if in_fence(fence, body) {
            rest
        } else {
            match heading_of(body) {
                Some((level, text)) => seq![HeadingView { offset, level, text }] + rest,
                None => rest,
            }
        }
    }
}

/// The headings of a note outside fenced blocks.
pub open spec fn headings(content: Seq<char>) -> Seq<HeadingView> {
    headings_from(raw_lines(content), 0, None, 0)
}

/// The line is a heading of level `n`: behind `k` characters of white space it holds
/// one to six number signs, and white space behind them.
pub open spec fn heading_line(line: Seq<char>, k: int, n: nat) -> bool {
    &&& 1 <= n <= 6
    &&& 0 <= k
    &&& k + n < line.len()
    &&& forall|i: int| 0 <= i < k ==> whitespace(#[trigger] line[i])
    &&& forall|i: int| k <= i < k + n ==> line[i] == '#'
    &&& whitespace(line[k + n])
}

/// A heading is read with its level, and its text is the line without the white space
/// around it. No other line is read as one.
pub proof fn headings_are_read(line: Seq<char>)
    ensures
        forall|k: int, n: nat| #[trigger]
            heading_line(line, k, n) ==> heading_of(line) == Some((n, trim(line))),
        (forall|k: int, n: nat| !#[trigger] heading_line(line, k, n)) ==> heading_of(line) is None,
{
    ascii_white_space('#');
    assert forall|k: int, n: nat| #[trigger] heading_line(line, k, n) implies heading_of(line)
        == Some((n, trim(line))) by {
        assert(line[k] == '#');
        lemma_trim_start_is(line, k);
        let t = line.skip(k);
        assert forall|i: int| 0 <= i < n implies t[i] == '#' by {
            assert(t[i] == line[k + i]);
        }
        assert(t[n as int] == line[k + n]);
        lemma_run_is(t, 0, n, '#');
    }
    if heading_of(line) is Some {
        let (n, _text) = heading_of(line)->0;
        lemma_trim_start(line);
        let t = trim_start(line);
        let k = line.len() - t.len();
        lemma_run_len(t, 0, '#');
        assert forall|i: int| k <= i < k + n implies line[i] == '#' by {
            assert(t[i - k] == line[i]);
        }
        assert(t[n as int] == line[k + n]);
        assert(heading_line(line, k, n));
    }
}

/// The headings as they stand `by` characters further on.
pub open spec fn shifted(all: Seq<HeadingView>, by: nat) -> Seq<HeadingView> {
    Seq::new(all.len(), |i: int| HeadingView { offset: all[i].offset + by, ..all[i] })
}

proof fn lemma_headings_behind(
    a: Seq<Seq<char>>,
    b: Seq<Seq<char>>,
    k: int,
    fence: Option<(char, nat)>,
    offset: int,
    by: nat,
)
    requires
        0 <= k <= b.len(),
    ensures
        headings_from(a + b, a.len() + k, fence, offset + by) == shifted(
            headings_from(b, k, fence, offset),
            by,
        ),
    decreases b.len() - k,
{
    if k < b.len() {
        assert((a + b)[a.len() + k] == b[k]);
        let next = fence_after(fence, line_body(b[k]));
        lemma_headings_behind(a, b, k + 1, next, offset + b[k].len(), by);
    }
    assert(headings_from(a + b, a.len() + k, fence, offset + by) =~= shifted(
        headings_from(b, k, fence, offset),
        by,
    ));
}

proof fn lemma_headings_in_fence(
    a: Seq<Seq<char>>,
    b: Seq<Seq<char>>,
    i: int,
    c: char,
    n: nat,
    offset: int,
)
    requires
        0 <= i <= a.len(),
        keeps_fence(a, c, n),
    ensures
        headings_from(a + b, i, Some((c, n)), offset) == headings_from(
            a + b,
            a.len() as int,
            Some((c, n)),
            offset + total_len(a, i),
        ),
    decreases a.len() - i,
{
    if i < a.len() {
        assert((a + b)[i] == a[i]);
        assert forall|k: int, m: nat| n <= m implies !#[trigger] fence_line(
            line_body(a[i]),
            k,
            c,
            m,
        ) by {}
        lemma_fence_kept(line_body(a[i]), c, n);
        lemma_headings_in_fence(a, b, i + 1, c, n, offset + a[i].len());
    }
}

/// The headings of a text are read line by line: a line that is no fence is one or
/// not, and those of the rest stand behind it.
pub proof fn headings_are_read_line_by_line(line: Seq<char>, rest: Seq<char>)
    requires
        !line.contains('\n'),
        no_fence(line),
    ensures
        headings(line.push('\n') + rest) == (match heading_of(line) {
            Some((level, text)) => seq![HeadingView { offset: 0, level, text }],
            None => seq![],
        }) + shifted(headings(rest), line.len() + 1),
        line.len() > 0 ==> headings(line) == (match heading_of(line) {
            Some((level, text)) => seq![HeadingView { offset: 0, level, text }],
            None => seq![],
        }),
        headings(seq![]) == Seq::<HeadingView>::empty(),
{
    fences_are_read(line);
    first_raw_line(line, rest);
    last_raw_line(line);
    let raw = line.push('\n');
    assert(raw.drop_last() =~= line);
    lemma_headings_behind(seq![raw], raw_lines(rest), 0, None, 0, raw.len());
    let here: Seq<HeadingView> = match heading_of(line) {
        Some((level, text)) => seq![HeadingView { offset: 0, level, text }],
        None => seq![],
    };
    assert(headings(raw + rest) =~= here + shifted(headings(rest), line.len() + 1));
    last_raw_line(seq![]);
    assert(headings(seq![]) =~= Seq::<HeadingView>::empty());
    if line.len() > 0 {
        assert(line.last() != '\n') by {
            assert(line.contains(line.last()));
        }
        assert(headings_from(seq![line], 1, None, line.len() as int) =~= seq![]);
        assert(headings(line) =~= here);
    }
}

/// No heading is read in a fenced block, and those of the rest stand behind it. A
/// block that is never closed runs to the end of the text.
pub proof fn no_headings_are_read_in_fenced_blocks(
    open: Seq<char>,
    inner: Seq<char>,
    close: Seq<char>,
    rest: Seq<char>,
    k: int,
    l: int,
    c: char,
    n: nat,
    m: nat,
)
    requires
        !open.contains('\n'),
        !close.contains('\n'),
        fence_line(open, k, c, n),
        fence_line(close, l, c, m),
        n <= m,
        inner.len() > 0 ==> inner.last() == '\n',
        keeps_fence(raw_lines(inner), c, n),
    ensures
        headings(open.push('\n') + inner + close.push('\n') + rest) == shifted(
            headings(rest),
            open.len() + inner.len() + close.len() + 2,
        ),
        headings(open.push('\n') + inner) == Seq::<HeadingView>::empty(),
{
    let first = open.push('\n');
    let last = close.push('\n');
    let behind = last + rest;
    let a = raw_lines(inner);
    let fence = Some((c, n));
    fences_are_read(open);
    fences_are_read(close);
    assert(first.drop_last() =~= open);
    assert(last.drop_last() =~= close);
    assert(first + inner + last + rest =~= first + (inner + behind));
    first_raw_line(open, inner + behind);
    first_raw_line(open, inner);
    first_raw_line(close, rest);
    lines_of_two_texts(inner, behind);
    crate::markdown::lemma_raw_lines_concat(inner);
    lemma_total_len(a, 0);
    let b = raw_lines(behind);
    let by = first.len();
    lemma_headings_behind(seq![first], a + b, 0, fence, 0, by);
    lemma_headings_in_fence(a, b, 0, c, n, 0);
    lemma_headings_behind(a, b, 0, fence, 0, inner.len());
    lemma_headings_behind(seq![last], raw_lines(rest), 0, None, 0, last.len());
    let deep = headings_from(b, 0, fence, 0);
    assert(deep =~= shifted(headings(rest), last.len()));
    let all = headings(first + (inner + behind));
    assert(all =~= shifted(shifted(deep, inner.len()), by));
    assert(all =~= shifted(headings(rest), open.len() + inner.len() + close.len() + 2));
    lemma_headings_behind(seq![first], a, 0, fence, 0, by);
    lemma_headings_in_fence(a, seq![], 0, c, n, 0);
    assert(a + seq![] =~= a);
    assert(headings(first + inner) =~= Seq::<HeadingView>::empty());
}

proof fn lemma_heading_places(t: Seq<char>, fence: Option<(char, nat)>, offset: int)
    ensures
        ({
            let all = headings_from(raw_lines(t), 0, fence, offset);
            &&& forall|i: int|
                0 <= i < all.len() ==> {
                    let at = (#[trigger] all[i]).offset - offset;
                    &&& 0 <= at < t.len()
                    &&& at == 0 || t[at - 1] == '\n'
                    &&& heading_of(t.subrange(at, next_char(t, at, '\n'))) == Some(
                        (all[i].level, all[i].text),
                    )
                }
            &&& forall|i: int, j: int|
                0 <= i < j < all.len() ==> (#[trigger] all[i]).offset < (#[trigger] all[j]).offset
        }),
    decreases t.len(),
{
    let all = headings_from(raw_lines(t), 0, fence, offset);
    if t.len() == 0 {
        last_raw_line(t);
    } else {
        lemma_next_char(t, 0, '\n');
        let n = next_char(t, 0, '\n');
        let line = t.take(n);
        assert(!line.contains('\n')) by {
            if line.contains('\n') {
                let k = choose|k: int| 0 <= k < line.len() && line[k] == '\n';
                assert(t[k] == '\n');
            }
        }
        assert(t.subrange(0, n) =~= line);
        if n < t.len() {
            let raw = line.push('\n');
            let more = t.skip(n + 1);
            let by = (n + 1) as nat;
            assert(t =~= raw + more);
            first_raw_line(line, more);
            assert(raw.drop_last() =~= line);
            let next = fence_after(fence, line);
            lemma_heading_places(more, next, offset);
            lemma_headings_behind(seq![raw], raw_lines(more), 0, next, offset, by);
            let rest = headings_from(raw_lines(more), 0, next, offset);
            let later = shifted(rest, by);
            assert forall|i: int| 0 <= i < later.len() implies {
                let at = (#[trigger] later[i]).offset - offset;
                &&& by <= at < t.len()
                &&& t[at - 1] == '\n'
                &&& heading_of(t.subrange(at, next_char(t, at, '\n'))) == Some(
                    (later[i].level, later[i].text),
                )
            } by {
                let at = rest[i].offset - offset;
                lemma_next_behind(raw, more, at, '\n');
                lemma_next_char(more, at, '\n');
                assert(t.subrange(by + at, by + next_char(more, at, '\n')) =~= more.subrange(
                    at,
                    next_char(more, at, '\n'),
                ));
                if at > 0 {
                    assert(t[by + at - 1] == more[at - 1]);
                }
            }
            assert(all == later || all =~= seq![all[0]] + later);
            assert forall|i: int| 0 <= i < all.len() implies {
                let at = (#[trigger] all[i]).offset - offset;
                &&& 0 <= at < t.len()
                &&& at == 0 || t[at - 1] == '\n'
                &&& heading_of(t.subrange(at, next_char(t, at, '\n'))) == Some(
                    (all[i].level, all[i].text),
                )
            } by {
                if all == later {
                    assert(all[i] == later[i]);
                } else if i > 0 {
                    assert(all[i] == later[i - 1]);
                }
            }
            assert forall|i: int, j: int| 0 <= i < j < all.len() implies (#[trigger] all[i]).offset
                < (#[trigger] all[j]).offset by {
                if all == later {
                    assert(rest[i].offset < rest[j].offset);
                } else {
                    assert(all[j] == later[j - 1]);
                    if i > 0 {
                        assert(all[i] == later[i - 1]);
                        assert(rest[i - 1].offset < rest[j - 1].offset);
                    }
                }
            }
        } else {
            assert(t =~= line);
            last_raw_line(line);
            assert(line.last() != '\n') by {
                assert(line.contains(line.last()));
            }
            assert(headings_from(
                seq![line],
                1,
                fence_after(fence, line),
                offset + line.len(),
            ) =~= seq![]);
            assert(all.len() <= 1);
        }
    }
}

/// Every heading starts a line of the text, and is what is read in that line. No two
/// start at one place, and they are listed in the order of the text.
pub proof fn headings_start_lines(content: Seq<char>)
    ensures
        forall|i: int|
            0 <= i < headings(content).len() ==> {
                let at = (#[trigger] headings(content)[i]).offset;
                &&& 0 <= at < content.len()
                &&& at == 0 || content[at - 1] == '\n'
                &&& heading_of(content.subrange(at, next_char(content, at, '\n'))) == Some(
                    (headings(content)[i].level, headings(content)[i].text),
                )
            },
        forall|i: int, j: int|
            0 <= i < j < headings(content).len() ==> (#[trigger] headings(content)[i]).offset < (
            #[trigger] headings(content)[j]).offset,
{
    lemma_heading_places(content, None, 0);
}

/// A heading: where its line starts, its level and its text.
pub struct Heading {
    pub offset: usize,
    pub level: usize,
    pub text: Vec<char>,
}

pub open spec fn heading_views(v: Seq<Heading>) -> Seq<HeadingView> {
    Seq::new(
        v.len(),
        |i: int|
            HeadingView {
                offset: v[i].offset as int,
                level: v[i].level as nat,
                text: v[i].text@,
            },
    )
}

fn read_heading(body: &[char]) -> (r: Option<(usize, Vec<char>)>)
    ensures
        match r {
            Some((level, text)) => heading_of(body@) == Some((level as nat, text@)),
            None => heading_of(body@) is None,
        },
{
    let t = trim_start_of(body);
    let level: usize = count_run(t, 0, '#');
    if level >= 1 && level <= 6 && level < t.len() && is_whitespace(t[level]) {
        Some((level, slice_to_vec(trim_end_of(t))))
    } else {
        None
    }
}

/// The lengths of the lines from `i` on add up to what is left of the text.
pub open spec fn total_len(raws: Seq<Seq<char>>, i: int) -> nat
    decreases raws.len() - i,
{
    if i < 0 || i >= raws.len() {
        0
    } else {
        raws[i].len() + total_len(raws, i + 1)
    }
}

proof fn lemma_total_len(raws: Seq<Seq<char>>, i: int)
    requires
        0 <= i <= raws.len(),
    ensures
        total_len(raws, i) == crate::markdown::concat_from(raws, i).len(),
    decreases raws.len() - i,
{
    if i < raws.len() {
        lemma_total_len(raws, i + 1);
    }
}

pub fn scan_headings(content: &[char]) -> (r: Vec<Heading>)
    ensures
        heading_views(r@) == headings(content@),
        forall|k: int| 0 <= k < r@.len() ==> (#[trigger] r@[k]).offset <= content@.len(),
{
    let raws = split_raw_lines(content);
    let ghost rv = raw_lines(content@);
    let size: usize = content.len();
    proof {
        crate::markdown::lemma_raw_lines_concat(content@);
        lemma_total_len(rv, 0);
    }
    let mut out: Vec<Heading> = Vec::new();
    let mut fence: Option<(char, usize)> = None;
    let mut offset: usize = 0;
    let mut i: usize = 0;
    assert(heading_views(out@) + headings_from(rv, 0, None, 0) =~= headings(content@));
    while i < raws.len()
        invariant
            0 <= i <= raws@.len(),
            rv == texts(raws@),
            size == content@.len(),
            offset + total_len(rv, i as int) == size,
            forall|k: int| 0 <= k < out@.len() ==> (#[trigger] out@[k]).offset <= content@.len(),
            headings(content@) == heading_views(out@) + headings_from(
                rv,
                i as int,
                fence_view(fence),
                offset as int,
            ),
        decreases raws@.len() - i,
    {
        let raw = raws[i].as_slice();
        assert(rv[i as int] == raw@);
        let n: usize = raw.len();
        let ends = n > 0 && raw[n - 1] == '\n';
        let body = slice_subrange(
            raw,
            0,
            if ends {
                n - 1
            } else {
                n
            },
        );
        assert(body@ =~= line_body(raw@));
        let ghost was = out@;
        let ghost before = fence_view(fence);
        let (code, next) = step_fence(fence, body);
        if !code {
            match read_heading(body) {
                Some((level, text)) => {
                    out.push(Heading { offset, level, text });
                    assert(heading_views(out@) =~= heading_views(was).push(
                        HeadingView { offset: offset as int, level: level as nat, text: text@ },
                    ));
                },
                None => {},
            }
        }
        fence = next;
        assert(heading_views(out@) + headings_from(
            rv,
            i + 1,
            fence_view(fence),
            offset + n,
        ) =~= heading_views(was) + headings_from(rv, i as int, before, offset as int));
        offset = offset + n;
        i = i + 1;
    }
    assert(heading_views(out@) =~= headings(content@));
    out
}

/// How many headings read `text`.
pub open spec fn count_headings(all: Seq<HeadingView>, text: Seq<char>) -> nat
    decreases all.len(),
{
    if all.len() == 0 {
        0
    } else {
        count_headings(all.drop_last(), text) + if all.last().text == text {
            1nat
        } else {
            0nat
        }
    }
}

/// The first heading from `i` on that reads `text`, or the number of headings.
pub open spec fn heading_index(all: Seq<HeadingView>, text: Seq<char>, i: int) -> int
    decreases all.len() - i,
{
    if i >= all.len() {
        all.len() as int
    } else if all[i].text == text {
        i
    } else {
        heading_index(all, text, i + 1)
    }
}

/// Where the section ends: at the first heading from `i` on of the level or a
/// higher one, or at the end of the text.
pub open spec fn section_end(all: Seq<HeadingView>, level: nat, i: int, size: int) -> int
    decreases all.len() - i,
{
    if i < 0 || i >= all.len() {
        size
    } else if all[i].level <= level {
        all[i].offset
    } else {
        section_end(all, level, i + 1, size)
    }
}

/// The section under a heading: from the heading's line to the next heading of
/// its level or a higher one. `Err` where the heading is missing or not unique.
pub open spec fn section_of(content: Seq<char>, requested: Seq<char>, note: Seq<char>) -> Result<
    (int, int),
    ErrorView,
> {
    let all = headings(content);
    let n = count_headings(all, requested);
    let i = heading_index(all, requested, 0);
    if n == 0 {
        Err(
            ErrorView::InvalidInput(
                "heading '"@ + requested + "' not found in note '"@ + note + "'"@,
            ),
        )
    } else if n > 1 {
        Err(
            ErrorView::Conflict(
                "heading '"@ + requested + "' is not unique in note '"@ + note + "' ("@ + decimal(n)
                    + " matches)"@,
            ),
        )
    } else {
        Ok((all[i].offset, section_end(all, all[i].level, i + 1, content.len() as int)))
    }
}

proof fn lemma_heading_index(all: Seq<HeadingView>, text: Seq<char>, i: int)
    requires
        0 <= i <= all.len(),
    ensures
        i <= heading_index(all, text, i) <= all.len(),
    decreases all.len() - i,
{
    if i < all.len() && all[i].text != text {
        lemma_heading_index(all, text, i + 1);
    }
}

proof fn lemma_no_heading(all: Seq<HeadingView>, text: Seq<char>)
    requires
        forall|k: int| 0 <= k < all.len() ==> (#[trigger] all[k]).text != text,
    ensures
        count_headings(all, text) == 0,
    decreases all.len(),
{
    if all.len() > 0 {
        lemma_no_heading(all.drop_last(), text);
    }
}

proof fn lemma_heading_found(all: Seq<HeadingView>, text: Seq<char>, i: int)
    requires
        0 <= i <= all.len(),
        heading_index(all, text, i) == all.len(),
    ensures
        forall|k: int| i <= k < all.len() ==> (#[trigger] all[k]).text != text,
    decreases all.len() - i,
{
    if i < all.len() {
        lemma_heading_index(all, text, i);
        lemma_heading_found(all, text, i + 1);
    }
}

/// The headings from the `i`th on start in the text and one after the other.
proof fn lemma_offsets_ordered(
    raws: Seq<Seq<char>>,
    i: int,
    fence: Option<(char, nat)>,
    offset: int,
)
    requires
        0 <= i <= raws.len(),
    ensures
        forall|k: int|
            0 <= k < headings_from(raws, i, fence, offset).len() ==> offset <= (
            #[trigger] headings_from(raws, i, fence, offset)[k]).offset <= offset + total_len(
                raws,
                i,
            ),
        forall|j: int, k: int|
            0 <= j < k < headings_from(raws, i, fence, offset).len() ==> (#[trigger] headings_from(
                raws,
                i,
                fence,
                offset,
            )[j]).offset <= (#[trigger] headings_from(raws, i, fence, offset)[k]).offset,
    decreases raws.len() - i,
{
    if i < raws.len() {
        let body = line_body(raws[i]);
        let next = fence_after(fence, body);
        let to = offset + raws[i].len();
        lemma_offsets_ordered(raws, i + 1, next, to);
        let rest = headings_from(raws, i + 1, next, to);
        let whole = headings_from(raws, i, fence, offset);
        if !in_fence(fence, body) && heading_of(body) is Some {
            assert forall|k: int| 0 <= k < whole.len() implies offset <= (#[trigger] whole[k]).offset
                <= offset + total_len(raws, i) by {
                if k > 0 {
                    assert(whole[k] == rest[k - 1]);
                }
            }
            assert forall|j: int, k: int| 0 <= j < k < whole.len() implies (#[trigger] whole[j]).offset
                <= (#[trigger] whole[k]).offset by {
                assert(whole[k] == rest[k - 1]);
                if j > 0 {
                    assert(whole[j] == rest[j - 1]);
                }
            }
        }
    }
}

proof fn lemma_section_end(all: Seq<HeadingView>, level: nat, i: int, from: int, size: int)
    requires
        0 <= i <= all.len(),
        from <= size,
        forall|k: int| i <= k < all.len() ==> from <= (#[trigger] all[k]).offset <= size,
    ensures
        from <= section_end(all, level, i, size) <= size,
    decreases all.len() - i,
{
    if i < all.len() && all[i].level > level {
        lemma_section_end(all, level, i + 1, from, size);
    }
}

/// A section lies in the text.
pub proof fn section_lies_in_the_text(content: Seq<char>, requested: Seq<char>, note: Seq<char>)
    ensures
        match section_of(content, requested, note) {
            Ok((start, end)) => 0 <= start <= end <= content.len(),
            Err(_) => true,
        },
{
    let all = headings(content);
    let raws = raw_lines(content);
    crate::markdown::lemma_raw_lines_concat(content);
    lemma_total_len(raws, 0);
    lemma_offsets_ordered(raws, 0, None, 0);
    lemma_heading_index(all, requested, 0);
    let i = heading_index(all, requested, 0);
    if i == all.len() {
        lemma_heading_found(all, requested, 0);
        lemma_no_heading(all, requested);
    } else {
        assert forall|k: int| i + 1 <= k < all.len() implies all[i].offset <= (
        #[trigger] all[k]).offset <= content.len() by {}
        lemma_section_end(all, all[i].level, i + 1, all[i].offset, content.len() as int);
    }
}

proof fn lemma_count(all: Seq<HeadingView>, text: Seq<char>)
    ensures
        count_headings(all, text) == 0 <==> forall|k: int|
            0 <= k < all.len() ==> (#[trigger] all[k]).text != text,
        count_headings(all, text) >= 2 <==> exists|j: int, k: int|
            0 <= j < k < all.len() && (#[trigger] all[j]).text == text && (#[trigger] all[k]).text
                == text,
    decreases all.len(),
{
    if all.len() > 0 {
        let front = all.drop_last();
        let n = all.len() - 1;
        lemma_count(front, text);
        if count_headings(all, text) == 0 {
            assert forall|k: int| 0 <= k < all.len() implies (#[trigger] all[k]).text != text by {
                if k < n {
                    assert(front[k] == all[k]);
                }
            }
        }
        if count_headings(front, text) > 0 {
            let j = choose|j: int| 0 <= j < front.len() && (#[trigger] front[j]).text == text;
            assert(all[j].text == text);
            if all[n].text == text {
                assert(all[j].text == text && all[n].text == text);
            }
        }
        if count_headings(front, text) >= 2 {
            let (j, k) = choose|j: int, k: int|
                0 <= j < k < front.len() && (#[trigger] front[j]).text == text && (
                #[trigger] front[k]).text == text;
            assert(all[j].text == text && all[k].text == text);
        }
        if exists|j: int, k: int|
            0 <= j < k < all.len() && (#[trigger] all[j]).text == text && (#[trigger] all[k]).text
                == text {
            let (j, k) = choose|j: int, k: int|
                0 <= j < k < all.len() && (#[trigger] all[j]).text == text && (
                #[trigger] all[k]).text == text;
            assert(front[j].text == text);
            if k < n {
                assert(front[k].text == text);
            }
        }
    }
}

proof fn lemma_section_end_is(all: Seq<HeadingView>, level: nat, i: int, size: int) -> (e: int)
    requires
        0 <= i <= all.len(),
    ensures
        i <= e <= all.len(),
        forall|k: int| i <= k < e ==> (#[trigger] all[k]).level > level,
        e < all.len() ==> all[e].level <= level && section_end(all, level, i, size)
            == all[e].offset,
        e == all.len() ==> section_end(all, level, i, size) == size,
    decreases all.len() - i,
{
    if i < all.len() && all[i].level > level {
        lemma_section_end_is(all, level, i + 1, size)
    } else {
        i
    }
}

/// A section is found if and only if exactly one heading reads as asked for. It starts
/// at that heading and ends at the first later heading of its level or a higher one, or
/// at the end of the text: every heading that starts between its start and its end is of
/// a deeper level, and if the end is before the end of the text, a heading of its level
/// or a higher one starts there.
pub proof fn section_ends_at_its_own_level(
    content: Seq<char>,
    requested: Seq<char>,
    note: Seq<char>,
)
    ensures
        ({
            let all = headings(content);
            match section_of(content, requested, note) {
                Ok((start, end)) => exists|i: int|
                    {
                        &&& 0 <= i < all.len()
                        &&& (#[trigger] all[i]).text == requested
                        &&& all[i].offset == start
                        &&& start < end <= content.len()
                        &&& forall|k: int|
                            0 <= k < all.len() && k != i ==> (#[trigger] all[k]).text != requested
                        &&& forall|k: int|
                            0 <= k < all.len() && start < (#[trigger] all[k]).offset < end
                                ==> all[k].level > all[i].level
                        &&& end < content.len() ==> exists|k: int|
                            0 <= k < all.len() && (#[trigger] all[k]).offset == end && all[k].level
                                <= all[i].level
                    },
                Err(ErrorView::InvalidInput(_)) => forall|k: int|
                    0 <= k < all.len() ==> (#[trigger] all[k]).text != requested,
                Err(ErrorView::Conflict(_)) => exists|j: int, k: int|
                    0 <= j < k < all.len() && (#[trigger] all[j]).text == requested && (
                    #[trigger] all[k]).text == requested,
                Err(_) => false,
            }
        }),
{
    let all = headings(content);
    lemma_count(all, requested);
    headings_start_lines(content);
    if section_of(content, requested, note) is Ok {
        let i = heading_index(all, requested, 0);
        lemma_heading_index(all, requested, 0);
        if i == all.len() {
            lemma_heading_found(all, requested, 0);
        }
        lemma_index_reads(all, requested, 0);
        let e = lemma_section_end_is(all, all[i].level, i + 1, content.len() as int);
        let (start, end) = section_of(content, requested, note)->Ok_0;
        assert forall|k: int| 0 <= k < all.len() && k != i implies (#[trigger] all[k]).text
            != requested by {
            if all[k].text == requested {
                if k < i {
                    assert(all[k].text == requested && all[i].text == requested);
                } else {
                    assert(all[i].text == requested && all[k].text == requested);
                }
            }
        }
        assert forall|k: int|
            0 <= k < all.len() && start < (#[trigger] all[k]).offset < end implies all[k].level
            > all[i].level by {
            if k < i {
                assert(all[k].offset < all[i].offset);
            } else if k >= e && e < all.len() {
                if k > e {
                    assert(all[e].offset < all[k].offset);
                }
            }
        }
        if e < all.len() {
            assert(all[i].offset < all[e].offset);
        }
    }
}

proof fn lemma_index_reads(all: Seq<HeadingView>, text: Seq<char>, i: int)
    requires
        0 <= i <= all.len(),
    ensures
        heading_index(all, text, i) < all.len() ==> all[heading_index(all, text, i)].text == text,
    decreases all.len() - i,
{
    if i < all.len() && all[i].text != text {
        lemma_index_reads(all, text, i + 1);
    }
}

pub fn section_span(content: &[char], requested: &[char], note: &str) -> (r: Result<
    (usize, usize),
    WriteError,
>)
    ensures
        match r {
            Ok((start, end)) => section_of(content@, requested@, note@) == Ok::<
                (int, int),
                ErrorView,
            >((start as int, end as int)) && start <= end <= content@.len(),
            Err(e) => section_of(content@, requested@, note@) == Err::<(int, int), ErrorView>(e@),
        },
{
    let found = scan_headings(content);
    let ghost all = headings(content@);
    let mut n: usize = 0;
    let mut first: usize = found.len();
    let mut i: usize = 0;
    while i < found.len()
        invariant
            0 <= i <= found@.len(),
            all == heading_views(found@),
            n == count_headings(all.take(i as int), requested@),
            n <= i,
            first == found@.len() ==> heading_index(all, requested@, 0) == heading_index(
                all,
                requested@,
                i as int,
            ),
            first < found@.len() ==> first == heading_index(all, requested@, 0) && n > 0,
            first <= found@.len(),
            first == found@.len() ==> n == 0,
        decreases found@.len() - i,
    {
        proof {
            assert(all.take(i + 1).drop_last() =~= all.take(i as int));
            assert(all.take(i + 1).last() == all[i as int]);
        }
        if chars_eq(found[i].text.as_slice(), requested) {
            if n == 0 {
                first = i;
            }
            n = n + 1;
        }
        i = i + 1;
    }
    assert(all.take(i as int) =~= all);
    if n == 0 {
        let mut out = to_chars("heading '");
        push_all(&mut out, requested);
        push_str(&mut out, "' not found in note '");
        push_str(&mut out, note);
        push_str(&mut out, "'");
        return Err(WriteError::InvalidInput(from_chars(out.as_slice())));
    }
    if n > 1 {
        let mut out = to_chars("heading '");
        push_all(&mut out, requested);
        push_str(&mut out, "' is not unique in note '");
        push_str(&mut out, note);
        push_str(&mut out, "' (");
        let digits = to_decimal(n as u128);
        push_all(&mut out, digits.as_slice());
        push_str(&mut out, " matches)");
        return Err(WriteError::Conflict(from_chars(out.as_slice())));
    }
    proof {
        lemma_heading_index(all, requested@, 0);
        section_lies_in_the_text(content@, requested@, note@);
    }
    let start: usize = found[first].offset;
    let level: usize = found[first].level;
    let mut k: usize = first + 1;
    let size: usize = content.len();
    while k < found.len() && found[k].level > level
        invariant
            first < k <= found@.len(),
            all == heading_views(found@),
            size == content@.len(),
            section_end(all, level as nat, first + 1, size as int) == section_end(
                all,
                level as nat,
                k as int,
                size as int,
            ),
        decreases found@.len() - k,
    {
        k = k + 1;
    }
    let end: usize = if k < found.len() {
        found[k].offset
    } else {
        size
    };
    Ok((start, end))
}

/// Three parts as one text, each beginning on a line of its own.
pub open spec fn spliced(prefix: Seq<char>, block: Seq<char>, suffix: Seq<char>) -> Seq<char> {
    with_final_newline(prefix) + (if suffix.len() > 0 && !(block.len() > 0 && block.last() == '\n') {
        block.push('\n')
    } else {
        block
    }) + suffix
}

pub fn splice(prefix: &[char], block: &[char], suffix: &[char]) -> (r: Vec<char>)
    ensures
        r@ == spliced(prefix@, block@, suffix@),
{
    let mut out = slice_to_vec(prefix);
    if prefix.len() > 0 && prefix[prefix.len() - 1] != '\n' {
        out.push('\n');
    }
    push_all(&mut out, block);
    if suffix.len() > 0 && !(block.len() > 0 && block[block.len() - 1] == '\n') {
        out.push('\n');
    }
    push_all(&mut out, suffix);
    assert(out@ =~= spliced(prefix@, block@, suffix@));
    out
}

/// Where new content goes relative to a section.
#[derive(Debug, Clone, Copy, PartialEq, Eq, Structural)]
pub enum SectionMode {
    /// In the place of the whole section.
    Replace,
    /// Before the heading.
    Before,
    /// Behind the section.
    After,
}

/// The text with new content at a section.
pub open spec fn with_section(
    current: Seq<char>,
    heading: Seq<char>,
    mode: SectionMode,
    content: Seq<char>,
    note: Seq<char>,
) -> Result<Seq<char>, ErrorView> {
    let requested = trim(heading);
    if requested.len() == 0 || requested[0] != '#' {
        Err(
            ErrorView::InvalidInput("heading must start with one or more '#' characters"@),
        )
    } else {
        match section_of(current, requested, note) {
            Err(e) => Err(e),
            Ok((start, end)) => Ok(
                match mode {
                    SectionMode::Replace => spliced(current.take(start), content, current.skip(end)),
                    SectionMode::Before => spliced(
                        current.take(start),
                        content,
                        current.skip(start),
                    ),
                    SectionMode::After => spliced(current.take(end), content, current.skip(end)),
                },
            ),
        }
    }
}

pub fn place_section(
    current: &[char],
    heading: &[char],
    mode: SectionMode,
    content: &[char],
    note: &str,
) -> (r: Result<Vec<char>, WriteError>)
    ensures
        text_or_error(r) == with_section(current@, heading@, mode, content@, note@),
{
    let requested = trimmed(heading);
    if requested.len() == 0 || requested[0] != '#' {
        return Err(
            WriteError::InvalidInput(
                str_owned("heading must start with one or more '#' characters"),
            ),
        );
    }
    match section_span(current, requested, note) {
        Err(e) => Err(e),
        Ok((start, end)) => match mode {
            SectionMode::Replace => Ok(
                splice(prefix_of(current, start), content, suffix_of(current, end)),
            ),
            SectionMode::Before => Ok(
                splice(prefix_of(current, start), content, suffix_of(current, start)),
            ),
            SectionMode::After => Ok(
                splice(prefix_of(current, end), content, suffix_of(current, end)),
            ),
        },
    }
}

/// Content that is placed in a note stands on lines of its own, between the
/// text in front of it and the text behind it.
pub proof fn placed_content_has_its_own_lines(
    prefix: Seq<char>,
    block: Seq<char>,
    suffix: Seq<char>,
)
    ensures
        ({
            let text = spliced(prefix, block, suffix);
            let start = with_final_newline(prefix).len() as int;
            let rest = text.len() - suffix.len();
            &&& text.take(prefix.len() as int) == prefix
            &&& text.subrange(start, start + block.len()) == block
            &&& text.skip(rest) == suffix
            &&& start == 0 || text[start - 1] == '\n'
            &&& suffix.len() > 0 ==> start + block.len() <= rest && text[rest - 1] == '\n'
        }),
{
    let text = spliced(prefix, block, suffix);
    let start = with_final_newline(prefix).len() as int;
    let rest = text.len() - suffix.len();
    assert(text.take(prefix.len() as int) =~= prefix);
    assert(text.subrange(start, start + block.len()) =~= block);
    assert(text.skip(rest) =~= suffix);
}

/// Content takes the place of a whole section, or goes in front of its heading, or
/// behind its end; all else is kept. A line feed is added behind the content where other
/// text follows, and in front of it only behind a text that does not end with one. A
/// heading that does not start with a number sign is refused, and so is one that names no
/// section.
pub proof fn content_is_placed_at_the_section(
    current: Seq<char>,
    heading: Seq<char>,
    mode: SectionMode,
    content: Seq<char>,
    note: Seq<char>,
)
    ensures
        ({
            let requested = trim(heading);
            let tail = |rest: Seq<char>|
                if rest.len() > 0 && (content.len() == 0 || content.last() != '\n') {
                    seq!['\n'] + rest
                } else {
                    rest
                };
            match (section_of(current, requested, note), with_section(
                current,
                heading,
                mode,
                content,
                note,
            )) {
                (Ok((start, end)), Ok(text)) => {
                    &&& requested.len() > 0
                    &&& requested[0] == '#'
                    &&& mode == SectionMode::Replace ==> text == current.take(start) + content + tail(
                        current.skip(end),
                    )
                    &&& mode == SectionMode::Before ==> text == current.take(start) + content + tail(
                        current.skip(start),
                    )
                    &&& mode == SectionMode::After ==> text == current.take(end) + (if current[end - 1]
                        == '\n' {
                        seq![]
                    } else {
                        seq!['\n']
                    }) + content + tail(current.skip(end))
                },
                (Err(e), Err(f)) => requested.len() > 0 && requested[0] == '#' ==> e == f,
                (Ok(_), Err(f)) => f matches ErrorView::InvalidInput(_) && (requested.len() == 0
                    || requested[0] != '#'),
                (Err(_), Ok(_)) => false,
            }
        }),
{
    let requested = trim(heading);
    if section_of(current, requested, note) is Ok && requested.len() > 0 && requested[0] == '#' {
        let (start, end) = section_of(current, requested, note)->Ok_0;
        section_ends_at_its_own_level(current, requested, note);
        headings_start_lines(current);
        let all = headings(current);
        let i = choose|i: int| 0 <= i < all.len() && (#[trigger] all[i]).offset == start;
        assert(start == 0 || current[start - 1] == '\n');
        let front = current.take(start);
        assert(with_final_newline(front) =~= front);
        let back = current.take(end);
        assert(back.last() == current[end - 1]);
        let rest = current.skip(end);
        let here = current.skip(start);
        let text = with_section(current, heading, mode, content, note)->Ok_0;
        match mode {
            SectionMode::Replace => {
                assert(text =~= front + content + (if rest.len() > 0 && (content.len() == 0
                    || content.last() != '\n') {
                    seq!['\n'] + rest
                } else {
                    rest
                }));
            },
            SectionMode::Before => {
                assert(text =~= front + content + (if here.len() > 0 && (content.len() == 0
                    || content.last() != '\n') {
                    seq!['\n'] + here
                } else {
                    here
                }));
            },
            SectionMode::After => {
                assert(text =~= back + (if current[end - 1] == '\n' {
                    seq![]
                } else {
                    seq!['\n']
                }) + content + (if rest.len() > 0 && (content.len() == 0 || content.last() != '\n') {
                    seq!['\n'] + rest
                } else {
                    rest
                }));
            },
        }
    }
}

/// What stands where content goes: the section, or nothing at one of its ends.
pub open spec fn replaced_span(span: (int, int), mode: SectionMode) -> (int, int) {
    match mode {
        SectionMode::Replace => span,
        SectionMode::Before => (span.0, span.0),
        SectionMode::After => (span.1, span.1),
    }
}

/// Placing content at a section keeps the text in front of the place and the
/// text behind it.
pub proof fn text_around_placed_content_is_kept(
    current: Seq<char>,
    heading: Seq<char>,
    mode: SectionMode,
    content: Seq<char>,
    note: Seq<char>,
)
    requires
        with_section(current, heading, mode, content, note) is Ok,
    ensures
        ({
            let text = with_section(current, heading, mode, content, note)->Ok_0;
            let span = section_of(current, trim(heading), note)->Ok_0;
            let (start, end) = replaced_span(span, mode);
            &&& 0 <= start <= end <= current.len()
            &&& text.take(start) == current.take(start)
            &&& text.skip(text.len() - (current.len() - end)) == current.skip(end)
        }),
{
    section_lies_in_the_text(current, trim(heading), note);
    let span = section_of(current, trim(heading), note)->Ok_0;
    let (start, end) = replaced_span(span, mode);
    placed_content_has_its_own_lines(current.take(start), content, current.skip(end));
}

// ---------------------------------------------------------------------------
// Properties
// ---------------------------------------------------------------------------

/// The inner text of a note's leading block: from behind its opening marker
/// line to the line feed before its closing marker.
pub open spec fn block_span(content: Seq<char>) -> Option<(int, int)> {
    let start: int = if starts_with(content, "---\n"@) {
        4
    } else if starts_with(content, "---\r\n"@) {
        5
    } else {
        -1
    };
    let end = find_from(content, start, "\n---"@);
    if start == -1 || end == -1 {
        None
    } else {
        Some((start, end))
    }
}

pub fn frontmatter_span(content: &[char]) -> (r: Option<(usize, usize)>)
    ensures
        match r {
            Some((start, end)) => block_span(content@) == Some((start as int, end as int)) && start
                <= end && end + 4 <= content@.len(),
            None => block_span(content@) is None,
        },
{
    let unix = to_chars("---\n");
    let dos = to_chars("---\r\n");
    let close = to_chars("\n---");
    proof {
        reveal_strlit("---\n");
        reveal_strlit("---\r\n");
        reveal_strlit("\n---");
    }
    let start: usize = if has_prefix(content, unix.as_slice()) {
        4
    } else if has_prefix(content, dos.as_slice()) {
        5
    } else {
        return None;
    };
    match find_text(content, start, close.as_slice()) {
        Some(end) => Some((start, end)),
        None => None,
    }
}

/// `s` from `i` on, how many blanks it starts with.
pub open spec fn blanks_from(s: Seq<char>, i: int) -> nat
    decreases s.len() - i,
{
    if 0 <= i < s.len() && (s[i] == ' ' || s[i] == '\t') {
        1 + blanks_from(s, i + 1)
    } else {
        0
    }
}

/// Where the text behind a closing marker line starts: behind the marker's
/// trailing blanks and its line ending.
pub open spec fn body_start(content: Seq<char>, end: int) -> int {
    let at = end + 4 + blanks_from(content, end + 4);
    if at + 1 < content.len() && content[at] == '\r' && content[at + 1] == '\n' {
        at + 2
    } else if at < content.len() && content[at] == '\n' {
        at + 1
    } else {
        at
    }
}

fn find_body_start(content: &[char], end: usize) -> (r: usize)
    requires
        end + 4 <= content@.len(),
    ensures
        r == body_start(content@, end as int),
        r <= content@.len(),
{
    let size: usize = content.len();
    let from: usize = size - (size - end - 4);
    let mut at: usize = from;
    while at < size && (content[at] == ' ' || content[at] == '\t')
        invariant
            from <= at <= size,
            size == content@.len(),
            blanks_from(content@, from as int) == (at - from) + blanks_from(content@, at as int),
        decreases size - at,
    {
        at = at + 1;
    }
    if size - at > 1 && content[at] == '\r' && content[at + 1] == '\n' {
        at + 2
    } else if at < size && content[at] == '\n' {
        at + 1
    } else {
        at
    }
}

/// `s` from `i` on with every line feed behind a carriage return.
pub open spec fn crlf_from(s: Seq<char>, i: int) -> Seq<char>
    decreases s.len() - i,
{
    if i < 0 || i >= s.len() {
        seq![]
    } else if s[i] == '\n' {
        seq!['\r', '\n'] + crlf_from(s, i + 1)
    } else {
        seq![s[i]] + crlf_from(s, i + 1)
    }
}

fn to_crlf(s: &[char]) -> (r: Vec<char>)
    ensures
        r@ == crlf_from(s@, 0),
{
    let mut out: Vec<char> = Vec::new();
    let mut i: usize = 0;
    assert(out@ + crlf_from(s@, 0) =~= crlf_from(s@, 0));
    while i < s.len()
        invariant
            0 <= i <= s@.len(),
            crlf_from(s@, 0) == out@ + crlf_from(s@, i as int),
        decreases s@.len() - i,
    {
        let ghost was = out@;
        if s[i] == '\n' {
            out.push('\r');
            out.push('\n');
        } else {
            out.push(s[i]);
        }
        assert(out@ + crlf_from(s@, i + 1) =~= was + crlf_from(s@, i as int));
        i = i + 1;
    }
    assert(out@ =~= crlf_from(s@, 0));
    out
}

/// The text with its leading block replaced: by the new inner text, by nothing
/// if no key is left, or by a fresh block at the start of a text without one.
pub open spec fn with_block(content: Seq<char>, block: Option<Seq<char>>) -> Result<
    Seq<char>,
    ErrorView,
> {
    match (block_span(content), block) {
        (Some((start, end)), Some(text)) => Ok(content.take(start) + text + content.skip(end)),
        (Some((start, end)), None) => Ok(content.skip(body_start(content, end))),
        (None, None) => Err(
            ErrorView::InvalidInput(
                "update_frontmatter cannot create an empty frontmatter block; only null values were supplied"@,
            ),
        ),
        (None, Some(text)) => if has_text(content, "\r\n"@) {
            Ok("---\r\n"@ + crlf_from(text, 0) + "\r\n---\r\n"@ + content)
        } else {
            Ok("---\n"@ + text + "\n---\n"@ + content)
        },
    }
}

/// A leading block opens with a line of three dashes and runs to the first line that
/// starts with three: the text between is replaced, and all else is kept. Without a new
/// text the block goes with its marker lines, blanks behind the closing dashes included,
/// and what is behind it is left.
pub proof fn leading_block_is_replaced(
    open: Seq<char>,
    inner: Seq<char>,
    blanks: Seq<char>,
    ending: Seq<char>,
    body: Seq<char>,
    new: Seq<char>,
)
    requires
        open == "---\n"@ || open == "---\r\n"@,
        forall|k: int| 0 <= k < inner.len() ==> !#[trigger] matches_at(inner + "\n---"@, k, "\n---"@),
        forall|k: int| 0 <= k < blanks.len() ==> blanks[k] == ' ' || blanks[k] == '\t',
        ending == "\n"@ || ending == "\r\n"@ || (ending.len() == 0 && body.len() == 0),
    ensures
        ({
            let content = open + inner + "\n---"@ + blanks + ending + body;
            let start = open.len() as int;
            &&& block_span(content) == Some((start, start + inner.len()))
            &&& block_text(content) == inner
            &&& with_block(content, Some(new)) == Ok::<Seq<char>, ErrorView>(
                open + new + "\n---"@ + blanks + ending + body,
            )
            &&& with_block(content, None) == Ok::<Seq<char>, ErrorView>(body)
        }),
{
    reveal_strlit("---\n");
    reveal_strlit("---\r\n");
    reveal_strlit("\n---");
    reveal_strlit("\n");
    reveal_strlit("\r\n");
    let close = "\n---"@;
    let content = open + inner + close + blanks + ending + body;
    let start = open.len() as int;
    let end = start + inner.len();
    assert(content.take(start) =~= open);
    if open == "---\r\n"@ {
        assert(content.take(4)[3] == '\r');
        assert("---\n"@[3] == '\n');
    }
    let p = inner + close;
    assert forall|k: int| start <= k < end implies !#[trigger] matches_at(content, k, close) by {
        let x = k - start;
        assert(!matches_at(p, x, close));
        assert(content.subrange(k, k + 4) =~= p.subrange(x, x + 4));
    }
    assert(content.subrange(end, end + 4) =~= close);
    lemma_find_is(content, start, end, close);
    assert(content.subrange(start, end) =~= inner);
    let rest = close + blanks + ending + body;
    assert(content.skip(end) =~= rest);
    assert(open + new + rest =~= open + new + close + blanks + ending + body);
    let at = end + 4;
    let n = blanks.len() as int;
    assert forall|k: int| at <= k < at + n implies content[k] == ' ' || content[k] == '\t' by {
        assert(content[k] == blanks[k - at]);
    }
    if ending.len() > 0 {
        assert(content[at + n] == ending[0]);
        assert(ending.len() > 1 ==> content[at + n + 1] == ending[1]);
    }
    lemma_blanks_are(content, at, at + n);
    assert(body_start(content, end) == at + n + ending.len());
    assert(content.skip(at + n + ending.len()) =~= body);
}

proof fn lemma_blanks_are(s: Seq<char>, i: int, to: int)
    requires
        0 <= i <= to <= s.len(),
        forall|k: int| i <= k < to ==> s[k] == ' ' || s[k] == '\t',
        to < s.len() ==> s[to] != ' ' && s[to] != '\t',
    ensures
        blanks_from(s, i) == to - i,
    decreases to - i,
{
    if i < to {
        lemma_blanks_are(s, i + 1, to);
    }
}

/// A text that does not open with a line of three dashes has no leading block, nor has one
/// in which no later line starts with three. It gets one in front, with the line endings
/// that the text has.
pub proof fn new_block_goes_in_front(content: Seq<char>, new: Seq<char>)
    requires
        !(starts_with(content, "---\n"@) || starts_with(content, "---\r\n"@)) || !has_text(
            content,
            "\n---"@,
        ),
    ensures
        block_span(content) is None,
        !has_text(content, "\r\n"@) ==> with_block(content, Some(new)) == Ok::<Seq<char>, ErrorView>(
            "---\n"@ + new + "\n---\n"@ + content,
        ),
        has_text(content, "\r\n"@) && !new.contains('\n') ==> with_block(content, Some(new)) == Ok::<
            Seq<char>,
            ErrorView,
        >("---\r\n"@ + new + "\r\n---\r\n"@ + content),
        with_block(content, None) matches Err(ErrorView::InvalidInput(_)),
{
    reveal_strlit("---\n");
    reveal_strlit("---\r\n");
    if block_span(content) is Some {
        let start: int = if starts_with(content, "---\n"@) {
            4
        } else {
            5
        };
        lemma_find_from(content, start, "\n---"@);
        assert(has_text(content, "\n---"@));
    }
    if !new.contains('\n') {
        lemma_crlf_plain(new, 0);
        assert(new.skip(0) =~= new);
    }
}

proof fn lemma_crlf_plain(s: Seq<char>, i: int)
    requires
        0 <= i <= s.len(),
        !s.contains('\n'),
    ensures
        crlf_from(s, i) == s.skip(i),
    decreases s.len() - i,
{
    if i < s.len() {
        assert(s.contains(s[i]));
        lemma_crlf_plain(s, i + 1);
        assert(s.skip(i) =~= seq![s[i]] + s.skip(i + 1));
    } else {
        assert(s.skip(i) =~= seq![]);
    }
}

/// Every line feed gets a carriage return in front of it, and nothing else changes.
pub proof fn line_feeds_get_carriage_returns(line: Seq<char>, rest: Seq<char>)
    requires
        !line.contains('\n'),
    ensures
        crlf_from(line.push('\n') + rest, 0) == line + seq!['\r', '\n'] + crlf_from(rest, 0),
        crlf_from(line, 0) == line,
    decreases line.len(),
{
    lemma_crlf_plain(line, 0);
    assert(line.skip(0) =~= line);
    let s = line.push('\n') + rest;
    lemma_crlf_front(s, 0, line.len() as int);
    assert(s.subrange(0, line.len() as int) =~= line);
    lemma_crlf_behind(line.push('\n'), rest, 0);
    assert(crlf_from(s, 0) =~= line + seq!['\r', '\n'] + crlf_from(rest, 0));
}

proof fn lemma_crlf_front(s: Seq<char>, i: int, to: int)
    requires
        0 <= i <= to <= s.len(),
        forall|k: int| i <= k < to ==> s[k] != '\n',
    ensures
        crlf_from(s, i) == s.subrange(i, to) + crlf_from(s, to),
    decreases to - i,
{
    if i < to {
        lemma_crlf_front(s, i + 1, to);
        assert(seq![s[i]] + (s.subrange(i + 1, to) + crlf_from(s, to)) =~= s.subrange(i, to)
            + crlf_from(s, to));
    } else {
        assert(s.subrange(i, to) + crlf_from(s, to) =~= crlf_from(s, to));
    }
}

proof fn lemma_crlf_behind(a: Seq<char>, b: Seq<char>, k: int)
    requires
        0 <= k <= b.len(),
    ensures
        crlf_from(a + b, a.len() + k) == crlf_from(b, k),
    decreases b.len() - k,
{
    if k < b.len() {
        assert((a + b)[a.len() + k] == b[k]);
        lemma_crlf_behind(a, b, k + 1);
    }
}

pub fn replace_block(content: &[char], block: Option<&String>) -> (r: Result<Vec<char>, WriteError>)
    ensures
        text_or_error(r) == with_block(
            content@,
            match block {
                Some(text) => Some(text@),
                None => None,
            },
        ),
{
    match frontmatter_span(content) {
        Some((start, end)) => match block {
            Some(text) => {
                let mut out = slice_to_vec(prefix_of(content, start));
                push_str(&mut out, text.as_str());
                push_all(&mut out, suffix_of(content, end));
                Ok(out)
            },
            None => {
                let at: usize = find_body_start(content, end);
                Ok(slice_to_vec(suffix_of(content, at)))
            },
        },
        None => match block {
            None => Err(
                WriteError::InvalidInput(
                    str_owned(
                        "update_frontmatter cannot create an empty frontmatter block; only null values were supplied",
                    ),
                ),
            ),
            Some(text) => {
                let ending = to_chars("\r\n");
                let inner = to_chars(text.as_str());
                if contains_text(content, ending.as_slice()) {
                    let mut out = to_chars("---\r\n");
                    let lines = to_crlf(inner.as_slice());
                    push_all(&mut out, lines.as_slice());
                    push_str(&mut out, "\r\n---\r\n");
                    push_all(&mut out, content);
                    Ok(out)
                } else {
                    let mut out = to_chars("---\n");
                    push_all(&mut out, inner.as_slice());
                    push_str(&mut out, "\n---\n");
                    push_all(&mut out, content);
                    Ok(out)
                }
            },
        },
    }
}

/// The inner text of a note's block, empty if it has none.
pub open spec fn block_text(content: Seq<char>) -> Seq<char> {
    match block_span(content) {
        Some((start, end)) => content.subrange(start, end),
        None => seq![],
    }
}

/// The text with the updates merged into its properties.
pub open spec fn with_properties(
    content: Seq<char>,
    updates: Seq<(Seq<char>, Seq<char>)>,
    note: Seq<char>,
) -> Result<Seq<char>, ErrorView> {
    match edited_block(block_text(content), updates, note) {
        Err(m) => Err(ErrorView::InvalidInput(m)),
        Ok(block) => with_block(content, block),
    }
}

pub fn merge_properties(content: &[char], updates: &Vec<(String, String)>, note: &str) -> (r: Result<
    Vec<char>,
    WriteError,
>)
    ensures
        text_or_error(r) == with_properties(content@, pair_views(updates@), note@),
{
    let block = match frontmatter_span(content) {
        Some((start, end)) => from_chars(slice_subrange(content, start, end)),
        None => String::new(),
    };
    assert(block@ =~= block_text(content@));
    match edit_frontmatter_block(block.as_str(), updates, note) {
        Err(e) => Err(e),
        Ok(FrontmatterEdit::Empty) => replace_block(content, None),
        Ok(FrontmatterEdit::Block(text)) => replace_block(content, Some(&text)),
    }
}

/// Replacing the inner text of a block keeps the text before it and the whole
/// text behind it.
pub proof fn body_survives_a_property_edit(content: Seq<char>, block: Seq<char>)
    requires
        block_span(content) is Some,
    ensures
        ({
            let (start, end) = block_span(content)->0;
            with_block(content, Some(block)) == Ok::<Seq<char>, ErrorView>(
                content.take(start) + block + content.skip(end),
            )
        }),
{
}

/// A marker in the text with carriage returns stands in the text without.
proof fn lemma_crlf_marker(s: Seq<char>, i: int, k: int)
    requires
        0 <= i <= s.len(),
        0 <= k,
        k + 3 < crlf_from(s, i).len(),
        crlf_from(s, i)[k] == '\n',
        crlf_from(s, i)[k + 1] == '-',
        crlf_from(s, i)[k + 2] == '-',
        crlf_from(s, i)[k + 3] == '-',
    ensures
        has_text(s, seq!['\n', '-', '-', '-']),
    decreases s.len() - i,
{
    let t = crlf_from(s, i);
    let rest = crlf_from(s, i + 1);
    if s[i] == '\n' {
        if k >= 2 {
            assert forall|j: int| 2 <= j < t.len() implies t[j] == rest[j - 2] by {}
            lemma_crlf_marker(s, i + 1, k - 2);
        } else {
            assert(k == 1);
            lemma_crlf_dashes(s, i + 1);
            assert(t[2] == rest[0] && t[3] == rest[1] && t[4] == rest[2]);
            assert(s.subrange(i, i + 4) =~= seq!['\n', '-', '-', '-']);
            assert(matches_at(s, i, seq!['\n', '-', '-', '-']));
        }
    } else {
        assert(t[0] == s[i]);
        assert(k >= 1);
        assert forall|j: int| 1 <= j < t.len() implies t[j] == rest[j - 1] by {}
        lemma_crlf_marker(s, i + 1, k - 1);
    }
}

proof fn lemma_crlf_dashes(s: Seq<char>, i: int)
    requires
        0 <= i <= s.len(),
    ensures
        crlf_from(s, i).len() >= 3 && crlf_from(s, i)[0] == '-' && crlf_from(s, i)[1] == '-'
            && crlf_from(s, i)[2] == '-' ==> i + 3 <= s.len() && s[i] == '-' && s[i + 1] == '-' && s[i
            + 2] == '-',
{
    reveal_with_fuel(crlf_from, 4);
}

/// Where the first marker behind a text without one stands.
proof fn lemma_first_marker(whole: Seq<char>, start: int, text: Seq<char>, at: int)
    requires
        0 <= start <= at,
        at + 4 <= whole.len(),
        whole.subrange(start, at) == text,
        whole.subrange(at, at + 4) == seq!['\n', '-', '-', '-'],
        !has_text(text, seq!['\n', '-', '-', '-']),
    ensures
        find_from(whole, start, seq!['\n', '-', '-', '-']) == at,
{
    let marker = seq!['\n', '-', '-', '-'];
    lemma_find_from(whole, start, marker);
    assert(matches_at(whole, at, marker));
    let found = find_from(whole, start, marker);
    if found < at {
        assert(whole.subrange(found, found + 4) == marker);
        assert(marker[1] == '-' && marker[2] == '-' && marker[3] == '-');
        assert(whole.subrange(at, at + 4)[0] == whole[at]);
        assert(whole.subrange(found, found + 4)[1] == whole[found + 1]);
        assert(whole.subrange(found, found + 4)[2] == whole[found + 2]);
        assert(whole.subrange(found, found + 4)[3] == whole[found + 3]);
        assert(found + 4 <= at);
        assert(text.subrange(found - start, found - start + 4) =~= marker);
        assert(matches_at(text, found - start, marker));
    }
}

/// Creating a block in a text and removing it again gives the text back.
pub proof fn removing_a_created_block_restores_the_text(content: Seq<char>, block: Seq<char>)
    requires
        block_span(content) is None,
        !has_text(block, "\n---"@),
    ensures
        ({
            let created = with_block(content, Some(block));
            created is Ok && with_block(created->Ok_0, None) == Ok::<Seq<char>, ErrorView>(content)
                && (!has_text(content, "\r\n"@) ==> block_text(created->Ok_0) == block)
        }),
{
    reveal_strlit("---\n");
    reveal_strlit("---\r\n");
    reveal_strlit("\n---");
    reveal_strlit("\n---\n");
    reveal_strlit("\r\n---\r\n");
    reveal_strlit("\r\n");
    let marker = seq!['\n', '-', '-', '-'];
    assert("\n---"@ =~= marker);
    if has_text(content, "\r\n"@) {
        let inner = crlf_from(block, 0);
        let whole = "---\r\n"@ + inner + "\r\n---\r\n"@ + content;
        let text = inner.push('\r');
        let at = 5 + text.len() as int;
        assert(whole.subrange(5, at) =~= text);
        assert(whole.subrange(at, at + 4) =~= marker);
        assert(!has_text(text, marker)) by {
            if has_text(text, marker) {
                let k = choose|k: int| matches_at(text, k, marker);
                assert(text.subrange(k, k + 4) == marker);
                assert(text.subrange(k, k + 4)[0] == text[k]);
                assert(text.subrange(k, k + 4)[1] == text[k + 1]);
                assert(text.subrange(k, k + 4)[2] == text[k + 2]);
                assert(text.subrange(k, k + 4)[3] == text[k + 3]);
                lemma_crlf_marker(block, 0, k);
            }
        }
        assert(!starts_with(whole, "---\n"@)) by {
            assert(whole[3] == '\r');
            if starts_with(whole, "---\n"@) {
                assert(whole.take(4)[3] == '\n');
            }
        }
        assert(whole.take(5) =~= "---\r\n"@);
        lemma_first_marker(whole, 5, text, at);
        assert(block_span(whole) == Some((5int, at)));
        assert(whole[at + 4] == '\r' && whole[at + 5] == '\n');
        assert(blanks_from(whole, at + 4) == 0);
        assert(whole.skip(at + 6) =~= content);
    } else {
        let whole = "---\n"@ + block + "\n---\n"@ + content;
        let at = 4 + block.len() as int;
        assert(whole.subrange(4, at) =~= block);
        assert(whole.subrange(at, at + 4) =~= marker);
        assert(whole.take(4) =~= "---\n"@);
        lemma_first_marker(whole, 4, block, at);
        assert(block_span(whole) == Some((4int, at)));
        assert(block_text(whole) =~= block);
        assert(whole[at + 4] == '\n');
        assert(blanks_from(whole, at + 4) == 0);
        assert(whole.skip(at + 5) =~= content);
    }
}

/// The update that deletes every key that the updates name.
pub open spec fn deletions(updates: Seq<(Seq<char>, Seq<char>)>) -> Seq<(Seq<char>, Seq<char>)> {
    Seq::new(updates.len(), |i: int| (updates[i].0, "null"@))
}

proof fn lemma_deletion_named(updates: Seq<(Seq<char>, Seq<char>)>, key: Seq<char>, i: int)
    requires
        0 <= i <= updates.len(),
    ensures
        value_from(deletions(updates), key, i) == (if value_from(updates, key, i) is Some {
            Some("null"@)
        } else {
            None::<Seq<char>>
        }),
    decreases updates.len() - i,
{
    if i < updates.len() {
        lemma_deletion_named(updates, key, i + 1);
    }
}

/// Setting properties in a note without any and deleting them again gives the
/// note's text back, to the last character. The block that was created may not
/// hold the start of a marker line, where a reader would end it, and in a note
/// with carriage returns it has to read, with those, as naming no other key.
pub proof fn deleting_created_properties_restores_the_text(
    content: Seq<char>,
    updates: Seq<(Seq<char>, Seq<char>)>,
    note: Seq<char>,
)
    requires
        block_span(content) is None,
        with_properties(content, updates, note) is Ok,
        with_properties(
            with_properties(content, updates, note)->Ok_0,
            deletions(updates),
            note,
        ) is Ok,
        !has_text((edited_block(seq![], updates, note)->Ok_0)->0, "\n---"@),
        has_text(content, "\r\n"@) ==> names_only(
            block_mapping(block_text(with_properties(content, updates, note)->Ok_0)),
            updates,
        ),
    ensures
        with_properties(
            with_properties(content, updates, note)->Ok_0,
            deletions(updates),
            note,
        ) == Ok::<Seq<char>, ErrorView>(content),
{
    let created = with_properties(content, updates, note)->Ok_0;
    assert(block_text(content) =~= seq![]);
    let block = (edited_block(seq![], updates, note)->Ok_0)->0;
    removing_a_created_block_restores_the_text(content, block);
    let none: Seq<char> = seq![];
    assert(trim(none).len() == 0);
    assert(block_mapping(none) == Some(Seq::<(Seq<char>, Seq<char>)>::empty()));
    let inner = block_text(created);
    if !has_text(content, "\r\n"@) {
        assert(inner == block);
    }
    match block_mapping(inner) {
        Some(table) => {
            assert forall|key: Seq<char>| (#[trigger] merged_value(
                table,
                deletions(updates),
                key,
            )) is None by {
                lemma_deletion_named(updates, key, 0);
                if value_of(table, key) is Some && !has_text(content, "\r\n"@) {
                    assert(value_of(table, key) == merged_value(seq![], updates, key));
                }
            }
            assert(merges_to_nothing(table, deletions(updates)));
        },
        None => {},
    }
}

/// Every key of the table is named by an update.
pub open spec fn names_only(
    table: Option<Seq<(Seq<char>, Seq<char>)>>,
    updates: Seq<(Seq<char>, Seq<char>)>,
) -> bool {
    table is Some ==> forall|key: Seq<char>|
        (#[trigger] value_of(table->0, key)) is Some ==> value_of(updates, key) is Some
}

} // verus!
