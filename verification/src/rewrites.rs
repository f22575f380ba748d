//! Retargeting wikilinks when a note moves or goes.

use vstd::prelude::*;
use vstd::slice::{slice_subrange, slice_to_vec};

use crate::index::{linked_note, listed_notes};
use crate::links::{
    lemma_targets_behind, line_targets, line_targets_from, links_are_read_one_after_the_other,
    unclosed_links_are_not_read, without_pair,
};
use crate::markdown::{
    code_spans_are_left_out, count_run, fence_line, fenced_block_is_kept, holds_run, is_code,
    keeps_fence, lemma_run_behind, lemma_run_in_code, lemma_run_is, lemma_run_len, lemma_span_runs,
    no_fence, plain_line_is_rewritten, rewrite_lines, rewrite_plain_lines, run_len, ticks,
    visible_text, with_span, LineRewrite,
};
use crate::paths::{
    body_suffix, body_target, closes_target, find_target_end, lemma_closer_is_found, link_target,
    link_target_of, normalize_title, opt_chars, swapped_target_reads_back, target_end, title_key,
};
use crate::tables::{body_of, find_body, NoteBody};
use crate::text::{
    after_last, chars_eq, contains_char, find_from, find_text, from_chars, last_start,
    lemma_find_behind, lemma_find_from, lemma_find_is, lemma_find_none, lemma_last_start,
    lemma_pair_at, lemma_triple_at, lowercase, matches_at, opt_text, prefix_of, push_all, raw_lines,
    str_eq, strs, suffix_of, tail_after_last, to_chars, trim, trimmed,
};
use crate::types::{notes_view, NoteEntry, NoteView, VaultIndex};
use crate::write_types::{lemma_rewrites_push, rewrite_views, ErrorView, TextRewrite, WriteError};

verus! {

// ---------------------------------------------------------------------------
// Rewriting the links of a text
// ---------------------------------------------------------------------------

/// A new target for every link target; `None` removes the link.
pub trait Retarget {
    spec fn target_image(&self) -> spec_fn(Seq<char>) -> Option<Seq<char>>;

    fn retarget(&self, target: &[char]) -> (r: Option<Vec<char>>)
        ensures
            opt_chars(r) == self.target_image()(target@),
    ;
}

/// A link body with its target replaced; alias and anchor stay. `None` removes
/// the link. A body without a target stays as it is.
pub open spec fn link_body_image(
    body: Seq<char>,
    f: spec_fn(Seq<char>) -> Option<Seq<char>>,
) -> Option<Seq<char>> {
    let target = body_target(body, true);
    if target.len() == 0 {
        Some(body)
    } else {
        match f(target) {
            Some(new_target) => Some(new_target + body_suffix(body, true)),
            None => None,
        }
    }
}

pub fn transform_wikilink_body<T: Retarget>(body: &[char], t: &T) -> (r: Option<Vec<char>>)
    ensures
        opt_chars(r) == link_body_image(body@, t.target_image()),
{
    let end: usize = find_target_end(body, true);
    let target = trimmed(prefix_of(body, end));
    if target.len() == 0 {
        return Some(slice_to_vec(body));
    }
    match t.retarget(target) {
        Some(new_target) => {
            let mut out = new_target;
            push_all(&mut out, suffix_of(body, end));
            Some(out)
        },
        None => None,
    }
}

/// A link or an embed opens at position `i`.
pub open spec fn link_opens(s: Seq<char>, i: int) -> bool {
    matches_at(s, i, seq!['[', '[']) || matches_at(s, i, seq!['!', '[', '['])
}

/// Where the body of the link that opens at `i` starts.
pub open spec fn link_body_start(s: Seq<char>, i: int) -> int {
    if s[i] == '!' {
        i + 3
    } else {
        i + 2
    }
}

/// The link that opens at `i` and closes at `end`, rewritten.
pub open spec fn link_image(
    s: Seq<char>,
    i: int,
    end: int,
    f: spec_fn(Seq<char>) -> Option<Seq<char>>,
) -> Seq<char> {
    match link_body_image(s.subrange(link_body_start(s, i), end), f) {
        Some(body) => s.subrange(i, link_body_start(s, i)) + body + seq![']', ']'],
        None => seq![],
    }
}

/// The state of code spans behind a run of `n` backticks: `m` is the length of
/// the run that opened the current span, 0 outside spans.
pub open spec fn span_after(m: nat, n: nat) -> nat {
    if m == 0 {
        n
    } else if n == m {
        0
    } else {
        m
    }
}

/// The line from `i` on with its links rewritten. Links in code spans and links
/// that are never closed stay as they are.
pub open spec fn links_from(
    s: Seq<char>,
    i: int,
    m: nat,
    f: spec_fn(Seq<char>) -> Option<Seq<char>>,
) -> Seq<char>
    decreases s.len() - i via links_from_decreases
{
    if i < 0 || i >= s.len() {
        seq![]
    } else if s[i] == '`' {
        let n = run_len(s, i, '`');
        s.subrange(i, i + n) + links_from(s, i + n, span_after(m, n), f)
    } else if m == 0 && link_opens(s, i) && find_from(s, link_body_start(s, i), seq![']', ']']) != -1 {
        let end = find_from(s, link_body_start(s, i), seq![']', ']']);
        link_image(s, i, end, f) + links_from(s, end + 2, m, f)
    } else {
        seq![s[i]] + links_from(s, i + 1, m, f)
    }
}

#[via_fn]
proof fn links_from_decreases(
    s: Seq<char>,
    i: int,
    m: nat,
    f: spec_fn(Seq<char>) -> Option<Seq<char>>,
) {
    if 0 <= i < s.len() {
        lemma_run_len(s, i, '`');
        lemma_find_from(s, link_body_start(s, i), seq![']', ']']);
    }
}

/// A line with its links rewritten.
pub open spec fn links_line(line: Seq<char>, f: spec_fn(Seq<char>) -> Option<Seq<char>>) -> Seq<char> {
    links_from(line, 0, 0, f)
}

/// A text with its links rewritten, outside code.
pub open spec fn links_text(content: Seq<char>, f: spec_fn(Seq<char>) -> Option<Seq<char>>) -> Seq<
    char,
> {
    rewrite_lines(content, |line: Seq<char>| links_line(line, f))
}

fn opens_link(s: &[char], i: usize) -> (r: bool)
    requires
        i < s@.len(),
    ensures
        r == link_opens(s@, i as int),
{
    let left: usize = s.len() - i;
    let plain = left >= 2 && s[i] == '[' && s[i + 1] == '[';
    let embed = left >= 3 && s[i] == '!' && s[i + 1] == '[' && s[i + 2] == '[';
    proof {
        let two = seq!['[', '['];
        let three = seq!['!', '[', '['];
        if plain {
            assert(s@.subrange(i as int, i + 2) =~= two);
        }
        if matches_at(s@, i as int, two) {
            assert(s@.subrange(i as int, i + 2)[0] == s@[i as int]);
            assert(s@.subrange(i as int, i + 2)[1] == s@[i + 1]);
        }
        if embed {
            assert(s@.subrange(i as int, i + 3) =~= three);
        }
        if matches_at(s@, i as int, three) {
            assert(s@.subrange(i as int, i + 3)[0] == s@[i as int]);
            assert(s@.subrange(i as int, i + 3)[1] == s@[i + 1]);
            assert(s@.subrange(i as int, i + 3)[2] == s@[i + 2]);
        }
    }
    plain || embed
}

pub fn transform_wikilinks_in_line<T: Retarget>(line: &[char], t: &T) -> (r: Vec<char>)
    ensures
        r@ == links_line(line@, t.target_image()),
{
    let ghost f = t.target_image();
    let mut close: Vec<char> = Vec::new();
    close.push(']');
    close.push(']');
    assert(close@ =~= seq![']', ']']);
    let mut out: Vec<char> = Vec::new();
    let mut i: usize = 0;
    let mut m: usize = 0;
    assert(out@ + links_from(line@, 0, 0, f) =~= links_line(line@, f));
    while i < line.len()
        invariant
            0 <= i <= line@.len(),
            f == t.target_image(),
            close@ == seq![']', ']'],
            links_line(line@, f) == out@ + links_from(line@, i as int, m as nat, f),
        decreases line@.len() - i,
    {
        let ghost start = out@;
        if line[i] == '`' {
            let n: usize = count_run(line, i, '`');
            push_all(&mut out, slice_subrange(line, i, i + n));
            proof {
                let run = line@.subrange(i as int, i + n);
                let rest = links_from(line@, i + n, span_after(m as nat, n as nat), f);
                assert(out@ + rest =~= start + (run + rest));
            }
            if m == 0 {
                m = n;
            } else if n == m {
                m = 0;
            }
            i = i + n;
        } else {
            let closed: Option<usize> = if m == 0 && opens_link(line, i) {
                let from: usize = if line[i] == '!' {
                    i + 3
                } else {
                    i + 2
                };
                find_text(line, from, close.as_slice())
            } else {
                None
            };
            match closed {
                Some(end) => {
                    let from: usize = if line[i] == '!' {
                        i + 3
                    } else {
                        i + 2
                    };
                    match transform_wikilink_body(slice_subrange(line, from, end), t) {
                        Some(body) => {
                            push_all(&mut out, slice_subrange(line, i, from));
                            push_all(&mut out, body.as_slice());
                            push_all(&mut out, close.as_slice());
                        },
                        None => {},
                    }
                    proof {
                        let here = link_image(line@, i as int, end as int, f);
                        let rest = links_from(line@, end + 2, m as nat, f);
                        assert(out@ =~= start + here);
                        assert(out@ + rest =~= start + (here + rest));
                    }
                    i = end + 2;
                },
                None => {
                    out.push(line[i]);
                    proof {
                        let rest = links_from(line@, i + 1, m as nat, f);
                        assert(out@ + rest =~= start + (seq![line@[i as int]] + rest));
                    }
                    i = i + 1;
                },
            }
        }
    }
    assert(out@ =~= links_line(line@, f));
    out
}

struct LinkLines<'a, T> {
    inner: &'a T,
}

impl<'a, T: Retarget> LineRewrite for LinkLines<'a, T> {
    closed spec fn image(&self) -> spec_fn(Seq<char>) -> Seq<char> {
        |line: Seq<char>| links_line(line, self.inner.target_image())
    }

    fn rewrite_line(&self, line: &[char]) -> (r: Vec<char>) {
        transform_wikilinks_in_line(line, self.inner)
    }
}

pub fn transform_wikilinks<T: Retarget>(content: &[char], t: &T) -> (r: Vec<char>)
    ensures
        r@ == links_text(content@, t.target_image()),
{
    let lines = LinkLines { inner: t };
    rewrite_plain_lines(content, &lines)
}

proof fn lemma_no_link_keeps(
    s: Seq<char>,
    i: int,
    m: nat,
    f: spec_fn(Seq<char>) -> Option<Seq<char>>,
)
    requires
        0 <= i <= s.len(),
        forall|k: int| 0 <= k < s.len() - 1 ==> !(s[k] == '[' && #[trigger] s[k + 1] == '['),
    ensures
        links_from(s, i, m, f) == s.skip(i),
    decreases s.len() - i,
{
    if i < s.len() {
        if s[i] == '`' {
            lemma_run_len(s, i, '`');
            let n = run_len(s, i, '`');
            lemma_no_link_keeps(s, i + n, span_after(m, n), f);
            assert(s.skip(i) =~= s.subrange(i, i + n) + s.skip(i + n));
        } else {
            if link_opens(s, i) {
                if matches_at(s, i, seq!['[', '[']) {
                    assert(s.subrange(i, i + 2)[0] == s[i]);
                    assert(s.subrange(i, i + 2)[1] == s[i + 1]);
                } else {
                    assert(s.subrange(i, i + 3)[1] == s[i + 1]);
                    assert(s.subrange(i, i + 3)[2] == s[i + 1 + 1]);
                }
            }
            lemma_no_link_keeps(s, i + 1, m, f);
            assert(s.skip(i) =~= seq![s[i]] + s.skip(i + 1));
        }
    } else {
        assert(s.skip(i) =~= seq![]);
    }
}

/// A line that opens no link is never rewritten.
pub proof fn line_without_links_is_kept(
    line: Seq<char>,
    f: spec_fn(Seq<char>) -> Option<Seq<char>>,
)
    requires
        forall|k: int| 0 <= k < line.len() - 1 ==> !(line[k] == '[' && #[trigger] line[k + 1] == '['),
    ensures
        links_line(line, f) == line,
{
    lemma_no_link_keeps(line, 0, 0, f);
    assert(line.skip(0) =~= line);
}

proof fn lemma_no_close_keeps(
    s: Seq<char>,
    i: int,
    m: nat,
    f: spec_fn(Seq<char>) -> Option<Seq<char>>,
)
    requires
        0 <= i <= s.len(),
        forall|k: int| i <= k < s.len() - 1 ==> !(s[k] == ']' && #[trigger] s[k + 1] == ']'),
    ensures
        links_from(s, i, m, f) == s.skip(i),
    decreases s.len() - i,
{
    if i < s.len() {
        if s[i] == '`' {
            lemma_run_len(s, i, '`');
            let n = run_len(s, i, '`');
            lemma_no_close_keeps(s, i + n, span_after(m, n), f);
            assert(s.skip(i) =~= s.subrange(i, i + n) + s.skip(i + n));
        } else {
            let start = link_body_start(s, i);
            let close = seq![']', ']'];
            assert forall|k: int| start <= k implies !#[trigger] matches_at(s, k, close) by {
                lemma_pair_at(s, k, ']', ']');
            }
            lemma_find_none(s, start, close);
            lemma_no_close_keeps(s, i + 1, m, f);
            assert(s.skip(i) =~= seq![s[i]] + s.skip(i + 1));
        }
    } else {
        assert(s.skip(i) =~= seq![]);
    }
}

/// A line that closes no link is never rewritten.
pub proof fn line_without_closed_links_is_kept(
    line: Seq<char>,
    f: spec_fn(Seq<char>) -> Option<Seq<char>>,
)
    requires
        without_pair(line, ']'),
    ensures
        links_line(line, f) == line,
{
    lemma_no_close_keeps(line, 0, 0, f);
    assert(line.skip(0) =~= line);
}

proof fn lemma_link_opens(s: Seq<char>, i: int)
    ensures
        link_opens(s, i) <==> 0 <= i && ((i + 2 <= s.len() && s[i] == '[' && s[i + 1] == '[') || (i
            + 3 <= s.len() && s[i] == '!' && s[i + 1] == '[' && s[i + 2] == '[')),
{
    lemma_pair_at(s, i, '[', '[');
    lemma_triple_at(s, i, '!', '[', '[');
}

proof fn lemma_links_behind(
    a: Seq<char>,
    b: Seq<char>,
    k: int,
    m: nat,
    f: spec_fn(Seq<char>) -> Option<Seq<char>>,
)
    requires
        0 <= k <= b.len(),
    ensures
        links_from(a + b, a.len() + k, m, f) == links_from(b, k, m, f),
    decreases b.len() - k,
{
    let s = a + b;
    let at = a.len() + k;
    if k < b.len() {
        assert(s[at] == b[k]);
        lemma_run_behind(a, b, k, '`');
        lemma_run_len(b, k, '`');
        lemma_link_opens(s, at);
        lemma_link_opens(b, k);
        assert(k + 1 < b.len() ==> s[at + 1] == b[k + 1]);
        assert(k + 2 < b.len() ==> s[at + 2] == b[k + 2]);
        let start = link_body_start(b, k);
        let close = seq![']', ']'];
        lemma_find_behind(a, b, start, close);
        lemma_find_from(b, start, close);
        let end = find_from(b, start, close);
        if b[k] == '`' {
            let n = run_len(b, k, '`');
            lemma_links_behind(a, b, k + n, span_after(m, n), f);
            assert(s.subrange(at, at + n) =~= b.subrange(k, k + n));
        } else if m == 0 && link_opens(b, k) && end != -1 {
            lemma_links_behind(a, b, end + 2, m, f);
            assert(s.subrange(a.len() + start, a.len() + end) =~= b.subrange(start, end));
            assert(s.subrange(at, a.len() + start) =~= b.subrange(k, start));
        } else {
            lemma_links_behind(a, b, k + 1, m, f);
        }
    }
}

/// Every link that the text opens it closes.
#[verifier::opaque]
pub open spec fn closes_its_links(s: Seq<char>) -> bool {
    forall|i: int|
        0 <= i < s.len() - 1 && s[i] == '[' && #[trigger] s[i + 1] == '[' ==> exists|j: int|
            i + 2 <= j < s.len() - 1 && s[j] == ']' && #[trigger] s[j + 1] == ']'
}

proof fn lemma_links_before(
    a: Seq<char>,
    b: Seq<char>,
    i: int,
    f: spec_fn(Seq<char>) -> Option<Seq<char>>,
)
    requires
        0 <= i <= a.len(),
        !a.contains('`'),
        closes_its_links(a),
        b.len() > 0 ==> b[0] != '[',
    ensures
        links_from(a + b, i, 0, f) == links_from(a, i, 0, f) + links_from(b, 0, 0, f),
    decreases a.len() - i,
{
    reveal(closes_its_links);
    let s = a + b;
    let rest = links_from(b, 0, 0, f);
    if i < a.len() {
        assert(s[i] == a[i]);
        assert(a.contains(a[i]));
        lemma_link_opens(s, i);
        lemma_link_opens(a, i);
        assert(i + 1 < a.len() ==> s[i + 1] == a[i + 1]);
        assert(i + 2 < a.len() ==> s[i + 2] == a[i + 2]);
        assert(a.len() < s.len() ==> s[a.len() as int] == b[0]);
        if link_opens(a, i) {
            let start = link_body_start(a, i);
            let close = seq![']', ']'];
            let first = start - 2;
            assert(a[first] == '[' && a[first + 1] == '[');
            let j = choose|j: int|
                first + 2 <= j < a.len() - 1 && a[j] == ']' && #[trigger] a[j + 1] == ']';
            lemma_pair_at(a, j, ']', ']');
            lemma_find_from(a, start, close);
            lemma_find_from(s, start, close);
            let end = find_from(a, start, close);
            assert(matches_at(a, j, close));
            assert(end != -1);
            lemma_pair_at(a, end, ']', ']');
            lemma_pair_at(s, end, ']', ']');
            assert(matches_at(s, end, close));
            let other = find_from(s, start, close);
            lemma_pair_at(s, other, ']', ']');
            lemma_pair_at(a, other, ']', ']');
            assert(other == end);
            assert(s.subrange(start, end) =~= a.subrange(start, end));
            assert(s.subrange(i, start) =~= a.subrange(i, start));
            lemma_links_before(a, b, end + 2, f);
            let here = link_image(a, i, end, f);
            assert(here + (links_from(a, end + 2, 0, f) + rest) =~= here + links_from(
                a,
                end + 2,
                0,
                f,
            ) + rest);
        } else {
            lemma_links_before(a, b, i + 1, f);
            assert(seq![a[i]] + (links_from(a, i + 1, 0, f) + rest) =~= seq![a[i]] + links_from(
                a,
                i + 1,
                0,
                f,
            ) + rest);
        }
    } else {
        lemma_links_behind(a, b, 0, 0, f);
        assert(links_from(a, i, 0, f) + rest =~= rest);
    }
}

proof fn lemma_links_in_code(
    s: Seq<char>,
    from: int,
    code: Seq<char>,
    n: nat,
    i: int,
    f: spec_fn(Seq<char>) -> Option<Seq<char>>,
)
    requires
        0 <= from <= i <= from + code.len() <= s.len(),
        s.subrange(from, from + code.len()) == code,
        is_code(code, n),
        from < i < from + code.len() ==> s[i - 1] != '`' || s[i] != '`',
    ensures
        links_from(s, i, n, f) == s.subrange(i, from + code.len()) + links_from(
            s,
            from + code.len(),
            n,
            f,
        ),
    decreases from + code.len() - i,
{
    let to = from + code.len();
    let rest = links_from(s, to, n, f);
    if i < to {
        let next = if s[i] == '`' {
            lemma_run_in_code(s, from, code, n, i);
            i + run_len(s, i, '`')
        } else {
            i + 1
        };
        lemma_links_in_code(s, from, code, n, next, f);
        assert(s.subrange(i, next) + (s.subrange(next, to) + rest) =~= s.subrange(i, to) + rest);
        assert(s.subrange(i, i + 1) =~= seq![s[i]]);
    } else {
        assert(s.subrange(i, to) + rest =~= rest);
    }
}

proof fn lemma_links_from_span(
    s: Seq<char>,
    at: int,
    n: nat,
    code: Seq<char>,
    f: spec_fn(Seq<char>) -> Option<Seq<char>>,
)
    requires
        0 <= at,
        at + n + code.len() <= s.len(),
        s[at] == '`',
        run_len(s, at, '`') == n,
        s.subrange(at + n, at + n + code.len()) == code,
        is_code(code, n),
    ensures
        links_from(s, at, 0, f) == ticks(n) + code + links_from(s, at + n + code.len(), n, f),
{
    let from = at + n;
    let to = from + code.len();
    lemma_run_len(s, at, '`');
    lemma_links_in_code(s, from, code, n, from, f);
    let rest = links_from(s, to, n, f);
    assert(s.subrange(at, from) =~= ticks(n));
    assert(links_from(s, at, 0, f) == ticks(n) + (code + rest));
    assert(ticks(n) + (code + rest) =~= ticks(n) + code + rest);
}

proof fn lemma_closed_span(
    head: Seq<char>,
    n: nat,
    code: Seq<char>,
    tail: Seq<char>,
    f: spec_fn(Seq<char>) -> Option<Seq<char>>,
)
    requires
        !head.contains('`'),
        closes_its_links(head),
        is_code(code, n),
        tail.len() > 0 ==> tail[0] != '`',
    ensures
        links_line(with_span(head, n, code, tail), f) == links_line(head, f) + ticks(n) + code
            + ticks(n) + links_line(tail, f),
{
    let s = with_span(head, n, code, tail);
    let at = head.len() as int;
    let to = at + n + code.len();
    lemma_span_runs(head, n, code, tail);
    let b = ticks(n) + code + ticks(n) + tail;
    assert(s =~= head + b);
    assert(b[0] == '`');
    lemma_links_before(head, b, 0, f);
    lemma_links_behind(head, b, 0, 0, f);
    lemma_links_from_span(s, at, n, code, f);
    let front = head + ticks(n) + code + ticks(n);
    assert(s =~= front + tail);
    lemma_links_behind(front, tail, 0, 0, f);
    assert(s.subrange(to, to + n) =~= ticks(n));
    let start = links_line(head, f);
    let end = links_line(tail, f);
    assert(links_from(s, to, n, f) == ticks(n) + end);
    assert(start + (ticks(n) + code + (ticks(n) + end)) =~= start + ticks(n) + code + ticks(n) + end);
}

proof fn lemma_open_span(
    head: Seq<char>,
    n: nat,
    code: Seq<char>,
    f: spec_fn(Seq<char>) -> Option<Seq<char>>,
)
    requires
        !head.contains('`'),
        closes_its_links(head),
        is_code(code, n),
    ensures
        links_line(head + ticks(n) + code, f) == links_line(head, f) + ticks(n) + code,
{
    let u = head + ticks(n) + code;
    let at = head.len() as int;
    let from = at + n;
    let to = from + code.len();
    let c = ticks(n) + code;
    assert(u =~= head + c);
    assert(c[0] == '`');
    assert(u[at] == '`');
    assert(u.subrange(from, to) =~= code);
    assert(u[from] == code[0]);
    lemma_run_is(u, at, n, '`');
    lemma_links_before(head, c, 0, f);
    lemma_links_behind(head, c, 0, 0, f);
    lemma_links_from_span(u, at, n, code, f);
    let start = links_line(head, f);
    assert(links_from(u, to, n, f) =~= seq![]);
    assert(start + (ticks(n) + code + seq![]) =~= start + ticks(n) + code);
}

/// A code span ends at the next run of as many backticks as opened it: the links
/// in front of it and behind it are rewritten, and the span is kept. A span that
/// is never closed is kept to the end of the line. A link that the text in front
/// of the backticks opens has to be closed there; one that is not is closed by the
/// next brackets, wherever they stand.
pub proof fn links_around_code_spans_are_rewritten(
    head: Seq<char>,
    n: nat,
    code: Seq<char>,
    tail: Seq<char>,
    f: spec_fn(Seq<char>) -> Option<Seq<char>>,
)
    requires
        !head.contains('`'),
        closes_its_links(head),
        is_code(code, n),
        tail.len() > 0 ==> tail[0] != '`',
    ensures
        links_line(head + ticks(n) + code + ticks(n) + tail, f) == links_line(head, f) + ticks(n)
            + code + ticks(n) + links_line(tail, f),
        links_line(head + ticks(n) + code, f) == links_line(head, f) + ticks(n) + code,
{
    lemma_closed_span(head, n, code, tail, f);
    lemma_open_span(head, n, code, f);
}

/// What becomes of a link between `open` and its closing brackets: its target is
/// replaced and all that follows the target stays; without a new target the whole
/// link goes. A link without a target stays as it is.
pub open spec fn retargeted_link(
    open: Seq<char>,
    body: Seq<char>,
    f: spec_fn(Seq<char>) -> Option<Seq<char>>,
) -> Seq<char> {
    if body_target(body, true).len() == 0 {
        open + body + seq![']', ']']
    } else {
        match f(body_target(body, true)) {
            Some(new) => open + new + body_suffix(body, true) + seq![']', ']'],
            None => seq![],
        }
    }
}

proof fn lemma_front_opens_none(a: Seq<char>, embed: bool, s: Seq<char>, k: int)
    requires
        0 <= k < a.len(),
        !a.contains('`'),
        without_pair(a, '['),
        a.len() > 0 && !embed ==> a.last() != '!' && a.last() != '[',
        a.len() + 2 <= s.len(),
        s.take(a.len() as int) == a,
        s[a.len() as int] == (if embed {
            '!'
        } else {
            '['
        }),
    ensures
        s[k] != '`' && !link_opens(s, k),
{
    let n = a.len() as int;
    lemma_link_opens(s, k);
    assert(forall|j: int| 0 <= j < n ==> s[j] == s.take(n)[j]);
    assert(a.contains(a[k]));
    if k + 1 < n {
        assert(!(a[k] == '[' && a[k + 1] == '['));
        if k + 2 < n {
            assert(!(a[k + 1] == '[' && a[k + 1 + 1] == '['));
        }
    }
}

/// The links of a line are rewritten one after the other. The first opens at the
/// first two square brackets outside code, with an exclamation mark in front of
/// them if it is an embed, and closes at the next two. What is in front of it is
/// kept, and what follows is rewritten on its own.
pub proof fn links_are_rewritten_one_after_the_other(
    a: Seq<char>,
    embed: bool,
    body: Seq<char>,
    b: Seq<char>,
    f: spec_fn(Seq<char>) -> Option<Seq<char>>,
)
    requires
        !a.contains('`'),
        without_pair(a, '['),
        a.len() > 0 && !embed ==> a.last() != '!' && a.last() != '[',
        without_pair(body.push(']'), ']'),
    ensures
        ({
            let open = if embed {
                seq!['!', '[', '[']
            } else {
                seq!['[', '[']
            };
            links_line(a + open + body + seq![']', ']'] + b, f) == a + retargeted_link(open, body, f)
                + links_line(b, f)
        }),
{
    let open = if embed {
        seq!['!', '[', '[']
    } else {
        seq!['[', '[']
    };
    let close = seq![']', ']'];
    let front = a + open + body + close;
    let s = front + b;
    let n = a.len() as int;
    assert(s.take(n) =~= a);
    assert(s[n] == open[0]);
    assert forall|k: int| 0 <= k < n implies s[k] != '`' by {
        lemma_front_opens_none(a, embed, s, k);
    }
    assert forall|k: int| 0 <= k < n implies !#[trigger] link_opens(s, k) by {
        lemma_front_opens_none(a, embed, s, k);
    }
    lemma_links_plain(s, 0, n, f);
    assert(s.subrange(0, n) =~= a);
    assert(s.skip(n) =~= open + body + close + b);
    lemma_first_link(s, n, open, body, b, f);
    assert(s.skip(front.len() as int) =~= b);
    lemma_links_behind(front, b, 0, 0, f);
    let rest = links_line(b, f);
    assert(a + (retargeted_link(open, body, f) + rest) =~= a + retargeted_link(open, body, f) + rest);
}

proof fn lemma_first_link(
    s: Seq<char>,
    n: int,
    open: Seq<char>,
    body: Seq<char>,
    b: Seq<char>,
    f: spec_fn(Seq<char>) -> Option<Seq<char>>,
)
    requires
        0 <= n <= s.len(),
        s.skip(n) == open + body + seq![']', ']'] + b,
        open == seq!['!', '[', '['] || open == seq!['[', '['],
        without_pair(body.push(']'), ']'),
    ensures
        links_from(s, n, 0, f) == retargeted_link(open, body, f) + links_from(
            s,
            n + open.len() + body.len() + 2,
            0,
            f,
        ),
{
    let close = seq![']', ']'];
    let t = open + body + close + b;
    let start = n + open.len();
    let end = start + body.len();
    assert(forall|k: int| 0 <= k < t.len() ==> s[n + k] == #[trigger] s.skip(n)[k]);
    assert(s[n] == t[0] && s[n + 1] == t[1] && s[n + 2] == t[2]);
    assert(t[0] == open[0] && t[1] == open[1]);
    assert(open.len() == 3 ==> t[2] == open[2]);
    assert forall|k: int| start <= k < end implies !#[trigger] matches_at(s, k, close) by {
        lemma_pair_at(s, k, ']', ']');
        let x = k - start;
        let p = body.push(']');
        assert(s[k] == t[k - n] && s[k + 1] == t[k + 1 - n]);
        assert(p[x] == t[k - n] && p[x + 1] == t[k + 1 - n]);
    }
    assert(s.skip(n).len() == t.len());
    assert(t[end - n] == ']' && t[end + 1 - n] == ']');
    assert(s[end] == t[end - n] && s[end + 1] == t[end + 1 - n]);
    lemma_pair_at(s, end, ']', ']');
    lemma_find_is(s, start, end, close);
    lemma_link_opens(s, n);
    assert(link_body_start(s, n) == start);
    assert(s.subrange(start, end) =~= body) by {
        assert forall|k: int| 0 <= k < body.len() implies s[start + k] == body[k] by {
            assert(s[start + k] == t[open.len() + k]);
        }
    }
    assert(s.subrange(n, start) =~= open) by {
        assert forall|k: int| 0 <= k < open.len() implies s[n + k] == open[k] by {
            assert(s[n + k] == t[k]);
        }
    }
    if body_target(body, true).len() > 0 && f(body_target(body, true)) is Some {
        let new = f(body_target(body, true))->0;
        assert(open + (new + body_suffix(body, true)) + close =~= open + new + body_suffix(
            body,
            true,
        ) + close);
    }
}

proof fn lemma_links_plain(
    s: Seq<char>,
    i: int,
    to: int,
    f: spec_fn(Seq<char>) -> Option<Seq<char>>,
)
    requires
        0 <= i <= to <= s.len(),
        forall|k: int| i <= k < to ==> s[k] != '`',
        forall|k: int| i <= k < to ==> !#[trigger] link_opens(s, k),
    ensures
        links_from(s, i, 0, f) == s.subrange(i, to) + links_from(s, to, 0, f),
    decreases to - i,
{
    let rest = links_from(s, to, 0, f);
    if i < to {
        assert(!link_opens(s, i));
        lemma_links_plain(s, i + 1, to, f);
        assert(seq![s[i]] + (s.subrange(i + 1, to) + rest) =~= s.subrange(i, to) + rest);
    } else {
        assert(s.subrange(i, to) + rest =~= rest);
    }
}

/// The links of a text are rewritten line by line; line endings stay.
pub proof fn links_are_rewritten_line_by_line(
    line: Seq<char>,
    rest: Seq<char>,
    f: spec_fn(Seq<char>) -> Option<Seq<char>>,
)
    requires
        !line.contains('\n'),
        no_fence(line),
    ensures
        links_text(line.push('\n') + rest, f) == links_line(line, f) + seq!['\n'] + links_text(
            rest,
            f,
        ),
        line.len() > 0 ==> links_text(line, f) == links_line(line, f),
        links_text(seq![], f) == Seq::<char>::empty(),
{
    plain_line_is_rewritten(line, rest, |line: Seq<char>| links_line(line, f));
}

/// A fenced block is kept with all its links, and what follows is rewritten on its
/// own. A block that is never closed is kept to the end of the text.
pub proof fn links_in_fenced_blocks_are_kept(
    open: Seq<char>,
    inner: Seq<char>,
    close: Seq<char>,
    rest: Seq<char>,
    k: int,
    l: int,
    c: char,
    n: nat,
    m: nat,
    f: spec_fn(Seq<char>) -> Option<Seq<char>>,
)
    requires
        !open.contains('\n'),
        !close.contains('\n'),
        fence_line(open, k, c, n),
        fence_line(close, l, c, m),
        n <= m,
        inner.len() > 0 ==> inner.last() == '\n',
        keeps_fence(raw_lines(inner), c, n),
    ensures
        links_text(open.push('\n') + inner + close.push('\n') + rest, f) == open.push('\n') + inner
            + close.push('\n') + links_text(rest, f),
        links_text(open.push('\n') + inner, f) == open.push('\n') + inner,
{
    fenced_block_is_kept(
        open,
        inner,
        close,
        rest,
        k,
        l,
        c,
        n,
        m,
        |line: Seq<char>| links_line(line, f),
    );
}

/// A target that a link can name: not empty, without white space around it, and
/// without a character that ends a target, a link or code.
pub open spec fn nameable(t: Seq<char>) -> bool {
    &&& t.len() > 0
    &&& trim(t) == t
    &&& t.last() != '\\'
    &&& forall|k: int|
        0 <= k < t.len() ==> t[k] != ']' && t[k] != '`' && t[k] != '|' && t[k] != '#' && t[k] != '^'
}

/// A link stands in the line: it opens at `i`, and the next brackets that close
/// one stand at `j`.
pub open spec fn link_stands(s: Seq<char>, i: int, j: int) -> bool {
    &&& 0 <= i
    &&& i + 2 <= j
    &&& j + 2 <= s.len()
    &&& s[i] == '['
    &&& s[i + 1] == '['
    &&& s[j] == ']'
    &&& s[j + 1] == ']'
    &&& forall|k: int| i + 2 <= k < j ==> !(s[k] == ']' && #[trigger] s[k + 1] == ']')
}

/// Every target in the line is replaced by one that a link can name.
pub open spec fn retargets(s: Seq<char>, f: spec_fn(Seq<char>) -> Option<Seq<char>>) -> bool {
    forall|i: int, j: int| #[trigger]
        link_stands(s, i, j) ==> {
            let t = body_target(s.subrange(i + 2, j), true);
            t.len() == 0 || (f(t) is Some && nameable(f(t)->0))
        }
}

/// The new targets, in order.
pub open spec fn new_targets(
    targets: Seq<Seq<char>>,
    f: spec_fn(Seq<char>) -> Option<Seq<char>>,
) -> Seq<Seq<char>> {
    Seq::new(targets.len(), |i: int| f(targets[i])->0)
}

proof fn lemma_retargets_behind(
    a: Seq<char>,
    b: Seq<char>,
    f: spec_fn(Seq<char>) -> Option<Seq<char>>,
)
    requires
        retargets(a + b, f),
    ensures
        retargets(b, f),
{
    let s = a + b;
    assert forall|i: int, j: int| #[trigger] link_stands(b, i, j) implies {
        let t = body_target(b.subrange(i + 2, j), true);
        t.len() == 0 || (f(t) is Some && nameable(f(t)->0))
    } by {
        let n = a.len() as int;
        assert forall|k: int| n + i + 2 <= k < n + j implies !(s[k] == ']' && #[trigger] s[k + 1]
            == ']') by {
            let x = k - n;
            assert(s[k] == b[x] && s[k + 1] == b[x + 1]);
        }
        assert(link_stands(s, n + i, n + j));
        assert(s.subrange(n + i + 2, n + j) =~= b.subrange(i + 2, j));
    }
}

proof fn lemma_new_body(body: Seq<char>, new: Seq<char>)
    requires
        without_pair(body.push(']'), ']'),
        nameable(new),
    ensures
        without_pair((new + body_suffix(body, true)).push(']'), ']'),
        body_target(new + body_suffix(body, true), true) == new,
        forall|k: int|
            0 <= k < body_suffix(body, true).len() ==> body.contains(
                #[trigger] body_suffix(body, true)[k],
            ),
{
    let suffix = body_suffix(body, true);
    let out = new + suffix;
    let p = out.push(']');
    let q = body.push(']');
    lemma_closer_is_found(body, 0, true);
    let cut = target_end(body, true);
    assert(suffix == body.skip(cut));
    assert forall|k: int| 0 <= k < p.len() - 1 implies !(p[k] == ']' && #[trigger] p[k + 1] == ']') by {
        if k < new.len() {
            assert(p[k] == new[k]);
        } else {
            let x = k - new.len() + cut;
            assert(p[k] == q[x]);
            assert(p[k + 1] == q[x + 1]);
        }
    }
    assert forall|k: int| 0 <= k < new.len() implies !closes_target(#[trigger] new[k], true) by {}
    swapped_target_reads_back(body, new, true);
    assert forall|k: int| 0 <= k < suffix.len() implies body.contains(#[trigger] suffix[k]) by {
        assert(suffix[k] == body[cut + k]);
    }
}

/// Links that are rewritten in a line without code are read with their new
/// targets, in the same order and no others: no link is left as it was.
pub proof fn rewritten_links_read_as_retargeted(
    line: Seq<char>,
    f: spec_fn(Seq<char>) -> Option<Seq<char>>,
)
    requires
        !line.contains('`'),
        retargets(line, f),
    ensures
        line_targets(links_line(line, f)) == new_targets(line_targets(line), f),
        !links_line(line, f).contains('`'),
    decreases line.len(),
{
    let open = seq!['[', '['];
    let close = seq![']', ']'];
    lemma_find_from(line, 0, open);
    let n = find_from(line, 0, open);
    if n == -1 {
        assert forall|k: int| 0 <= k < line.len() - 1 implies !(line[k] == '[' && #[trigger] line[k
            + 1] == '[') by {
            lemma_pair_at(line, k, '[', '[');
            assert(!matches_at(line, k, open));
        }
        line_without_links_is_kept(line, f);
        unclosed_links_are_not_read(line, seq![]);
        assert(new_targets(seq![], f) =~= seq![]);
    } else {
        lemma_pair_at(line, n, '[', '[');
        lemma_find_from(line, n + 2, close);
        let end = find_from(line, n + 2, close);
        let a = line.take(n);
        assert forall|k: int| 0 <= k < a.push('[').len() - 1 implies !(a.push('[')[k] == '['
            && #[trigger] a.push('[')[k + 1] == '[') by {
            lemma_pair_at(line, k, '[', '[');
            assert(!matches_at(line, k, open));
            assert(a.push('[')[k] == line[k]);
            assert(a.push('[')[k + 1] == line[k + 1]);
        }
        if end == -1 {
            lemma_unclosed_line(line, n, f);
            assert(new_targets(seq![], f) =~= seq![]);
        } else {
            lemma_pair_at(line, end, ']', ']');
            let body = line.subrange(n + 2, end);
            let b = line.skip(end + 2);
            let p = body.push(']');
            assert forall|k: int| 0 <= k < p.len() - 1 implies !(p[k] == ']' && #[trigger] p[k + 1]
                == ']') by {
                lemma_pair_at(line, n + 2 + k, ']', ']');
                assert(!matches_at(line, n + 2 + k, close));
                assert(p[k] == line[n + 2 + k]);
                assert(p[k + 1] == line[n + 2 + k + 1]);
            }
            assert forall|k: int| n + 2 <= k < end implies !(line[k] == ']' && #[trigger] line[k
                + 1] == ']') by {
                lemma_pair_at(line, k, ']', ']');
                assert(!matches_at(line, k, close));
            }
            assert(link_stands(line, n, end));
            let front = line.take(end + 2);
            assert(line =~= front + b);
            lemma_retargets_behind(front, b, f);
            assert(!b.contains('`')) by {
                if b.contains('`') {
                    let k = choose|k: int| 0 <= k < b.len() && b[k] == '`';
                    assert(line[end + 2 + k] == '`');
                }
            }
            rewritten_links_read_as_retargeted(b, f);
            assert(line =~= a + open + body + close + b);
            lemma_one_link_reads_back(line, a, body, b, f);
        }
    }
}

proof fn lemma_unclosed_line(line: Seq<char>, n: int, f: spec_fn(Seq<char>) -> Option<Seq<char>>)
    requires
        !line.contains('`'),
        0 <= n <= line.len() - 2,
        line[n] == '[',
        line[n + 1] == '[',
        without_pair(line.take(n).push('['), '['),
        find_from(line, n + 2, seq![']', ']']) == -1,
    ensures
        links_line(line, f) == line,
        line_targets(line) == Seq::<Seq<char>>::empty(),
{
    let close = seq![']', ']'];
    let a = line.take(n);
    let rest = line.skip(n + 2);
    lemma_find_from(line, n + 2, close);
    assert forall|k: int| n <= k < line.len() - 1 implies !(line[k] == ']' && #[trigger] line[k + 1]
        == ']') by {
        lemma_pair_at(line, k, ']', ']');
        if k >= n + 2 {
            assert(!matches_at(line, k, close));
        }
    }
    let from = if n > 0 && line[n - 1] == '!' {
        n - 1
    } else {
        n
    };
    assert forall|k: int| from <= k < line.len() - 1 implies !(line[k] == ']' && #[trigger] line[k
        + 1] == ']') by {}
    assert forall|k: int| 0 <= k < from implies line[k] != '`' by {
        assert(line.contains(line[k]));
    }
    let front = line.take(from);
    let q = a.push('[');
    assert forall|k: int| 0 <= k < front.len() - 1 implies !(front[k] == '[' && #[trigger] front[k
        + 1] == '[') by {
        assert(front[k] == q[k] && front[k + 1] == q[k + 1]);
    }
    if n > 0 {
        assert(q[n - 1] == line[n - 1] && q[n - 1 + 1] == '[');
    }
    lemma_no_close_keeps(line, from, 0, f);
    assert forall|k: int| 0 <= k < from implies !#[trigger] link_opens(line, k) by {
        assert(!front.contains('`')) by {
            if front.contains('`') {
                let x = choose|x: int| 0 <= x < front.len() && front[x] == '`';
                assert(line[x] == '`');
            }
        }
        lemma_front_opens_none(front, from < n, line, k);
    }
    lemma_links_plain(line, 0, from, f);
    assert(line.subrange(0, from) + line.skip(from) =~= line);
    assert forall|k: int| 0 <= k < a.len() - 1 implies !(a[k] == '[' && #[trigger] a[k + 1] == '[') by {
        assert(a[k] == q[k] && a[k + 1] == q[k + 1]);
    }
    assert forall|k: int| 0 <= k < rest.len() - 1 implies !(rest[k] == ']' && #[trigger] rest[k + 1]
        == ']') by {
        assert(rest[k] == line[n + 2 + k] && rest[k + 1] == line[n + 2 + k + 1]);
    }
    unclosed_links_are_not_read(a, rest);
    assert(line =~= a + seq!['[', '['] + rest);
    if n == 0 {
        assert(line =~= seq!['[', '['] + rest);
    }
}

/// A link's body with its new target.
spec fn new_link_body(body: Seq<char>, f: spec_fn(Seq<char>) -> Option<Seq<char>>) -> Seq<char> {
    if body_target(body, true).len() == 0 {
        body
    } else {
        f(body_target(body, true))->0 + body_suffix(body, true)
    }
}

proof fn lemma_one_link_image(
    line: Seq<char>,
    a: Seq<char>,
    body: Seq<char>,
    b: Seq<char>,
    f: spec_fn(Seq<char>) -> Option<Seq<char>>,
)
    requires
        line == a + seq!['[', '['] + body + seq![']', ']'] + b,
        !line.contains('`'),
        without_pair(a.push('['), '['),
        without_pair(body.push(']'), ']'),
        body_target(body, true).len() == 0 || (f(body_target(body, true)) is Some && nameable(
            f(body_target(body, true))->0,
        )),
    ensures
        links_line(line, f) == a + seq!['[', '['] + new_link_body(body, f) + seq![']', ']']
            + links_line(b, f),
        without_pair(new_link_body(body, f).push(']'), ']'),
        body_target(body, true).len() > 0 ==> body_target(new_link_body(body, f), true) == f(
            body_target(body, true),
        )->0,
        !a.contains('`'),
        !new_link_body(body, f).contains('`'),
{
    let open = seq!['[', '['];
    let close = seq![']', ']'];
    let target = body_target(body, true);
    let embed = a.len() > 0 && a.last() == '!';
    let new_body = new_link_body(body, f);
    let rest = links_line(b, f);
    let out = a + open + new_body + close + rest;
    if target.len() > 0 {
        lemma_new_body(body, f(target)->0);
    }
    assert(!a.contains('`')) by {
        if a.contains('`') {
            let k = choose|k: int| 0 <= k < a.len() && a[k] == '`';
            assert(line[k] == '`');
        }
    }
    assert(!body.contains('`')) by {
        if body.contains('`') {
            let k = choose|k: int| 0 <= k < body.len() && body[k] == '`';
            assert(line[a.len() + 2 + k] == '`');
        }
    }
    assert(!new_body.contains('`')) by {
        if new_body.contains('`') && target.len() > 0 {
            let x = choose|x: int| 0 <= x < new_body.len() && new_body[x] == '`';
            let new = f(target)->0;
            if x < new.len() {
                assert(new[x] == '`');
            } else {
                assert(body.contains(body_suffix(body, true)[x - new.len()]));
            }
        }
    }
    let q = a.push('[');
    assert forall|k: int| 0 <= k < a.len() - 1 implies !(a[k] == '[' && #[trigger] a[k + 1] == '[') by {
        assert(a[k] == q[k] && a[k + 1] == q[k + 1]);
    }
    if embed {
        let c = a.drop_last();
        let bang = seq!['!', '[', '['];
        assert(line =~= c + bang + body + close + b);
        assert(!c.contains('`')) by {
            if c.contains('`') {
                let k = choose|k: int| 0 <= k < c.len() && c[k] == '`';
                assert(a[k] == '`');
            }
        }
        assert forall|k: int| 0 <= k < c.len() - 1 implies !(c[k] == '[' && #[trigger] c[k + 1]
            == '[') by {
            assert(c[k] == a[k] && c[k + 1] == a[k + 1]);
        }
        links_are_rewritten_one_after_the_other(c, true, body, b, f);
        assert(links_line(line, f) =~= out);
    } else {
        if a.len() > 0 {
            let last = a.len() - 1;
            assert(q[last] == a[last] && q[last + 1] == '[');
        }
        links_are_rewritten_one_after_the_other(a, false, body, b, f);
        assert(links_line(line, f) =~= out);
    }
}

proof fn lemma_one_link_reads_back(
    line: Seq<char>,
    a: Seq<char>,
    body: Seq<char>,
    b: Seq<char>,
    f: spec_fn(Seq<char>) -> Option<Seq<char>>,
)
    requires
        line == a + seq!['[', '['] + body + seq![']', ']'] + b,
        !line.contains('`'),
        without_pair(a.push('['), '['),
        without_pair(body.push(']'), ']'),
        body_target(body, true).len() == 0 || (f(body_target(body, true)) is Some && nameable(
            f(body_target(body, true))->0,
        )),
        line_targets(links_line(b, f)) == new_targets(line_targets(b), f),
        !links_line(b, f).contains('`'),
    ensures
        line_targets(links_line(line, f)) == new_targets(line_targets(line), f),
        !links_line(line, f).contains('`'),
{
    let open = seq!['[', '['];
    let close = seq![']', ']'];
    let target = body_target(body, true);
    let embed = a.len() > 0 && a.last() == '!';
    let new_body = new_link_body(body, f);
    let rest = links_line(b, f);
    let out = a + open + new_body + close + rest;
    lemma_one_link_image(line, a, body, b, f);
    links_are_read_one_after_the_other(a, body, b);
    links_are_read_one_after_the_other(a, new_body, rest);
    let here: Seq<Seq<char>> = if embed || target.len() == 0 {
        seq![]
    } else {
        seq![target]
    };
    let there: Seq<Seq<char>> = if embed || target.len() == 0 {
        seq![]
    } else {
        seq![f(target)->0]
    };
    assert(line_targets(out) =~= there + new_targets(line_targets(b), f));
    assert(new_targets(here + line_targets(b), f) =~= there + new_targets(line_targets(b), f));
    assert(!out.contains('`')) by {
        if out.contains('`') {
            let k = choose|k: int| 0 <= k < out.len() && out[k] == '`';
            let x = k - a.len() - 2;
            let y = x - new_body.len() - 2;
            if k < a.len() {
                assert(a[k] == '`');
            } else if x >= 0 && x < new_body.len() {
                assert(new_body[x] == '`');
            } else if y >= 0 {
                assert(rest[y] == '`');
            }
        }
    }
}

proof fn lemma_targets_of_two(a: Seq<char>, b: Seq<char>, i: int)
    requires
        0 <= i <= a.len(),
        closes_its_links(a),
        a.len() > 0 ==> a.last() != '[' && a.last() != '!',
    ensures
        line_targets_from(a + b, i) == line_targets_from(a, i) + line_targets(b),
    decreases a.len() - i,
{
    reveal(closes_its_links);
    let s = a + b;
    if a.len() == 0 {
        assert(s =~= b);
        assert(line_targets_from(a, i) + line_targets(b) =~= line_targets(b));
    } else if i == a.len() {
        lemma_targets_behind(a, b, 0);
        assert(line_targets_from(a, i) + line_targets(b) =~= line_targets(b));
    } else {
        assert(s[i] == a[i]);
        if i + 1 == a.len() {
            assert(a[i] == a.last());
            lemma_targets_of_two(a, b, i + 1);
            if i + 1 >= s.len() {
                assert(line_targets(b) =~= seq![]);
            }
            assert(line_targets_from(a, i) =~= seq![]);
            assert(line_targets_from(a, i + 1) =~= seq![]);
        } else {
            assert(s[i + 1] == a[i + 1]);
            if a[i] != '[' || a[i + 1] != '[' {
                lemma_targets_of_two(a, b, i + 1);
            } else {
                let close = seq![']', ']'];
                let j = choose|j: int|
                    i + 2 <= j < a.len() - 1 && a[j] == ']' && #[trigger] a[j + 1] == ']';
                lemma_pair_at(a, j, ']', ']');
                lemma_find_from(a, i + 2, close);
                lemma_find_from(s, i + 2, close);
                let end = find_from(a, i + 2, close);
                assert(matches_at(a, j, close));
                lemma_pair_at(a, end, ']', ']');
                lemma_pair_at(s, end, ']', ']');
                assert(matches_at(s, end, close));
                let other = find_from(s, i + 2, close);
                lemma_pair_at(s, other, ']', ']');
                lemma_pair_at(a, other, ']', ']');
                assert(other == end);
                assert(s.subrange(i + 2, end) =~= a.subrange(i + 2, end));
                lemma_targets_of_two(a, b, end + 2);
                assert(i > 0 ==> s[i - 1] == a[i - 1]);
                let target = body_target(a.subrange(i + 2, end), true);
                let rest = line_targets_from(a, end + 2);
                assert(seq![target] + (rest + line_targets(b)) =~= seq![target] + rest
                    + line_targets(b));
            }
        }
    }
}

proof fn lemma_link_is_closed(line: Seq<char>, n: int)
    requires
        closes_its_links(line),
        0 <= n < line.len() - 1,
        line[n] == '[',
        line[n + 1] == '[',
    ensures
        find_from(line, n + 2, seq![']', ']']) != -1,
{
    reveal(closes_its_links);
    let close = seq![']', ']'];
    let j = choose|j: int|
        n + 2 <= j < line.len() - 1 && line[j] == ']' && #[trigger] line[j + 1] == ']';
    lemma_pair_at(line, j, ']', ']');
    lemma_find_from(line, n + 2, close);
    assert(matches_at(line, j, close));
}

proof fn lemma_rest_closes_its_links(line: Seq<char>, k: int)
    requires
        closes_its_links(line),
        0 <= k <= line.len(),
    ensures
        closes_its_links(line.skip(k)),
{
    reveal(closes_its_links);
    let b = line.skip(k);
    assert forall|i: int|
        0 <= i < b.len() - 1 && b[i] == '[' && #[trigger] b[i + 1] == '[' implies exists|j: int|
        i + 2 <= j < b.len() - 1 && b[j] == ']' && #[trigger] b[j + 1] == ']' by {
        let x = k + i;
        assert(line[x] == '[' && line[x + 1] == '[');
        let z = choose|z: int|
            x + 2 <= z < line.len() - 1 && line[z] == ']' && #[trigger] line[z + 1] == ']';
        let w = z - k;
        assert(b[w] == ']' && b[w + 1] == ']');
    }
}

proof fn lemma_reads_back_before(
    line: Seq<char>,
    y: Seq<char>,
    f: spec_fn(Seq<char>) -> Option<Seq<char>>,
)
    requires
        !line.contains('`'),
        retargets(line, f),
        closes_its_links(line),
        line.len() > 0 ==> line.last() != '[' && line.last() != '!',
    ensures
        line_targets(links_line(line, f) + y) == new_targets(line_targets(line), f) + line_targets(y),
    decreases line.len(),
{
    let open = seq!['[', '['];
    let close = seq![']', ']'];
    lemma_find_from(line, 0, open);
    let n = find_from(line, 0, open);
    if n == -1 {
        assert forall|k: int| 0 <= k < line.len() - 1 implies !(line[k] == '[' && #[trigger] line[k
            + 1] == '[') by {
            lemma_pair_at(line, k, '[', '[');
            assert(!matches_at(line, k, open));
        }
        line_without_links_is_kept(line, f);
        unclosed_links_are_not_read(line, seq![]);
        assert(new_targets(seq![], f) =~= seq![]);
        lemma_targets_of_two(line, y, 0);
    } else {
        lemma_pair_at(line, n, '[', '[');
        lemma_link_is_closed(line, n);
        lemma_find_from(line, n + 2, close);
        let end = find_from(line, n + 2, close);
        lemma_pair_at(line, end, ']', ']');
        let a = line.take(n);
        let body = line.subrange(n + 2, end);
        let b = line.skip(end + 2);
        assert forall|k: int| 0 <= k < a.push('[').len() - 1 implies !(a.push('[')[k] == '['
            && #[trigger] a.push('[')[k + 1] == '[') by {
            lemma_pair_at(line, k, '[', '[');
            assert(!matches_at(line, k, open));
            assert(a.push('[')[k] == line[k]);
            assert(a.push('[')[k + 1] == line[k + 1]);
        }
        let p = body.push(']');
        assert forall|k: int| 0 <= k < p.len() - 1 implies !(p[k] == ']' && #[trigger] p[k + 1]
            == ']') by {
            lemma_pair_at(line, n + 2 + k, ']', ']');
            assert(!matches_at(line, n + 2 + k, close));
            assert(p[k] == line[n + 2 + k]);
            assert(p[k + 1] == line[n + 2 + k + 1]);
        }
        assert forall|k: int| n + 2 <= k < end implies !(line[k] == ']' && #[trigger] line[k + 1]
            == ']') by {
            lemma_pair_at(line, k, ']', ']');
            assert(!matches_at(line, k, close));
        }
        assert(link_stands(line, n, end));
        assert(line =~= line.take(end + 2) + b);
        lemma_retargets_behind(line.take(end + 2), b, f);
        assert(!b.contains('`')) by {
            if b.contains('`') {
                let k = choose|k: int| 0 <= k < b.len() && b[k] == '`';
                assert(line[end + 2 + k] == '`');
            }
        }
        lemma_rest_closes_its_links(line, end + 2);
        if b.len() > 0 {
            assert(b.last() == line.last());
        }
        lemma_reads_back_before(b, y, f);
        assert(line =~= a + open + body + close + b);
        lemma_reads_back_step(line, a, body, b, y, f);
    }
}

proof fn lemma_reads_back_step(
    line: Seq<char>,
    a: Seq<char>,
    body: Seq<char>,
    b: Seq<char>,
    y: Seq<char>,
    f: spec_fn(Seq<char>) -> Option<Seq<char>>,
)
    requires
        line == a + seq!['[', '['] + body + seq![']', ']'] + b,
        !line.contains('`'),
        without_pair(a.push('['), '['),
        without_pair(body.push(']'), ']'),
        body_target(body, true).len() == 0 || (f(body_target(body, true)) is Some && nameable(
            f(body_target(body, true))->0,
        )),
        line_targets(links_line(b, f) + y) == new_targets(line_targets(b), f) + line_targets(y),
    ensures
        line_targets(links_line(line, f) + y) == new_targets(line_targets(line), f) + line_targets(y),
{
    let open = seq!['[', '['];
    let close = seq![']', ']'];
    lemma_one_link_image(line, a, body, b, f);
    let target = body_target(body, true);
    let new_body = new_link_body(body, f);
    let rest = links_line(b, f);
    assert(links_line(line, f) + y =~= a + open + new_body + close + (rest + y));
    links_are_read_one_after_the_other(a, new_body, rest + y);
    links_are_read_one_after_the_other(a, body, b);
    let embed = a.len() > 0 && a.last() == '!';
    let here: Seq<Seq<char>> = if embed || target.len() == 0 {
        seq![]
    } else {
        seq![target]
    };
    let there: Seq<Seq<char>> = if embed || target.len() == 0 {
        seq![]
    } else {
        seq![f(target)->0]
    };
    let more = new_targets(line_targets(b), f);
    assert(new_targets(here + line_targets(b), f) =~= there + more);
    assert(there + (more + line_targets(y)) =~= there + more + line_targets(y));
}

/// What is visible of the rewritten line is read with the new targets.
pub open spec fn reads_as_retargeted(
    line: Seq<char>,
    f: spec_fn(Seq<char>) -> Option<Seq<char>>,
) -> bool {
    line_targets(visible_text(links_line(line, f))) == new_targets(
        line_targets(visible_text(line)),
        f,
    )
}

/// Every link that is read in a line is read with its new target when the line is
/// rewritten, in the same order: no link is left as it was. A line without code is
/// such a line, and so is one with a code span in front of such a line.
pub proof fn rewritten_line_reads_as_retargeted(
    head: Seq<char>,
    n: nat,
    code: Seq<char>,
    tail: Seq<char>,
    f: spec_fn(Seq<char>) -> Option<Seq<char>>,
)
    requires
        !head.contains('`'),
        retargets(head, f),
    ensures
        reads_as_retargeted(head, f),
        ({
            &&& closes_its_links(head)
            &&& head.len() > 0 ==> head.last() != '[' && head.last() != '!'
            &&& is_code(code, n)
            &&& tail.len() > 0 ==> tail[0] != '`'
            &&& retargets(tail, f)
            &&& reads_as_retargeted(tail, f)
        }) ==> reads_as_retargeted(head + ticks(n) + code + ticks(n) + tail, f),
{
    rewritten_links_read_as_retargeted(head, f);
    lemma_visible_without_ticks(head);
    lemma_visible_without_ticks(links_line(head, f));
    if closes_its_links(head) && (head.len() > 0 ==> head.last() != '[' && head.last() != '!')
        && is_code(code, n) && (tail.len() > 0 ==> tail[0] != '`') && retargets(tail, f)
        && reads_as_retargeted(tail, f) {
        let s = with_span(head, n, code, tail);
        let h = links_line(head, f);
        let t = links_line(tail, f);
        links_around_code_spans_are_rewritten(head, n, code, tail, f);
        code_spans_are_left_out(head, n, code, tail);
        lemma_first_char_kept(tail, f);
        code_spans_are_left_out(h, n, code, t);
        assert(links_line(s, f) == with_span(h, n, code, t));
        lemma_reads_back_before(head, visible_text(t), f);
        lemma_targets_of_two(head, visible_text(tail), 0);
        let x = line_targets(head);
        let y = line_targets(visible_text(tail));
        assert(new_targets(x + y, f) =~= new_targets(x, f) + new_targets(y, f));
    }
}

proof fn lemma_visible_without_ticks(s: Seq<char>)
    requires
        !s.contains('`'),
    ensures
        visible_text(s) == s,
{
    let code = seq!['x'];
    assert forall|i: int| !#[trigger] holds_run(code, i, 1) by {
        if holds_run(code, i, 1) {
            assert(code[i] == '`');
        }
    }
    code_spans_are_left_out(s, 1, code, seq![]);
}

proof fn lemma_first_char_kept(tail: Seq<char>, f: spec_fn(Seq<char>) -> Option<Seq<char>>)
    requires
        tail.len() > 0 ==> tail[0] != '`',
        retargets(tail, f),
    ensures
        links_line(tail, f).len() > 0 ==> links_line(tail, f)[0] != '`',
{
    if tail.len() > 0 {
        lemma_link_opens(tail, 0);
        let start = link_body_start(tail, 0);
        let close = seq![']', ']'];
        lemma_find_from(tail, start, close);
        let end = find_from(tail, start, close);
        if link_opens(tail, 0) && end != -1 {
            lemma_pair_at(tail, end, ']', ']');
            assert forall|k: int| start <= k < end implies !(tail[k] == ']' && #[trigger] tail[k
                + 1] == ']') by {
                lemma_pair_at(tail, k, ']', ']');
                assert(!matches_at(tail, k, close));
            }
            assert(link_stands(tail, start - 2, end));
            assert(tail.subrange(0, start)[0] == tail[0]);
            assert(links_line(tail, f)[0] == tail[0]);
        } else {
            assert(links_line(tail, f)[0] == tail[0]);
        }
    }
}

// ---------------------------------------------------------------------------
// The backlinks of a moved note
// ---------------------------------------------------------------------------

/// Where a note goes: the link target others will use, and the file its body
/// will be in.
#[derive(Debug, Clone, PartialEq, Eq)]
pub struct MovedTo {
    /// The new vault-relative path, without the `.md` extension.
    pub new_target: String,
    /// The new vault-relative file.
    pub destination: String,
}

/// Another note than the moved one carries the title.
pub open spec fn title_taken(entries: Seq<NoteView>, moved_slug: Seq<char>, title: Seq<char>) -> bool {
    exists|i: int|
        0 <= i < entries.len() && (#[trigger] entries[i]).slug != moved_slug && title_key(
            entries[i].title,
        ) == title_key(title)
}

/// The bare title under which a link still finds the moved note, if no other
/// note carries it.
pub open spec fn bare_title(
    entries: Seq<NoteView>,
    moved_slug: Seq<char>,
    new_target: Seq<char>,
) -> Option<Seq<char>> {
    let bare = after_last(new_target, '/');
    if title_taken(entries, moved_slug, bare) {
        None
    } else {
        Some(bare)
    }
}

pub fn unambiguous_bare_title(
    entries: &Vec<NoteEntry>,
    moved_slug: &str,
    new_target: &str,
) -> (r: Option<String>)
    ensures
        opt_text(r) == bare_title(notes_view(entries@), moved_slug@, new_target@),
{
    let target = to_chars(new_target);
    let bare = from_chars(tail_after_last(target.as_slice(), '/'));
    let wanted = normalize_title(bare.as_str());
    let ghost ev = notes_view(entries@);
    let mut i: usize = 0;
    while i < entries.len()
        invariant
            0 <= i <= entries@.len(),
            ev == notes_view(entries@),
            bare@ == after_last(new_target@, '/'),
            wanted@ == title_key(bare@),
            forall|k: int|
                0 <= k < i ==> !((#[trigger] ev[k]).slug != moved_slug@ && title_key(ev[k].title)
                    == title_key(bare@)),
        decreases entries@.len() - i,
    {
        assert(ev[i as int] == entries@[i as int]@);
        if !str_eq(entries[i].slug.as_str(), moved_slug) {
            let title = normalize_title(entries[i].title.as_str());
            if title == wanted {
                assert(ev[i as int].slug != moved_slug@);
                return None;
            }
        }
        i = i + 1;
    }
    Some(bare)
}

/// The target is the note's own title, written bare.
pub open spec fn is_bare_title(target: Seq<char>, title: Seq<char>) -> bool {
    !link_target(target).contains('/') && title_key(link_target(target)) == title_key(title)
}

pub fn target_is_the_moved_notes_bare_title(target: &[char], moved_title: &str) -> (r: bool)
    ensures
        r == is_bare_title(target@, moved_title@),
{
    let normalized = link_target_of(target);
    if contains_char(normalized.as_slice(), '/') {
        return false;
    }
    let text = from_chars(normalized.as_slice());
    let key = normalize_title(text.as_str());
    let title = normalize_title(moved_title);
    key == title
}

/// The new target of a link: one that names another note or none stays; one
/// that names the moved note by its bare title becomes the new bare title
/// where that is unambiguous; any other becomes the new path, or goes.
pub open spec fn backlink_target(
    index: VaultIndex,
    moved_slug: Seq<char>,
    bare: Option<Seq<char>>,
    new_target: Option<Seq<char>>,
) -> spec_fn(Seq<char>) -> Option<Seq<char>> {
    |target: Seq<char>|
        match linked_note(index, target) {
            None => Some(target),
            Some(note) => if note.slug@ != moved_slug {
                Some(target)
            } else if bare is Some && is_bare_title(target, note.title@) {
                bare
            } else {
                new_target
            },
        }
}

struct BacklinkTarget<'a> {
    index: &'a VaultIndex,
    moved_slug: &'a str,
    bare: Option<String>,
    new_target: Option<String>,
}

impl<'a> Retarget for BacklinkTarget<'a> {
    closed spec fn target_image(&self) -> spec_fn(Seq<char>) -> Option<Seq<char>> {
        backlink_target(
            *self.index,
            self.moved_slug@,
            opt_text(self.bare),
            opt_text(self.new_target),
        )
    }

    fn retarget(&self, target: &[char]) -> (r: Option<Vec<char>>) {
        let text = from_chars(target);
        match self.index.resolve_wikilink(text.as_str()) {
            None => Some(slice_to_vec(target)),
            Some(note) => {
                if !str_eq(note.slug.as_str(), self.moved_slug) {
                    return Some(slice_to_vec(target));
                }
                match &self.bare {
                    Some(bare) => {
                        if target_is_the_moved_notes_bare_title(target, note.title.as_str()) {
                            return Some(to_chars(bare.as_str()));
                        }
                    },
                    None => {},
                }
                match &self.new_target {
                    Some(new_target) => Some(to_chars(new_target.as_str())),
                    None => None,
                }
            },
        }
    }
}

/// The rewrites of the given notes, in order: each body whose links change, at
/// its own file, or, for the moved note itself, at its destination. Without a
/// destination the moved note is left out. The first body that cannot be read
/// is reported.
pub open spec fn backlink_plan(
    entries: Seq<NoteView>,
    bodies: Seq<NoteBody>,
    moved_slug: Seq<char>,
    destination: Option<Seq<char>>,
    f: spec_fn(Seq<char>) -> Option<Seq<char>>,
) -> Result<Seq<(Seq<char>, Seq<char>)>, ErrorView>
    decreases entries.len(),
{
    if entries.len() == 0 {
        Ok(seq![])
    } else {
        let entry = entries.last();
        match backlink_plan(entries.drop_last(), bodies, moved_slug, destination, f) {
            Err(e) => Err(e),
            Ok(prev) => if entry.slug == moved_slug && destination is None {
                Ok(prev)
            } else {
                match body_of(bodies, entry.slug) {
                    Err(why) => Err(
                        ErrorView::Io(
                            "failed to read note '"@ + entry.relative_path
                                + "' for backlink rewrite: "@ + why,
                        ),
                    ),
                    Ok(text) => if links_text(text, f) == text {
                        Ok(prev)
                    } else {
                        let path = if entry.slug == moved_slug {
                            destination->0
                        } else {
                            entry.file
                        };
                        Ok(prev.push((path, links_text(text, f))))
                    },
                }
            },
        }
    }
}

/// Where the new text of a note goes: to its own file, or, for the moved note, to its
/// destination.
pub open spec fn rewrite_place(
    entry: NoteView,
    moved_slug: Seq<char>,
    destination: Option<Seq<char>>,
) -> Seq<char> {
    if entry.slug == moved_slug {
        destination->0
    } else {
        entry.file
    }
}

/// What the plan has to say of a note: its new text and where it goes, if its links change.
pub open spec fn is_rewrite_of(
    entry: NoteView,
    bodies: Seq<NoteBody>,
    moved_slug: Seq<char>,
    destination: Option<Seq<char>>,
    f: spec_fn(Seq<char>) -> Option<Seq<char>>,
    item: (Seq<char>, Seq<char>),
) -> bool {
    &&& entry.slug != moved_slug || destination is Some
    &&& body_of(bodies, entry.slug) is Ok
    &&& item.0 == rewrite_place(entry, moved_slug, destination)
    &&& item.1 == links_text(body_of(bodies, entry.slug)->Ok_0, f)
    &&& item.1 != body_of(bodies, entry.slug)->Ok_0
}

/// Every note whose links change is rewritten, with all its links as the new targets have
/// them, and no other note is; of a note that is removed the own text is left out. The plan
/// fails only for a note that cannot be read. `at` gives the note of each rewrite, in order.
pub proof fn every_note_that_links_is_rewritten(
    entries: Seq<NoteView>,
    bodies: Seq<NoteBody>,
    moved_slug: Seq<char>,
    destination: Option<Seq<char>>,
    f: spec_fn(Seq<char>) -> Option<Seq<char>>,
) -> (at: Seq<int>)
    ensures
        match backlink_plan(entries, bodies, moved_slug, destination, f) {
            Ok(plan) => {
                &&& at.len() == plan.len()
                &&& forall|k: int|
                    0 <= k < at.len() ==> 0 <= #[trigger] at[k] < entries.len() && is_rewrite_of(
                        entries[at[k]],
                        bodies,
                        moved_slug,
                        destination,
                        f,
                        plan[k],
                    )
                &&& forall|k: int, l: int| 0 <= k < l < at.len() ==> at[k] < at[l]
                &&& forall|i: int|
                    0 <= i < entries.len() && ((#[trigger] entries[i]).slug != moved_slug
                        || destination is Some) ==> body_of(bodies, entries[i].slug) is Ok && (
                    at.contains(i) || links_text(body_of(bodies, entries[i].slug)->Ok_0, f)
                        == body_of(bodies, entries[i].slug)->Ok_0)
            },
            Err(e) => e is Io && at.len() == 1 && 0 <= at[0] < entries.len() && body_of(
                bodies,
                entries[at[0]].slug,
            ) is Err,
        },
    decreases entries.len(),
{
    if entries.len() == 0 {
        Seq::empty()
    } else {
        let front = entries.drop_last();
        let n = entries.len() - 1;
        let was = every_note_that_links_is_rewritten(front, bodies, moved_slug, destination, f);
        let prev = backlink_plan(front, bodies, moved_slug, destination, f);
        let whole = backlink_plan(entries, bodies, moved_slug, destination, f);
        assert(entries.last() == entries[n]);
        if prev is Err {
            assert(front[was[0]] == entries[was[0]]);
            was
        } else if whole is Err {
            seq![n]
        } else {
            let plan = whole->Ok_0;
            let at = if plan.len() > prev->Ok_0.len() {
                was.push(n)
            } else {
                was
            };
            assert forall|k: int| 0 <= k < at.len() implies 0 <= #[trigger] at[k] < entries.len()
                && is_rewrite_of(entries[at[k]], bodies, moved_slug, destination, f, plan[k]) by {
                if k < was.len() {
                    assert(at[k] == was[k]);
                    assert(front[was[k]] == entries[was[k]]);
                    assert(plan[k] == prev->Ok_0[k]);
                }
            }
            assert forall|i: int|
                0 <= i < entries.len() && ((#[trigger] entries[i]).slug != moved_slug
                    || destination is Some) implies body_of(bodies, entries[i].slug) is Ok && (
            at.contains(i) || links_text(body_of(bodies, entries[i].slug)->Ok_0, f) == body_of(
                bodies,
                entries[i].slug,
            )->Ok_0) by {
                if i < n {
                    assert(front[i] == entries[i]);
                    if was.contains(i) {
                        let k = choose|k: int| 0 <= k < was.len() && was[k] == i;
                        assert(at[k] == i);
                    }
                } else if plan.len() > prev->Ok_0.len() {
                    assert(at[was.len() as int] == n);
                }
            }
            at
        }
    }
}

/// The plan of a moved or removed note.
pub open spec fn planned_backlinks(
    index: VaultIndex,
    bodies: Seq<NoteBody>,
    moved_slug: Seq<char>,
    moved_to: Option<(Seq<char>, Seq<char>)>,
) -> Result<Seq<(Seq<char>, Seq<char>)>, ErrorView> {
    let entries = notes_view(listed_notes(index.by_slug@, strs(index.ordered_slugs@)));
    let new_target = match moved_to {
        Some((target, _)) => Some(target),
        None => None,
    };
    let destination = match moved_to {
        Some((_, file)) => Some(file),
        None => None,
    };
    let bare = match new_target {
        Some(target) => bare_title(entries, moved_slug, target),
        None => None,
    };
    backlink_plan(
        entries,
        bodies,
        moved_slug,
        destination,
        backlink_target(index, moved_slug, bare, new_target),
    )
}

pub open spec fn moved_view(m: Option<MovedTo>) -> Option<(Seq<char>, Seq<char>)> {
    match m {
        Some(to) => Some((to.new_target@, to.destination@)),
        None => None,
    }
}

pub open spec fn plan_result(r: Result<Vec<TextRewrite>, WriteError>) -> Result<
    Seq<(Seq<char>, Seq<char>)>,
    ErrorView,
> {
    match r {
        Ok(v) => Ok(rewrite_views(v@)),
        Err(e) => Err(e@),
    }
}

proof fn lemma_plan_error_stays(
    entries: Seq<NoteView>,
    bodies: Seq<NoteBody>,
    moved_slug: Seq<char>,
    destination: Option<Seq<char>>,
    f: spec_fn(Seq<char>) -> Option<Seq<char>>,
    i: int,
)
    requires
        0 <= i <= entries.len(),
        backlink_plan(entries.take(i), bodies, moved_slug, destination, f) is Err,
    ensures
        backlink_plan(entries, bodies, moved_slug, destination, f) == backlink_plan(
            entries.take(i),
            bodies,
            moved_slug,
            destination,
            f,
        ),
    decreases entries.len() - i,
{
    if i < entries.len() {
        assert(entries.take(i + 1).drop_last() =~= entries.take(i));
        lemma_plan_error_stays(entries, bodies, moved_slug, destination, f, i + 1);
    } else {
        assert(entries.take(i) =~= entries);
    }
}

/// Retargets every link to the moved note, keeping the form its author wrote.
pub fn backlink_rewrite_plan(
    index: &VaultIndex,
    bodies: &Vec<NoteBody>,
    moved_slug: &str,
    moved_to: &Option<MovedTo>,
) -> (r: Result<Vec<TextRewrite>, WriteError>)
    ensures
        plan_result(r) == planned_backlinks(*index, bodies@, moved_slug@, moved_view(*moved_to)),
{
    let entries = index.ordered_entries();
    let ghost ev = notes_view(entries@);
    let bare = match moved_to {
        Some(to) => unambiguous_bare_title(&entries, moved_slug, to.new_target.as_str()),
        None => None,
    };
    let new_target = match moved_to {
        Some(to) => Some(to.new_target.clone()),
        None => None,
    };
    let target = BacklinkTarget { index, moved_slug, bare, new_target };
    let ghost f = target.target_image();
    let ghost destination = match moved_view(*moved_to) {
        Some((_, file)) => Some(file),
        None => None,
    };
    let ghost whole = planned_backlinks(*index, bodies@, moved_slug@, moved_view(*moved_to));
    assert(whole == backlink_plan(ev, bodies@, moved_slug@, destination, f));
    let mut out: Vec<TextRewrite> = Vec::new();
    let mut i: usize = 0;
    assert(rewrite_views(out@) =~= seq![]);
    while i < entries.len()
        invariant
            0 <= i <= entries@.len(),
            ev == notes_view(entries@),
            f == target.target_image(),
            destination == (match moved_view(*moved_to) {
                Some((_, file)) => Some(file),
                None => None,
            }),
            whole == backlink_plan(ev, bodies@, moved_slug@, destination, f),
            whole == planned_backlinks(*index, bodies@, moved_slug@, moved_view(*moved_to)),
            backlink_plan(ev.take(i as int), bodies@, moved_slug@, destination, f) == Ok::<
                Seq<(Seq<char>, Seq<char>)>,
                ErrorView,
            >(rewrite_views(out@)),
        decreases entries@.len() - i,
    {
        let entry = &entries[i];
        proof {
            assert(ev.take(i + 1).drop_last() =~= ev.take(i as int));
            assert(ev.take(i + 1).last() == entry@);
        }
        let own = str_eq(entry.slug.as_str(), moved_slug);
        let path: Option<String> = if own {
            match moved_to {
                Some(to) => Some(to.destination.clone()),
                None => None,
            }
        } else {
            Some(entry.file.clone())
        };
        match path {
            None => {},
            Some(path) => {
                match find_body(bodies, &entry.slug) {
                    Err(why) => {
                        let mut message = to_chars("failed to read note '");
                        crate::text::push_str(&mut message, entry.relative_path.as_str());
                        crate::text::push_str(&mut message, "' for backlink rewrite: ");
                        crate::text::push_str(&mut message, why.as_str());
                        proof {
                            lemma_plan_error_stays(
                                ev,
                                bodies@,
                                moved_slug@,
                                destination,
                                f,
                                i + 1,
                            );
                        }
                        return Err(WriteError::Io(from_chars(message.as_slice())));
                    },
                    Ok(text) => {
                        let chars = to_chars(text.as_str());
                        let rewritten = transform_wikilinks(chars.as_slice(), &target);
                        if !chars_eq(rewritten.as_slice(), chars.as_slice()) {
                            let item = TextRewrite {
                                path,
                                content: from_chars(rewritten.as_slice()),
                            };
                            proof {
                                lemma_rewrites_push(out@, item);
                            }
                            out.push(item);
                        }
                    },
                }
            },
        }
        i = i + 1;
    }
    assert(ev.take(i as int) =~= ev);
    Ok(out)
}

// ---------------------------------------------------------------------------
// Merging plans
// ---------------------------------------------------------------------------

/// The position of the first rewrite of a file, or the length.
pub open spec fn rewrite_index(v: Seq<(Seq<char>, Seq<char>)>, path: Seq<char>, i: int) -> int
    decreases v.len() - i,
{
    if i >= v.len() {
        v.len() as int
    } else if v[i].0 == path {
        i
    } else {
        rewrite_index(v, path, i + 1)
    }
}

/// Puts a rewrite into a plan: in the place of the one for the same file, or
/// at the end.
pub open spec fn put_rewrite(
    v: Seq<(Seq<char>, Seq<char>)>,
    x: (Seq<char>, Seq<char>),
) -> Seq<(Seq<char>, Seq<char>)> {
    let i = rewrite_index(v, x.0, 0);
    if 0 <= i < v.len() {
        v.update(i, (v[i].0, x.1))
    } else {
        v.push(x)
    }
}

/// Puts the rewrites into a plan one after the other.
pub open spec fn put_rewrites(
    v: Seq<(Seq<char>, Seq<char>)>,
    more: Seq<(Seq<char>, Seq<char>)>,
) -> Seq<(Seq<char>, Seq<char>)>
    decreases more.len(),
{
    if more.len() == 0 {
        v
    } else {
        put_rewrite(put_rewrites(v, more.drop_last()), more.last())
    }
}

/// Both plans as one, with one rewrite per file: the last one planned.
pub open spec fn merged_plan(
    left: Seq<(Seq<char>, Seq<char>)>,
    right: Seq<(Seq<char>, Seq<char>)>,
) -> Seq<(Seq<char>, Seq<char>)> {
    put_rewrites(seq![], left + right)
}

fn put_one(merged: &mut Vec<TextRewrite>, x: TextRewrite)
    ensures
        rewrite_views(final(merged)@) == put_rewrite(rewrite_views(old(merged)@), x@),
{
    let ghost was = rewrite_views(merged@);
    let mut i: usize = 0;
    while i < merged.len()
        invariant
            0 <= i <= merged@.len(),
            was == rewrite_views(merged@),
            was == rewrite_views(old(merged)@),
            rewrite_index(was, x.path@, 0) == rewrite_index(was, x.path@, i as int),
        decreases merged@.len() - i,
    {
        assert(was[i as int] == merged@[i as int]@);
        if merged[i].path == x.path {
            let path = merged[i].path.clone();
            merged[i] = TextRewrite { path, content: x.content };
            assert(rewrite_views(merged@) =~= put_rewrite(was, x@));
            return;
        }
        i = i + 1;
    }
    proof {
        lemma_rewrites_push(merged@, x);
    }
    merged.push(x);
}

pub fn merge_rewrites(left: Vec<TextRewrite>, right: Vec<TextRewrite>) -> (r: Vec<TextRewrite>)
    ensures
        rewrite_views(r@) == merged_plan(rewrite_views(left@), rewrite_views(right@)),
{
    let ghost all = rewrite_views(left@) + rewrite_views(right@);
    let mut merged: Vec<TextRewrite> = Vec::new();
    assert(rewrite_views(merged@) =~= put_rewrites(seq![], all.take(0)));
    let mut i: usize = 0;
    while i < left.len()
        invariant
            0 <= i <= left@.len(),
            all == rewrite_views(left@) + rewrite_views(right@),
            rewrite_views(merged@) == put_rewrites(seq![], all.take(i as int)),
        decreases left@.len() - i,
    {
        proof {
            assert(all.take(i + 1).drop_last() =~= all.take(i as int));
            assert(all.take(i + 1).last() == left@[i as int]@);
        }
        put_one(&mut merged, crate::write_types::clone_rewrite(&left[i]));
        i = i + 1;
    }
    let mut j: usize = 0;
    while j < right.len()
        invariant
            0 <= j <= right@.len(),
            all == rewrite_views(left@) + rewrite_views(right@),
            rewrite_views(merged@) == put_rewrites(seq![], all.take(left@.len() + j)),
        decreases right@.len() - j,
    {
        proof {
            let n = left@.len() + j;
            assert(all.take(n + 1).drop_last() =~= all.take(n as int));
            assert(all.take(n + 1).last() == right@[j as int]@);
        }
        put_one(&mut merged, crate::write_types::clone_rewrite(&right[j]));
        j = j + 1;
    }
    assert(all.take((left@.len() + j) as int) =~= all);
    merged
}

proof fn lemma_rewrite_index(v: Seq<(Seq<char>, Seq<char>)>, path: Seq<char>, i: int)
    requires
        0 <= i <= v.len(),
    ensures
        i <= rewrite_index(v, path, i) <= v.len(),
        rewrite_index(v, path, i) < v.len() ==> v[rewrite_index(v, path, i)].0 == path,
        forall|k: int| i <= k < rewrite_index(v, path, i) ==> v[k].0 != path,
    decreases v.len() - i,
{
    if i < v.len() && v[i].0 != path {
        lemma_rewrite_index(v, path, i + 1);
    }
}

/// No file is rewritten twice by a plan.
pub open spec fn one_per_file(v: Seq<(Seq<char>, Seq<char>)>) -> bool {
    forall|i: int, j: int| 0 <= i < j < v.len() ==> (#[trigger] v[i]).0 != (#[trigger] v[j]).0
}

proof fn lemma_put_rewrites_one_per_file(more: Seq<(Seq<char>, Seq<char>)>)
    ensures
        one_per_file(put_rewrites(seq![], more)),
    decreases more.len(),
{
    if more.len() > 0 {
        lemma_put_rewrites_one_per_file(more.drop_last());
        let v = put_rewrites(seq![], more.drop_last());
        lemma_rewrite_index(v, more.last().0, 0);
    }
}

/// A merged plan rewrites no file twice.
pub proof fn merged_plan_has_one_rewrite_per_file(
    left: Seq<(Seq<char>, Seq<char>)>,
    right: Seq<(Seq<char>, Seq<char>)>,
)
    ensures
        one_per_file(merged_plan(left, right)),
{
    lemma_put_rewrites_one_per_file(left + right);
}

/// The content a plan holds for a file: that of its last rewrite.
pub open spec fn planned_text(v: Seq<(Seq<char>, Seq<char>)>, path: Seq<char>) -> Option<Seq<char>>
    decreases v.len(),
{
    if v.len() == 0 {
        None
    } else if v.last().0 == path {
        Some(v.last().1)
    } else {
        planned_text(v.drop_last(), path)
    }
}

pub fn planned_content(path: &str, rewrites: &Vec<TextRewrite>) -> (r: Option<String>)
    ensures
        opt_text(r) == planned_text(rewrite_views(rewrites@), path@),
{
    let ghost rv = rewrite_views(rewrites@);
    let mut n: usize = rewrites.len();
    assert(rv.take(n as int) =~= rv);
    while n > 0
        invariant
            0 <= n <= rewrites@.len(),
            rv == rewrite_views(rewrites@),
            planned_text(rv, path@) == planned_text(rv.take(n as int), path@),
        decreases n,
    {
        proof {
            assert(rv.take(n as int).last() == rewrites@[n - 1]@);
            assert(rv.take(n as int).drop_last() =~= rv.take(n - 1));
        }
        if str_eq(rewrites[n - 1].path.as_str(), path) {
            return Some(rewrites[n - 1].content.clone());
        }
        n = n - 1;
    }
    None
}

proof fn lemma_planned_after_put(
    v: Seq<(Seq<char>, Seq<char>)>,
    x: (Seq<char>, Seq<char>),
    path: Seq<char>,
)
    requires
        one_per_file(v),
    ensures
        planned_text(put_rewrite(v, x), path) == if path == x.0 {
            Some(x.1)
        } else {
            planned_text(v, path)
        },
{
    lemma_rewrite_index(v, x.0, 0);
    let i = rewrite_index(v, x.0, 0);
    if i < v.len() {
        lemma_planned_update(v, i, x.1, path);
    } else {
        assert(v.push(x).drop_last() =~= v);
    }
}

proof fn lemma_planned_update(
    v: Seq<(Seq<char>, Seq<char>)>,
    i: int,
    text: Seq<char>,
    path: Seq<char>,
)
    requires
        one_per_file(v),
        0 <= i < v.len(),
    ensures
        planned_text(v.update(i, (v[i].0, text)), path) == if path == v[i].0 {
            Some(text)
        } else {
            planned_text(v, path)
        },
    decreases v.len(),
{
    let w = v.update(i, (v[i].0, text));
    if i == v.len() - 1 {
        assert(w.drop_last() =~= v.drop_last());
        lemma_planned_absent(v.drop_last(), v[i].0);
    } else {
        assert(w.drop_last() =~= v.drop_last().update(i, (v[i].0, text)));
        assert(v.drop_last()[i] == v[i]);
        lemma_planned_update(v.drop_last(), i, text, path);
        assert(w.last() == v.last());
        if path == v[i].0 {
            assert(v.last().0 != v[i].0);
        }
    }
}

proof fn lemma_planned_absent(v: Seq<(Seq<char>, Seq<char>)>, path: Seq<char>)
    requires
        forall|k: int| 0 <= k < v.len() ==> (#[trigger] v[k]).0 != path,
    ensures
        planned_text(v, path) is None,
    decreases v.len(),
{
    if v.len() > 0 {
        lemma_planned_absent(v.drop_last(), path);
    }
}

/// A merged plan holds, for every file, what was planned for it last.
pub proof fn merged_plan_keeps_the_last_text(
    left: Seq<(Seq<char>, Seq<char>)>,
    right: Seq<(Seq<char>, Seq<char>)>,
    path: Seq<char>,
)
    ensures
        planned_text(merged_plan(left, right), path) == planned_text(left + right, path),
{
    lemma_puts_keep_last(left + right, path);
}

proof fn lemma_puts_keep_last(more: Seq<(Seq<char>, Seq<char>)>, path: Seq<char>)
    ensures
        planned_text(put_rewrites(seq![], more), path) == planned_text(more, path),
    decreases more.len(),
{
    if more.len() > 0 {
        lemma_puts_keep_last(more.drop_last(), path);
        lemma_put_rewrites_one_per_file(more.drop_last());
        lemma_planned_after_put(put_rewrites(seq![], more.drop_last()), more.last(), path);
    }
}

/// A link to any other note keeps its text.
pub proof fn link_to_another_note_is_kept(
    index: VaultIndex,
    moved_slug: Seq<char>,
    bare: Option<Seq<char>>,
    new_target: Option<Seq<char>>,
    target: Seq<char>,
)
    requires
        match linked_note(index, target) {
            Some(note) => note.slug@ != moved_slug,
            None => true,
        },
    ensures
        backlink_target(index, moved_slug, bare, new_target)(target) == Some(target),
{
}

/// Another note than the moved one has the title, letter case and the white space
/// around it aside.
pub open spec fn another_has_title(
    entries: Seq<NoteView>,
    moved_slug: Seq<char>,
    title: Seq<char>,
) -> bool {
    exists|k: int|
        0 <= k < entries.len() && (#[trigger] entries[k]).slug != moved_slug && lowercase(
            trim(entries[k].title),
        ) == lowercase(trim(title))
}

/// A link to a moved note by its bare title keeps naming a bare title, the new one,
/// as long as no other note has that. Any other link to the note, and every one if
/// another note has the title, names the note's new path. A link to a note that is
/// removed goes.
pub proof fn bare_links_stay_bare(
    index: VaultIndex,
    entries: Seq<NoteView>,
    moved_slug: Seq<char>,
    folder: Seq<char>,
    name: Seq<char>,
    target: Seq<char>,
)
    requires
        !name.contains('/'),
        linked_note(index, target) is Some,
        linked_note(index, target)->0.slug@ == moved_slug,
    ensures
        ({
            let path = folder.push('/') + name;
            let bare = bare_title(entries, moved_slug, path);
            let image = backlink_target(index, moved_slug, bare, Some(path))(target);
            let named = link_target(target);
            if !named.contains('/') && lowercase(trim(named)) == lowercase(
                trim(linked_note(index, target)->0.title@),
            ) && !another_has_title(entries, moved_slug, name) {
                image == Some(name)
            } else {
                image == Some(path)
            }
        }),
        backlink_target(index, moved_slug, None, None)(target) is None,
{
    let path = folder.push('/') + name;
    lemma_last_start(path, '/');
    let at = last_start(path, '/');
    let n = folder.len() as int;
    assert(path[n] == '/');
    assert forall|k: int| n < k < path.len() implies path[k] != '/' by {
        assert(name.contains(name[k - n - 1]));
    }
    if at > n + 1 {
        assert(path[at - 1] == '/');
    }
    assert(path.skip(n + 1) =~= name);
    assert(title_taken(entries, moved_slug, name) == another_has_title(entries, moved_slug, name));
}

/// A plan holds for a file what its last rewrite says.
pub proof fn last_rewrite_counts(
    before: Seq<(Seq<char>, Seq<char>)>,
    path: Seq<char>,
    text: Seq<char>,
    after: Seq<(Seq<char>, Seq<char>)>,
)
    requires
        forall|k: int| 0 <= k < after.len() ==> (#[trigger] after[k]).0 != path,
    ensures
        planned_text(before.push((path, text)) + after, path) == Some(text),
        planned_text(after, path) is None,
    decreases after.len(),
{
    let all = before.push((path, text)) + after;
    if after.len() == 0 {
        assert(all.last() == (path, text));
    } else {
        assert(all.last() == after[after.len() - 1]);
        assert(all.drop_last() =~= before.push((path, text)) + after.drop_last());
        assert forall|k: int| 0 <= k < after.drop_last().len() implies (
        #[trigger] after.drop_last()[k]).0 != path by {
            assert(after.drop_last()[k] == after[k]);
        }
        last_rewrite_counts(before, path, text, after.drop_last());
    }
}

} // verus!
