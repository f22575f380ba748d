//! Which parts of a Markdown text are code: fenced blocks and inline spans.
//!
//! Links and embeds are only read and only rewritten outside code.

use vstd::prelude::*;
use vstd::slice::slice_subrange;

use crate::text::{
    ascii_white_space, find_char, first_raw_line, last_raw_line, lemma_next_behind, lemma_next_char,
    lemma_next_is, lemma_texts_push, lemma_trim_start, lemma_trim_start_is, lines,
    lines_end_at_line_feeds, lines_of_two_texts, next_char, push_all, raw_lines, split_lines,
    split_raw_lines, texts, trim_start, trim_start_of, whitespace,
};

verus! {

// ---------------------------------------------------------------------------
// Fenced blocks
// ---------------------------------------------------------------------------

/// How many times `c` is repeated in `s` from position `i` on.
pub open spec fn run_len(s: Seq<char>, i: int, c: char) -> nat
    decreases s.len() - i,
{
    if 0 <= i < s.len() && s[i] == c {
        1 + run_len(s, i + 1, c)
    } else {
        0
    }
}

pub proof fn lemma_run_len(s: Seq<char>, i: int, c: char)
    requires
        0 <= i <= s.len(),
    ensures
        i + run_len(s, i, c) <= s.len(),
        forall|k: int| i <= k < i + run_len(s, i, c) ==> s[k] == c,
        i + run_len(s, i, c) < s.len() ==> s[i + run_len(s, i, c)] != c,
    decreases s.len() - i,
{
    if i < s.len() && s[i] == c {
        lemma_run_len(s, i + 1, c);
    }
}

/// A run is counted to its end.
pub proof fn lemma_run_is(s: Seq<char>, i: int, n: nat, c: char)
    requires
        0 <= i,
        i + n <= s.len(),
        forall|k: int| i <= k < i + n ==> s[k] == c,
        i + n < s.len() ==> s[i + n] != c,
    ensures
        run_len(s, i, c) == n,
{
    lemma_run_len(s, i, c);
}

pub fn count_run(s: &[char], i: usize, c: char) -> (r: usize)
    requires
        i <= s@.len(),
    ensures
        r == run_len(s@, i as int, c),
        i + r <= s@.len(),
{
    let len: usize = s.len();
    let mut n: usize = 0;
    while i + n < len && s[i + n] == c
        invariant
            i + n <= len,
            len == s@.len(),
            run_len(s@, i as int, c) == n + run_len(s@, i + n, c),
        decreases s@.len() - i - n,
    {
        n = n + 1;
    }
    n
}

/// The fence that a line, without its indentation, opens or closes: three or
/// more backticks or tildes.
pub open spec fn fence_marker(line: Seq<char>) -> Option<(char, nat)> {
    if run_len(line, 0, '`') >= 3 {
        Some(('`', run_len(line, 0, '`')))
    } else if run_len(line, 0, '~') >= 3 {
        Some(('~', run_len(line, 0, '~')))
    } else {
        None
    }
}

/// An optional fence in specification form.
pub open spec fn fence_view(f: Option<(char, usize)>) -> Option<(char, nat)> {
    match f {
        Some((c, n)) => Some((c, n as nat)),
        None => None,
    }
}

pub fn parse_fence_marker(line: &[char]) -> (r: Option<(char, usize)>)
    ensures
        fence_view(r) == fence_marker(line@),
{
    let ticks: usize = count_run(line, 0, '`');
    if ticks >= 3 {
        return Some(('`', ticks));
    }
    let tildes: usize = count_run(line, 0, '~');
    if tildes >= 3 {
        return Some(('~', tildes));
    }
    None
}

/// The open fence behind a line, given the one before it. A fence is closed by
/// a marker of its own kind that is at least as long.
pub open spec fn fence_after(fence: Option<(char, nat)>, line: Seq<char>) -> Option<(char, nat)> {
    let marker = fence_marker(trim_start(line));
    match fence {
        Some((c, n)) => match marker {
            Some((d, m)) => if d == c && m >= n {
                None
            } else {
                fence
            },
            None => fence,
        },
        None => marker,
    }
}

/// The line is a fence or stands inside one.
pub open spec fn in_fence(fence: Option<(char, nat)>, line: Seq<char>) -> bool {
    fence is Some || fence_marker(trim_start(line)) is Some
}

/// Reads one line: whether it is code, and the open fence behind it.
pub fn step_fence(fence: Option<(char, usize)>, line: &[char]) -> (r: (bool, Option<(char, usize)>))
    ensures
        r.0 == in_fence(fence_view(fence), line@),
        fence_view(r.1) == fence_after(fence_view(fence), line@),
{
    let marker = parse_fence_marker(trim_start_of(line));
    match fence {
        Some((c, n)) => match marker {
            Some((d, m)) => if d == c && m >= n {
                (true, None)
            } else {
                (true, fence)
            },
            None => (true, fence),
        },
        None => match marker {
            Some(_) => (true, marker),
            None => (false, None),
        },
    }
}

/// The line is a fence of `n` characters `c`: behind `k` characters of white
/// space it holds them, three or more, and then another character or none.
pub open spec fn fence_line(line: Seq<char>, k: int, c: char, n: nat) -> bool {
    &&& c == '`' || c == '~'
    &&& 3 <= n
    &&& 0 <= k
    &&& k + n <= line.len()
    &&& forall|i: int| 0 <= i < k ==> whitespace(#[trigger] line[i])
    &&& forall|i: int| k <= i < k + n ==> line[i] == c
    &&& k + n < line.len() ==> line[k + n] != c
}

/// The line is no fence.
pub open spec fn no_fence(line: Seq<char>) -> bool {
    forall|k: int, c: char, n: nat| !#[trigger] fence_line(line, k, c, n)
}

/// A fence is read with its character and its length, and no other line is read
/// as one.
pub proof fn fences_are_read(line: Seq<char>)
    ensures
        forall|k: int, c: char, n: nat| #[trigger]
            fence_line(line, k, c, n) ==> fence_marker(trim_start(line)) == Some((c, n)),
        no_fence(line) ==> fence_marker(trim_start(line)) is None,
{
    assert forall|k: int, c: char, n: nat| #[trigger] fence_line(line, k, c, n) implies fence_marker(
        trim_start(line),
    ) == Some((c, n)) by {
        assert(line[k] == c);
        ascii_white_space(c);
        lemma_trim_start_is(line, k);
        let t = line.skip(k);
        assert forall|i: int| 0 <= i < n implies t[i] == c by {
            assert(t[i] == line[k + i]);
        }
        lemma_run_is(t, 0, n, c);
        assert(t[0] == c);
    }
    if fence_marker(trim_start(line)) is Some {
        let (c, n) = fence_marker(trim_start(line))->0;
        lemma_trim_start(line);
        let t = trim_start(line);
        let k = line.len() - t.len();
        lemma_run_len(t, 0, c);
        assert forall|i: int| k <= i < k + n implies line[i] == c by {
            assert(t[i - k] == line[i]);
        }
        assert(k + n < line.len() ==> t[n as int] == line[k + n]);
        assert(fence_line(line, k, c, n));
    }
}

/// No line of the text closes a fence of `n` characters `c`.
pub open spec fn keeps_fence(all: Seq<Seq<char>>, c: char, n: nat) -> bool {
    forall|i: int, k: int, m: nat|
        0 <= i < all.len() && n <= m ==> !#[trigger] fence_line(line_body(all[i]), k, c, m)
}

pub proof fn lemma_fence_kept(line: Seq<char>, c: char, n: nat)
    requires
        forall|k: int, m: nat| n <= m ==> !#[trigger] fence_line(line, k, c, m),
    ensures
        fence_after(Some((c, n)), line) == Some((c, n)),
{
    fences_are_read(line);
    if fence_marker(trim_start(line)) is Some {
        let (d, m) = fence_marker(trim_start(line))->0;
        if d == c && m >= n {
            assert(!no_fence(line));
            let (k, e, l) = choose|k: int, e: char, l: nat| #[trigger] fence_line(line, k, e, l);
            assert(fence_line(line, k, e, l));
        }
    }
}

// ---------------------------------------------------------------------------
// Rewriting the lines outside fences
// ---------------------------------------------------------------------------

/// A rewrite of single lines.
pub trait LineRewrite {
    /// What the rewrite makes of a line.
    spec fn image(&self) -> spec_fn(Seq<char>) -> Seq<char>;

    fn rewrite_line(&self, line: &[char]) -> (r: Vec<char>)
        ensures
            r@ == self.image()(line@),
    ;
}

/// A line without its line feed.
pub open spec fn line_body(raw: Seq<char>) -> Seq<char> {
    if raw.len() > 0 && raw.last() == '\n' {
        raw.drop_last()
    } else {
        raw
    }
}

/// A line's line feed, if it has one.
pub open spec fn line_ending(raw: Seq<char>) -> Seq<char> {
    if raw.len() > 0 && raw.last() == '\n' {
        seq!['\n']
    } else {
        seq![]
    }
}

/// The lines from `i` on, with those outside fences rewritten by `f`.
pub open spec fn rewrite_lines_from(
    raws: Seq<Seq<char>>,
    i: int,
    fence: Option<(char, nat)>,
    f: spec_fn(Seq<char>) -> Seq<char>,
) -> Seq<char>
    decreases raws.len() - i,
{
    if i < 0 || i >= raws.len() {
        seq![]
    } else {
        let body = line_body(raws[i]);
        let here = if in_fence(fence, body) {
            raws[i]
        } else {
            f(body) + line_ending(raws[i])
        };
        here + rewrite_lines_from(raws, i + 1, fence_after(fence, body), f)
    }
}

/// `content` with every line outside fenced blocks rewritten by `f`. Line
/// endings and fenced blocks stay as they are.
pub open spec fn rewrite_lines(content: Seq<char>, f: spec_fn(Seq<char>) -> Seq<char>) -> Seq<char> {
    rewrite_lines_from(raw_lines(content), 0, None, f)
}

pub fn rewrite_plain_lines<T: LineRewrite>(content: &[char], t: &T) -> (r: Vec<char>)
    ensures
        r@ == rewrite_lines(content@, t.image()),
{
    let raws = split_raw_lines(content);
    let ghost views = raw_lines(content@);
    let mut out: Vec<char> = Vec::new();
    let mut fence: Option<(char, usize)> = None;
    let mut i: usize = 0;
    assert(out@ + rewrite_lines_from(views, 0, None, t.image()) =~= rewrite_lines(
        content@,
        t.image(),
    ));
    while i < raws.len()
        invariant
            0 <= i <= raws@.len(),
            texts(raws@) == views,
            rewrite_lines(content@, t.image()) == out@ + rewrite_lines_from(
                views,
                i as int,
                fence_view(fence),
                t.image(),
            ),
        decreases raws@.len() - i,
    {
        let raw = raws[i].as_slice();
        let n: usize = raw.len();
        let ends = n > 0 && raw[n - 1] == '\n';
        let body = slice_subrange(
            raw,
            0,
            if ends {
                n - 1
            } else {
                n
            },
        );
        let ghost start = out@;
        let ghost was = fence_view(fence);
        proof {
            assert(texts(raws@)[i as int] == raw@);
            assert(body@ =~= line_body(raw@));
        }
        let (code, next) = step_fence(fence, body);
        if code {
            push_all(&mut out, raw);
            assert(out@ == start + raw@);
        } else {
            let line = t.rewrite_line(body);
            push_all(&mut out, line.as_slice());
            if ends {
                out.push('\n');
            }
            assert(out@ =~= start + (t.image()(body@) + line_ending(raw@)));
        }
        fence = next;
        proof {
            let here = if in_fence(was, body@) {
                raw@
            } else {
                t.image()(body@) + line_ending(raw@)
            };
            let rest = rewrite_lines_from(views, i + 1, fence_view(fence), t.image());
            assert(out@ + rest =~= start + (here + rest));
        }
        i = i + 1;
    }
    assert(out@ =~= rewrite_lines(content@, t.image()));
    out
}

/// The lines from `i` on, one after the other.
pub open spec fn concat_from(raws: Seq<Seq<char>>, i: int) -> Seq<char>
    decreases raws.len() - i,
{
    if i < 0 || i >= raws.len() {
        seq![]
    } else {
        raws[i] + concat_from(raws, i + 1)
    }
}

proof fn lemma_lines_concat(s: Seq<char>, i: int)
    requires
        0 <= i <= s.len(),
    ensures
        concat_from(crate::text::raw_lines_from(s, i), 0) == s.skip(i),
    decreases s.len() - i,
{
    let all = crate::text::raw_lines_from(s, i);
    if i < s.len() {
        lemma_next_char(s, i, '\n');
        let j = next_char(s, i, '\n');
        if j < s.len() {
            lemma_lines_concat(s, j + 1);
            let rest = crate::text::raw_lines_from(s, j + 1);
            assert(all =~= seq![s.subrange(i, j + 1)] + rest);
            lemma_concat_shift(all, rest, 0);
            assert(concat_from(all, 0) == all[0] + concat_from(all, 1));
            assert(s.skip(i) =~= s.subrange(i, j + 1) + s.skip(j + 1));
        } else {
            assert(all =~= seq![s.skip(i)]);
            assert(concat_from(all, 1) =~= seq![]);
            assert(concat_from(all, 0) =~= s.skip(i));
        }
    } else {
        assert(s.skip(i) =~= seq![]);
    }
}

proof fn lemma_concat_shift(all: Seq<Seq<char>>, rest: Seq<Seq<char>>, k: int)
    requires
        0 <= k <= rest.len(),
        all.len() == rest.len() + 1,
        all.skip(1) =~= rest,
    ensures
        concat_from(all, k + 1) == concat_from(rest, k),
    decreases rest.len() - k,
{
    if k < rest.len() {
        assert(all.skip(1)[k] == all[k + 1]);
        lemma_concat_shift(all, rest, k + 1);
    }
}

/// A text is the concatenation of its lines.
pub proof fn lemma_raw_lines_concat(s: Seq<char>)
    ensures
        concat_from(raw_lines(s), 0) == s,
{
    lemma_lines_concat(s, 0);
    assert(s.skip(0) =~= s);
}

proof fn lemma_rewrite_keeps(
    raws: Seq<Seq<char>>,
    i: int,
    fence: Option<(char, nat)>,
    f: spec_fn(Seq<char>) -> Seq<char>,
)
    requires
        0 <= i <= raws.len(),
        forall|k: int|
            i <= k < raws.len() ==> f(line_body(#[trigger] raws[k])) == line_body(raws[k]),
    ensures
        rewrite_lines_from(raws, i, fence, f) == concat_from(raws, i),
    decreases raws.len() - i,
{
    if i < raws.len() {
        let body = line_body(raws[i]);
        lemma_rewrite_keeps(raws, i + 1, fence_after(fence, body), f);
        assert(body + line_ending(raws[i]) =~= raws[i]);
    }
}

/// A rewrite that keeps every line of a text keeps the text.
pub proof fn rewrite_that_keeps_lines_keeps_text(
    content: Seq<char>,
    f: spec_fn(Seq<char>) -> Seq<char>,
)
    requires
        forall|k: int|
            0 <= k < raw_lines(content).len() ==> f(line_body(#[trigger] raw_lines(content)[k]))
                == line_body(raw_lines(content)[k]),
    ensures
        rewrite_lines(content, f) == content,
{
    lemma_rewrite_keeps(raw_lines(content), 0, None, f);
    lemma_raw_lines_concat(content);
}

proof fn lemma_rewrite_behind(
    a: Seq<Seq<char>>,
    b: Seq<Seq<char>>,
    k: int,
    fence: Option<(char, nat)>,
    f: spec_fn(Seq<char>) -> Seq<char>,
)
    requires
        0 <= k <= b.len(),
    ensures
        rewrite_lines_from(a + b, a.len() + k, fence, f) == rewrite_lines_from(b, k, fence, f),
    decreases b.len() - k,
{
    if k < b.len() {
        assert((a + b)[a.len() + k] == b[k]);
        lemma_rewrite_behind(a, b, k + 1, fence_after(fence, line_body(b[k])), f);
    }
}

proof fn lemma_rewrite_in_fence(
    a: Seq<Seq<char>>,
    b: Seq<Seq<char>>,
    i: int,
    c: char,
    n: nat,
    f: spec_fn(Seq<char>) -> Seq<char>,
)
    requires
        0 <= i <= a.len(),
        keeps_fence(a, c, n),
    ensures
        rewrite_lines_from(a + b, i, Some((c, n)), f) == concat_from(a, i) + rewrite_lines_from(
            b,
            0,
            Some((c, n)),
            f,
        ),
    decreases a.len() - i,
{
    if i < a.len() {
        assert((a + b)[i] == a[i]);
        assert forall|k: int, m: nat| n <= m implies !#[trigger] fence_line(
            line_body(a[i]),
            k,
            c,
            m,
        ) by {}
        lemma_fence_kept(line_body(a[i]), c, n);
        lemma_rewrite_in_fence(a, b, i + 1, c, n, f);
        let rest = rewrite_lines_from(b, 0, Some((c, n)), f);
        assert(a[i] + (concat_from(a, i + 1) + rest) =~= concat_from(a, i) + rest);
    } else {
        lemma_rewrite_behind(a, b, 0, Some((c, n)), f);
        assert(concat_from(a, i) + rewrite_lines_from(b, 0, Some((c, n)), f) =~= rewrite_lines_from(
            b,
            0,
            Some((c, n)),
            f,
        ));
    }
}

/// A line that is no fence is rewritten, its line feed stays, and what follows is
/// rewritten on its own. A last line without a line feed is rewritten too.
pub proof fn plain_line_is_rewritten(
    line: Seq<char>,
    rest: Seq<char>,
    f: spec_fn(Seq<char>) -> Seq<char>,
)
    requires
        !line.contains('\n'),
        no_fence(line),
    ensures
        rewrite_lines(line.push('\n') + rest, f) == f(line) + seq!['\n'] + rewrite_lines(rest, f),
        line.len() > 0 ==> rewrite_lines(line, f) == f(line),
        rewrite_lines(seq![], f) == Seq::<char>::empty(),
{
    fences_are_read(line);
    first_raw_line(line, rest);
    last_raw_line(line);
    let raw = line.push('\n');
    assert(raw.drop_last() =~= line);
    lemma_rewrite_behind(seq![raw], raw_lines(rest), 0, None, f);
    let none = Seq::<char>::empty();
    last_raw_line(none);
    assert(rewrite_lines(none, f) =~= none);
    if line.len() > 0 {
        assert(line.last() != '\n') by {
            assert(line.contains(line.last()));
        }
        assert(rewrite_lines_from(seq![line], 1, None, f) =~= none);
        assert(rewrite_lines(line, f) =~= f(line));
    }
}

/// A fenced block is kept: the fence that opens it, the lines that do not close
/// it, and the fence that does, which is of the same character and at least as
/// long. What follows is rewritten on its own. A block that is never closed is
/// kept to the end of the text.
pub proof fn fenced_block_is_kept(
    open: Seq<char>,
    inner: Seq<char>,
    close: Seq<char>,
    rest: Seq<char>,
    k: int,
    l: int,
    c: char,
    n: nat,
    m: nat,
    f: spec_fn(Seq<char>) -> Seq<char>,
)
    requires
        !open.contains('\n'),
        !close.contains('\n'),
        fence_line(open, k, c, n),
        fence_line(close, l, c, m),
        n <= m,
        inner.len() > 0 ==> inner.last() == '\n',
        keeps_fence(raw_lines(inner), c, n),
    ensures
        rewrite_lines(open.push('\n') + inner + close.push('\n') + rest, f) == open.push('\n')
            + inner + close.push('\n') + rewrite_lines(rest, f),
        rewrite_lines(open.push('\n') + inner, f) == open.push('\n') + inner,
{
    let first = open.push('\n');
    let last = close.push('\n');
    let behind = last + rest;
    let a = raw_lines(inner);
    let fence = Some((c, n));
    fences_are_read(open);
    fences_are_read(close);
    assert(first.drop_last() =~= open);
    assert(last.drop_last() =~= close);
    assert(first + inner + last + rest =~= first + (inner + behind));
    first_raw_line(open, inner + behind);
    first_raw_line(open, inner);
    first_raw_line(close, rest);
    lines_of_two_texts(inner, behind);
    lemma_raw_lines_concat(inner);
    let b = raw_lines(behind);
    lemma_rewrite_behind(seq![first], a + b, 0, fence, f);
    lemma_rewrite_behind(seq![first], a, 0, fence, f);
    lemma_rewrite_in_fence(a, b, 0, c, n, f);
    lemma_rewrite_in_fence(a, seq![], 0, c, n, f);
    assert(a + seq![] =~= a);
    assert(rewrite_lines_from(seq![], 0, fence, f) =~= seq![]);
    lemma_rewrite_behind(seq![last], raw_lines(rest), 0, None, f);
    assert(rewrite_lines_from(b, 0, fence, f) =~= last + rewrite_lines(rest, f));
    assert(rewrite_lines(first + (inner + behind), f) =~= first + (inner + (last + rewrite_lines(
        rest,
        f,
    ))));
    assert(rewrite_lines(first + inner, f) =~= first + inner);
    assert(first + (inner + (last + rewrite_lines(rest, f))) =~= first + inner + last
        + rewrite_lines(rest, f));
}

// ---------------------------------------------------------------------------
// Inline code
// ---------------------------------------------------------------------------

/// The line from `i` on, outside a code span, without its code spans. A span
/// runs from a run of backticks to the next run of the same length.
pub open spec fn visible_from(s: Seq<char>, i: int) -> Seq<char>
    decreases s.len() - i via visible_from_decreases
{
    if i < 0 || i >= s.len() {
        seq![]
    } else if s[i] == '`' {
        let n = run_len(s, i, '`');
        hidden_from(s, i + n, n)
    } else {
        seq![s[i]] + visible_from(s, i + 1)
    }
}

#[via_fn]
proof fn visible_from_decreases(s: Seq<char>, i: int) {
    if 0 <= i < s.len() {
        lemma_run_len(s, i, '`');
    }
}

/// The line from `i` on, inside a code span opened by `m` backticks, without
/// the code.
pub open spec fn hidden_from(s: Seq<char>, i: int, m: nat) -> Seq<char>
    decreases s.len() - i via hidden_from_decreases
{
    if i < 0 || i >= s.len() {
        seq![]
    } else if s[i] == '`' {
        let n = run_len(s, i, '`');
        if n == m {
            visible_from(s, i + n)
        } else {
            hidden_from(s, i + n, m)
        }
    } else {
        hidden_from(s, i + 1, m)
    }
}

#[via_fn]
proof fn hidden_from_decreases(s: Seq<char>, i: int, m: nat) {
    if 0 <= i < s.len() {
        lemma_run_len(s, i, '`');
    }
}

/// The line without its code spans.
pub open spec fn visible_text(line: Seq<char>) -> Seq<char> {
    visible_from(line, 0)
}

/// `n` backticks.
pub open spec fn ticks(n: nat) -> Seq<char> {
    Seq::new(n, |_i: int| '`')
}

/// A run of exactly `n` backticks stands in the text at `i`.
pub open spec fn holds_run(s: Seq<char>, i: int, n: nat) -> bool {
    &&& 0 <= i
    &&& 0 < n
    &&& i + n <= s.len()
    &&& forall|k: int| i <= k < i + n ==> s[k] == '`'
    &&& 0 < i ==> s[i - 1] != '`'
    &&& i + n < s.len() ==> s[i + n] != '`'
}

/// The text can stand in a code span between runs of `n` backticks: it neither
/// starts nor ends with a backtick and holds no such run.
pub open spec fn is_code(code: Seq<char>, n: nat) -> bool {
    &&& 0 < n
    &&& code.len() > 0
    &&& code[0] != '`'
    &&& code.last() != '`'
    &&& forall|i: int| !#[trigger] holds_run(code, i, n)
}

/// A line that a code span stands in.
pub open spec fn with_span(head: Seq<char>, n: nat, code: Seq<char>, tail: Seq<char>) -> Seq<char> {
    head + ticks(n) + code + ticks(n) + tail
}

/// A run of backticks inside the code of a span ends there and has another length
/// than the runs around the span.
pub proof fn lemma_run_in_code(s: Seq<char>, from: int, code: Seq<char>, n: nat, i: int)
    requires
        0 <= from <= i < from + code.len() <= s.len(),
        s.subrange(from, from + code.len()) == code,
        is_code(code, n),
        s[i] == '`',
        i > from ==> s[i - 1] != '`',
    ensures
        0 < run_len(s, i, '`'),
        i + run_len(s, i, '`') < from + code.len(),
        s[i + run_len(s, i, '`')] != '`',
        run_len(s, i, '`') != n,
{
    lemma_run_len(s, i, '`');
    let r = run_len(s, i, '`');
    let to = from + code.len();
    assert(code.last() == s[to - 1]);
    assert(forall|k: int| 0 <= k < code.len() ==> code[k] == s[from + k]);
    if r == n {
        assert(holds_run(code, i - from, n));
    }
}

/// The runs around the code of a span are counted as they stand.
pub proof fn lemma_span_runs(head: Seq<char>, n: nat, code: Seq<char>, tail: Seq<char>)
    requires
        is_code(code, n),
        tail.len() > 0 ==> tail[0] != '`',
    ensures
        ({
            let s = with_span(head, n, code, tail);
            let from = head.len() as int + n;
            let to = from + code.len();
            &&& s.len() == to + n + tail.len()
            &&& s.subrange(from, to) == code
            &&& s[head.len() as int] == '`'
            &&& s[to] == '`'
            &&& run_len(s, head.len() as int, '`') == n
            &&& run_len(s, to, '`') == n
            &&& s == head + ticks(n) + code + ticks(n) + tail
        }),
{
    let s = with_span(head, n, code, tail);
    let at = head.len() as int;
    let from = at + n;
    let to = from + code.len();
    assert(s.subrange(from, to) =~= code);
    assert(s[from] == code[0]);
    assert(to + n < s.len() ==> s[to + n] == tail[0]);
    lemma_run_is(s, at, n, '`');
    lemma_run_is(s, to, n, '`');
}

proof fn lemma_hidden_code(s: Seq<char>, from: int, code: Seq<char>, n: nat, i: int)
    requires
        0 <= from <= i <= from + code.len() <= s.len(),
        s.subrange(from, from + code.len()) == code,
        is_code(code, n),
        from < i < from + code.len() ==> s[i - 1] != '`' || s[i] != '`',
    ensures
        hidden_from(s, i, n) == hidden_from(s, from + code.len(), n),
    decreases from + code.len() - i,
{
    if i < from + code.len() {
        if s[i] == '`' {
            lemma_run_in_code(s, from, code, n, i);
            lemma_hidden_code(s, from, code, n, i + run_len(s, i, '`'));
        } else {
            lemma_hidden_code(s, from, code, n, i + 1);
        }
    }
}

proof fn lemma_visible_plain(s: Seq<char>, i: int, to: int)
    requires
        0 <= i <= to <= s.len(),
        forall|k: int| i <= k < to ==> s[k] != '`',
    ensures
        visible_from(s, i) == s.subrange(i, to) + visible_from(s, to),
    decreases to - i,
{
    if i < to {
        lemma_visible_plain(s, i + 1, to);
        assert(s.subrange(i, to) =~= seq![s[i]] + s.subrange(i + 1, to));
        assert(seq![s[i]] + (s.subrange(i + 1, to) + visible_from(s, to)) =~= s.subrange(i, to)
            + visible_from(s, to));
    } else {
        assert(s.subrange(i, to) + visible_from(s, to) =~= visible_from(s, to));
    }
}

/// From its start on the whole is scanned as the part behind the prefix is.
pub proof fn lemma_run_behind(a: Seq<char>, b: Seq<char>, k: int, c: char)
    requires
        0 <= k <= b.len(),
    ensures
        run_len(a + b, a.len() + k, c) == run_len(b, k, c),
{
    lemma_run_len(b, k, c);
    let n = run_len(b, k, c);
    assert forall|j: int| a.len() + k <= j < a.len() + k + n implies (a + b)[j] == c by {
        assert((a + b)[j] == b[j - a.len()]);
    }
    lemma_run_is(a + b, a.len() + k, n, c);
}

proof fn lemma_visible_behind(a: Seq<char>, b: Seq<char>, k: int, m: nat)
    requires
        0 <= k <= b.len(),
    ensures
        visible_from(a + b, a.len() + k) == visible_from(b, k),
        hidden_from(a + b, a.len() + k, m) == hidden_from(b, k, m),
    decreases b.len() - k,
{
    if k < b.len() {
        assert((a + b)[a.len() + k] == b[k]);
        lemma_run_behind(a, b, k, '`');
        lemma_run_len(b, k, '`');
        if b[k] == '`' {
            let n = run_len(b, k, '`');
            lemma_visible_behind(a, b, k + n, n);
            lemma_visible_behind(a, b, k + n, m);
        } else {
            lemma_visible_behind(a, b, k + 1, m);
        }
    }
}

/// A code span is left out: it runs from backticks to the next run of as many,
/// and what follows is read on its own. A text without backticks is kept, and a
/// span that is never closed runs to the end of the line.
pub proof fn code_spans_are_left_out(head: Seq<char>, n: nat, code: Seq<char>, tail: Seq<char>)
    requires
        !head.contains('`'),
        is_code(code, n),
        tail.len() > 0 ==> tail[0] != '`',
    ensures
        visible_text(with_span(head, n, code, tail)) == head + visible_text(tail),
        visible_text(head + ticks(n) + code) == head,
        visible_text(head) == head,
{
    let s = with_span(head, n, code, tail);
    let at = head.len() as int;
    let from = at + n;
    let to = from + code.len();
    lemma_span_runs(head, n, code, tail);
    assert forall|k: int| 0 <= k < at implies s[k] != '`' && head[k] != '`' by {
        assert(head.contains(head[k]));
    }
    lemma_visible_plain(s, 0, at);
    assert(s.subrange(0, at) =~= head);
    lemma_hidden_code(s, from, code, n, from);
    let front = head + ticks(n) + code + ticks(n);
    lemma_visible_behind(front, tail, 0, 0);
    assert(s =~= front + tail);
    let u = head + ticks(n) + code;
    assert(u.subrange(from, to) =~= code);
    assert(u[from] == code[0]);
    lemma_run_is(u, at, n, '`');
    lemma_visible_plain(u, 0, at);
    assert(u.subrange(0, at) =~= head);
    lemma_hidden_code(u, from, code, n, from);
    assert(hidden_from(u, to, n) =~= seq![]);
    assert(u[at] == '`');
    assert(head + seq![] =~= head);
    lemma_visible_plain(head, 0, at);
    assert(head.subrange(0, at) =~= head);
    assert(visible_from(head, at) =~= seq![]);
}

pub fn without_inline_code(line: &[char]) -> (r: Vec<char>)
    ensures
        r@ == visible_text(line@),
{
    let mut out: Vec<char> = Vec::new();
    let mut i: usize = 0;
    let mut m: usize = 0;
    assert(out@ + visible_from(line@, 0) =~= visible_text(line@));
    while i < line.len()
        invariant
            0 <= i <= line@.len(),
            visible_text(line@) == out@ + (if m == 0 {
                visible_from(line@, i as int)
            } else {
                hidden_from(line@, i as int, m as nat)
            }),
        decreases line@.len() - i,
    {
        if line[i] == '`' {
            let n: usize = count_run(line, i, '`');
            assert(n >= 1);
            if m == 0 {
                m = n;
            } else if n == m {
                m = 0;
            }
            i = i + n;
        } else {
            let ghost start = out@;
            if m == 0 {
                out.push(line[i]);
                assert(out@ + visible_from(line@, i + 1) =~= start + visible_from(line@, i as int));
            }
            i = i + 1;
        }
    }
    assert(out@ =~= visible_text(line@));
    out
}

/// The lines outside fenced blocks from `i` on, without their code spans.
pub open spec fn prose_from(all: Seq<Seq<char>>, i: int, fence: Option<(char, nat)>) -> Seq<Seq<char>>
    decreases all.len() - i,
{
    if i < 0 || i >= all.len() {
        seq![]
    } else {
        let rest = prose_from(all, i + 1, fence_after(fence, all[i]));
        if in_fence(fence, all[i]) {
            rest
        } else {
            seq![visible_text(all[i])] + rest
        }
    }
}

/// The lines of `content` that are not code, without their code spans.
pub open spec fn prose(content: Seq<char>) -> Seq<Seq<char>> {
    prose_from(lines(content), 0, None)
}

proof fn lemma_prose_behind(a: Seq<Seq<char>>, b: Seq<Seq<char>>, k: int, fence: Option<(char, nat)>)
    requires
        0 <= k <= b.len(),
    ensures
        prose_from(a + b, a.len() + k, fence) == prose_from(b, k, fence),
    decreases b.len() - k,
{
    if k < b.len() {
        assert((a + b)[a.len() + k] == b[k]);
        lemma_prose_behind(a, b, k + 1, fence_after(fence, b[k]));
    }
}

proof fn lemma_prose_in_fence(a: Seq<Seq<char>>, b: Seq<Seq<char>>, i: int, c: char, n: nat)
    requires
        0 <= i <= a.len(),
        forall|j: int, k: int, m: nat|
            0 <= j < a.len() && n <= m ==> !#[trigger] fence_line(a[j], k, c, m),
    ensures
        prose_from(a + b, i, Some((c, n))) == prose_from(b, 0, Some((c, n))),
    decreases a.len() - i,
{
    if i < a.len() {
        assert((a + b)[i] == a[i]);
        assert forall|k: int, m: nat| n <= m implies !#[trigger] fence_line(a[i], k, c, m) by {}
        lemma_fence_kept(a[i], c, n);
        lemma_prose_in_fence(a, b, i + 1, c, n);
    } else {
        lemma_prose_behind(a, b, 0, Some((c, n)));
    }
}

/// A line that is no fence is read, without its code spans, and what follows is
/// read on its own.
pub proof fn plain_line_is_read(line: Seq<char>, rest: Seq<char>)
    requires
        !line.contains('\n'),
        line.len() > 0 ==> line.last() != '\r',
        no_fence(line),
    ensures
        prose(line.push('\n') + rest) == seq![visible_text(line)] + prose(rest),
        prose(line + "\r\n"@ + rest) == seq![visible_text(line)] + prose(rest),
        line.len() > 0 ==> prose(line) == seq![visible_text(line)],
        prose(seq![]) == Seq::<Seq<char>>::empty(),
{
    fences_are_read(line);
    lines_end_at_line_feeds(line, rest);
    reveal_strlit("\r\n");
    let other = line.push('\r');
    assert(!other.contains('\n')) by {
        if other.contains('\n') {
            let k = choose|k: int| 0 <= k < other.len() && other[k] == '\n';
            assert(line[k] == '\n');
        }
    }
    lines_end_at_line_feeds(other, rest);
    assert(other.drop_last() =~= line);
    assert(line + "\r\n"@ + rest =~= other.push('\n') + rest);
    lemma_prose_behind(seq![line], lines(rest), 0, None);
    assert(prose(seq![]) =~= Seq::<Seq<char>>::empty());
    if line.len() > 0 {
        assert(prose_from(seq![line], 1, None) =~= seq![]);
        assert(prose(line) =~= seq![visible_text(line)]);
    }
}

/// A fenced block is code: neither its fences nor the lines between them are
/// read, and what follows is read on its own. A block that is never closed is
/// code to the end of the text.
pub proof fn fenced_block_is_not_read(
    open: Seq<char>,
    inner: Seq<char>,
    close: Seq<char>,
    rest: Seq<char>,
    k: int,
    l: int,
    c: char,
    n: nat,
    m: nat,
)
    requires
        !open.contains('\n'),
        !close.contains('\n'),
        open.last() != '\r',
        close.last() != '\r',
        fence_line(open, k, c, n),
        fence_line(close, l, c, m),
        n <= m,
        inner.len() > 0 ==> inner.last() == '\n',
        forall|j: int, x: int, y: nat|
            0 <= j < lines(inner).len() && n <= y ==> !#[trigger] fence_line(
                lines(inner)[j],
                x,
                c,
                y,
            ),
    ensures
        prose(open.push('\n') + inner + close.push('\n') + rest) == prose(rest),
        prose(open.push('\n') + inner) == Seq::<Seq<char>>::empty(),
{
    let first = open.push('\n');
    let behind = close.push('\n') + rest;
    let a = lines(inner);
    let fence = Some((c, n));
    fences_are_read(open);
    fences_are_read(close);
    assert(first + inner + close.push('\n') + rest =~= first + (inner + behind));
    lines_end_at_line_feeds(open, inner + behind);
    lines_end_at_line_feeds(open, inner);
    lines_end_at_line_feeds(close, rest);
    lines_of_two_texts(inner, behind);
    let b = lines(behind);
    lemma_prose_behind(seq![open], a + b, 0, fence);
    lemma_prose_behind(seq![open], a, 0, fence);
    lemma_prose_in_fence(a, b, 0, c, n);
    lemma_prose_in_fence(a, seq![], 0, c, n);
    assert(a + seq![] =~= a);
    assert(prose_from(seq![], 0, fence) =~= seq![]);
    lemma_prose_behind(seq![close], lines(rest), 0, None);
}

pub fn non_code_lines(content: &[char]) -> (r: Vec<Vec<char>>)
    ensures
        texts(r@) == prose(content@),
{
    let all = split_lines(content);
    let ghost views = lines(content@);
    let mut out: Vec<Vec<char>> = Vec::new();
    let mut fence: Option<(char, usize)> = None;
    let mut i: usize = 0;
    assert(texts(out@) + prose_from(views, 0, None) =~= prose(content@));
    while i < all.len()
        invariant
            0 <= i <= all@.len(),
            texts(all@) == views,
            views == lines(content@),
            prose(content@) == texts(out@) + prose_from(views, i as int, fence_view(fence)),
        decreases all@.len() - i,
    {
        let ghost start = out@;
        let ghost was = fence_view(fence);
        assert(texts(all@)[i as int] == all@[i as int]@);
        let (code, next) = step_fence(fence, all[i].as_slice());
        if !code {
            let line = without_inline_code(all[i].as_slice());
            proof {
                lemma_texts_push(out@, line);
            }
            out.push(line);
        }
        fence = next;
        assert(texts(out@) + prose_from(views, i + 1, fence_view(fence)) =~= texts(start)
            + prose_from(views, i as int, was));
        i = i + 1;
    }
    assert(texts(out@) =~= prose(content@));
    out
}

/// A rewrite of the text between code spans.
pub trait SegmentRewrite {
    /// What the rewrite makes of a stretch of text.
    spec fn segment_image(&self) -> spec_fn(Seq<char>) -> Seq<char>;

    fn rewrite_segment(&self, segment: &[char]) -> (r: Vec<char>)
        ensures
            r@ == self.segment_image()(segment@),
    ;
}

/// The line from `i` on, outside a code span, with each stretch of text
/// between code spans rewritten by `g` and the spans as they are.
pub open spec fn segments_from(s: Seq<char>, i: int, g: spec_fn(Seq<char>) -> Seq<char>) -> Seq<char>
    decreases s.len() - i via segments_from_decreases
{
    if i < 0 || i >= s.len() {
        seq![]
    } else {
        let j = next_char(s, i, '`');
        let head = if i < j <= s.len() {
            g(s.subrange(i, j))
        } else {
            seq![]
        };
        if i <= j < s.len() && run_len(s, j, '`') > 0 {
            let n = run_len(s, j, '`');
            head + (s.subrange(j, j + n) + code_from(s, j + n, n, g))
        } else {
            head
        }
    }
}

#[via_fn]
proof fn segments_from_decreases(s: Seq<char>, i: int, g: spec_fn(Seq<char>) -> Seq<char>) {
    if 0 <= i < s.len() {
        lemma_next_char(s, i, '`');
        lemma_run_len(s, next_char(s, i, '`'), '`');
    }
}

/// The line from `i` on, inside a code span opened by `m` backticks.
pub open spec fn code_from(s: Seq<char>, i: int, m: nat, g: spec_fn(Seq<char>) -> Seq<char>) -> Seq<
    char,
>
    decreases s.len() - i via code_from_decreases
{
    if i < 0 || i >= s.len() {
        seq![]
    } else if s[i] == '`' {
        let n = run_len(s, i, '`');
        s.subrange(i, i + n) + (if n == m {
            segments_from(s, i + n, g)
        } else {
            code_from(s, i + n, m, g)
        })
    } else {
        seq![s[i]] + code_from(s, i + 1, m, g)
    }
}

#[via_fn]
proof fn code_from_decreases(s: Seq<char>, i: int, m: nat, g: spec_fn(Seq<char>) -> Seq<char>) {
    if 0 <= i < s.len() {
        lemma_run_len(s, i, '`');
    }
}

/// The line with the text between its code spans rewritten by `g`.
pub open spec fn rewrite_segments(line: Seq<char>, g: spec_fn(Seq<char>) -> Seq<char>) -> Seq<char> {
    segments_from(line, 0, g)
}

proof fn lemma_code_is_kept(
    s: Seq<char>,
    from: int,
    code: Seq<char>,
    n: nat,
    i: int,
    g: spec_fn(Seq<char>) -> Seq<char>,
)
    requires
        0 <= from <= i <= from + code.len() <= s.len(),
        s.subrange(from, from + code.len()) == code,
        is_code(code, n),
        from < i < from + code.len() ==> s[i - 1] != '`' || s[i] != '`',
    ensures
        code_from(s, i, n, g) == s.subrange(i, from + code.len()) + code_from(
            s,
            from + code.len(),
            n,
            g,
        ),
    decreases from + code.len() - i,
{
    let to = from + code.len();
    let rest = code_from(s, to, n, g);
    if i < to {
        let next = if s[i] == '`' {
            lemma_run_in_code(s, from, code, n, i);
            i + run_len(s, i, '`')
        } else {
            i + 1
        };
        lemma_code_is_kept(s, from, code, n, next, g);
        assert(s.subrange(i, next) + (s.subrange(next, to) + rest) =~= s.subrange(i, to) + rest);
        assert(s.subrange(i, i + 1) =~= seq![s[i]]);
    } else {
        assert(s.subrange(i, to) + rest =~= rest);
    }
}

proof fn lemma_segments_behind(
    a: Seq<char>,
    b: Seq<char>,
    k: int,
    m: nat,
    g: spec_fn(Seq<char>) -> Seq<char>,
)
    requires
        0 <= k <= b.len(),
    ensures
        segments_from(a + b, a.len() + k, g) == segments_from(b, k, g),
        code_from(a + b, a.len() + k, m, g) == code_from(b, k, m, g),
    decreases b.len() - k,
{
    let s = a + b;
    let at = a.len() + k;
    if k < b.len() {
        assert(s[at] == b[k]);
        lemma_run_behind(a, b, k, '`');
        lemma_run_len(b, k, '`');
        let r = run_len(b, k, '`');
        if b[k] == '`' {
            lemma_segments_behind(a, b, k + r, m, g);
            assert(s.subrange(at, at + r) =~= b.subrange(k, k + r));
        } else {
            lemma_segments_behind(a, b, k + 1, m, g);
        }
        lemma_next_behind(a, b, k, '`');
        lemma_next_char(b, k, '`');
        let j = next_char(b, k, '`');
        assert(s.subrange(at, a.len() + j) =~= b.subrange(k, j));
        if j < b.len() {
            lemma_run_behind(a, b, j, '`');
            lemma_run_len(b, j, '`');
            let n = run_len(b, j, '`');
            lemma_segments_behind(a, b, j + n, n, g);
            assert(s.subrange(a.len() + j, a.len() + j + n) =~= b.subrange(j, j + n));
        }
    }
}

/// What stands in front of a code span is rewritten, the span is kept, and what
/// follows is rewritten on its own. A span that is never closed is kept to the
/// end of the line.
pub proof fn code_spans_are_kept(
    head: Seq<char>,
    n: nat,
    code: Seq<char>,
    tail: Seq<char>,
    g: spec_fn(Seq<char>) -> Seq<char>,
)
    requires
        !head.contains('`'),
        is_code(code, n),
        tail.len() > 0 ==> tail[0] != '`',
    ensures
        rewrite_segments(with_span(head, n, code, tail), g) == rewrite_segments(head, g) + ticks(n)
            + code + ticks(n) + rewrite_segments(tail, g),
        rewrite_segments(head + ticks(n) + code, g) == rewrite_segments(head, g) + ticks(n) + code,
        rewrite_segments(head, g) == (if head.len() > 0 {
            g(head)
        } else {
            seq![]
        }),
{
    let s = with_span(head, n, code, tail);
    let at = head.len() as int;
    let from = at + n;
    let to = from + code.len();
    let u = head + ticks(n) + code;
    lemma_span_runs(head, n, code, tail);
    assert forall|k: int| 0 <= k < at implies s[k] != '`' && head[k] != '`' && u[k] != '`' by {
        assert(head.contains(head[k]));
    }
    lemma_next_is(s, 0, at, '`');
    lemma_next_is(head, 0, at, '`');
    assert(s.subrange(0, at) =~= head);
    assert(head.subrange(0, at) =~= head);
    lemma_code_is_kept(s, from, code, n, from, g);
    let front = head + ticks(n) + code + ticks(n);
    lemma_segments_behind(front, tail, 0, 0, g);
    assert(s =~= front + tail);
    assert(s.subrange(at, from) =~= ticks(n));
    assert(s.subrange(to, to + n) =~= ticks(n));
    let start = rewrite_segments(head, g);
    let end = rewrite_segments(tail, g);
    assert(rewrite_segments(s, g) =~= start + (ticks(n) + (code + (ticks(n) + end))));
    assert(start + (ticks(n) + (code + (ticks(n) + end))) =~= start + ticks(n) + code + ticks(n)
        + end);
    assert(u[at] == '`');
    lemma_next_is(u, 0, at, '`');
    assert(u.subrange(from, to) =~= code);
    assert(u[from] == code[0]);
    lemma_run_is(u, at, n, '`');
    assert(u.subrange(0, at) =~= head);
    lemma_code_is_kept(u, from, code, n, from, g);
    assert(code_from(u, to, n, g) =~= seq![]);
    assert(u.subrange(at, from) =~= ticks(n));
    assert(rewrite_segments(u, g) =~= start + (ticks(n) + (code + seq![])));
    assert(start + (ticks(n) + (code + seq![])) =~= start + ticks(n) + code);
}

pub fn transform_non_inline_code_segments<T: SegmentRewrite>(line: &[char], t: &T) -> (r: Vec<char>)
    ensures
        r@ == rewrite_segments(line@, t.segment_image()),
{
    let mut out: Vec<char> = Vec::new();
    let mut i: usize = 0;
    let mut m: usize = 0;
    let ghost g = t.segment_image();
    assert(out@ + segments_from(line@, 0, g) =~= rewrite_segments(line@, g));
    while i < line.len()
        invariant
            0 <= i <= line@.len(),
            g == t.segment_image(),
            rewrite_segments(line@, g) == out@ + (if m == 0 {
                segments_from(line@, i as int, g)
            } else {
                code_from(line@, i as int, m as nat, g)
            }),
        decreases line@.len() - i,
    {
        let ghost start = out@;
        if m == 0 {
            let j: usize = find_char(line, i, '`');
            let ghost head: Seq<char> = if i < j {
                g(line@.subrange(i as int, j as int))
            } else {
                seq![]
            };
            if i < j {
                let piece = t.rewrite_segment(slice_subrange(line, i, j));
                push_all(&mut out, piece.as_slice());
            }
            assert(out@ =~= start + head);
            if j < line.len() {
                proof {
                    lemma_next_char(line@, i as int, '`');
                }
                let n: usize = count_run(line, j, '`');
                push_all(&mut out, slice_subrange(line, j, j + n));
                proof {
                    let run = line@.subrange(j as int, j + n);
                    let rest = code_from(line@, j + n, n as nat, g);
                    assert(out@ + rest =~= start + (head + (run + rest)));
                }
                m = n;
                i = j + n;
            } else {
                i = j;
                assert(segments_from(line@, i as int, g) =~= seq![]);
                assert(out@ + segments_from(line@, i as int, g) =~= start + head);
            }
        } else if line[i] == '`' {
            let n: usize = count_run(line, i, '`');
            push_all(&mut out, slice_subrange(line, i, i + n));
            proof {
                let run = line@.subrange(i as int, i + n);
                let rest = if n == m {
                    segments_from(line@, i + n, g)
                } else {
                    code_from(line@, i + n, m as nat, g)
                };
                assert(out@ + rest =~= start + (run + rest));
            }
            if n == m {
                m = 0;
            }
            i = i + n;
        } else {
            out.push(line[i]);
            proof {
                let rest = code_from(line@, i + 1, m as nat, g);
                assert(out@ + rest =~= start + (seq![line@[i as int]] + rest));
            }
            i = i + 1;
        }
    }
    assert(out@ =~= rewrite_segments(line@, g));
    out
}

} // verus!
