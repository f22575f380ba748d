//! Wikilinks between notes: reading them out of a body, resolving them, and
//! the graph they make.

use vstd::prelude::*;
use vstd::slice::slice_subrange;

use crate::markdown::{
    fence_line, fenced_block_is_not_read, no_fence, non_code_lines, plain_line_is_read, prose,
    visible_text,
};
use crate::paths::{
    body_target, find_target_end, link_target, link_target_of, normalize_title, slug_of, slug_taken,
    slugify, title_key,
};
use crate::tables::{
    body_of, contains_string, find_body, find_note, find_value, index_of, keys_of, lookup, NoteBody,
};
use crate::text::{
    after_last, find_from, find_text, from_chars, is_stable_order, key_views, lemma_find_behind,
    lemma_find_from, lemma_find_is, lemma_find_none, lemma_pair_at, lemma_strs_push, lex_lt, lines,
    make_text_key, matches_at, prefix_of, sort_dedup, sort_order, sorting_is_stable, stable_order,
    strictly_sorted, strs, tail_after_last, text_key, text_lt, texts, to_chars, trimmed,
};
use crate::types::{slugs_of, NoteEntry};

verus! {

// ---------------------------------------------------------------------------
// Reading links
// ---------------------------------------------------------------------------

/// The targets of the wikilinks of a line from `i` on. Embeds and links
/// without a target are skipped; a link that is never closed ends the line.
pub open spec fn line_targets_from(s: Seq<char>, i: int) -> Seq<Seq<char>>
    decreases s.len() - i via line_targets_from_decreases
{
    if i < 0 || i + 1 >= s.len() {
        seq![]
    } else if s[i] != '[' || s[i + 1] != '[' {
        line_targets_from(s, i + 1)
    } else {
        let end = find_from(s, i + 2, seq![']', ']']);
        if end == -1 {
            seq![]
        } else {
            let target = body_target(s.subrange(i + 2, end), true);
            let embed = i > 0 && s[i - 1] == '!';
            let rest = line_targets_from(s, end + 2);
            if embed || target.len() == 0 {
                rest
            } else {
                seq![target] + rest
            }
        }
    }
}

#[via_fn]
proof fn line_targets_from_decreases(s: Seq<char>, i: int) {
    if 0 <= i {
        lemma_find_from(s, i + 2, seq![']', ']']);
    }
}

/// The targets of the wikilinks of a line.
pub open spec fn line_targets(s: Seq<char>) -> Seq<Seq<char>> {
    line_targets_from(s, 0)
}

/// Two characters stand side by side nowhere in the text.
pub open spec fn without_pair(s: Seq<char>, c: char) -> bool {
    forall|k: int| 0 <= k < s.len() - 1 ==> !(s[k] == c && #[trigger] s[k + 1] == c)
}

proof fn lemma_targets_before(s: Seq<char>, i: int, to: int)
    requires
        0 <= i <= to < s.len(),
        forall|k: int| i <= k < to ==> !(s[k] == '[' && #[trigger] s[k + 1] == '['),
    ensures
        line_targets_from(s, i) == line_targets_from(s, to),
    decreases to - i,
{
    if i < to {
        assert(!(s[i] == '[' && s[i + 1] == '['));
        lemma_targets_before(s, i + 1, to);
    }
}

pub proof fn lemma_targets_behind(a: Seq<char>, b: Seq<char>, k: int)
    requires
        0 <= k <= b.len(),
        k == 0 ==> a.len() > 0 && a.last() != '!',
    ensures
        line_targets_from(a + b, a.len() + k) == line_targets_from(b, k),
    decreases b.len() - k,
{
    let s = a + b;
    let at = a.len() + k;
    if k + 1 < b.len() {
        assert(s[at] == b[k] && s[at + 1] == b[k + 1]);
        if b[k] != '[' || b[k + 1] != '[' {
            lemma_targets_behind(a, b, k + 1);
        } else {
            let close = seq![']', ']'];
            lemma_find_behind(a, b, k + 2, close);
            lemma_find_from(b, k + 2, close);
            let end = find_from(b, k + 2, close);
            if end != -1 {
                lemma_targets_behind(a, b, end + 2);
                assert(s.subrange(at + 2, a.len() + end) =~= b.subrange(k + 2, end));
                if k > 0 {
                    assert(s[at - 1] == b[k - 1]);
                } else {
                    assert(s[at - 1] == a.last());
                }
            }
        }
    }
}

/// The links of a line are read one after the other. The first opens at the first
/// two square brackets and closes at the next two: its target is read, unless it
/// is empty or an exclamation mark in front makes the link an embed, and what
/// follows is read on its own.
pub proof fn links_are_read_one_after_the_other(a: Seq<char>, body: Seq<char>, b: Seq<char>)
    requires
        without_pair(a.push('['), '['),
        without_pair(body.push(']'), ']'),
    ensures
        ({
            let target = body_target(body, true);
            let embed = a.len() > 0 && a.last() == '!';
            line_targets(a + seq!['[', '['] + body + seq![']', ']'] + b) == (if embed || target.len()
                == 0 {
                seq![]
            } else {
                seq![target]
            }) + line_targets(b)
        }),
{
    let open = seq!['[', '['];
    let close = seq![']', ']'];
    let front = a + open + body + close;
    let s = front + b;
    let n = a.len() as int;
    let end = n + 2 + body.len();
    assert forall|k: int| 0 <= k < n implies !(s[k] == '[' && #[trigger] s[k + 1] == '[') by {
        assert(a.push('[')[k] == s[k]);
        assert(a.push('[')[k + 1] == s[k + 1]);
    }
    lemma_targets_before(s, 0, n);
    assert forall|k: int| n + 2 <= k < end implies !#[trigger] matches_at(s, k, close) by {
        lemma_pair_at(s, k, ']', ']');
        let x = k - n - 2;
        assert(body.push(']')[x] == s[k]);
        assert(body.push(']')[x + 1] == s[k + 1]);
    }
    lemma_pair_at(s, end, ']', ']');
    lemma_find_is(s, n + 2, end, close);
    assert(s.subrange(n + 2, end) =~= body);
    assert(s[n] == '[' && s[n + 1] == '[');
    assert(front.last() == ']');
    lemma_targets_behind(front, b, 0);
    assert(n > 0 ==> s[n - 1] == a.last());
    let target = body_target(body, true);
    let rest = line_targets(b);
    assert(seq![] + rest =~= rest);
}

/// A line that opens no link has no targets, and one that never closes the first
/// link it opens has none either.
pub proof fn unclosed_links_are_not_read(a: Seq<char>, rest: Seq<char>)
    requires
        without_pair(a, '['),
        without_pair(rest, ']'),
    ensures
        line_targets(a) == Seq::<Seq<char>>::empty(),
        a.len() > 0 ==> a.last() != '[' ==> line_targets(a + seq!['[', '['] + rest) == Seq::<
            Seq<char>,
        >::empty(),
        line_targets(seq!['[', '['] + rest) == Seq::<Seq<char>>::empty(),
{
    if a.len() > 0 {
        lemma_targets_before(a, 0, a.len() - 1);
    }
    if a.len() > 0 && a.last() != '[' {
        lemma_unclosed(a, rest);
    }
    let none = Seq::<char>::empty();
    assert(none + seq!['[', '['] + rest =~= seq!['[', '['] + rest);
    lemma_unclosed(none, rest);
}

proof fn lemma_unclosed(a: Seq<char>, rest: Seq<char>)
    requires
        without_pair(a, '['),
        a.len() > 0 ==> a.last() != '[',
        without_pair(rest, ']'),
    ensures
        line_targets(a + seq!['[', '['] + rest) == Seq::<Seq<char>>::empty(),
{
    let close = seq![']', ']'];
    let u = a + seq!['[', '['] + rest;
    let n = a.len() as int;
    assert forall|k: int| 0 <= k < n implies !(u[k] == '[' && #[trigger] u[k + 1] == '[') by {
        assert(u[k] == a[k]);
        if k + 1 < n {
            assert(u[k + 1] == a[k + 1]);
        }
    }
    lemma_targets_before(u, 0, n);
    assert forall|k: int| n + 2 <= k implies !#[trigger] matches_at(u, k, close) by {
        lemma_pair_at(u, k, ']', ']');
        if k + 2 <= u.len() {
            let x = k - n - 2;
            assert(rest[x] == u[k]);
            assert(rest[x + 1] == u[k + 1]);
        }
    }
    lemma_find_none(u, n + 2, close);
    assert(u[n] == '[' && u[n + 1] == '[');
}

fn extract_line_wikilink_targets(line: &[char], targets: &mut Vec<String>)
    ensures
        strs(final(targets)@) == strs(old(targets)@) + line_targets(line@),
{
    let ghost start = strs(targets@);
    let mut close: Vec<char> = Vec::new();
    close.push(']');
    close.push(']');
    assert(close@ =~= seq![']', ']']);
    let mut i: usize = 0;
    while i < line.len() && line.len() - i > 1
        invariant
            0 <= i <= line@.len(),
            close@ == seq![']', ']'],
            start == strs(old(targets)@),
            start + line_targets(line@) =~= strs(targets@) + line_targets_from(line@, i as int),
        decreases line@.len() - i,
    {
        if line[i] != '[' || line[i + 1] != '[' {
            i = i + 1;
        } else {
            let embed = i > 0 && line[i - 1] == '!';
            match find_text(line, i + 2, close.as_slice()) {
                None => {
                    assert(line_targets_from(line@, i as int) =~= seq![]);
                    assert(strs(targets@) =~= start + line_targets(line@));
                    return;
                },
                Some(end) => {
                    let ghost was = targets@;
                    let body = slice_subrange(line, i + 2, end);
                    let cut: usize = find_target_end(body, true);
                    let target = trimmed(prefix_of(body, cut));
                    if !embed && target.len() > 0 {
                        let text = from_chars(target);
                        proof {
                            lemma_strs_push(targets@, text);
                        }
                        targets.push(text);
                    }
                    assert(strs(targets@) + line_targets_from(line@, end + 2) =~= strs(was)
                        + line_targets_from(line@, i as int));
                    i = end + 2;
                },
            }
        }
    }
    assert(line_targets_from(line@, i as int) =~= seq![]);
}

/// The targets of the lines from `i` on.
pub open spec fn targets_from(all: Seq<Seq<char>>, i: int) -> Seq<Seq<char>>
    decreases all.len() - i,
{
    if i < 0 || i >= all.len() {
        seq![]
    } else {
        line_targets(all[i]) + targets_from(all, i + 1)
    }
}

/// The wikilink targets of a note body, outside code, in order.
pub open spec fn wikilink_targets(content: Seq<char>) -> Seq<Seq<char>> {
    targets_from(prose(content), 0)
}

proof fn lemma_line_targets_behind(a: Seq<Seq<char>>, b: Seq<Seq<char>>, k: int)
    requires
        0 <= k <= b.len(),
    ensures
        targets_from(a + b, a.len() + k) == targets_from(b, k),
    decreases b.len() - k,
{
    if k < b.len() {
        assert((a + b)[a.len() + k] == b[k]);
        lemma_line_targets_behind(a, b, k + 1);
    }
}

/// The targets of a text are those of its lines outside fenced blocks, each read
/// without its code spans, one line after the other.
pub proof fn links_are_read_line_by_line(line: Seq<char>, rest: Seq<char>)
    requires
        !line.contains('\n'),
        line.len() > 0 ==> line.last() != '\r',
        no_fence(line),
    ensures
        wikilink_targets(line.push('\n') + rest) == line_targets(visible_text(line))
            + wikilink_targets(rest),
        wikilink_targets(line + "\r\n"@ + rest) == line_targets(visible_text(line))
            + wikilink_targets(rest),
        line.len() > 0 ==> wikilink_targets(line) == line_targets(visible_text(line)),
        wikilink_targets(seq![]) == Seq::<Seq<char>>::empty(),
{
    plain_line_is_read(line, rest);
    let one = seq![visible_text(line)];
    lemma_line_targets_behind(one, prose(rest), 0);
    if line.len() > 0 {
        assert(targets_from(one, 1) =~= seq![]);
        assert(wikilink_targets(line) =~= line_targets(visible_text(line)));
    }
}

/// No link is read in a fenced block, and what follows it is read on its own.
pub proof fn no_links_are_read_in_fenced_blocks(
    open: Seq<char>,
    inner: Seq<char>,
    close: Seq<char>,
    rest: Seq<char>,
    k: int,
    l: int,
    c: char,
    n: nat,
    m: nat,
)
    requires
        !open.contains('\n'),
        !close.contains('\n'),
        open.last() != '\r',
        close.last() != '\r',
        fence_line(open, k, c, n),
        fence_line(close, l, c, m),
        n <= m,
        inner.len() > 0 ==> inner.last() == '\n',
        forall|j: int, x: int, y: nat|
            0 <= j < lines(inner).len() && n <= y ==> !#[trigger] fence_line(
                lines(inner)[j],
                x,
                c,
                y,
            ),
    ensures
        wikilink_targets(open.push('\n') + inner + close.push('\n') + rest) == wikilink_targets(
            rest,
        ),
        wikilink_targets(open.push('\n') + inner) == Seq::<Seq<char>>::empty(),
{
    fenced_block_is_not_read(open, inner, close, rest, k, l, c, n, m);
}

pub fn extract_wikilink_targets(content: &str) -> (r: Vec<String>)
    ensures
        strs(r@) == wikilink_targets(content@),
{
    let chars = to_chars(content);
    let all = non_code_lines(chars.as_slice());
    let ghost views = prose(content@);
    let mut out: Vec<String> = Vec::new();
    let mut i: usize = 0;
    assert(strs(out@) + targets_from(views, 0) =~= wikilink_targets(content@));
    while i < all.len()
        invariant
            0 <= i <= all@.len(),
            texts(all@) == views,
            wikilink_targets(content@) == strs(out@) + targets_from(views, i as int),
        decreases all@.len() - i,
    {
        let ghost was = strs(out@);
        extract_line_wikilink_targets(all[i].as_slice(), &mut out);
        assert(texts(all@)[i as int] == all@[i as int]@);
        assert(strs(out@) + targets_from(views, i + 1) =~= was + targets_from(views, i as int));
        i = i + 1;
    }
    assert(strs(out@) =~= wikilink_targets(content@));
    out
}

// ---------------------------------------------------------------------------
// Resolving links
// ---------------------------------------------------------------------------

/// The slug a link target names: by full path, then by title, then by slug.
pub open spec fn resolve_slug(
    target: Seq<char>,
    slugs: Seq<Seq<char>>,
    by_title: Seq<(String, String)>,
    by_path_title: Seq<(String, String)>,
) -> Option<Seq<char>> {
    let t = link_target(target);
    let base = after_last(t, '/');
    match lookup(by_path_title, title_key(t)) {
        Some(slug) => Some(slug),
        None => match lookup(by_title, title_key(base)) {
            Some(slug) => Some(slug),
            None => if slugs.contains(slug_of(base)) {
                Some(slug_of(base))
            } else {
                None
            },
        },
    }
}

pub fn resolve_target_slug(
    raw_target: &str,
    by_slug: &Vec<NoteEntry>,
    by_title: &Vec<(String, String)>,
    by_path_title: &Vec<(String, String)>,
) -> (r: Option<String>)
    ensures
        crate::text::opt_text(r) == resolve_slug(
            raw_target@,
            slugs_of(by_slug@),
            by_title@,
            by_path_title@,
        ),
{
    let chars = to_chars(raw_target);
    let target = link_target_of(chars.as_slice());
    let target_text = from_chars(target.as_slice());
    let path_key = normalize_title(target_text.as_str());
    match find_value(by_path_title, &path_key) {
        Some(slug) => {
            return Some(slug.clone());
        },
        None => {},
    }
    let base = from_chars(tail_after_last(target.as_slice(), '/'));
    let key = normalize_title(base.as_str());
    match find_value(by_title, &key) {
        Some(slug) => {
            return Some(slug.clone());
        },
        None => {},
    }
    let slug = slugify(base.as_str());
    if slug_taken(by_slug, &slug) {
        Some(slug)
    } else {
        None
    }
}

// ---------------------------------------------------------------------------
// The graph
// ---------------------------------------------------------------------------

/// The vault-relative path of the note with the slug, or nothing.
pub open spec fn path_of(notes: Seq<NoteEntry>, slug: Seq<char>) -> Seq<char> {
    let i = index_of(slugs_of(notes), slug);
    if i < notes.len() {
        notes[i].relative_path@
    } else {
        seq![]
    }
}

pub open spec fn path_keys(notes: Seq<NoteEntry>, links: Seq<Seq<char>>) -> Seq<Seq<u32>> {
    Seq::new(links.len(), |i: int| text_key(path_of(notes, links[i])))
}

/// The slugs sorted by their notes' paths; those with equal paths keep their
/// order.
pub open spec fn by_path(notes: Seq<NoteEntry>, links: Seq<Seq<char>>) -> Seq<Seq<char>> {
    let order = sort_order(path_keys(notes, links));
    Seq::new(order.len(), |i: int| links[order[i] as int])
}

pub fn sort_slug_links(links: &Vec<String>, by_slug: &Vec<NoteEntry>) -> (r: Vec<String>)
    ensures
        strs(r@) == by_path(by_slug@, strs(links@)),
        strictly_sorted(strs(links@)) ==> path_then_slug(by_slug@, strs(r@)),
        forall|x: Seq<char>| #[trigger] strs(r@).contains(x) <==> strs(links@).contains(x),
{
    let mut keys: Vec<Vec<u32>> = Vec::new();
    let mut i: usize = 0;
    while i < links.len()
        invariant
            0 <= i <= links@.len(),
            keys@.len() == i,
            forall|k: int|
                0 <= k < i ==> (#[trigger] keys@[k])@ == text_key(path_of(by_slug@, links@[k]@)),
        decreases links@.len() - i,
    {
        let path = match find_note(by_slug, &links[i]) {
            Some(n) => to_chars(by_slug[n].relative_path.as_str()),
            None => Vec::new(),
        };
        proof {
            assert(path@ =~= path_of(by_slug@, links@[i as int]@));
        }
        keys.push(make_text_key(path.as_slice()));
        i = i + 1;
    }
    let ghost kv = path_keys(by_slug@, strs(links@));
    assert(key_views(keys@) =~= kv);
    let order = stable_order(&keys);
    let mut out: Vec<String> = Vec::new();
    let mut n: usize = 0;
    while n < order.len()
        invariant
            0 <= n <= order@.len(),
            is_stable_order(kv, order@),
            kv.len() == links@.len(),
            out@.len() == n,
            forall|k: int| 0 <= k < n ==> (#[trigger] out@[k])@ == links@[order@[k] as int]@,
        decreases order@.len() - n,
    {
        assert(order@[n as int] < links@.len());
        out.push(links[order[n]].clone());
        n = n + 1;
    }
    proof {
        assert(strs(out@) =~= by_path(by_slug@, strs(links@)));
        assert forall|x: Seq<char>| #[trigger] strs(out@).contains(x) <==> strs(links@).contains(
            x,
        ) by {
            if strs(out@).contains(x) {
                let k = choose|k: int| 0 <= k < strs(out@).len() && strs(out@)[k] == x;
                assert(strs(links@)[order@[k] as int] == x);
            }
            if strs(links@).contains(x) {
                let k = choose|k: int| 0 <= k < strs(links@).len() && strs(links@)[k] == x;
                assert(crate::text::listed(order@, k));
                let m = choose|m: int| 0 <= m < order@.len() && #[trigger] order@[m] == k;
                assert(strs(out@)[m] == x);
            }
        }
        if strictly_sorted(strs(links@)) {
            assert forall|a: int, b: int| 0 <= a < b < strs(out@).len() implies path_slug_lt(
                by_slug@,
                #[trigger] strs(out@)[a],
                #[trigger] strs(out@)[b],
            ) by {
                let x = order@[a] as int;
                let y = order@[b] as int;
                assert(crate::text::before(kv, x, y));
                crate::text::lemma_lex_irreflexive(kv[x]);
                if kv[x] == kv[y] {
                    assert(text_lt(strs(links@)[x], strs(links@)[y]));
                }
            }
        }
    }
    out
}

/// By path, and slugs of one path by slug.
pub open spec fn path_slug_lt(notes: Seq<NoteEntry>, a: Seq<char>, b: Seq<char>) -> bool {
    let x = text_key(path_of(notes, a));
    let y = text_key(path_of(notes, b));
    lex_lt(x, y) || (x == y && text_lt(a, b))
}

/// The slugs are in order of path and slug, each once.
pub open spec fn path_then_slug(notes: Seq<NoteEntry>, links: Seq<Seq<char>>) -> bool {
    forall|i: int, j: int|
        0 <= i < j < links.len() ==> path_slug_lt(notes, #[trigger] links[i], #[trigger] links[j])
}

/// The slugs that the targets resolve to, each once, without `own`.
pub open spec fn linked_slugs(
    targets: Seq<Seq<char>>,
    own: Seq<char>,
    slugs: Seq<Seq<char>>,
    by_title: Seq<(String, String)>,
    by_path_title: Seq<(String, String)>,
) -> Seq<Seq<char>>
    decreases targets.len(),
{
    if targets.len() == 0 {
        seq![]
    } else {
        let prev = linked_slugs(targets.drop_last(), own, slugs, by_title, by_path_title);
        match resolve_slug(targets.last(), slugs, by_title, by_path_title) {
            Some(slug) => if slug == own || prev.contains(slug) {
                prev
            } else {
                prev.push(slug)
            },
            None => prev,
        }
    }
}

/// The slugs a note links to, in the order of its links. A note that is not
/// indexed or cannot be read links to none.
pub open spec fn note_targets(
    slug: Seq<char>,
    slugs: Seq<Seq<char>>,
    by_title: Seq<(String, String)>,
    by_path_title: Seq<(String, String)>,
    bodies: Seq<NoteBody>,
) -> Seq<Seq<char>> {
    if !slugs.contains(slug) {
        seq![]
    } else {
        match body_of(bodies, slug) {
            Ok(text) => linked_slugs(
                wikilink_targets(text),
                slug,
                slugs,
                by_title,
                by_path_title,
            ),
            Err(_) => seq![],
        }
    }
}

fn read_note_targets(
    slug: &String,
    by_slug: &Vec<NoteEntry>,
    by_title: &Vec<(String, String)>,
    by_path_title: &Vec<(String, String)>,
    bodies: &Vec<NoteBody>,
) -> (r: Vec<String>)
    ensures
        strs(r@) == note_targets(
            slug@,
            slugs_of(by_slug@),
            by_title@,
            by_path_title@,
            bodies@,
        ),
{
    let mut out: Vec<String> = Vec::new();
    assert(strs(out@) =~= seq![]);
    if !slug_taken(by_slug, slug) {
        return out;
    }
    match find_body(bodies, slug) {
        Err(_) => out,
        Ok(text) => {
            let targets = extract_wikilink_targets(text.as_str());
            let ghost tv = wikilink_targets(text@);
            let mut i: usize = 0;
            while i < targets.len()
                invariant
                    0 <= i <= targets@.len(),
                    strs(targets@) == tv,
                    strs(out@) == linked_slugs(
                        tv.take(i as int),
                        slug@,
                        slugs_of(by_slug@),
                        by_title@,
                        by_path_title@,
                    ),
                decreases targets@.len() - i,
            {
                proof {
                    assert(tv.take(i + 1).drop_last() =~= tv.take(i as int));
                    assert(tv.take(i + 1).last() == strs(targets@)[i as int]);
                }
                match resolve_target_slug(targets[i].as_str(), by_slug, by_title, by_path_title) {
                    None => {},
                    Some(found) => {
                        if found != *slug && !contains_string(&out, &found) {
                            proof {
                                lemma_strs_push(out@, found);
                            }
                            out.push(found);
                        }
                    },
                }
                i = i + 1;
            }
            assert(tv.take(i as int) =~= tv);
            out
        },
    }
}

/// Some listed note with the slug `source` links to `target`.
pub open spec fn links_to(
    source: Seq<char>,
    target: Seq<char>,
    by_slug: Seq<NoteEntry>,
    by_title: Seq<(String, String)>,
    by_path_title: Seq<(String, String)>,
    bodies: Seq<NoteBody>,
) -> bool {
    note_targets(source, slugs_of(by_slug), by_title, by_path_title, bodies).contains(target)
}

/// The link graph of the listed notes: for each the slugs it links to, by
/// path, and the slugs that link to it, by path.
pub fn build_link_graph(
    by_slug: &Vec<NoteEntry>,
    by_title: &Vec<(String, String)>,
    by_path_title: &Vec<(String, String)>,
    ordered_slugs: &Vec<String>,
    bodies: &Vec<NoteBody>,
) -> (r: (Vec<(String, Vec<String>)>, Vec<(String, Vec<String>)>))
    ensures
        keys_of(r.0@) == strs(ordered_slugs@),
        keys_of(r.1@) == strs(ordered_slugs@),
        forall|i: int|
            #![trigger r.0@[i]]
            0 <= i < ordered_slugs@.len() ==> strs(r.0@[i].1@) == by_path(
                by_slug@,
                note_targets(
                    ordered_slugs@[i]@,
                    slugs_of(by_slug@),
                    by_title@,
                    by_path_title@,
                    bodies@,
                ),
            ),
        forall|i: int|
            #![trigger r.1@[i]]
            0 <= i < ordered_slugs@.len() ==> path_then_slug(by_slug@, strs(r.1@[i].1@)) && forall|
                source: Seq<char>,
            | #[trigger]
                strs(r.1@[i].1@).contains(source) <==> strs(ordered_slugs@).contains(source)
                    && links_to(
                    source,
                    ordered_slugs@[i]@,
                    by_slug@,
                    by_title@,
                    by_path_title@,
                    bodies@,
                ),
{
    let mut raw: Vec<Vec<String>> = Vec::new();
    let mut outgoing: Vec<(String, Vec<String>)> = Vec::new();
    let mut i: usize = 0;
    while i < ordered_slugs.len()
        invariant
            0 <= i <= ordered_slugs@.len(),
            raw@.len() == i,
            outgoing@.len() == i,
            forall|k: int|
                0 <= k < i ==> strs((#[trigger] raw@[k])@) == note_targets(
                    ordered_slugs@[k]@,
                    slugs_of(by_slug@),
                    by_title@,
                    by_path_title@,
                    bodies@,
                ),
            forall|k: int|
                #![trigger outgoing@[k]]
                0 <= k < i ==> outgoing@[k].0@ == ordered_slugs@[k]@ && strs(outgoing@[k].1@)
                    == by_path(
                    by_slug@,
                    note_targets(
                        ordered_slugs@[k]@,
                        slugs_of(by_slug@),
                        by_title@,
                        by_path_title@,
                        bodies@,
                    ),
                ),
        decreases ordered_slugs@.len() - i,
    {
        let targets = read_note_targets(
            &ordered_slugs[i],
            by_slug,
            by_title,
            by_path_title,
            bodies,
        );
        let sorted = sort_slug_links(&targets, by_slug);
        outgoing.push((ordered_slugs[i].clone(), sorted));
        raw.push(targets);
        i = i + 1;
    }
    let mut backlinks: Vec<(String, Vec<String>)> = Vec::new();
    let mut t: usize = 0;
    while t < ordered_slugs.len()
        invariant
            0 <= t <= ordered_slugs@.len(),
            raw@.len() == ordered_slugs@.len(),
            backlinks@.len() == t,
            forall|k: int|
                0 <= k < raw@.len() ==> strs((#[trigger] raw@[k])@) == note_targets(
                    ordered_slugs@[k]@,
                    slugs_of(by_slug@),
                    by_title@,
                    by_path_title@,
                    bodies@,
                ),
            forall|k: int|
                #![trigger backlinks@[k]]
                0 <= k < t ==> backlinks@[k].0@ == ordered_slugs@[k]@ && path_then_slug(
                    by_slug@,
                    strs(backlinks@[k].1@),
                ) && forall|source: Seq<char>| #[trigger]
                    strs(backlinks@[k].1@).contains(source) <==> strs(
                        ordered_slugs@,
                    ).contains(source) && links_to(
                        source,
                        ordered_slugs@[k]@,
                        by_slug@,
                        by_title@,
                        by_path_title@,
                        bodies@,
                    ),
        decreases ordered_slugs@.len() - t,
    {
        let mut sources: Vec<String> = Vec::new();
        let ghost target = ordered_slugs@[t as int]@;
        let mut j: usize = 0;
        while j < ordered_slugs.len()
            invariant
                0 <= j <= ordered_slugs@.len(),
                t < ordered_slugs@.len(),
                target == ordered_slugs@[t as int]@,
                raw@.len() == ordered_slugs@.len(),
                forall|k: int|
                    0 <= k < raw@.len() ==> strs((#[trigger] raw@[k])@) == note_targets(
                        ordered_slugs@[k]@,
                        slugs_of(by_slug@),
                        by_title@,
                        by_path_title@,
                        bodies@,
                    ),
                forall|x: Seq<char>| #[trigger]
                    strs(sources@).contains(x) <==> strs(ordered_slugs@).take(
                        j as int,
                    ).contains(x) && links_to(
                        x,
                        target,
                        by_slug@,
                        by_title@,
                        by_path_title@,
                        bodies@,
                    ),
            decreases ordered_slugs@.len() - j,
        {
            let ghost was = sources@;
            let ghost here = ordered_slugs@[j as int]@;
            let linked = contains_string(&raw[j], &ordered_slugs[t]);
            if linked {
                let s = ordered_slugs[j].clone();
                proof {
                    lemma_strs_push(sources@, s);
                }
                sources.push(s);
            }
            proof {
                let now = strs(ordered_slugs@).take(j + 1);
                let before = strs(ordered_slugs@).take(j as int);
                assert(now =~= before.push(here));
                assert(linked == links_to(
                    here,
                    target,
                    by_slug@,
                    by_title@,
                    by_path_title@,
                    bodies@,
                ));
                assert forall|x: Seq<char>| #[trigger]
                    strs(sources@).contains(x) <==> now.contains(x) && links_to(
                        x,
                        target,
                        by_slug@,
                        by_title@,
                        by_path_title@,
                        bodies@,
                    ) by {
                    if now.contains(x) {
                        let k = choose|k: int| 0 <= k < now.len() && now[k] == x;
                        if k < j {
                            assert(before[k] == x);
                            assert(before.contains(x));
                        }
                    }
                    if before.contains(x) {
                        let k = choose|k: int| 0 <= k < before.len() && before[k] == x;
                        assert(now[k] == x);
                    }
                    if linked {
                        assert(strs(sources@) =~= strs(was).push(here));
                        if strs(was).contains(x) {
                            let k = choose|k: int| 0 <= k < strs(was).len() && strs(was)[k] == x;
                            assert(strs(sources@)[k] == x);
                        }
                        if strs(sources@).contains(x) {
                            let k = choose|k: int|
                                0 <= k < strs(sources@).len() && strs(sources@)[k] == x;
                            if k < was.len() {
                                assert(strs(was)[k] == x);
                                assert(strs(was).contains(x));
                            } else {
                                assert(now[j as int] == x);
                            }
                        }
                        if x == here {
                            assert(strs(sources@)[was.len() as int] == x);
                        }
                    }
                }
            }
            j = j + 1;
        }
        assert(strs(ordered_slugs@).take(j as int) =~= strs(ordered_slugs@));
        let unique = sort_dedup(&sources);
        let sorted = sort_slug_links(&unique, by_slug);
        backlinks.push((ordered_slugs[t].clone(), sorted));
        t = t + 1;
    }
    assert(keys_of(outgoing@) =~= strs(ordered_slugs@));
    assert(keys_of(backlinks@) =~= strs(ordered_slugs@));
    (outgoing, backlinks)
}

/// A note links to another if and only if one of its targets names it.
pub proof fn links_are_what_the_targets_name(
    targets: Seq<Seq<char>>,
    own: Seq<char>,
    slugs: Seq<Seq<char>>,
    by_title: Seq<(String, String)>,
    by_path_title: Seq<(String, String)>,
)
    ensures
        forall|x: Seq<char>| #[trigger]
            linked_slugs(targets, own, slugs, by_title, by_path_title).contains(x) <==> x != own
                && exists|k: int|
                0 <= k < targets.len() && resolve_slug(
                    #[trigger] targets[k],
                    slugs,
                    by_title,
                    by_path_title,
                ) == Some(x),
    decreases targets.len(),
{
    let all = linked_slugs(targets, own, slugs, by_title, by_path_title);
    if targets.len() > 0 {
        let front = targets.drop_last();
        let n = targets.len() - 1;
        links_are_what_the_targets_name(front, own, slugs, by_title, by_path_title);
        no_note_links_to_itself(targets, own, slugs, by_title, by_path_title);
        let prev = linked_slugs(front, own, slugs, by_title, by_path_title);
        let last = resolve_slug(targets.last(), slugs, by_title, by_path_title);
        assert(targets.last() == targets[n]);
        assert forall|x: Seq<char>| #[trigger] all.contains(x) <==> x != own && exists|k: int|
            0 <= k < targets.len() && resolve_slug(
                #[trigger] targets[k],
                slugs,
                by_title,
                by_path_title,
            ) == Some(x) by {
            if all.contains(x) {
                let i = choose|i: int| 0 <= i < all.len() && all[i] == x;
                if i < prev.len() {
                    assert(prev[i] == x);
                    assert(prev.contains(x));
                    let k = choose|k: int|
                        0 <= k < front.len() && resolve_slug(
                            #[trigger] front[k],
                            slugs,
                            by_title,
                            by_path_title,
                        ) == Some(x);
                    assert(targets[k] == front[k]);
                } else {
                    assert(last == Some(x));
                }
            }
            if x != own && exists|k: int|
                0 <= k < targets.len() && resolve_slug(
                    #[trigger] targets[k],
                    slugs,
                    by_title,
                    by_path_title,
                ) == Some(x) {
                let k = choose|k: int|
                    0 <= k < targets.len() && resolve_slug(
                        #[trigger] targets[k],
                        slugs,
                        by_title,
                        by_path_title,
                    ) == Some(x);
                if k < n {
                    assert(front[k] == targets[k]);
                    assert(prev.contains(x));
                }
                if prev.contains(x) {
                    let i = choose|i: int| 0 <= i < prev.len() && prev[i] == x;
                    assert(all[i] == x);
                } else {
                    assert(last == Some(x));
                    assert(all[prev.len() as int] == x);
                }
            }
        }
    }
}

/// A note is never among its own links.
pub proof fn no_note_links_to_itself(
    targets: Seq<Seq<char>>,
    own: Seq<char>,
    slugs: Seq<Seq<char>>,
    by_title: Seq<(String, String)>,
    by_path_title: Seq<(String, String)>,
)
    ensures
        !linked_slugs(targets, own, slugs, by_title, by_path_title).contains(own),
    decreases targets.len(),
{
    let all = linked_slugs(targets, own, slugs, by_title, by_path_title);
    if targets.len() > 0 {
        no_note_links_to_itself(targets.drop_last(), own, slugs, by_title, by_path_title);
        let prev = linked_slugs(targets.drop_last(), own, slugs, by_title, by_path_title);
        if all.contains(own) {
            let k = choose|k: int| 0 <= k < all.len() && all[k] == own;
            if k < prev.len() {
                assert(prev[k] == own);
            }
        }
    }
}

/// A note names each note it links to once.
pub proof fn links_are_listed_once(
    targets: Seq<Seq<char>>,
    own: Seq<char>,
    slugs: Seq<Seq<char>>,
    by_title: Seq<(String, String)>,
    by_path_title: Seq<(String, String)>,
)
    ensures
        linked_slugs(targets, own, slugs, by_title, by_path_title).no_duplicates(),
    decreases targets.len(),
{
    if targets.len() > 0 {
        links_are_listed_once(targets.drop_last(), own, slugs, by_title, by_path_title);
    }
}

/// Links are listed by the paths of the notes they lead to, those with one path as
/// they stood, and none is left out or added.
pub proof fn links_are_listed_by_path(notes: Seq<NoteEntry>, links: Seq<Seq<char>>)
    requires
        links.len() <= usize::MAX,
    ensures
        by_path(notes, links).len() == links.len(),
        forall|i: int, j: int|
            0 <= i < j < links.len() ==> !text_lt(
                path_of(notes, #[trigger] by_path(notes, links)[j]),
                path_of(notes, #[trigger] by_path(notes, links)[i]),
            ),
        forall|x: Seq<char>| #[trigger] by_path(notes, links).contains(x) <==> links.contains(x),
{
    let keys = path_keys(notes, links);
    let order = sort_order(keys);
    let out = by_path(notes, links);
    sorting_is_stable(keys);
    crate::text::lemma_stable_order_exists(keys);
    assert forall|i: int, j: int| 0 <= i < j < links.len() implies !text_lt(
        path_of(notes, #[trigger] out[j]),
        path_of(notes, #[trigger] out[i]),
    ) by {
        assert(keys[order[i] as int] == text_key(path_of(notes, out[i])));
        assert(keys[order[j] as int] == text_key(path_of(notes, out[j])));
    }
    assert forall|x: Seq<char>| #[trigger] out.contains(x) <==> links.contains(x) by {
        if out.contains(x) {
            let i = choose|i: int| 0 <= i < out.len() && out[i] == x;
            assert(links[order[i] as int] == x);
        }
        if links.contains(x) {
            let k = choose|k: int| 0 <= k < links.len() && links[k] == x;
            assert(crate::text::listed(order, k));
            let i = choose|i: int| 0 <= i < order.len() && #[trigger] order[i] == k;
            assert(out[i] == x);
        }
    }
}

} // verus!
