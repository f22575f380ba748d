//! Names and paths: slugs, titles, link targets, file extensions.
//!
//! A path is a string whose parts are joined by `/`.

use vstd::prelude::*;
use vstd::slice::slice_to_vec;
use vstd::string::StrSliceExecFns;

use crate::text::{
    ascii_alphanumeric, ascii_lower, ascii_lower_all, ascii_white_space, chars_eq, contains_text,
    decimal, ends_with, find_last_start, from_chars, has_suffix, has_text, join, joined, last_start,
    lemma_decimal_injective, lemma_last_start, lemma_strs_push, lemma_trim, lemma_trim_end,
    lemma_trim_start, lines, lowercase, nonempty, pieces_end_at_separators, pieces_of_two_texts,
    prefix_of, push_all, replace_char, split, split_lines, split_nonempty, starts_with, strs,
    suffix_of, texts, to_ascii_lower, to_ascii_lower_all, to_chars, to_decimal, to_lowercase, trim,
    trim_start, trim_start_of, trim_takes_the_white_space_around, trimmed, whitespace,
    with_char_replaced,
};
use crate::tables::contains_string;
use crate::types::{slugs_of, NoteEntry};

verus! {

// ---------------------------------------------------------------------------
// Slugs
// ---------------------------------------------------------------------------

/// `head` with a number behind it, before `tail`.
pub open spec fn numbered(head: Seq<char>, tail: Seq<char>, k: nat) -> Seq<char> {
    head + seq!['-'] + decimal(k) + tail
}

/// The first number from `k` on whose numbered form is not taken.
pub open spec fn first_free(
    taken: Seq<Seq<char>>,
    head: Seq<char>,
    tail: Seq<char>,
    k: nat,
) -> nat
    decreases taken.len() + 2 - k,
{
    if k >= taken.len() + 2 || !taken.contains(numbered(head, tail, k)) {
        k
    } else {
        first_free(taken, head, tail, k + 1)
    }
}

/// `head` and `tail` if that is free, else the first free numbered form,
/// counted from 2.
pub open spec fn fresh_name(taken: Seq<Seq<char>>, head: Seq<char>, tail: Seq<char>) -> Seq<char> {
    if !taken.contains(head + tail) {
        head + tail
    } else {
        numbered(head, tail, first_free(taken, head, tail, 2))
    }
}

/// `base` if it is free, else its first free numbered form, counted from 2.
pub open spec fn fresh_slug(taken: Seq<Seq<char>>, base: Seq<char>) -> Seq<char> {
    fresh_name(taken, base, seq![])
}

proof fn lemma_numbered_injective(head: Seq<char>, tail: Seq<char>, a: nat, b: nat)
    requires
        numbered(head, tail, a) == numbered(head, tail, b),
    ensures
        a == b,
{
    let x = numbered(head, tail, a);
    let y = numbered(head, tail, b);
    let from = head.len() as int + 1;
    assert(x.subrange(from, x.len() - tail.len()) =~= decimal(a));
    assert(y.subrange(from, y.len() - tail.len()) =~= decimal(b));
    lemma_decimal_injective(a, b);
}

/// Of the numbered forms from 2 to `taken.len() + 2`, one is not taken.
proof fn lemma_some_free(taken: Seq<Seq<char>>, head: Seq<char>, tail: Seq<char>)
    ensures
        exists|k: nat|
            2 <= k <= taken.len() + 2 && !taken.contains(#[trigger] numbered(head, tail, k)),
{
    if forall|k: nat|
        2 <= k <= taken.len() + 2 ==> taken.contains(#[trigger] numbered(head, tail, k)) {
        let n: int = taken.len() as int + 1;
        let ks = vstd::set_lib::set_int_range(2, n + 2);
        vstd::set_lib::lemma_int_range(2, n + 2);
        let f = |k: int| numbered(head, tail, k as nat);
        let image = ks.map(f);
        assert forall|a: int, b: int| ks.contains(a) && ks.contains(b) && f(a) == f(b) implies a
            == b by {
            lemma_numbered_injective(head, tail, a as nat, b as nat);
        }
        vstd::set_lib::lemma_map_size(ks, image, f);
        assert forall|x: Seq<char>| image.contains(x) implies taken.to_set().contains(x) by {
            let k = choose|k: int| ks.contains(k) && f(k) == x;
            assert(taken.contains(numbered(head, tail, k as nat)));
        }
        assert(image.subset_of(taken.to_set()));
        taken.lemma_cardinality_of_set();
        vstd::set_lib::lemma_len_subset(image, taken.to_set());
    }
}

proof fn lemma_first_free(taken: Seq<Seq<char>>, head: Seq<char>, tail: Seq<char>, k: nat)
    requires
        2 <= k <= taken.len() + 2,
        forall|j: nat| 2 <= j < k ==> taken.contains(#[trigger] numbered(head, tail, j)),
    ensures
        k <= first_free(taken, head, tail, k) <= taken.len() + 2,
        !taken.contains(numbered(head, tail, first_free(taken, head, tail, k))),
        forall|j: nat|
            2 <= j < first_free(taken, head, tail, k) ==> taken.contains(
                #[trigger] numbered(head, tail, j),
            ),
    decreases taken.len() + 2 - k,
{
    lemma_some_free(taken, head, tail);
    if k < taken.len() + 2 && taken.contains(numbered(head, tail, k)) {
        lemma_first_free(taken, head, tail, k + 1);
    }
}

/// A fresh name is not one of those already taken, and no smaller number would
/// have done.
pub proof fn fresh_name_is_free(taken: Seq<Seq<char>>, head: Seq<char>, tail: Seq<char>)
    ensures
        !taken.contains(fresh_name(taken, head, tail)),
        forall|j: nat|
            2 <= j < first_free(taken, head, tail, 2) ==> taken.contains(
                #[trigger] numbered(head, tail, j),
            ),
{
    lemma_first_free(taken, head, tail, 2);
}

/// A name that is free is kept as it is. One that is taken gets a dash and a number before
/// its tail: the smallest from 2 on that makes it free.
pub proof fn taken_name_gets_a_number(taken: Seq<Seq<char>>, head: Seq<char>, tail: Seq<char>)
    ensures
        !taken.contains(head + tail) ==> fresh_name(taken, head, tail) == head + tail,
        taken.contains(head + tail) ==> exists|k: nat|
            {
                &&& 2 <= k
                &&& fresh_name(taken, head, tail) == head + "-"@ + #[trigger] decimal(k) + tail
                &&& !taken.contains(head + "-"@ + decimal(k) + tail)
                &&& forall|j: nat|
                    2 <= j < k ==> taken.contains(head + "-"@ + #[trigger] decimal(j) + tail)
            },
{
    reveal_strlit("-");
    fresh_name_is_free(taken, head, tail);
    lemma_first_free(taken, head, tail, 2);
    assert("-"@ =~= seq!['-']);
    let k = first_free(taken, head, tail, 2);
    if taken.contains(head + tail) {
        assert(fresh_name(taken, head, tail) == head + "-"@ + decimal(k) + tail);
        assert forall|j: nat| 2 <= j < k implies taken.contains(
            head + "-"@ + #[trigger] decimal(j) + tail,
        ) by {
            assert(taken.contains(numbered(head, tail, j)));
        }
    }
}

/// A fresh name. `taken` says which names are used.
pub fn make_fresh_name(taken: &Vec<String>, head: &[char], tail: &[char]) -> (r: String)
    ensures
        r@ == fresh_name(strs(taken@), head@, tail@),
{
    let mut plain = slice_to_vec(head);
    push_all(&mut plain, tail);
    let name = from_chars(plain.as_slice());
    if !contains_string(taken, &name) {
        return name;
    }
    let ghost tv = strs(taken@);
    let ghost count = taken.len();
    let mut idx: u128 = 2;
    loop
        invariant
            tv == strs(taken@),
            tv.contains(head@ + tail@),
            2 <= idx <= tv.len() + 2,
            tv.len() == count,
            first_free(tv, head@, tail@, 2) == first_free(tv, head@, tail@, idx as nat),
            forall|j: nat| 2 <= j < idx ==> tv.contains(#[trigger] numbered(head@, tail@, j)),
        decreases tv.len() + 2 - idx,
    {
        let mut candidate = slice_to_vec(head);
        candidate.push('-');
        let digits = to_decimal(idx);
        push_all(&mut candidate, digits.as_slice());
        push_all(&mut candidate, tail);
        assert(candidate@ =~= numbered(head@, tail@, idx as nat));
        let name = from_chars(candidate.as_slice());
        if !contains_string(taken, &name) {
            return name;
        }
        proof {
            lemma_first_free(tv, head@, tail@, idx as nat);
        }
        idx = idx + 1;
    }
}

/// Whether a note of `notes` carries the slug.
pub fn slug_taken(notes: &Vec<NoteEntry>, slug: &String) -> (r: bool)
    ensures
        r == slugs_of(notes@).contains(slug@),
{
    let mut i: usize = 0;
    while i < notes.len()
        invariant
            0 <= i <= notes@.len(),
            forall|k: int| 0 <= k < i ==> (#[trigger] notes@[k]).slug@ != slug@,
        decreases notes@.len() - i,
    {
        if notes[i].slug == *slug {
            assert(slugs_of(notes@)[i as int] == slug@);
            return true;
        }
        i = i + 1;
    }
    proof {
        if slugs_of(notes@).contains(slug@) {
            let k = choose|k: int|
                0 <= k < slugs_of(notes@).len() && slugs_of(notes@)[k] == slug@;
            assert(notes@[k].slug@ == slug@);
        }
    }
    false
}

/// The slug a note based on `base` gets beside the notes already indexed.
pub fn unique_slug(base: &str, by_slug: &Vec<NoteEntry>) -> (r: String)
    ensures
        r@ == fresh_slug(slugs_of(by_slug@), base@),
{
    let head = to_chars(base);
    let tail: Vec<char> = Vec::new();
    assert(tail@ =~= seq![]);
    let mut taken: Vec<String> = Vec::new();
    let mut i: usize = 0;
    while i < by_slug.len()
        invariant
            0 <= i <= by_slug@.len(),
            strs(taken@) == slugs_of(by_slug@).take(i as int),
        decreases by_slug@.len() - i,
    {
        let slug = by_slug[i].slug.clone();
        proof {
            lemma_strs_push(taken@, slug);
        }
        taken.push(slug);
        i = i + 1;
        assert(strs(taken@) =~= slugs_of(by_slug@).take(i as int));
    }
    assert(slugs_of(by_slug@).take(i as int) =~= slugs_of(by_slug@));
    make_fresh_name(&taken, head.as_slice(), tail.as_slice())
}

/// What a slug keeps of one character: letters and digits in lower case, a
/// dash for a space, a dash or an underscore, nothing of any other.
pub open spec fn slug_char(c: char) -> Option<char> {
    if ascii_alphanumeric(c) {
        Some(ascii_lower(c))
    } else if c == ' ' || c == '-' || c == '_' {
        Some('-')
    } else {
        None
    }
}

/// What a slug keeps of a string, before dashes are merged.
pub open spec fn slug_chars(s: Seq<char>) -> Seq<char>
    decreases s.len(),
{
    if s.len() == 0 {
        seq![]
    } else {
        match slug_char(s.last()) {
            Some(c) => slug_chars(s.drop_last()).push(c),
            None => slug_chars(s.drop_last()),
        }
    }
}

/// The words of a string, joined by single dashes.
pub open spec fn slug_of(s: Seq<char>) -> Seq<char> {
    join(nonempty(split(slug_chars(trim(s)), '-')), seq!['-'])
}

fn keep_slug_chars(s: &[char]) -> (r: Vec<char>)
    ensures
        r@ == slug_chars(s@),
{
    let mut out: Vec<char> = Vec::new();
    let mut i: usize = 0;
    while i < s.len()
        invariant
            0 <= i <= s@.len(),
            out@ == slug_chars(s@.take(i as int)),
        decreases s@.len() - i,
    {
        let c = s[i];
        assert(s@.take(i + 1).drop_last() =~= s@.take(i as int));
        assert(s@.take(i + 1).last() == c);
        if ('A' <= c && c <= 'Z') || ('a' <= c && c <= 'z') || ('0' <= c && c <= '9') {
            out.push(to_ascii_lower(c));
        } else if c == ' ' || c == '-' || c == '_' {
            out.push('-');
        }
        i = i + 1;
    }
    assert(s@.take(i as int) =~= s@);
    out
}

pub fn slugify(input: &str) -> (r: String)
    ensures
        r@ == slug_of(input@),
{
    let chars = to_chars(input);
    let kept = keep_slug_chars(trimmed(chars.as_slice()));
    let words = split_nonempty(kept.as_slice(), '-');
    let mut dash: Vec<char> = Vec::new();
    dash.push('-');
    assert(dash@ =~= seq!['-']);
    let out = joined(&words, dash.as_slice());
    from_chars(out.as_slice())
}

// ---------------------------------------------------------------------------
// Titles and link targets
// ---------------------------------------------------------------------------

/// A title as the index compares it.
pub open spec fn title_key(s: Seq<char>) -> Seq<char> {
    lowercase(trim(s))
}

pub fn normalize_title(input: &str) -> (r: String)
    ensures
        r@ == title_key(input@),
        r@.contains('/') <==> input@.contains('/'),
{
    let chars = to_chars(input);
    proof {
        lemma_trim(input@);
    }
    let inner = from_chars(trimmed(chars.as_slice()));
    to_lowercase(inner.as_str())
}

/// `s` without a final `.md`.
pub open spec fn strip_md(s: Seq<char>) -> Seq<char> {
    if ends_with(s, ".md"@) {
        s.take(s.len() - 3)
    } else {
        s
    }
}

/// One final `.md` goes, and all else stays.
pub proof fn one_final_md_is_dropped(name: Seq<char>, other: Seq<char>)
    requires
        !ends_with(other, ".md"@),
    ensures
        strip_md(name + ".md"@) == name,
        strip_md(other) == other,
{
    reveal_strlit(".md");
    let s = name + ".md"@;
    assert(s.skip(s.len() - 3) =~= ".md"@);
    assert(s.take(s.len() - 3) =~= name);
}

pub fn md_stripped(s: &[char]) -> (r: &[char])
    ensures
        r@ == strip_md(s@),
{
    proof {
        reveal_strlit(".md");
    }
    let suffix = to_chars(".md");
    if has_suffix(s, suffix.as_slice()) {
        prefix_of(s, s.len() - 3)
    } else {
        s
    }
}

pub fn strip_md_extension(input: &str) -> (r: &str)
    ensures
        r@ == strip_md(input@),
{
    let chars = to_chars(input);
    let kept: usize = md_stripped(chars.as_slice()).len();
    proof {
        reveal_strlit(".md");
        assert(input@.subrange(0, kept as int) =~= strip_md(input@));
    }
    input.substring_char(0, kept)
}

/// A link target as the index compares it: trimmed, without a final `.md`,
/// with `/` between its parts.
pub open spec fn link_target(s: Seq<char>) -> Seq<char> {
    replace_char(strip_md(trim(s)), '\\', '/')
}

/// A target is compared without the white space around it and without a final `.md`, and
/// with a slash for every backslash; all else counts.
pub proof fn targets_are_compared_as_paths(before: Seq<char>, name: Seq<char>, after: Seq<char>)
    requires
        forall|i: int| 0 <= i < before.len() ==> whitespace(#[trigger] before[i]),
        forall|i: int| 0 <= i < after.len() ==> whitespace(#[trigger] after[i]),
        name.len() > 0,
        !whitespace(name[0]),
    ensures
        ({
            let slashed = Seq::new(
                name.len(),
                |i: int|
                    if name[i] == '\\' {
                        '/'
                    } else {
                        name[i]
                    },
            );
            &&& link_target(before + (name + ".md"@) + after) == slashed
            &&& !whitespace(name.last()) && !ends_with(name, ".md"@) ==> link_target(
                before + name + after,
            ) == slashed
        }),
{
    reveal_strlit(".md");
    let full = name + ".md"@;
    let slashed = Seq::new(
        name.len(),
        |i: int|
            if name[i] == '\\' {
                '/'
            } else {
                name[i]
            },
    );
    ascii_white_space('d');
    assert(full.last() == 'd');
    assert(full[0] == name[0]);
    trim_takes_the_white_space_around(before, full, after);
    assert(full.skip(full.len() - 3) =~= ".md"@);
    assert(full.take(full.len() - 3) =~= name);
    assert(replace_char(name, '\\', '/') =~= slashed);
    if !whitespace(name.last()) {
        trim_takes_the_white_space_around(before, name, after);
    }
}

pub fn link_target_of(s: &[char]) -> (r: Vec<char>)
    ensures
        r@ == link_target(s@),
{
    with_char_replaced(md_stripped(trimmed(s)), '\\', '/')
}

pub fn normalize_link_target(input: &str) -> (r: String)
    ensures
        r@ == link_target(input@),
{
    let chars = to_chars(input);
    let out = link_target_of(chars.as_slice());
    from_chars(out.as_slice())
}

/// Which characters close the target of a wikilink: the alias pipe, and in a
/// note link the heading and block anchors too.
pub open spec fn closes_target(c: char, anchors: bool) -> bool {
    c == '|' || (anchors && (c == '#' || c == '^'))
}

/// The first position at or after `i` whose character closes the target, or
/// the length.
pub open spec fn next_closer(body: Seq<char>, i: int, anchors: bool) -> int
    decreases body.len() - i,
{
    if i >= body.len() {
        body.len() as int
    } else if closes_target(body[i], anchors) {
        i
    } else {
        next_closer(body, i + 1, anchors)
    }
}

/// Where the target of a wikilink body ends. A backslash right before the
/// alias pipe escapes it and belongs to what follows.
pub open spec fn target_end(body: Seq<char>, anchors: bool) -> int {
    let j = next_closer(body, 0, anchors);
    if 0 < j < body.len() && body[j] == '|' && body[j - 1] == '\\' {
        j - 1
    } else {
        j
    }
}

/// The target of a wikilink body.
pub open spec fn body_target(body: Seq<char>, anchors: bool) -> Seq<char> {
    trim(body.take(target_end(body, anchors)))
}

/// What a wikilink body holds behind its target, delimiter included.
pub open spec fn body_suffix(body: Seq<char>, anchors: bool) -> Seq<char> {
    body.skip(target_end(body, anchors))
}

pub fn find_target_end(body: &[char], anchors: bool) -> (r: usize)
    ensures
        r == target_end(body@, anchors),
        r <= body@.len(),
{
    let mut j: usize = 0;
    while j < body.len() && !(body[j] == '|' || (anchors && (body[j] == '#' || body[j] == '^')))
        invariant
            0 <= j <= body@.len(),
            next_closer(body@, 0, anchors) == next_closer(body@, j as int, anchors),
        decreases body@.len() - j,
    {
        j = j + 1;
    }
    if j > 0 && j < body.len() && body[j] == '|' && body[j - 1] == '\\' {
        j - 1
    } else {
        j
    }
}

/// How many characters `trim_start` drops.
fn leading_whitespace(s: &[char]) -> (r: usize)
    ensures
        r <= s@.len(),
        trim_start(s@) == s@.skip(r as int),
{
    let rest = trim_start_of(s);
    proof {
        lemma_trim_start(s@);
    }
    s.len() - rest.len()
}

fn split_at_target_end(body: &str, anchors: bool) -> (r: (&str, &str))
    ensures
        r.0@ == body_target(body@, anchors),
        r.1@ == body_suffix(body@, anchors),
{
    let chars = to_chars(body);
    let end: usize = find_target_end(chars.as_slice(), anchors);
    let head = prefix_of(chars.as_slice(), end);
    let start: usize = leading_whitespace(head);
    let inner: usize = trimmed(head).len();
    proof {
        lemma_trim_end(trim_start(head@));
        let t = trim(head@);
        assert(body@.subrange(start as int, start + inner) =~= t);
    }
    (body.substring_char(start, start + inner), body.substring_char(end, chars.len()))
}

/// Splits a note wikilink body into its target and everything after it. The
/// target runs to the first `|`, `#` or `^`.
pub fn split_wikilink_note_body(body: &str) -> (r: (&str, &str))
    ensures
        r.0@ == body_target(body@, true),
        r.1@ == body_suffix(body@, true),
{
    split_at_target_end(body, true)
}

/// Splits an asset embed body into its target and everything after it. Only
/// `|` closes the target: a `#page=3` addresses the viewer and stays part of
/// it.
pub fn split_wikilink_asset_body(body: &str) -> (r: (&str, &str))
    ensures
        r.0@ == body_target(body@, false),
        r.1@ == body_suffix(body@, false),
{
    split_at_target_end(body, false)
}

pub proof fn lemma_closer_is_found(body: Seq<char>, i: int, anchors: bool)
    requires
        0 <= i <= body.len(),
    ensures
        i <= next_closer(body, i, anchors) <= body.len(),
        next_closer(body, i, anchors) < body.len() ==> closes_target(
            body[next_closer(body, i, anchors)],
            anchors,
        ),
    decreases body.len() - i,
{
    if i < body.len() && !closes_target(body[i], anchors) {
        lemma_closer_is_found(body, i + 1, anchors);
    }
}

pub proof fn lemma_closer_is_first(body: Seq<char>, i: int, p: int, anchors: bool)
    requires
        0 <= i <= p <= body.len(),
        forall|k: int| i <= k < p ==> !closes_target(#[trigger] body[k], anchors),
        p < body.len() ==> closes_target(body[p], anchors),
    ensures
        next_closer(body, i, anchors) == p,
    decreases p - i,
{
    if i < p {
        lemma_closer_is_first(body, i + 1, p, anchors);
    }
}

/// The target of a link runs to its first delimiter, without the white space
/// around it, and the delimiter and all that follows is its suffix. A backslash
/// that escapes an alias pipe belongs to the suffix.
pub proof fn target_runs_to_its_first_delimiter(target: Seq<char>, suffix: Seq<char>, anchors: bool)
    requires
        forall|k: int|
            0 <= k < target.len() ==> target[k] != '|' && (anchors ==> target[k] != '#' && target[k]
                != '^'),
        suffix.len() > 0 ==> suffix[0] == '|' || (anchors && (suffix[0] == '#' || suffix[0] == '^')),
    ensures
        suffix.len() > 0 && suffix[0] == '|' && target.len() > 0 && target.last() == '\\' ==> {
            &&& body_target(target + suffix, anchors) == trim(target.drop_last())
            &&& body_suffix(target + suffix, anchors) == seq!['\\'] + suffix
        },
        !(suffix.len() > 0 && suffix[0] == '|' && target.len() > 0 && target.last() == '\\') ==> {
            &&& body_target(target + suffix, anchors) == trim(target)
            &&& body_suffix(target + suffix, anchors) == suffix
        },
{
    let body = target + suffix;
    let n = target.len() as int;
    assert(suffix.len() > 0 ==> body[n] == suffix[0]);
    assert forall|k: int| 0 <= k < n implies !closes_target(#[trigger] body[k], anchors) by {
        assert(body[k] == target[k]);
    }
    lemma_closer_is_first(body, 0, n, anchors);
    assert(body.take(n) =~= target);
    assert(body.skip(n) =~= suffix);
    if n > 0 {
        assert(body[n - 1] == target.last());
        assert(body.take(n - 1) =~= target.drop_last());
        assert(body.skip(n - 1) =~= seq![target.last()] + suffix);
    }
}

/// A body whose target is swapped for another keeps everything behind it, and
/// reads as the new target. The new one may hold no character that closes a
/// target, and no backslash in front of an alias pipe.
pub proof fn swapped_target_reads_back(body: Seq<char>, target: Seq<char>, anchors: bool)
    requires
        trim(target) == target,
        forall|k: int| 0 <= k < target.len() ==> !closes_target(#[trigger] target[k], anchors),
        target.len() > 0 && body_suffix(body, anchors).len() > 0 && body_suffix(body, anchors)[0]
            == '|' ==> target.last() != '\\',
    ensures
        body_target(target + body_suffix(body, anchors), anchors) == target,
        body_suffix(target + body_suffix(body, anchors), anchors) == body_suffix(body, anchors),
{
    let suffix = body_suffix(body, anchors);
    let new = target + suffix;
    let j = next_closer(body, 0, anchors);
    let n = target.len() as int;
    lemma_closer_is_found(body, 0, anchors);
    if target_end(body, anchors) < j {
        assert(suffix[0] == '\\' && suffix[1] == '|');
        assert(new[n] == '\\' && new[n + 1] == '|');
        lemma_closer_is_first(new, 0, n + 1, anchors);
    } else {
        if j < body.len() {
            assert(new[n] == body[j]);
        }
        lemma_closer_is_first(new, 0, n, anchors);
    }
    assert(new.take(n) =~= target);
    assert(new.skip(n) =~= suffix);
}

// ---------------------------------------------------------------------------
// File names
// ---------------------------------------------------------------------------

/// The parts of a path that name something: neither empty nor `.`.
pub open spec fn named_parts(parts: Seq<Seq<char>>) -> Seq<Seq<char>>
    decreases parts.len(),
{
    if parts.len() == 0 {
        seq![]
    } else if parts.last().len() == 0 || parts.last() == seq!['.'] {
        named_parts(parts.drop_last())
    } else {
        named_parts(parts.drop_last()).push(parts.last())
    }
}

/// The named parts of two lists are those of the one, and then those of the
/// other. A part is named unless it is empty or a dot.
pub proof fn named_parts_of_two_lists(a: Seq<Seq<char>>, b: Seq<Seq<char>>, part: Seq<char>)
    ensures
        named_parts(a + b) == named_parts(a) + named_parts(b),
        named_parts(seq![part]) == (if part.len() == 0 || part == seq!['.'] {
            Seq::<Seq<char>>::empty()
        } else {
            seq![part]
        }),
    decreases b.len(),
{
    let one = seq![part];
    assert(one.drop_last() =~= seq![]);
    assert(named_parts(one.drop_last()) =~= seq![]);
    assert(seq![].push(part) =~= one);
    if b.len() == 0 {
        assert(a + b =~= a);
        assert(named_parts(a) + named_parts(b) =~= named_parts(a));
    } else {
        named_parts_of_two_lists(a, b.drop_last(), part);
        assert((a + b).drop_last() =~= a + b.drop_last());
        assert((a + b).last() == b.last());
        assert(named_parts(a) + named_parts(b.drop_last()).push(b.last()) =~= (named_parts(a)
            + named_parts(b.drop_last())).push(b.last()));
    }
}

/// The last part of a path, unless it is `..` or there is none.
pub open spec fn file_name(path: Seq<char>) -> Option<Seq<char>> {
    let parts = named_parts(split(path, '/'));
    if parts.len() == 0 || parts.last() == seq!['.', '.'] {
        None
    } else {
        Some(parts.last())
    }
}

/// The part of a file name behind its last dot. A dot at the start of the name
/// does not count.
pub open spec fn name_extension(name: Seq<char>) -> Option<Seq<char>> {
    if last_start(name, '.') <= 1 {
        None
    } else {
        Some(name.skip(last_start(name, '.')))
    }
}

/// The part of a file name before its last dot, or all of it.
pub open spec fn name_stem(name: Seq<char>) -> Seq<char> {
    if last_start(name, '.') <= 1 {
        name
    } else {
        name.take(last_start(name, '.') - 1)
    }
}

pub open spec fn path_extension(path: Seq<char>) -> Option<Seq<char>> {
    match file_name(path) {
        Some(name) => name_extension(name),
        None => None,
    }
}

pub open spec fn path_stem(path: Seq<char>) -> Option<Seq<char>> {
    match file_name(path) {
        Some(name) => Some(name_stem(name)),
        None => None,
    }
}

proof fn lemma_last_named(parts: Seq<Seq<char>>, name: Seq<char>)
    requires
        name.len() > 0,
        name != seq!['.'],
    ensures
        named_parts(parts.push(name)) == named_parts(parts).push(name),
{
    assert(parts.push(name).drop_last() =~= parts);
}

/// The name of a file is the last part of its path; its extension is what follows the last
/// dot of the name, if something stands before that dot, and its stem what stands before
/// it. A name without such a dot is all stem.
pub proof fn name_stem_and_extension(dir: Seq<char>, stem: Seq<char>, ext: Seq<char>)
    requires
        stem.len() > 0,
        !stem.contains('/'),
        !ext.contains('/'),
        !ext.contains('.'),
    ensures
        stem + seq!['.'] + ext != seq!['.', '.'] ==> {
            let name = stem + seq!['.'] + ext;
            &&& file_name(dir.push('/') + name) == Some(name)
            &&& file_name(name) == Some(name)
            &&& path_extension(dir.push('/') + name) == Some(ext)
            &&& path_extension(name) == Some(ext)
            &&& path_stem(dir.push('/') + name) == Some(stem)
        },
        !stem.contains('.') ==> {
            &&& file_name(dir.push('/') + stem) == Some(stem)
            &&& path_extension(dir.push('/') + stem) is None
            &&& path_extension(stem) is None
            &&& path_stem(dir.push('/') + stem) == Some(stem)
        },
        ext.len() > 0 ==> path_extension(dir.push('/') + (seq!['.'] + ext)) is None,
{
    let name = stem + seq!['.'] + ext;
    let n = stem.len() as int;
    assert(!name.contains('/')) by {
        if name.contains('/') {
            let k = choose|k: int| 0 <= k < name.len() && name[k] == '/';
            if k < n {
                assert(stem[k] == '/');
            } else if k > n {
                assert(ext[k - n - 1] == '/');
            }
        }
    }
    assert(name.len() >= 2);
    if name != seq!['.', '.'] {
        lemma_file_name_is(dir, name);
    }
    assert forall|k: int| n < k < name.len() implies name[k] != '.' by {
        assert(ext.contains(ext[k - n - 1]));
    }
    assert(name[n] == '.');
    lemma_last_dot(name, n);
    assert(name.skip(n + 1) =~= ext);
    assert(name.take(n) =~= stem);
    if !stem.contains('.') {
        if stem == seq!['.'] {
            assert(stem[0] == '.');
        }
        if stem == seq!['.', '.'] {
            assert(stem[0] == '.');
        }
        lemma_file_name_is(dir, stem);
        lemma_last_start(stem, '.');
        if last_start(stem, '.') > 0 {
            assert(stem.contains(stem[last_start(stem, '.') - 1]));
        }
    }
    if ext.len() > 0 {
        let hidden = seq!['.'] + ext;
        assert(!hidden.contains('/')) by {
            if hidden.contains('/') {
                let k = choose|k: int| 0 <= k < hidden.len() && hidden[k] == '/';
                assert(ext[k - 1] == '/');
            }
        }
        assert(hidden.len() >= 2);
        if hidden == seq!['.'] {
            assert(hidden.len() == 1);
        }
        if hidden == seq!['.', '.'] {
            assert(ext[0] == hidden[1]);
            assert(ext.contains(ext[0]));
        }
        lemma_file_name_is(dir, hidden);
        assert forall|k: int| 0 < k < hidden.len() implies hidden[k] != '.' by {
            assert(ext.contains(ext[k - 1]));
        }
        lemma_last_start(hidden, '.');
    }
}

proof fn lemma_last_dot(name: Seq<char>, n: int)
    requires
        0 < n < name.len(),
        name[n] == '.',
        forall|k: int| n < k < name.len() ==> name[k] != '.',
    ensures
        last_start(name, '.') == n + 1,
{
    lemma_last_start(name, '.');
}

proof fn lemma_file_name_is(dir: Seq<char>, name: Seq<char>)
    requires
        name.len() > 0,
        !name.contains('/'),
        name != seq!['.'],
        name != seq!['.', '.'],
    ensures
        file_name(dir.push('/') + name) == Some(name),
        file_name(name) == Some(name),
{
    pieces_of_two_texts(dir, name, '/');
    pieces_end_at_separators(name, seq![], '/');
    lemma_last_named(split(dir, '/'), name);
    assert(split(dir, '/') + seq![name] =~= split(dir, '/').push(name));
    lemma_last_named(seq![], name);
    assert(seq![name] =~= Seq::<Seq<char>>::empty().push(name));
}

/// An optional vector's view.
pub open spec fn opt_chars(o: Option<Vec<char>>) -> Option<Seq<char>> {
    match o {
        Some(v) => Some(v@),
        None => None,
    }
}

pub fn file_name_of(path: &[char]) -> (r: Option<Vec<char>>)
    ensures
        opt_chars(r) == file_name(path@),
{
    let parts = crate::text::split_on(path, '/');
    let mut last: Option<Vec<char>> = None;
    let mut i: usize = 0;
    let dot = to_chars(".");
    let dots = to_chars("..");
    proof {
        reveal_strlit(".");
        reveal_strlit("..");
        assert(dot@ =~= seq!['.']);
        assert(dots@ =~= seq!['.', '.']);
    }
    while i < parts.len()
        invariant
            0 <= i <= parts@.len(),
            texts(parts@) == split(path@, '/'),
            dot@ == seq!['.'],
            match last {
                Some(v) => named_parts(split(path@, '/').take(i as int)).len() > 0 && named_parts(
                    split(path@, '/').take(i as int),
                ).last() == v@,
                None => named_parts(split(path@, '/').take(i as int)).len() == 0,
            },
        decreases parts@.len() - i,
    {
        proof {
            let t = split(path@, '/').take(i + 1);
            assert(t.drop_last() =~= split(path@, '/').take(i as int));
            assert(t.last() == texts(parts@)[i as int]);
        }
        if parts[i].len() > 0 && !chars_eq(parts[i].as_slice(), dot.as_slice()) {
            last = Some(slice_to_vec(parts[i].as_slice()));
        }
        i = i + 1;
    }
    assert(split(path@, '/').take(i as int) =~= split(path@, '/'));
    match last {
        Some(v) => if chars_eq(v.as_slice(), dots.as_slice()) {
            None
        } else {
            Some(v)
        },
        None => None,
    }
}

pub fn path_extension_of(path: &[char]) -> (r: Option<Vec<char>>)
    ensures
        opt_chars(r) == path_extension(path@),
{
    match file_name_of(path) {
        Some(name) => {
            let k: usize = find_last_start(name.as_slice(), '.');
            if k <= 1 {
                None
            } else {
                Some(slice_to_vec(suffix_of(name.as_slice(), k)))
            }
        },
        None => None,
    }
}

pub fn path_stem_of(path: &[char]) -> (r: Option<Vec<char>>)
    ensures
        opt_chars(r) == path_stem(path@),
{
    match file_name_of(path) {
        Some(name) => {
            let k: usize = find_last_start(name.as_slice(), '.');
            if k <= 1 {
                Some(name)
            } else {
                Some(slice_to_vec(prefix_of(name.as_slice(), k - 1)))
            }
        },
        None => None,
    }
}

/// The extensions of the files the vault serves.
pub open spec fn servable_extensions() -> Seq<Seq<char>> {
    seq![
        "png"@,
        "jpg"@,
        "jpeg"@,
        "gif"@,
        "webp"@,
        "svg"@,
        "avif"@,
        "bmp"@,
        "pdf"@,
    ]
}

pub fn servable_asset_extensions() -> (r: [&'static str; 9])
    ensures
        r@.len() == servable_extensions().len(),
        forall|i: int| 0 <= i < r@.len() ==> (#[trigger] r@[i])@ == servable_extensions()[i],
{
    ["png", "jpg", "jpeg", "gif", "webp", "svg", "avif", "bmp", "pdf"]
}

/// The path's extension is one the vault serves, in any ASCII case.
pub open spec fn servable(path: Seq<char>) -> bool {
    match path_extension(path) {
        Some(ext) => servable_extensions().contains(ascii_lower_all(ext)),
        None => false,
    }
}

/// The vault serves images and PDF documents, by their extension, in any case of
/// its letters, and nothing else.
pub proof fn images_and_documents_are_served(path: Seq<char>)
    ensures
        servable(path) <==> path_extension(path) is Some && ({
            let ext = ascii_lower_all(path_extension(path)->0);
            ext == "png"@ || ext == "jpg"@ || ext == "jpeg"@ || ext == "gif"@ || ext == "webp"@
                || ext == "svg"@ || ext == "avif"@ || ext == "bmp"@ || ext == "pdf"@
        }),
{
    let all = servable_extensions();
    assert(all[0] == "png"@ && all[1] == "jpg"@ && all[2] == "jpeg"@ && all[3] == "gif"@);
    assert(all[4] == "webp"@ && all[5] == "svg"@ && all[6] == "avif"@ && all[7] == "bmp"@);
    assert(all[8] == "pdf"@);
    if servable(path) {
        let ext = ascii_lower_all(path_extension(path)->0);
        let k = choose|k: int| 0 <= k < all.len() && all[k] == ext;
    }
}

pub fn is_servable_asset(path: &str) -> (r: bool)
    ensures
        r == servable(path@),
{
    let chars = to_chars(path);
    match path_extension_of(chars.as_slice()) {
        None => false,
        Some(ext) => {
            let lower = to_ascii_lower_all(ext.as_slice());
            let known = servable_asset_extensions();
            let mut i: usize = 0;
            while i < 9
                invariant
                    0 <= i <= 9,
                    known@.len() == 9,
                    lower@ == ascii_lower_all(ext@),
                    path_extension(path@) == Some(ext@),
                    servable_extensions().len() == 9,
                    forall|k: int|
                        0 <= k < 9 ==> (#[trigger] known@[k])@ == servable_extensions()[k],
                    forall|k: int| 0 <= k < i ==> #[trigger] servable_extensions()[k] != lower@,
                decreases 9 - i,
            {
                let candidate = to_chars(known[i]);
                if chars_eq(candidate.as_slice(), lower.as_slice()) {
                    assert(servable_extensions()[i as int] == lower@);
                    return true;
                }
                i = i + 1;
            }
            false
        },
    }
}

/// `path` below `root`: what follows the root and the separators behind it.
pub open spec fn below(root: Seq<char>, path: Seq<char>) -> Option<Seq<char>> {
    if !starts_with(path, root) {
        None
    } else {
        let rest = path.skip(root.len() as int);
        if rest.len() == 0 || root.len() == 0 || root.last() == '/' || rest[0] == '/' {
            Some(drop_slashes(rest))
        } else {
            None
        }
    }
}

/// `s` without the separators at its start.
pub open spec fn drop_slashes(s: Seq<char>) -> Seq<char>
    decreases s.len(),
{
    if s.len() > 0 && s[0] == '/' {
        drop_slashes(s.skip(1))
    } else {
        s
    }
}

/// The separators at the start go, all of them and nothing else.
pub proof fn leading_slashes_are_dropped(n: nat, s: Seq<char>)
    requires
        s.len() > 0 ==> s[0] != '/',
    ensures
        drop_slashes(Seq::new(n, |_i: int| '/') + s) == s,
    decreases n,
{
    let slashes = Seq::new(n, |_i: int| '/');
    if n > 0 {
        let fewer = Seq::new((n - 1) as nat, |_i: int| '/');
        assert((slashes + s).skip(1) =~= fewer + s);
        leading_slashes_are_dropped((n - 1) as nat, s);
    } else {
        assert(slashes + s =~= s);
    }
}

/// What stands behind a text that is more than separators is untouched when those
/// at its start go.
pub proof fn lemma_drop_slashes_front(a: Seq<char>, b: Seq<char>)
    requires
        b.len() > 0 ==> b[0] != '/',
    ensures
        drop_slashes(a + b) == drop_slashes(a) + b,
    decreases a.len(),
{
    if a.len() > 0 && a[0] == '/' {
        assert((a + b).skip(1) =~= a.skip(1) + b);
        lemma_drop_slashes_front(a.skip(1), b);
    } else if a.len() == 0 {
        assert(a + b =~= b);
    }
}

pub fn without_leading_slashes(s: &[char]) -> (r: &[char])
    ensures
        r@ == drop_slashes(s@),
{
    let mut i: usize = 0;
    assert(s@.skip(0) =~= s@);
    while i < s.len() && s[i] == '/'
        invariant
            0 <= i <= s@.len(),
            drop_slashes(s@) == drop_slashes(s@.skip(i as int)),
        decreases s@.len() - i,
    {
        assert(s@.skip(i as int)[0] == s@[i as int]);
        assert(s@.skip(i as int).skip(1) =~= s@.skip(i + 1));
        i = i + 1;
    }
    proof {
        if i < s@.len() {
            assert(s@.skip(i as int)[0] == s@[i as int]);
        }
    }
    suffix_of(s, i)
}

pub fn path_below(root: &[char], path: &[char]) -> (r: Option<Vec<char>>)
    ensures
        opt_chars(r) == below(root@, path@),
{
    if !crate::text::has_prefix(path, root) {
        return None;
    }
    let rest = suffix_of(path, root.len());
    if rest.len() == 0 || root.len() == 0 || root[root.len() - 1] == '/' || rest[0] == '/' {
        Some(slice_to_vec(without_leading_slashes(rest)))
    } else {
        None
    }
}

/// The vault-relative form of a note's path, without the extension.
pub open spec fn note_path(root: Seq<char>, path: Seq<char>) -> Option<Seq<char>> {
    match below(root, path) {
        Some(rest) => Some(strip_md(replace_char(rest, '\\', '/'))),
        None => None,
    }
}

pub fn relative_note_path_without_ext(root: &str, path: &str) -> (r: Option<String>)
    ensures
        crate::text::opt_text(r) == note_path(root@, path@),
{
    let root_chars = to_chars(root);
    let path_chars = to_chars(path);
    match path_below(root_chars.as_slice(), path_chars.as_slice()) {
        None => None,
        Some(rest) => {
            let slashed = with_char_replaced(rest.as_slice(), '\\', '/');
            Some(from_chars(md_stripped(slashed.as_slice())))
        },
    }
}

// ---------------------------------------------------------------------------
// Snippets
// ---------------------------------------------------------------------------

/// The first line from `i` on whose normalized form holds the query, or the
/// number of lines.
pub open spec fn first_hit(all: Seq<Seq<char>>, i: int, query: Seq<char>) -> int
    decreases all.len() - i,
{
    if i >= all.len() {
        all.len() as int
    } else if has_text(title_key(all[i]), query) {
        i
    } else {
        first_hit(all, i + 1, query)
    }
}

/// A trimmed line of at most 180 characters; a longer one is cut to 177 and an
/// ellipsis.
pub open spec fn shorten(line: Seq<char>) -> Seq<char> {
    let t = trim(line);
    if t.len() > 180 {
        t.take(177) + "..."@
    } else {
        t
    }
}

/// The first line of `content` that matches, shortened.
pub open spec fn snippet_of(content: Seq<char>, query: Seq<char>) -> Option<Seq<char>> {
    let all = lines(content);
    let i = first_hit(all, 0, query);
    if i < all.len() {
        Some(shorten(all[i]))
    } else {
        None
    }
}

proof fn lemma_first_hit(all: Seq<Seq<char>>, i: int, query: Seq<char>)
    requires
        0 <= i <= all.len(),
    ensures
        i <= first_hit(all, i, query) <= all.len(),
        first_hit(all, i, query) < all.len() ==> has_text(
            title_key(all[first_hit(all, i, query)]),
            query,
        ),
        forall|k: int|
            i <= k < first_hit(all, i, query) ==> !has_text(title_key(#[trigger] all[k]), query),
    decreases all.len() - i,
{
    if i < all.len() && !has_text(title_key(all[i]), query) {
        lemma_first_hit(all, i + 1, query);
    }
}

/// A line matches a query if its lower case form, without the white space around it,
/// holds the query.
pub open spec fn line_matches(line: Seq<char>, query: Seq<char>) -> bool {
    has_text(lowercase(trim(line)), query)
}

/// A body gives a snippet if and only if one of its lines matches. The snippet is the
/// first such line without the white space around it; if it is longer than 180
/// characters, its first 177 and three dots.
pub proof fn snippet_is_the_first_line_that_matches(content: Seq<char>, query: Seq<char>)
    ensures
        match snippet_of(content, query) {
            Some(snippet) => exists|i: int|
                {
                    &&& 0 <= i < lines(content).len()
                    &&& line_matches(#[trigger] lines(content)[i], query)
                    &&& forall|k: int| 0 <= k < i ==> !line_matches(lines(content)[k], query)
                    &&& trim(lines(content)[i]).len() <= 180 ==> snippet == trim(lines(content)[i])
                    &&& trim(lines(content)[i]).len() > 180 ==> snippet == trim(
                        lines(content)[i],
                    ).take(177) + "..."@
                },
            None => forall|k: int|
                0 <= k < lines(content).len() ==> !line_matches(#[trigger] lines(content)[k], query),
        },
{
    let all = lines(content);
    lemma_first_hit(all, 0, query);
    let i = first_hit(all, 0, query);
    assert(forall|k: int| 0 <= k < all.len() ==> title_key(#[trigger] all[k]) == lowercase(trim(all[k])));
    if i < all.len() {
        assert(line_matches(all[i], query));
        assert forall|k: int| 0 <= k < i implies !line_matches(all[k], query) by {
            assert(!has_text(title_key(all[k]), query));
        }
    }
}

pub fn content_snippet(content: &str, normalized_query: &str) -> (r: Option<String>)
    ensures
        crate::text::opt_text(r) == snippet_of(content@, normalized_query@),
{
    let chars = to_chars(content);
    let query = to_chars(normalized_query);
    let all = split_lines(chars.as_slice());
    let mut i: usize = 0;
    while i < all.len()
        invariant
            0 <= i <= all@.len(),
            query@ == normalized_query@,
            texts(all@) == lines(content@),
            first_hit(lines(content@), 0, query@) == first_hit(lines(content@), i as int, query@),
        decreases all@.len() - i,
    {
        let line = from_chars(all[i].as_slice());
        let key = normalize_title(line.as_str());
        let key_chars = to_chars(key.as_str());
        assert(lines(content@)[i as int] == texts(all@)[i as int]);
        if contains_text(key_chars.as_slice(), query.as_slice()) {
            let t = trimmed(all[i].as_slice());
            if t.len() > 180 {
                let mut short = slice_to_vec(prefix_of(t, 177));
                let dots = to_chars("...");
                push_all(&mut short, dots.as_slice());
                return Some(from_chars(short.as_slice()));
            }
            return Some(from_chars(t));
        }
        i = i + 1;
    }
    None
}

} // verus!
