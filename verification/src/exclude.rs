//! Noise exclusion: paths that are not content at all, in gitignore syntax.

use vstd::prelude::*;

use ignore::gitignore::{Gitignore, GitignoreBuilder};

use crate::layers::MARKER_FILE_NAME;
use crate::paths::{file_name, file_name_of};
use crate::text::{
    chars_eq, ends_with, from_chars, lemma_strs_push, lemma_trim_end_is, push_str, starts_with,
    str_owned, strs, to_chars, trim_end, whitespace,
};

verus! {

/// The patterns applied before any user pattern, so that a user negation can
/// reinstate what one of them excludes.
pub open spec fn default_patterns() -> Seq<Seq<char>> {
    seq![
        ".obsidian/"@,
        ".trash/"@,
        ".hatchdoor-trash/"@,
        ".hatchdoor/"@,
        ".DS_Store"@,
        "*.tmp"@,
        "*.sync-conflict-*"@,
    ]
}

pub fn default_exclude_patterns() -> (r: Vec<String>)
    ensures
        strs(r@) == default_patterns(),
{
    let mut out: Vec<String> = Vec::new();
    out.push(str_owned(".obsidian/"));
    out.push(str_owned(".trash/"));
    out.push(str_owned(".hatchdoor-trash/"));
    out.push(str_owned(".hatchdoor/"));
    out.push(str_owned(".DS_Store"));
    out.push(str_owned("*.tmp"));
    out.push(str_owned("*.sync-conflict-*"));
    assert(strs(out@) =~= default_patterns());
    out
}

/// `ignore::gitignore::Gitignore`, a compiled set of ignore patterns.
#[verifier::external_type_specification]
#[verifier::external_body]
pub struct ExGitignore(Gitignore);

/// `ignore::gitignore::GitignoreBuilder`, which collects ignore patterns.
#[verifier::external_type_specification]
#[verifier::external_body]
pub struct ExGitignoreBuilder(GitignoreBuilder);

/// The pattern that a line holds. A comment and a blank line hold none, and
/// white space at the end does not count unless the last of it is escaped.
pub open spec fn line_pattern(line: Seq<char>) -> Option<Seq<char>> {
    let kept = if ends_with(line, seq!['\\', ' ']) {
        line
    } else {
        trim_end(line)
    };
    if starts_with(line, seq!['#']) || kept.len() == 0 {
        None
    } else {
        Some(kept)
    }
}

/// The patterns that lines hold, in order.
pub open spec fn held_patterns(lines: Seq<Seq<char>>) -> Seq<Seq<char>>
    decreases lines.len(),
{
    if lines.len() == 0 {
        seq![]
    } else {
        let prev = held_patterns(lines.drop_last());
        match line_pattern(lines.last()) {
            Some(pattern) => prev.push(pattern),
            None => prev,
        }
    }
}

proof fn lemma_held_concat(a: Seq<Seq<char>>, b: Seq<Seq<char>>)
    ensures
        held_patterns(a + b) == held_patterns(a) + held_patterns(b),
    decreases b.len(),
{
    if b.len() == 0 {
        assert(a + b =~= a);
        assert(held_patterns(a) + held_patterns(b) =~= held_patterns(a));
    } else {
        lemma_held_concat(a, b.drop_last());
        assert((a + b).drop_last() =~= a + b.drop_last());
        assert((a + b).last() == b.last());
        assert(held_patterns(a + b) =~= held_patterns(a) + held_patterns(b));
    }
}

/// The patterns a builder holds, in order.
pub uninterp spec fn builder_lines(b: GitignoreBuilder) -> Seq<Seq<char>>;

/// The patterns a matcher was built from, in order.
pub uninterp spec fn matcher_lines(g: Gitignore) -> Seq<Seq<char>>;

/// The message with which a builder refuses a pattern line, if it does.
pub uninterp spec fn line_refusal(line: Seq<char>) -> Option<Seq<char>>;

/// The message with which building a matcher from patterns fails, if it does.
pub uninterp spec fn build_refusal(patterns: Seq<Seq<char>>) -> Option<Seq<char>>;

/// Whether a matcher built from the patterns ignores a path: the last
/// pattern that matches the path, or else the nearest parent directory that
/// any pattern matches, decides.
pub uninterp spec fn patterns_ignore(patterns: Seq<Seq<char>>, path: Seq<char>, is_dir: bool) -> bool;

/// `GitignoreBuilder::new` with an empty root: no pattern yet.
#[verifier::external_body]
fn new_builder() -> (b: GitignoreBuilder)
    ensures
        builder_lines(b) == Seq::<Seq<char>>::empty(),
{
    GitignoreBuilder::new("")
}

/// `GitignoreBuilder::add_line` with no source file: the line's pattern, where
/// it holds one, is appended, or the line is refused with a message that
/// depends on it alone and the builder is left as it was.
#[verifier::external_body]
fn add_line(b: &mut GitignoreBuilder, line: &str) -> (r: Result<(), String>)
    ensures
        match r {
            Ok(_) => line_refusal(line@) is None && builder_lines(*final(b)) == (match line_pattern(
                line@,
            ) {
                Some(pattern) => builder_lines(*old(b)).push(pattern),
                None => builder_lines(*old(b)),
            }),
            Err(message) => line_refusal(line@) == Some(message@) && builder_lines(*final(b))
                == builder_lines(*old(b)),
        },
{
    match b.add_line(None, line) {
        Ok(_) => Ok(()),
        Err(error) => Err(error.to_string()),
    }
}

/// `GitignoreBuilder::build`: the matcher for the builder's patterns, or a
/// message that depends on those patterns alone.
#[verifier::external_body]
fn build_matcher(b: &GitignoreBuilder) -> (r: Result<Gitignore, String>)
    ensures
        match r {
            Ok(g) => build_refusal(builder_lines(*b)) is None && matcher_lines(g) == builder_lines(
                *b,
            ),
            Err(message) => build_refusal(builder_lines(*b)) == Some(message@),
        },
{
    match b.build() {
        Ok(g) => Ok(g),
        Err(error) => Err(error.to_string()),
    }
}

/// `Gitignore::matched_path_or_any_parents`: whether the path is ignored, which
/// depends on the patterns, the path and its kind alone. The call panics
/// on a path that is still absolute after one leading `./` and then one leading
/// `/` are dropped.
#[verifier::external_body]
fn matches_or_parent_matches(g: &Gitignore, path: &str, is_dir: bool) -> (r: bool)
    requires
        stays_relative(path@),
    ensures
        r == patterns_ignore(matcher_lines(*g), path@, is_dir),
{
    g.matched_path_or_any_parents(path, is_dir).is_ignore()
}

/// The path does not start with two separators, with or without a `./` before
/// them.
pub open spec fn stays_relative(path: Seq<char>) -> bool {
    !starts_with(path, seq!['/', '/']) && !starts_with(path, seq!['.', '/', '/', '/'])
}

/// Decides which paths are not content.
pub struct ExcludeMatcher {
    inner: Gitignore,
    user_patterns: Vec<String>,
}

/// The first pattern of `patterns` from `i` on that is refused.
pub open spec fn first_refused(patterns: Seq<Seq<char>>, i: int) -> int
    decreases patterns.len() - i,
{
    if i >= patterns.len() {
        patterns.len() as int
    } else if line_refusal(patterns[i]) is Some {
        i
    } else {
        first_refused(patterns, i + 1)
    }
}

/// What building a matcher for the user's patterns reports, if it fails.
pub open spec fn matcher_error(user: Seq<Seq<char>>) -> Option<Seq<char>> {
    let d = first_refused(default_patterns(), 0);
    let u = first_refused(user, 0);
    if 0 <= d < default_patterns().len() {
        Some(
            "invalid built-in exclude '"@ + default_patterns()[d] + "': "@ + line_refusal(
                default_patterns()[d],
            )->0,
        )
    } else if 0 <= u < user.len() {
        Some(
            "invalid HATCHDOOR_EXCLUDE pattern '"@ + user[u] + "': "@ + line_refusal(user[u])->0,
        )
    } else {
        match build_refusal(held_patterns(default_patterns() + user)) {
            Some(message) => Some("could not build exclude matcher: "@ + message),
            None => None,
        }
    }
}

fn add_all(b: &mut GitignoreBuilder, patterns: &Vec<String>, what: &str) -> (r: Result<(), String>)
    ensures
        match r {
            Ok(_) => first_refused(strs(patterns@), 0) == patterns@.len() && builder_lines(*final(b))
                == builder_lines(*old(b)) + held_patterns(strs(patterns@)),
            Err(message) => {
                let i = first_refused(strs(patterns@), 0);
                0 <= i < patterns@.len() && message@ == what@ + strs(patterns@)[i] + "': "@
                    + line_refusal(strs(patterns@)[i])->0
            },
        },
{
    let ghost start = builder_lines(*b);
    let mut i: usize = 0;
    assert(start + held_patterns(strs(patterns@).take(0)) =~= start);
    while i < patterns.len()
        invariant
            0 <= i <= patterns@.len(),
            first_refused(strs(patterns@), 0) == first_refused(strs(patterns@), i as int),
            builder_lines(*b) == start + held_patterns(strs(patterns@).take(i as int)),
        decreases patterns@.len() - i,
    {
        proof {
            let lines = strs(patterns@);
            assert(lines.take(i + 1).drop_last() =~= lines.take(i as int));
            assert(lines.take(i + 1).last() == patterns@[i as int]@);
        }
        match add_line(b, patterns[i].as_str()) {
            Ok(_) => {},
            Err(message) => {
                let mut out = to_chars(what);
                push_str(&mut out, patterns[i].as_str());
                push_str(&mut out, "': ");
                push_str(&mut out, message.as_str());
                return Err(from_chars(out.as_slice()));
            },
        }
        i = i + 1;
        assert(builder_lines(*b) =~= start + held_patterns(strs(patterns@).take(i as int)));
    }
    assert(strs(patterns@).take(i as int) =~= strs(patterns@));
    Ok(())
}

impl ExcludeMatcher {
    /// The user's patterns, behind the built-in ones.
    pub closed spec fn user_lines(&self) -> Seq<Seq<char>> {
        strs(self.user_patterns@)
    }

    /// Every pattern the matcher goes by.
    pub closed spec fn all_lines(&self) -> Seq<Seq<char>> {
        matcher_lines(self.inner)
    }

    /// The path is noise.
    pub open spec fn excludes(&self, relative: Seq<char>, is_dir: bool) -> bool {
        file_name(relative) != Some(MARKER_FILE_NAME@) && patterns_ignore(
            self.all_lines(),
            relative,
            is_dir,
        )
    }

    pub fn new(user_patterns: &Vec<String>) -> (r: Result<Self, String>)
        ensures
            match r {
                Ok(m) => matcher_error(strs(user_patterns@)) is None && m.user_lines() == strs(
                    user_patterns@,
                ) && m.all_lines() == held_patterns(default_patterns() + strs(user_patterns@)),
                Err(message) => matcher_error(strs(user_patterns@)) == Some(message@),
            },
    {
        let mut builder = new_builder();
        let defaults = default_exclude_patterns();
        match add_all(&mut builder, &defaults, "invalid built-in exclude '") {
            Ok(_) => {},
            Err(message) => {
                return Err(message);
            },
        }
        match add_all(&mut builder, user_patterns, "invalid HATCHDOOR_EXCLUDE pattern '") {
            Ok(_) => {},
            Err(message) => {
                return Err(message);
            },
        }
        proof {
            lemma_held_concat(default_patterns(), strs(user_patterns@));
        }
        assert(builder_lines(builder) =~= held_patterns(
            default_patterns() + strs(user_patterns@),
        ));
        match build_matcher(&builder) {
            Err(message) => {
                let mut out = to_chars("could not build exclude matcher: ");
                push_str(&mut out, message.as_str());
                Err(from_chars(out.as_slice()))
            },
            Ok(inner) => {
                let mut copy: Vec<String> = Vec::new();
                let mut i: usize = 0;
                while i < user_patterns.len()
                    invariant
                        0 <= i <= user_patterns@.len(),
                        strs(copy@) == strs(user_patterns@).take(i as int),
                    decreases user_patterns@.len() - i,
                {
                    let s = user_patterns[i].clone();
                    proof {
                        lemma_strs_push(copy@, s);
                    }
                    copy.push(s);
                    i = i + 1;
                    assert(strs(copy@) =~= strs(user_patterns@).take(i as int));
                }
                assert(strs(user_patterns@).take(i as int) =~= strs(user_patterns@));
                Ok(ExcludeMatcher { inner, user_patterns: copy })
            },
        }
    }

    /// Whether a vault-relative path is noise. The marker file is never
    /// excluded: a broad user pattern must not be able to disable the layer
    /// model.
    pub fn is_excluded(&self, relative: &str, is_dir: bool) -> (r: bool)
        requires
            stays_relative(relative@),
        ensures
            r == self.excludes(relative@, is_dir),
    {
        let chars = to_chars(relative);
        let marker = to_chars(MARKER_FILE_NAME);
        match file_name_of(chars.as_slice()) {
            Some(name) => {
                if chars_eq(name.as_slice(), marker.as_slice()) {
                    return false;
                }
            },
            None => {},
        }
        matches_or_parent_matches(&self.inner, relative, is_dir)
    }

    /// Every configured pattern with where it came from, the built-in ones
    /// first.
    pub fn configured_patterns(&self) -> (r: Vec<(String, &'static str)>)
        ensures
            r@.len() == default_patterns().len() + self.user_lines().len(),
            forall|i: int|
                0 <= i < default_patterns().len() ==> (#[trigger] r@[i]).0@ == default_patterns()[i]
                    && r@[i].1@ == "built-in"@,
            forall|i: int|
                default_patterns().len() <= i < r@.len() ==> (#[trigger] r@[i]).0@
                    == self.user_lines()[i - default_patterns().len()] && r@[i].1@
                    == "HATCHDOOR_EXCLUDE"@,
    {
        let defaults = default_exclude_patterns();
        let mut out: Vec<(String, &'static str)> = Vec::new();
        let mut i: usize = 0;
        assert(strs(defaults@).len() == defaults@.len());
        while i < defaults.len()
            invariant
                0 <= i <= defaults@.len(),
                defaults@.len() == default_patterns().len(),
                strs(defaults@) == default_patterns(),
                out@.len() == i,
                forall|k: int|
                    0 <= k < i ==> (#[trigger] out@[k]).0@ == default_patterns()[k] && out@[k].1@
                        == "built-in"@,
            decreases defaults@.len() - i,
        {
            assert(strs(defaults@)[i as int] == defaults@[i as int]@);
            out.push((defaults[i].clone(), "built-in"));
            i = i + 1;
        }
        let ghost n = default_patterns().len();
        let mut j: usize = 0;
        while j < self.user_patterns.len()
            invariant
                0 <= j <= self.user_patterns@.len(),
                n == default_patterns().len(),
                out@.len() == n + j,
                forall|k: int|
                    0 <= k < n ==> (#[trigger] out@[k]).0@ == default_patterns()[k] && out@[k].1@
                        == "built-in"@,
                forall|k: int|
                    n <= k < n + j ==> (#[trigger] out@[k]).0@ == self.user_lines()[k - n]
                        && out@[k].1@ == "HATCHDOOR_EXCLUDE"@,
            decreases self.user_patterns@.len() - j,
        {
            out.push((self.user_patterns[j].clone(), "HATCHDOOR_EXCLUDE"));
            j = j + 1;
        }
        out
    }
}

/// No pattern excludes a marker file.
pub proof fn marker_is_never_excluded(matcher: &ExcludeMatcher, relative: Seq<char>, is_dir: bool)
    requires
        file_name(relative) == Some(MARKER_FILE_NAME@),
    ensures
        !matcher.excludes(relative, is_dir),
{
}

/// A line holds what stands on it before the white space at its end, unless a
/// backslash keeps the last space. A comment and a blank line hold nothing.
#[verifier::rlimit(40)]
pub proof fn pattern_is_what_its_line_says(text: Seq<char>, spaces: Seq<char>)
    requires
        text.len() > 0 ==> !whitespace(text.last()),
        forall|i: int| 0 <= i < spaces.len() ==> whitespace(#[trigger] spaces[i]),
    ensures
        text.len() == 0 ==> line_pattern(spaces) is None,
        text.len() > 0 && text[0] == '#' ==> line_pattern(text + spaces) is None,
        text.len() > 0 && text[0] != '#' && (text.last() != '\\' || spaces != seq![' '])
            ==> line_pattern(text + spaces) == Some(text),
        text.len() > 0 && text[0] != '#' && text.last() == '\\' ==> line_pattern(text.push(' '))
            == Some(text.push(' ')),
{
    let line = text + spaces;
    let n = text.len() as int;
    let mark = seq!['\\', ' '];
    assert forall|i: int| n <= i < line.len() implies whitespace(#[trigger] line[i]) by {
        assert(line[i] == spaces[i - n]);
    }
    lemma_trim_end_is(line, n);
    assert(line.take(n) =~= text);
    if text.len() == 0 {
        assert(line =~= spaces);
        if ends_with(spaces, mark) {
            assert(spaces.skip(spaces.len() - 2)[0] == '\\');
            assert(whitespace(spaces[spaces.len() - 2]));
        }
        if starts_with(spaces, seq!['#']) {
            assert(spaces.take(1)[0] == '#');
        }
    } else {
        assert(line[0] == text[0]);
        assert(starts_with(line, seq!['#']) <==> text[0] == '#') by {
            if text[0] == '#' {
                assert(line.take(1) =~= seq!['#']);
            } else if starts_with(line, seq!['#']) {
                assert(line.take(1)[0] == '#');
            }
        }
        if ends_with(line, mark) {
            let k = line.len() - 2;
            assert(line.skip(k)[0] == '\\' && line.skip(k)[1] == ' ');
            assert(line[k] == '\\' && line[k + 1] == ' ');
            assert(!whitespace('\\'));
            if k >= n {
                assert(whitespace(line[k]));
            } else if spaces.len() == 1 {
                assert(spaces =~= seq![' ']);
            } else {
                assert(spaces.len() == 0);
                assert(text.last() == line.last());
            }
        }
        let kept = text.push(' ');
        if text.last() == '\\' {
            assert(kept.skip(kept.len() - 2) =~= mark);
        }
        if starts_with(kept, seq!['#']) {
            assert(kept.take(1)[0] == '#');
            assert(kept[0] == text[0]);
        }
    }
}

/// The patterns of two lists of lines are those of the one, and then those of the
/// other; those of one line are the one it holds, if it holds one.
pub proof fn patterns_of_two_lists(a: Seq<Seq<char>>, b: Seq<Seq<char>>, line: Seq<char>)
    ensures
        held_patterns(a + b) == held_patterns(a) + held_patterns(b),
        held_patterns(seq![line]) == (match line_pattern(line) {
            Some(pattern) => seq![pattern],
            None => Seq::<Seq<char>>::empty(),
        }),
    decreases b.len(),
{
    let one = seq![line];
    assert(one.drop_last() =~= seq![]);
    assert(held_patterns(one.drop_last()) =~= seq![]);
    if line_pattern(line) is Some {
        assert(seq![].push(line_pattern(line)->0) =~= seq![line_pattern(line)->0]);
    }
    if b.len() == 0 {
        assert(a + b =~= a);
        assert(held_patterns(a) + held_patterns(b) =~= held_patterns(a));
    } else {
        patterns_of_two_lists(a, b.drop_last(), line);
        assert((a + b).drop_last() =~= a + b.drop_last());
        assert((a + b).last() == b.last());
        if line_pattern(b.last()) is Some {
            let pattern = line_pattern(b.last())->0;
            assert(held_patterns(a) + held_patterns(b.drop_last()).push(pattern) =~= (held_patterns(
                a,
            ) + held_patterns(b.drop_last())).push(pattern));
        }
    }
}

/// A list of patterns is refused at its first refused one.
pub proof fn first_refused_pattern_is_reported(patterns: Seq<Seq<char>>, i: int)
    requires
        0 <= i <= patterns.len(),
        forall|j: int| 0 <= j < i ==> line_refusal(#[trigger] patterns[j]) is None,
        i < patterns.len() ==> line_refusal(patterns[i]) is Some,
    ensures
        first_refused(patterns, 0) == i,
{
    lemma_first_refused_is(patterns, 0, i);
}

proof fn lemma_first_refused_is(patterns: Seq<Seq<char>>, from: int, i: int)
    requires
        0 <= from <= i <= patterns.len(),
        forall|j: int| 0 <= j < i ==> line_refusal(#[trigger] patterns[j]) is None,
        i < patterns.len() ==> line_refusal(patterns[i]) is Some,
    ensures
        first_refused(patterns, from) == i,
    decreases i - from,
{
    if from < i {
        lemma_first_refused_is(patterns, from + 1, i);
    }
}

} // verus!
