//! What every slug looks like.

use vstd::prelude::*;

use crate::files::split_undoes_join;
use crate::paths::{slug_char, slug_chars, slug_of};
use crate::text::{
    ascii_alphanumeric, join, lemma_next_char, next_char, nonempty, nonempty_of_two_lists,
    pieces_end_at_separators, pieces_of_two_texts, split, split_from, trim, trimmed_texts,
    two_lists_are_joined, whitespace,
};

verus! {

/// A lower-case ASCII letter or a digit.
pub open spec fn slug_letter(c: char) -> bool {
    ('a' <= c && c <= 'z') || ('0' <= c && c <= '9')
}

/// Words of letters and digits, joined by single dashes.
pub open spec fn clean_slug(s: Seq<char>) -> bool {
    &&& forall|i: int| 0 <= i < s.len() ==> slug_letter(#[trigger] s[i]) || s[i] == '-'
    &&& s.len() > 0 ==> s[0] != '-' && s.last() != '-'
    &&& forall|i: int| 0 <= i < s.len() - 1 && #[trigger] s[i] == '-' ==> s[i + 1] != '-'
}

/// A word of letters and digits.
spec fn slug_word(w: Seq<char>) -> bool {
    w.len() > 0 && forall|i: int| 0 <= i < w.len() ==> slug_letter(#[trigger] w[i])
}

proof fn lemma_slug_chars(s: Seq<char>)
    ensures
        forall|i: int|
            0 <= i < slug_chars(s).len() ==> slug_letter(#[trigger] slug_chars(s)[i]) || slug_chars(
                s,
            )[i] == '-',
    decreases s.len(),
{
    if s.len() > 0 {
        lemma_slug_chars(s.drop_last());
        let prev = slug_chars(s.drop_last());
        let all = slug_chars(s);
        assert forall|i: int| 0 <= i < all.len() implies slug_letter(#[trigger] all[i]) || all[i]
            == '-' by {
            if i < prev.len() {
                assert(all[i] == prev[i]);
            }
        }
    }
}

proof fn lemma_pieces(s: Seq<char>, i: int)
    requires
        0 <= i <= s.len(),
        forall|k: int| 0 <= k < s.len() ==> slug_letter(#[trigger] s[k]) || s[k] == '-',
    ensures
        forall|k: int, j: int|
            0 <= k < split_from(s, i, '-').len() && 0 <= j < split_from(s, i, '-')[k].len()
                ==> slug_letter(#[trigger] split_from(s, i, '-')[k][j]),
    decreases s.len() - i,
{
    lemma_next_char(s, i, '-');
    let n = next_char(s, i, '-');
    if n < s.len() {
        lemma_pieces(s, n + 1);
        let rest = split_from(s, n + 1, '-');
        let all = split_from(s, i, '-');
        assert(all == seq![s.subrange(i, n)] + rest);
        assert forall|k: int, j: int| 0 <= k < all.len() && 0 <= j < all[k].len() implies slug_letter(
            #[trigger] all[k][j],
        ) by {
            if k > 0 {
                assert(all[k] == rest[k - 1]);
                assert(slug_letter(rest[k - 1][j]));
            } else {
                assert(all[k][j] == s[i + j]);
            }
        }
    } else {
        let all = split_from(s, i, '-');
        assert forall|k: int, j: int| 0 <= k < all.len() && 0 <= j < all[k].len() implies slug_letter(
            #[trigger] all[k][j],
        ) by {
            assert(all[k][j] == s[i + j]);
        }
    }
}

proof fn lemma_nonempty_words(parts: Seq<Seq<char>>)
    requires
        forall|k: int, j: int|
            0 <= k < parts.len() && 0 <= j < parts[k].len() ==> slug_letter(#[trigger] parts[k][j]),
    ensures
        forall|k: int| 0 <= k < nonempty(parts).len() ==> slug_word(#[trigger] nonempty(parts)[k]),
    decreases parts.len(),
{
    if parts.len() > 0 {
        let front = parts.drop_last();
        assert forall|k: int, j: int| 0 <= k < front.len() && 0 <= j < front[k].len() implies slug_letter(
            #[trigger] front[k][j],
        ) by {
            assert(front[k] == parts[k]);
            assert(slug_letter(parts[k][j]));
        }
        lemma_nonempty_words(front);
        let last = parts.len() - 1;
        let prev = nonempty(front);
        let all = nonempty(parts);
        assert forall|j: int| 0 <= j < parts.last().len() implies slug_letter(
            #[trigger] parts.last()[j],
        ) by {
            assert(slug_letter(parts[last][j]));
        }
        assert forall|k: int| 0 <= k < all.len() implies slug_word(#[trigger] all[k]) by {
            if k < prev.len() {
                assert(all[k] == prev[k]);
            }
        }
    }
}

proof fn lemma_joined_words(words: Seq<Seq<char>>)
    requires
        forall|k: int| 0 <= k < words.len() ==> slug_word(#[trigger] words[k]),
    ensures
        clean_slug(join(words, seq!['-'])),
        words.len() > 0 ==> join(words, seq!['-']).len() > 0,
    decreases words.len(),
{
    if words.len() == 1 {
        assert(slug_word(words[0]));
    } else if words.len() > 1 {
        let front = words.drop_last();
        assert forall|k: int| 0 <= k < front.len() implies slug_word(#[trigger] front[k]) by {
            assert(front[k] == words[k]);
        }
        lemma_joined_words(front);
        let a = join(front, seq!['-']);
        let w = words.last();
        assert(slug_word(w));
        let s = join(words, seq!['-']);
        assert(s == a + seq!['-'] + w);
        assert(s[0] == a[0]);
        assert(s.last() == w.last());
        assert forall|i: int| 0 <= i < s.len() implies slug_letter(#[trigger] s[i]) || s[i] == '-' by {
            if i < a.len() {
                assert(s[i] == a[i]);
            } else if i > a.len() {
                assert(s[i] == w[i - a.len() - 1]);
            }
        }
        assert forall|i: int| 0 <= i < s.len() - 1 && #[trigger] s[i] == '-' implies s[i + 1]
            != '-' by {
            if i < a.len() - 1 {
                assert(a[i] == '-' && s[i + 1] == a[i + 1]);
            } else if i == a.len() - 1 {
                assert(a.last() == '-');
            } else if i == a.len() {
                assert(s[i + 1] == w[0]);
            } else {
                assert(s[i] == w[i - a.len() - 1]);
            }
        }
    }
}

proof fn lemma_slug_words(s: Seq<char>)
    ensures
        forall|k: int|
            0 <= k < nonempty(split(slug_chars(trim(s)), '-')).len() ==> slug_word(
                #[trigger] nonempty(split(slug_chars(trim(s)), '-'))[k],
            ),
{
    let kept = slug_chars(trim(s));
    lemma_slug_chars(trim(s));
    lemma_pieces(kept, 0);
    lemma_nonempty_words(split(kept, '-'));
}

/// A slug is made of words of lower-case ASCII letters and digits, joined by
/// single dashes, whatever it is made from.
pub proof fn slugs_are_clean(s: Seq<char>)
    ensures
        clean_slug(slug_of(s)),
{
    lemma_slug_words(s);
    lemma_joined_words(nonempty(split(slug_chars(trim(s)), '-')));
}

proof fn lemma_kept(s: Seq<char>)
    requires
        forall|i: int| 0 <= i < s.len() ==> slug_letter(#[trigger] s[i]) || s[i] == '-',
    ensures
        slug_chars(s) == s,
    decreases s.len(),
{
    if s.len() > 0 {
        lemma_kept(s.drop_last());
        assert(slug_char(s.last()) == Some(s.last()));
        assert(s =~= s.drop_last().push(s.last()));
    }
}

proof fn lemma_all_kept(words: Seq<Seq<char>>)
    requires
        forall|k: int| 0 <= k < words.len() ==> slug_word(#[trigger] words[k]),
    ensures
        nonempty(words) == words,
    decreases words.len(),
{
    if words.len() > 0 {
        let front = words.drop_last();
        assert forall|k: int| 0 <= k < front.len() implies slug_word(#[trigger] front[k]) by {
            assert(front[k] == words[k]);
        }
        lemma_all_kept(front);
        assert(slug_word(words[words.len() - 1]));
        assert(words =~= front.push(words.last()));
    }
}

/// A slug is its own slug.
pub proof fn slug_of_a_slug(s: Seq<char>)
    ensures
        slug_of(slug_of(s)) == slug_of(s),
{
    let words = nonempty(split(slug_chars(trim(s)), '-'));
    let slug = slug_of(s);
    slugs_are_clean(s);
    lemma_slug_words(s);
    assert(trim(slug) == slug) by {
        if slug.len() > 0 {
            assert(slug_letter(slug[0]));
            assert(slug_letter(slug[slug.len() - 1]));
        }
    }
    lemma_kept(slug);
    if words.len() == 0 {
        assert(slug =~= seq![]);
        lemma_next_char(slug, 0, '-');
        assert(split(slug, '-') =~= seq![slug.skip(0)]);
        reveal_with_fuel(nonempty, 2);
        assert(nonempty(split(slug, '-')) =~= seq![]);
    } else {
        assert forall|i: int| 0 <= i < words.len() implies !(#[trigger] words[i]).contains('-') by {
            assert(slug_word(words[i]));
        }
        split_undoes_join(words, '-');
        lemma_all_kept(words);
    }
}

proof fn lemma_chars_of_two_texts(a: Seq<char>, b: Seq<char>)
    ensures
        slug_chars(a + b) == slug_chars(a) + slug_chars(b),
    decreases b.len(),
{
    if b.len() == 0 {
        assert(a + b =~= a);
        assert(slug_chars(a) + slug_chars(b) =~= slug_chars(a));
    } else {
        lemma_chars_of_two_texts(a, b.drop_last());
        assert((a + b).drop_last() =~= a + b.drop_last());
        assert((a + b).last() == b.last());
        if slug_char(b.last()) is Some {
            let c = slug_char(b.last())->0;
            assert(slug_chars(a) + slug_chars(b.drop_last()).push(c) =~= (slug_chars(a)
                + slug_chars(b.drop_last())).push(c));
        }
    }
}

/// The letter or digit in lower case.
pub open spec fn lowered(c: char) -> char {
    if 'A' <= c && c <= 'Z' {
        ((c as u32) + 32) as char
    } else {
        c
    }
}

/// A slug is made word by word. What stands before and behind a space, a hyphen or
/// an underscore makes a slug by itself, and one hyphen joins the two, unless one
/// of them is empty. A word of ASCII letters and digits is itself in lower case,
/// and any other character counts for nothing.
#[verifier::rlimit(40)]
pub proof fn slug_is_made_word_by_word(a: Seq<char>, c: char, b: Seq<char>, word: Seq<char>)
    requires
        a.len() > 0 && trim(a) == a,
        b.len() > 0 && trim(b) == b,
        word.len() > 0,
        forall|i: int| 0 <= i < word.len() ==> ascii_alphanumeric(#[trigger] word[i]),
    ensures
        c == ' ' || c == '-' || c == '_' ==> slug_of(a.push(c) + b) == (if slug_of(a).len() == 0 {
            slug_of(b)
        } else if slug_of(b).len() == 0 {
            slug_of(a)
        } else {
            slug_of(a) + seq!['-'] + slug_of(b)
        }),
        !ascii_alphanumeric(c) && c != ' ' && c != '-' && c != '_' ==> slug_of(a.push(c) + b)
            == slug_of(a + b),
        slug_of(word) == Seq::new(word.len(), |i: int| lowered(word[i])),
{
    let s = a.push(c) + b;
    trimmed_texts(a);
    trimmed_texts(b);
    assert(s[0] == a[0] && s.last() == b.last());
    trimmed_texts(s);
    assert((a + b)[0] == a[0] && (a + b).last() == b.last());
    trimmed_texts(a + b);
    let x = slug_chars(a);
    let y = slug_chars(b);
    lemma_chars_of_two_texts(a, b);
    lemma_chars_of_two_texts(a.push(c), b);
    assert(a.push(c).drop_last() =~= a);
    if c == ' ' || c == '-' || c == '_' {
        let p = nonempty(split(x, '-'));
        let q = nonempty(split(y, '-'));
        pieces_of_two_texts(x, y, '-');
        nonempty_of_two_lists(split(x, '-'), split(y, '-'));
        two_lists_are_joined(p, q, seq!['-']);
        two_lists_are_joined(q, p, seq!['-']);
        lemma_slug_words(a);
        lemma_slug_words(b);
        lemma_words_make_a_slug(p);
        lemma_words_make_a_slug(q);
        if q.len() == 0 {
            assert(p + q =~= p);
        }
    }
    lemma_word_lowered(word);
}

proof fn lemma_words_make_a_slug(words: Seq<Seq<char>>)
    requires
        forall|k: int| 0 <= k < words.len() ==> slug_word(#[trigger] words[k]),
    ensures
        words.len() == 0 <==> join(words, seq!['-']).len() == 0,
{
    if words.len() > 0 {
        assert(slug_word(words[words.len() - 1]));
    }
}

proof fn lemma_word_lowered(word: Seq<char>)
    requires
        word.len() > 0,
        forall|i: int| 0 <= i < word.len() ==> ascii_alphanumeric(#[trigger] word[i]),
    ensures
        slug_of(word) == Seq::new(word.len(), |i: int| lowered(word[i])),
{
    let low = Seq::new(word.len(), |i: int| lowered(word[i]));
    assert(ascii_alphanumeric(word[0]) && ascii_alphanumeric(word[word.len() - 1]));
    assert(!whitespace(word[0]) && !whitespace(word.last()));
    trimmed_texts(word);
    lemma_word_chars(word);
    assert(!low.contains('-')) by {
        if low.contains('-') {
            let k = choose|k: int| 0 <= k < low.len() && low[k] == '-';
            assert(ascii_alphanumeric(word[k]));
        }
    }
    pieces_end_at_separators(low, low, '-');
    nonempty_of_two_lists(seq![], seq![low]);
    assert(Seq::<Seq<char>>::empty() + seq![low] =~= seq![low]);
    two_lists_are_joined(seq![low], seq![], seq!['-']);
}

proof fn lemma_word_chars(word: Seq<char>)
    requires
        forall|i: int| 0 <= i < word.len() ==> ascii_alphanumeric(#[trigger] word[i]),
    ensures
        slug_chars(word) == Seq::new(word.len(), |i: int| lowered(word[i])),
    decreases word.len(),
{
    let low = Seq::new(word.len(), |i: int| lowered(word[i]));
    if word.len() > 0 {
        let front = word.drop_last();
        assert forall|i: int| 0 <= i < front.len() implies ascii_alphanumeric(
            #[trigger] front[i],
        ) by {
            assert(front[i] == word[i]);
        }
        lemma_word_chars(front);
        assert(ascii_alphanumeric(word[word.len() - 1]));
        assert(slug_char(word.last()) == Some(lowered(word.last())));
        assert(low =~= Seq::new(front.len(), |i: int| lowered(front[i])).push(
            lowered(word.last()),
        ));
    } else {
        assert(low =~= seq![]);
    }
}

} // verus!
