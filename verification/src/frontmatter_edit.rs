//! Merging property updates into a note's YAML block.

use vstd::prelude::*;
use vstd::slice::slice_to_vec;

use crate::frontmatter::{
    apply_edits, block_mapping, edit_view, edit_views, edited_lines, emitted, entries_from,
    entry_views, found_keys_are_ordered, layout, lines_result, read_block, render_key,
    top_level_keys, EntryView, KeyEdit, KeyEntry, ValueShape,
};
use crate::layers::pair_views;
use crate::text::{
    chars_eq, decimal, from_chars, join, joined, lemma_texts_push, push_all, push_str, split,
    split_on, str_eq, str_owned, texts, to_chars, to_decimal, trim, trim_end, trim_end_of, trimmed,
};
use crate::write_types::{ErrorView, WriteError};

verus! {

/// The end of every refusal that a person has to resolve.
pub const FIX_IN_VAULT: &'static str = "fix it directly in the vault before updating it through the API";

// ---------------------------------------------------------------------------
// Properties
// ---------------------------------------------------------------------------

/// The value of the first entry of a key, from `i` on.
pub open spec fn value_from(
    table: Seq<(Seq<char>, Seq<char>)>,
    key: Seq<char>,
    i: int,
) -> Option<Seq<char>>
    decreases table.len() - i,
{
    if i < 0 || i >= table.len() {
        None
    } else if table[i].0 == key {
        Some(table[i].1)
    } else {
        value_from(table, key, i + 1)
    }
}

/// The value of a key.
pub open spec fn value_of(table: Seq<(Seq<char>, Seq<char>)>, key: Seq<char>) -> Option<Seq<char>> {
    value_from(table, key, 0)
}

fn find_property<'a>(table: &'a Vec<(String, String)>, key: &String) -> (r: Option<&'a String>)
    ensures
        match r {
            Some(v) => value_of(pair_views(table@), key@) == Some(v@),
            None => value_of(pair_views(table@), key@) is None,
        },
{
    let ghost tv = pair_views(table@);
    let mut i: usize = 0;
    while i < table.len()
        invariant
            0 <= i <= table@.len(),
            tv == pair_views(table@),
            value_of(tv, key@) == value_from(tv, key@, i as int),
        decreases table@.len() - i,
    {
        assert(tv[i as int] == (table@[i as int].0@, table@[i as int].1@));
        if table[i].0 == *key {
            return Some(&table[i].1);
        }
        i = i + 1;
    }
    None
}

proof fn lemma_value_from(table: Seq<(Seq<char>, Seq<char>)>, key: Seq<char>, i: int)
    requires
        0 <= i <= table.len(),
    ensures
        value_from(table, key, i) is Some <==> exists|k: int|
            i <= k < table.len() && (#[trigger] table[k]).0 == key,
    decreases table.len() - i,
{
    if i < table.len() && table[i].0 != key {
        lemma_value_from(table, key, i + 1);
    }
}

/// An update that deletes its key.
pub open spec fn is_null(json: Seq<char>) -> bool {
    json == "null"@
}

/// The value of a key behind the merge: an update counts before what was
/// there, and a null update deletes.
pub open spec fn merged_value(
    original: Seq<(Seq<char>, Seq<char>)>,
    updates: Seq<(Seq<char>, Seq<char>)>,
    key: Seq<char>,
) -> Option<Seq<char>> {
    match value_of(updates, key) {
        Some(json) => if is_null(json) {
            None
        } else {
            Some(json)
        },
        None => value_of(original, key),
    }
}

fn find_merged<'a>(
    original: &'a Vec<(String, String)>,
    updates: &'a Vec<(String, String)>,
    key: &String,
) -> (r: Option<&'a String>)
    ensures
        match r {
            Some(v) => merged_value(pair_views(original@), pair_views(updates@), key@) == Some(v@),
            None => merged_value(pair_views(original@), pair_views(updates@), key@) is None,
        },
{
    match find_property(updates, key) {
        Some(json) => if str_eq(json.as_str(), "null") {
            None
        } else {
            Some(json)
        },
        None => find_property(original, key),
    }
}

/// The merge leaves no key.
pub open spec fn merges_to_nothing(
    original: Seq<(Seq<char>, Seq<char>)>,
    updates: Seq<(Seq<char>, Seq<char>)>,
) -> bool {
    forall|key: Seq<char>| (#[trigger] merged_value(original, updates, key)) is None
}

fn all_gone(
    keys: &Vec<(String, String)>,
    original: &Vec<(String, String)>,
    updates: &Vec<(String, String)>,
) -> (r: bool)
    ensures
        r == forall|k: int|
            0 <= k < keys@.len() ==> merged_value(
                pair_views(original@),
                pair_views(updates@),
                (#[trigger] keys@[k]).0@,
            ) is None,
{
    let mut i: usize = 0;
    while i < keys.len()
        invariant
            0 <= i <= keys@.len(),
            forall|k: int|
                0 <= k < i ==> merged_value(
                    pair_views(original@),
                    pair_views(updates@),
                    (#[trigger] keys@[k]).0@,
                ) is None,
        decreases keys@.len() - i,
    {
        if find_merged(original, updates, &keys[i].0).is_some() {
            assert(merged_value(
                pair_views(original@),
                pair_views(updates@),
                keys@[i as int].0@,
            ) is Some);
            return false;
        }
        i = i + 1;
    }
    true
}

proof fn lemma_value_has_key(table: Seq<(String, String)>, key: Seq<char>) -> (k: int)
    requires
        value_of(pair_views(table), key) is Some,
    ensures
        0 <= k < table.len() && table[k].0@ == key,
{
    lemma_value_from(pair_views(table), key, 0);
    let k = choose|k: int| 0 <= k < pair_views(table).len() && (#[trigger] pair_views(table)[k]).0 == key;
    k
}

fn is_merged_to_nothing(original: &Vec<(String, String)>, updates: &Vec<(String, String)>) -> (r:
    bool)
    ensures
        r == merges_to_nothing(pair_views(original@), pair_views(updates@)),
{
    let a = all_gone(original, original, updates);
    let b = all_gone(updates, original, updates);
    proof {
        let o = pair_views(original@);
        let u = pair_views(updates@);
        if a && b {
            assert forall|key: Seq<char>| (#[trigger] merged_value(o, u, key)) is None by {
                if merged_value(o, u, key) is Some {
                    if value_of(u, key) is Some {
                        let k = lemma_value_has_key(updates@, key);
                        assert(merged_value(o, u, updates@[k].0@) is None);
                    } else {
                        let k = lemma_value_has_key(original@, key);
                        assert(merged_value(o, u, original@[k].0@) is None);
                    }
                }
            }
        }
    }
    a && b
}

/// The block reads as the merge.
pub open spec fn reads_as_merge(
    read: Option<Seq<(Seq<char>, Seq<char>)>>,
    original: Seq<(Seq<char>, Seq<char>)>,
    updates: Seq<(Seq<char>, Seq<char>)>,
) -> bool {
    match read {
        Some(table) => forall|key: Seq<char>| #[trigger]
            value_of(table, key) == merged_value(original, updates, key),
        None => false,
    }
}

fn same_values(
    keys: &Vec<(String, String)>,
    table: &Vec<(String, String)>,
    original: &Vec<(String, String)>,
    updates: &Vec<(String, String)>,
) -> (r: bool)
    ensures
        r == forall|k: int|
            0 <= k < keys@.len() ==> value_of(pair_views(table@), (#[trigger] keys@[k]).0@)
                == merged_value(pair_views(original@), pair_views(updates@), keys@[k].0@),
{
    let mut i: usize = 0;
    while i < keys.len()
        invariant
            0 <= i <= keys@.len(),
            forall|k: int|
                0 <= k < i ==> value_of(pair_views(table@), (#[trigger] keys@[k]).0@)
                    == merged_value(pair_views(original@), pair_views(updates@), keys@[k].0@),
        decreases keys@.len() - i,
    {
        let here = find_property(table, &keys[i].0);
        let wanted = find_merged(original, updates, &keys[i].0);
        let same = match (here, wanted) {
            (Some(x), Some(y)) => str_eq(x.as_str(), y.as_str()),
            (None, None) => true,
            _ => false,
        };
        if !same {
            assert(value_of(pair_views(table@), keys@[i as int].0@) != merged_value(
                pair_views(original@),
                pair_views(updates@),
                keys@[i as int].0@,
            ));
            return false;
        }
        i = i + 1;
    }
    true
}

fn is_the_merge(
    read: &Option<Vec<(String, String)>>,
    original: &Vec<(String, String)>,
    updates: &Vec<(String, String)>,
) -> (r: bool)
    ensures
        r == reads_as_merge(
            match *read {
                Some(v) => Some(pair_views(v@)),
                None => None,
            },
            pair_views(original@),
            pair_views(updates@),
        ),
{
    match read {
        None => false,
        Some(table) => {
            let a = same_values(table, table, original, updates);
            let b = same_values(original, table, original, updates);
            let c = same_values(updates, table, original, updates);
            proof {
                let t = pair_views(table@);
                let o = pair_views(original@);
                let u = pair_views(updates@);
                if a && b && c {
                    assert forall|key: Seq<char>| #[trigger] value_of(t, key) == merged_value(
                        o,
                        u,
                        key,
                    ) by {
                        if value_of(t, key) is Some {
                            let k = lemma_value_has_key(table@, key);
                            assert(table@[k].0@ == key);
                        } else if value_of(u, key) is Some {
                            let k = lemma_value_has_key(updates@, key);
                            assert(updates@[k].0@ == key);
                        } else if value_of(o, key) is Some {
                            let k = lemma_value_has_key(original@, key);
                            assert(original@[k].0@ == key);
                        }
                    }
                } else {
                    if !a {
                        let k = choose|k: int|
                            0 <= k < table@.len() && value_of(t, (#[trigger] table@[k]).0@)
                                != merged_value(o, u, table@[k].0@);
                        assert(value_of(t, table@[k].0@) != merged_value(o, u, table@[k].0@));
                    } else if !b {
                        let k = choose|k: int|
                            0 <= k < original@.len() && value_of(t, (#[trigger] original@[k]).0@)
                                != merged_value(o, u, original@[k].0@);
                        assert(value_of(t, original@[k].0@) != merged_value(o, u, original@[k].0@));
                    } else {
                        let k = choose|k: int|
                            0 <= k < updates@.len() && value_of(t, (#[trigger] updates@[k]).0@)
                                != merged_value(o, u, updates@[k].0@);
                        assert(value_of(t, updates@[k].0@) != merged_value(o, u, updates@[k].0@));
                    }
                }
            }
            a && b && c
        },
    }
}

// ---------------------------------------------------------------------------
// Locating the named keys
// ---------------------------------------------------------------------------

/// How many entries carry the name.
pub open spec fn count_named(entries: Seq<EntryView>, name: Seq<char>) -> nat
    decreases entries.len(),
{
    if entries.len() == 0 {
        0
    } else {
        count_named(entries.drop_last(), name) + if entries.last().name == name {
            1nat
        } else {
            0nat
        }
    }
}

fn occurrences(entries: &Vec<KeyEntry>, name: &String) -> (r: usize)
    ensures
        r == count_named(entry_views(entries@), name@),
{
    let ghost ev = entry_views(entries@);
    let mut n: usize = 0;
    let mut i: usize = 0;
    while i < entries.len()
        invariant
            0 <= i <= entries@.len(),
            ev == entry_views(entries@),
            n == count_named(ev.take(i as int), name@),
            n <= i,
        decreases entries@.len() - i,
    {
        proof {
            assert(ev.take(i + 1).drop_last() =~= ev.take(i as int));
            assert(ev.take(i + 1).last() == entries@[i as int]@);
        }
        if entries[i].name == *name {
            n = n + 1;
        }
        i = i + 1;
    }
    assert(ev.take(i as int) =~= ev);
    n
}

/// The refusal to edit a key.
pub open spec fn unlocatable(key: Seq<char>, reason: Seq<char>, note: Seq<char>) -> Seq<char> {
    "cannot edit key '"@ + key + "' in note '"@ + note + "': "@ + reason + "; "@ + FIX_IN_VAULT@
}

fn unlocatable_key(key: &str, reason: &[char], note: &str) -> (r: String)
    ensures
        r@ == unlocatable(key@, reason@, note@),
{
    let mut out = to_chars("cannot edit key '");
    push_str(&mut out, key);
    push_str(&mut out, "' in note '");
    push_str(&mut out, note);
    push_str(&mut out, "': ");
    push_all(&mut out, reason);
    push_str(&mut out, "; ");
    push_str(&mut out, FIX_IN_VAULT);
    from_chars(out.as_slice())
}

/// Why a named key is not edited: it is written more than once, or in a form
/// that only the YAML reader sees.
pub open spec fn key_refusal(
    key: Seq<char>,
    entries: Seq<EntryView>,
    original: Seq<(Seq<char>, Seq<char>)>,
    note: Seq<char>,
) -> Option<Seq<char>> {
    let n = count_named(entries, key);
    if n == 1 {
        None
    } else if n == 0 {
        if value_of(original, key) is Some {
            Some(
                unlocatable(key, "it is written in a form this tool cannot edit in place"@, note),
            )
        } else {
            None
        }
    } else {
        Some(
            unlocatable(
                key,
                "it appears "@ + decimal(n)
                    + " times in this note's frontmatter, so which one to change is ambiguous"@,
                note,
            ),
        )
    }
}

fn refuse_key(
    key: &String,
    entries: &Vec<KeyEntry>,
    original: &Vec<(String, String)>,
    note: &str,
) -> (r: Option<String>)
    ensures
        crate::text::opt_text(r) == key_refusal(
            key@,
            entry_views(entries@),
            pair_views(original@),
            note@,
        ),
{
    let n: usize = occurrences(entries, key);
    if n == 1 {
        None
    } else if n == 0 {
        if find_property(original, key).is_some() {
            let reason = to_chars("it is written in a form this tool cannot edit in place");
            Some(unlocatable_key(key.as_str(), reason.as_slice(), note))
        } else {
            None
        }
    } else {
        let mut reason = to_chars("it appears ");
        let digits = to_decimal(n as u128);
        push_all(&mut reason, digits.as_slice());
        push_str(
            &mut reason,
            " times in this note's frontmatter, so which one to change is ambiguous",
        );
        Some(unlocatable_key(key.as_str(), reason.as_slice(), note))
    }
}

/// The first refusal among the updates from `i` on.
pub open spec fn first_refusal(
    updates: Seq<(Seq<char>, Seq<char>)>,
    entries: Seq<EntryView>,
    original: Seq<(Seq<char>, Seq<char>)>,
    note: Seq<char>,
    i: int,
) -> Option<Seq<char>>
    decreases updates.len() - i,
{
    if i < 0 || i >= updates.len() {
        None
    } else {
        match key_refusal(updates[i].0, entries, original, note) {
            Some(message) => Some(message),
            None => first_refusal(updates, entries, original, note, i + 1),
        }
    }
}

// ---------------------------------------------------------------------------
// The new lines
// ---------------------------------------------------------------------------

/// Some line ends with a carriage return.
pub open spec fn has_carriage_returns(all: Seq<Seq<char>>) -> bool {
    exists|i: int|
        0 <= i < all.len() && (#[trigger] all[i]).len() > 0 && all[i].last() == '\r'
}

fn find_carriage_returns(all: &Vec<Vec<char>>) -> (r: bool)
    ensures
        r == has_carriage_returns(texts(all@)),
{
    let ghost av = texts(all@);
    let mut i: usize = 0;
    while i < all.len()
        invariant
            0 <= i <= all@.len(),
            av == texts(all@),
            forall|k: int| 0 <= k < i ==> !((#[trigger] av[k]).len() > 0 && av[k].last() == '\r'),
        decreases all@.len() - i,
    {
        let n: usize = all[i].len();
        assert(av[i as int] == all@[i as int]@);
        if n > 0 && all[i][n - 1] == '\r' {
            assert(av[i as int].last() == '\r');
            return true;
        }
        i = i + 1;
    }
    false
}

/// The lines, each with a carriage return behind it if the block has them.
pub open spec fn with_eol(all: Seq<Seq<char>>, crlf: bool) -> Seq<Seq<char>> {
    if crlf {
        Seq::new(all.len(), |i: int| all[i].push('\r'))
    } else {
        all
    }
}

fn add_eol(all: Vec<Vec<char>>, crlf: bool) -> (r: Vec<Vec<char>>)
    ensures
        texts(r@) == with_eol(texts(all@), crlf),
{
    if !crlf {
        return all;
    }
    let ghost want = with_eol(texts(all@), crlf);
    let mut out: Vec<Vec<char>> = Vec::new();
    let mut i: usize = 0;
    while i < all.len()
        invariant
            0 <= i <= all@.len(),
            want == with_eol(texts(all@), true),
            texts(out@) == want.take(i as int),
        decreases all@.len() - i,
    {
        let mut line = slice_to_vec(all[i].as_slice());
        line.push('\r');
        proof {
            lemma_texts_push(out@, line);
        }
        out.push(line);
        i = i + 1;
        assert(texts(out@) =~= want.take(i as int));
    }
    assert(texts(out@) =~= want);
    out
}

/// What happens to each key: a named one goes or gets its new lines, any other
/// stays.
pub open spec fn edits_for(
    entries: Seq<EntryView>,
    updates: Seq<(Seq<char>, Seq<char>)>,
    crlf: bool,
) -> Result<Seq<Option<Seq<Seq<char>>>>, Seq<char>>
    decreases entries.len(),
{
    if entries.len() == 0 {
        Ok(seq![])
    } else {
        let e = entries.last();
        match edits_for(entries.drop_last(), updates, crlf) {
            Err(m) => Err(m),
            Ok(prev) => match value_of(updates, e.name) {
                None => Ok(prev.push(None)),
                Some(json) => if is_null(json) {
                    Ok(prev.push(Some(seq![])))
                } else {
                    match layout(e.name, e.shape, Some(e.prefix), emitted(e.name, json)) {
                        Err(m) => Err(m),
                        Ok(new) => Ok(prev.push(Some(with_eol(new, crlf)))),
                    }
                },
            },
        }
    }
}

proof fn lemma_edits_error_stays(
    entries: Seq<EntryView>,
    updates: Seq<(Seq<char>, Seq<char>)>,
    crlf: bool,
    i: int,
)
    requires
        0 <= i <= entries.len(),
        edits_for(entries.take(i), updates, crlf) is Err,
    ensures
        edits_for(entries, updates, crlf) == edits_for(entries.take(i), updates, crlf),
    decreases entries.len() - i,
{
    if i < entries.len() {
        assert(entries.take(i + 1).drop_last() =~= entries.take(i));
        lemma_edits_error_stays(entries, updates, crlf, i + 1);
    } else {
        assert(entries.take(i) =~= entries);
    }
}

fn make_edits(entries: &Vec<KeyEntry>, updates: &Vec<(String, String)>, crlf: bool) -> (r: Result<
    Vec<KeyEdit>,
    String,
>)
    ensures
        match r {
            Ok(v) => v@.len() == entries@.len() && edits_for(
                entry_views(entries@),
                pair_views(updates@),
                crlf,
            ) == Ok::<Seq<Option<Seq<Seq<char>>>>, Seq<char>>(edit_views(v@)),
            Err(m) => edits_for(entry_views(entries@), pair_views(updates@), crlf) == Err::<
                Seq<Option<Seq<Seq<char>>>>,
                Seq<char>,
            >(m@),
        },
{
    let ghost ev = entry_views(entries@);
    let ghost uv = pair_views(updates@);
    let mut out: Vec<KeyEdit> = Vec::new();
    let mut i: usize = 0;
    assert(edit_views(out@) =~= seq![]);
    while i < entries.len()
        invariant
            0 <= i <= entries@.len(),
            ev == entry_views(entries@),
            uv == pair_views(updates@),
            out@.len() == i,
            edits_for(ev.take(i as int), uv, crlf) == Ok::<
                Seq<Option<Seq<Seq<char>>>>,
                Seq<char>,
            >(edit_views(out@)),
        decreases entries@.len() - i,
    {
        let entry = &entries[i];
        proof {
            assert(ev.take(i + 1).drop_last() =~= ev.take(i as int));
            assert(ev.take(i + 1).last() == entry@);
        }
        let ghost was = out@;
        let edit = match find_property(updates, &entry.name) {
            None => KeyEdit::Keep,
            Some(json) => if str_eq(json.as_str(), "null") {
                KeyEdit::Delete
            } else {
                match render_key(
                    entry.name.as_str(),
                    json.as_str(),
                    &entry.shape,
                    Some(&entry.prefix),
                ) {
                    Err(m) => {
                        proof {
                            lemma_edits_error_stays(ev, uv, crlf, i + 1);
                        }
                        return Err(m);
                    },
                    Ok(new) => KeyEdit::Replace(add_eol(new, crlf)),
                }
            },
        };
        out.push(edit);
        assert(edit_views(out@) =~= edit_views(was).push(edit_view(edit)));
        i = i + 1;
    }
    assert(ev.take(i as int) =~= ev);
    Ok(out)
}

/// The lines of the keys that the updates add.
pub open spec fn added_lines(
    updates: Seq<(Seq<char>, Seq<char>)>,
    entries: Seq<EntryView>,
    crlf: bool,
) -> Result<Seq<Seq<char>>, Seq<char>>
    decreases updates.len(),
{
    if updates.len() == 0 {
        Ok(seq![])
    } else {
        let (key, json) = updates.last();
        match added_lines(updates.drop_last(), entries, crlf) {
            Err(m) => Err(m),
            Ok(prev) => if count_named(entries, key) != 0 || is_null(json) {
                Ok(prev)
            } else {
                match layout(key, None, None, emitted(key, json)) {
                    Err(m) => Err(m),
                    Ok(new) => Ok(prev + with_eol(new, crlf)),
                }
            },
        }
    }
}

proof fn lemma_added_error_stays(
    updates: Seq<(Seq<char>, Seq<char>)>,
    entries: Seq<EntryView>,
    crlf: bool,
    i: int,
)
    requires
        0 <= i <= updates.len(),
        added_lines(updates.take(i), entries, crlf) is Err,
    ensures
        added_lines(updates, entries, crlf) == added_lines(updates.take(i), entries, crlf),
    decreases updates.len() - i,
{
    if i < updates.len() {
        assert(updates.take(i + 1).drop_last() =~= updates.take(i));
        lemma_added_error_stays(updates, entries, crlf, i + 1);
    } else {
        assert(updates.take(i) =~= updates);
    }
}

fn append_lines(out: &mut Vec<Vec<char>>, more: &Vec<Vec<char>>)
    ensures
        texts(final(out)@) == texts(old(out)@) + texts(more@),
{
    let ghost start = texts(out@);
    let mut i: usize = 0;
    assert(start + texts(more@).take(0) =~= start);
    while i < more.len()
        invariant
            0 <= i <= more@.len(),
            texts(out@) == start + texts(more@).take(i as int),
        decreases more@.len() - i,
    {
        let line = slice_to_vec(more[i].as_slice());
        proof {
            lemma_texts_push(out@, line);
        }
        out.push(line);
        i = i + 1;
        assert(texts(out@) =~= start + texts(more@).take(i as int));
    }
    assert(texts(more@).take(i as int) =~= texts(more@));
}

fn make_added(updates: &Vec<(String, String)>, entries: &Vec<KeyEntry>, crlf: bool) -> (r: Result<
    Vec<Vec<char>>,
    String,
>)
    ensures
        lines_result(r) == added_lines(pair_views(updates@), entry_views(entries@), crlf),
{
    let ghost uv = pair_views(updates@);
    let ghost ev = entry_views(entries@);
    let mut out: Vec<Vec<char>> = Vec::new();
    let mut i: usize = 0;
    assert(texts(out@) =~= seq![]);
    while i < updates.len()
        invariant
            0 <= i <= updates@.len(),
            uv == pair_views(updates@),
            ev == entry_views(entries@),
            added_lines(uv.take(i as int), ev, crlf) == Ok::<Seq<Seq<char>>, Seq<char>>(
                texts(out@),
            ),
        decreases updates@.len() - i,
    {
        proof {
            assert(uv.take(i + 1).drop_last() =~= uv.take(i as int));
            assert(uv.take(i + 1).last() == uv[i as int]);
        }
        let key = &updates[i].0;
        let json = &updates[i].1;
        let n: usize = occurrences(entries, key);
        if n == 0 && !str_eq(json.as_str(), "null") {
            match render_key(key.as_str(), json.as_str(), &ValueShape::NoBlockList, None) {
                Err(m) => {
                    proof {
                        lemma_added_error_stays(uv, ev, crlf, i + 1);
                    }
                    return Err(m);
                },
                Ok(new) => {
                    let lines = add_eol(new, crlf);
                    append_lines(&mut out, &lines);
                },
            }
        }
        i = i + 1;
    }
    assert(uv.take(i as int) =~= uv);
    Ok(out)
}

/// One past the last line that is not blank.
pub open spec fn content_end(all: Seq<Seq<char>>) -> int
    decreases all.len(),
{
    if all.len() == 0 {
        0
    } else if trim(all.last()).len() > 0 {
        all.len() as int
    } else {
        content_end(all.drop_last())
    }
}

fn find_content_end(all: &Vec<Vec<char>>) -> (r: usize)
    ensures
        r == content_end(texts(all@)),
        r <= all@.len(),
{
    let ghost av = texts(all@);
    let mut n: usize = all.len();
    assert(av.take(n as int) =~= av);
    while n > 0 && trimmed(all[n - 1].as_slice()).len() == 0
        invariant
            0 <= n <= all@.len(),
            av == texts(all@),
            content_end(av) == content_end(av.take(n as int)),
        decreases n,
    {
        assert(av.take(n as int).last() == all@[n - 1]@);
        assert(av.take(n as int).drop_last() =~= av.take(n - 1));
        n = n - 1;
    }
    proof {
        if n > 0 {
            assert(av.take(n as int).last() == all@[n - 1]@);
        }
    }
    n
}

/// The lines with the new ones behind the last that is not blank.
pub open spec fn with_added(all: Seq<Seq<char>>, new: Seq<Seq<char>>) -> Seq<Seq<char>> {
    all.take(content_end(all)) + new + all.skip(content_end(all))
}

fn insert_added(all: &Vec<Vec<char>>, new: &Vec<Vec<char>>) -> (r: Vec<Vec<char>>)
    ensures
        texts(r@) == with_added(texts(all@), texts(new@)),
{
    let ghost av = texts(all@);
    let at: usize = find_content_end(all);
    let mut out: Vec<Vec<char>> = Vec::new();
    let mut i: usize = 0;
    while i < at
        invariant
            0 <= i <= at <= all@.len(),
            av == texts(all@),
            texts(out@) == av.take(i as int),
        decreases at - i,
    {
        let line = slice_to_vec(all[i].as_slice());
        proof {
            lemma_texts_push(out@, line);
        }
        out.push(line);
        i = i + 1;
        assert(texts(out@) =~= av.take(i as int));
    }
    append_lines(&mut out, new);
    let ghost head = texts(out@);
    let mut j: usize = at;
    assert(texts(out@) =~= head + av.subrange(at as int, at as int));
    while j < all.len()
        invariant
            at <= j <= all@.len(),
            av == texts(all@),
            texts(out@) == head + av.subrange(at as int, j as int),
        decreases all@.len() - j,
    {
        let line = slice_to_vec(all[j].as_slice());
        proof {
            lemma_texts_push(out@, line);
        }
        out.push(line);
        j = j + 1;
        assert(texts(out@) =~= head + av.subrange(at as int, j as int));
    }
    assert(av.subrange(at as int, all@.len() as int) =~= av.skip(at as int));
    out
}

/// Some line holds only the block's closing marker.
pub open spec fn has_marker_line(all: Seq<Seq<char>>) -> bool {
    exists|i: int| 0 <= i < all.len() && trim_end(#[trigger] all[i]) == "---"@
}

fn find_marker_line(all: &Vec<Vec<char>>) -> (r: bool)
    ensures
        r == has_marker_line(texts(all@)),
{
    let ghost av = texts(all@);
    let marker = to_chars("---");
    let mut i: usize = 0;
    while i < all.len()
        invariant
            0 <= i <= all@.len(),
            av == texts(all@),
            marker@ == "---"@,
            forall|k: int| 0 <= k < i ==> trim_end(#[trigger] av[k]) != "---"@,
        decreases all@.len() - i,
    {
        assert(av[i as int] == all@[i as int]@);
        if chars_eq(trim_end_of(all[i].as_slice()), marker.as_slice()) {
            return true;
        }
        i = i + 1;
    }
    false
}

// ---------------------------------------------------------------------------
// The edit
// ---------------------------------------------------------------------------

/// What became of a block.
#[derive(Debug, Clone, PartialEq, Eq)]
pub enum FrontmatterEdit {
    /// The new inner text, without a line feed at its end.
    Block(String),
    /// Every key was deleted.
    Empty,
}

/// The lines of a block's inner text.
pub open spec fn block_lines(block: Seq<char>) -> Seq<Seq<char>> {
    if block.len() == 0 {
        seq![]
    } else {
        split(block, '\n')
    }
}

pub open spec fn invalid_block(note: Seq<char>) -> Seq<char> {
    "note '"@ + note + "' has invalid YAML frontmatter; "@ + FIX_IN_VAULT@
}

pub open spec fn unmergeable_block(note: Seq<char>) -> Seq<char> {
    "note '"@ + note
        + "' frontmatter could not be edited without changing keys that were not named; "@
        + FIX_IN_VAULT@
}

/// The new inner text of a block, `None` if no key is left, or why the block is
/// not edited: it is malformed, a named key cannot be located, a value cannot
/// be written, or the result does not read as the merge that was asked for.
pub open spec fn edited_block(
    block: Seq<char>,
    updates: Seq<(Seq<char>, Seq<char>)>,
    note: Seq<char>,
) -> Result<Option<Seq<char>>, Seq<char>> {
    let all = block_lines(block);
    let entries = entries_from(all, 0);
    let crlf = has_carriage_returns(all);
    match block_mapping(block) {
        None => Err(invalid_block(note)),
        Some(original) => match first_refusal(updates, entries, original, note, 0) {
            Some(message) => Err(message),
            None => if merges_to_nothing(original, updates) {
                Ok(None)
            } else {
                match edits_for(entries, updates, crlf) {
                    Err(m) => Err(m),
                    Ok(edits) => match added_lines(updates, entries, crlf) {
                        Err(m) => Err(m),
                        Ok(new) => {
                            let text = join(
                                with_added(edited_lines(all, entries, edits), new),
                                seq!['\n'],
                            );
                            if has_marker_line(split(text, '\n')) {
                                Err(
                                    "updated frontmatter values may not serialize a line containing only '---'"@,
                                )
                            } else if !reads_as_merge(block_mapping(text), original, updates) {
                                Err(unmergeable_block(note))
                            } else {
                                Ok(Some(text))
                            }
                        },
                    },
                }
            },
        },
    }
}

pub open spec fn edit_result(r: Result<FrontmatterEdit, WriteError>) -> Result<
    Option<Seq<char>>,
    ErrorView,
> {
    match r {
        Ok(FrontmatterEdit::Block(text)) => Ok(Some(text@)),
        Ok(FrontmatterEdit::Empty) => Ok(None),
        Err(e) => Err(e@),
    }
}

/// Applies the updates to a block's inner text, touching only the keys they
/// name. A null update deletes its key; a new key goes to the end.
pub fn edit_frontmatter_block(
    block: &str,
    updates: &Vec<(String, String)>,
    relative_path: &str,
) -> (r: Result<FrontmatterEdit, WriteError>)
    ensures
        edit_result(r) == (match edited_block(block@, pair_views(updates@), relative_path@) {
            Ok(text) => Ok::<Option<Seq<char>>, ErrorView>(text),
            Err(m) => Err::<Option<Seq<char>>, ErrorView>(ErrorView::InvalidInput(m)),
        }),
{
    let original = match read_block(block) {
        None => {
            let mut out = to_chars("note '");
            push_str(&mut out, relative_path);
            push_str(&mut out, "' has invalid YAML frontmatter; ");
            push_str(&mut out, FIX_IN_VAULT);
            return Err(WriteError::InvalidInput(from_chars(out.as_slice())));
        },
        Some(v) => v,
    };
    let chars = to_chars(block);
    let all: Vec<Vec<char>> = if chars.len() == 0 {
        Vec::new()
    } else {
        split_on(chars.as_slice(), '\n')
    };
    let ghost av = block_lines(block@);
    assert(texts(all@) =~= av);
    let entries = top_level_keys(&all);
    let ghost ev = entries_from(av, 0);
    let ghost ov = pair_views(original@);
    let ghost uv = pair_views(updates@);
    let mut i: usize = 0;
    while i < updates.len()
        invariant
            0 <= i <= updates@.len(),
            ev == entry_views(entries@),
            ov == pair_views(original@),
            uv == pair_views(updates@),
            av == block_lines(block@),
            ev == entries_from(av, 0),
            block_mapping(block@) == Some(ov),
            first_refusal(uv, ev, ov, relative_path@, 0) == first_refusal(
                uv,
                ev,
                ov,
                relative_path@,
                i as int,
            ),
        decreases updates@.len() - i,
    {
        assert(uv[i as int].0 == updates@[i as int].0@);
        match refuse_key(&updates[i].0, &entries, &original, relative_path) {
            Some(message) => {
                return Err(WriteError::InvalidInput(message));
            },
            None => {},
        }
        i = i + 1;
    }
    if is_merged_to_nothing(&original, updates) {
        return Ok(FrontmatterEdit::Empty);
    }
    let crlf = find_carriage_returns(&all);
    let edits = match make_edits(&entries, updates, crlf) {
        Err(m) => {
            return Err(WriteError::InvalidInput(m));
        },
        Ok(edits) => edits,
    };
    proof {
        found_keys_are_ordered(av, 0);
    }
    let output = apply_edits(&all, &entries, &edits);
    let new = match make_added(updates, &entries, crlf) {
        Err(m) => {
            return Err(WriteError::InvalidInput(m));
        },
        Ok(new) => new,
    };
    let whole = insert_added(&output, &new);
    let mut feed: Vec<char> = Vec::new();
    feed.push('\n');
    assert(feed@ =~= seq!['\n']);
    let text = joined(&whole, feed.as_slice());
    let back = split_on(text.as_slice(), '\n');
    if find_marker_line(&back) {
        return Err(
            WriteError::InvalidInput(
                str_owned(
                    "updated frontmatter values may not serialize a line containing only '---'",
                ),
            ),
        );
    }
    let edited = from_chars(text.as_slice());
    let read = read_block(edited.as_str());
    if !is_the_merge(&read, &original, updates) {
        let mut out = to_chars("note '");
        push_str(&mut out, relative_path);
        push_str(
            &mut out,
            "' frontmatter could not be edited without changing keys that were not named; ",
        );
        push_str(&mut out, FIX_IN_VAULT);
        return Err(WriteError::InvalidInput(from_chars(out.as_slice())));
    }
    Ok(FrontmatterEdit::Block(edited))
}

/// A block that was edited reads as the merge that was asked for: an updated
/// key has its new value, a deleted one is gone, any other has its old value.
pub proof fn edited_block_reads_as_the_merge(
    block: Seq<char>,
    updates: Seq<(Seq<char>, Seq<char>)>,
    note: Seq<char>,
    key: Seq<char>,
)
    requires
        edited_block(block, updates, note) is Ok,
        edited_block(block, updates, note)->Ok_0 is Some,
    ensures
        block_mapping(block) is Some,
        block_mapping((edited_block(block, updates, note)->Ok_0)->0) is Some,
        value_of(block_mapping((edited_block(block, updates, note)->Ok_0)->0)->0, key)
            == merged_value(block_mapping(block)->0, updates, key),
{
}

// ---------------------------------------------------------------------------
// What becomes of each key
// ---------------------------------------------------------------------------

/// A table gives a key the value that stands first for it, and none where none
/// stands.
pub proof fn first_value_counts(table: Seq<(Seq<char>, Seq<char>)>, key: Seq<char>, i: int)
    requires
        0 <= i <= table.len(),
        forall|j: int| 0 <= j < i ==> (#[trigger] table[j]).0 != key,
        i < table.len() ==> table[i].0 == key,
    ensures
        i < table.len() ==> value_of(table, key) == Some(table[i].1),
        i == table.len() ==> value_of(table, key) is None,
{
    lemma_value_at(table, key, 0, i);
}

proof fn lemma_value_at(table: Seq<(Seq<char>, Seq<char>)>, key: Seq<char>, from: int, i: int)
    requires
        0 <= from <= i <= table.len(),
        forall|j: int| 0 <= j < i ==> (#[trigger] table[j]).0 != key,
        i < table.len() ==> table[i].0 == key,
    ensures
        value_from(table, key, from) == (if i < table.len() {
            Some(table[i].1)
        } else {
            None
        }),
    decreases i - from,
{
    if from < i {
        lemma_value_at(table, key, from + 1, i);
    }
}

/// Every key of the block that the updates name is edited, and no other: one set
/// to null goes, and any other is laid out anew, in the shape and the spelling that
/// it has, with the line endings of the block.
pub proof fn each_key_is_edited_as_named(
    entries: Seq<EntryView>,
    updates: Seq<(Seq<char>, Seq<char>)>,
    crlf: bool,
)
    ensures
        edits_for(entries, updates, crlf) matches Ok(edits) ==> edits.len() == entries.len()
            && forall|k: int|
            0 <= k < entries.len() ==> {
                let e = #[trigger] entries[k];
                match value_of(updates, e.name) {
                    None => edits[k] is None,
                    Some(json) => if json == "null"@ {
                        edits[k] == Some(Seq::<Seq<char>>::empty())
                    } else {
                        layout(e.name, e.shape, Some(e.prefix), emitted(e.name, json)) matches Ok(
                            new,
                        ) && edits[k] is Some && edits[k]->0.len() == new.len() && forall|j: int|
                            0 <= j < new.len() ==> #[trigger] edits[k]->0[j] == (if crlf {
                                new[j].push('\r')
                            } else {
                                new[j]
                            })
                    },
                }
            },
    decreases entries.len(),
{
    if entries.len() > 0 {
        let front = entries.drop_last();
        let n = front.len() as int;
        each_key_is_edited_as_named(front, updates, crlf);
        if edits_for(entries, updates, crlf) is Ok {
            let edits = edits_for(entries, updates, crlf)->Ok_0;
            let prev = edits_for(front, updates, crlf)->Ok_0;
            assert forall|k: int| 0 <= k < entries.len() implies {
                let e = #[trigger] entries[k];
                match value_of(updates, e.name) {
                    None => edits[k] is None,
                    Some(json) => if json == "null"@ {
                        edits[k] == Some(Seq::<Seq<char>>::empty())
                    } else {
                        layout(e.name, e.shape, Some(e.prefix), emitted(e.name, json)) matches Ok(
                            new,
                        ) && edits[k] is Some && edits[k]->0.len() == new.len() && forall|j: int|
                            0 <= j < new.len() ==> #[trigger] edits[k]->0[j] == (if crlf {
                                new[j].push('\r')
                            } else {
                                new[j]
                            })
                    },
                }
            } by {
                if k < n {
                    assert(front[k] == entries[k]);
                    assert(edits[k] == prev[k]);
                }
            }
        }
    }
}

/// The updates add the lines of the keys that the block does not have, one key
/// behind the other. An update to null adds nothing, and neither does one of a key
/// that the block has.
#[verifier::rlimit(40)]
pub proof fn new_keys_are_added_in_order(
    a: Seq<(Seq<char>, Seq<char>)>,
    b: Seq<(Seq<char>, Seq<char>)>,
    entries: Seq<EntryView>,
    crlf: bool,
    key: Seq<char>,
    json: Seq<char>,
)
    ensures
        added_lines(a + b, entries, crlf) is Ok <==> added_lines(a, entries, crlf) is Ok
            && added_lines(b, entries, crlf) is Ok,
        added_lines(a + b, entries, crlf) is Ok ==> added_lines(a + b, entries, crlf)->Ok_0
            == added_lines(a, entries, crlf)->Ok_0 + added_lines(b, entries, crlf)->Ok_0,
        json == "null"@ || (exists|k: int| 0 <= k < entries.len() && (#[trigger] entries[k]).name == key)
            ==> added_lines(seq![(key, json)], entries, crlf) == Ok::<Seq<Seq<char>>, Seq<char>>(
            seq![],
        ),
    decreases b.len(),
{
    let one = seq![(key, json)];
    assert(one.drop_last() =~= seq![]);
    assert(one.last() == (key, json));
    assert(added_lines(one.drop_last(), entries, crlf) == Ok::<Seq<Seq<char>>, Seq<char>>(seq![]));
    if exists|k: int| 0 <= k < entries.len() && (#[trigger] entries[k]).name == key {
        keys_are_counted(entries, key);
    }
    if b.len() == 0 {
        assert(a + b =~= a);
        if added_lines(a, entries, crlf) is Ok {
            let lines = added_lines(a, entries, crlf)->Ok_0;
            assert(lines + Seq::<Seq<char>>::empty() =~= lines);
        }
    } else {
        new_keys_are_added_in_order(a, b.drop_last(), entries, crlf, key, json);
        assert((a + b).drop_last() =~= a + b.drop_last());
        assert((a + b).last() == b.last());
        if added_lines(a + b, entries, crlf) is Ok {
            let x = added_lines(a, entries, crlf)->Ok_0;
            let y = added_lines(b.drop_last(), entries, crlf)->Ok_0;
            let (last, value) = b.last();
            if count_named(entries, last) == 0 && !is_null(value) {
                let new = with_eol(layout(last, None, None, emitted(last, value))->Ok_0, crlf);
                assert(x + y + new =~= x + (y + new));
            }
        }
    }
}

/// A key is counted as often as it stands: never where none is named so, more
/// than once where two are, and once otherwise.
#[verifier::rlimit(40)]
pub proof fn keys_are_counted(entries: Seq<EntryView>, name: Seq<char>)
    ensures
        count_named(entries, name) == 0 <==> forall|k: int|
            0 <= k < entries.len() ==> (#[trigger] entries[k]).name != name,
        count_named(entries, name) > 1 <==> exists|j: int, k: int|
            0 <= j < k < entries.len() && (#[trigger] entries[j]).name == name && (
            #[trigger] entries[k]).name == name,
    decreases entries.len(),
{
    if entries.len() > 0 {
        let front = entries.drop_last();
        let n = front.len() as int;
        keys_are_counted(front, name);
        assert forall|k: int| 0 <= k < n implies #[trigger] front[k] == entries[k] by {}
        if count_named(front, name) > 0 {
            let k = choose|k: int| 0 <= k < front.len() && (#[trigger] front[k]).name == name;
            assert(entries[k].name == name);
            if entries[n].name == name {
                assert(entries[k].name == name && entries[n].name == name);
            }
        }
        if count_named(front, name) > 1 {
            let (j, k) = choose|j: int, k: int|
                0 <= j < k < front.len() && (#[trigger] front[j]).name == name && (
                #[trigger] front[k]).name == name;
            assert(entries[j].name == name && entries[k].name == name);
        }
        if exists|j: int, k: int|
            0 <= j < k < entries.len() && (#[trigger] entries[j]).name == name && (
            #[trigger] entries[k]).name == name {
            let (j, k) = choose|j: int, k: int|
                0 <= j < k < entries.len() && (#[trigger] entries[j]).name == name && (
                #[trigger] entries[k]).name == name;
            assert(front[j].name == name);
            if k < n {
                assert(front[k].name == name);
            }
        }
        if count_named(entries, name) == 0 {
            assert forall|k: int| 0 <= k < entries.len() implies (#[trigger] entries[k]).name
                != name by {
                if k < n {
                    assert(front[k].name != name);
                }
            }
        }
        if forall|k: int| 0 <= k < entries.len() ==> (#[trigger] entries[k]).name != name {
            assert(entries[n].name != name);
            assert forall|k: int| 0 <= k < n implies (#[trigger] front[k]).name != name by {
                assert(entries[k].name != name);
            }
        }
    }
}

/// A key can be edited unless it stands more than once, or has a value and stands
/// nowhere.
pub proof fn editable_keys(
    key: Seq<char>,
    entries: Seq<EntryView>,
    original: Seq<(Seq<char>, Seq<char>)>,
    note: Seq<char>,
)
    ensures
        key_refusal(key, entries, original, note) is Some <==> (exists|j: int, k: int|
            0 <= j < k < entries.len() && (#[trigger] entries[j]).name == key && (
            #[trigger] entries[k]).name == key) || (value_of(original, key) is Some && forall|k: int|
            0 <= k < entries.len() ==> (#[trigger] entries[k]).name != key),
{
    keys_are_counted(entries, key);
}

/// The updates are refused for the first key among them that cannot be edited.
pub proof fn first_uneditable_key_is_reported(
    updates: Seq<(Seq<char>, Seq<char>)>,
    entries: Seq<EntryView>,
    original: Seq<(Seq<char>, Seq<char>)>,
    note: Seq<char>,
    i: int,
)
    requires
        0 <= i <= updates.len(),
        forall|j: int|
            0 <= j < i ==> key_refusal((#[trigger] updates[j]).0, entries, original, note) is None,
        i < updates.len() ==> key_refusal(updates[i].0, entries, original, note) is Some,
    ensures
        first_refusal(updates, entries, original, note, 0) == (if i < updates.len() {
            key_refusal(updates[i].0, entries, original, note)
        } else {
            None
        }),
{
    lemma_first_refusal_at(updates, entries, original, note, 0, i);
}

proof fn lemma_first_refusal_at(
    updates: Seq<(Seq<char>, Seq<char>)>,
    entries: Seq<EntryView>,
    original: Seq<(Seq<char>, Seq<char>)>,
    note: Seq<char>,
    from: int,
    i: int,
)
    requires
        0 <= from <= i <= updates.len(),
        forall|j: int|
            0 <= j < i ==> key_refusal((#[trigger] updates[j]).0, entries, original, note) is None,
        i < updates.len() ==> key_refusal(updates[i].0, entries, original, note) is Some,
    ensures
        first_refusal(updates, entries, original, note, from) == (if i < updates.len() {
            key_refusal(updates[i].0, entries, original, note)
        } else {
            None
        }),
    decreases i - from,
{
    if from < i {
        lemma_first_refusal_at(updates, entries, original, note, from + 1, i);
    }
}

/// New lines go behind the last line that is not blank, and the blank lines at the
/// end stay at the end.
pub proof fn new_lines_go_behind_the_last_text(
    text: Seq<Seq<char>>,
    blank: Seq<Seq<char>>,
    new: Seq<Seq<char>>,
)
    requires
        text.len() > 0 ==> trim(text.last()).len() > 0,
        forall|i: int| 0 <= i < blank.len() ==> trim(#[trigger] blank[i]).len() == 0,
    ensures
        with_added(text + blank, new) == text + new + blank,
{
    let all = text + blank;
    let n = text.len() as int;
    lemma_content_end_is(text, blank);
    assert(all.take(n) =~= text);
    assert(all.skip(n) =~= blank);
}

proof fn lemma_content_end_is(text: Seq<Seq<char>>, blank: Seq<Seq<char>>)
    requires
        text.len() > 0 ==> trim(text.last()).len() > 0,
        forall|i: int| 0 <= i < blank.len() ==> trim(#[trigger] blank[i]).len() == 0,
    ensures
        content_end(text + blank) == text.len(),
    decreases blank.len(),
{
    let all = text + blank;
    if blank.len() == 0 {
        assert(all =~= text);
    } else {
        assert(all.last() == blank[blank.len() - 1]);
        assert(all.drop_last() =~= text + blank.drop_last());
        lemma_content_end_is(text, blank.drop_last());
    }
}

} // verus!
