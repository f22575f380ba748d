//! Association lists: the first entry of a key counts.

use vstd::prelude::*;

use crate::text::{lemma_strs_push, strs};
use crate::types::{slugs_of, NoteEntry};

verus! {

/// The first position at or after `i` that holds `key`, or the length.
pub open spec fn index_from(keys: Seq<Seq<char>>, key: Seq<char>, i: int) -> int
    decreases keys.len() - i,
{
    if i >= keys.len() {
        keys.len() as int
    } else if keys[i] == key {
        i
    } else {
        index_from(keys, key, i + 1)
    }
}

/// The first position that holds `key`, or the length.
pub open spec fn index_of(keys: Seq<Seq<char>>, key: Seq<char>) -> int {
    index_from(keys, key, 0)
}

pub proof fn lemma_index_from(keys: Seq<Seq<char>>, key: Seq<char>, i: int)
    requires
        0 <= i <= keys.len(),
    ensures
        i <= index_from(keys, key, i) <= keys.len(),
        index_from(keys, key, i) < keys.len() ==> keys[index_from(keys, key, i)] == key,
        forall|k: int| i <= k < index_from(keys, key, i) ==> keys[k] != key,
    decreases keys.len() - i,
{
    if i < keys.len() && keys[i] != key {
        lemma_index_from(keys, key, i + 1);
    }
}

/// A key is found if and only if it is there.
pub proof fn lemma_index_of(keys: Seq<Seq<char>>, key: Seq<char>)
    ensures
        0 <= index_of(keys, key) <= keys.len(),
        index_of(keys, key) < keys.len() <==> keys.contains(key),
        index_of(keys, key) < keys.len() ==> keys[index_of(keys, key)] == key,
{
    lemma_index_from(keys, key, 0);
}

/// The first components of a list of pairs.
pub open spec fn keys_of<V>(table: Seq<(String, V)>) -> Seq<Seq<char>> {
    Seq::new(table.len(), |i: int| table[i].0@)
}

/// What a table says of a key.
pub open spec fn lookup(table: Seq<(String, String)>, key: Seq<char>) -> Option<Seq<char>> {
    let i = index_of(keys_of(table), key);
    if i < table.len() {
        Some(table[i].1@)
    } else {
        None
    }
}

/// The list a table keeps for a key; an absent key has an empty one.
pub open spec fn lookup_list(table: Seq<(String, Vec<String>)>, key: Seq<char>) -> Seq<Seq<char>> {
    let i = index_of(keys_of(table), key);
    if i < table.len() {
        strs(table[i].1@)
    } else {
        seq![]
    }
}

pub fn find_key<V>(table: &Vec<(String, V)>, key: &String) -> (r: Option<usize>)
    ensures
        match r {
            Some(i) => i == index_of(keys_of(table@), key@) && i < table@.len(),
            None => index_of(keys_of(table@), key@) == table@.len(),
        },
{
    let mut i: usize = 0;
    while i < table.len()
        invariant
            0 <= i <= table@.len(),
            index_of(keys_of(table@), key@) == index_from(keys_of(table@), key@, i as int),
        decreases table@.len() - i,
    {
        if table[i].0 == *key {
            return Some(i);
        }
        i = i + 1;
    }
    None
}

pub fn find_value<'a>(table: &'a Vec<(String, String)>, key: &String) -> (r: Option<&'a String>)
    ensures
        match r {
            Some(v) => lookup(table@, key@) == Some(v@),
            None => lookup(table@, key@) is None,
        },
{
    match find_key(table, key) {
        Some(i) => Some(&table[i].1),
        None => None,
    }
}

/// The position of the first note with the slug.
pub fn find_note(notes: &Vec<NoteEntry>, slug: &String) -> (r: Option<usize>)
    ensures
        match r {
            Some(i) => i == index_of(slugs_of(notes@), slug@) && i < notes@.len(),
            None => index_of(slugs_of(notes@), slug@) == notes@.len(),
        },
{
    let mut i: usize = 0;
    while i < notes.len()
        invariant
            0 <= i <= notes@.len(),
            index_of(slugs_of(notes@), slug@) == index_from(slugs_of(notes@), slug@, i as int),
        decreases notes@.len() - i,
    {
        if notes[i].slug == *slug {
            return Some(i);
        }
        i = i + 1;
    }
    None
}

/// Whether `list` holds the string.
pub fn contains_string(list: &Vec<String>, x: &String) -> (r: bool)
    ensures
        r == strs(list@).contains(x@),
{
    let mut i: usize = 0;
    while i < list.len()
        invariant
            0 <= i <= list@.len(),
            forall|k: int| 0 <= k < i ==> (#[trigger] list@[k])@ != x@,
        decreases list@.len() - i,
    {
        if list[i] == *x {
            assert(strs(list@)[i as int] == x@);
            return true;
        }
        i = i + 1;
    }
    proof {
        if strs(list@).contains(x@) {
            let k = choose|k: int| 0 <= k < strs(list@).len() && strs(list@)[k] == x@;
            assert(list@[k]@ == x@);
        }
    }
    false
}

pub fn clone_strings(list: &Vec<String>) -> (r: Vec<String>)
    ensures
        strs(r@) == strs(list@),
{
    let mut out: Vec<String> = Vec::new();
    let mut i: usize = 0;
    while i < list.len()
        invariant
            0 <= i <= list@.len(),
            strs(out@) == strs(list@).take(i as int),
        decreases list@.len() - i,
    {
        let s = list[i].clone();
        proof {
            lemma_strs_push(out@, s);
        }
        out.push(s);
        i = i + 1;
        assert(strs(out@) =~= strs(list@).take(i as int));
    }
    assert(strs(list@).take(i as int) =~= strs(list@));
    out
}

/// What reading a note's file gave.
#[derive(Debug, PartialEq, Eq)]
pub struct NoteBody {
    pub slug: String,
    /// The text, or why it could not be read.
    pub text: Result<String, String>,
}

pub open spec fn body_slugs(bodies: Seq<NoteBody>) -> Seq<Seq<char>> {
    Seq::new(bodies.len(), |i: int| bodies[i].slug@)
}

/// The text of a note, or why there is none. A note that was not read at all
/// has no text and no reason.
pub open spec fn body_of(bodies: Seq<NoteBody>, slug: Seq<char>) -> Result<Seq<char>, Seq<char>> {
    let i = index_of(body_slugs(bodies), slug);
    if i < bodies.len() {
        match bodies[i].text {
            Ok(t) => Ok(t@),
            Err(e) => Err(e@),
        }
    } else {
        Err(Seq::<char>::empty())
    }
}

pub fn find_body(bodies: &Vec<NoteBody>, slug: &String) -> (r: Result<String, String>)
    ensures
        match r {
            Ok(t) => body_of(bodies@, slug@) == Ok::<Seq<char>, Seq<char>>(t@),
            Err(e) => body_of(bodies@, slug@) == Err::<Seq<char>, Seq<char>>(e@),
        },
{
    let mut i: usize = 0;
    while i < bodies.len()
        invariant
            0 <= i <= bodies@.len(),
            index_of(body_slugs(bodies@), slug@) == index_from(body_slugs(bodies@), slug@, i as int),
        decreases bodies@.len() - i,
    {
        if bodies[i].slug == *slug {
            return match &bodies[i].text {
                Ok(t) => Ok(t.clone()),
                Err(e) => Err(e.clone()),
            };
        }
        i = i + 1;
    }
    Err(String::new())
}

} // verus!
