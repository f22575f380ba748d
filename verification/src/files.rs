//! What the file system says of paths, and paths from one file to another.

use vstd::prelude::*;
use vstd::slice::slice_to_vec;

use crate::assets::{
    collapse_from, count_shared, folder_parts, lemma_shared_parts, parent_parts, plain_part,
    resolved_parts, resolved_path, shared_parts, split_parent,
};
use crate::paths::{
    first_free, fresh_name, fresh_name_is_free, make_fresh_name, name_stem, named_parts,
    named_parts_of_two_lists, numbered, taken_name_gets_a_number,
};
use crate::text::{
    after_last, chars_eq, decimal, find_last_start, from_chars, has_prefix, join, joined,
    last_start, lemma_decimal_digits, lemma_last_start, lemma_next_char, lemma_strs_push,
    lemma_texts_push, next_char, nonempty, opt_text, pieces_end_at_separators, pieces_of_two_texts,
    prefix_of, push_all, split, split_from, split_nonempty, split_on, starts_with, str_eq, strs,
    suffix_of, texts, to_chars, two_lists_are_joined,
};

verus! {

/// The folder that deleted files go to.
pub const TRASH_DIR: &'static str = ".hatchdoor-trash";

// ---------------------------------------------------------------------------
// Facts
// ---------------------------------------------------------------------------

/// What the file system says of one path that exists.
#[derive(Debug, Clone, PartialEq, Eq)]
pub struct FileFact {
    /// The path as it is asked for, from the vault root.
    pub path: String,
    pub is_file: bool,
    /// The vault-relative path of the file it leads to, with every link
    /// followed; `None` outside the vault.
    pub resolved: Option<String>,
}

/// What a [`FileFact`] says.
pub struct FactView {
    pub path: Seq<char>,
    pub is_file: bool,
    pub resolved: Option<Seq<char>>,
}

impl View for FileFact {
    type V = FactView;

    open spec fn view(&self) -> FactView {
        FactView { path: self.path@, is_file: self.is_file, resolved: opt_text(self.resolved) }
    }
}

/// The first fact about a path from `i` on, if the path exists.
pub open spec fn fact_from(facts: Seq<FileFact>, path: Seq<char>, i: int) -> Option<FactView>
    decreases facts.len() - i,
{
    if i < 0 || i >= facts.len() {
        None
    } else if facts[i].path@ == path {
        Some(facts[i]@)
    } else {
        fact_from(facts, path, i + 1)
    }
}

/// What is known of a path; `None` if nothing is there.
pub open spec fn fact_of(facts: Seq<FileFact>, path: Seq<char>) -> Option<FactView> {
    fact_from(facts, path, 0)
}

/// A path is known if and only if a fact is about it, and the first such fact counts.
pub proof fn first_fact_counts(facts: Seq<FileFact>, path: Seq<char>, i: int)
    requires
        0 <= i <= facts.len(),
    ensures
        match fact_from(facts, path, i) {
            Some(fact) => exists|k: int|
                {
                    &&& i <= k < facts.len()
                    &&& (#[trigger] facts[k]).path@ == path
                    &&& facts[k]@ == fact
                    &&& forall|j: int| i <= j < k ==> (#[trigger] facts[j]).path@ != path
                },
            None => forall|k: int| i <= k < facts.len() ==> (#[trigger] facts[k]).path@ != path,
        },
    decreases facts.len() - i,
{
    if i < facts.len() {
        if facts[i].path@ == path {
            assert(facts[i]@ == fact_from(facts, path, i)->0);
        } else {
            first_fact_counts(facts, path, i + 1);
            if fact_from(facts, path, i + 1) is Some {
                let fact = fact_from(facts, path, i + 1)->0;
                let k = choose|k: int|
                    {
                        &&& i + 1 <= k < facts.len()
                        &&& (#[trigger] facts[k]).path@ == path
                        &&& facts[k]@ == fact
                        &&& forall|j: int| i + 1 <= j < k ==> (#[trigger] facts[j]).path@ != path
                    };
                assert(facts[k]@ == fact);
            }
        }
    }
}

pub fn find_fact<'a>(facts: &'a Vec<FileFact>, path: &[char]) -> (r: Option<&'a FileFact>)
    ensures
        match r {
            Some(fact) => fact_of(facts@, path@) == Some(fact@),
            None => fact_of(facts@, path@) is None,
        },
{
    let text = from_chars(path);
    let mut i: usize = 0;
    while i < facts.len()
        invariant
            0 <= i <= facts@.len(),
            text@ == path@,
            fact_of(facts@, path@) == fact_from(facts@, path@, i as int),
        decreases facts@.len() - i,
    {
        if facts[i].path == text {
            return Some(&facts[i]);
        }
        i = i + 1;
    }
    None
}

/// Both paths exist and lead to the same file of the vault.
pub open spec fn same_file(facts: Seq<FileFact>, a: Seq<char>, b: Seq<char>) -> bool {
    match (fact_of(facts, a), fact_of(facts, b)) {
        (Some(x), Some(y)) => x.resolved is Some && x.resolved == y.resolved,
        _ => false,
    }
}

pub fn is_same_file(facts: &Vec<FileFact>, a: &[char], b: &[char]) -> (r: bool)
    ensures
        r == same_file(facts@, a@, b@),
{
    match (find_fact(facts, a), find_fact(facts, b)) {
        (Some(x), Some(y)) => match (&x.resolved, &y.resolved) {
            (Some(p), Some(q)) => str_eq(p.as_str(), q.as_str()),
            _ => false,
        },
        _ => false,
    }
}

/// The paths that exist.
pub open spec fn existing(facts: Seq<FileFact>) -> Seq<Seq<char>> {
    Seq::new(facts.len(), |i: int| facts[i].path@)
}

fn list_existing(facts: &Vec<FileFact>) -> (r: Vec<String>)
    ensures
        strs(r@) == existing(facts@),
{
    let mut out: Vec<String> = Vec::new();
    let mut i: usize = 0;
    while i < facts.len()
        invariant
            0 <= i <= facts@.len(),
            strs(out@) == existing(facts@).take(i as int),
        decreases facts@.len() - i,
    {
        let path = facts[i].path.clone();
        proof {
            lemma_strs_push(out@, path);
        }
        out.push(path);
        i = i + 1;
        assert(strs(out@) =~= existing(facts@).take(i as int));
    }
    assert(existing(facts@).take(i as int) =~= existing(facts@));
    out
}

// ---------------------------------------------------------------------------
// Folders and files
// ---------------------------------------------------------------------------

/// The folder of a path, without the separator; empty at the vault root.
pub open spec fn dir_text(path: Seq<char>) -> Seq<char> {
    if last_start(path, '/') == 0 {
        seq![]
    } else {
        path.take(last_start(path, '/') - 1)
    }
}

/// The folder of a file is what stands before the last slash of its path; a path without
/// one is in the vault root. A name read from a folder stands in it.
pub proof fn folder_is_what_precedes_the_name(dir: Seq<char>, name: Seq<char>)
    requires
        !name.contains('/'),
    ensures
        dir_text(dir + seq!['/'] + name) == dir,
        dir_text(name) == Seq::<char>::empty(),
        dir_text(join_path(dir, name)) == dir,
        join_path(seq![], name) == name,
        dir.len() > 0 ==> join_path(dir, name) == dir + seq!['/'] + name,
{
    let path = dir + seq!['/'] + name;
    lemma_last_start(path, '/');
    lemma_last_start(name, '/');
    assert forall|k: int| 0 <= k < name.len() implies name[k] != '/' by {
        assert(name.contains(name[k]));
    }
    let k = last_start(path, '/');
    let n = dir.len() as int;
    assert(path[n] == '/');
    if k > n + 1 {
        assert(path[k - 1] == name[k - 1 - n - 1]);
    }
    assert(path.take(n) =~= dir);
    if last_start(name, '/') > 0 {
        assert(name[last_start(name, '/') - 1] == '/');
    }
    if dir.len() == 0 {
        assert(dir =~= seq![]);
    }
}

pub fn dir_of(path: &[char]) -> (r: &[char])
    ensures
        r@ == dir_text(path@),
{
    let k: usize = find_last_start(path, '/');
    if k == 0 {
        assert(path@.take(0) =~= seq![]);
        prefix_of(path, 0)
    } else {
        prefix_of(path, k - 1)
    }
}

/// `name` read from the folder `dir`, with nothing followed.
pub open spec fn join_path(dir: Seq<char>, name: Seq<char>) -> Seq<char> {
    if dir.len() == 0 {
        name
    } else {
        dir + seq!['/'] + name
    }
}

pub fn path_joined(dir: &[char], name: &[char]) -> (r: Vec<char>)
    ensures
        r@ == join_path(dir@, name@),
{
    if dir.len() == 0 {
        slice_to_vec(name)
    } else {
        let mut out = slice_to_vec(dir);
        out.push('/');
        push_all(&mut out, name);
        out
    }
}

/// The path as its parts, in the form in which two spellings of one path
/// agree: empty parts and inner `.` are dropped, a leading `.` counts.
pub open spec fn path_form(p: Seq<char>) -> Seq<Seq<char>> {
    let parts = split(p, '/');
    let rest = named_parts(parts);
    if parts[0] == seq!['.'] {
        seq![seq!['.']] + rest
    } else {
        rest
    }
}

/// Both texts spell the same path.
pub open spec fn same_path(a: Seq<char>, b: Seq<char>) -> bool {
    path_form(a) == path_form(b)
}

fn make_path_form(p: &[char]) -> (r: Vec<Vec<char>>)
    ensures
        texts(r@) == path_form(p@),
{
    let parts = split_on(p, '/');
    let ghost pv = split(p@, '/');
    let dot = to_chars(".");
    proof {
        reveal_strlit(".");
        assert(dot@ =~= seq!['.']);
        assert(texts(parts@)[0] == parts@[0]@);
    }
    let leading = chars_eq(parts[0].as_slice(), dot.as_slice());
    let mut out: Vec<Vec<char>> = Vec::new();
    if leading {
        out.push(slice_to_vec(dot.as_slice()));
    }
    let ghost head = texts(out@);
    assert(head =~= if leading {
        seq![seq!['.']]
    } else {
        seq![]
    });
    let mut i: usize = 0;
    assert(texts(out@) =~= head + named_parts(pv.take(0)));
    while i < parts.len()
        invariant
            0 <= i <= parts@.len(),
            texts(parts@) == pv,
            dot@ == seq!['.'],
            texts(out@) == head + named_parts(pv.take(i as int)),
        decreases parts@.len() - i,
    {
        proof {
            assert(pv.take(i + 1).drop_last() =~= pv.take(i as int));
            assert(pv.take(i + 1).last() == texts(parts@)[i as int]);
        }
        let ghost was = out@;
        if parts[i].len() > 0 && !chars_eq(parts[i].as_slice(), dot.as_slice()) {
            let piece = slice_to_vec(parts[i].as_slice());
            proof {
                lemma_texts_push(out@, piece);
            }
            out.push(piece);
        }
        assert(texts(out@) =~= head + named_parts(pv.take(i + 1)));
        i = i + 1;
    }
    assert(pv.take(i as int) =~= pv);
    assert(texts(out@) =~= path_form(p@));
    out
}

pub fn is_same_path(a: &[char], b: &[char]) -> (r: bool)
    ensures
        r == same_path(a@, b@),
{
    let x = make_path_form(a);
    let y = make_path_form(b);
    if x.len() != y.len() {
        assert(texts(x@).len() != texts(y@).len());
        return false;
    }
    let shared: usize = count_shared(&x, &y);
    proof {
        lemma_shared_parts(texts(x@), texts(y@));
        lemma_shared_all(texts(x@), texts(y@));
    }
    shared == x.len()
}

proof fn lemma_shared_all(a: Seq<Seq<char>>, b: Seq<Seq<char>>)
    requires
        a.len() == b.len(),
    ensures
        shared_parts(a, b) == a.len() <==> a == b,
    decreases a.len(),
{
    lemma_shared_parts(a, b);
    if a == b {
        if a.len() > 0 {
            lemma_shared_all(a.skip(1), b.skip(1));
        }
    } else if shared_parts(a, b) == a.len() {
        assert(a.take(a.len() as int) =~= a);
        assert(b.take(b.len() as int) =~= b);
    }
}

// ---------------------------------------------------------------------------
// From one file to another
// ---------------------------------------------------------------------------

/// `n` times `..`.
pub open spec fn ups(n: nat) -> Seq<Seq<char>> {
    Seq::new(n, |i: int| seq!['.', '.'])
}

/// The parts of the path that leads from a folder to a file: up to the nearest
/// common folder, then down.
pub open spec fn link_parts(folder: Seq<Seq<char>>, file: Seq<Seq<char>>) -> Seq<Seq<char>> {
    let shared = if file.len() == 0 {
        0
    } else {
        shared_parts(folder, file.drop_last())
    };
    ups((folder.len() - shared) as nat) + file.skip(shared as int)
}

/// The path by which a note refers to a file.
pub open spec fn relative_link(note: Seq<char>, file: Seq<char>) -> Seq<char> {
    join(link_parts(parent_parts(note), folder_parts(file)), seq!['/'])
}

pub fn relative_link_target(note: &[char], file: &[char]) -> (r: Vec<char>)
    ensures
        r@ == relative_link(note@, file@),
{
    let folder = split_parent(note);
    let parts = split_nonempty(file, '/');
    let above = split_parent(file);
    let shared: usize = count_shared(&folder, &above);
    let ghost fv = texts(folder@);
    let ghost pv = texts(parts@);
    proof {
        if pv.len() == 0 {
            assert(texts(above@) =~= seq![]);
        }
        lemma_shared_parts(fv, texts(above@));
    }
    let mut out: Vec<Vec<char>> = Vec::new();
    let mut i: usize = shared;
    assert(texts(out@) =~= ups(0));
    while i < folder.len()
        invariant
            shared <= i <= folder@.len(),
            texts(out@) == ups((i - shared) as nat),
        decreases folder@.len() - i,
    {
        let dots = to_chars("..");
        proof {
            reveal_strlit("..");
            assert(dots@ =~= seq!['.', '.']);
            lemma_texts_push(out@, dots);
        }
        out.push(dots);
        i = i + 1;
        assert(texts(out@) =~= ups((i - shared) as nat));
    }
    let ghost head = texts(out@);
    let mut j: usize = shared;
    assert(texts(out@) =~= head + pv.subrange(shared as int, shared as int));
    while j < parts.len()
        invariant
            shared <= j <= parts@.len(),
            pv == texts(parts@),
            texts(out@) == head + pv.subrange(shared as int, j as int),
        decreases parts@.len() - j,
    {
        let piece = slice_to_vec(parts[j].as_slice());
        proof {
            lemma_texts_push(out@, piece);
        }
        out.push(piece);
        j = j + 1;
        assert(texts(out@) =~= head + pv.subrange(shared as int, j as int));
    }
    assert(texts(out@) =~= link_parts(parent_parts(note@), folder_parts(file@)));
    let mut slash: Vec<char> = Vec::new();
    slash.push('/');
    assert(slash@ =~= seq!['/']);
    joined(&out, slash.as_slice())
}

proof fn lemma_split_shift(s: Seq<char>, b: Seq<char>, off: int, k: int, c: char)
    requires
        0 <= off,
        off + b.len() == s.len(),
        s.skip(off) == b,
        0 <= k <= b.len(),
    ensures
        split_from(s, off + k, c) == split_from(b, k, c),
    decreases b.len() - k,
{
    assert forall|i: int| 0 <= i < b.len() implies b[i] == s[off + i] by {
        assert(s.skip(off)[i] == s[off + i]);
    }
    lemma_next_shift(s, b, off, k, c);
    lemma_next_char(b, k, c);
    let j = next_char(b, k, c);
    if j < b.len() {
        lemma_split_shift(s, b, off, j + 1, c);
        assert(s.subrange(off + k, off + j) =~= b.subrange(k, j));
    } else {
        assert(s.skip(off + k) =~= b.skip(k));
    }
}

proof fn lemma_next_shift(s: Seq<char>, b: Seq<char>, off: int, k: int, c: char)
    requires
        0 <= off,
        off + b.len() == s.len(),
        forall|i: int| 0 <= i < b.len() ==> b[i] == s[off + i],
        0 <= k <= b.len(),
    ensures
        next_char(s, off + k, c) == off + next_char(b, k, c),
    decreases b.len() - k,
{
    if k < b.len() && b[k] != c {
        lemma_next_shift(s, b, off, k + 1, c);
    }
}

proof fn lemma_next_prefix(a: Seq<char>, b: Seq<char>, i: int, c: char)
    requires
        0 <= i <= a.len(),
    ensures
        next_char(a + seq![c] + b, i, c) == next_char(a, i, c),
    decreases a.len() - i,
{
    let s = a + seq![c] + b;
    if i < a.len() {
        assert(s[i] == a[i]);
        if a[i] != c {
            lemma_next_prefix(a, b, i + 1, c);
        }
    } else {
        assert(s[i] == c);
    }
}

/// Cutting a concatenation at its separator cuts both sides.
proof fn lemma_split_concat(a: Seq<char>, b: Seq<char>, i: int, c: char)
    requires
        0 <= i <= a.len(),
    ensures
        split_from(a + seq![c] + b, i, c) == split_from(a, i, c) + split(b, c),
    decreases a.len() - i,
{
    let s = a + seq![c] + b;
    lemma_next_prefix(a, b, i, c);
    lemma_next_char(a, i, c);
    let j = next_char(a, i, c);
    if j < a.len() {
        lemma_split_concat(a, b, j + 1, c);
        assert(s.subrange(i, j) =~= a.subrange(i, j));
        assert(split_from(s, i, c) =~= split_from(a, i, c) + split(b, c));
    } else {
        assert(s.subrange(i, j) =~= a.skip(i));
        assert(s.skip(a.len() as int + 1) =~= b);
        lemma_split_shift(s, b, a.len() as int + 1, 0, c);
        assert(split_from(s, i, c) =~= split_from(a, i, c) + split(b, c));
    }
}

proof fn lemma_split_whole(a: Seq<char>, c: char)
    requires
        !a.contains(c),
    ensures
        split(a, c) == seq![a],
{
    lemma_next_char(a, 0, c);
    let j = next_char(a, 0, c);
    if j < a.len() {
        assert(a.contains(a[j]));
    }
    assert(a.skip(0) =~= a);
}

/// Joining parts that hold no separator and cutting again gives the parts.
pub proof fn split_undoes_join(parts: Seq<Seq<char>>, c: char)
    requires
        parts.len() > 0,
        forall|i: int| 0 <= i < parts.len() ==> !(#[trigger] parts[i]).contains(c),
    ensures
        split(join(parts, seq![c]), c) == parts,
    decreases parts.len(),
{
    if parts.len() == 1 {
        lemma_split_whole(parts[0], c);
        assert(parts =~= seq![parts[0]]);
    } else {
        let front = parts.drop_last();
        assert forall|i: int| 0 <= i < front.len() implies !(#[trigger] front[i]).contains(c) by {
            assert(front[i] == parts[i]);
        }
        split_undoes_join(front, c);
        lemma_split_whole(parts.last(), c);
        lemma_split_concat(join(front, seq![c]), parts.last(), 0, c);
        assert(parts =~= front + seq![parts.last()]);
    }
}

/// Going up `n` folders and then down.
proof fn lemma_collapse_up(stack: Seq<Seq<char>>, n: nat, down: Seq<Seq<char>>, i: int)
    requires
        0 <= i <= n,
        n - i <= stack.len(),
        forall|k: int| 0 <= k < down.len() ==> plain_part(#[trigger] down[k]),
    ensures
        collapse_from(stack, ups(n) + down, i) == Some(stack.take(stack.len() - (n - i)) + down),
    decreases n - i,
{
    let parts = ups(n) + down;
    if i < n {
        assert(parts[i] == seq!['.', '.']);
        assert(seq!['.', '.'][1] == '.');
        assert(seq!['.', '.'].len() == 2);
        lemma_collapse_up(stack.drop_last(), n, down, i + 1);
        let m = stack.len() - (n - i);
        assert(stack.drop_last().take(m) =~= stack.take(m));
    } else {
        lemma_collapse_down(stack, parts, i);
        assert(parts.skip(i) =~= down);
        assert(stack.take(stack.len() as int) =~= stack);
    }
}

proof fn lemma_collapse_down(stack: Seq<Seq<char>>, parts: Seq<Seq<char>>, i: int)
    requires
        0 <= i <= parts.len(),
        forall|k: int| i <= k < parts.len() ==> plain_part(#[trigger] parts[k]),
    ensures
        collapse_from(stack, parts, i) == Some(stack + parts.skip(i)),
    decreases parts.len() - i,
{
    if i < parts.len() {
        assert(plain_part(parts[i]));
        lemma_collapse_down(stack.push(parts[i]), parts, i + 1);
        assert(stack.push(parts[i]) + parts.skip(i + 1) =~= stack + parts.skip(i));
    } else {
        assert(stack + parts.skip(i) =~= stack);
    }
}

/// A part that names something and holds no separator.
pub open spec fn clean_part(p: Seq<char>) -> bool {
    plain_part(p) && !p.contains('/')
}

/// The link from a note's folder to a file, followed from that folder, leads to
/// the file.
pub proof fn relative_link_leads_to_the_file(folder: Seq<Seq<char>>, file: Seq<Seq<char>>)
    requires
        file.len() > 0,
        forall|k: int| 0 <= k < file.len() ==> clean_part(#[trigger] file[k]),
    ensures
        collapse_from(folder, split(join(link_parts(folder, file), seq!['/']), '/'), 0) == Some(
            file,
        ),
{
    let shared = shared_parts(folder, file.drop_last());
    lemma_shared_parts(folder, file.drop_last());
    let n = (folder.len() - shared) as nat;
    let down = file.skip(shared as int);
    let parts = link_parts(folder, file);
    assert forall|k: int| 0 <= k < parts.len() implies !(#[trigger] parts[k]).contains('/') by {
        if k < n {
            assert(parts[k] == seq!['.', '.']);
            assert(parts[k][0] == '.' && parts[k][1] == '.');
        } else {
            assert(parts[k] == file[shared + (k - n)]);
        }
    }
    split_undoes_join(parts, '/');
    assert forall|k: int| 0 <= k < down.len() implies plain_part(#[trigger] down[k]) by {
        assert(down[k] == file[shared + k]);
    }
    lemma_collapse_up(folder, n, down, 0);
    let m = shared as int;
    assert(folder.take(m) =~= file.drop_last().take(m));
    assert(folder.take(m) + down =~= file);
}

// ---------------------------------------------------------------------------
// The trash
// ---------------------------------------------------------------------------

/// The path stands in the trash, or is it.
pub open spec fn in_trash(path: Seq<char>) -> bool {
    path == TRASH_DIR@ || starts_with(path, TRASH_DIR@ + seq!['/'])
}

pub fn is_in_trash(path: &[char]) -> (r: bool)
    ensures
        r == in_trash(path@),
{
    let dir = to_chars(TRASH_DIR);
    let mut prefix = slice_to_vec(dir.as_slice());
    prefix.push('/');
    assert(prefix@ =~= TRASH_DIR@ + seq!['/']);
    chars_eq(path, dir.as_slice()) || has_prefix(path, prefix.as_slice())
}

/// Where the extension of a path's file name starts, its dot included, or the
/// length.
pub open spec fn extension_start(path: Seq<char>) -> int {
    last_start(path, '/') + name_stem(after_last(path, '/')).len()
}

/// The free path in the trash for a file: its own path, or one with a number
/// before the extension.
pub open spec fn trash_file(taken: Seq<Seq<char>>, path: Seq<char>) -> Seq<char> {
    fresh_name(
        taken,
        TRASH_DIR@ + seq!['/'] + path.take(extension_start(path)),
        path.skip(extension_start(path)),
    )
}

/// A file goes to the trash under its own path. Where that is taken, a dash and a number
/// from 2 on stand before the extension of its name, or at the end of a name without one.
#[verifier::rlimit(40)]
pub proof fn trashed_file_keeps_its_path(
    taken: Seq<Seq<char>>,
    dir: Seq<char>,
    stem: Seq<char>,
    ext: Seq<char>,
)
    requires
        stem.len() > 0,
        !stem.contains('/'),
        !ext.contains('/'),
        !ext.contains('.'),
    ensures
        ({
            let path = dir + seq!['/'] + stem + seq!['.'] + ext;
            let own = ".hatchdoor-trash/"@ + path;
            &&& !taken.contains(own) ==> trash_file(taken, path) == own
            &&& taken.contains(own) ==> exists|k: nat|
                2 <= k && trash_file(taken, path) == ".hatchdoor-trash/"@ + dir + seq!['/'] + stem
                    + "-"@ + #[trigger] decimal(k) + seq!['.'] + ext
        }),
        !taken.contains(trash_file(taken, dir + seq!['/'] + stem + seq!['.'] + ext)),
{
    reveal_strlit(".hatchdoor-trash");
    reveal_strlit(".hatchdoor-trash/");
    reveal_strlit("-");
    let path = dir + seq!['/'] + stem + seq!['.'] + ext;
    let name = stem + seq!['.'] + ext;
    let n = dir.len() as int + 1;
    assert(!name.contains('/')) by {
        if name.contains('/') {
            let k = choose|k: int| 0 <= k < name.len() && name[k] == '/';
            if k < stem.len() {
                assert(stem[k] == '/');
            } else if k > stem.len() {
                assert(ext[k - stem.len() - 1] == '/');
            }
        }
    }
    lemma_last_start(path, '/');
    assert(path =~= dir + seq!['/'] + name);
    assert(path[n - 1] == '/');
    assert forall|k: int| n <= k < path.len() implies path[k] != '/' by {
        assert(path[k] == name[k - n]);
        assert(name.contains(name[k - n]));
    }
    assert(last_start(path, '/') == n);
    assert(path.skip(n) =~= name);
    lemma_last_start(name, '.');
    let m = stem.len() as int;
    assert(name[m] == '.');
    assert forall|k: int| m < k < name.len() implies name[k] != '.' by {
        assert(ext.contains(ext[k - m - 1]));
    }
    assert(last_start(name, '.') == m + 1);
    assert(name_stem(name).len() == m);
    let cut = n + m;
    let head = TRASH_DIR@ + seq!['/'] + path.take(cut);
    let tail = path.skip(cut);
    assert(TRASH_DIR@ + seq!['/'] =~= ".hatchdoor-trash/"@);
    assert(path.take(cut) =~= dir + seq!['/'] + stem);
    assert(tail =~= seq!['.'] + ext);
    assert(head + tail =~= ".hatchdoor-trash/"@ + path);
    taken_name_gets_a_number(taken, head, tail);
    fresh_name_is_free(taken, head, tail);
    if taken.contains(head + tail) {
        let k = choose|k: nat|
            2 <= k && fresh_name(taken, head, tail) == head + "-"@ + #[trigger] decimal(k) + tail;
        assert(head + "-"@ + decimal(k) + tail =~= ".hatchdoor-trash/"@ + dir + seq!['/'] + stem
            + "-"@ + decimal(k) + seq!['.'] + ext);
    }
}

/// A note goes to the trash under its own path; where that is taken, a dash and a number
/// from 2 on stand before its extension.
pub proof fn trashed_note_keeps_its_path(taken: Seq<Seq<char>>, relative: Seq<char>)
    ensures
        ({
            let own = ".hatchdoor-trash/"@ + relative + ".md"@;
            &&& !taken.contains(own) ==> trash_note(taken, relative) == own
            &&& taken.contains(own) ==> exists|k: nat|
                2 <= k && trash_note(taken, relative) == ".hatchdoor-trash/"@ + relative + "-"@
                    + #[trigger] decimal(k) + ".md"@
        }),
        !taken.contains(trash_note(taken, relative)),
{
    reveal_strlit(".hatchdoor-trash");
    reveal_strlit(".hatchdoor-trash/");
    let head = TRASH_DIR@ + seq!['/'] + relative;
    assert(TRASH_DIR@ + seq!['/'] =~= ".hatchdoor-trash/"@);
    taken_name_gets_a_number(taken, head, ".md"@);
    fresh_name_is_free(taken, head, ".md"@);
}

pub fn unique_trash_attachment_relative_path(facts: &Vec<FileFact>, path: &[char]) -> (r: String)
    ensures
        r@ == trash_file(existing(facts@), path@),
{
    let taken = list_existing(facts);
    let k: usize = find_last_start(path, '/');
    proof {
        lemma_last_start(path@, '/');
        lemma_last_start(after_last(path@, '/'), '.');
    }
    let name = suffix_of(path, k);
    let dot: usize = find_last_start(name, '.');
    let stem: usize = if dot <= 1 {
        name.len()
    } else {
        dot - 1
    };
    let cut: usize = path.len() - (name.len() - stem);
    assert(cut == extension_start(path@));
    let mut head = to_chars(TRASH_DIR);
    head.push('/');
    push_all(&mut head, prefix_of(path, cut));
    assert(head@ =~= TRASH_DIR@ + seq!['/'] + path@.take(cut as int));
    make_fresh_name(&taken, head.as_slice(), suffix_of(path, cut))
}

/// The free path in the trash for a note, with its extension.
pub open spec fn trash_note(taken: Seq<Seq<char>>, relative: Seq<char>) -> Seq<char> {
    fresh_name(taken, TRASH_DIR@ + seq!['/'] + relative, ".md"@)
}

pub fn unique_trash_note_path(facts: &Vec<FileFact>, relative: &[char]) -> (r: String)
    ensures
        r@ == trash_note(existing(facts@), relative@),
{
    let taken = list_existing(facts);
    let mut head = to_chars(TRASH_DIR);
    head.push('/');
    push_all(&mut head, relative);
    assert(head@ =~= TRASH_DIR@ + seq!['/'] + relative@);
    let tail = to_chars(".md");
    make_fresh_name(&taken, head.as_slice(), tail.as_slice())
}

// ---------------------------------------------------------------------------
// Paths that only lead down
// ---------------------------------------------------------------------------

/// A part `.` or `..` of the path starts at `i`.
pub open spec fn dots_at(path: Seq<char>, i: int) -> bool {
    &&& 0 <= i < path.len()
    &&& i == 0 || path[i - 1] == '/'
    &&& path[i] == '.'
    &&& {
        ||| i + 1 == path.len()
        ||| path[i + 1] == '/'
        ||| path[i + 1] == '.' && (i + 2 == path.len() || path[i + 2] == '/')
    }
}

/// No part of the path is `.` or `..`.
pub open spec fn leads_down(path: Seq<char>) -> bool {
    forall|i: int| !#[trigger] dots_at(path, i)
}

proof fn lemma_parts_lead_down(path: Seq<char>, i: int)
    requires
        leads_down(path),
        0 <= i <= path.len(),
        i == 0 || path[i - 1] == '/',
    ensures
        forall|k: int|
            0 <= k < split_from(path, i, '/').len() ==> {
                let p = #[trigger] split_from(path, i, '/')[k];
                p.len() == 0 || clean_part(p)
            },
    decreases path.len() - i,
{
    let j = next_char(path, i, '/');
    lemma_next_char(path, i, '/');
    assert(!dots_at(path, i));
    let p = path.subrange(i, j);
    assert(p.len() == 0 || clean_part(p)) by {
        if p.len() > 0 {
            assert(p[0] == path[i]);
            if p.len() > 1 {
                assert(p[1] == path[i + 1]);
            }
        }
    }
    if j < path.len() {
        lemma_parts_lead_down(path, j + 1);
        assert forall|k: int| 0 <= k < split_from(path, i, '/').len() implies {
            let q = #[trigger] split_from(path, i, '/')[k];
            q.len() == 0 || clean_part(q)
        } by {
            if k > 0 {
                assert(split_from(path, i, '/')[k] == split_from(path, j + 1, '/')[k - 1]);
            }
        }
    } else {
        assert(path.skip(i) =~= p);
    }
}

proof fn lemma_named_parts_clean(parts: Seq<Seq<char>>)
    requires
        forall|k: int|
            0 <= k < parts.len() ==> (#[trigger] parts[k]).len() == 0 || clean_part(parts[k]),
    ensures
        forall|k: int| 0 <= k < nonempty(parts).len() ==> clean_part(#[trigger] nonempty(parts)[k]),
    decreases parts.len(),
{
    if parts.len() > 0 {
        let front = nonempty(parts.drop_last());
        assert(parts.last() == parts[parts.len() - 1]);
        lemma_named_parts_clean(parts.drop_last());
        assert forall|k: int| 0 <= k < nonempty(parts).len() implies clean_part(
            #[trigger] nonempty(parts)[k],
        ) by {
            if k < front.len() {
                assert(nonempty(parts)[k] == front[k]);
            }
        }
    }
}

proof fn lemma_collapse_clean(stack: Seq<Seq<char>>, parts: Seq<Seq<char>>, i: int)
    requires
        0 <= i <= parts.len(),
        forall|k: int| 0 <= k < stack.len() ==> clean_part(#[trigger] stack[k]),
        forall|k: int| 0 <= k < parts.len() ==> !(#[trigger] parts[k]).contains('/'),
    ensures
        match collapse_from(stack, parts, i) {
            Some(r) => forall|k: int| 0 <= k < r.len() ==> clean_part(#[trigger] r[k]),
            None => true,
        },
    decreases parts.len() - i,
{
    if i < parts.len() {
        if parts[i].len() == 0 || parts[i] == seq!['.'] {
            lemma_collapse_clean(stack, parts, i + 1);
        } else if parts[i] == seq!['.', '.'] {
            if stack.len() > 0 {
                lemma_collapse_clean(stack.drop_last(), parts, i + 1);
            }
        } else {
            lemma_collapse_clean(stack.push(parts[i]), parts, i + 1);
        }
    }
}

proof fn lemma_split_has_no_separator(s: Seq<char>, i: int, c: char)
    requires
        0 <= i <= s.len(),
    ensures
        forall|k: int|
            0 <= k < split_from(s, i, c).len() ==> !(#[trigger] split_from(s, i, c)[k]).contains(c),
    decreases s.len() - i,
{
    let j = next_char(s, i, c);
    lemma_next_char(s, i, c);
    if j < s.len() {
        lemma_split_has_no_separator(s, j + 1, c);
        assert forall|k: int| 0 <= k < split_from(s, i, c).len() implies !(#[trigger] split_from(
            s,
            i,
            c,
        )[k]).contains(c) by {
            if k > 0 {
                assert(split_from(s, i, c)[k] == split_from(s, j + 1, c)[k - 1]);
            }
        }
    }
}

/// Two paths that only lead down, one read from the other, lead down.
pub proof fn lemma_join_leads_down(a: Seq<char>, b: Seq<char>)
    requires
        leads_down(a),
        leads_down(b),
    ensures
        leads_down(a + seq!['/'] + b),
{
    let s = a + seq!['/'] + b;
    let n = a.len() as int;
    assert forall|i: int| !#[trigger] dots_at(s, i) by {
        assert(!dots_at(a, i));
        assert(!dots_at(b, i - n - 1));
    }
}

proof fn lemma_joined_parts_lead_down(parts: Seq<Seq<char>>)
    requires
        forall|k: int| 0 <= k < parts.len() ==> clean_part(#[trigger] parts[k]),
    ensures
        leads_down(join(parts, seq!['/'])),
    decreases parts.len(),
{
    if parts.len() > 0 {
        let p = parts.last();
        assert(p == parts[parts.len() - 1]);
        assert forall|i: int| !#[trigger] dots_at(p, i) by {
            if 0 <= i < p.len() {
                assert(i == 0 || p.contains(p[i - 1]));
                if i == 0 && p.len() > 1 {
                    assert(p.contains(p[1]));
                    if p.len() > 2 {
                        assert(p.contains(p[2]));
                    }
                }
                if i == 0 && p[0] == '.' {
                    assert(p.len() == 1 ==> p =~= seq!['.']);
                    assert(p.len() == 2 && p[1] == '.' ==> p =~= seq!['.', '.']);
                }
            }
        }
        if parts.len() > 1 {
            lemma_joined_parts_lead_down(parts.drop_last());
            lemma_join_leads_down(join(parts.drop_last(), seq!['/']), p);
        }
    }
}

/// What is read from a folder whose path only leads down, and resolved, has a
/// path that only leads down.
pub proof fn resolved_path_leads_down(dir: Seq<char>, target: Seq<char>)
    requires
        leads_down(dir),
    ensures
        match resolved_path(dir, target) {
            Some(path) => leads_down(path),
            None => true,
        },
{
    lemma_parts_lead_down(dir, 0);
    lemma_named_parts_clean(split(dir, '/'));
    lemma_split_has_no_separator(target, 0, '/');
    lemma_collapse_clean(folder_parts(dir), split(target, '/'), 0);
    match resolved_parts(dir, target) {
        Some(parts) => {
            lemma_joined_parts_lead_down(parts);
        },
        None => {},
    }
}

/// The folder of a path that only leads down, and what stands behind one of its
/// separators, lead down.
pub proof fn lemma_pieces_lead_down(path: Seq<char>, k: int)
    requires
        leads_down(path),
        0 <= k <= path.len(),
        k == 0 || path[k - 1] == '/',
    ensures
        leads_down(path.skip(k)),
        leads_down(dir_text(path)),
{
    let rest = path.skip(k);
    assert forall|i: int| !#[trigger] dots_at(rest, i) by {
        assert(!dots_at(path, i + k));
    }
    lemma_last_start(path, '/');
    let dir = dir_text(path);
    assert forall|i: int| !#[trigger] dots_at(dir, i) by {
        assert(!dots_at(path, i));
    }
}

proof fn lemma_numbered_leads_down(head: Seq<char>, tail: Seq<char>, k: nat)
    requires
        leads_down(head + tail),
        !tail.contains('/'),
    ensures
        leads_down(numbered(head, tail, k)),
{
    let plain = head + tail;
    let s = numbered(head, tail, k);
    let n = head.len() as int;
    lemma_decimal_digits(k);
    assert(s[n] == '-');
    assert forall|i: int| n < i < s.len() implies s[i] != '/' by {
        if i < n + 1 + decimal(k).len() {
            assert(s[i] == decimal(k)[i - n - 1]);
        } else {
            assert(s[i] == tail[i - n - 1 - decimal(k).len()]);
            assert(tail.contains(s[i]));
        }
    }
    assert forall|i: int| 0 <= i < n implies s[i] == head[i] && plain[i] == head[i] by {}
    assert forall|i: int| !#[trigger] dots_at(s, i) by {
        assert(!dots_at(plain, i));
        if n < i < s.len() {
            assert(s[i - 1] != '/');
        }
    }
}

/// The place in the trash of a file whose path only leads down leads down.
pub proof fn trash_file_leads_down(taken: Seq<Seq<char>>, path: Seq<char>)
    requires
        leads_down(path),
    ensures
        leads_down(trash_file(taken, path)),
{
    let cut = extension_start(path);
    lemma_last_start(path, '/');
    lemma_last_start(after_last(path, '/'), '.');
    reveal_strlit(".hatchdoor-trash");
    let dir = TRASH_DIR@;
    assert forall|i: int| !#[trigger] dots_at(dir, i) by {}
    lemma_join_leads_down(dir, path);
    let head = dir + seq!['/'] + path.take(cut);
    let tail = path.skip(cut);
    assert(head + tail =~= dir + seq!['/'] + path);
    assert(!tail.contains('/')) by {
        assert forall|i: int| 0 <= i < tail.len() implies tail[i] != '/' by {
            assert(tail[i] == path[cut + i]);
        }
    }
    lemma_numbered_leads_down(head, tail, first_free(taken, head, tail, 2));
}

// ---------------------------------------------------------------------------
// Links from file to file
// ---------------------------------------------------------------------------

proof fn lemma_clean_parts_are_kept(parts: Seq<Seq<char>>)
    requires
        forall|k: int| 0 <= k < parts.len() ==> clean_part(#[trigger] parts[k]),
    ensures
        nonempty(parts) == parts,
    decreases parts.len(),
{
    if parts.len() > 0 {
        let front = parts.drop_last();
        assert forall|k: int| 0 <= k < front.len() implies clean_part(#[trigger] front[k]) by {
            assert(front[k] == parts[k]);
        }
        lemma_clean_parts_are_kept(front);
        assert(clean_part(parts[parts.len() - 1]));
        assert(front.push(parts.last()) =~= parts);
    }
}

proof fn lemma_parts_of_a_path(parts: Seq<Seq<char>>)
    requires
        forall|k: int| 0 <= k < parts.len() ==> clean_part(#[trigger] parts[k]),
    ensures
        folder_parts(join(parts, seq!['/'])) == parts,
{
    if parts.len() > 0 {
        split_undoes_join(parts, '/');
        lemma_clean_parts_are_kept(parts);
    } else {
        let none = Seq::<char>::empty();
        assert(!none.contains('/'));
        pieces_end_at_separators(none, none, '/');
        assert(seq![none].drop_last() =~= seq![]);
        assert(nonempty(seq![none]) =~= seq![]) by {
            assert(nonempty(seq![none].drop_last()) =~= seq![]);
        }
        assert(join(parts, seq!['/']) =~= none);
        assert(parts =~= seq![]);
    }
}

/// The link that is written in a note for a file leads to the file, when it is
/// followed from the note's folder.
#[verifier::rlimit(40)]
pub proof fn written_link_leads_to_the_file(
    folder: Seq<Seq<char>>,
    name: Seq<char>,
    file: Seq<Seq<char>>,
)
    requires
        file.len() > 0,
        clean_part(name),
        forall|k: int| 0 <= k < folder.len() ==> clean_part(#[trigger] folder[k]),
        forall|k: int| 0 <= k < file.len() ==> clean_part(#[trigger] file[k]),
    ensures
        ({
            let note = join(folder.push(name), seq!['/']);
            let path = join(file, seq!['/']);
            resolved_path(dir_text(note), relative_link(note, path)) == Some(path)
        }),
{
    let sep = seq!['/'];
    let all = folder.push(name);
    let note = join(all, sep);
    assert forall|k: int| 0 <= k < all.len() implies clean_part(#[trigger] all[k]) by {
        if k < folder.len() {
            assert(all[k] == folder[k]);
        }
    }
    lemma_parts_of_a_path(all);
    lemma_parts_of_a_path(folder);
    lemma_parts_of_a_path(file);
    assert(all.drop_last() =~= folder);
    assert(all =~= folder + seq![name]);
    two_lists_are_joined(folder, seq![name], sep);
    two_lists_are_joined(seq![name], folder, sep);
    folder_is_what_precedes_the_name(join(folder, sep), name);
    if folder.len() == 0 {
        assert(join(folder, sep) =~= seq![]);
    }
    assert(dir_text(note) == join(folder, sep));
    relative_link_leads_to_the_file(folder, file);
}

/// Two spellings name one path where they differ in slashes that follow slashes,
/// in slashes at the end, and in dots for the folder itself behind the first part.
#[verifier::rlimit(40)]
pub proof fn spellings_of_a_path(a: Seq<char>, b: Seq<char>)
    ensures
        same_path(a + seq!['/', '/'] + b, a + seq!['/'] + b),
        same_path(a + seq!['/', '.', '/'] + b, a + seq!['/'] + b),
        same_path(a + seq!['/'], a),
        same_path(a + seq!['/', '.'], a),
{
    let none = Seq::<char>::empty();
    let dot = seq!['.'];
    assert(!none.contains('/'));
    assert(dot[0] == '.');
    assert(!dot.contains('/'));
    pieces_end_at_separators(none, b, '/');
    pieces_end_at_separators(none, none, '/');
    pieces_end_at_separators(dot, b, '/');
    pieces_of_two_texts(a, b, '/');
    pieces_of_two_texts(a, none.push('/') + b, '/');
    pieces_of_two_texts(a, dot.push('/') + b, '/');
    pieces_of_two_texts(a, none, '/');
    pieces_of_two_texts(a, dot, '/');
    assert(a.push('/') + b =~= a + seq!['/'] + b);
    assert(a.push('/') + (none.push('/') + b) =~= a + seq!['/', '/'] + b);
    assert(a.push('/') + (dot.push('/') + b) =~= a + seq!['/', '.', '/'] + b);
    assert(a.push('/') + none =~= a + seq!['/']);
    assert(a.push('/') + dot =~= a + seq!['/', '.']);
    let pa = split(a, '/');
    let pb = split(b, '/');
    let e = Seq::<Seq<char>>::empty();
    named_parts_of_two_lists(pa, pb, none);
    named_parts_of_two_lists(pa, seq![none] + pb, none);
    named_parts_of_two_lists(pa, seq![dot] + pb, dot);
    named_parts_of_two_lists(seq![none], pb, none);
    named_parts_of_two_lists(seq![dot], pb, dot);
    named_parts_of_two_lists(pa, seq![none], none);
    named_parts_of_two_lists(pa, seq![dot], dot);
    assert(e + named_parts(pb) =~= named_parts(pb));
    assert(named_parts(pa) + e =~= named_parts(pa));
    lemma_split_has_a_piece(a);
    assert((pa + pb)[0] == pa[0]);
    assert((pa + (seq![none] + pb))[0] == pa[0]);
    assert((pa + (seq![dot] + pb))[0] == pa[0]);
    assert((pa + seq![none])[0] == pa[0]);
    assert((pa + seq![dot])[0] == pa[0]);
}

proof fn lemma_split_has_a_piece(s: Seq<char>)
    ensures
        split(s, '/').len() >= 1,
{
    lemma_next_char(s, 0, '/');
}

} // verus!
