//! Character sequences: the vocabulary in which every other module states what
//! it does to names, paths and note bodies.
//!
//! A `String` or `&str` is modelled by its sequence of characters. Executable
//! code works on `Vec<char>` and `&[char]`, whose views are that sequence.

use vstd::prelude::*;
use vstd::slice::{slice_subrange, slice_to_vec};
use vstd::utf8::char_is_scalar;

verus! {

// ---------------------------------------------------------------------------
// Conversions
// ---------------------------------------------------------------------------

/// `String::push` of the standard library: appends one character at the end.
pub assume_specification[ String::push ](s: &mut String, c: char)
    ensures
        final(s)@ == old(s)@.push(c),
;

/// The characters of a string, in order.
pub fn to_chars(s: &str) -> (r: Vec<char>)
    ensures
        r@ == s@,
{
    let mut out: Vec<char> = Vec::new();
    for c in it: s.chars()
        invariant
            out@ == it.seq().subrange(0, it.index()),
            it.seq() == s@,
    {
        out.push(c);
        assert(out@ =~= it.seq().subrange(0, it.index() + 1));
    }
    assert(out@ =~= s@);
    out
}

/// The string made of the given characters.
pub fn from_chars(v: &[char]) -> (r: String)
    ensures
        r@ == v@,
{
    let mut out = String::new();
    let mut i: usize = 0;
    while i < v.len()
        invariant
            0 <= i <= v@.len(),
            out@ == v@.subrange(0, i as int),
        decreases v@.len() - i,
    {
        out.push(v[i]);
        i = i + 1;
        assert(out@ =~= v@.subrange(0, i as int));
    }
    assert(out@ =~= v@);
    out
}

/// An owned copy of a string.
pub fn str_owned(s: &str) -> (r: String)
    ensures
        r@ == s@,
{
    let chars = to_chars(s);
    from_chars(chars.as_slice())
}

/// The views of a sequence of character vectors.
pub open spec fn texts(v: Seq<Vec<char>>) -> Seq<Seq<char>> {
    Seq::new(v.len(), |i: int| v[i]@)
}

/// The views of a sequence of strings.
pub open spec fn strs(v: Seq<String>) -> Seq<Seq<char>> {
    Seq::new(v.len(), |i: int| v[i]@)
}

/// An optional string's view.
pub open spec fn opt_text(o: Option<String>) -> Option<Seq<char>> {
    match o {
        Some(s) => Some(s@),
        None => None,
    }
}

pub fn clone_opt(o: &Option<String>) -> (r: Option<String>)
    ensures
        opt_text(r) == opt_text(*o),
{
    match o {
        Some(s) => Some(s.clone()),
        None => None,
    }
}

pub proof fn lemma_texts_push(v: Seq<Vec<char>>, x: Vec<char>)
    ensures
        texts(v.push(x)) == texts(v).push(x@),
{
    assert(texts(v.push(x)) =~= texts(v).push(x@));
}

pub proof fn lemma_strs_push(v: Seq<String>, x: String)
    ensures
        strs(v.push(x)) == strs(v).push(x@),
{
    assert(strs(v.push(x)) =~= strs(v).push(x@));
}

/// Appends every character of `tail` to `out`.
pub fn push_all(out: &mut Vec<char>, tail: &[char])
    ensures
        final(out)@ == old(out)@ + tail@,
{
    let ghost start = out@;
    let mut i: usize = 0;
    while i < tail.len()
        invariant
            0 <= i <= tail@.len(),
            out@ == start + tail@.subrange(0, i as int),
        decreases tail@.len() - i,
    {
        out.push(tail[i]);
        i = i + 1;
        assert(out@ =~= start + tail@.subrange(0, i as int));
    }
    assert(out@ =~= start + tail@);
}

/// Appends a string to `out`.
pub fn push_str(out: &mut Vec<char>, tail: &str)
    ensures
        final(out)@ == old(out)@ + tail@,
{
    let chars = to_chars(tail);
    push_all(out, chars.as_slice());
}

// ---------------------------------------------------------------------------
// Equality and order
// ---------------------------------------------------------------------------

pub fn chars_eq(a: &[char], b: &[char]) -> (r: bool)
    ensures
        r == (a@ == b@),
{
    if a.len() != b.len() {
        return false;
    }
    let mut i: usize = 0;
    while i < a.len()
        invariant
            0 <= i <= a@.len(),
            a@.len() == b@.len(),
            a@.subrange(0, i as int) == b@.subrange(0, i as int),
        decreases a@.len() - i,
    {
        if a[i] != b[i] {
            assert(a@[i as int] != b@[i as int]);
            return false;
        }
        i = i + 1;
        assert(a@.subrange(0, i as int) =~= a@.subrange(0, i - 1).push(a@[i - 1]));
        assert(b@.subrange(0, i as int) =~= b@.subrange(0, i - 1).push(b@[i - 1]));
    }
    assert(a@ =~= a@.subrange(0, i as int));
    assert(b@ =~= b@.subrange(0, i as int));
    true
}

/// String equality.
pub fn str_eq(a: &str, b: &str) -> (r: bool)
    ensures
        r == (a@ == b@),
{
    let x = to_chars(a);
    let y = to_chars(b);
    chars_eq(x.as_slice(), y.as_slice())
}

/// Strict lexicographic order on key sequences; a proper prefix comes first.
pub open spec fn lex_lt(a: Seq<u32>, b: Seq<u32>) -> bool
    decreases a.len(),
{
    if b.len() == 0 {
        false
    } else if a.len() == 0 {
        true
    } else if a[0] != b[0] {
        a[0] < b[0]
    } else {
        lex_lt(a.skip(1), b.skip(1))
    }
}

pub proof fn lemma_lex_irreflexive(a: Seq<u32>)
    ensures
        !lex_lt(a, a),
    decreases a.len(),
{
    if a.len() > 0 {
        lemma_lex_irreflexive(a.skip(1));
    }
}

pub proof fn lemma_lex_transitive(a: Seq<u32>, b: Seq<u32>, c: Seq<u32>)
    requires
        lex_lt(a, b),
        lex_lt(b, c),
    ensures
        lex_lt(a, c),
    decreases a.len(),
{
    if a.len() > 0 && a[0] == b[0] && b[0] == c[0] {
        lemma_lex_transitive(a.skip(1), b.skip(1), c.skip(1));
    }
}

pub proof fn lemma_lex_total(a: Seq<u32>, b: Seq<u32>)
    ensures
        lex_lt(a, b) || a == b || lex_lt(b, a),
    decreases a.len(),
{
    if a.len() > 0 && b.len() > 0 && a[0] == b[0] {
        lemma_lex_total(a.skip(1), b.skip(1));
        if a.skip(1) == b.skip(1) {
            assert(a =~= seq![a[0]] + a.skip(1));
            assert(b =~= seq![b[0]] + b.skip(1));
        }
    } else {
        if a.len() == 0 && b.len() == 0 {
            assert(a =~= b);
        }
    }
}

pub fn key_lt(a: &[u32], b: &[u32]) -> (r: bool)
    ensures
        r == lex_lt(a@, b@),
{
    let mut i: usize = 0;
    assert(a@.skip(0) =~= a@);
    assert(b@.skip(0) =~= b@);
    while i < a.len() && i < b.len()
        invariant
            0 <= i <= a@.len(),
            0 <= i <= b@.len(),
            lex_lt(a@, b@) == lex_lt(a@.skip(i as int), b@.skip(i as int)),
        decreases a@.len() - i,
    {
        assert(a@.skip(i as int)[0] == a@[i as int]);
        assert(b@.skip(i as int)[0] == b@[i as int]);
        if a[i] != b[i] {
            return a[i] < b[i];
        }
        assert(a@.skip(i as int).skip(1) =~= a@.skip(i + 1));
        assert(b@.skip(i as int).skip(1) =~= b@.skip(i + 1));
        i = i + 1;
    }
    i < b.len()
}

/// The sort key of a string: its characters in code point order.
pub open spec fn text_key(s: Seq<char>) -> Seq<u32> {
    Seq::new(s.len(), |i: int| s[i] as u32)
}

pub fn make_text_key(s: &[char]) -> (r: Vec<u32>)
    ensures
        r@ == text_key(s@),
{
    let mut out: Vec<u32> = Vec::new();
    let mut i: usize = 0;
    while i < s.len()
        invariant
            0 <= i <= s@.len(),
            out@ == text_key(s@).subrange(0, i as int),
        decreases s@.len() - i,
    {
        out.push(s[i] as u32);
        i = i + 1;
        assert(out@ =~= text_key(s@).subrange(0, i as int));
    }
    assert(out@ =~= text_key(s@));
    out
}

/// One step of the path order: the separator sorts below every other
/// character, so that paths compare folder name by folder name.
pub open spec fn path_rank(c: char) -> u32 {
    if c == '/' {
        0
    } else {
        ((c as u32) + 1) as u32
    }
}

/// The sort key of a `/`-joined path.
pub open spec fn path_key(s: Seq<char>) -> Seq<u32> {
    Seq::new(s.len(), |i: int| path_rank(s[i]))
}

pub fn make_path_key(s: &[char]) -> (r: Vec<u32>)
    ensures
        r@ == path_key(s@),
{
    let mut out: Vec<u32> = Vec::new();
    let mut i: usize = 0;
    while i < s.len()
        invariant
            0 <= i <= s@.len(),
            out@ == path_key(s@).subrange(0, i as int),
        decreases s@.len() - i,
    {
        let c = s[i];
        proof {
            char_is_scalar(c);
        }
        let rank: u32 = if c == '/' {
            0
        } else {
            (c as u32) + 1
        };
        out.push(rank);
        i = i + 1;
        assert(out@ =~= path_key(s@).subrange(0, i as int));
    }
    assert(out@ =~= path_key(s@));
    out
}

proof fn lemma_code_injective(a: char, b: char)
    requires
        a as u32 == b as u32,
    ensures
        a == b,
{
}

proof fn lemma_rank_injective(a: char, b: char)
    requires
        path_rank(a) == path_rank(b),
    ensures
        a == b,
{
}

pub proof fn lemma_text_key_injective(a: Seq<char>, b: Seq<char>)
    requires
        text_key(a) == text_key(b),
    ensures
        a == b,
{
    assert(a.len() == text_key(a).len());
    assert(b.len() == text_key(b).len());
    assert forall|i: int| 0 <= i < a.len() implies a[i] == b[i] by {
        assert(text_key(a)[i] == text_key(b)[i]);
        assert(text_key(a)[i] == a[i] as u32);
        assert(text_key(b)[i] == b[i] as u32);
        lemma_code_injective(a[i], b[i]);
    }
    assert(a =~= b);
}

pub proof fn lemma_path_key_injective(a: Seq<char>, b: Seq<char>)
    requires
        path_key(a) == path_key(b),
    ensures
        a == b,
{
    assert(a.len() == path_key(a).len());
    assert(b.len() == path_key(b).len());
    assert forall|i: int| 0 <= i < a.len() implies a[i] == b[i] by {
        assert(path_key(a)[i] == path_key(b)[i]);
        assert(path_key(a)[i] == path_rank(a[i]));
        assert(path_key(b)[i] == path_rank(b[i]));
        lemma_rank_injective(a[i], b[i]);
    }
    assert(a =~= b);
}

/// Code point order on strings.
pub open spec fn text_lt(a: Seq<char>, b: Seq<char>) -> bool {
    lex_lt(text_key(a), text_key(b))
}

/// Where a stable sort puts position `a` before position `b`: the smaller key
/// first, and among equal keys the earlier position.
pub open spec fn before(keys: Seq<Seq<u32>>, a: int, b: int) -> bool {
    lex_lt(keys[a], keys[b]) || (keys[a] == keys[b] && a < b)
}

/// Position `k` stands somewhere in `order`.
pub open spec fn listed(order: Seq<usize>, k: int) -> bool {
    exists|i: int| 0 <= i < order.len() && #[trigger] order[i] == k
}

proof fn lemma_lex_behind(a: Seq<u32>, b: Seq<u32>, c: Seq<u32>)
    ensures
        lex_lt(a + b, a + c) == lex_lt(b, c),
    decreases a.len(),
{
    if a.len() == 0 {
        assert(a + b =~= b);
        assert(a + c =~= c);
    } else {
        lemma_lex_behind(a.skip(1), b, c);
        assert((a + b).skip(1) =~= a.skip(1) + b);
        assert((a + c).skip(1) =~= a.skip(1) + c);
    }
}

/// Two texts are in the order of the first characters in which they differ, and a
/// text stands before what is longer and starts with it.
pub proof fn texts_are_ordered_by_their_first_difference(
    head: Seq<char>,
    x: char,
    p: Seq<char>,
    y: char,
    q: Seq<char>,
)
    ensures
        x != y ==> (text_lt(head + seq![x] + p, head + seq![y] + q) <==> (x as u32) < (y as u32)),
        text_lt(head, head + seq![y] + q),
        !text_lt(head + seq![y] + q, head),
{
    let a = text_key(head);
    let u = text_key(seq![x] + p);
    let v = text_key(seq![y] + q);
    assert(text_key(head + seq![x] + p) =~= a + u);
    assert(text_key(head + seq![y] + q) =~= a + v);
    assert(a =~= a + Seq::<u32>::empty());
    lemma_lex_behind(a, u, v);
    lemma_lex_behind(a, Seq::empty(), v);
    lemma_lex_behind(a, v, Seq::empty());
    assert(u[0] == x as u32);
    assert(v[0] == y as u32);
}

/// Two paths are in the order of the first characters in which they differ, but
/// that what a folder holds stands before a name that starts like the folder's.
pub proof fn folders_are_ordered_before_longer_names(
    head: Seq<char>,
    x: char,
    p: Seq<char>,
    y: char,
    q: Seq<char>,
)
    ensures
        x != '/' && y != '/' && x != y ==> (lex_lt(
            path_key(head + seq![x] + p),
            path_key(head + seq![y] + q),
        ) <==> (x as u32) < (y as u32)),
        y != '/' ==> lex_lt(path_key(head + seq!['/'] + p), path_key(head + seq![y] + q)),
        y != '/' ==> !lex_lt(path_key(head + seq![y] + q), path_key(head + seq!['/'] + p)),
        lex_lt(path_key(head), path_key(head + seq![y] + q)),
{
    let a = path_key(head);
    let u = path_key(seq![x] + p);
    let s = path_key(seq!['/'] + p);
    let v = path_key(seq![y] + q);
    char_is_scalar(x);
    char_is_scalar(y);
    assert(path_key(head + seq![x] + p) =~= a + u);
    assert(path_key(head + seq!['/'] + p) =~= a + s);
    assert(path_key(head + seq![y] + q) =~= a + v);
    assert(a =~= a + Seq::<u32>::empty());
    lemma_lex_behind(a, u, v);
    lemma_lex_behind(a, s, v);
    lemma_lex_behind(a, v, s);
    lemma_lex_behind(a, Seq::empty(), v);
    assert(u[0] == path_rank(x));
    assert(s[0] == 0);
    assert(v[0] == path_rank(y));
}

/// `order` lists every position of `keys` once, sorted stably.
pub open spec fn is_stable_order(keys: Seq<Seq<u32>>, order: Seq<usize>) -> bool {
    &&& order.len() == keys.len()
    &&& forall|i: int| 0 <= i < order.len() ==> (#[trigger] order[i]) < keys.len()
    &&& forall|k: int| 0 <= k < keys.len() ==> #[trigger] listed(order, k)
    &&& forall|i: int, j: int|
        0 <= i < j < order.len() ==> before(keys, #[trigger] order[i] as int, #[trigger] order[j] as int)
}

/// The stable sorting permutation of `keys`.
pub open spec fn sort_order(keys: Seq<Seq<u32>>) -> Seq<usize> {
    choose|order: Seq<usize>| is_stable_order(keys, order)
}

proof fn lemma_before_asymmetric(keys: Seq<Seq<u32>>, a: int, b: int)
    requires
        before(keys, a, b),
    ensures
        !before(keys, b, a),
{
    lemma_lex_irreflexive(keys[a]);
    if lex_lt(keys[a], keys[b]) && lex_lt(keys[b], keys[a]) {
        lemma_lex_transitive(keys[a], keys[b], keys[a]);
    }
}

proof fn lemma_same_order_to(keys: Seq<Seq<u32>>, p: Seq<usize>, q: Seq<usize>, k: int)
    requires
        is_stable_order(keys, p),
        is_stable_order(keys, q),
        0 <= k <= keys.len(),
    ensures
        forall|i: int| 0 <= i < k ==> p[i] == q[i],
    decreases k,
{
    if k > 0 {
        lemma_same_order_to(keys, p, q, k - 1);
        let m = k - 1;
        if p[m] != q[m] {
            assert(listed(p, q[m] as int));
            assert(listed(q, p[m] as int));
            let j = choose|j: int| 0 <= j < p.len() && #[trigger] p[j] == q[m];
            let i = choose|i: int| 0 <= i < q.len() && #[trigger] q[i] == p[m];
            if j < m {
                assert(p[j] == q[j]);
                assert(before(keys, q[j] as int, q[m] as int));
                lemma_before_asymmetric(keys, q[m] as int, q[m] as int);
            }
            if i < m {
                assert(p[i] == q[i]);
                assert(before(keys, p[i] as int, p[m] as int));
                lemma_before_asymmetric(keys, p[m] as int, p[m] as int);
            }
            assert(before(keys, p[m] as int, p[j] as int));
            assert(before(keys, q[m] as int, q[i] as int));
            lemma_before_asymmetric(keys, p[m] as int, q[m] as int);
        }
    }
}

/// There is one stable order of given keys.
pub proof fn lemma_stable_order_unique(keys: Seq<Seq<u32>>, p: Seq<usize>, q: Seq<usize>)
    requires
        is_stable_order(keys, p),
        is_stable_order(keys, q),
    ensures
        p == q,
{
    lemma_same_order_to(keys, p, q, keys.len() as int);
    assert(p =~= q);
}

/// Where a key that comes last among its equals goes in a sorted order.
spec fn slot_from(keys: Seq<Seq<u32>>, order: Seq<usize>, key: Seq<u32>, i: int) -> int
    decreases order.len() - i,
{
    if i >= order.len() || lex_lt(key, keys[order[i] as int]) {
        i
    } else {
        slot_from(keys, order, key, i + 1)
    }
}

proof fn lemma_slot(keys: Seq<Seq<u32>>, order: Seq<usize>, key: Seq<u32>, i: int)
    requires
        0 <= i <= order.len(),
    ensures
        i <= slot_from(keys, order, key, i) <= order.len(),
        forall|k: int|
            i <= k < slot_from(keys, order, key, i) ==> !lex_lt(
                key,
                keys[#[trigger] order[k] as int],
            ),
        slot_from(keys, order, key, i) < order.len() ==> lex_lt(
            key,
            keys[order[slot_from(keys, order, key, i)] as int],
        ),
    decreases order.len() - i,
{
    if i < order.len() && !lex_lt(key, keys[order[i] as int]) {
        lemma_slot(keys, order, key, i + 1);
    }
}

/// An order lists no position twice.
pub proof fn lemma_stable_order_distinct(keys: Seq<Seq<u32>>, order: Seq<usize>, i: int, j: int)
    requires
        is_stable_order(keys, order),
        0 <= i < j < order.len(),
    ensures
        order[i] != order[j],
{
    assert(before(keys, order[i] as int, order[j] as int));
    lemma_lex_irreflexive(keys[order[i] as int]);
}

/// Every sequence of keys has a stable order, and [`sort_order`] is one.
pub proof fn lemma_stable_order_exists(keys: Seq<Seq<u32>>)
    requires
        keys.len() <= usize::MAX,
    ensures
        is_stable_order(keys, sort_order(keys)),
    decreases keys.len(),
{
    if keys.len() == 0 {
        let none = Seq::<usize>::empty();
        assert(is_stable_order(keys, none));
    } else {
        let prev = keys.drop_last();
        let key = keys.last();
        let last = prev.len() as int;
        lemma_stable_order_exists(prev);
        let order = sort_order(prev);
        let p = slot_from(prev, order, key, 0);
        lemma_slot(prev, order, key, 0);
        let next = order.insert(p, last as usize);
        assert forall|k: int| 0 <= k < keys.len() implies #[trigger] listed(next, k) by {
            if k == last {
                assert(next[p] == k);
            } else {
                assert(listed(order, k));
                let i = choose|i: int| 0 <= i < order.len() && #[trigger] order[i] == k;
                if i < p {
                    assert(next[i] == k);
                } else {
                    assert(next[i + 1] == k);
                }
            }
        }
        assert forall|i: int, j: int| 0 <= i < j < next.len() implies before(
            keys,
            #[trigger] next[i] as int,
            #[trigger] next[j] as int,
        ) by {
            let a = if i < p {
                i
            } else {
                i - 1
            };
            let b = if j < p {
                j
            } else {
                j - 1
            };
            if j == p {
                assert(next[i] == order[i]);
                lemma_lex_total(prev[order[i] as int], key);
            } else if i == p {
                assert(next[j] == order[b]);
                let q = order[p] as int;
                assert(lex_lt(key, prev[q]));
                if b > p {
                    assert(before(prev, q, order[b] as int));
                    if lex_lt(prev[q], prev[order[b] as int]) {
                        lemma_lex_transitive(key, prev[q], prev[order[b] as int]);
                    }
                }
            } else {
                assert(next[i] == order[a] && next[j] == order[b]);
                assert(before(prev, order[a] as int, order[b] as int));
            }
        }
        assert(is_stable_order(keys, next));
    }
}

/// Sorting puts no key before a smaller one, keeps equal ones as they stood, and
/// leaves none out.
pub proof fn sorting_is_stable(keys: Seq<Seq<u32>>)
    requires
        keys.len() <= usize::MAX,
    ensures
        sort_order(keys).len() == keys.len(),
        forall|i: int, j: int|
            0 <= i < j < keys.len() ==> {
                let a = #[trigger] sort_order(keys)[i] as int;
                let b = #[trigger] sort_order(keys)[j] as int;
                !lex_lt(keys[b], keys[a]) && (keys[a] == keys[b] ==> a < b)
            },
        forall|k: int| 0 <= k < keys.len() ==> #[trigger] listed(sort_order(keys), k),
{
    lemma_stable_order_exists(keys);
    let order = sort_order(keys);
    assert forall|i: int, j: int| 0 <= i < j < keys.len() implies {
        let a = #[trigger] order[i] as int;
        let b = #[trigger] order[j] as int;
        !lex_lt(keys[b], keys[a]) && (keys[a] == keys[b] ==> a < b)
    } by {
        let a = order[i] as int;
        let b = order[j] as int;
        assert(before(keys, a, b));
        lemma_before_asymmetric(keys, a, b);
        lemma_lex_irreflexive(keys[a]);
    }
}

pub open spec fn key_views(keys: Seq<Vec<u32>>) -> Seq<Seq<u32>> {
    Seq::new(keys.len(), |i: int| keys[i]@)
}

/// The stable sorting permutation of `keys`.
pub fn stable_order(keys: &Vec<Vec<u32>>) -> (order: Vec<usize>)
    ensures
        is_stable_order(key_views(keys@), order@),
        order@ == sort_order(key_views(keys@)),
{
    let ghost kv = key_views(keys@);
    let mut order: Vec<usize> = Vec::new();
    let mut n: usize = 0;
    while n < keys.len()
        invariant
            0 <= n <= keys@.len(),
            kv == key_views(keys@),
            order@.len() == n,
            forall|i: int| 0 <= i < n ==> (#[trigger] order@[i]) < n,
            forall|k: int| 0 <= k < n ==> #[trigger] listed(order@, k),
            forall|i: int, j: int|
                0 <= i < j < n ==> before(kv, #[trigger] order@[i] as int, #[trigger] order@[j] as int),
        decreases keys@.len() - n,
    {
        let mut k: usize = n;
        while k > 0 && key_lt(keys[n].as_slice(), keys[order[k - 1]].as_slice())
            invariant
                0 <= k <= n,
                n < keys@.len(),
                kv == key_views(keys@),
                order@.len() == n,
                forall|i: int| 0 <= i < n ==> (#[trigger] order@[i]) < n,
                forall|i: int| k <= i < n ==> lex_lt(kv[n as int], kv[#[trigger] order@[i] as int]),
            decreases k,
        {
            k = k - 1;
        }
        let ghost prev = order@;
        order.insert(k, n);
        proof {
            assert(order@ == prev.insert(k as int, n));
            assert forall|i: int, j: int| 0 <= i < j < n + 1 implies before(
                kv,
                #[trigger] order@[i] as int,
                #[trigger] order@[j] as int,
            ) by {
                if i < k && j < k {
                    assert(order@[i] == prev[i] && order@[j] == prev[j]);
                } else if i < k && j == k {
                    assert(order@[i] == prev[i] && order@[j] == n);
                    let last = prev[k - 1] as int;
                    lemma_lex_total(kv[last], kv[n as int]);
                    if i < k - 1 {
                        assert(before(kv, prev[i] as int, last));
                        if lex_lt(kv[prev[i] as int], kv[last]) && lex_lt(kv[last], kv[n as int]) {
                            lemma_lex_transitive(kv[prev[i] as int], kv[last], kv[n as int]);
                        }
                    }
                } else if i < k && j > k {
                    assert(order@[i] == prev[i] && order@[j] == prev[j - 1]);
                } else if i == k {
                    assert(order@[i] == n && order@[j] == prev[j - 1]);
                } else {
                    assert(order@[i] == prev[i - 1] && order@[j] == prev[j - 1]);
                }
            }
            assert forall|x: int| 0 <= x < n + 1 implies #[trigger] listed(order@, x) by {
                if x == n {
                    assert(order@[k as int] == x);
                } else {
                    assert(listed(prev, x));
                    let i = choose|i: int| 0 <= i < n && #[trigger] prev[i] == x;
                    if i < k {
                        assert(order@[i] == x);
                    } else {
                        assert(order@[i + 1] == x);
                    }
                }
            }
        }
        n = n + 1;
    }
    proof {
        assert(is_stable_order(kv, order@));
        lemma_stable_order_unique(kv, order@, sort_order(kv));
    }
    order
}

/// `v` holds no string twice and is in code point order.
pub open spec fn strictly_sorted(v: Seq<Seq<char>>) -> bool {
    forall|i: int, j: int| 0 <= i < j < v.len() ==> text_lt(#[trigger] v[i], #[trigger] v[j])
}

/// The strings of `v`, in code point order, each once.
pub fn sort_dedup(v: &Vec<String>) -> (r: Vec<String>)
    ensures
        strictly_sorted(strs(r@)),
        forall|x: Seq<char>| #[trigger] strs(r@).contains(x) <==> strs(v@).contains(x),
{
    let mut keys: Vec<Vec<u32>> = Vec::new();
    let mut i: usize = 0;
    while i < v.len()
        invariant
            0 <= i <= v@.len(),
            keys@.len() == i,
            forall|k: int| 0 <= k < i ==> (#[trigger] keys@[k])@ == text_key(v@[k]@),
        decreases v@.len() - i,
    {
        let chars = to_chars(v[i].as_str());
        keys.push(make_text_key(chars.as_slice()));
        i = i + 1;
    }
    let order = stable_order(&keys);
    let ghost kv = key_views(keys@);
    let mut out: Vec<String> = Vec::new();
    let mut n: usize = 0;
    while n < order.len()
        invariant
            0 <= n <= order@.len(),
            keys@.len() == v@.len(),
            kv == key_views(keys@),
            is_stable_order(kv, order@),
            forall|k: int| 0 <= k < v@.len() ==> (#[trigger] keys@[k])@ == text_key(v@[k]@),
            strictly_sorted(strs(out@)),
            n == 0 ==> out@.len() == 0,
            n > 0 ==> out@.len() > 0 && out@.last()@ == v@[order@[n - 1] as int]@,
            forall|x: Seq<char>| #[trigger] strs(out@).contains(x) ==> strs(v@).contains(x),
            forall|m: int| 0 <= m < n ==> strs(out@).contains(v@[#[trigger] order@[m] as int]@),
        decreases order@.len() - n,
    {
        let k: usize = order[n];
        let fresh = if n == 0 {
            true
        } else {
            let prev: usize = order[n - 1];
            assert(before(kv, order@[n - 1] as int, order@[n as int] as int));
            key_lt(keys[prev].as_slice(), keys[k].as_slice())
        };
        if fresh {
            let ghost old_out = out@;
            out.push(v[k].clone());
            proof {
                lemma_strs_push(old_out, out@.last());
                assert forall|i: int, j: int| 0 <= i < j < out@.len() implies text_lt(
                    #[trigger] strs(out@)[i],
                    #[trigger] strs(out@)[j],
                ) by {
                    if j == out@.len() - 1 {
                        let last = old_out.len() - 1;
                        assert(strs(old_out)[last] == out@[last]@);
                        if i < last {
                            assert(text_lt(strs(old_out)[i], strs(old_out)[last]));
                            lemma_lex_transitive(
                                text_key(strs(old_out)[i]),
                                text_key(strs(old_out)[last]),
                                text_key(v@[k as int]@),
                            );
                        }
                    } else {
                        assert(text_lt(strs(old_out)[i], strs(old_out)[j]));
                    }
                }
                assert forall|x: Seq<char>| #[trigger] strs(out@).contains(x) implies strs(
                    v@,
                ).contains(x) by {
                    let w = choose|w: int| 0 <= w < strs(out@).len() && strs(out@)[w] == x;
                    if w < old_out.len() {
                        assert(strs(old_out)[w] == x);
                        assert(strs(old_out).contains(x));
                    } else {
                        assert(strs(v@)[k as int] == x);
                    }
                }
                assert forall|m: int| 0 <= m < n + 1 implies strs(out@).contains(
                    v@[#[trigger] order@[m] as int]@,
                ) by {
                    if m < n {
                        let x = v@[order@[m] as int]@;
                        assert(strs(old_out).contains(x));
                        let w = choose|w: int| 0 <= w < strs(old_out).len() && strs(old_out)[w] == x;
                        assert(strs(out@)[w] == x);
                    } else {
                        assert(strs(out@)[old_out.len() as int] == v@[k as int]@);
                    }
                }
            }
        } else {
            proof {
                let prev = order@[n - 1] as int;
                assert(kv[prev] == kv[k as int]);
                assert(keys@[prev]@ == keys@[k as int]@);
                lemma_text_key_injective(v@[prev]@, v@[k as int]@);
            }
        }
        n = n + 1;
    }
    proof {
        assert forall|x: Seq<char>| strs(v@).contains(x) implies #[trigger] strs(out@).contains(x) by {
            let w = choose|w: int| 0 <= w < strs(v@).len() && strs(v@)[w] == x;
            assert(listed(order@, w));
            let m = choose|m: int| 0 <= m < order@.len() && #[trigger] order@[m] == w;
            assert(strs(out@).contains(v@[order@[m] as int]@));
        }
    }
    out
}

// ---------------------------------------------------------------------------
// White space
// ---------------------------------------------------------------------------

/// Unicode's `White_Space` property.
pub open spec fn whitespace(c: char) -> bool {
    let u = c as u32;
    (0x9 <= u <= 0xd) || u == 0x20 || u == 0x85 || u == 0xa0 || u == 0x1680 || (0x2000 <= u
        <= 0x200a) || u == 0x2028 || u == 0x2029 || u == 0x202f || u == 0x205f || u == 0x3000
}

pub fn is_whitespace(c: char) -> (r: bool)
    ensures
        r == whitespace(c),
{
    let u: u32 = c as u32;
    (0x9 <= u && u <= 0xd) || u == 0x20 || u == 0x85 || u == 0xa0 || u == 0x1680 || (0x2000 <= u && u
        <= 0x200a) || u == 0x2028 || u == 0x2029 || u == 0x202f || u == 0x205f || u == 0x3000
}

/// `s` without its leading white space.
pub open spec fn trim_start(s: Seq<char>) -> Seq<char>
    decreases s.len(),
{
    if s.len() > 0 && whitespace(s[0]) {
        trim_start(s.skip(1))
    } else {
        s
    }
}

/// `s` without its trailing white space.
pub open spec fn trim_end(s: Seq<char>) -> Seq<char>
    decreases s.len(),
{
    if s.len() > 0 && whitespace(s.last()) {
        trim_end(s.drop_last())
    } else {
        s
    }
}

/// What `trim_start` drops is white space at the front.
pub proof fn lemma_trim_start(s: Seq<char>)
    ensures
        trim_start(s).len() <= s.len(),
        trim_start(s) == s.skip(s.len() - trim_start(s).len()),
        forall|k: int| 0 <= k < s.len() - trim_start(s).len() ==> whitespace(#[trigger] s[k]),
        trim_start(s).len() > 0 ==> !whitespace(trim_start(s)[0]),
    decreases s.len(),
{
    if s.len() > 0 && whitespace(s[0]) {
        lemma_trim_start(s.skip(1));
        let k = s.len() - trim_start(s).len();
        assert(s.skip(k) =~= s.skip(1).skip(k - 1));
        assert forall|i: int| 0 <= i < k implies whitespace(#[trigger] s[i]) by {
            if i > 0 {
                assert(s[i] == s.skip(1)[i - 1]);
            }
        }
    } else {
        assert(s.skip(0) =~= s);
    }
}

/// What `trim_end` drops is white space at the back.
pub proof fn lemma_trim_end(s: Seq<char>)
    ensures
        trim_end(s).len() <= s.len(),
        trim_end(s) == s.take(trim_end(s).len() as int),
        forall|k: int| trim_end(s).len() <= k < s.len() ==> whitespace(#[trigger] s[k]),
        trim_end(s).len() > 0 ==> !whitespace(trim_end(s).last()),
    decreases s.len(),
{
    if s.len() > 0 && whitespace(s.last()) {
        lemma_trim_end(s.drop_last());
        let k = trim_end(s).len() as int;
        assert(s.take(k) =~= s.drop_last().take(k));
        assert forall|i: int| k <= i < s.len() implies whitespace(#[trigger] s[i]) by {
            if i < s.len() - 1 {
                assert(s[i] == s.drop_last()[i]);
            }
        }
    } else {
        assert(s.take(s.len() as int) =~= s);
    }
}

/// `trim_start` drops all the white space at the front, and no more.
pub proof fn lemma_trim_start_is(s: Seq<char>, k: int)
    requires
        0 <= k <= s.len(),
        forall|i: int| 0 <= i < k ==> whitespace(#[trigger] s[i]),
        k < s.len() ==> !whitespace(s[k]),
    ensures
        trim_start(s) == s.skip(k),
{
    lemma_trim_start(s);
    let d = s.len() - trim_start(s).len();
    if d < k {
        assert(trim_start(s)[0] == s[d]);
    }
}

/// `trim_end` drops all the white space at the back, and no more.
pub proof fn lemma_trim_end_is(s: Seq<char>, k: int)
    requires
        0 <= k <= s.len(),
        forall|i: int| k <= i < s.len() ==> whitespace(#[trigger] s[i]),
        k > 0 ==> !whitespace(s[k - 1]),
    ensures
        trim_end(s) == s.take(k),
{
    lemma_trim_end(s);
    let d = trim_end(s).len() as int;
    if d > k {
        assert(trim_end(s).last() == s[d - 1]);
    }
}

/// The white space of ASCII: tab, line feed, vertical tab, form feed, carriage
/// return and space.
pub proof fn ascii_white_space(c: char)
    requires
        c as u32 <= 0x7f,
    ensures
        whitespace(c) <==> c == '\t' || c == '\n' || c == '\u{b}' || c == '\u{c}' || c == '\r' || c
            == ' ',
{
}

/// Trimming takes the white space at both ends and nothing else: a text that
/// neither starts nor ends with white space stays, whatever white space stands
/// around it.
pub proof fn trim_takes_the_white_space_around(before: Seq<char>, text: Seq<char>, after: Seq<char>)
    requires
        forall|i: int| 0 <= i < before.len() ==> whitespace(#[trigger] before[i]),
        forall|i: int| 0 <= i < after.len() ==> whitespace(#[trigger] after[i]),
        text.len() > 0 ==> !whitespace(text[0]) && !whitespace(text.last()),
    ensures
        trim(before + text + after) == text,
{
    let s = before + text + after;
    if text.len() > 0 {
        lemma_trim_start_is(s, before.len() as int);
        let u = s.skip(before.len() as int);
        assert(u =~= text + after);
        assert forall|i: int| text.len() <= i < u.len() implies whitespace(#[trigger] u[i]) by {
            assert(u[i] == after[i - text.len()]);
        }
        assert(u[text.len() - 1] == text.last());
        lemma_trim_end_is(u, text.len() as int);
        assert(u.take(text.len() as int) =~= text);
    } else {
        assert forall|i: int| 0 <= i < s.len() implies whitespace(#[trigger] s[i]) by {
            if i >= before.len() {
                assert(s[i] == after[i - before.len()]);
            }
        }
        lemma_trim_start_is(s, s.len() as int);
        assert(s.skip(s.len() as int) =~= text);
    }
}

/// `s` without white space at either end.
pub open spec fn trim(s: Seq<char>) -> Seq<char> {
    trim_end(trim_start(s))
}

/// A text that trimming keeps has no white space at its ends, and the other way
/// round.
pub proof fn trimmed_texts(s: Seq<char>)
    ensures
        trim(s) == s <==> (s.len() > 0 ==> !whitespace(s[0]) && !whitespace(s.last())),
{
    let u = trim_start(s);
    lemma_trim_start(s);
    lemma_trim_end(u);
    if trim(s) == s {
        assert(u =~= s);
    } else if s.len() > 0 && !whitespace(s[0]) {
        assert(u == s);
        if !whitespace(s.last()) {
            assert(trim_end(u) == u);
        }
    }
}

/// A trimmed text is trimmed, and has every character of the text that is no
/// white space.
pub proof fn lemma_trim(s: Seq<char>)
    ensures
        trim(s).len() <= s.len(),
        trim(trim(s)) == trim(s),
        forall|c: char| !whitespace(c) ==> (#[trigger] trim(s).contains(c) <==> s.contains(c)),
{
    let u = trim_start(s);
    let t = trim(s);
    lemma_trim_start(s);
    lemma_trim_end(u);
    let d = s.len() - u.len();
    if t.len() > 0 {
        assert(t[0] == u[0]);
    }
    assert forall|c: char| !whitespace(c) implies (#[trigger] t.contains(c) <==> s.contains(c)) by {
        if t.contains(c) {
            let i = choose|i: int| 0 <= i < t.len() && t[i] == c;
            assert(s[d + i] == c);
        }
        if s.contains(c) {
            let i = choose|i: int| 0 <= i < s.len() && s[i] == c;
            assert(i >= d);
            assert(u[i - d] == c);
            assert(i - d < t.len());
            assert(t[i - d] == c);
        }
    }
}

pub fn trim_start_of(s: &[char]) -> (r: &[char])
    ensures
        r@ == trim_start(s@),
{
    let mut i: usize = 0;
    assert(s@.skip(0) =~= s@);
    while i < s.len() && is_whitespace(s[i])
        invariant
            0 <= i <= s@.len(),
            trim_start(s@) == trim_start(s@.skip(i as int)),
        decreases s@.len() - i,
    {
        assert(s@.skip(i as int)[0] == s@[i as int]);
        assert(s@.skip(i as int).skip(1) =~= s@.skip(i + 1));
        i = i + 1;
    }
    proof {
        if i < s@.len() {
            assert(s@.skip(i as int)[0] == s@[i as int]);
        }
    }
    slice_subrange(s, i, s.len())
}

pub fn trim_end_of(s: &[char]) -> (r: &[char])
    ensures
        r@ == trim_end(s@),
{
    let mut j: usize = s.len();
    assert(s@.take(j as int) =~= s@);
    while j > 0 && is_whitespace(s[j - 1])
        invariant
            0 <= j <= s@.len(),
            trim_end(s@) == trim_end(s@.take(j as int)),
        decreases j,
    {
        assert(s@.take(j as int).last() == s@[j - 1]);
        assert(s@.take(j as int).drop_last() =~= s@.take(j - 1));
        j = j - 1;
    }
    proof {
        if j > 0 {
            assert(s@.take(j as int).last() == s@[j - 1]);
        }
    }
    slice_subrange(s, 0, j)
}

pub fn trimmed(s: &[char]) -> (r: &[char])
    ensures
        r@ == trim(s@),
{
    trim_end_of(trim_start_of(s))
}

// ---------------------------------------------------------------------------
// Searching
// ---------------------------------------------------------------------------

/// The first position at or after `i` that holds `c`, or the length.
pub open spec fn next_char(s: Seq<char>, i: int, c: char) -> int
    decreases s.len() - i,
{
    if i >= s.len() {
        s.len() as int
    } else if s[i] == c {
        i
    } else {
        next_char(s, i + 1, c)
    }
}

pub proof fn lemma_next_char(s: Seq<char>, i: int, c: char)
    requires
        0 <= i <= s.len(),
    ensures
        i <= next_char(s, i, c) <= s.len(),
        next_char(s, i, c) < s.len() ==> s[next_char(s, i, c)] == c,
        forall|k: int| i <= k < next_char(s, i, c) ==> s[k] != c,
    decreases s.len() - i,
{
    if i < s.len() && s[i] != c {
        lemma_next_char(s, i + 1, c);
    }
}

pub fn find_char(s: &[char], from: usize, c: char) -> (r: usize)
    requires
        from <= s@.len(),
    ensures
        r == next_char(s@, from as int, c),
        from <= r <= s@.len(),
{
    let mut i: usize = from;
    while i < s.len() && s[i] != c
        invariant
            from <= i <= s@.len(),
            next_char(s@, from as int, c) == next_char(s@, i as int, c),
        decreases s@.len() - i,
    {
        i = i + 1;
    }
    i
}

/// `s` holds the character `c`.
pub fn contains_char(s: &[char], c: char) -> (r: bool)
    ensures
        r == s@.contains(c),
{
    let i: usize = find_char(s, 0, c);
    proof {
        lemma_next_char(s@, 0, c);
        if i < s@.len() {
            assert(s@[i as int] == c);
        }
    }
    i < s.len()
}

/// `pat` stands in `s` at position `i`.
pub open spec fn matches_at(s: Seq<char>, i: int, pat: Seq<char>) -> bool {
    0 <= i && i + pat.len() <= s.len() && s.subrange(i, i + pat.len()) == pat
}

pub fn is_match_at(s: &[char], i: usize, pat: &[char]) -> (r: bool)
    requires
        i <= s@.len(),
    ensures
        r == matches_at(s@, i as int, pat@),
{
    if s.len() - i < pat.len() {
        return false;
    }
    let window = slice_subrange(s, i, i + pat.len());
    chars_eq(window, pat)
}

/// The first position at or after `i` where `pat` stands, or -1.
pub open spec fn find_from(s: Seq<char>, i: int, pat: Seq<char>) -> int
    decreases s.len() + 1 - i,
{
    if i + pat.len() > s.len() {
        -1
    } else if matches_at(s, i, pat) {
        i
    } else {
        find_from(s, i + 1, pat)
    }
}

pub proof fn lemma_find_from(s: Seq<char>, i: int, pat: Seq<char>)
    requires
        0 <= i,
    ensures
        find_from(s, i, pat) == -1 || (i <= find_from(s, i, pat) <= s.len() - pat.len() && matches_at(
            s,
            find_from(s, i, pat),
            pat,
        )),
        forall|k: int|
            #![trigger matches_at(s, k, pat)]
            i <= k && (find_from(s, i, pat) == -1 || k < find_from(s, i, pat)) ==> !matches_at(
                s,
                k,
                pat,
            ),
    decreases s.len() + 1 - i,
{
    if i + pat.len() <= s.len() && !matches_at(s, i, pat) {
        lemma_find_from(s, i + 1, pat);
    }
}

pub fn find_text(s: &[char], from: usize, pat: &[char]) -> (r: Option<usize>)
    requires
        from <= s@.len(),
    ensures
        match r {
            Some(i) => i == find_from(s@, from as int, pat@) && from <= i && i + pat@.len() <= s@.len()
                <= usize::MAX && matches_at(s@, i as int, pat@),
            None => find_from(s@, from as int, pat@) == -1,
        },
{
    let mut i: usize = from;
    loop
        invariant
            from <= i <= s@.len(),
            find_from(s@, from as int, pat@) == find_from(s@, i as int, pat@),
        decreases s@.len() - i,
    {
        if s.len() - i < pat.len() {
            return None;
        }
        if is_match_at(s, i, pat) {
            return Some(i);
        }
        if i == s.len() {
            assert(find_from(s@, i + 1, pat@) == -1);
            return None;
        }
        i = i + 1;
    }
}

/// `pat` occurs somewhere in `s`.
pub open spec fn has_text(s: Seq<char>, pat: Seq<char>) -> bool {
    exists|i: int| matches_at(s, i, pat)
}

/// A text holds another if and only if it is something in front of it, the other, and
/// something behind it.
pub proof fn held_text_stands_between_others(s: Seq<char>, pat: Seq<char>)
    ensures
        has_text(s, pat) <==> exists|a: Seq<char>, b: Seq<char>| s == #[trigger] (a + pat + b),
{
    if has_text(s, pat) {
        let i = choose|i: int| matches_at(s, i, pat);
        let a = s.take(i);
        let b = s.skip(i + pat.len());
        assert(s =~= a + pat + b);
    }
    if exists|a: Seq<char>, b: Seq<char>| s == #[trigger] (a + pat + b) {
        let (a, b) = choose|a: Seq<char>, b: Seq<char>| s == #[trigger] (a + pat + b);
        let i = a.len() as int;
        assert(s.subrange(i, i + pat.len()) =~= pat);
        assert(matches_at(s, i, pat));
    }
}

pub fn contains_text(s: &[char], pat: &[char]) -> (r: bool)
    ensures
        r == has_text(s@, pat@),
{
    proof {
        lemma_find_from(s@, 0, pat@);
    }
    match find_text(s, 0, pat) {
        Some(_) => true,
        None => false,
    }
}

/// The first place at or after `i` where `pat` stands is found.
pub proof fn lemma_find_is(s: Seq<char>, i: int, p: int, pat: Seq<char>)
    requires
        0 <= i <= p,
        matches_at(s, p, pat),
        forall|k: int| i <= k < p ==> !#[trigger] matches_at(s, k, pat),
    ensures
        find_from(s, i, pat) == p,
{
    lemma_find_from(s, i, pat);
}

/// Where `pat` does not stand, it is not found.
pub proof fn lemma_find_none(s: Seq<char>, i: int, pat: Seq<char>)
    requires
        0 <= i,
        forall|k: int| i <= k ==> !#[trigger] matches_at(s, k, pat),
    ensures
        find_from(s, i, pat) == -1,
{
    lemma_find_from(s, i, pat);
}

/// What stands behind a prefix stands there as it does on its own.
pub proof fn lemma_matches_behind(a: Seq<char>, b: Seq<char>, k: int, pat: Seq<char>)
    requires
        0 <= k,
    ensures
        matches_at(a + b, a.len() + k, pat) == matches_at(b, k, pat),
{
    if k + pat.len() <= b.len() {
        assert((a + b).subrange(a.len() + k, a.len() + k + pat.len()) =~= b.subrange(
            k,
            k + pat.len(),
        ));
    }
}

/// Behind a prefix the same is found as in the text on its own.
pub proof fn lemma_find_behind(a: Seq<char>, b: Seq<char>, k: int, pat: Seq<char>)
    requires
        0 <= k,
    ensures
        find_from(a + b, a.len() + k, pat) == (if find_from(b, k, pat) == -1 {
            -1
        } else {
            a.len() + find_from(b, k, pat)
        }),
    decreases b.len() + 1 - k,
{
    lemma_matches_behind(a, b, k, pat);
    lemma_find_from(b, k, pat);
    if k + pat.len() <= b.len() && !matches_at(b, k, pat) {
        lemma_find_behind(a, b, k + 1, pat);
        lemma_find_from(b, k + 1, pat);
    }
}

/// Two characters side by side.
pub proof fn lemma_pair_at(s: Seq<char>, i: int, x: char, y: char)
    ensures
        matches_at(s, i, seq![x, y]) <==> 0 <= i && i + 2 <= s.len() && s[i] == x && s[i + 1] == y,
{
    if 0 <= i && i + 2 <= s.len() {
        let two = s.subrange(i, i + 2);
        assert(two[0] == s[i] && two[1] == s[i + 1]);
        if s[i] == x && s[i + 1] == y {
            assert(two =~= seq![x, y]);
        }
    }
}

/// Three characters side by side.
pub proof fn lemma_triple_at(s: Seq<char>, i: int, x: char, y: char, z: char)
    ensures
        matches_at(s, i, seq![x, y, z]) <==> 0 <= i && i + 3 <= s.len() && s[i] == x && s[i + 1] == y
            && s[i + 2] == z,
{
    if 0 <= i && i + 3 <= s.len() {
        let three = s.subrange(i, i + 3);
        assert(three[0] == s[i] && three[1] == s[i + 1] && three[2] == s[i + 2]);
        if s[i] == x && s[i + 1] == y && s[i + 2] == z {
            assert(three =~= seq![x, y, z]);
        }
    }
}

/// The first place at or after `i` that holds `c` is found.
pub proof fn lemma_next_is(s: Seq<char>, i: int, p: int, c: char)
    requires
        0 <= i <= p <= s.len(),
        p < s.len() ==> s[p] == c,
        forall|k: int| i <= k < p ==> s[k] != c,
    ensures
        next_char(s, i, c) == p,
{
    lemma_next_char(s, i, c);
}

/// Behind a prefix a character is found as in the text on its own.
pub proof fn lemma_next_behind(a: Seq<char>, b: Seq<char>, k: int, c: char)
    requires
        0 <= k <= b.len(),
    ensures
        next_char(a + b, a.len() + k, c) == a.len() + next_char(b, k, c),
    decreases b.len() - k,
{
    if k < b.len() && b[k] != c {
        lemma_next_behind(a, b, k + 1, c);
    }
}

pub open spec fn starts_with(s: Seq<char>, pat: Seq<char>) -> bool {
    pat.len() <= s.len() && s.take(pat.len() as int) == pat
}

pub open spec fn ends_with(s: Seq<char>, pat: Seq<char>) -> bool {
    pat.len() <= s.len() && s.skip(s.len() - pat.len()) == pat
}

/// A text starts with what stands at its front, and ends with what stands at its back.
pub proof fn fronts_and_backs(s: Seq<char>, pat: Seq<char>)
    ensures
        starts_with(s, pat) <==> exists|rest: Seq<char>| s == #[trigger] (pat + rest),
        ends_with(s, pat) <==> exists|rest: Seq<char>| s == #[trigger] (rest + pat),
{
    let n = pat.len() as int;
    if starts_with(s, pat) {
        assert(s =~= pat + s.skip(n));
    }
    if exists|rest: Seq<char>| s == #[trigger] (pat + rest) {
        let rest = choose|rest: Seq<char>| s == #[trigger] (pat + rest);
        assert(s.take(n) =~= pat);
    }
    if ends_with(s, pat) {
        assert(s =~= s.take(s.len() - n) + pat);
    }
    if exists|rest: Seq<char>| s == #[trigger] (rest + pat) {
        let rest = choose|rest: Seq<char>| s == #[trigger] (rest + pat);
        assert(s.skip(s.len() - n) =~= pat);
    }
}

pub fn has_prefix(s: &[char], pat: &[char]) -> (r: bool)
    ensures
        r == starts_with(s@, pat@),
{
    if s.len() < pat.len() {
        return false;
    }
    chars_eq(slice_subrange(s, 0, pat.len()), pat)
}

pub fn has_suffix(s: &[char], pat: &[char]) -> (r: bool)
    ensures
        r == ends_with(s@, pat@),
{
    if s.len() < pat.len() {
        return false;
    }
    chars_eq(slice_subrange(s, s.len() - pat.len(), s.len()), pat)
}

pub fn prefix_of(s: &[char], j: usize) -> (r: &[char])
    requires
        j <= s@.len(),
    ensures
        r@ == s@.take(j as int),
{
    slice_subrange(s, 0, j)
}

pub fn suffix_of(s: &[char], i: usize) -> (r: &[char])
    requires
        i <= s@.len(),
    ensures
        r@ == s@.skip(i as int),
{
    slice_subrange(s, i, s.len())
}

// ---------------------------------------------------------------------------
// Replacing, splitting, joining
// ---------------------------------------------------------------------------

/// `s` with every `from` turned into `to`.
pub open spec fn replace_char(s: Seq<char>, from: char, to: char) -> Seq<char> {
    Seq::new(s.len(), |i: int| if s[i] == from { to } else { s[i] })
}

pub fn with_char_replaced(s: &[char], from: char, to: char) -> (r: Vec<char>)
    ensures
        r@ == replace_char(s@, from, to),
{
    let mut out: Vec<char> = Vec::new();
    let mut i: usize = 0;
    while i < s.len()
        invariant
            0 <= i <= s@.len(),
            out@ == replace_char(s@, from, to).take(i as int),
        decreases s@.len() - i,
    {
        if s[i] == from {
            out.push(to);
        } else {
            out.push(s[i]);
        }
        i = i + 1;
        assert(out@ =~= replace_char(s@, from, to).take(i as int));
    }
    assert(out@ =~= replace_char(s@, from, to));
    out
}

/// The pieces of `s` from position `i` on, cut at every `c`.
pub open spec fn split_from(s: Seq<char>, i: int, c: char) -> Seq<Seq<char>>
    decreases s.len() - i,
{
    if 0 <= i <= s.len() {
        let j = next_char(s, i, c);
        if i <= j < s.len() {
            seq![s.subrange(i, j)] + split_from(s, j + 1, c)
        } else {
            seq![s.skip(i)]
        }
    } else {
        seq![]
    }
}

/// The pieces of `s` between the occurrences of `c`; there is always one.
pub open spec fn split(s: Seq<char>, c: char) -> Seq<Seq<char>> {
    split_from(s, 0, c)
}

pub fn split_on(s: &[char], c: char) -> (r: Vec<Vec<char>>)
    ensures
        texts(r@) == split(s@, c),
        r@.len() >= 1,
{
    let mut out: Vec<Vec<char>> = Vec::new();
    let mut i: usize = 0;
    assert(split(s@, c) =~= texts(out@) + split_from(s@, 0, c));
    loop
        invariant
            0 <= i <= s@.len(),
            split(s@, c) == texts(out@) + split_from(s@, i as int, c),
        decreases s@.len() - i,
    {
        let ghost before_push = out@;
        let j: usize = find_char(s, i, c);
        if j == s.len() {
            let piece = slice_to_vec(slice_subrange(s, i, s.len()));
            proof {
                lemma_texts_push(out@, piece);
            }
            out.push(piece);
            assert(texts(out@) =~= texts(before_push) + split_from(s@, i as int, c));
            return out;
        }
        let piece = slice_to_vec(slice_subrange(s, i, j));
        proof {
            lemma_texts_push(out@, piece);
        }
        out.push(piece);
        assert(texts(out@) + split_from(s@, j + 1, c) =~= texts(before_push) + split_from(
            s@,
            i as int,
            c,
        ));
        i = j + 1;
    }
}

proof fn lemma_split_behind(a: Seq<char>, b: Seq<char>, k: int, c: char)
    requires
        0 <= k <= b.len(),
    ensures
        split_from(a + b, a.len() + k, c) == split_from(b, k, c),
    decreases b.len() - k,
{
    let s = a + b;
    let at = a.len() + k;
    lemma_next_behind(a, b, k, c);
    lemma_next_char(b, k, c);
    let j = next_char(b, k, c);
    if j < b.len() {
        lemma_split_behind(a, b, j + 1, c);
        assert(s.subrange(at, at + (j - k)) =~= b.subrange(k, j));
    } else {
        assert(s.skip(at) =~= b.skip(k));
    }
}

/// A separator ends the first piece, and what follows is cut on its own. A text
/// without a separator is one piece.
pub proof fn pieces_end_at_separators(piece: Seq<char>, rest: Seq<char>, c: char)
    requires
        !piece.contains(c),
    ensures
        split(piece.push(c) + rest, c) == seq![piece] + split(rest, c),
        split(piece, c) == seq![piece],
{
    let head = piece.push(c);
    let s = head + rest;
    let n = piece.len() as int;
    assert forall|k: int| 0 <= k < n implies s[k] != c && piece[k] != c by {
        assert(piece.contains(piece[k]));
    }
    lemma_next_is(s, 0, n, c);
    lemma_next_is(piece, 0, n, c);
    assert(s.subrange(0, n) =~= piece);
    assert(piece.skip(0) =~= piece);
    lemma_split_behind(head, rest, 0, c);
}

/// Two texts with a separator between them: the pieces of the one, and then those
/// of the other.
pub proof fn pieces_of_two_texts(a: Seq<char>, b: Seq<char>, c: char)
    ensures
        split(a.push(c) + b, c) == split(a, c) + split(b, c),
    decreases a.len(),
{
    lemma_next_char(a, 0, c);
    let j = next_char(a, 0, c);
    let piece = a.take(j);
    assert(!piece.contains(c)) by {
        if piece.contains(c) {
            let k = choose|k: int| 0 <= k < piece.len() && piece[k] == c;
            assert(a[k] == c);
        }
    }
    if j < a.len() {
        let more = a.skip(j + 1);
        assert(a =~= piece.push(c) + more);
        assert(a.push(c) + b =~= piece.push(c) + (more.push(c) + b));
        pieces_end_at_separators(piece, more, c);
        pieces_end_at_separators(piece, more.push(c) + b, c);
        pieces_of_two_texts(more, b, c);
        assert(seq![piece] + (split(more, c) + split(b, c)) =~= seq![piece] + split(more, c) + split(
            b,
            c,
        ));
    } else {
        assert(piece =~= a);
        pieces_end_at_separators(a, b, c);
    }
}

/// The pieces with `sep` between neighbours.
pub open spec fn join(parts: Seq<Seq<char>>, sep: Seq<char>) -> Seq<char>
    decreases parts.len(),
{
    if parts.len() == 0 {
        seq![]
    } else if parts.len() == 1 {
        parts[0]
    } else {
        join(parts.drop_last(), sep) + sep + parts.last()
    }
}

/// Two lists joined are the one joined, the separator, and the other joined; a
/// single part joined is that part.
pub proof fn two_lists_are_joined(a: Seq<Seq<char>>, b: Seq<Seq<char>>, sep: Seq<char>)
    ensures
        a.len() > 0 && b.len() > 0 ==> join(a + b, sep) == join(a, sep) + sep + join(b, sep),
        a.len() == 0 ==> join(a + b, sep) == join(b, sep) && join(a, sep).len() == 0,
        a.len() == 1 ==> join(a, sep) == a[0],
    decreases b.len(),
{
    if a.len() == 0 {
        assert(a + b =~= b);
    } else if b.len() == 1 {
        assert((a + b).drop_last() =~= a);
    } else if b.len() > 1 {
        two_lists_are_joined(a, b.drop_last(), sep);
        assert((a + b).drop_last() =~= a + b.drop_last());
        let front = join(b.drop_last(), sep);
        assert(join(a, sep) + sep + front + sep + b.last() =~= join(a, sep) + sep + (front + sep
            + b.last()));
    }
}

pub fn joined(parts: &Vec<Vec<char>>, sep: &[char]) -> (r: Vec<char>)
    ensures
        r@ == join(texts(parts@), sep@),
{
    let mut out: Vec<char> = Vec::new();
    let mut i: usize = 0;
    while i < parts.len()
        invariant
            0 <= i <= parts@.len(),
            out@ == join(texts(parts@).take(i as int), sep@),
        decreases parts@.len() - i,
    {
        if i > 0 {
            push_all(&mut out, sep);
        }
        push_all(&mut out, parts[i].as_slice());
        proof {
            let t = texts(parts@).take(i + 1);
            assert(t.drop_last() =~= texts(parts@).take(i as int));
            assert(t.last() == parts@[i as int]@);
            assert(out@ =~= join(t, sep@));
        }
        i = i + 1;
    }
    assert(texts(parts@).take(i as int) =~= texts(parts@));
    out
}

/// The pieces that are not empty, in order.
pub open spec fn nonempty(parts: Seq<Seq<char>>) -> Seq<Seq<char>>
    decreases parts.len(),
{
    if parts.len() == 0 {
        seq![]
    } else if parts.last().len() == 0 {
        nonempty(parts.drop_last())
    } else {
        nonempty(parts.drop_last()).push(parts.last())
    }
}

/// The non-empty ones among two lists are those of the one, and then those of the
/// other; among one piece it is that piece, unless it is empty.
pub proof fn nonempty_of_two_lists(a: Seq<Seq<char>>, b: Seq<Seq<char>>)
    ensures
        nonempty(a + b) == nonempty(a) + nonempty(b),
        forall|x: Seq<char>| #[trigger]
            nonempty(seq![x]) == (if x.len() == 0 {
                Seq::<Seq<char>>::empty()
            } else {
                seq![x]
            }),
    decreases b.len(),
{
    assert forall|x: Seq<char>| #[trigger] nonempty(seq![x]) == (if x.len() == 0 {
        Seq::<Seq<char>>::empty()
    } else {
        seq![x]
    }) by {
        let one = seq![x];
        assert(one.drop_last() =~= seq![]);
        assert(nonempty(one.drop_last()) =~= seq![]);
        assert(one.last() == x);
        assert(seq![].push(x) =~= one);
    }
    if b.len() == 0 {
        assert(a + b =~= a);
        assert(nonempty(a) + nonempty(b) =~= nonempty(a));
    } else {
        nonempty_of_two_lists(a, b.drop_last());
        assert((a + b).drop_last() =~= a + b.drop_last());
        assert((a + b).last() == b.last());
        assert(nonempty(a + b) =~= nonempty(a) + nonempty(b));
    }
}

/// The non-empty pieces of `s` between the occurrences of `c`.
pub fn split_nonempty(s: &[char], c: char) -> (r: Vec<Vec<char>>)
    ensures
        texts(r@) == nonempty(split(s@, c)),
{
    let parts = split_on(s, c);
    let mut out: Vec<Vec<char>> = Vec::new();
    let mut i: usize = 0;
    while i < parts.len()
        invariant
            0 <= i <= parts@.len(),
            texts(parts@) == split(s@, c),
            texts(out@) == nonempty(split(s@, c).take(i as int)),
        decreases parts@.len() - i,
    {
        proof {
            let t = split(s@, c).take(i + 1);
            assert(t.drop_last() =~= split(s@, c).take(i as int));
            assert(t.last() == texts(parts@)[i as int]);
        }
        if parts[i].len() > 0 {
            let piece = slice_to_vec(parts[i].as_slice());
            proof {
                lemma_texts_push(out@, piece);
            }
            out.push(piece);
        }
        i = i + 1;
    }
    assert(split(s@, c).take(i as int) =~= split(s@, c));
    out
}

/// The part of `s` behind its last `c`, or all of `s`.
pub open spec fn after_last(s: Seq<char>, c: char) -> Seq<char>
    decreases s.len(),
{
    if s.len() == 0 {
        s
    } else if s.last() == c {
        seq![]
    } else {
        after_last(s.drop_last(), c).push(s.last())
    }
}

/// The position behind the last `c` of `s`, or 0.
pub open spec fn last_start(s: Seq<char>, c: char) -> int
    decreases s.len(),
{
    if s.len() == 0 {
        0
    } else if s.last() == c {
        s.len() as int
    } else {
        last_start(s.drop_last(), c)
    }
}

pub proof fn lemma_last_start(s: Seq<char>, c: char)
    ensures
        0 <= last_start(s, c) <= s.len(),
        after_last(s, c) == s.skip(last_start(s, c)),
        last_start(s, c) > 0 ==> s[last_start(s, c) - 1] == c,
        forall|k: int| last_start(s, c) <= k < s.len() ==> s[k] != c,
    decreases s.len(),
{
    if s.len() > 0 {
        if s.last() == c {
            assert(s.skip(s.len() as int) =~= seq![]);
        } else {
            lemma_last_start(s.drop_last(), c);
            let i = last_start(s.drop_last(), c);
            assert(s.skip(i) =~= s.drop_last().skip(i).push(s.last()));
            assert forall|k: int| i <= k < s.len() implies s[k] != c by {
                if k < s.len() - 1 {
                    assert(s.drop_last()[k] == s[k]);
                }
            }
        }
    } else {
        assert(s.skip(0) =~= s);
    }
}

pub fn find_last_start(s: &[char], c: char) -> (r: usize)
    ensures
        r == last_start(s@, c),
        r <= s@.len(),
{
    let mut j: usize = s.len();
    assert(s@.take(j as int) =~= s@);
    while j > 0 && s[j - 1] != c
        invariant
            0 <= j <= s@.len(),
            last_start(s@, c) == last_start(s@.take(j as int), c),
        decreases j,
    {
        assert(s@.take(j as int).last() == s@[j - 1]);
        assert(s@.take(j as int).drop_last() =~= s@.take(j - 1));
        j = j - 1;
    }
    proof {
        if j > 0 {
            assert(s@.take(j as int).last() == s@[j - 1]);
        }
    }
    j
}

pub fn tail_after_last(s: &[char], c: char) -> (r: &[char])
    ensures
        r@ == after_last(s@, c),
{
    let i: usize = find_last_start(s, c);
    proof {
        lemma_last_start(s@, c);
    }
    slice_subrange(s, i, s.len())
}

// ---------------------------------------------------------------------------
// Lines
// ---------------------------------------------------------------------------

/// The pieces of `s` from `i` on, each ending with its line feed except
/// possibly the last; no piece is empty.
pub open spec fn raw_lines_from(s: Seq<char>, i: int) -> Seq<Seq<char>>
    decreases s.len() - i,
{
    if 0 <= i < s.len() {
        let j = next_char(s, i, '\n');
        if i <= j < s.len() {
            seq![s.subrange(i, j + 1)] + raw_lines_from(s, j + 1)
        } else {
            seq![s.skip(i)]
        }
    } else {
        seq![]
    }
}

/// The lines of `s`, each with its line feed.
pub open spec fn raw_lines(s: Seq<char>) -> Seq<Seq<char>> {
    raw_lines_from(s, 0)
}

/// A line without its ending, which is a line feed or a carriage return and a
/// line feed.
pub open spec fn chomp(line: Seq<char>) -> Seq<char> {
    if line.len() > 0 && line.last() == '\n' {
        let body = line.drop_last();
        if body.len() > 0 && body.last() == '\r' {
            body.drop_last()
        } else {
            body
        }
    } else {
        line
    }
}

/// The lines of `s` without their endings.
pub open spec fn lines(s: Seq<char>) -> Seq<Seq<char>> {
    Seq::new(raw_lines(s).len(), |i: int| chomp(raw_lines(s)[i]))
}

proof fn lemma_raw_lines_behind(a: Seq<char>, b: Seq<char>, k: int)
    requires
        0 <= k <= b.len(),
    ensures
        raw_lines_from(a + b, a.len() + k) == raw_lines_from(b, k),
    decreases b.len() - k,
{
    let s = a + b;
    let at = a.len() + k;
    if k < b.len() {
        lemma_next_behind(a, b, k, '\n');
        lemma_next_char(b, k, '\n');
        let j = next_char(b, k, '\n');
        if j < b.len() {
            lemma_raw_lines_behind(a, b, j + 1);
            assert(s.subrange(at, at + (j - k) + 1) =~= b.subrange(k, j + 1));
        } else {
            assert(s.skip(at) =~= b.skip(k));
        }
    }
}

/// A line feed ends the first line, and what follows is read on its own.
pub proof fn first_raw_line(line: Seq<char>, rest: Seq<char>)
    requires
        !line.contains('\n'),
    ensures
        raw_lines(line.push('\n') + rest) == seq![line.push('\n')] + raw_lines(rest),
{
    let head = line.push('\n');
    let s = head + rest;
    let n = line.len() as int;
    assert forall|k: int| 0 <= k < n implies s[k] != '\n' by {
        assert(line.contains(s[k]));
    }
    lemma_next_is(s, 0, n, '\n');
    assert(s.subrange(0, n + 1) =~= head);
    lemma_raw_lines_behind(head, rest, 0);
}

/// A text without a line feed is one line; the empty text has none.
pub proof fn last_raw_line(line: Seq<char>)
    requires
        !line.contains('\n'),
    ensures
        raw_lines(line) == (if line.len() == 0 {
            seq![]
        } else {
            seq![line]
        }),
{
    assert forall|k: int| 0 <= k < line.len() implies line[k] != '\n' by {
        assert(line.contains(line[k]));
    }
    lemma_next_is(line, 0, line.len() as int, '\n');
    assert(line.skip(0) =~= line);
}

/// A text that ends with a line feed, or is empty, and another behind it: the
/// lines of the one, and then those of the other.
pub proof fn lines_of_two_texts(a: Seq<char>, b: Seq<char>)
    requires
        a.len() > 0 ==> a.last() == '\n',
    ensures
        raw_lines(a + b) == raw_lines(a) + raw_lines(b),
        lines(a + b) == lines(a) + lines(b),
    decreases a.len(),
{
    if a.len() == 0 {
        assert(a + b =~= b);
        assert(raw_lines(a) =~= seq![]);
    } else {
        lemma_next_char(a, 0, '\n');
        let j = next_char(a, 0, '\n');
        let line = a.take(j);
        let more = a.skip(j + 1);
        assert(a =~= line.push('\n') + more);
        assert(a + b =~= line.push('\n') + (more + b));
        first_raw_line(line, more);
        first_raw_line(line, more + b);
        lines_of_two_texts(more, b);
    }
    assert(raw_lines(a + b) =~= raw_lines(a) + raw_lines(b));
    assert(lines(a + b) =~= lines(a) + lines(b));
}

/// The lines of a text: each ends at its line feed, which may have a carriage
/// return before it, and the rest is read on its own. A text without a line feed
/// is one line, unless it is empty.
pub proof fn lines_end_at_line_feeds(line: Seq<char>, rest: Seq<char>)
    requires
        !line.contains('\n'),
    ensures
        lines(line.push('\n') + rest) == seq![
            if line.len() > 0 && line.last() == '\r' {
                line.drop_last()
            } else {
                line
            },
        ] + lines(rest),
        line.len() > 0 ==> lines(line) == seq![line],
        lines(seq![]) == Seq::<Seq<char>>::empty(),
{
    first_raw_line(line, rest);
    last_raw_line(line);
    let none = Seq::<char>::empty();
    last_raw_line(none);
    let head = line.push('\n');
    let all = head + rest;
    assert(head.drop_last() =~= line);
    assert(lines(all) =~= seq![chomp(head)] + lines(rest));
    assert(lines(none) =~= Seq::<Seq<char>>::empty());
    if line.len() > 0 {
        assert(line.last() != '\n') by {
            assert(line.contains(line.last()));
        }
        assert(lines(line) =~= seq![line]);
    }
}

pub fn chomped(line: &[char]) -> (r: &[char])
    ensures
        r@ == chomp(line@),
{
    let n: usize = line.len();
    if n > 0 && line[n - 1] == '\n' {
        if n > 1 && line[n - 2] == '\r' {
            assert(line@.drop_last().drop_last() =~= line@.take(n - 2));
            assert(line@.drop_last().last() == line@[n - 2]);
            return slice_subrange(line, 0, n - 2);
        }
        assert(line@.drop_last() =~= line@.take(n - 1));
        if n > 1 {
            assert(line@.drop_last().last() == line@[n - 2]);
        }
        return slice_subrange(line, 0, n - 1);
    }
    line
}

pub fn split_raw_lines(s: &[char]) -> (r: Vec<Vec<char>>)
    ensures
        texts(r@) == raw_lines(s@),
{
    let mut out: Vec<Vec<char>> = Vec::new();
    let mut i: usize = 0;
    assert(raw_lines(s@) =~= texts(out@) + raw_lines_from(s@, 0));
    while i < s.len()
        invariant
            0 <= i <= s@.len(),
            raw_lines(s@) == texts(out@) + raw_lines_from(s@, i as int),
        decreases s@.len() - i,
    {
        let ghost before_push = out@;
        let j: usize = find_char(s, i, '\n');
        let end: usize = if j < s.len() {
            j + 1
        } else {
            j
        };
        let piece = slice_to_vec(slice_subrange(s, i, end));
        proof {
            lemma_texts_push(out@, piece);
        }
        out.push(piece);
        proof {
            if j == s@.len() {
                assert(raw_lines_from(s@, end as int) =~= seq![]);
            }
            assert(texts(out@) + raw_lines_from(s@, end as int) =~= texts(before_push)
                + raw_lines_from(s@, i as int));
        }
        i = end;
    }
    assert(texts(out@) =~= raw_lines(s@));
    out
}

pub fn split_lines(s: &[char]) -> (r: Vec<Vec<char>>)
    ensures
        texts(r@) == lines(s@),
{
    let raw = split_raw_lines(s);
    let mut out: Vec<Vec<char>> = Vec::new();
    let mut i: usize = 0;
    while i < raw.len()
        invariant
            0 <= i <= raw@.len(),
            texts(raw@) == raw_lines(s@),
            texts(out@) == lines(s@).take(i as int),
        decreases raw@.len() - i,
    {
        let piece = slice_to_vec(chomped(raw[i].as_slice()));
        proof {
            lemma_texts_push(out@, piece);
            assert(texts(raw@)[i as int] == raw@[i as int]@);
        }
        out.push(piece);
        i = i + 1;
        assert(texts(out@) =~= lines(s@).take(i as int));
    }
    assert(lines(s@).take(i as int) =~= lines(s@));
    out
}

// ---------------------------------------------------------------------------
// Letters and digits
// ---------------------------------------------------------------------------

/// What `str::to_lowercase` of the standard library makes of a string.
pub uninterp spec fn lowercase(s: Seq<char>) -> Seq<char>;

/// `str::to_lowercase`: the Unicode lower case mapping of the whole string,
/// which depends on the string alone. A slash has no case and is the lower case
/// of nothing else, so the mapping neither drops nor adds one.
#[verifier::external_body]
pub(crate) fn to_lowercase(s: &str) -> (r: String)
    ensures
        r@ == lowercase(s@),
        r@.contains('/') <==> s@.contains('/'),
{
    s.to_lowercase()
}

/// Whether `char::is_alphanumeric` of the standard library holds.
pub uninterp spec fn alphanumeric(c: char) -> bool;

/// `char::is_alphanumeric`: whether Unicode counts the character as a letter
/// or a number, which depends on the character alone. A control code is
/// neither.
#[verifier::external_body]
pub(crate) fn is_alphanumeric(c: char) -> (r: bool)
    ensures
        r == alphanumeric(c),
        c as u32 <= 0x1f ==> !r,
{
    c.is_alphanumeric()
}

pub open spec fn ascii_upper(c: char) -> bool {
    'A' <= c && c <= 'Z'
}

pub open spec fn ascii_digit(c: char) -> bool {
    '0' <= c && c <= '9'
}

pub open spec fn ascii_alphanumeric(c: char) -> bool {
    ascii_upper(c) || ('a' <= c && c <= 'z') || ascii_digit(c)
}

/// The lower case form of an ASCII capital; any other character as it is.
pub open spec fn ascii_lower(c: char) -> char {
    if ascii_upper(c) {
        ((c as u8) + 32u8) as u8 as char
    } else {
        c
    }
}

pub fn to_ascii_lower(c: char) -> (r: char)
    ensures
        r == ascii_lower(c),
{
    if 'A' <= c && c <= 'Z' {
        ((c as u8) + 32) as char
    } else {
        c
    }
}

/// `s` with every ASCII capital in lower case.
pub open spec fn ascii_lower_all(s: Seq<char>) -> Seq<char> {
    Seq::new(s.len(), |i: int| ascii_lower(s[i]))
}

pub fn to_ascii_lower_all(s: &[char]) -> (r: Vec<char>)
    ensures
        r@ == ascii_lower_all(s@),
{
    let mut out: Vec<char> = Vec::new();
    let mut i: usize = 0;
    while i < s.len()
        invariant
            0 <= i <= s@.len(),
            out@ == ascii_lower_all(s@).take(i as int),
        decreases s@.len() - i,
    {
        out.push(to_ascii_lower(s[i]));
        i = i + 1;
        assert(out@ =~= ascii_lower_all(s@).take(i as int));
    }
    assert(out@ =~= ascii_lower_all(s@));
    out
}

/// The decimal digit that stands for `d`.
pub open spec fn digit(d: nat) -> char {
    if d == 0 {
        '0'
    } else if d == 1 {
        '1'
    } else if d == 2 {
        '2'
    } else if d == 3 {
        '3'
    } else if d == 4 {
        '4'
    } else if d == 5 {
        '5'
    } else if d == 6 {
        '6'
    } else if d == 7 {
        '7'
    } else if d == 8 {
        '8'
    } else {
        '9'
    }
}

/// A number in decimal, without leading zeros.
pub open spec fn decimal(n: nat) -> Seq<char>
    decreases n,
{
    if n < 10 {
        seq![digit(n)]
    } else {
        decimal(n / 10).push(digit(n % 10))
    }
}

/// A number is written digit by digit, the highest first.
pub proof fn decimals_are_written_digit_by_digit(n: nat, d: nat)
    requires
        d < 10,
    ensures
        digit(d) as u32 == '0' as u32 + d,
        decimal(d) == seq![digit(d)],
        n > 0 ==> decimal(10 * n + d) == decimal(n).push(digit(d)),
{
    if n > 0 {
        assert((10 * n + d) / 10 == n);
        assert((10 * n + d) % 10 == d);
    }
}

pub proof fn lemma_decimal_injective(a: nat, b: nat)
    requires
        decimal(a) == decimal(b),
    ensures
        a == b,
    decreases a,
{
    lemma_decimal_len(a);
    lemma_decimal_len(b);
    assert(decimal(a).last() == digit(a % 10));
    assert(decimal(b).last() == digit(b % 10));
    assert(a % 10 == b % 10);
    if a >= 10 && b >= 10 {
        assert(decimal(a).drop_last() =~= decimal(a / 10));
        assert(decimal(b).drop_last() =~= decimal(b / 10));
        lemma_decimal_injective(a / 10, b / 10);
    }
}

/// A decimal holds digits alone.
pub proof fn lemma_decimal_digits(n: nat)
    ensures
        forall|i: int| 0 <= i < decimal(n).len() ==> '0' <= #[trigger] decimal(n)[i] <= '9',
    decreases n,
{
    if n >= 10 {
        lemma_decimal_digits(n / 10);
        assert forall|i: int| 0 <= i < decimal(n).len() implies '0' <= #[trigger] decimal(n)[i]
            <= '9' by {
            if i < decimal(n / 10).len() {
                assert(decimal(n)[i] == decimal(n / 10)[i]);
            } else {
                assert(decimal(n)[i] == digit(n % 10));
            }
        }
    }
}

proof fn lemma_decimal_len(a: nat)
    ensures
        decimal(a).len() >= 1,
        a >= 10 ==> decimal(a).len() >= 2,
    decreases a,
{
    if a >= 10 {
        lemma_decimal_len(a / 10);
    }
}

fn digit_char(d: u128) -> (r: char)
    requires
        d < 10,
    ensures
        r == digit(d as nat),
{
    if d == 0 {
        '0'
    } else if d == 1 {
        '1'
    } else if d == 2 {
        '2'
    } else if d == 3 {
        '3'
    } else if d == 4 {
        '4'
    } else if d == 5 {
        '5'
    } else if d == 6 {
        '6'
    } else if d == 7 {
        '7'
    } else if d == 8 {
        '8'
    } else {
        '9'
    }
}

pub fn to_decimal(n: u128) -> (r: Vec<char>)
    ensures
        r@ == decimal(n as nat),
    decreases n,
{
    if n < 10 {
        let mut out: Vec<char> = Vec::new();
        out.push(digit_char(n));
        assert(out@ =~= decimal(n as nat));
        out
    } else {
        let mut out = to_decimal(n / 10);
        out.push(digit_char(n % 10));
        out
    }
}

} // verus!
