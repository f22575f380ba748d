//! Reconciling a remote collection with its local mirror.
//!
//! A pass walks the collection and the mirror side by side. For each entry the
//! pass says what to do, and is told what came of it. Nothing is ever deleted
//! on the remote.

use vstd::prelude::*;
use vstd::slice::{slice_subrange, slice_to_vec};

use crate::tables::contains_string;
use crate::text::{
    ascii_digit, chars_eq, clone_opt, from_chars, has_prefix, join, lemma_strs_push, nonempty,
    opt_text, push_all, split, split_on, starts_with, str_eq, str_owned, strs, suffix_of, texts,
    to_chars,
};
use crate::webdav::{
    drop_trailing_slashes, without_trailing_slashes, WebDavEntry, WebDavEntryView, WebDavError,
};

verus! {

/// The version of the stored state.
pub const STATE_VERSION: u32 = 1;

// ---------------------------------------------------------------------------
// Paths and errors
// ---------------------------------------------------------------------------

/// A child's path below a folder; the empty folder is the vault root.
pub open spec fn joined_rel(dir: Seq<char>, child: Seq<char>) -> Seq<char> {
    if dir.len() == 0 {
        child
    } else {
        drop_trailing_slashes(dir) + seq!['/'] + child
    }
}

pub fn join_rel(dir_rel: &str, child: &str) -> (r: String)
    ensures
        r@ == joined_rel(dir_rel@, child@),
{
    if dir_rel.is_empty() {
        return str_owned(child);
    }
    let dir = to_chars(dir_rel);
    let mut out = slice_to_vec(without_trailing_slashes(dir.as_slice()));
    out.push('/');
    crate::text::push_str(&mut out, child);
    assert(out@ =~= joined_rel(dir_rel@, child@));
    from_chars(out.as_slice())
}

/// The name is one that the vault keeps for itself.
pub open spec fn own_name(name: Seq<char>) -> bool {
    starts_with(name, ".hatchdoor"@)
}

pub fn is_hatchdoor_name(name: &str) -> (r: bool)
    ensures
        r == own_name(name@),
{
    let chars = to_chars(name);
    let prefix = to_chars(".hatchdoor");
    has_prefix(chars.as_slice(), prefix.as_slice())
}

/// The folders above a file, as path parts.
pub open spec fn folder_segments(file_rel: Seq<char>) -> Seq<Seq<char>> {
    nonempty(split(file_rel, '/').drop_last())
}

/// The folders above a file, the outermost first.
pub open spec fn ancestors_of(file_rel: Seq<char>) -> Seq<Seq<char>> {
    let parts = folder_segments(file_rel);
    Seq::new(parts.len(), |i: int| join(parts.take(i + 1), seq!['/']))
}

pub fn ancestor_dirs(file_rel: &str) -> (r: Vec<String>)
    ensures
        strs(r@) == ancestors_of(file_rel@),
{
    let chars = to_chars(file_rel);
    let mut whole = split_on(chars.as_slice(), '/');
    let ghost sv = split(file_rel@, '/');
    let _ = whole.pop();
    assert(texts(whole@) =~= sv.drop_last());
    let ghost wv = texts(whole@);
    let mut prefix: Vec<char> = Vec::new();
    let ghost mut parts: Seq<Seq<char>> = seq![];
    let mut out: Vec<String> = Vec::new();
    let mut i: usize = 0;
    assert(nonempty(wv.take(0)) =~= seq![]);
    assert(strs(out@) =~= Seq::new(0, |k: int| join(parts.take(k + 1), seq!['/'])));
    while i < whole.len()
        invariant
            0 <= i <= whole@.len(),
            wv == texts(whole@),
            parts == nonempty(wv.take(i as int)),
            prefix@ == join(parts, seq!['/']),
            forall|k: int| 0 <= k < parts.len() ==> (#[trigger] parts[k]).len() > 0,
            strs(out@) == Seq::new(parts.len(), |k: int| join(parts.take(k + 1), seq!['/'])),
        decreases whole@.len() - i,
    {
        proof {
            assert(wv.take(i + 1).drop_last() =~= wv.take(i as int));
            assert(wv.take(i + 1).last() == wv[i as int]);
            assert(wv[i as int] == whole@[i as int]@);
        }
        if whole[i].len() > 0 {
            let ghost before = parts;
            proof {
                if before.len() > 0 {
                    lemma_join_nonempty(before, seq!['/']);
                }
                parts = before.push(whole@[i as int]@);
                assert(parts.drop_last() =~= before);
            }
            if prefix.len() > 0 {
                prefix.push('/');
            }
            push_all(&mut prefix, whole[i].as_slice());
            proof {
                if before.len() == 0 {
                    assert(parts[0] == whole@[i as int]@);
                    assert(prefix@ =~= join(parts, seq!['/']));
                } else {
                    assert(parts.last() == whole@[i as int]@);
                    assert(prefix@ =~= join(parts, seq!['/']));
                }
            }
            let text = from_chars(prefix.as_slice());
            proof {
                lemma_strs_push(out@, text);
            }
            out.push(text);
            proof {
                let want = Seq::new(parts.len(), |k: int| join(parts.take(k + 1), seq!['/']));
                assert forall|k: int| 0 <= k < want.len() implies strs(out@)[k] == want[k] by {
                    if k < before.len() {
                        assert(parts.take(k + 1) =~= before.take(k + 1));
                    } else {
                        assert(parts.take(k + 1) =~= parts);
                    }
                }
                assert(strs(out@) =~= want);
            }
        }
        i = i + 1;
    }
    assert(wv.take(i as int) =~= wv);
    out
}

proof fn lemma_join_nonempty(parts: Seq<Seq<char>>, sep: Seq<char>)
    requires
        parts.len() > 0,
        forall|k: int| 0 <= k < parts.len() ==> (#[trigger] parts[k]).len() > 0,
    ensures
        join(parts, sep).len() > 0,
{
    if parts.len() > 1 {
        assert(parts.last().len() > 0);
    }
}

/// Where the reason in the first `n` characters of an error starts: behind the
/// last colon and space.
pub open spec fn reason_start(message: Seq<char>, n: int) -> int
    decreases n,
{
    if n < 2 {
        0
    } else if message[n - 2] == ':' && message[n - 1] == ' ' {
        n
    } else {
        reason_start(message, n - 1)
    }
}

/// A status stands at `i`: three digits behind a bracket, with the bracket or a
/// phrase behind them.
pub open spec fn status_at(reason: Seq<char>, i: int) -> bool {
    &&& 0 <= i
    &&& i + 4 < reason.len()
    &&& i == 0 || reason[i - 1] == ' '
    &&& reason[i] == '('
    &&& ascii_digit(reason[i + 1])
    &&& ascii_digit(reason[i + 2])
    &&& ascii_digit(reason[i + 3])
    &&& reason[i + 4] == ')' || reason[i + 4] == ' '
}

/// The last status that starts before `n`.
pub open spec fn status_before(reason: Seq<char>, n: int) -> Option<Seq<char>>
    decreases n,
{
    if n <= 0 {
        None
    } else if status_at(reason, n - 1) {
        Some(reason.subrange(n, n + 3))
    } else {
        status_before(reason, n - 1)
    }
}

/// The HTTP status that an error reports. It stands in the reason; the path that
/// the request is about stands before that, and may hold any text.
pub open spec fn error_status(message: Seq<char>) -> Option<Seq<char>> {
    let reason = message.skip(reason_start(message, message.len() as int));
    status_before(reason, reason.len() as int)
}

fn is_ascii_digit(c: char) -> (r: bool)
    ensures
        r == ascii_digit(c),
{
    '0' <= c && c <= '9'
}

/// The reason in an error.
fn reason_of(message: &[char]) -> (r: &[char])
    ensures
        r@ == message@.skip(reason_start(message@, message@.len() as int)),
{
    let mut n: usize = message.len();
    while n >= 2
        invariant
            0 <= n <= message@.len(),
            reason_start(message@, message@.len() as int) == reason_start(message@, n as int),
        decreases n,
    {
        if message[n - 2] == ':' && message[n - 1] == ' ' {
            return suffix_of(message, n);
        }
        n = n - 1;
    }
    assert(message@.skip(0) =~= message@);
    message
}

/// Whether an error reports the HTTP status `code`.
fn reports_status(error: &WebDavError, code: &str) -> (r: bool)
    ensures
        r == (error_status(error.0@) == Some(code@)),
{
    let chars = to_chars(error.0.as_str());
    let reason = reason_of(chars.as_slice());
    let wanted = to_chars(code);
    let mut n: usize = reason.len();
    while n > 0
        invariant
            0 <= n <= reason@.len(),
            wanted@ == code@,
            error_status(error.0@) == status_before(reason@, n as int),
        decreases n,
    {
        let i: usize = n - 1;
        if reason.len() - i > 4 && (i == 0 || reason[i - 1] == ' ') && reason[i] == '('
            && is_ascii_digit(reason[i + 1]) && is_ascii_digit(reason[i + 2]) && is_ascii_digit(
            reason[i + 3],
        ) && (reason[i + 4] == ')' || reason[i + 4] == ' ') {
            let found = slice_subrange(reason, i + 1, i + 4);
            return chars_eq(found, wanted.as_slice());
        }
        n = i;
    }
    false
}

/// The error is an HTTP 404: nothing is there.
pub open spec fn says_not_found(message: Seq<char>) -> bool {
    error_status(message) == Some("404"@)
}

pub fn is_http_404(error: &WebDavError) -> (r: bool)
    ensures
        r == says_not_found(error.0@),
{
    reports_status(error, "404")
}

/// The error says that the collection is already there: an HTTP 405 or 301.
pub open spec fn says_exists(message: Seq<char>) -> bool {
    error_status(message) == Some("405"@) || error_status(message) == Some("301"@)
}

pub fn is_mkcol_already_exists(error: &WebDavError) -> (r: bool)
    ensures
        r == says_exists(error.0@),
{
    reports_status(error, "405") || reports_status(error, "301")
}

/// The text is a reason: no colon and space are in it.
pub open spec fn is_reason(text: Seq<char>) -> bool {
    forall|k: int| 0 < k < text.len() && #[trigger] text[k] == ' ' ==> text[k - 1] != ':'
}

proof fn lemma_reason_start(head: Seq<char>, reason: Seq<char>, n: int)
    requires
        is_reason(reason),
        0 <= n <= reason.len(),
    ensures
        reason_start(reason, n) == 0,
        reason_start(head + seq![':', ' '] + reason, head.len() + 2 + n) == head.len() + 2,
    decreases n,
{
    let all = head + seq![':', ' '] + reason;
    let h = head.len() as int;
    if n == 0 {
        assert(all[h] == ':' && all[h + 1] == ' ');
    } else {
        lemma_reason_start(head, reason, n - 1);
        assert(all[h + 1] == ' ');
        assert(all[h + 1 + n] == reason[n - 1]);
        if n > 1 {
            assert(all[h + n] == reason[n - 2]);
        }
    }
}

/// What stands before the reason for a failure, such as the path that the
/// request is about, does not change the status that the error reports.
pub proof fn status_is_the_reasons_own(head: Seq<char>, reason: Seq<char>)
    requires
        is_reason(reason),
    ensures
        error_status(head + seq![':', ' '] + reason) == error_status(reason),
{
    let all = head + seq![':', ' '] + reason;
    lemma_reason_start(head, reason, reason.len() as int);
    assert(all.skip((head.len() + 2) as int) =~= reason);
    assert(reason.skip(0) =~= reason);
}

// ---------------------------------------------------------------------------
// State
// ---------------------------------------------------------------------------

/// The fingerprint of a remote file.
#[derive(Debug, Clone, PartialEq, Eq)]
pub struct StoredFile {
    pub size: u64,
    pub etag: Option<String>,
}

/// What a [`StoredFile`] says.
pub struct StoredView {
    pub size: nat,
    pub etag: Option<Seq<char>>,
}

impl View for StoredFile {
    type V = StoredView;

    open spec fn view(&self) -> StoredView {
        StoredView { size: self.size as nat, etag: opt_text(self.etag) }
    }
}

/// What is kept from one pass to the next.
#[derive(Debug, Clone, PartialEq, Eq)]
pub struct SyncState {
    pub version: u32,
    /// When the last successful pass ended, in seconds.
    pub last_sync_at_unix: u64,
    /// The fingerprint of each remote file; the first entry of a path counts.
    pub files: Vec<(String, StoredFile)>,
}

/// The first fingerprint of a path, from `i` on.
pub open spec fn stored_from(files: Seq<(String, StoredFile)>, rel: Seq<char>, i: int) -> Option<
    StoredView,
>
    decreases files.len() - i,
{
    if i < 0 || i >= files.len() {
        None
    } else if files[i].0@ == rel {
        Some(files[i].1@)
    } else {
        stored_from(files, rel, i + 1)
    }
}

/// The fingerprints, by path.
pub open spec fn fingerprints(files: Seq<(String, StoredFile)>) -> Map<Seq<char>, StoredView> {
    Map::new(
        |rel: Seq<char>| stored_from(files, rel, 0) is Some,
        |rel: Seq<char>| stored_from(files, rel, 0)->0,
    )
}

fn find_stored<'a>(files: &'a Vec<(String, StoredFile)>, rel: &str) -> (r: Option<&'a StoredFile>)
    ensures
        match r {
            Some(f) => stored_from(files@, rel@, 0) == Some(f@),
            None => stored_from(files@, rel@, 0) is None,
        },
{
    let mut i: usize = 0;
    while i < files.len()
        invariant
            0 <= i <= files@.len(),
            stored_from(files@, rel@, 0) == stored_from(files@, rel@, i as int),
        decreases files@.len() - i,
    {
        if str_eq(files[i].0.as_str(), rel) {
            return Some(&files[i].1);
        }
        i = i + 1;
    }
    None
}

proof fn lemma_stored_update(
    files: Seq<(String, StoredFile)>,
    k: int,
    item: (String, StoredFile),
    rel: Seq<char>,
    i: int,
)
    requires
        0 <= i <= k < files.len(),
        item.0@ == files[k].0@,
        forall|j: int| i <= j < k ==> (#[trigger] files[j]).0@ != files[k].0@,
    ensures
        stored_from(files.update(k, item), rel, i) == if rel == item.0@ {
            Some(item.1@)
        } else {
            stored_from(files, rel, i)
        },
    decreases files.len() - i,
{
    let new = files.update(k, item);
    if i < k {
        assert(new[i] == files[i]);
        lemma_stored_update(files, k, item, rel, i + 1);
    } else {
        assert(new[k] == item);
        if rel != item.0@ {
            lemma_stored_same(files, new, rel, i + 1);
        }
    }
}

proof fn lemma_stored_same(
    a: Seq<(String, StoredFile)>,
    b: Seq<(String, StoredFile)>,
    rel: Seq<char>,
    i: int,
)
    requires
        0 <= i <= a.len(),
        a.len() == b.len(),
        forall|j: int| i <= j < a.len() ==> #[trigger] a[j] == b[j],
    ensures
        stored_from(a, rel, i) == stored_from(b, rel, i),
    decreases a.len() - i,
{
    if i < a.len() {
        assert(a[i] == b[i]);
        lemma_stored_same(a, b, rel, i + 1);
    }
}

proof fn lemma_stored_push(
    files: Seq<(String, StoredFile)>,
    item: (String, StoredFile),
    rel: Seq<char>,
    i: int,
)
    requires
        0 <= i <= files.len(),
    ensures
        stored_from(files.push(item), rel, i) == match stored_from(files, rel, i) {
            Some(f) => Some(f),
            None => if rel == item.0@ {
                Some(item.1@)
            } else {
                None
            },
        },
    decreases files.len() - i,
{
    let new = files.push(item);
    if i < files.len() {
        assert(new[i] == files[i]);
        lemma_stored_push(files, item, rel, i + 1);
    } else {
        assert(new[i] == item);
        assert(stored_from(new, rel, i + 1) is None);
    }
}

fn put_stored(files: &mut Vec<(String, StoredFile)>, rel: &str, file: StoredFile)
    ensures
        fingerprints(final(files)@) == fingerprints(old(files)@).insert(rel@, file@),
{
    let ghost was = files@;
    let item = (str_owned(rel), file);
    let mut i: usize = 0;
    while i < files.len()
        invariant
            0 <= i <= files@.len(),
            files@ == was,
            was == old(files)@,
            item.0@ == rel@,
            item.1@ == file@,
            stored_from(was, rel@, 0) == stored_from(was, rel@, i as int),
            forall|j: int| 0 <= j < i ==> (#[trigger] was[j]).0@ != rel@,
        decreases files@.len() - i,
    {
        if str_eq(files[i].0.as_str(), rel) {
            files[i] = item;
            proof {
                assert forall|x: Seq<char>| #[trigger] stored_from(files@, x, 0) == if x == rel@ {
                    Some(file@)
                } else {
                    stored_from(was, x, 0)
                } by {
                    lemma_stored_update(was, i as int, item, x, 0);
                }
                assert(fingerprints(files@) =~= fingerprints(was).insert(rel@, file@));
            }
            return;
        }
        i = i + 1;
    }
    files.push(item);
    proof {
        assert(stored_from(was, rel@, 0) is None);
        assert forall|x: Seq<char>| #[trigger] stored_from(files@, x, 0) == if x == rel@ {
            Some(file@)
        } else {
            stored_from(was, x, 0)
        } by {
            lemma_stored_push(was, item, x, 0);
        }
        assert(fingerprints(files@) =~= fingerprints(was).insert(rel@, file@));
    }
}

/// The state before the first pass: no fingerprints, and every file that is
/// already there counts as old.
pub fn first_run_state(now: u64) -> (r: SyncState)
    ensures
        r.version == STATE_VERSION,
        r.last_sync_at_unix == now,
        fingerprints(r.files@) == Map::<Seq<char>, StoredView>::empty(),
{
    let r = SyncState { version: STATE_VERSION, last_sync_at_unix: now, files: Vec::new() };
    assert(fingerprints(r.files@) =~= Map::<Seq<char>, StoredView>::empty());
    r
}

/// The state to go by: the stored one, unless there is none of the right
/// version.
pub fn accept_state(stored: Option<SyncState>, now: u64) -> (r: SyncState)
    ensures
        match stored {
            Some(state) => if state.version == STATE_VERSION {
                r == state
            } else {
                r.version == STATE_VERSION && r.last_sync_at_unix == now && fingerprints(r.files@)
                    == Map::<Seq<char>, StoredView>::empty()
            },
            None => r.version == STATE_VERSION && r.last_sync_at_unix == now && fingerprints(
                r.files@,
            ) == Map::<Seq<char>, StoredView>::empty(),
        },
{
    match stored {
        Some(state) => if state.version == STATE_VERSION {
            state
        } else {
            first_run_state(now)
        },
        None => first_run_state(now),
    }
}

/// The fingerprint of a listed file.
pub open spec fn entry_fingerprint(entry: WebDavEntryView) -> StoredView {
    StoredView { size: entry.size, etag: entry.etag }
}

pub fn fingerprint_of(entry: &WebDavEntry) -> (r: StoredFile)
    ensures
        r@ == entry_fingerprint(entry@),
{
    StoredFile { size: entry.size, etag: clone_opt(&entry.etag) }
}

/// The stored fingerprint is not the remote's: there is none, or the size or
/// the tag differs.
pub open spec fn differs(stored: Option<StoredView>, size: nat, etag: Option<Seq<char>>) -> bool {
    match stored {
        None => true,
        Some(s) => s.size != size || s.etag != etag,
    }
}

pub fn fingerprint_changed(
    stored: Option<&StoredFile>,
    remote_size: u64,
    remote_etag: Option<&str>,
) -> (r: bool)
    ensures
        r == differs(
            match stored {
                Some(s) => Some(s@),
                None => None,
            },
            remote_size as nat,
            match remote_etag {
                Some(t) => Some(t@),
                None => None,
            },
        ),
{
    match stored {
        None => true,
        Some(s) => {
            let same_tag = match (&s.etag, remote_etag) {
                (Some(a), Some(b)) => str_eq(a.as_str(), b),
                (None, None) => true,
                _ => false,
            };
            s.size != remote_size || !same_tag
        },
    }
}

/// A local file that changed behind the last pass.
pub fn is_new_since_last_sync(mtime_unix: u64, last_sync_at_unix: u64) -> (r: bool)
    ensures
        r == (mtime_unix > last_sync_at_unix),
{
    mtime_unix > last_sync_at_unix
}

// ---------------------------------------------------------------------------
// The pass
// ---------------------------------------------------------------------------

/// What a pass did.
#[derive(Debug, Clone, Copy, PartialEq, Eq, Structural)]
pub struct WebDavSyncOutcome {
    /// Files fetched because the mirror lacked them.
    pub pulled: usize,
    /// Files fetched again because they changed.
    pub refreshed: usize,
    /// Local files sent to the remote.
    pub pushed: usize,
    /// Mirror files removed because the remote no longer has them.
    pub deleted: usize,
    /// Remote collections created.
    pub created_dirs: usize,
    /// Failures that did not end the pass.
    pub errors: usize,
}

/// One more, as far as it can be told.
pub open spec fn bumped(n: usize) -> usize {
    if n < usize::MAX {
        (n + 1) as usize
    } else {
        n
    }
}

fn bump(n: usize) -> (r: usize)
    ensures
        r == bumped(n),
{
    if n < usize::MAX {
        n + 1
    } else {
        n
    }
}

impl Default for WebDavSyncOutcome {
    fn default() -> (r: Self)
        ensures
            r == (WebDavSyncOutcome {
                pulled: 0,
                refreshed: 0,
                pushed: 0,
                deleted: 0,
                created_dirs: 0,
                errors: 0,
            }),
    {
        WebDavSyncOutcome {
            pulled: 0,
            refreshed: 0,
            pushed: 0,
            deleted: 0,
            created_dirs: 0,
            errors: 0,
        }
    }
}

/// What a pass knows.
pub struct SyncView {
    /// The version of the state it started from.
    pub version: u32,
    pub files: Map<Seq<char>, StoredView>,
    pub last_sync: nat,
    /// The files the remote has.
    pub seen: Set<Seq<char>>,
    /// The collections the remote has.
    pub dirs: Set<Seq<char>>,
    pub outcome: WebDavSyncOutcome,
}

/// The fingerprints that a pass hands to the next: those of the files that the
/// remote has.
pub open spec fn kept_files(known: SyncView) -> Map<Seq<char>, StoredView> {
    known.files.restrict(known.seen)
}

/// Whether a file that the remote and the mirror have is left as it is.
pub open spec fn is_kept(
    files: Map<Seq<char>, StoredView>,
    rel: Seq<char>,
    entry: WebDavEntryView,
) -> bool {
    files.contains_key(rel) && !differs(Some(files[rel]), entry.size, entry.etag)
}

/// One walk over the remote collection and the mirror.
pub struct Sync {
    state: SyncState,
    seen_files: Vec<String>,
    remote_dirs: Vec<String>,
    outcome: WebDavSyncOutcome,
}

impl View for Sync {
    type V = SyncView;

    closed spec fn view(&self) -> SyncView {
        SyncView {
            version: self.state.version,
            files: fingerprints(self.state.files@),
            last_sync: self.state.last_sync_at_unix as nat,
            seen: strs(self.seen_files@).to_set(),
            dirs: strs(self.remote_dirs@).to_set(),
            outcome: self.outcome,
        }
    }
}

fn add_string(list: &mut Vec<String>, x: &str)
    ensures
        strs(final(list)@).to_set() == strs(old(list)@).to_set().insert(x@),
{
    let item = str_owned(x);
    let ghost was = strs(list@);
    if contains_string(list, &item) {
        assert(was.to_set() =~= was.to_set().insert(x@));
        return;
    }
    proof {
        lemma_strs_push(list@, item);
    }
    list.push(item);
    proof {
        let now = strs(list@);
        assert(now == was.push(x@));
        assert forall|y: Seq<char>| now.to_set().contains(y) <==> was.to_set().insert(x@).contains(
            y,
        ) by {
            if now.contains(y) {
                let k = choose|k: int| 0 <= k < now.len() && now[k] == y;
                if k < was.len() {
                    assert(was[k] == y);
                    assert(was.contains(y));
                }
            }
            if was.contains(y) {
                let k = choose|k: int| 0 <= k < was.len() && was[k] == y;
                assert(now[k] == y);
            }
            if y == x@ {
                assert(now[was.len() as int] == y);
            }
        }
        assert(now.to_set() =~= was.to_set().insert(x@));
    }
}

/// What to do about an entry that the remote lists.
#[derive(Debug, Clone, PartialEq, Eq)]
pub enum RemoteStep {
    /// The entry is the listed collection itself.
    Itself,
    /// Walk the collection at this path, creating the local folder if asked.
    Enter { rel: String, create: bool },
    /// Fetch the file, which the mirror lacks.
    Pull { rel: String },
    /// Fetch the file, which has changed.
    Refresh { rel: String },
    /// The mirror has the file as it is.
    Keep,
}

/// What came of fetching a file.
#[derive(Debug, Clone, Copy, PartialEq, Eq, Structural)]
pub enum FetchResult {
    Stored,
    /// The file was gone.
    Gone,
    Failed,
}

/// What stands at a local path, links not followed.
#[derive(Debug, Clone, Copy, PartialEq, Eq, Structural)]
pub enum LocalKind {
    File,
    Dir,
    Other,
    /// It could not be looked at.
    Unknown,
}

/// What to do about a mirror child that the remote does not list.
#[derive(Debug, Clone, PartialEq, Eq)]
pub enum LocalStep {
    /// Leave it alone.
    Skip,
    /// Walk the folder at this path, then remove it if it is empty.
    Enter { rel: String },
    /// Send the file to the remote.
    Push { rel: String },
    /// Remove the file.
    Remove { rel: String },
    /// Count a failure.
    CountError,
}

/// What came of removing a mirror file.
#[derive(Debug, Clone, Copy, PartialEq, Eq, Structural)]
pub enum RemoveResult {
    Removed,
    AlreadyGone,
    Failed,
}

/// What came of creating a remote collection.
#[derive(Debug, Clone, Copy, PartialEq, Eq, Structural)]
pub enum MkdirResult {
    Created,
    Exists,
    Failed,
}

/// The first folder above a file, from the `i`th on, that the remote is not
/// known to have.
pub open spec fn missing_from(all: Seq<Seq<char>>, dirs: Set<Seq<char>>, i: int) -> Option<Seq<char>>
    decreases all.len() - i,
{
    if i < 0 || i >= all.len() {
        None
    } else if dirs.contains(all[i]) {
        missing_from(all, dirs, i + 1)
    } else {
        Some(all[i])
    }
}

impl Sync {
    /// Starts a pass.
    pub fn start(state: SyncState) -> (r: Self)
        ensures
            r@.version == state.version,
            r@.files == fingerprints(state.files@),
            r@.last_sync == state.last_sync_at_unix,
            r@.seen == Set::<Seq<char>>::empty(),
            r@.dirs == Set::<Seq<char>>::empty(),
            r@.outcome == (WebDavSyncOutcome {
                pulled: 0,
                refreshed: 0,
                pushed: 0,
                deleted: 0,
                created_dirs: 0,
                errors: 0,
            }),
    {
        let r = Sync {
            state,
            seen_files: Vec::new(),
            remote_dirs: Vec::new(),
            outcome: WebDavSyncOutcome {
                pulled: 0,
                refreshed: 0,
                pushed: 0,
                deleted: 0,
                created_dirs: 0,
                errors: 0,
            },
        };
        proof {
            let none: Seq<Seq<char>> = strs(Seq::<String>::empty());
            assert(none.to_set() =~= Set::<Seq<char>>::empty());
            assert(strs(r.seen_files@) =~= none);
            assert(strs(r.remote_dirs@) =~= none);
        }
        r
    }

    /// A listing that failed counts as empty if the collection is gone, unless
    /// it is the vault's own: then, and for any other failure, the pass ends.
    pub fn listing_counts_as_empty(dir_rel: &str, error: &WebDavError) -> (r: bool)
        ensures
            r == (says_not_found(error.0@) && dir_rel@.len() > 0),
    {
        is_http_404(error) && !dir_rel.is_empty()
    }

    /// What to do about an entry that the remote lists in a folder.
    pub fn reconcile_entry(
        &mut self,
        dir_rel: &str,
        entry: &WebDavEntry,
        local_is_dir: bool,
        local_is_file: bool,
    ) -> (r: RemoteStep)
        ensures
            ({
                let rel = joined_rel(dir_rel@, entry@.path);
                let known = old(self)@;
                if entry@.path.len() == 0 {
                    r is Itself && final(self)@ == known
                } else if entry@.is_dir {
                    r is Enter && r->Enter_rel@ == rel && r->create == !local_is_dir && final(self)@
                        == (SyncView { dirs: known.dirs.insert(rel), ..known })
                } else {
                    final(self)@ == (SyncView { seen: known.seen.insert(rel), ..known }) && (
                    if !local_is_file {
                        r is Pull && r->Pull_rel@ == rel
                    } else if is_kept(known.files, rel, entry@) {
                        r is Keep
                    } else {
                        r is Refresh && r->Refresh_rel@ == rel
                    })
                }
            }),
    {
        if entry.path.as_str().is_empty() {
            return RemoteStep::Itself;
        }
        let rel = join_rel(dir_rel, entry.path.as_str());
        if entry.is_dir {
            add_string(&mut self.remote_dirs, rel.as_str());
            return RemoteStep::Enter { rel, create: !local_is_dir };
        }
        add_string(&mut self.seen_files, rel.as_str());
        if !local_is_file {
            return RemoteStep::Pull { rel };
        }
        let etag = match &entry.etag {
            Some(t) => Some(t.as_str()),
            None => None,
        };
        let stored = find_stored(&self.state.files, rel.as_str());
        if fingerprint_changed(stored, entry.size, etag) {
            RemoteStep::Refresh { rel }
        } else {
            RemoteStep::Keep
        }
    }

    /// Records what came of fetching a file.
    pub fn record_fetch(
        &mut self,
        rel: &str,
        entry: &WebDavEntry,
        refresh: bool,
        result: FetchResult,
    )
        ensures
            ({
                let known = old(self)@;
                final(self)@ == match result {
                    FetchResult::Stored => SyncView {
                        files: known.files.insert(rel@, entry_fingerprint(entry@)),
                        outcome: if refresh {
                            WebDavSyncOutcome {
                                refreshed: bumped(known.outcome.refreshed),
                                ..known.outcome
                            }
                        } else {
                            WebDavSyncOutcome {
                                pulled: bumped(known.outcome.pulled),
                                ..known.outcome
                            }
                        },
                        ..known
                    },
                    FetchResult::Gone => known,
                    FetchResult::Failed => SyncView {
                        outcome: WebDavSyncOutcome {
                            errors: bumped(known.outcome.errors),
                            ..known.outcome
                        },
                        ..known
                    },
                }
            }),
    {
        match result {
            FetchResult::Stored => {
                put_stored(&mut self.state.files, rel, fingerprint_of(entry));
                if refresh {
                    self.outcome.refreshed = bump(self.outcome.refreshed);
                } else {
                    self.outcome.pulled = bump(self.outcome.pulled);
                }
            },
            FetchResult::Gone => {},
            FetchResult::Failed => {
                self.outcome.errors = bump(self.outcome.errors);
            },
        }
    }

    /// What to do about a mirror child. The vault's own names and what the
    /// remote lists are left alone. A file that changed behind the last pass is
    /// sent; an older one is what is left of a file that the remote deleted.
    pub fn reconcile_local_child(
        &self,
        dir_rel: &str,
        name: &str,
        listed: bool,
        kind: LocalKind,
        mtime_unix: Option<u64>,
    ) -> (r: LocalStep)
        ensures
            ({
                let rel = joined_rel(dir_rel@, name@);
                if own_name(name@) || listed || kind is Other || kind is Unknown {
                    r is Skip
                } else if kind is Dir {
                    r is Enter && r->Enter_rel@ == rel
                } else {
                    match mtime_unix {
                        None => r is CountError,
                        Some(mtime) => if mtime > self@.last_sync {
                            r is Push && r->Push_rel@ == rel
                        } else {
                            r is Remove && r->Remove_rel@ == rel
                        },
                    }
                }
            }),
    {
        if is_hatchdoor_name(name) || listed {
            return LocalStep::Skip;
        }
        let rel = join_rel(dir_rel, name);
        match kind {
            LocalKind::Other => LocalStep::Skip,
            LocalKind::Unknown => LocalStep::Skip,
            LocalKind::Dir => LocalStep::Enter { rel },
            LocalKind::File => match mtime_unix {
                None => LocalStep::CountError,
                Some(mtime) => if is_new_since_last_sync(mtime, self.state.last_sync_at_unix) {
                    LocalStep::Push { rel }
                } else {
                    LocalStep::Remove { rel }
                },
            },
        }
    }

    /// Counts a failure that does not end the pass.
    pub fn record_error(&mut self)
        ensures
            final(self)@ == (SyncView {
                outcome: WebDavSyncOutcome {
                    errors: bumped(old(self)@.outcome.errors),
                    ..old(self)@.outcome
                },
                ..old(self)@
            }),
    {
        self.outcome.errors = bump(self.outcome.errors);
    }

    /// Records what came of removing a mirror file.
    pub fn record_removal(&mut self, result: RemoveResult)
        ensures
            ({
                let known = old(self)@;
                final(self)@ == (SyncView {
                    outcome: match result {
                        RemoveResult::Removed => WebDavSyncOutcome {
                            deleted: bumped(known.outcome.deleted),
                            ..known.outcome
                        },
                        RemoveResult::AlreadyGone => known.outcome,
                        RemoveResult::Failed => WebDavSyncOutcome {
                            errors: bumped(known.outcome.errors),
                            ..known.outcome
                        },
                    },
                    ..known
                })
            }),
    {
        match result {
            RemoveResult::Removed => {
                self.outcome.deleted = bump(self.outcome.deleted);
            },
            RemoveResult::AlreadyGone => {},
            RemoveResult::Failed => {
                self.outcome.errors = bump(self.outcome.errors);
            },
        }
    }

    /// The outermost collection above a file that has yet to be created.
    pub fn next_missing_parent(&self, file_rel: &str) -> (r: Option<String>)
        ensures
            opt_text(r) == missing_from(ancestors_of(file_rel@), self@.dirs, 0),
    {
        let all = ancestor_dirs(file_rel);
        let ghost av = ancestors_of(file_rel@);
        let ghost dirs = self@.dirs;
        let mut i: usize = 0;
        while i < all.len()
            invariant
                0 <= i <= all@.len(),
                av == strs(all@),
                av == ancestors_of(file_rel@),
                dirs == strs(self.remote_dirs@).to_set(),
                dirs == self@.dirs,
                missing_from(av, dirs, 0) == missing_from(av, dirs, i as int),
            decreases all@.len() - i,
        {
            assert(av[i as int] == all@[i as int]@);
            if !contains_string(&self.remote_dirs, &all[i]) {
                return Some(all[i].clone());
            }
            i = i + 1;
        }
        None
    }

    /// Records what came of creating a collection. Returns whether to go on.
    pub fn record_mkdir(&mut self, dir_rel: &str, result: MkdirResult) -> (r: bool)
        ensures
            ({
                let known = old(self)@;
                match result {
                    MkdirResult::Created => r && final(self)@ == (SyncView {
                        dirs: known.dirs.insert(dir_rel@),
                        outcome: WebDavSyncOutcome {
                            created_dirs: bumped(known.outcome.created_dirs),
                            ..known.outcome
                        },
                        ..known
                    }),
                    MkdirResult::Exists => r && final(self)@ == (SyncView {
                        dirs: known.dirs.insert(dir_rel@),
                        ..known
                    }),
                    MkdirResult::Failed => !r && final(self)@ == (SyncView {
                        outcome: WebDavSyncOutcome {
                            errors: bumped(known.outcome.errors),
                            ..known.outcome
                        },
                        ..known
                    }),
                }
            }),
    {
        match result {
            MkdirResult::Created => {
                add_string(&mut self.remote_dirs, dir_rel);
                self.outcome.created_dirs = bump(self.outcome.created_dirs);
                true
            },
            MkdirResult::Exists => {
                add_string(&mut self.remote_dirs, dir_rel);
                true
            },
            MkdirResult::Failed => {
                self.outcome.errors = bump(self.outcome.errors);
                false
            },
        }
    }

    /// Records what came of sending a file. The remote's tag for it is not
    /// known yet.
    pub fn record_push(&mut self, rel: &str, size: u64, succeeded: bool)
        ensures
            ({
                let known = old(self)@;
                final(self)@ == if succeeded {
                    SyncView {
                        seen: known.seen.insert(rel@),
                        files: known.files.insert(
                            rel@,
                            StoredView { size: size as nat, etag: None },
                        ),
                        outcome: WebDavSyncOutcome {
                            pushed: bumped(known.outcome.pushed),
                            ..known.outcome
                        },
                        ..known
                    }
                } else {
                    SyncView {
                        outcome: WebDavSyncOutcome {
                            errors: bumped(known.outcome.errors),
                            ..known.outcome
                        },
                        ..known
                    }
                }
            }),
    {
        if succeeded {
            add_string(&mut self.seen_files, rel);
            put_stored(&mut self.state.files, rel, StoredFile { size, etag: None });
            self.outcome.pushed = bump(self.outcome.pushed);
        } else {
            self.outcome.errors = bump(self.outcome.errors);
        }
    }

    /// What the pass did so far.
    pub fn outcome(&self) -> (r: WebDavSyncOutcome)
        ensures
            r == self@.outcome,
    {
        self.outcome
    }

    /// The state to keep behind a pass that walked everything: the fingerprints
    /// of the files that the remote has.
    pub fn finish(&self, now: u64) -> (r: SyncState)
        ensures
            r.version == self@.version,
            r.last_sync_at_unix == now,
            fingerprints(r.files@) == kept_files(self@),
    {
        let mut files: Vec<(String, StoredFile)> = Vec::new();
        let ghost all = self.state.files@;
        let ghost seen = self@.seen;
        let mut i: usize = 0;
        while i < self.state.files.len()
            invariant
                0 <= i <= self.state.files@.len(),
                all == self.state.files@,
                seen == strs(self.seen_files@).to_set(),
                forall|x: Seq<char>| #[trigger]
                    stored_from(files@, x, 0) == if seen.contains(x) {
                        stored_from(all.take(i as int), x, 0)
                    } else {
                        None
                    },
            decreases self.state.files@.len() - i,
        {
            let ghost was = files@;
            let rel = &self.state.files[i].0;
            proof {
                assert(all.take(i + 1) =~= all.take(i as int).push(all[i as int]));
            }
            if contains_string(&self.seen_files, rel) {
                let file = &self.state.files[i].1;
                let item = (
                    rel.clone(),
                    StoredFile { size: file.size, etag: clone_opt(&file.etag) },
                );
                files.push(item);
                proof {
                    assert(item.1@ == file@);
                    assert forall|x: Seq<char>| #[trigger] stored_from(files@, x, 0)
                        == if seen.contains(x) {
                        stored_from(all.take(i + 1), x, 0)
                    } else {
                        None
                    } by {
                        lemma_stored_push(was, item, x, 0);
                        lemma_stored_push(all.take(i as int), all[i as int], x, 0);
                        assert(stored_from(was, x, 0) == if seen.contains(x) {
                            stored_from(all.take(i as int), x, 0)
                        } else {
                            None
                        });
                    }
                }
            } else {
                proof {
                    assert forall|x: Seq<char>| #[trigger] stored_from(files@, x, 0)
                        == if seen.contains(x) {
                        stored_from(all.take(i + 1), x, 0)
                    } else {
                        None
                    } by {
                        lemma_stored_push(all.take(i as int), all[i as int], x, 0);
                    }
                }
            }
            i = i + 1;
        }
        assert(all.take(i as int) =~= all);
        let r = SyncState { version: self.state.version, last_sync_at_unix: now, files };
        assert(fingerprints(r.files@) =~= kept_files(self@));
        r
    }
}

/// A file that was fetched in one pass is left as it is in the next, while its
/// size and tag on the remote stay.
pub proof fn fetched_file_is_kept(known: SyncView, rel: Seq<char>, entry: WebDavEntryView)
    requires
        known.seen.contains(rel),
    ensures
        is_kept(
            kept_files(
                SyncView { files: known.files.insert(rel, entry_fingerprint(entry)), ..known },
            ),
            rel,
            entry,
        ),
{
}

/// A file that was sent in one pass is left as it is in the next if and only if
/// the remote lists it with the size that was sent and without a tag.
pub proof fn sent_file_is_fetched_at_most_for_its_tag(
    known: SyncView,
    rel: Seq<char>,
    size: nat,
    entry: WebDavEntryView,
)
    ensures
        is_kept(
            kept_files(
                SyncView {
                    seen: known.seen.insert(rel),
                    files: known.files.insert(rel, StoredView { size, etag: None }),
                    ..known
                },
            ),
            rel,
            entry,
        ) <==> entry.size == size && entry.etag is None,
{
}

/// A stored fingerprint is the remote's as long as both the size and the tag are; a file
/// without one is never left as it is.
pub proof fn fingerprint_is_size_and_tag(
    files: Map<Seq<char>, StoredView>,
    rel: Seq<char>,
    before: WebDavEntryView,
    now: WebDavEntryView,
)
    ensures
        is_kept(files.insert(rel, entry_fingerprint(before)), rel, now) <==> before.size == now.size
            && before.etag == now.etag,
        !files.contains_key(rel) ==> !is_kept(files, rel, now),
{
}

/// A child's path is the folder's, a slash and the child's; slashes at the end of the
/// folder's do not count, and below the vault root it is the child's own.
pub proof fn child_is_joined_by_one_slash(dir: Seq<char>, slashes: nat, child: Seq<char>)
    requires
        dir.len() > 0,
        dir.last() != '/',
    ensures
        joined_rel(dir + Seq::new(slashes, |_i: int| '/'), child) == dir + seq!['/'] + child,
        joined_rel(seq![], child) == child,
{
    crate::note_ops::trailing_slashes_are_dropped(dir, slashes);
}

/// The folders above a file are the beginnings of its path, the outermost first: one for
/// each part but the last.
pub proof fn folders_above_a_file(parts: Seq<Seq<char>>, name: Seq<char>)
    requires
        !name.contains('/'),
        forall|i: int| 0 <= i < parts.len() ==> !(#[trigger] parts[i]).contains('/') && parts[i].len() > 0,
    ensures
        ({
            let all = ancestors_of(join(parts.push(name), seq!['/']));
            &&& all.len() == parts.len()
            &&& forall|i: int|
                0 <= i < parts.len() ==> #[trigger] all[i] == join(parts.take(i + 1), seq!['/'])
        }),
{
    let whole = parts.push(name);
    assert forall|i: int| 0 <= i < whole.len() implies !(#[trigger] whole[i]).contains('/') by {
        if i < parts.len() {
            assert(whole[i] == parts[i]);
        }
    }
    crate::files::split_undoes_join(whole, '/');
    assert(whole.drop_last() =~= parts);
    lemma_all_nonempty(parts);
}

proof fn lemma_all_nonempty(parts: Seq<Seq<char>>)
    requires
        forall|i: int| 0 <= i < parts.len() ==> (#[trigger] parts[i]).len() > 0,
    ensures
        nonempty(parts) == parts,
    decreases parts.len(),
{
    if parts.len() > 0 {
        let front = parts.drop_last();
        assert forall|i: int| 0 <= i < front.len() implies (#[trigger] front[i]).len() > 0 by {
            assert(front[i] == parts[i]);
        }
        lemma_all_nonempty(front);
        assert(parts.last() == parts[parts.len() - 1]);
        assert(front.push(parts.last()) =~= parts);
    } else {
        assert(nonempty(parts) =~= parts);
    }
}

/// The folder to create next is the outermost one that the remote is not known to have;
/// there is none if and only if it has them all.
pub proof fn outermost_missing_folder_is_next(all: Seq<Seq<char>>, dirs: Set<Seq<char>>, i: int)
    requires
        0 <= i <= all.len(),
    ensures
        match missing_from(all, dirs, i) {
            Some(dir) => exists|k: int|
                {
                    &&& i <= k < all.len()
                    &&& #[trigger] all[k] == dir
                    &&& !dirs.contains(dir)
                    &&& forall|j: int| i <= j < k ==> dirs.contains(#[trigger] all[j])
                },
            None => forall|k: int| i <= k < all.len() ==> dirs.contains(#[trigger] all[k]),
        },
    decreases all.len() - i,
{
    if i < all.len() {
        if dirs.contains(all[i]) {
            outermost_missing_folder_is_next(all, dirs, i + 1);
            if missing_from(all, dirs, i + 1) is Some {
                let dir = missing_from(all, dirs, i + 1)->0;
                let k = choose|k: int|
                    {
                        &&& i + 1 <= k < all.len()
                        &&& #[trigger] all[k] == dir
                        &&& !dirs.contains(dir)
                        &&& forall|j: int| i + 1 <= j < k ==> dirs.contains(#[trigger] all[j])
                    };
                assert(all[k] == dir);
            }
        } else {
            assert(all[i] == missing_from(all, dirs, i)->0);
        }
    }
}

proof fn lemma_status_before(reason: Seq<char>, n: int, i: int)
    requires
        0 <= i < n <= reason.len(),
        status_at(reason, i),
        forall|j: int| i < j < n ==> reason[j] != '(',
    ensures
        status_before(reason, n) == Some(reason.subrange(i + 1, i + 4)),
    decreases n,
{
    if i < n - 1 {
        assert(!status_at(reason, n - 1));
        lemma_status_before(reason, n - 1, i);
    }
}

proof fn lemma_no_status(reason: Seq<char>, n: int)
    requires
        0 <= n <= reason.len(),
        !reason.contains('('),
    ensures
        status_before(reason, n) is None,
    decreases n,
{
    if n > 0 {
        assert(reason.contains(reason[n - 1]));
        lemma_no_status(reason, n - 1);
    }
}

/// An error reports the status that stands in its reason as three digits behind a bracket,
/// alone or with a phrase. A reason without a bracket reports none.
#[verifier::rlimit(40)]
pub proof fn status_is_read_from_its_brackets(
    front: Seq<char>,
    d: Seq<char>,
    after: char,
    back: Seq<char>,
)
    requires
        d.len() == 3,
        forall|k: int| 0 <= k < 3 ==> '0' <= #[trigger] d[k] <= '9',
        after == ')' || after == ' ',
        front.len() > 0 ==> front.last() == ' ',
        !back.contains('('),
        is_reason(front + seq!['('] + d + seq![after] + back),
    ensures
        error_status(front + seq!['('] + d + seq![after] + back) == Some(d),
        is_reason(back) ==> error_status(back) is None,
{
    let reason = front + seq!['('] + d + seq![after] + back;
    let n = reason.len() as int;
    let i = front.len() as int;
    lemma_reason_start(seq![], reason, n);
    assert(reason.skip(0) =~= reason);
    assert(reason[i + 1] == d[0] && reason[i + 2] == d[1] && reason[i + 3] == d[2]);
    assert(status_at(reason, i));
    assert forall|j: int| i < j < n implies reason[j] != '(' by {
        if j > i + 4 {
            assert(reason[j] == back[j - i - 5]);
            assert(back.contains(back[j - i - 5]));
        }
    }
    lemma_status_before(reason, n, i);
    assert(reason.subrange(i + 1, i + 4) =~= d);
    if is_reason(back) {
        lemma_reason_start(seq![], back, back.len() as int);
        assert(back.skip(0) =~= back);
        lemma_no_status(back, back.len() as int);
    }
}

/// A file that the remote does not have in one pass has no fingerprint in the
/// next: if it comes back, it is fetched.
pub proof fn vanished_file_is_forgotten(known: SyncView, rel: Seq<char>, entry: WebDavEntryView)
    requires
        !known.seen.contains(rel),
    ensures
        !is_kept(kept_files(known), rel, entry),
{
}

} // verus!
