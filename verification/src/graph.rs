//! What holds of the links, the search hits and the folder tree of a whole
//! vault.

use vstd::prelude::*;

use crate::exclude::ExcludeMatcher;
use crate::index::{
    body_hits, every_note_is_listed_once, explorer_notes, folder_names, has_folder, has_graph,
    is_catalog, is_tree, items_in, match_kind, name_hits, path_table, search_hits, seen,
    title_table, top_notes, ItemView, ScannedFile,
};
use crate::layers::DeclView;
use crate::links::{
    by_path, linked_slugs, links_are_listed_once, links_are_what_the_targets_name, links_to,
    note_targets, path_keys, resolve_slug, wikilink_targets,
};
use crate::paths::{
    line_matches, link_target, slug_of, snippet_is_the_first_line_that_matches, snippet_of,
    title_key,
};
use crate::tables::{body_of, index_of, keys_of, lemma_index_from, lemma_index_of, NoteBody};
use crate::text::{
    after_last, lemma_stable_order_exists, lines, listed, lowercase, sort_order, strs, trim,
};
use crate::types::{slugs_of, ExplorerFolder, HitView, NoteEntry, VaultIndex};

verus! {

// ---------------------------------------------------------------------------
// Links
// ---------------------------------------------------------------------------

proof fn lemma_resolved_slug_is_known(
    target: Seq<char>,
    notes: Seq<NoteEntry>,
    by_title: Seq<(String, String)>,
    by_path_title: Seq<(String, String)>,
)
    requires
        title_table(notes, by_title),
        path_table(notes, by_path_title),
    ensures
        match resolve_slug(target, slugs_of(notes), by_title, by_path_title) {
            Some(slug) => slugs_of(notes).contains(slug),
            None => true,
        },
{
    let t = link_target(target);
    let base = after_last(t, '/');
    let i = index_of(keys_of(by_path_title), title_key(t));
    let j = index_of(keys_of(by_title), title_key(base));
    lemma_index_of(keys_of(by_path_title), title_key(t));
    lemma_index_of(keys_of(by_title), title_key(base));
    if i < by_path_title.len() {
        assert(slugs_of(notes)[i] == by_path_title[i].1@);
    } else if j < by_title.len() {
        assert(slugs_of(notes)[j] == by_title[j].1@);
    }
}

proof fn lemma_linked_slugs_are_known(
    targets: Seq<Seq<char>>,
    own: Seq<char>,
    notes: Seq<NoteEntry>,
    by_title: Seq<(String, String)>,
    by_path_title: Seq<(String, String)>,
)
    requires
        title_table(notes, by_title),
        path_table(notes, by_path_title),
    ensures
        forall|x: Seq<char>| #[trigger]
            linked_slugs(targets, own, slugs_of(notes), by_title, by_path_title).contains(x)
                ==> slugs_of(notes).contains(x),
    decreases targets.len(),
{
    let slugs = slugs_of(notes);
    let all = linked_slugs(targets, own, slugs, by_title, by_path_title);
    if targets.len() > 0 {
        lemma_linked_slugs_are_known(targets.drop_last(), own, notes, by_title, by_path_title);
        lemma_resolved_slug_is_known(targets.last(), notes, by_title, by_path_title);
        let prev = linked_slugs(targets.drop_last(), own, slugs, by_title, by_path_title);
        assert forall|x: Seq<char>| #[trigger] all.contains(x) implies slugs.contains(x) by {
            let k = choose|k: int| 0 <= k < all.len() && all[k] == x;
            if k < prev.len() {
                assert(prev[k] == x);
                assert(prev.contains(x));
            }
        }
    }
}

proof fn lemma_sublist_is_no_longer(few: Seq<Seq<char>>, all: Seq<Seq<char>>)
    requires
        few.no_duplicates(),
        forall|x: Seq<char>| #[trigger] few.contains(x) ==> all.contains(x),
    ensures
        few.len() <= all.len(),
{
    few.unique_seq_to_set();
    all.lemma_cardinality_of_set();
    vstd::seq_lib::seq_to_set_is_finite(all);
    assert(few.to_set().subset_of(all.to_set())) by {
        assert forall|x: Seq<char>| few.to_set().contains(x) implies all.to_set().contains(x) by {
            assert(few.contains(x));
        }
    }
    vstd::set_lib::lemma_len_subset(few.to_set(), all.to_set());
}

proof fn lemma_by_path_keeps_links(notes: Seq<NoteEntry>, links: Seq<Seq<char>>)
    requires
        links.len() <= usize::MAX,
    ensures
        forall|x: Seq<char>| #[trigger] by_path(notes, links).contains(x) <==> links.contains(x),
{
    let keys = path_keys(notes, links);
    lemma_stable_order_exists(keys);
    let order = sort_order(keys);
    let out = by_path(notes, links);
    assert forall|x: Seq<char>| #[trigger] out.contains(x) <==> links.contains(x) by {
        if out.contains(x) {
            let i = choose|i: int| 0 <= i < out.len() && out[i] == x;
            assert(links[order[i] as int] == x);
        }
        if links.contains(x) {
            let k = choose|k: int| 0 <= k < links.len() && links[k] == x;
            assert(listed(order, k));
            let i = choose|i: int| 0 <= i < order.len() && #[trigger] order[i] == k;
            assert(out[i] == x);
        }
    }
}

/// A note's outgoing links are the notes that its text names, and no others.
proof fn lemma_outgoing(
    index: VaultIndex,
    files: Seq<ScannedFile>,
    decls: Seq<(Seq<char>, DeclView)>,
    exclude: &ExcludeMatcher,
    bodies: Seq<NoteBody>,
    i: int,
)
    requires
        is_catalog(index, files, decls, exclude),
        has_graph(index, bodies),
        index.by_slug@.len() <= usize::MAX,
        0 <= i < index.ordered_slugs@.len(),
    ensures
        ({
            let named = note_targets(
                index.ordered_slugs@[i]@,
                slugs_of(index.by_slug@),
                index.by_title@,
                index.by_path_title@,
                bodies,
            );
            forall|x: Seq<char>| #[trigger]
                strs(index.outgoing_by_slug@[i].1@).contains(x) <==> named.contains(x)
        }),
        forall|x: Seq<char>| #[trigger]
            strs(index.outgoing_by_slug@[i].1@).contains(x) ==> slugs_of(
                index.by_slug@,
            ).contains(x),
{
    let notes = index.by_slug@;
    let slugs = slugs_of(notes);
    let own = index.ordered_slugs@[i]@;
    let named = note_targets(own, slugs, index.by_title@, index.by_path_title@, bodies);
    if slugs.contains(own) && body_of(bodies, own) is Ok {
        let targets = wikilink_targets(body_of(bodies, own)->Ok_0);
        links_are_listed_once(targets, own, slugs, index.by_title@, index.by_path_title@);
        lemma_linked_slugs_are_known(targets, own, notes, index.by_title@, index.by_path_title@);
    }
    lemma_sublist_is_no_longer(named, slugs);
    lemma_by_path_keeps_links(notes, named);
    assert(strs(index.outgoing_by_slug@[i].1@) == by_path(notes, named));
}

/// A note's outgoing links are the other notes that the links of its text name, all of
/// them and no others. A note whose text is not known has none.
pub proof fn outgoing_links_are_what_the_text_names(
    index: VaultIndex,
    files: Seq<ScannedFile>,
    decls: Seq<(Seq<char>, DeclView)>,
    exclude: &ExcludeMatcher,
    bodies: Seq<NoteBody>,
    i: int,
    x: Seq<char>,
)
    requires
        is_catalog(index, files, decls, exclude),
        has_graph(index, bodies),
        index.by_slug@.len() <= usize::MAX,
        0 <= i < index.ordered_slugs@.len(),
    ensures
        ({
            let own = index.ordered_slugs@[i]@;
            strs(index.outgoing_by_slug@[i].1@).contains(x) <==> x != own && body_of(bodies, own) is Ok
                && exists|k: int|
                0 <= k < wikilink_targets(body_of(bodies, own)->Ok_0).len() && resolve_slug(
                    #[trigger] wikilink_targets(body_of(bodies, own)->Ok_0)[k],
                    slugs_of(index.by_slug@),
                    index.by_title@,
                    index.by_path_title@,
                ) == Some(x)
        }),
{
    let own = index.ordered_slugs@[i]@;
    lemma_outgoing(index, files, decls, exclude, bodies, i);
    every_note_is_listed_once(index, files, decls, exclude);
    assert(strs(index.ordered_slugs@)[i] == own);
    assert(strs(index.ordered_slugs@).contains(own));
    if body_of(bodies, own) is Ok {
        links_are_what_the_targets_name(
            wikilink_targets(body_of(bodies, own)->Ok_0),
            own,
            slugs_of(index.by_slug@),
            index.by_title@,
            index.by_path_title@,
        );
    }
}

/// The note at `k` has the path that the target says.
pub open spec fn has_path(notes: Seq<NoteEntry>, k: int, t: Seq<char>) -> bool {
    0 <= k < notes.len() && lowercase(trim(notes[k].relative_path@)) == lowercase(trim(t))
}

/// The note at `k` has the title.
pub open spec fn has_title(notes: Seq<NoteEntry>, k: int, t: Seq<char>) -> bool {
    0 <= k < notes.len() && lowercase(trim(notes[k].title@)) == lowercase(trim(t))
}

/// A target names a note by its path, and where no path is as it says by its title, and
/// where no title is either by its slug; the first note counts. Paths and titles are
/// compared in lower case and without white space around them, a target without a final
/// `.md` and with slashes for backslashes, and of a target's path the last part is its
/// title.
pub proof fn targets_name_notes_by_path_title_or_slug(index: VaultIndex, target: Seq<char>)
    requires
        title_table(index.by_slug@, index.by_title@),
        path_table(index.by_slug@, index.by_path_title@),
    ensures
        ({
            let notes = index.by_slug@;
            let t = link_target(target);
            let base = after_last(t, '/');
            let named = resolve_slug(target, slugs_of(notes), index.by_title@, index.by_path_title@);
            &&& forall|k: int|
                #![trigger notes[k]]
                has_path(notes, k, t) && (forall|j: int| 0 <= j < k ==> !#[trigger] has_path(notes, j, t)) ==> named == Some(
                    notes[k].slug@,
                )
            &&& forall|k: int|
                #![trigger notes[k]]
                (forall|j: int| !#[trigger] has_path(notes, j, t)) && has_title(notes, k, base) && (forall|j: int|
                    0 <= j < k ==> !#[trigger] has_title(notes, j, base)) ==> named == Some(notes[k].slug@)
            &&& (forall|j: int| !#[trigger] has_path(notes, j, t)) && (forall|j: int|
                !#[trigger] has_title(notes, j, base)) ==> named == (if slugs_of(notes).contains(
                slug_of(base),
            ) {
                Some(slug_of(base))
            } else {
                None
            })
        }),
{
    let notes = index.by_slug@;
    let t = link_target(target);
    let base = after_last(t, '/');
    let paths = keys_of(index.by_path_title@);
    let titles = keys_of(index.by_title@);
    lemma_index_from(paths, title_key(t), 0);
    lemma_index_from(titles, title_key(base), 0);
    let i = index_of(paths, title_key(t));
    let j = index_of(titles, title_key(base));
    assert forall|k: int| 0 <= k < notes.len() implies paths[k] == title_key(
        (#[trigger] notes[k]).relative_path@,
    ) && titles[k] == title_key(notes[k].title@) by {
        assert(index.by_path_title@[k].0@ == title_key(notes[k].relative_path@));
        assert(index.by_title@[k].0@ == title_key(notes[k].title@));
    }
    if i < notes.len() {
        assert(has_path(notes, i, t));
        assert(index.by_path_title@[i].1@ == notes[i].slug@);
    }
    if j < notes.len() {
        assert(has_title(notes, j, base));
        assert(index.by_title@[j].1@ == notes[j].slug@);
    }
    assert forall|k: int|
        #![trigger notes[k]]
        has_path(notes, k, t) && (forall|j: int| 0 <= j < k ==> !#[trigger] has_path(notes, j, t)) implies i == k by {
        assert(paths[k] == title_key(t));
    }
    assert forall|k: int|
        #![trigger notes[k]]
        has_title(notes, k, base) && (forall|j: int| 0 <= j < k ==> !#[trigger] has_title(notes, j, base)) implies j == k by {
        assert(titles[k] == title_key(base));
    }
}

/// One note is among the backlinks of another if and only if the other is among
/// its outgoing links.
pub proof fn backlinks_mirror_outgoing_links(
    index: VaultIndex,
    files: Seq<ScannedFile>,
    decls: Seq<(Seq<char>, DeclView)>,
    exclude: &ExcludeMatcher,
    bodies: Seq<NoteBody>,
    from: int,
    to: int,
)
    requires
        is_catalog(index, files, decls, exclude),
        has_graph(index, bodies),
        index.by_slug@.len() <= usize::MAX,
        0 <= from < index.ordered_slugs@.len(),
        0 <= to < index.ordered_slugs@.len(),
    ensures
        strs(index.backlinks_by_slug@[to].1@).contains(index.ordered_slugs@[from]@) <==> strs(
            index.outgoing_by_slug@[from].1@,
        ).contains(index.ordered_slugs@[to]@),
{
    lemma_outgoing(index, files, decls, exclude, bodies, from);
    let source = index.ordered_slugs@[from]@;
    assert(strs(index.ordered_slugs@)[from] == source);
    assert(strs(index.ordered_slugs@).contains(source));
    let back = index.backlinks_by_slug@[to];
    assert(strs(back.1@).contains(source) <==> strs(index.ordered_slugs@).contains(source)
        && links_to(
        source,
        index.ordered_slugs@[to]@,
        index.by_slug@,
        index.by_title@,
        index.by_path_title@,
        bodies,
    ));
}

/// Every outgoing link leads to a note of the vault; a link that names none is
/// left out.
pub proof fn links_lead_to_notes(
    index: VaultIndex,
    files: Seq<ScannedFile>,
    decls: Seq<(Seq<char>, DeclView)>,
    exclude: &ExcludeMatcher,
    bodies: Seq<NoteBody>,
    from: int,
    target: Seq<char>,
)
    requires
        is_catalog(index, files, decls, exclude),
        has_graph(index, bodies),
        index.by_slug@.len() <= usize::MAX,
        0 <= from < index.ordered_slugs@.len(),
        strs(index.outgoing_by_slug@[from].1@).contains(target),
    ensures
        strs(index.ordered_slugs@).contains(target),
{
    lemma_outgoing(index, files, decls, exclude, bodies, from);
    every_note_is_listed_once(index, files, decls, exclude);
}

// ---------------------------------------------------------------------------
// Search
// ---------------------------------------------------------------------------

/// No two hits name the same note.
pub open spec fn distinct_hits(hits: Seq<HitView>) -> bool {
    forall|i: int, j: int|
        0 <= i < j < hits.len() ==> (#[trigger] hits[i]).slug != (#[trigger] hits[j]).slug
}

proof fn lemma_name_hits_distinct(notes: Seq<NoteEntry>, slugs: Seq<Seq<char>>, q: Seq<char>)
    requires
        slugs.no_duplicates(),
    ensures
        distinct_hits(name_hits(notes, slugs, q)),
        forall|i: int|
            0 <= i < name_hits(notes, slugs, q).len() ==> slugs.contains(
                (#[trigger] name_hits(notes, slugs, q)[i]).slug,
            ),
    decreases slugs.len(),
{
    if slugs.len() > 0 {
        let front = slugs.drop_last();
        let last = slugs.last();
        lemma_name_hits_distinct(notes, front, q);
        lemma_index_of(slugs_of(notes), last);
        lemma_front_is_part(slugs);
        let prev = name_hits(notes, front, q);
        let all = name_hits(notes, slugs, q);
        assert forall|i: int| 0 <= i < all.len() implies slugs.contains(
            (#[trigger] all[i]).slug,
        ) by {
            if i < prev.len() {
                assert(all[i] == prev[i]);
                assert(front.contains(prev[i].slug));
            } else {
                assert(all[i].slug == last);
            }
        }
        assert forall|i: int, j: int| 0 <= i < j < all.len() implies (#[trigger] all[i]).slug != (
        #[trigger] all[j]).slug by {
            assert(all[i] == prev[i]);
            assert(front.contains(prev[i].slug));
            if j < prev.len() {
                assert(all[j] == prev[j]);
            } else {
                assert(all[j].slug == last);
            }
        }
    }
}

/// The last of distinct slugs is not among those before it.
proof fn lemma_front_is_part(slugs: Seq<Seq<char>>)
    requires
        slugs.no_duplicates(),
        slugs.len() > 0,
    ensures
        slugs.drop_last().no_duplicates(),
        !slugs.drop_last().contains(slugs.last()),
        slugs.contains(slugs.last()),
        forall|x: Seq<char>| #[trigger] slugs.drop_last().contains(x) ==> slugs.contains(x),
{
    let front = slugs.drop_last();
    assert(slugs[slugs.len() - 1] == slugs.last());
    assert forall|x: Seq<char>| #[trigger] front.contains(x) implies slugs.contains(x) by {
        let k = choose|k: int| 0 <= k < front.len() && front[k] == x;
        assert(slugs[k] == x);
    }
}

proof fn lemma_body_hits_distinct(
    notes: Seq<NoteEntry>,
    slugs: Seq<Seq<char>>,
    q: Seq<char>,
    bodies: Seq<NoteBody>,
    named: Seq<HitView>,
)
    requires
        slugs.no_duplicates(),
    ensures
        distinct_hits(body_hits(notes, slugs, q, bodies, named)),
        forall|i: int|
            0 <= i < body_hits(notes, slugs, q, bodies, named).len() ==> {
                let slug = (#[trigger] body_hits(notes, slugs, q, bodies, named)[i]).slug;
                slugs.contains(slug) && !seen(named, slug)
            },
    decreases slugs.len(),
{
    if slugs.len() > 0 {
        let front = slugs.drop_last();
        let last = slugs.last();
        lemma_front_is_part(slugs);
        lemma_body_hits_distinct(notes, front, q, bodies, named);
        lemma_index_of(slugs_of(notes), last);
        let prev = body_hits(notes, front, q, bodies, named);
        let all = body_hits(notes, slugs, q, bodies, named);
        assert forall|i: int| 0 <= i < all.len() implies {
            let slug = (#[trigger] all[i]).slug;
            slugs.contains(slug) && !seen(named, slug)
        } by {
            if i < prev.len() {
                assert(all[i] == prev[i]);
                assert(front.contains(prev[i].slug));
            } else {
                assert(all[i].slug == last);
            }
        }
        assert forall|i: int, j: int| 0 <= i < j < all.len() implies (#[trigger] all[i]).slug != (
        #[trigger] all[j]).slug by {
            assert(all[i] == prev[i]);
            assert(front.contains(prev[i].slug));
            if j < prev.len() {
                assert(all[j] == prev[j]);
            } else {
                assert(all[j].slug == last);
            }
        }
    }
}

/// A search finds no note twice, and no more notes than it was asked for.
pub proof fn search_finds_each_note_once(
    index: VaultIndex,
    query: Seq<char>,
    include_content: bool,
    limit: nat,
    bodies: Seq<NoteBody>,
)
    requires
        strs(index.ordered_slugs@).no_duplicates(),
    ensures
        distinct_hits(search_hits(index, query, include_content, limit, bodies)),
        search_hits(index, query, include_content, limit, bodies).len() <= limit,
{
    let q = title_key(query);
    let slugs = strs(index.ordered_slugs@);
    let named = name_hits(index.by_slug@, slugs, q);
    let more = body_hits(index.by_slug@, slugs, q, bodies, named);
    lemma_name_hits_distinct(index.by_slug@, slugs, q);
    lemma_body_hits_distinct(index.by_slug@, slugs, q, bodies, named);
    let all = named + more;
    assert forall|i: int, j: int| 0 <= i < j < all.len() implies (#[trigger] all[i]).slug != (
    #[trigger] all[j]).slug by {
        if i < named.len() && j >= named.len() {
            assert(all[j] == more[j - named.len()]);
            assert(named[i].slug == all[i].slug);
        } else if i >= named.len() {
            assert(all[i] == more[i - named.len()]);
            assert(all[j] == more[j - named.len()]);
        } else {
            assert(all[i] == named[i] && all[j] == named[j]);
        }
    }
}

/// The note's title or its path matches the query.
pub open spec fn name_matches(note: NoteEntry, q: Seq<char>) -> bool {
    line_matches(note.title@, q) || line_matches(note.relative_path@, q)
}

/// The note's text is known and one of its lines matches the query.
pub open spec fn text_matches(bodies: Seq<NoteBody>, slug: Seq<char>, q: Seq<char>) -> bool {
    body_of(bodies, slug) is Ok && exists|i: int|
        0 <= i < lines(body_of(bodies, slug)->Ok_0).len() && line_matches(
            #[trigger] lines(body_of(bodies, slug)->Ok_0)[i],
            q,
        )
}

/// The hit is the note's: it has its title, slug and path, and says how the note
/// matches. A title counts before a path and a path before the text, and only a match
/// of the text has a snippet.
pub open spec fn is_hit_of(
    hit: HitView,
    note: NoteEntry,
    q: Seq<char>,
    bodies: Seq<NoteBody>,
) -> bool {
    &&& hit.title == note.title@
    &&& hit.slug == note.slug@
    &&& hit.relative_path == note.relative_path@
    &&& if line_matches(note.title@, q) {
        hit.match_kind == "title"@ && hit.snippet is None
    } else if line_matches(note.relative_path@, q) {
        hit.match_kind == "path"@ && hit.snippet is None
    } else {
        &&& hit.match_kind == "content"@
        &&& text_matches(bodies, note.slug@, q)
        &&& hit.snippet == snippet_of(body_of(bodies, note.slug@)->Ok_0, q)
        &&& hit.snippet is Some
    }
}

proof fn lemma_kind(note: NoteEntry, q: Seq<char>)
    ensures
        match_kind(note, q) is Some <==> name_matches(note, q),
        match_kind(note, q) == (if line_matches(note.title@, q) {
            Some("title"@)
        } else if line_matches(note.relative_path@, q) {
            Some("path"@)
        } else {
            None
        }),
{
}

/// The places of the hits among the slugs, one for each and in order.
proof fn lemma_name_hits(
    notes: Seq<NoteEntry>,
    slugs: Seq<Seq<char>>,
    q: Seq<char>,
    bodies: Seq<NoteBody>,
) -> (at: Seq<int>)
    ensures
        at.len() == name_hits(notes, slugs, q).len(),
        forall|i: int|
            0 <= i < at.len() ==> {
                let k = index_of(slugs_of(notes), slugs[#[trigger] at[i]]);
                &&& 0 <= at[i] < slugs.len()
                &&& k < notes.len()
                &&& name_matches(notes[k], q)
                &&& is_hit_of(name_hits(notes, slugs, q)[i], notes[k], q, bodies)
                &&& name_hits(notes, slugs, q)[i].slug == slugs[at[i]]
            },
        forall|i: int, j: int| 0 <= i < j < at.len() ==> at[i] < at[j],
        forall|p: int|
            0 <= p < slugs.len() && index_of(slugs_of(notes), #[trigger] slugs[p]) < notes.len()
                && name_matches(notes[index_of(slugs_of(notes), slugs[p])], q) ==> at.contains(p),
    decreases slugs.len(),
{
    if slugs.len() == 0 {
        Seq::empty()
    } else {
        let front = slugs.drop_last();
        let n = slugs.len() - 1;
        let was = lemma_name_hits(notes, front, q, bodies);
        let k = index_of(slugs_of(notes), slugs[n]);
        lemma_index_of(slugs_of(notes), slugs[n]);
        if k < notes.len() {
            lemma_kind(notes[k], q);
        }
        let prev = name_hits(notes, front, q);
        let all = name_hits(notes, slugs, q);
        assert(slugs.last() == slugs[n]);
        let at = if k < notes.len() && name_matches(notes[k], q) {
            was.push(n)
        } else {
            was
        };
        assert forall|i: int| 0 <= i < at.len() implies {
            let k = index_of(slugs_of(notes), slugs[#[trigger] at[i]]);
            &&& 0 <= at[i] < slugs.len()
            &&& k < notes.len()
            &&& name_matches(notes[k], q)
            &&& is_hit_of(all[i], notes[k], q, bodies)
            &&& all[i].slug == slugs[at[i]]
        } by {
            if i < was.len() {
                assert(at[i] == was[i]);
                assert(front[was[i]] == slugs[was[i]]);
                assert(all[i] == prev[i]);
            } else {
                assert(at[i] == n);
            }
        }
        assert forall|p: int|
            0 <= p < slugs.len() && index_of(slugs_of(notes), #[trigger] slugs[p]) < notes.len()
                && name_matches(notes[index_of(slugs_of(notes), slugs[p])], q) implies at.contains(
            p,
        ) by {
            if p < n {
                assert(front[p] == slugs[p]);
                assert(was.contains(p));
                let x = choose|x: int| 0 <= x < was.len() && was[x] == p;
                assert(at[x] == p);
            } else {
                assert(at[was.len() as int] == p);
            }
        }
        at
    }
}

proof fn lemma_body_hits(
    notes: Seq<NoteEntry>,
    slugs: Seq<Seq<char>>,
    q: Seq<char>,
    bodies: Seq<NoteBody>,
    named: Seq<HitView>,
) -> (at: Seq<int>)
    requires
        forall|p: int|
            0 <= p < slugs.len() && index_of(slugs_of(notes), #[trigger] slugs[p]) < notes.len()
                ==> (seen(named, slugs[p]) <==> name_matches(
                notes[index_of(slugs_of(notes), slugs[p])],
                q,
            )),
    ensures
        at.len() == body_hits(notes, slugs, q, bodies, named).len(),
        forall|i: int|
            0 <= i < at.len() ==> {
                let k = index_of(slugs_of(notes), slugs[#[trigger] at[i]]);
                &&& 0 <= at[i] < slugs.len()
                &&& k < notes.len()
                &&& !name_matches(notes[k], q)
                &&& is_hit_of(body_hits(notes, slugs, q, bodies, named)[i], notes[k], q, bodies)
                &&& body_hits(notes, slugs, q, bodies, named)[i].slug == slugs[at[i]]
            },
        forall|i: int, j: int| 0 <= i < j < at.len() ==> at[i] < at[j],
        forall|p: int|
            0 <= p < slugs.len() && index_of(slugs_of(notes), #[trigger] slugs[p]) < notes.len()
                && !name_matches(notes[index_of(slugs_of(notes), slugs[p])], q) && text_matches(
                bodies,
                slugs[p],
                q,
            ) ==> at.contains(p),
    decreases slugs.len(),
{
    if slugs.len() == 0 {
        Seq::empty()
    } else {
        let front = slugs.drop_last();
        let n = slugs.len() - 1;
        assert forall|p: int|
            0 <= p < front.len() && index_of(slugs_of(notes), #[trigger] front[p])
                < notes.len() implies (seen(named, front[p]) <==> name_matches(
            notes[index_of(slugs_of(notes), front[p])],
            q,
        )) by {
            assert(front[p] == slugs[p]);
        }
        let was = lemma_body_hits(notes, front, q, bodies, named);
        let k = index_of(slugs_of(notes), slugs[n]);
        lemma_index_of(slugs_of(notes), slugs[n]);
        let prev = body_hits(notes, front, q, bodies, named);
        let all = body_hits(notes, slugs, q, bodies, named);
        assert(slugs.last() == slugs[n]);
        let here = k < notes.len() && !name_matches(notes[k], q) && text_matches(
            bodies,
            slugs[n],
            q,
        );
        if k < notes.len() {
            assert(notes[k].slug@ == slugs[n]);
            if body_of(bodies, slugs[n]) is Ok {
                snippet_is_the_first_line_that_matches(body_of(bodies, slugs[n])->Ok_0, q);
            }
        }
        let at = if here {
            was.push(n)
        } else {
            was
        };
        assert(all.len() == at.len());
        assert forall|i: int| 0 <= i < at.len() implies {
            let k = index_of(slugs_of(notes), slugs[#[trigger] at[i]]);
            &&& 0 <= at[i] < slugs.len()
            &&& k < notes.len()
            &&& !name_matches(notes[k], q)
            &&& is_hit_of(all[i], notes[k], q, bodies)
            &&& all[i].slug == slugs[at[i]]
        } by {
            if i < was.len() {
                assert(at[i] == was[i]);
                assert(front[was[i]] == slugs[was[i]]);
                assert(all[i] == prev[i]);
            } else {
                assert(at[i] == n);
            }
        }
        assert forall|p: int|
            0 <= p < slugs.len() && index_of(slugs_of(notes), #[trigger] slugs[p]) < notes.len()
                && !name_matches(notes[index_of(slugs_of(notes), slugs[p])], q) && text_matches(
                bodies,
                slugs[p],
                q,
            ) implies at.contains(p) by {
            if p < n {
                assert(front[p] == slugs[p]);
                assert(was.contains(p));
                let x = choose|x: int| 0 <= x < was.len() && was[x] == p;
                assert(at[x] == p);
            } else {
                assert(at[was.len() as int] == p);
            }
        }
        at
    }
}

/// A query of nothing finds nothing, and neither does a search for no hits.
pub proof fn empty_search_finds_nothing(
    index: VaultIndex,
    query: Seq<char>,
    include_content: bool,
    limit: nat,
    bodies: Seq<NoteBody>,
)
    requires
        lowercase(trim(query)).len() == 0 || limit == 0,
    ensures
        search_hits(index, query, include_content, limit, bodies).len() == 0,
{
}

/// A search lists the notes that match, and says of each how it matches: first, in the
/// order of the vault, those whose title or path matches, and behind them, if asked for
/// and in the same order, those whose text does. Every such note is listed while the
/// limit lasts. `at` gives the place of each hit in the order of the vault.
pub proof fn search_lists_every_match(
    index: VaultIndex,
    query: Seq<char>,
    include_content: bool,
    limit: nat,
    bodies: Seq<NoteBody>,
) -> (at: Seq<int>)
    requires
        title_key(query).len() > 0,
    ensures
        ({
            let notes = index.by_slug@;
            let slugs = strs(index.ordered_slugs@);
            let q = lowercase(trim(query));
            let hits = search_hits(index, query, include_content, limit, bodies);
            &&& at.len() == hits.len()
            &&& hits.len() <= limit
            &&& forall|i: int|
                0 <= i < at.len() ==> {
                    let k = index_of(slugs_of(notes), slugs[#[trigger] at[i]]);
                    &&& 0 <= at[i] < slugs.len()
                    &&& k < notes.len()
                    &&& is_hit_of(hits[i], notes[k], q, bodies)
                    &&& name_matches(notes[k], q) || include_content
                }
            &&& forall|i: int, j: int|
                0 <= i < j < at.len() ==> {
                    let a = name_matches(notes[index_of(slugs_of(notes), slugs[#[trigger] at[i]])], q);
                    let b = name_matches(notes[index_of(slugs_of(notes), slugs[#[trigger] at[j]])], q);
                    &&& b ==> a
                    &&& a == b ==> at[i] < at[j]
                }
            &&& forall|p: int|
                0 <= p < slugs.len() && index_of(slugs_of(notes), #[trigger] slugs[p]) < notes.len()
                    && hits.len() < limit && (name_matches(
                    notes[index_of(slugs_of(notes), slugs[p])],
                    q,
                ) || (include_content && text_matches(bodies, slugs[p], q))) ==> at.contains(p)
        }),
{
    let notes = index.by_slug@;
    let slugs = strs(index.ordered_slugs@);
    let q = title_key(query);
    let named = name_hits(notes, slugs, q);
    let first = lemma_name_hits(notes, slugs, q, bodies);
    assert forall|p: int|
        0 <= p < slugs.len() && index_of(slugs_of(notes), #[trigger] slugs[p]) < notes.len() implies (
    seen(named, slugs[p]) <==> name_matches(notes[index_of(slugs_of(notes), slugs[p])], q)) by {
        let k = index_of(slugs_of(notes), slugs[p]);
        if name_matches(notes[k], q) {
            assert(first.contains(p));
            let i = choose|i: int| 0 <= i < first.len() && first[i] == p;
            assert(named[i].slug == slugs[first[i]]);
        }
        if seen(named, slugs[p]) {
            let i = choose|i: int| 0 <= i < named.len() && (#[trigger] named[i]).slug == slugs[p];
            assert(slugs[first[i]] == slugs[p]);
        }
    }
    let more = lemma_body_hits(notes, slugs, q, bodies, named);
    let all = if include_content {
        first + more
    } else {
        first
    };
    let hits = search_hits(index, query, include_content, limit, bodies);
    let at = all.take(hits.len() as int);
    assert forall|i: int| 0 <= i < at.len() implies {
        let k = index_of(slugs_of(notes), slugs[#[trigger] at[i]]);
        &&& 0 <= at[i] < slugs.len()
        &&& k < notes.len()
        &&& is_hit_of(hits[i], notes[k], q, bodies)
        &&& name_matches(notes[k], q) || include_content
        &&& name_matches(notes[k], q) <==> i < first.len()
    } by {
        if i < first.len() {
            assert(at[i] == first[i]);
            assert(hits[i] == named[i]);
        } else {
            assert(at[i] == more[i - first.len()]);
            assert(hits[i] == body_hits(notes, slugs, q, bodies, named)[i - first.len()]);
        }
    }
    assert forall|i: int, j: int| 0 <= i < j < at.len() implies {
        let a = name_matches(notes[index_of(slugs_of(notes), slugs[#[trigger] at[i]])], q);
        let b = name_matches(notes[index_of(slugs_of(notes), slugs[#[trigger] at[j]])], q);
        &&& b ==> a
        &&& a == b ==> at[i] < at[j]
    } by {
        if j < first.len() {
            assert(at[i] == first[i] && at[j] == first[j]);
        } else if i >= first.len() {
            assert(at[i] == more[i - first.len()] && at[j] == more[j - first.len()]);
        }
    }
    assert forall|p: int|
        0 <= p < slugs.len() && index_of(slugs_of(notes), #[trigger] slugs[p]) < notes.len()
            && hits.len() < limit && (name_matches(notes[index_of(slugs_of(notes), slugs[p])], q)
            || (include_content && text_matches(bodies, slugs[p], q))) implies at.contains(p) by {
        assert(at =~= all);
        if name_matches(notes[index_of(slugs_of(notes), slugs[p])], q) {
            assert(first.contains(p));
            let i = choose|i: int| 0 <= i < first.len() && first[i] == p;
            assert(at[i] == p);
        } else {
            assert(more.contains(p));
            let i = choose|i: int| 0 <= i < more.len() && more[i] == p;
            assert(at[first.len() + i] == p);
        }
    }
    at
}

// ---------------------------------------------------------------------------
// The folder tree
// ---------------------------------------------------------------------------

/// The note stands in the tree, in the folders given from the outermost in.
pub open spec fn stands_in(
    tree: ExplorerFolder,
    folders: Seq<Seq<char>>,
    title: Seq<char>,
    slug: Seq<char>,
) -> bool
    decreases folders.len(),
{
    if folders.len() == 0 {
        explorer_notes(tree.notes@).contains((title, slug))
    } else {
        exists|i: int|
            0 <= i < tree.folders@.len() && (#[trigger] tree.folders@[i]).name@ == folders[0]
                && stands_in(tree.folders@[i], folders.skip(1), title, slug)
    }
}

proof fn lemma_top_notes(items: Seq<ItemView>, title: Seq<char>, slug: Seq<char>)
    ensures
        top_notes(items).contains((title, slug)) <==> items.contains(
            ItemView { folders: seq![], title, slug },
        ),
    decreases items.len(),
{
    if items.len() > 0 {
        let front = items.drop_last();
        let last = items.last();
        let wanted = ItemView { folders: seq![], title, slug };
        lemma_top_notes(front, title, slug);
        let prev = top_notes(front);
        let all = top_notes(items);
        assert(last.folders.len() == 0 ==> last.folders =~= seq![]);
        assert(items[items.len() - 1] == last);
        if all.contains((title, slug)) {
            let k = choose|k: int| 0 <= k < all.len() && all[k] == (title, slug);
            if k < prev.len() {
                assert(prev[k] == (title, slug));
                let m = choose|m: int| 0 <= m < front.len() && front[m] == wanted;
                assert(items[m] == wanted);
            } else {
                assert(last == wanted);
            }
        }
        if items.contains(wanted) {
            let m = choose|m: int| 0 <= m < items.len() && items[m] == wanted;
            if m < front.len() {
                assert(front[m] == wanted);
                let k = choose|k: int| 0 <= k < prev.len() && prev[k] == (title, slug);
                assert(all[k] == (title, slug));
            } else {
                assert(all[all.len() - 1] == (title, slug));
            }
        }
    }
}

proof fn lemma_items_in(
    items: Seq<ItemView>,
    folders: Seq<Seq<char>>,
    title: Seq<char>,
    slug: Seq<char>,
)
    requires
        folders.len() > 0,
    ensures
        items_in(items, folders[0]).contains(ItemView { folders: folders.skip(1), title, slug })
            <==> items.contains(ItemView { folders, title, slug }),
    decreases items.len(),
{
    if items.len() > 0 {
        let front = items.drop_last();
        let last = items.last();
        let inner = ItemView { folders: folders.skip(1), title, slug };
        let outer = ItemView { folders, title, slug };
        lemma_items_in(front, folders, title, slug);
        let prev = items_in(front, folders[0]);
        let all = items_in(items, folders[0]);
        assert(items[items.len() - 1] == last);
        if all.contains(inner) {
            let k = choose|k: int| 0 <= k < all.len() && all[k] == inner;
            if k < prev.len() {
                assert(prev[k] == inner);
                let m = choose|m: int| 0 <= m < front.len() && front[m] == outer;
                assert(items[m] == outer);
            } else {
                assert(last.folders =~= seq![last.folders[0]] + last.folders.skip(1));
                assert(folders =~= seq![folders[0]] + folders.skip(1));
                assert(last == outer);
            }
        }
        if items.contains(outer) {
            let m = choose|m: int| 0 <= m < items.len() && items[m] == outer;
            if m < front.len() {
                assert(front[m] == outer);
                let k = choose|k: int| 0 <= k < prev.len() && prev[k] == inner;
                assert(all[k] == inner);
            } else {
                assert(all[all.len() - 1] == inner);
            }
        }
    }
}

/// The tree holds a note in given folders if and only if the note stands there
/// in the vault.
pub proof fn tree_holds_each_note_in_its_folder(
    tree: ExplorerFolder,
    name: Seq<char>,
    items: Seq<ItemView>,
    depth: nat,
    folders: Seq<Seq<char>>,
    title: Seq<char>,
    slug: Seq<char>,
)
    requires
        is_tree(tree, name, items, depth),
    ensures
        stands_in(tree, folders, title, slug) <==> items.contains(
            ItemView { folders, title, slug },
        ),
    decreases folders.len(),
{
    if folders.len() == 0 {
        assert(folders =~= seq![]);
        lemma_top_notes(items, title, slug);
    } else {
        let here = ItemView { folders, title, slug };
        let rest = folders.skip(1);
        lemma_items_in(items, folders, title, slug);
        if stands_in(tree, folders, title, slug) {
            let i = choose|i: int|
                0 <= i < tree.folders@.len() && (#[trigger] tree.folders@[i]).name@ == folders[0]
                    && stands_in(tree.folders@[i], rest, title, slug);
            let inner = tree.folders@[i];
            tree_holds_each_note_in_its_folder(
                inner,
                inner.name@,
                items_in(items, folders[0]),
                (depth - 1) as nat,
                rest,
                title,
                slug,
            );
        }
        if items.contains(here) {
            let m = choose|m: int| 0 <= m < items.len() && items[m] == here;
            assert(items[m].folders[0] == folders[0]);
            assert(has_folder(items, folders[0]));
            assert(folder_names(tree.folders@).contains(folders[0]));
            let i = choose|i: int|
                0 <= i < folder_names(tree.folders@).len() && folder_names(tree.folders@)[i]
                    == folders[0];
            let inner = tree.folders@[i];
            assert(inner.name@ == folders[0]);
            tree_holds_each_note_in_its_folder(
                inner,
                inner.name@,
                items_in(items, folders[0]),
                (depth - 1) as nat,
                rest,
                title,
                slug,
            );
        }
    }
}

} // verus!
