//! Planning what happens to the files a note refers to when the note moves.

use vstd::prelude::*;
use vstd::slice::slice_to_vec;

use crate::asset_refs::{
    asset_references, referenced_assets, refs_text, transform_asset_references, AssetRetarget,
};
use crate::assets::{normalize_asset_path, resolved_path};
use crate::files::{
    clean_part, dir_of, dir_text, existing, fact_of, find_fact, in_trash, is_in_trash, is_same_file,
    is_same_path, join_path, leads_down, lemma_join_leads_down, lemma_pieces_lead_down, path_joined,
    relative_link, relative_link_target, resolved_path_leads_down, same_file, same_path, trash_file,
    trash_file_leads_down, unique_trash_attachment_relative_path, written_link_leads_to_the_file,
    FileFact,
};
use crate::index::{listed_notes, root_joined, under_root};
use crate::rewrites::{planned_content, planned_text};
use crate::tables::{body_of, find_body, NoteBody};
use crate::text::{
    chars_eq, from_chars, has_prefix, join, lemma_strs_push, push_str, starts_with, str_eq, strs,
    suffix_of, to_chars,
};
use crate::types::{notes_view, NoteEntry, NoteView, VaultIndex};
use crate::write_types::{
    await_folder, clone_rewrite, folder_stop, lemma_moves_push, lemma_rewrites_push, made_views,
    move_views, rewrite_views, AssetMove, ErrorView, PlanStop, StopView, TextRewrite, WriteError,
};

verus! {

// ---------------------------------------------------------------------------
// Repointing other notes at a moved file
// ---------------------------------------------------------------------------

/// A note's new reference to a file: one that leads to the moved file now
/// leads to its destination, any other stays.
pub open spec fn repointed(
    facts: Seq<FileFact>,
    note_path: Seq<char>,
    source: Seq<char>,
    destination: Seq<char>,
) -> spec_fn(Seq<char>) -> Seq<char> {
    |target: Seq<char>|
        if same_file(facts, join_path(dir_text(note_path), target), source) {
            relative_link(note_path, destination)
        } else {
            target
        }
}

struct Repoint<'a> {
    facts: &'a Vec<FileFact>,
    note_path: &'a [char],
    source: &'a [char],
    destination: &'a [char],
}

impl<'a> AssetRetarget for Repoint<'a> {
    closed spec fn asset_image(&self) -> spec_fn(Seq<char>) -> Seq<char> {
        repointed(self.facts@, self.note_path@, self.source@, self.destination@)
    }

    fn retarget_asset(&self, target: &[char]) -> (r: Vec<char>) {
        let path = path_joined(dir_of(self.note_path), target);
        if is_same_file(self.facts, path.as_slice(), self.source) {
            relative_link_target(self.note_path, self.destination)
        } else {
            slice_to_vec(target)
        }
    }
}

/// A note's text, as far as rewrites are already planned for it.
pub open spec fn text_so_far(
    bodies: Seq<NoteBody>,
    baseline: Seq<(Seq<char>, Seq<char>)>,
    entry: NoteView,
) -> Result<Seq<char>, Seq<char>> {
    match planned_text(baseline, entry.file) {
        Some(text) => Ok(text),
        None => body_of(bodies, entry.slug),
    }
}

/// The rewrites of the given notes that a moved file makes necessary, in
/// order. The moved note itself is left out. The first text that cannot be
/// read is reported.
pub open spec fn reference_plan(
    entries: Seq<NoteView>,
    bodies: Seq<NoteBody>,
    facts: Seq<FileFact>,
    moved_slug: Seq<char>,
    source: Seq<char>,
    destination: Seq<char>,
    baseline: Seq<(Seq<char>, Seq<char>)>,
) -> Result<Seq<(Seq<char>, Seq<char>)>, ErrorView>
    decreases entries.len(),
{
    if entries.len() == 0 {
        Ok(seq![])
    } else {
        let entry = entries.last();
        match reference_plan(
            entries.drop_last(),
            bodies,
            facts,
            moved_slug,
            source,
            destination,
            baseline,
        ) {
            Err(e) => Err(e),
            Ok(prev) => if entry.slug == moved_slug {
                Ok(prev)
            } else {
                match text_so_far(bodies, baseline, entry) {
                    Err(why) => Err(
                        ErrorView::Io(
                            "failed to read note '"@ + entry.relative_path
                                + "' for asset reference rewrite: "@ + why,
                        ),
                    ),
                    Ok(text) => {
                        let new = refs_text(
                            text,
                            repointed(facts, entry.file, source, destination),
                        );
                        if new == text {
                            Ok(prev)
                        } else {
                            Ok(prev.push((entry.file, new)))
                        }
                    },
                }
            },
        }
    }
}

/// The new text of a note when a file it may refer to has moved.
pub open spec fn text_with_moved_file(
    entry: NoteView,
    bodies: Seq<NoteBody>,
    facts: Seq<FileFact>,
    source: Seq<char>,
    destination: Seq<char>,
    baseline: Seq<(Seq<char>, Seq<char>)>,
) -> Seq<char> {
    refs_text(
        text_so_far(bodies, baseline, entry)->Ok_0,
        repointed(facts, entry.file, source, destination),
    )
}

/// Every other note whose references change is rewritten, from its text as far as it is
/// planned, with all its references as the moved file has them, and no other note is. The
/// plan fails only for a note that cannot be read. `at` gives the note of each rewrite, in
/// order.
pub proof fn every_note_that_refers_is_rewritten(
    entries: Seq<NoteView>,
    bodies: Seq<NoteBody>,
    facts: Seq<FileFact>,
    moved_slug: Seq<char>,
    source: Seq<char>,
    destination: Seq<char>,
    baseline: Seq<(Seq<char>, Seq<char>)>,
) -> (at: Seq<int>)
    ensures
        match reference_plan(entries, bodies, facts, moved_slug, source, destination, baseline) {
            Ok(plan) => {
                &&& at.len() == plan.len()
                &&& forall|k: int|
                    0 <= k < at.len() ==> {
                        let entry = entries[#[trigger] at[k]];
                        &&& 0 <= at[k] < entries.len()
                        &&& entry.slug != moved_slug
                        &&& text_so_far(bodies, baseline, entry) is Ok
                        &&& plan[k].0 == entry.file
                        &&& plan[k].1 == text_with_moved_file(
                            entry,
                            bodies,
                            facts,
                            source,
                            destination,
                            baseline,
                        )
                    }
                &&& forall|k: int, l: int| 0 <= k < l < at.len() ==> at[k] < at[l]
                &&& forall|i: int|
                    0 <= i < entries.len() && (#[trigger] entries[i]).slug != moved_slug
                        ==> text_so_far(bodies, baseline, entries[i]) is Ok && (at.contains(i)
                        || text_with_moved_file(
                        entries[i],
                        bodies,
                        facts,
                        source,
                        destination,
                        baseline,
                    ) == text_so_far(bodies, baseline, entries[i])->Ok_0)
            },
            Err(e) => e is Io && at.len() == 1 && 0 <= at[0] < entries.len() && text_so_far(
                bodies,
                baseline,
                entries[at[0]],
            ) is Err,
        },
    decreases entries.len(),
{
    if entries.len() == 0 {
        Seq::empty()
    } else {
        let front = entries.drop_last();
        let n = entries.len() - 1;
        let was = every_note_that_refers_is_rewritten(
            front,
            bodies,
            facts,
            moved_slug,
            source,
            destination,
            baseline,
        );
        let prev = reference_plan(
            front,
            bodies,
            facts,
            moved_slug,
            source,
            destination,
            baseline,
        );
        let whole = reference_plan(
            entries,
            bodies,
            facts,
            moved_slug,
            source,
            destination,
            baseline,
        );
        assert(entries.last() == entries[n]);
        if prev is Err {
            assert(front[was[0]] == entries[was[0]]);
            was
        } else if whole is Err {
            seq![n]
        } else {
            let plan = whole->Ok_0;
            let at = if plan.len() > prev->Ok_0.len() {
                was.push(n)
            } else {
                was
            };
            assert forall|k: int| 0 <= k < at.len() implies {
                let entry = entries[#[trigger] at[k]];
                &&& 0 <= at[k] < entries.len()
                &&& entry.slug != moved_slug
                &&& text_so_far(bodies, baseline, entry) is Ok
                &&& plan[k].0 == entry.file
                &&& plan[k].1 == text_with_moved_file(
                    entry,
                    bodies,
                    facts,
                    source,
                    destination,
                    baseline,
                )
            } by {
                if k < was.len() {
                    assert(at[k] == was[k]);
                    assert(front[was[k]] == entries[was[k]]);
                    assert(plan[k] == prev->Ok_0[k]);
                }
            }
            assert forall|i: int|
                0 <= i < entries.len() && (#[trigger] entries[i]).slug != moved_slug implies text_so_far(
                bodies,
                baseline,
                entries[i],
            ) is Ok && (at.contains(i) || text_with_moved_file(
                entries[i],
                bodies,
                facts,
                source,
                destination,
                baseline,
            ) == text_so_far(bodies, baseline, entries[i])->Ok_0) by {
                if i < n {
                    assert(front[i] == entries[i]);
                    if was.contains(i) {
                        let k = choose|k: int| 0 <= k < was.len() && was[k] == i;
                        assert(at[k] == i);
                    }
                } else if plan.len() > prev->Ok_0.len() {
                    assert(at[was.len() as int] == n);
                }
            }
            at
        }
    }
}

proof fn lemma_reference_error_stays(
    entries: Seq<NoteView>,
    bodies: Seq<NoteBody>,
    facts: Seq<FileFact>,
    moved_slug: Seq<char>,
    source: Seq<char>,
    destination: Seq<char>,
    baseline: Seq<(Seq<char>, Seq<char>)>,
    i: int,
)
    requires
        0 <= i <= entries.len(),
        reference_plan(
            entries.take(i),
            bodies,
            facts,
            moved_slug,
            source,
            destination,
            baseline,
        ) is Err,
    ensures
        reference_plan(entries, bodies, facts, moved_slug, source, destination, baseline)
            == reference_plan(
            entries.take(i),
            bodies,
            facts,
            moved_slug,
            source,
            destination,
            baseline,
        ),
    decreases entries.len() - i,
{
    if i < entries.len() {
        assert(entries.take(i + 1).drop_last() =~= entries.take(i));
        lemma_reference_error_stays(
            entries,
            bodies,
            facts,
            moved_slug,
            source,
            destination,
            baseline,
            i + 1,
        );
    } else {
        assert(entries.take(i) =~= entries);
    }
}

/// The notes of an index, by path.
pub open spec fn index_entries(index: VaultIndex) -> Seq<NoteView> {
    notes_view(listed_notes(index.by_slug@, strs(index.ordered_slugs@)))
}

pub fn asset_reference_rewrite_plan(
    index: &VaultIndex,
    bodies: &Vec<NoteBody>,
    facts: &Vec<FileFact>,
    moved_slug: &str,
    source: &[char],
    destination: &[char],
    baseline: &Vec<TextRewrite>,
) -> (r: Result<Vec<TextRewrite>, WriteError>)
    ensures
        crate::rewrites::plan_result(r) == reference_plan(
            index_entries(*index),
            bodies@,
            facts@,
            moved_slug@,
            source@,
            destination@,
            rewrite_views(baseline@),
        ),
{
    let entries = index.ordered_entries();
    let ghost ev = notes_view(entries@);
    let ghost bv = rewrite_views(baseline@);
    let mut out: Vec<TextRewrite> = Vec::new();
    let mut i: usize = 0;
    assert(rewrite_views(out@) =~= seq![]);
    while i < entries.len()
        invariant
            0 <= i <= entries@.len(),
            ev == notes_view(entries@),
            ev == index_entries(*index),
            bv == rewrite_views(baseline@),
            reference_plan(
                ev.take(i as int),
                bodies@,
                facts@,
                moved_slug@,
                source@,
                destination@,
                bv,
            ) == Ok::<Seq<(Seq<char>, Seq<char>)>, ErrorView>(rewrite_views(out@)),
        decreases entries@.len() - i,
    {
        let entry = &entries[i];
        proof {
            assert(ev.take(i + 1).drop_last() =~= ev.take(i as int));
            assert(ev.take(i + 1).last() == entry@);
        }
        if !str_eq(entry.slug.as_str(), moved_slug) {
            let text = match planned_content(entry.file.as_str(), baseline) {
                Some(text) => Ok(text),
                None => find_body(bodies, &entry.slug),
            };
            match text {
                Err(why) => {
                    let mut message = to_chars("failed to read note '");
                    push_str(&mut message, entry.relative_path.as_str());
                    push_str(&mut message, "' for asset reference rewrite: ");
                    push_str(&mut message, why.as_str());
                    proof {
                        lemma_reference_error_stays(
                            ev,
                            bodies@,
                            facts@,
                            moved_slug@,
                            source@,
                            destination@,
                            bv,
                            i + 1,
                        );
                    }
                    return Err(WriteError::Io(from_chars(message.as_slice())));
                },
                Ok(text) => {
                    let chars = to_chars(text.as_str());
                    let path = to_chars(entry.file.as_str());
                    let repoint = Repoint {
                        facts,
                        note_path: path.as_slice(),
                        source,
                        destination,
                    };
                    let new = transform_asset_references(chars.as_slice(), &repoint);
                    if !chars_eq(new.as_slice(), chars.as_slice()) {
                        let item = TextRewrite {
                            path: entry.file.clone(),
                            content: from_chars(new.as_slice()),
                        };
                        proof {
                            lemma_rewrites_push(out@, item);
                        }
                        out.push(item);
                    }
                },
            }
        }
        i = i + 1;
    }
    assert(ev.take(i as int) =~= ev);
    Ok(out)
}

// ---------------------------------------------------------------------------
// The files that travel with a note
// ---------------------------------------------------------------------------

/// The path is spelled among `seen`.
pub open spec fn spelled(seen: Seq<Seq<char>>, path: Seq<char>) -> bool {
    exists|i: int| 0 <= i < seen.len() && same_path(#[trigger] seen[i], path)
}

/// The references, each path once.
pub open spec fn unique_references(refs: Seq<Seq<char>>) -> Seq<Seq<char>>
    decreases refs.len(),
{
    if refs.len() == 0 {
        seq![]
    } else {
        let prev = unique_references(refs.drop_last());
        if spelled(prev, refs.last()) {
            prev
        } else {
            prev.push(refs.last())
        }
    }
}

/// The references with the vault-relative paths they lead to from a folder. One
/// that leads out of the vault is refused.
pub open spec fn resolved_references(dir: Seq<char>, refs: Seq<Seq<char>>) -> Result<
    Seq<(Seq<char>, Seq<char>)>,
    ErrorView,
>
    decreases refs.len(),
{
    if refs.len() == 0 {
        Ok(seq![])
    } else {
        match resolved_references(dir, refs.drop_last()) {
            Err(e) => Err(e),
            Ok(prev) => match resolved_path(dir, refs.last()) {
                Some(path) => Ok(prev.push((refs.last(), path))),
                None => Err(
                    ErrorView::InvalidInput(
                        "asset reference '"@ + refs.last() + "' resolves outside the vault"@,
                    ),
                ),
            },
        }
    }
}

/// The moving note and what is known around it.
pub struct MoveContext {
    /// The vault's folder.
    pub root: Seq<char>,
    pub entries: Seq<NoteView>,
    pub bodies: Seq<NoteBody>,
    pub facts: Seq<FileFact>,
    /// The moving note's slug.
    pub slug: Seq<char>,
    /// The moving note's file on disk.
    pub path: Seq<char>,
    /// The moving note's file.
    pub file: Seq<char>,
    /// Where the file goes.
    pub destination: Seq<char>,
    /// Whether it goes to the trash.
    pub trash: bool,
    /// The rewrites already planned.
    pub baseline: Seq<(Seq<char>, Seq<char>)>,
    /// What came of making the folders that were asked for.
    pub made: Seq<Result<(), ErrorView>>,
}

/// What is planned so far: the files that move, the notes that change, and the
/// moving note's new references to the files that stay.
pub struct AssetPlan {
    pub moves: Seq<(Seq<char>, Seq<char>)>,
    pub rewrites: Seq<(Seq<char>, Seq<char>)>,
    pub stationary: Seq<(Seq<char>, Seq<char>)>,
}

/// The prefix of the paths in the moving note's own folder.
pub open spec fn own_prefix(file: Seq<char>) -> Seq<char> {
    if dir_text(file).len() == 0 {
        seq![]
    } else {
        dir_text(file) + seq!['/']
    }
}

/// Where a file of the note's own folder goes.
pub open spec fn asset_destination(c: MoveContext, path: Seq<char>) -> Seq<char> {
    let own = path.skip(own_prefix(c.file).len() as int);
    if c.trash {
        trash_file(existing(c.facts), own)
    } else {
        join_path(dir_text(c.destination), own)
    }
}

/// Plans for one reference. A file that is not there, is no regular file or is
/// in the trash is passed over. A file outside the note's folder stays and the
/// reference is repointed. A file in the note's folder moves along, unless it
/// is already in place: its folder is made, an occupied destination is refused,
/// and every other note is repointed at it. Every file that moves has had its
/// folder made, so as many were asked for as there are moves.
pub open spec fn plan_reference(
    c: MoveContext,
    plan: AssetPlan,
    reference: Seq<char>,
    path: Seq<char>,
) -> Result<AssetPlan, StopView> {
    match fact_of(c.facts, path) {
        None => Ok(plan),
        Some(fact) => if !fact.is_file {
            Ok(plan)
        } else if fact.resolved is None {
            Err(StopView::Refused(ErrorView::InvalidInput("path cannot escape the vault"@)))
        } else if in_trash(path) {
            Ok(plan)
        } else if !starts_with(path, own_prefix(c.file)) {
            Ok(
                AssetPlan {
                    stationary: plan.stationary.push(
                        (reference, relative_link(c.destination, path)),
                    ),
                    ..plan
                },
            )
        } else {
            let to = asset_destination(c, path);
            if same_file(c.facts, path, to) {
                Ok(plan)
            } else if folder_stop(c.made, plan.moves.len() as int, to, "asset"@) is Some {
                Err(folder_stop(c.made, plan.moves.len() as int, to, "asset"@)->0)
            } else if !c.trash && fact_of(c.facts, to) is Some {
                Err(
                    StopView::Refused(
                        ErrorView::Conflict(
                            "Destination asset already exists: "@ + under_root(c.root, to),
                        ),
                    ),
                )
            } else {
                match reference_plan(
                    c.entries,
                    c.bodies,
                    c.facts,
                    c.slug,
                    path,
                    to,
                    c.baseline + plan.rewrites,
                ) {
                    Err(e) => Err(StopView::Refused(e)),
                    Ok(more) => Ok(
                        AssetPlan {
                            moves: plan.moves.push((path, to)),
                            rewrites: plan.rewrites + more,
                            ..plan
                        },
                    ),
                }
            }
        },
    }
}

/// Plans for the references one after the other.
pub open spec fn plan_references(c: MoveContext, items: Seq<(Seq<char>, Seq<char>)>) -> Result<
    AssetPlan,
    StopView,
>
    decreases items.len(),
{
    if items.len() == 0 {
        Ok(AssetPlan { moves: seq![], rewrites: seq![], stationary: seq![] })
    } else {
        match plan_references(c, items.drop_last()) {
            Err(stop) => Err(stop),
            Ok(plan) => plan_reference(c, plan, items.last().0, items.last().1),
        }
    }
}

/// The first new reference planned for a path from `i` on.
pub open spec fn stationary_from(
    table: Seq<(Seq<char>, Seq<char>)>,
    target: Seq<char>,
    i: int,
) -> Option<Seq<char>>
    decreases table.len() - i,
{
    if i < 0 || i >= table.len() {
        None
    } else if same_path(table[i].0, target) {
        Some(table[i].1)
    } else {
        stationary_from(table, target, i + 1)
    }
}

/// The moving note's new references: those to files that stay.
pub open spec fn restated(table: Seq<(Seq<char>, Seq<char>)>) -> spec_fn(Seq<char>) -> Seq<char> {
    |target: Seq<char>|
        match stationary_from(table, target, 0) {
            Some(link) => link,
            None => target,
        }
}

/// The moving note's text as far as it is planned.
pub open spec fn moving_text(
    c: MoveContext,
    rewrites: Seq<(Seq<char>, Seq<char>)>,
    content: Seq<char>,
) -> Seq<char> {
    match planned_text(rewrites, c.destination) {
        Some(text) => text,
        None => match planned_text(c.baseline, c.destination) {
            Some(text) => text,
            None => content,
        },
    }
}

/// The file moves and note rewrites that a note's move makes necessary.
pub open spec fn planned_assets(c: MoveContext) -> Result<
    (Seq<(Seq<char>, Seq<char>)>, Seq<(Seq<char>, Seq<char>)>),
    StopView,
> {
    match body_of(c.bodies, c.slug) {
        Err(why) => Err(
            StopView::Refused(
                ErrorView::Io("failed to read note '"@ + c.path + "' for asset moves: "@ + why),
            ),
        ),
        Ok(content) => match resolved_references(
            dir_text(c.file),
            unique_references(asset_references(content)),
        ) {
            Err(e) => Err(StopView::Refused(e)),
            Ok(items) => match plan_references(c, items) {
                Err(stop) => Err(stop),
                Ok(plan) => {
                    let text = moving_text(c, plan.rewrites, content);
                    let new = refs_text(text, restated(plan.stationary));
                    if plan.stationary.len() == 0 || new == text {
                        Ok((plan.moves, plan.rewrites))
                    } else {
                        Ok((plan.moves, plan.rewrites.push((c.destination, new))))
                    }
                },
            },
        },
    }
}

fn keep_unique(refs: &Vec<String>) -> (r: Vec<String>)
    ensures
        strs(r@) == unique_references(strs(refs@)),
{
    let ghost rv = strs(refs@);
    let mut out: Vec<String> = Vec::new();
    let mut i: usize = 0;
    assert(strs(out@) =~= unique_references(rv.take(0)));
    while i < refs.len()
        invariant
            0 <= i <= refs@.len(),
            rv == strs(refs@),
            strs(out@) == unique_references(rv.take(i as int)),
        decreases refs@.len() - i,
    {
        proof {
            assert(rv.take(i + 1).drop_last() =~= rv.take(i as int));
            assert(rv.take(i + 1).last() == rv[i as int]);
        }
        let path = to_chars(refs[i].as_str());
        let mut found = false;
        let mut k: usize = 0;
        while k < out.len() && !found
            invariant
                0 <= k <= out@.len(),
                found ==> spelled(strs(out@), path@),
                !found ==> forall|j: int| 0 <= j < k ==> !same_path(#[trigger] strs(out@)[j], path@),
            decreases out@.len() - k,
        {
            let other = to_chars(out[k].as_str());
            assert(strs(out@)[k as int] == other@);
            if is_same_path(other.as_slice(), path.as_slice()) {
                found = true;
            }
            k = k + 1;
        }
        if !found {
            let item = refs[i].clone();
            proof {
                lemma_strs_push(out@, item);
            }
            out.push(item);
        }
        i = i + 1;
    }
    assert(rv.take(i as int) =~= rv);
    out
}

/// The views of pairs of character vectors.
pub open spec fn pair_texts(v: Seq<(Vec<char>, Vec<char>)>) -> Seq<(Seq<char>, Seq<char>)> {
    Seq::new(v.len(), |i: int| (v[i].0@, v[i].1@))
}

proof fn lemma_pairs_push(v: Seq<(Vec<char>, Vec<char>)>, x: (Vec<char>, Vec<char>))
    ensures
        pair_texts(v.push(x)) == pair_texts(v).push((x.0@, x.1@)),
{
    assert(pair_texts(v.push(x)) =~= pair_texts(v).push((x.0@, x.1@)));
}

proof fn lemma_resolve_error_stays(dir: Seq<char>, refs: Seq<Seq<char>>, i: int)
    requires
        0 <= i <= refs.len(),
        resolved_references(dir, refs.take(i)) is Err,
    ensures
        resolved_references(dir, refs) == resolved_references(dir, refs.take(i)),
    decreases refs.len() - i,
{
    if i < refs.len() {
        assert(refs.take(i + 1).drop_last() =~= refs.take(i));
        lemma_resolve_error_stays(dir, refs, i + 1);
    } else {
        assert(refs.take(i) =~= refs);
    }
}

fn resolve_references(dir: &[char], refs: &Vec<String>) -> (r: Result<
    Vec<(Vec<char>, Vec<char>)>,
    WriteError,
>)
    ensures
        match r {
            Ok(v) => resolved_references(dir@, strs(refs@)) == Ok::<
                Seq<(Seq<char>, Seq<char>)>,
                ErrorView,
            >(pair_texts(v@)),
            Err(e) => resolved_references(dir@, strs(refs@)) == Err::<
                Seq<(Seq<char>, Seq<char>)>,
                ErrorView,
            >(e@),
        },
{
    let ghost rv = strs(refs@);
    let mut out: Vec<(Vec<char>, Vec<char>)> = Vec::new();
    let mut i: usize = 0;
    assert(pair_texts(out@) =~= seq![]);
    while i < refs.len()
        invariant
            0 <= i <= refs@.len(),
            rv == strs(refs@),
            resolved_references(dir@, rv.take(i as int)) == Ok::<
                Seq<(Seq<char>, Seq<char>)>,
                ErrorView,
            >(pair_texts(out@)),
        decreases refs@.len() - i,
    {
        proof {
            assert(rv.take(i + 1).drop_last() =~= rv.take(i as int));
            assert(rv.take(i + 1).last() == rv[i as int]);
        }
        let reference = to_chars(refs[i].as_str());
        match normalize_asset_path(dir, reference.as_slice()) {
            None => {
                let mut message = to_chars("asset reference '");
                push_str(&mut message, refs[i].as_str());
                push_str(&mut message, "' resolves outside the vault");
                proof {
                    lemma_resolve_error_stays(dir@, rv, i + 1);
                }
                return Err(WriteError::InvalidInput(from_chars(message.as_slice())));
            },
            Some(path) => {
                proof {
                    lemma_pairs_push(out@, (reference, path));
                }
                out.push((reference, path));
            },
        }
        i = i + 1;
    }
    assert(rv.take(i as int) =~= rv);
    Ok(out)
}

struct Restate<'a> {
    table: &'a Vec<(Vec<char>, Vec<char>)>,
}

impl<'a> AssetRetarget for Restate<'a> {
    closed spec fn asset_image(&self) -> spec_fn(Seq<char>) -> Seq<char> {
        restated(pair_texts(self.table@))
    }

    fn retarget_asset(&self, target: &[char]) -> (r: Vec<char>) {
        let ghost tv = pair_texts(self.table@);
        let mut i: usize = 0;
        while i < self.table.len()
            invariant
                0 <= i <= self.table@.len(),
                tv == pair_texts(self.table@),
                stationary_from(tv, target@, 0) == stationary_from(tv, target@, i as int),
            decreases self.table@.len() - i,
        {
            if is_same_path(self.table[i].0.as_slice(), target) {
                return slice_to_vec(self.table[i].1.as_slice());
            }
            i = i + 1;
        }
        slice_to_vec(target)
    }
}

proof fn lemma_plan_stops(c: MoveContext, items: Seq<(Seq<char>, Seq<char>)>, i: int)
    requires
        0 <= i <= items.len(),
        plan_references(c, items.take(i)) is Err,
    ensures
        plan_references(c, items) == plan_references(c, items.take(i)),
    decreases items.len() - i,
{
    if i < items.len() {
        assert(items.take(i + 1).drop_last() =~= items.take(i));
        lemma_plan_stops(c, items, i + 1);
    } else {
        assert(items.take(i) =~= items);
    }
}

fn join_plans(a: &Vec<TextRewrite>, b: &Vec<TextRewrite>) -> (r: Vec<TextRewrite>)
    ensures
        rewrite_views(r@) == rewrite_views(a@) + rewrite_views(b@),
{
    let ghost all = rewrite_views(a@) + rewrite_views(b@);
    let mut out: Vec<TextRewrite> = Vec::new();
    let mut i: usize = 0;
    while i < a.len()
        invariant
            0 <= i <= a@.len(),
            all == rewrite_views(a@) + rewrite_views(b@),
            rewrite_views(out@) == all.take(i as int),
        decreases a@.len() - i,
    {
        let x = clone_rewrite(&a[i]);
        proof {
            lemma_rewrites_push(out@, x);
        }
        out.push(x);
        i = i + 1;
        assert(rewrite_views(out@) =~= all.take(i as int));
    }
    let mut j: usize = 0;
    while j < b.len()
        invariant
            0 <= j <= b@.len(),
            all == rewrite_views(a@) + rewrite_views(b@),
            rewrite_views(out@) == all.take(a@.len() + j),
        decreases b@.len() - j,
    {
        let x = clone_rewrite(&b[j]);
        proof {
            lemma_rewrites_push(out@, x);
        }
        out.push(x);
        j = j + 1;
        assert(rewrite_views(out@) =~= all.take((a@.len() + j) as int));
    }
    assert(all.take((a@.len() + j) as int) =~= all);
    out
}

pub open spec fn asset_result(
    r: Result<(Vec<AssetMove>, Vec<TextRewrite>), PlanStop>,
) -> Result<(Seq<(Seq<char>, Seq<char>)>, Seq<(Seq<char>, Seq<char>)>), StopView> {
    match r {
        Ok((moves, rewrites)) => Ok((move_views(moves@), rewrite_views(rewrites@))),
        Err(stop) => Err(stop@),
    }
}

pub open spec fn move_context(
    index: VaultIndex,
    bodies: Seq<NoteBody>,
    facts: Seq<FileFact>,
    moved: NoteView,
    destination: Seq<char>,
    trash: bool,
    baseline: Seq<TextRewrite>,
    made: Seq<Result<(), WriteError>>,
) -> MoveContext {
    MoveContext {
        root: index.root@,
        entries: index_entries(index),
        bodies,
        facts,
        slug: moved.slug,
        path: moved.path,
        file: moved.file,
        destination,
        trash,
        baseline: rewrite_views(baseline),
        made: made_views(made),
    }
}

/// Plans the file moves and note rewrites that moving a note makes necessary.
pub fn asset_move_plan(
    index: &VaultIndex,
    bodies: &Vec<NoteBody>,
    facts: &Vec<FileFact>,
    moved_entry: &NoteEntry,
    destination_note: &str,
    allow_trash_collision: bool,
    baseline_rewrites: &Vec<TextRewrite>,
    made: &Vec<Result<(), WriteError>>,
) -> (r: Result<(Vec<AssetMove>, Vec<TextRewrite>), PlanStop>)
    ensures
        asset_result(r) == planned_assets(
            move_context(
                *index,
                bodies@,
                facts@,
                moved_entry@,
                destination_note@,
                allow_trash_collision,
                baseline_rewrites@,
                made@,
            ),
        ),
{
    let ghost c = move_context(
        *index,
        bodies@,
        facts@,
        moved_entry@,
        destination_note@,
        allow_trash_collision,
        baseline_rewrites@,
        made@,
    );
    let content = match find_body(bodies, &moved_entry.slug) {
        Err(why) => {
            let mut message = to_chars("failed to read note '");
            push_str(&mut message, moved_entry.path.as_str());
            push_str(&mut message, "' for asset moves: ");
            push_str(&mut message, why.as_str());
            return Err(PlanStop::Refused(WriteError::Io(from_chars(message.as_slice()))));
        },
        Ok(content) => content,
    };
    let file = to_chars(moved_entry.file.as_str());
    let destination = to_chars(destination_note);
    let refs = referenced_assets(content.as_str());
    let unique = keep_unique(&refs);
    let resolved = match resolve_references(dir_of(file.as_slice()), &unique) {
        Err(e) => {
            return Err(PlanStop::Refused(e));
        },
        Ok(v) => v,
    };
    let ghost items = pair_texts(resolved@);
    let mut prefix = slice_to_vec(dir_of(file.as_slice()));
    if prefix.len() > 0 {
        prefix.push('/');
    }
    assert(prefix@ =~= own_prefix(c.file));
    let mut moves: Vec<AssetMove> = Vec::new();
    let mut rewrites: Vec<TextRewrite> = Vec::new();
    let mut stationary: Vec<(Vec<char>, Vec<char>)> = Vec::new();
    assert(move_views(moves@) =~= seq![]);
    assert(rewrite_views(rewrites@) =~= seq![]);
    assert(pair_texts(stationary@) =~= seq![]);
    let mut i: usize = 0;
    while i < resolved.len()
        invariant
            0 <= i <= resolved@.len(),
            items == pair_texts(resolved@),
            c == move_context(
                *index,
                bodies@,
                facts@,
                moved_entry@,
                destination_note@,
                allow_trash_collision,
                baseline_rewrites@,
                made@,
            ),
            file@ == c.file,
            destination@ == c.destination,
            prefix@ == own_prefix(c.file),
            body_of(c.bodies, c.slug) == Ok::<Seq<char>, Seq<char>>(content@),
            resolved_references(dir_text(c.file), unique_references(asset_references(content@)))
                == Ok::<Seq<(Seq<char>, Seq<char>)>, ErrorView>(items),
            plan_references(c, items.take(i as int)) == Ok::<AssetPlan, StopView>(
                AssetPlan {
                    moves: move_views(moves@),
                    rewrites: rewrite_views(rewrites@),
                    stationary: pair_texts(stationary@),
                },
            ),
        decreases resolved@.len() - i,
    {
        let reference = resolved[i].0.as_slice();
        let path = resolved[i].1.as_slice();
        proof {
            assert(items.take(i + 1).drop_last() =~= items.take(i as int));
            assert(items.take(i + 1).last() == (reference@, path@));
        }
        match find_fact(facts, path) {
            None => {},
            Some(fact) => {
                if fact.is_file {
                    if fact.resolved.is_none() {
                        proof {
                            lemma_plan_stops(c, items, i + 1);
                        }
                        return Err(
                            PlanStop::Refused(
                                WriteError::InvalidInput(
                                    crate::text::str_owned("path cannot escape the vault"),
                                ),
                            ),
                        );
                    }
                    if !is_in_trash(path) {
                        if !has_prefix(path, prefix.as_slice()) {
                            let link = relative_link_target(destination.as_slice(), path);
                            let key = slice_to_vec(reference);
                            proof {
                                lemma_pairs_push(stationary@, (key, link));
                            }
                            stationary.push((key, link));
                        } else {
                            let own = suffix_of(path, prefix.len());
                            let to = if allow_trash_collision {
                                let text = unique_trash_attachment_relative_path(facts, own);
                                to_chars(text.as_str())
                            } else {
                                path_joined(dir_of(destination.as_slice()), own)
                            };
                            assert(to@ == asset_destination(c, path@));
                            if !is_same_file(facts, path, to.as_slice()) {
                                let place = from_chars(to.as_slice());
                                match await_folder(made, moves.len(), place.as_str(), "asset") {
                                    Some(stop) => {
                                        proof {
                                            lemma_plan_stops(c, items, i + 1);
                                        }
                                        return Err(stop);
                                    },
                                    None => {},
                                }
                                if !allow_trash_collision && find_fact(
                                    facts,
                                    to.as_slice(),
                                ).is_some() {
                                    let mut message = to_chars(
                                        "Destination asset already exists: ",
                                    );
                                    let full = root_joined(index.root.as_str(), place.as_str());
                                    push_str(&mut message, full.as_str());
                                    proof {
                                        lemma_plan_stops(c, items, i + 1);
                                    }
                                    return Err(
                                        PlanStop::Refused(
                                            WriteError::Conflict(from_chars(message.as_slice())),
                                        ),
                                    );
                                }
                                let baseline = join_plans(baseline_rewrites, &rewrites);
                                match asset_reference_rewrite_plan(
                                    index,
                                    bodies,
                                    facts,
                                    moved_entry.slug.as_str(),
                                    path,
                                    to.as_slice(),
                                    &baseline,
                                ) {
                                    Err(e) => {
                                        proof {
                                            lemma_plan_stops(c, items, i + 1);
                                        }
                                        return Err(PlanStop::Refused(e));
                                    },
                                    Ok(more) => {
                                        let item = AssetMove {
                                            source: from_chars(path),
                                            destination: from_chars(to.as_slice()),
                                        };
                                        proof {
                                            lemma_moves_push(moves@, item);
                                        }
                                        moves.push(item);
                                        rewrites = join_plans(&rewrites, &more);
                                    },
                                }
                            }
                        }
                    }
                }
            },
        }
        i = i + 1;
    }
    assert(items.take(i as int) =~= items);
    if stationary.len() > 0 {
        let text = match planned_content(destination_note, &rewrites) {
            Some(text) => text,
            None => match planned_content(destination_note, baseline_rewrites) {
                Some(text) => text,
                None => content,
            },
        };
        let chars = to_chars(text.as_str());
        let restate = Restate { table: &stationary };
        let new = transform_asset_references(chars.as_slice(), &restate);
        if !chars_eq(new.as_slice(), chars.as_slice()) {
            let item = TextRewrite {
                path: from_chars(destination.as_slice()),
                content: from_chars(new.as_slice()),
            };
            proof {
                lemma_rewrites_push(rewrites@, item);
            }
            rewrites.push(item);
        }
    }
    Ok((moves, rewrites))
}

proof fn lemma_planned_moves(c: MoveContext, items: Seq<(Seq<char>, Seq<char>)>)
    requires
        plan_references(c, items) is Ok,
    ensures
        forall|i: int|
            0 <= i < plan_references(c, items)->Ok_0.moves.len() ==> {
                let m = #[trigger] plan_references(c, items)->Ok_0.moves[i];
                starts_with(m.0, own_prefix(c.file)) && m.1 == asset_destination(c, m.0)
                    && !in_trash(m.0) && fact_of(c.facts, m.0) is Some && fact_of(
                    c.facts,
                    m.0,
                )->0.is_file && (!c.trash ==> fact_of(c.facts, m.1) is None)
            },
    decreases items.len(),
{
    if items.len() > 0 {
        lemma_planned_moves(c, items.drop_last());
    }
}

proof fn lemma_moves_and_stays(c: MoveContext, items: Seq<(Seq<char>, Seq<char>)>)
    requires
        plan_references(c, items) is Ok,
    ensures
        ({
            let plan = plan_references(c, items)->Ok_0;
            forall|i: int|
                0 <= i < items.len() && is_present_file(c, (#[trigger] items[i]).1) ==> {
                    let path = items[i].1;
                    let to = asset_destination(c, path);
                    &&& starts_with(path, own_prefix(c.file)) && !same_file(c.facts, path, to)
                        ==> plan.moves.contains((path, to))
                    &&& !starts_with(path, own_prefix(c.file)) ==> plan.stationary.contains(
                        (items[i].0, relative_link(c.destination, path)),
                    )
                }
        }),
    decreases items.len(),
{
    if items.len() > 0 {
        let front = items.drop_last();
        let n = items.len() - 1;
        lemma_moves_and_stays(c, front);
        let prev = plan_references(c, front)->Ok_0;
        let plan = plan_references(c, items)->Ok_0;
        assert(items.last() == items[n]);
        assert forall|i: int|
            0 <= i < items.len() && is_present_file(c, (#[trigger] items[i]).1) implies {
            let path = items[i].1;
            let to = asset_destination(c, path);
            &&& starts_with(path, own_prefix(c.file)) && !same_file(c.facts, path, to)
                ==> plan.moves.contains((path, to))
            &&& !starts_with(path, own_prefix(c.file)) ==> plan.stationary.contains(
                (items[i].0, relative_link(c.destination, path)),
            )
        } by {
            let path = items[i].1;
            let to = asset_destination(c, path);
            let link = (items[i].0, relative_link(c.destination, path));
            if i < n {
                assert(front[i] == items[i]);
                if prev.moves.contains((path, to)) {
                    let k = choose|k: int| 0 <= k < prev.moves.len() && prev.moves[k] == (path, to);
                    assert(plan.moves[k] == (path, to));
                }
                if prev.stationary.contains(link) {
                    let k = choose|k: int|
                        0 <= k < prev.stationary.len() && prev.stationary[k] == link;
                    assert(plan.stationary[k] == link);
                }
            } else {
                if plan.moves.len() > prev.moves.len() {
                    assert(plan.moves[prev.moves.len() as int] == (path, to));
                }
                if plan.stationary.len() > prev.stationary.len() {
                    assert(plan.stationary[prev.stationary.len() as int] == link);
                }
            }
        }
    }
}

/// The path is a regular file of the vault that is not in the trash.
pub open spec fn is_present_file(c: MoveContext, path: Seq<char>) -> bool {
    &&& fact_of(c.facts, path) is Some
    &&& fact_of(c.facts, path)->0.is_file
    &&& !in_trash(path)
}

/// Every file of its own folder that a moving note refers to moves along, unless it is in
/// place already.
pub proof fn every_own_file_moves_along(c: MoveContext, reference: Seq<char>)
    requires
        planned_assets(c) is Ok,
        body_of(c.bodies, c.slug) is Ok,
        unique_references(asset_references(body_of(c.bodies, c.slug)->Ok_0)).contains(reference),
    ensures
        ({
            let path = resolved_path(dir_text(c.file), reference)->0;
            let to = asset_destination(c, path);
            &&& resolved_path(dir_text(c.file), reference) is Some
            &&& is_present_file(c, path) && starts_with(path, own_prefix(c.file)) && !same_file(
                c.facts,
                path,
                to,
            ) ==> planned_assets(c)->Ok_0.0.contains((path, to))
        }),
{
    let refs = unique_references(asset_references(body_of(c.bodies, c.slug)->Ok_0));
    let items = resolved_references(dir_text(c.file), refs)->Ok_0;
    lemma_moves_and_stays(c, items);
    every_reference_is_resolved(dir_text(c.file), refs);
    let i = choose|i: int| 0 <= i < refs.len() && refs[i] == reference;
    assert(items[i] == (refs[i], resolved_path(dir_text(c.file), refs[i])->0));
}

/// References are resolved from the note's folder, all of them and in order; if one leads
/// out of the vault, all are refused.
pub proof fn every_reference_is_resolved(dir: Seq<char>, refs: Seq<Seq<char>>)
    ensures
        match resolved_references(dir, refs) {
            Ok(items) => items.len() == refs.len() && forall|i: int|
                0 <= i < refs.len() ==> resolved_path(dir, #[trigger] refs[i]) is Some && items[i] == (
                    refs[i],
                    resolved_path(dir, refs[i])->0,
                ),
            Err(e) => e is InvalidInput && exists|i: int|
                0 <= i < refs.len() && resolved_path(dir, #[trigger] refs[i]) is None,
        },
    decreases refs.len(),
{
    if refs.len() > 0 {
        let front = refs.drop_last();
        let n = refs.len() - 1;
        every_reference_is_resolved(dir, front);
        assert(refs.last() == refs[n]);
        assert(forall|i: int| 0 <= i < n ==> front[i] == #[trigger] refs[i]);
        if resolved_references(dir, front) is Err {
            let i = choose|i: int|
                0 <= i < front.len() && resolved_path(dir, #[trigger] front[i]) is None;
            assert(resolved_path(dir, refs[i]) is None);
        } else if resolved_references(dir, refs) is Ok {
            let items = resolved_references(dir, refs)->Ok_0;
            let prev = resolved_references(dir, front)->Ok_0;
            assert forall|i: int| 0 <= i < refs.len() implies resolved_path(
                dir,
                #[trigger] refs[i],
            ) is Some && items[i] == (refs[i], resolved_path(dir, refs[i])->0) by {
                if i < n {
                    assert(front[i] == refs[i]);
                    assert(items[i] == prev[i]);
                }
            }
        } else {
            assert(resolved_path(dir, refs[n]) is None);
        }
    }
}

/// Every reference is among the unique ones in some spelling, and nothing else is.
pub proof fn every_reference_is_spelled_once(refs: Seq<Seq<char>>)
    ensures
        forall|i: int|
            0 <= i < refs.len() ==> spelled(unique_references(refs), #[trigger] refs[i]),
        forall|i: int|
            0 <= i < unique_references(refs).len() ==> refs.contains(
                #[trigger] unique_references(refs)[i],
            ),
        forall|i: int, j: int|
            0 <= i < j < unique_references(refs).len() ==> !same_path(
                #[trigger] unique_references(refs)[i],
                #[trigger] unique_references(refs)[j],
            ),
    decreases refs.len(),
{
    if refs.len() > 0 {
        let front = refs.drop_last();
        let n = refs.len() - 1;
        every_reference_is_spelled_once(front);
        let prev = unique_references(front);
        let all = unique_references(refs);
        assert(refs.last() == refs[n]);
        assert forall|i: int| 0 <= i < refs.len() implies spelled(all, #[trigger] refs[i]) by {
            if i < n {
                assert(front[i] == refs[i]);
                assert(spelled(prev, front[i]));
            }
            if spelled(prev, refs[i]) {
                let k = choose|k: int| 0 <= k < prev.len() && same_path(#[trigger] prev[k], refs[i]);
                assert(all[k] == prev[k]);
            } else {
                assert(same_path(all[prev.len() as int], refs[i]));
            }
        }
        assert forall|i: int| 0 <= i < all.len() implies refs.contains(#[trigger] all[i]) by {
            if i < prev.len() {
                assert(all[i] == prev[i]);
                let k = choose|k: int| 0 <= k < front.len() && front[k] == prev[i];
                assert(refs[k] == all[i]);
            } else {
                assert(refs[n] == all[i]);
            }
        }
        assert forall|i: int, j: int| 0 <= i < j < all.len() implies !same_path(
            #[trigger] all[i],
            #[trigger] all[j],
        ) by {
            assert(all[i] == prev[i]);
            if j < prev.len() {
                assert(all[j] == prev[j]);
            } else if same_path(all[i], all[j]) {
                assert(spelled(prev, refs[n]));
            }
        }
    }
}

/// Only files of the moving note's own folder move along with it, each to the
/// place that its path below that folder gives it. A file in the trash stays,
/// and no file takes the place of another.
pub proof fn only_own_files_move_along(c: MoveContext)
    requires
        planned_assets(c) is Ok,
    ensures
        forall|i: int|
            0 <= i < planned_assets(c)->Ok_0.0.len() ==> {
                let m = #[trigger] planned_assets(c)->Ok_0.0[i];
                starts_with(m.0, own_prefix(c.file)) && m.1 == asset_destination(c, m.0)
                    && !in_trash(m.0) && fact_of(c.facts, m.0) is Some && fact_of(
                    c.facts,
                    m.0,
                )->0.is_file && (!c.trash ==> fact_of(c.facts, m.1) is None)
            },
{
    let content = body_of(c.bodies, c.slug)->Ok_0;
    let items = resolved_references(
        dir_text(c.file),
        unique_references(asset_references(content)),
    )->Ok_0;
    lemma_planned_moves(c, items);
}

proof fn lemma_items_lead_down(dir: Seq<char>, refs: Seq<Seq<char>>)
    requires
        leads_down(dir),
        resolved_references(dir, refs) is Ok,
    ensures
        forall|i: int|
            0 <= i < resolved_references(dir, refs)->Ok_0.len() ==> leads_down(
                (#[trigger] resolved_references(dir, refs)->Ok_0[i]).1,
            ),
    decreases refs.len(),
{
    if refs.len() > 0 {
        lemma_items_lead_down(dir, refs.drop_last());
        resolved_path_leads_down(dir, refs.last());
    }
}

proof fn lemma_moves_lead_down(c: MoveContext, items: Seq<(Seq<char>, Seq<char>)>)
    requires
        plan_references(c, items) is Ok,
        leads_down(c.destination),
        forall|i: int| 0 <= i < items.len() ==> leads_down((#[trigger] items[i]).1),
    ensures
        forall|i: int|
            0 <= i < plan_references(c, items)->Ok_0.moves.len() ==> {
                let m = #[trigger] plan_references(c, items)->Ok_0.moves[i];
                leads_down(m.0) && leads_down(m.1)
            },
    decreases items.len(),
{
    if items.len() > 0 {
        lemma_moves_lead_down(c, items.drop_last());
        let path = items.last().1;
        assert(path == items[items.len() - 1].1);
        let prefix = own_prefix(c.file);
        if starts_with(path, prefix) {
            let k = prefix.len() as int;
            assert(k > 0 ==> path[k - 1] == prefix[k - 1]);
            lemma_pieces_lead_down(path, k);
            lemma_pieces_lead_down(c.destination, 0);
            trash_file_leads_down(existing(c.facts), path.skip(k));
            lemma_join_leads_down(dir_text(c.destination), path.skip(k));
        }
    }
}

/// No planned move has a `.` or a `..` in its path, however the note spells its
/// references, if the note's own path and its destination have none.
pub proof fn planned_moves_lead_down(c: MoveContext)
    requires
        leads_down(c.file),
        leads_down(c.destination),
        planned_assets(c) is Ok,
    ensures
        forall|i: int|
            0 <= i < planned_assets(c)->Ok_0.0.len() ==> {
                let m = #[trigger] planned_assets(c)->Ok_0.0[i];
                leads_down(m.0) && leads_down(m.1)
            },
{
    let content = body_of(c.bodies, c.slug)->Ok_0;
    let refs = unique_references(asset_references(content));
    lemma_pieces_lead_down(c.file, 0);
    lemma_items_lead_down(dir_text(c.file), refs);
    lemma_moves_lead_down(c, resolved_references(dir_text(c.file), refs)->Ok_0);
}

/// How many files a note refers to, spellings of one path counted once.
pub open spec fn reference_count(bodies: Seq<NoteBody>, slug: Seq<char>) -> nat {
    match body_of(bodies, slug) {
        Err(_) => 0,
        Ok(content) => unique_references(asset_references(content)).len(),
    }
}

proof fn lemma_resolved_count(dir: Seq<char>, refs: Seq<Seq<char>>)
    requires
        resolved_references(dir, refs) is Ok,
    ensures
        resolved_references(dir, refs)->Ok_0.len() <= refs.len(),
    decreases refs.len(),
{
    if refs.len() > 0 {
        lemma_resolved_count(dir, refs.drop_last());
    }
}

proof fn lemma_folders_asked(c: MoveContext, items: Seq<(Seq<char>, Seq<char>)>)
    ensures
        match plan_references(c, items) {
            Ok(plan) => plan.moves.len() <= items.len() && plan.moves.len() <= c.made.len(),
            Err(StopView::MakeFolder { label, .. }) => label == "asset"@ && c.made.len()
                < items.len(),
            Err(StopView::Refused(_)) => true,
        },
    decreases items.len(),
{
    if items.len() > 0 {
        lemma_folders_asked(c, items.drop_last());
    }
}

/// Every file that moves has had its folder made, and planning asks for no more
/// folders than the note has references.
pub proof fn every_moved_file_has_its_folder(c: MoveContext)
    ensures
        match planned_assets(c) {
            Ok((moves, _)) => moves.len() <= c.made.len() && moves.len() <= reference_count(
                c.bodies,
                c.slug,
            ),
            Err(StopView::MakeFolder { label, .. }) => label == "asset"@ && c.made.len()
                < reference_count(c.bodies, c.slug),
            Err(StopView::Refused(_)) => true,
        },
{
    if let Ok(content) = body_of(c.bodies, c.slug) {
        let refs = unique_references(asset_references(content));
        if let Ok(items) = resolved_references(dir_text(c.file), refs) {
            lemma_resolved_count(dir_text(c.file), refs);
            lemma_folders_asked(c, items);
        }
    }
}

/// A reference that leads to the moved file is written anew so that it leads to the
/// file's new place, and any other reference is kept. Two paths lead to one file
/// where the file system says so of both.
pub proof fn reference_to_a_moved_file_follows_it(
    facts: Seq<FileFact>,
    folder: Seq<Seq<char>>,
    name: Seq<char>,
    source: Seq<char>,
    file: Seq<Seq<char>>,
    target: Seq<char>,
)
    requires
        file.len() > 0,
        clean_part(name),
        forall|k: int| 0 <= k < folder.len() ==> clean_part(#[trigger] folder[k]),
        forall|k: int| 0 <= k < file.len() ==> clean_part(#[trigger] file[k]),
    ensures
        ({
            let note = join(folder.push(name), seq!['/']);
            let destination = join(file, seq!['/']);
            let new = repointed(facts, note, source, destination)(target);
            let there = fact_of(facts, join_path(dir_text(note), target));
            let moved = fact_of(facts, source);
            if there is Some && moved is Some && there->0.resolved is Some && there->0.resolved
                == moved->0.resolved {
                resolved_path(dir_text(note), new) == Some(destination)
            } else {
                new == target
            }
        }),
{
    written_link_leads_to_the_file(folder, name, file);
}

/// A file that a moving note refers to and that stays where it is gets a new link
/// in the note, which leads to it from the note's new folder.
#[verifier::rlimit(40)]
pub proof fn files_that_stay_are_linked_anew(
    c: MoveContext,
    items: Seq<(Seq<char>, Seq<char>)>,
    i: int,
    folder: Seq<Seq<char>>,
    name: Seq<char>,
    file: Seq<Seq<char>>,
)
    requires
        plan_references(c, items) is Ok,
        0 <= i < items.len(),
        is_present_file(c, items[i].1),
        !starts_with(items[i].1, own_prefix(c.file)),
        c.destination == join(folder.push(name), seq!['/']),
        items[i].1 == join(file, seq!['/']),
        file.len() > 0,
        clean_part(name),
        forall|k: int| 0 <= k < folder.len() ==> clean_part(#[trigger] folder[k]),
        forall|k: int| 0 <= k < file.len() ==> clean_part(#[trigger] file[k]),
        forall|j: int| 0 <= j < items.len() && j != i ==> !same_path((#[trigger] items[j]).0, items[i].0),
    ensures
        resolved_path(
            dir_text(c.destination),
            restated(plan_references(c, items)->Ok_0.stationary)(items[i].0),
        ) == Some(items[i].1),
{
    let table = plan_references(c, items)->Ok_0.stationary;
    let link = relative_link(c.destination, items[i].1);
    lemma_moves_and_stays(c, items);
    lemma_stationary_references(c, items);
    assert(table.contains((items[i].0, link)));
    let k = choose|k: int| 0 <= k < table.len() && table[k] == (items[i].0, link);
    assert forall|j: int| 0 <= j < table.len() && same_path((#[trigger] table[j]).0, items[i].0) implies table[j].1
        == link by {
        let m = choose|m: int|
            0 <= m < items.len() && table[j] == ((#[trigger] items[m]).0, relative_link(
                c.destination,
                items[m].1,
            ));
        assert(m == i);
    }
    lemma_stationary_link(table, items[i].0, link, 0, k);
    written_link_leads_to_the_file(folder, name, file);
}

/// What is linked anew is a reference of the note.
proof fn lemma_stationary_references(c: MoveContext, items: Seq<(Seq<char>, Seq<char>)>)
    requires
        plan_references(c, items) is Ok,
    ensures
        forall|j: int|
            0 <= j < plan_references(c, items)->Ok_0.stationary.len() ==> exists|m: int|
                0 <= m < items.len() && #[trigger] plan_references(c, items)->Ok_0.stationary[j] == (
                    (#[trigger] items[m]).0,
                    relative_link(c.destination, items[m].1),
                ),
    decreases items.len(),
{
    if items.len() > 0 {
        let front = items.drop_last();
        let n = items.len() - 1;
        lemma_stationary_references(c, front);
        let prev = plan_references(c, front)->Ok_0.stationary;
        let table = plan_references(c, items)->Ok_0.stationary;
        assert forall|j: int| 0 <= j < table.len() implies exists|m: int|
            0 <= m < items.len() && #[trigger] table[j] == ((#[trigger] items[m]).0, relative_link(
                c.destination,
                items[m].1,
            )) by {
            if j < prev.len() {
                assert(table[j] == prev[j]);
                let m = choose|m: int|
                    0 <= m < front.len() && prev[j] == ((#[trigger] front[m]).0, relative_link(
                        c.destination,
                        front[m].1,
                    ));
                assert(items[m] == front[m]);
            } else {
                assert(items[n] == items.last());
            }
        }
    }
}

proof fn lemma_stationary_link(
    table: Seq<(Seq<char>, Seq<char>)>,
    target: Seq<char>,
    link: Seq<char>,
    from: int,
    k: int,
)
    requires
        0 <= from <= k < table.len(),
        same_path(table[k].0, target),
        forall|j: int|
            0 <= j < table.len() && same_path((#[trigger] table[j]).0, target) ==> table[j].1 == link,
    ensures
        stationary_from(table, target, from) == Some(link),
    decreases k - from,
{
    if from < k && !same_path(table[from].0, target) {
        lemma_stationary_link(table, target, link, from + 1, k);
    }
}

} // verus!
