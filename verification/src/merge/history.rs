//! The merging of two histories of an entry.

use vstd::prelude::*;
use crate::attachment;
use crate::attachment::Pool;
use crate::content::Content;
use crate::database::Database;
use crate::database::DatabaseModel;
use crate::entry::Entry;
use crate::entry::EntryModel;
use crate::entry::History;
use crate::ids;
use crate::ids::EntryId;
use crate::laws::history as laws_of_history;
use crate::laws::soundness;
use crate::merge::log::LogModel;
use crate::merge::log::MergeLog;
use crate::references;
use crate::remap;
use crate::text;
use crate::times;
use crate::times::Times;
use crate::times::Timestamp;

verus! {

/// The modification time of a version; the start of the epoch where it has none.
pub open spec fn time_of(version: EntryModel) -> Timestamp {
    match version.times.last_modification {
        Some(time) => time,
        None => Times::spec_epoch(),
    }
}

/// The version with a modification time.
pub open spec fn dated(version: EntryModel) -> EntryModel {
    EntryModel {
        times: Times { last_modification: Some(time_of(version)), ..version.times },
        ..version
    }
}

/// All versions with modification times.
pub open spec fn all_dated(versions: Seq<EntryModel>) -> Seq<EntryModel> {
    versions.map_values(|version: EntryModel| dated(version))
}

/// The warning that a version in a history has no modification time; `side` says whose history
/// it is.
pub open spec fn undated(side: Seq<char>, id: EntryId) -> Seq<char> {
    side + " history entry "@ + ids::hyphenated(id.0.0)
        + " did not have a last modification timestamp"@
}

/// The log with a warning for each version without a modification time.
pub open spec fn undated_logged(
    log: LogModel,
    side: Seq<char>,
    versions: Seq<EntryModel>,
) -> LogModel
    decreases versions.len(),
{
    if versions.len() == 0 {
        log
    } else {
        undated_logged(log, side, versions.drop_last()).warned_if(
            versions.last().times.last_modification is None,
            undated(side, versions.last().id),
        )
    }
}

/// Versions carried over into another pool, one after the other.
pub open spec fn all_carried(versions: Seq<EntryModel>, source: Pool, pool: Pool) -> (
    Seq<EntryModel>,
    Pool,
)
    decreases versions.len(),
{
    if versions.len() == 0 {
        (Seq::empty(), pool)
    } else {
        let (done, before) = all_carried(versions.drop_last(), source, pool);
        let (version, after) = remap::entry_remapped(versions.last(), source, before);
        (done.push(version), after)
    }
}

/// The sorted versions with one more put in front of the first that is not older.
pub open spec fn put_in_order(sorted: Seq<EntryModel>, version: EntryModel) -> Seq<EntryModel>
    decreases sorted.len(),
{
    if sorted.len() == 0 || !time_of(sorted[0]).before(time_of(version)) {
        seq![version] + sorted
    } else {
        seq![sorted[0]] + put_in_order(sorted.drop_first(), version)
    }
}

/// The versions from the oldest to the newest; those of the same time stay in their order.
pub open spec fn oldest_first(versions: Seq<EntryModel>) -> Seq<EntryModel>
    decreases versions.len(),
{
    if versions.len() == 0 {
        versions
    } else {
        put_in_order(oldest_first(versions.drop_first()), versions[0])
    }
}

/// Two histories, each from the oldest to the newest, merged into one from the newest to the
/// oldest. Of two versions of the same time with the same content one is kept, of two that differ
/// both.
pub open spec fn interleaved(
    ours: Seq<EntryModel>,
    theirs: Seq<EntryModel>,
    pool: Pool,
) -> Seq<EntryModel>
    decreases ours.len() + theirs.len(),
{
    if ours.len() == 0 && theirs.len() == 0 {
        Seq::empty()
    } else if ours.len() == 0 {
        seq![theirs.last()] + interleaved(ours, theirs.drop_last(), pool)
    } else if theirs.len() == 0 {
        seq![ours.last()] + interleaved(ours.drop_last(), theirs, pool)
    } else if time_of(theirs.last()).before(time_of(ours.last())) {
        seq![ours.last()] + interleaved(ours.drop_last(), theirs, pool)
    } else if time_of(ours.last()).before(time_of(theirs.last())) {
        seq![theirs.last()] + interleaved(ours, theirs.drop_last(), pool)
    } else if remap::equivalent(ours.last(), pool, theirs.last(), pool) {
        seq![ours.last()] + interleaved(ours.drop_last(), theirs.drop_last(), pool)
    } else {
        seq![ours.last(), theirs.last()] + interleaved(
            ours.drop_last(),
            theirs.drop_last(),
            pool,
        )
    }
}

/// The warning that two versions of the same time differ.
pub open spec fn versions_diverged(id: EntryId, time: Timestamp) -> Seq<char> {
    "History entries for "@ + ids::hyphenated(id.0.0) + " have the same modification timestamp "@
        + times::timestamp_text(time.spec_seconds(), time.spec_nanos()) + " but have diverged."@
}

/// The log with a warning for each two versions of the same time that differ.
pub open spec fn conflicts_logged(
    log: LogModel,
    ours: Seq<EntryModel>,
    theirs: Seq<EntryModel>,
    pool: Pool,
) -> LogModel
    decreases ours.len() + theirs.len(),
{
    if ours.len() == 0 || theirs.len() == 0 {
        log
    } else if time_of(theirs.last()).before(time_of(ours.last())) {
        conflicts_logged(log, ours.drop_last(), theirs, pool)
    } else if time_of(ours.last()).before(time_of(theirs.last())) {
        conflicts_logged(log, ours, theirs.drop_last(), pool)
    } else {
        conflicts_logged(
            log.warned_if(
                !remap::equivalent(ours.last(), pool, theirs.last(), pool),
                versions_diverged(ours.last().id, time_of(theirs.last())),
            ),
            ours.drop_last(),
            theirs.drop_last(),
            pool,
        )
    }
}

/// The destination's history, ready to be merged.
pub open spec fn our_side(ours: Seq<EntryModel>) -> Seq<EntryModel> {
    oldest_first(all_dated(ours))
}

/// The source's history, ready to be merged: carried over into the destination's pool.
pub open spec fn their_side(theirs: Seq<EntryModel>, source: Pool, pool: Pool) -> Seq<EntryModel> {
    oldest_first(all_dated(all_carried(theirs, source, pool).0))
}

/// Two histories merged into one.
pub open spec fn history_merged(
    ours: Seq<EntryModel>,
    theirs: Seq<EntryModel>,
    source: Pool,
    pool: Pool,
) -> Seq<EntryModel> {
    interleaved(
        our_side(ours),
        their_side(theirs, source, pool),
        all_carried(theirs, source, pool).1,
    )
}

/// The log after the merging of two histories.
pub open spec fn history_logged(
    log: LogModel,
    ours: Seq<EntryModel>,
    theirs: Seq<EntryModel>,
    source: Pool,
    pool: Pool,
) -> LogModel {
    conflicts_logged(
        undated_logged(undated_logged(log, "Destination"@, ours), "Source"@, theirs),
        our_side(ours),
        their_side(theirs, source, pool),
        all_carried(theirs, source, pool).1,
    )
}

/// Whether no version has a dangling reference.
pub open spec fn all_resolve(versions: Seq<EntryModel>, pool: Pool) -> bool {
    forall|i: int|
        0 <= i < versions.len() ==> references::resolves(#[trigger] versions[i].attachments, pool)
}

/// What the versions of a vector hold.
pub open spec fn models(versions: Seq<Entry>) -> Seq<EntryModel> {
    versions.map_values(|version: Entry| version.model())
}

/// The modification time of a version; the start of the epoch where it has none.
fn modification_time(version: &Entry) -> (result: Timestamp)
    ensures
        result == time_of(version.model()),
{
    match version.times.last_modification {
        Some(time) => time,
        None => Times::epoch(),
    }
}

/// Gives a version a modification time where it has none, and warns of that.
fn date(version: &mut Entry, side: &str, log: &mut MergeLog)
    ensures
        final(version).model() == dated(old(version).model()),
        final(log).deep_view() == old(log).deep_view().warned_if(
            old(version).model().times.last_modification is None,
            undated(side@, old(version).model().id),
        ),
{
    if version.times.last_modification.is_none() {
        let mut warning = text::join3(side, " history entry ", version.id.text().as_str());
        warning = text::join(warning.as_str(), " did not have a last modification timestamp");
        log.warn(warning);
        version.times.last_modification = Some(Times::epoch());
    }
}

/// Where a version belongs among sorted ones.
pub proof fn lemma_put_at(sorted: Seq<EntryModel>, version: EntryModel, at: int)
    requires
        0 <= at <= sorted.len(),
        forall|j: int| 0 <= j < at ==> time_of(#[trigger] sorted[j]).before(time_of(version)),
        at < sorted.len() ==> !time_of(sorted[at]).before(time_of(version)),
    ensures
        put_in_order(sorted, version) == sorted.insert(at, version),
    decreases sorted.len(),
{
    if sorted.len() == 0 || at == 0 {
        assert(seq![version] + sorted =~= sorted.insert(at, version));
    } else {
        let rest = sorted.drop_first();
        assert forall|j: int| 0 <= j < at - 1 implies time_of(#[trigger] rest[j]).before(
            time_of(version),
        ) by {
            assert(rest[j] == sorted[j + 1]);
        }
        lemma_put_at(rest, version, at - 1);
        assert(seq![sorted[0]] + rest.insert(at - 1, version) =~= sorted.insert(at, version));
    }
}

/// Sorts versions from the oldest to the newest; those of the same time stay in their order.
fn sort_by_time(versions: Vec<Entry>) -> (result: Vec<Entry>)
    ensures
        models(result@) == oldest_first(models(versions@)),
{
    let ghost all = models(versions@);
    let mut rest = versions;
    let mut sorted: Vec<Entry> = Vec::new();
    proof {
        assert(models(sorted@) =~= oldest_first(all.skip(all.len() as int)));
    }
    while rest.len() > 0
        invariant
            rest@.len() <= all.len(),
            models(rest@) == all.take(rest@.len() as int),
            models(sorted@) == oldest_first(all.skip(rest@.len() as int)),
        decreases rest@.len(),
    {
        let ghost n = rest@.len();
        let ghost before = models(sorted@);
        assert(models(rest@)[n - 1] == rest@[n - 1].model());
        if let Some(version) = rest.pop() {
            let time = modification_time(&version);
            let mut at: usize = 0;
            while at < sorted.len() && modification_time(&sorted[at]).is_before(&time)
                invariant
                    time == time_of(version.model()),
                    before == models(sorted@),
                    at <= sorted@.len(),
                    forall|j: int|
                        0 <= j < at ==> time_of(#[trigger] before[j]).before(
                            time_of(version.model()),
                        ),
                decreases sorted@.len() - at,
            {
                assert(before[at as int] == sorted@[at as int].model());
                at += 1;
            }
            proof {
                if at < sorted@.len() {
                    assert(before[at as int] == sorted@[at as int].model());
                }
                lemma_put_at(before, version.model(), at as int);
                assert(all.skip(n - 1).drop_first() =~= all.skip(n as int));
                assert(all.skip(n - 1)[0] == all[n - 1]);
                assert(all.take(n as int)[n - 1] == all[n - 1]);
            }
            sorted.insert(at, version);
            proof {
                assert(models(sorted@) =~= before.insert(at as int, version.model()));
                assert(models(rest@) =~= all.take(n - 1));
            }
        }
    }
    proof {
        assert(all.skip(0) =~= all);
    }
    sorted
}

/// Interleaves two sorted histories from the newest version to the oldest.
fn interleave(ours: Vec<Entry>, theirs: Vec<Entry>, db: &Database, log: &mut MergeLog) -> (result:
    Vec<Entry>)
    ensures
        models(result@) == interleaved(
            models(ours@),
            models(theirs@),
            db.deep_view().attachments,
        ),
        final(log).deep_view() == conflicts_logged(
            old(log).deep_view(),
            models(ours@),
            models(theirs@),
            db.deep_view().attachments,
        ),
{
    let ghost pool = db.deep_view().attachments;
    let ghost whole = interleaved(models(ours@), models(theirs@), pool);
    let ghost whole_log = conflicts_logged(
        log.deep_view(),
        models(ours@),
        models(theirs@),
        pool,
    );
    let mut ours = ours;
    let mut theirs = theirs;
    let mut entries: Vec<Entry> = Vec::new();
    proof {
        assert(models(entries@) + whole =~= whole);
    }
    while ours.len() > 0 || theirs.len() > 0
        invariant
            pool == db.deep_view().attachments,
            models(entries@) + interleaved(models(ours@), models(theirs@), pool) == whole,
            conflicts_logged(log.deep_view(), models(ours@), models(theirs@), pool) == whole_log,
        decreases ours@.len() + theirs@.len(),
    {
        let ghost a = models(ours@);
        let ghost b = models(theirs@);
        let ghost done = models(entries@);
        let ghost rest = interleaved(a, b, pool);
        let take_ours: bool;
        let take_theirs: bool;
        let keep_theirs: bool;
        if ours.len() == 0 {
            take_ours = false;
            take_theirs = true;
            keep_theirs = true;
        } else if theirs.len() == 0 {
            take_ours = true;
            take_theirs = false;
            keep_theirs = false;
        } else {
            let our_version = &ours[ours.len() - 1];
            let their_version = &theirs[theirs.len() - 1];
            let our_time = modification_time(our_version);
            let their_time = modification_time(their_version);
            if their_time.is_before(&our_time) {
                take_ours = true;
                take_theirs = false;
                keep_theirs = false;
            } else if our_time.is_before(&their_time) {
                take_ours = false;
                take_theirs = true;
                keep_theirs = true;
            } else {
                take_ours = true;
                take_theirs = true;
                // The same version is on both sides: one of the two is enough.
                keep_theirs = !our_version.content_equivalent(db, their_version, db);
                if keep_theirs {
                    log.warn(
                        text::join5(
                            "History entries for ",
                            our_version.id.text().as_str(),
                            " have the same modification timestamp ",
                            their_time.text().as_str(),
                            " but have diverged.",
                        ),
                    );
                }
            }
        }
        proof {
            if a.len() > 0 {
                assert(a.last() == ours@.last().model());
            }
            if b.len() > 0 {
                assert(b.last() == theirs@.last().model());
            }
        }
        if take_ours {
            if let Some(version) = ours.pop() {
                entries.push(version);
            }
            assert(models(ours@) =~= a.drop_last());
            assert(models(entries@) =~= done.push(a.last()));
        }
        let ghost between = models(entries@);
        if take_theirs {
            if let Some(version) = theirs.pop() {
                if keep_theirs {
                    entries.push(version);
                    assert(models(entries@) =~= between.push(b.last()));
                }
            }
            assert(models(theirs@) =~= b.drop_last());
        }
        proof {
            assert(models(entries@) + interleaved(models(ours@), models(theirs@), pool) =~= done
                + rest);
        }
    }
    assert(models(entries@) + Seq::<EntryModel>::empty() =~= models(entries@));
    entries
}

/// Copies of versions.
fn copies(versions: &Vec<Entry>) -> (result: Vec<Entry>)
    ensures
        models(result@) == models(versions@),
{
    let result = versions.duplicate();
    proof {
        assert(result.deep_view().len() == versions.deep_view().len());
        assert forall|i: int| 0 <= i < versions@.len() implies models(result@)[i] == models(
            versions@,
        )[i] by {
            assert(result.deep_view()[i] == versions.deep_view()[i]);
        }
        assert(models(result@) =~= models(versions@));
    }
    result
}

/// Merge two histories together, returning the merged history.
///
/// Source-side history versions carry attachment references into the *source* pool; they are
/// remapped into `dest_db`'s pool before merging.
pub fn merge_history(
    dest: &History,
    source: &History,
    dest_db: &mut Database,
    source_db: &Database,
    log: &mut MergeLog,
) -> (result: History)
    ensures
        result.model() == history_merged(
            dest.model(),
            source.model(),
            source_db.deep_view().attachments,
            old(dest_db).deep_view().attachments,
        ),
        final(dest_db).deep_view() == (DatabaseModel {
            attachments: all_carried(
                source.model(),
                source_db.deep_view().attachments,
                old(dest_db).deep_view().attachments,
            ).1,
            ..old(dest_db).deep_view()
        }),
        attachment::extends(
            old(dest_db).deep_view().attachments,
            final(dest_db).deep_view().attachments,
        ),
        old(dest_db).wf() ==> final(dest_db).wf(),
        all_resolve(dest.model(), old(dest_db).deep_view().attachments) ==> all_resolve(
            result.model(),
            final(dest_db).deep_view().attachments,
        ),
        final(log).deep_view() == history_logged(
            old(log).deep_view(),
            dest.model(),
            source.model(),
            source_db.deep_view().attachments,
            old(dest_db).deep_view().attachments,
        ),
{
    let ghost ours = dest.model();
    let ghost theirs = source.model();
    let ghost origin = source_db.deep_view().attachments;
    let ghost pool = dest_db.deep_view().attachments;
    let ghost before = dest_db.deep_view();
    let mut entries_dest = copies(&dest.entries);
    let mut entries_source = copies(&source.entries);
    proof {
        assert(models(entries_dest@) =~= ours);
        assert(models(entries_source@) =~= theirs);
        assert(ours.take(0) =~= Seq::<EntryModel>::empty());
        assert(theirs.take(0) =~= Seq::<EntryModel>::empty());
    }
    let mut i: usize = 0;
    while i < entries_dest.len()
        invariant
            i <= entries_dest@.len() == ours.len(),
            forall|j: int|
                0 <= j < i ==> (#[trigger] entries_dest@[j]).model() == dated(ours[j]),
            forall|j: int|
                i <= j < ours.len() ==> (#[trigger] entries_dest@[j]).model() == ours[j],
            log.deep_view() == undated_logged(
                old(log).deep_view(),
                "Destination"@,
                ours.take(i as int),
            ),
        decreases entries_dest@.len() - i,
    {
        proof {
            assert(entries_dest@[i as int].model() == ours[i as int]);
            assert(ours.take(i + 1).drop_last() =~= ours.take(i as int));
            assert(ours.take(i + 1).last() == ours[i as int]);
        }
        let version = &mut entries_dest[i];
        date(version, "Destination", log);
        i += 1;
    }
    let ghost first_log = log.deep_view();
    let ghost mut done: Seq<EntryModel> = Seq::empty();
    let mut i: usize = 0;
    while i < entries_source.len()
        invariant
            i <= entries_source@.len() == theirs.len(),
            done.len() == i,
            origin == source_db.deep_view().attachments,
            (done, dest_db.deep_view().attachments) == all_carried(
                theirs.take(i as int),
                origin,
                pool,
            ),
            dest_db.deep_view() == (DatabaseModel {
                attachments: dest_db.deep_view().attachments,
                ..before
            }),
            attachment::extends(pool, dest_db.deep_view().attachments),
            all_resolve(done, dest_db.deep_view().attachments),
            forall|j: int|
                0 <= j < i ==> (#[trigger] entries_source@[j]).model() == dated(done[j]),
            forall|j: int|
                i <= j < theirs.len() ==> (#[trigger] entries_source@[j]).model() == theirs[j],
            log.deep_view() == undated_logged(first_log, "Source"@, theirs.take(i as int)),
        decreases entries_source@.len() - i,
    {
        let ghost pool_before = dest_db.deep_view().attachments;
        let ghost done_before = done;
        proof {
            assert(entries_source@[i as int].model() == theirs[i as int]);
            assert(theirs.take(i + 1).drop_last() =~= theirs.take(i as int));
            assert(theirs.take(i + 1).last() == theirs[i as int]);
        }
        let version = &mut entries_source[i];
        version.remap_attachments(source_db, dest_db);
        proof {
            done = all_carried(theirs.take(i + 1), origin, pool).0;
            assert(done == done_before.push(version.model()));
            let pool_after = dest_db.deep_view().attachments;
            attachment::lemma_extends_transitive(pool, pool_before, pool_after);
            soundness::lemma_faithful_resolves(
                theirs[i as int].attachments,
                origin,
                version.model().attachments,
                pool_after,
            );
            assert forall|j: int| 0 <= j < done.len() implies references::resolves(
                #[trigger] done[j].attachments,
                pool_after,
            ) by {
                if j < i {
                    assert(done[j] == done_before[j]);
                    assert(references::resolves(done_before[j].attachments, pool_before));
                    lemma_resolves_further(done[j].attachments, pool_before, pool_after);
                }
            }
        }
        date(version, "Source", log);
        i += 1;
    }
    proof {
        assert(ours.take(ours.len() as int) =~= ours);
        assert(theirs.take(theirs.len() as int) =~= theirs);
        assert(models(entries_dest@) =~= all_dated(ours));
        assert(models(entries_source@) =~= all_dated(done));
        attachment::lemma_pool_of_wf(before, dest_db.deep_view());
    }

    // After the remap above, every version on both sides references dest_db's pool, so the
    // equal-time comparisons resolve against it alone.
    let sorted_dest = sort_by_time(entries_dest);
    let sorted_source = sort_by_time(entries_source);
    let entries = interleave(sorted_dest, sorted_source, dest_db, log);
    let result = History { entries };
    proof {
        assert(result.model() =~= models(entries@));
        let larger = dest_db.deep_view().attachments;
        if all_resolve(ours, pool) {
            assert forall|j: int| 0 <= j < result.model().len() implies references::resolves(
                #[trigger] result.model()[j].attachments,
                larger,
            ) by {
                let version = result.model()[j];
                assert(result.model().contains(version));
                laws_of_history::merged_history_invents_nothing(
                    ours,
                    theirs,
                    origin,
                    pool,
                    version,
                );
                if all_dated(ours).contains(version) {
                    let n = choose|n: int|
                        0 <= n < ours.len() && all_dated(ours)[n] == version;
                    assert(references::resolves(ours[n].attachments, pool));
                    lemma_resolves_further(ours[n].attachments, pool, larger);
                } else {
                    let n = choose|n: int|
                        0 <= n < done.len() && all_dated(done)[n] == version;
                    assert(references::resolves(done[n].attachments, larger));
                }
            }
        }
    }
    result
}

/// Names that do not dangle do not dangle in a larger pool.
pub proof fn lemma_resolves_further(names: remap::Names, pool: Pool, larger: Pool)
    requires
        references::resolves(names, pool),
        attachment::kept_in(pool, larger),
    ensures
        references::resolves(names, larger),
{
    assert forall|name: Seq<char>| #[trigger] names.contains_key(name) implies larger.contains_key(
        names[name],
    ) by {
        assert(pool.contains_key(names[name]));
    }
}

} // verus!
