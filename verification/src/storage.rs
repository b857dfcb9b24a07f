use vstd::prelude::*;

use crate::order::{lemma_lex_irrefl, lemma_lex_total, lemma_lex_trans, lex_lt, str_lt};
use crate::records::{clock_models, clone_clock, clone_record, clone_update, record_models,
    time_models, update_models, ClockModel, DocClock, DocRecord, DocUpdate, RecordModel,
    StorageError, UpdateModel};

verus! {

/// Whether the log holds an update row keyed `(d, t)`.
pub open spec fn has_update(log: Seq<UpdateModel>, d: Seq<char>, t: int) -> bool {
    exists|i: int| 0 <= i < log.len() && log[i].doc_id == d && log[i].created_at == t
}

/// The update rows of one document, in log order.
pub open spec fn updates_for(log: Seq<UpdateModel>, d: Seq<char>) -> Seq<UpdateModel> {
    log.filter(|u: UpdateModel| u.doc_id == d)
}

/// The log after retiring the rows of `d` whose `created_at` lies in `ts`.
pub open spec fn retired(log: Seq<UpdateModel>, d: Seq<char>, ts: Seq<int>) -> Seq<UpdateModel> {
    log.filter(|u: UpdateModel| !(u.doc_id == d && ts.contains(u.created_at)))
}

/// Whether a snapshot row for `d` is present.
pub open spec fn has_snapshot(snaps: Seq<RecordModel>, d: Seq<char>) -> bool {
    exists|i: int| 0 <= i < snaps.len() && snaps[i].doc_id == d
}

/// The snapshot row of `d`; meaningful only when one is present.
pub open spec fn snapshot_for(snaps: Seq<RecordModel>, d: Seq<char>) -> RecordModel {
    snaps[choose|i: int| 0 <= i < snaps.len() && snaps[i].doc_id == d]
}

/// Whether a clock row for `d` is present.
pub open spec fn has_clock(clocks: Seq<ClockModel>, d: Seq<char>) -> bool {
    exists|i: int| 0 <= i < clocks.len() && clocks[i].doc_id == d
}

/// The clock of `d`; meaningful only when a row is present.
pub open spec fn clock_for(clocks: Seq<ClockModel>, d: Seq<char>) -> int {
    clocks[choose|i: int| 0 <= i < clocks.len() && clocks[i].doc_id == d].timestamp
}

/// The clock rows strictly newer than `after`, in row order;
/// all of them when no bound is given.
pub open spec fn clocks_after(clocks: Seq<ClockModel>, after: Option<i64>) -> Seq<ClockModel> {
    match after {
        Some(t) => clocks.filter(|c: ClockModel| c.timestamp > t as int),
        None => clocks,
    }
}

/// The log after a full deletion of one document's rows.
pub open spec fn purged(log: Seq<UpdateModel>, d: Seq<char>) -> Seq<UpdateModel> {
    log.filter(|u: UpdateModel| u.doc_id != d)
}

/// No two rows of the log share a `(doc_id, created_at)` key.
pub open spec fn log_keys_unique(log: Seq<UpdateModel>) -> bool {
    forall|i: int, j: int|
        0 <= i < j < log.len() ==> !(log[i].doc_id == log[j].doc_id && log[i].created_at
            == log[j].created_at)
}

/// At most one snapshot row per document.
pub open spec fn snaps_unique(snaps: Seq<RecordModel>) -> bool {
    forall|i: int, j: int| 0 <= i < j < snaps.len() ==> snaps[i].doc_id != snaps[j].doc_id
}

/// The clock rows are strictly ordered by document id.
pub open spec fn clocks_sorted(clocks: Seq<ClockModel>) -> bool {
    forall|i: int, j: int|
        0 <= i < j < clocks.len() ==> lex_lt(clocks[i].doc_id, clocks[j].doc_id)
}

/// Creation times never decrease along a sequence of update rows.
pub open spec fn times_nondecreasing(us: Seq<UpdateModel>) -> bool {
    forall|i: int, j: int| 0 <= i < j < us.len() ==> us[i].created_at <= us[j].created_at
}

/// The abstract state of the engine: the three tables as the contracts
/// speak of them.
#[verifier::ext_equal]
pub struct StorageModel {
    /// The update log, in insertion order.
    pub log: Seq<UpdateModel>,
    /// The snapshot table; at most one row per document.
    pub snapshots: Seq<RecordModel>,
    /// The clock table, strictly ordered by document id.
    pub clocks: Seq<ClockModel>,
}

/// The storage engine: an append-only update log, one snapshot per
/// document written under a stale-write check, and a per-document clock.
pub struct SqliteDocStorage {
    updates: Vec<DocUpdate>,
    snapshots: Vec<DocRecord>,
    clocks: Vec<DocClock>,
}

impl View for SqliteDocStorage {
    type V = StorageModel;

    closed spec fn view(&self) -> StorageModel {
        StorageModel {
            log: update_models(self.updates@),
            snapshots: record_models(self.snapshots@),
            clocks: clock_models(self.clocks@),
        }
    }
}

impl SqliteDocStorage {
    /// The structural invariant of the three tables.
    pub open spec fn wf(self) -> bool {
        &&& log_keys_unique(self@.log)
        &&& snaps_unique(self@.snapshots)
        &&& clocks_sorted(self@.clocks)
    }

    /// A fresh engine with empty tables.
    pub fn new() -> (s: Self)
        ensures
            s.wf(),
            s@.log.len() == 0,
            s@.snapshots.len() == 0,
            s@.clocks.len() == 0,
    {
        SqliteDocStorage {
            updates: Vec::new(),
            snapshots: Vec::new(),
            clocks: Vec::new(),
        }
    }

    /// Returns the current snapshot of the document, or none if it has
    /// never been snapshotted.
    pub fn get_doc_snapshot(&self, doc_id: String) -> (r: Option<DocRecord>)
        requires
            self.wf(),
        ensures
            match r {
                Some(rec) => has_snapshot(self@.snapshots, doc_id@) && rec@ == snapshot_for(
                    self@.snapshots,
                    doc_id@,
                ),
                None => !has_snapshot(self@.snapshots, doc_id@),
            },
    {
        match find_snapshot_index(&self.snapshots, &doc_id) {
            Some(i) => {
                proof {
                    let snaps = self@.snapshots;
                    assert(snaps[i as int].doc_id == doc_id@);
                    assert(has_snapshot(snaps, doc_id@));
                    let k = choose|k: int| 0 <= k < snaps.len() && snaps[k].doc_id == doc_id@;
                    assert(k == i as int);
                }
                Some(clone_record(&self.snapshots[i]))
            },
            None => {
                proof {
                    assert forall|k: int|
                        0 <= k < self@.snapshots.len() implies self@.snapshots[k].doc_id
                        != doc_id@ by {
                        assert(self.snapshots@[k].doc_id@ != doc_id@);
                    }
                }
                None
            },
        }
    }

    /// Writes the snapshot of a document under the optimistic rule: the
    /// row is inserted if none exists, overwritten if the stored write is
    /// not newer than this one, and left untouched otherwise.  Returns
    /// whether the write took effect; a stale write is reported by
    /// `false`, never by an error.
    pub fn set_doc_snapshot(&mut self, snapshot: DocRecord) -> (r: bool)
        requires
            old(self).wf(),
        ensures
            final(self).wf(),
            r == (!has_snapshot(old(self)@.snapshots, snapshot@.doc_id) || snapshot_for(
                old(self)@.snapshots,
                snapshot@.doc_id,
            ).timestamp <= snapshot@.timestamp),
            r ==> has_snapshot(final(self)@.snapshots, snapshot@.doc_id) && snapshot_for(
                final(self)@.snapshots,
                snapshot@.doc_id,
            ) == snapshot@,
            !r ==> final(self)@ == old(self)@,
            forall|d: Seq<char>|
                d != snapshot@.doc_id ==> has_snapshot(final(self)@.snapshots, d) == has_snapshot(
                    old(self)@.snapshots,
                    d,
                ),
            forall|d: Seq<char>|
                d != snapshot@.doc_id && has_snapshot(old(self)@.snapshots, d) ==> snapshot_for(
                    final(self)@.snapshots,
                    d,
                ) == snapshot_for(old(self)@.snapshots, d),
            final(self)@.log == old(self)@.log,
            final(self)@.clocks == old(self)@.clocks,
    {
        match find_snapshot_index(&self.snapshots, &snapshot.doc_id) {
            Some(i) => {
                proof {
                    lemma_snapshot_at(self@.snapshots, i as int);
                }
                if self.snapshots[i].timestamp <= snapshot.timestamp {
                    let ghost os = self@.snapshots;
                    let ghost m = snapshot@;
                    replace_record(&mut self.snapshots, i, snapshot);
                    proof {
                        assert(self@.snapshots =~= os.update(i as int, m));
                        lemma_snaps_update(os, i as int, m);
                    }
                    true
                } else {
                    false
                }
            },
            None => {
                proof {
                    assert forall|k: int|
                        0 <= k < self@.snapshots.len() implies self@.snapshots[k].doc_id
                        != snapshot@.doc_id by {
                        assert(self.snapshots@[k].doc_id@ != snapshot@.doc_id);
                    }
                }
                let ghost os = self@.snapshots;
                let ghost m = snapshot@;
                self.snapshots.push(snapshot);
                proof {
                    assert(self@.snapshots =~= os.push(m));
                    lemma_snaps_push(os, m);
                }
                true
            },
        }
    }
    /// Returns every update row of the document, in log order: ascending
    /// creation order for chronological pushes, ties broken by insertion
    /// order.  Nothing is filtered out; rows already folded into a
    /// snapshot stay until explicitly retired.
    pub fn get_doc_updates(&self, doc_id: String) -> (r: Vec<DocUpdate>)
        ensures
            update_models(r@) == updates_for(self@.log, doc_id@),
    {
        let mut r: Vec<DocUpdate> = Vec::new();
        let mut i: usize = 0;
        while i < self.updates.len()
            invariant
                i <= self.updates@.len(),
                update_models(r@) == updates_for(self@.log.take(i as int), doc_id@),
            decreases self.updates@.len() - i,
        {
            proof {
                lemma_updates_for_step(self@.log, doc_id@, i as int);
                assert(self@.log[i as int] == self.updates@[i as int]@);
            }
            let ghost prev = update_models(r@);
            if self.updates[i].doc_id == doc_id {
                r.push(clone_update(&self.updates[i]));
                proof {
                    assert(update_models(r@) =~= prev.push(self@.log[i as int]));
                }
            }
            i = i + 1;
        }
        proof {
            assert(self@.log.take(self@.log.len() as int) =~= self@.log);
        }
        r
    }

    /// Appends an update row `(doc_id, timestamp, update)` and overwrites
    /// the document's clock to `timestamp`, both or neither: on a
    /// duplicate `(doc_id, created_at)` key nothing changes and the
    /// storage error is returned.  Succeeds exactly when the key is free.
    pub fn push_update_at(&mut self, doc_id: String, update: Vec<u8>, timestamp: i64) -> (r:
        Result<(), StorageError>)
        requires
            old(self).wf(),
        ensures
            final(self).wf(),
            r is Ok <==> !has_update(old(self)@.log, doc_id@, timestamp as int),
            r is Ok ==> final(self)@.log == old(self)@.log.push(
                UpdateModel { doc_id: doc_id@, created_at: timestamp as int, data: update@ },
            ),
            r is Ok ==> has_update(final(self)@.log, doc_id@, timestamp as int),
            r is Ok ==> has_clock(final(self)@.clocks, doc_id@) && clock_for(
                final(self)@.clocks,
                doc_id@,
            ) == timestamp as int,
            r is Ok ==> forall|d: Seq<char>|
                d != doc_id@ ==> has_clock(final(self)@.clocks, d) == has_clock(
                    old(self)@.clocks,
                    d,
                ),
            r is Ok ==> forall|d: Seq<char>|
                d != doc_id@ && has_clock(old(self)@.clocks, d) ==> clock_for(
                    final(self)@.clocks,
                    d,
                ) == clock_for(old(self)@.clocks, d),
            r is Ok ==> final(self)@.snapshots == old(self)@.snapshots,
            r is Err ==> final(self)@ == old(self)@,
    {
        if log_has_key(&self.updates, &doc_id, timestamp) {
            return Err(StorageError);
        }
        let ghost ol = self@.log;
        let row = DocUpdate { doc_id: doc_id.clone(), created_at: timestamp, data: update };
        let ghost m = row@;
        self.updates.push(row);
        proof {
            assert(self@.log =~= ol.push(m));
            assert forall|i: int, j: int|
                0 <= i < j < self@.log.len() implies !(self@.log[i].doc_id == self@.log[j].doc_id
                && self@.log[i].created_at == self@.log[j].created_at) by {
                if j == ol.len() && self@.log[i].doc_id == doc_id@ && self@.log[i].created_at
                    == timestamp as int {
                    assert(has_update(ol, doc_id@, timestamp as int));
                }
            }
        }
        upsert_clock(&mut self.clocks, &doc_id, timestamp);
        proof {
            assert(self@.log[ol.len() as int] == m);
            assert(has_update(self@.log, doc_id@, timestamp as int));
        }
        Ok(())
    }

    /// Retires, in one step, exactly the update rows of the document
    /// whose `created_at` lies in the supplied set, and returns how many
    /// rows were actually removed.  Rows already absent are simply not
    /// counted, so repeating a retirement is safe and returns 0.
    pub fn mark_updates_merged(&mut self, doc_id: String, updates: Vec<i64>) -> (r: usize)
        requires
            old(self).wf(),
        ensures
            final(self).wf(),
            final(self)@.log == retired(old(self)@.log, doc_id@, time_models(updates@)),
            r == old(self)@.log.len() - final(self)@.log.len(),
            final(self)@.snapshots == old(self)@.snapshots,
            final(self)@.clocks == old(self)@.clocks,
    {
        let ghost ol = self@.log;
        let ghost ts = time_models(updates@);
        let mut kept: Vec<DocUpdate> = Vec::new();
        let mut removed: usize = 0;
        let mut i: usize = 0;
        while i < self.updates.len()
            invariant
                i <= self.updates@.len(),
                ol == update_models(self.updates@),
                ts == time_models(updates@),
                update_models(kept@) == retired(ol.take(i as int), doc_id@, ts),
                kept@.len() + removed == i,
            decreases self.updates@.len() - i,
        {
            proof {
                lemma_retired_step(ol, doc_id@, ts, i as int);
                assert(ol[i as int] == self.updates@[i as int]@);
            }
            let ghost prev = update_models(kept@);
            let row = &self.updates[i];
            if row.doc_id == doc_id && contains_time(&updates, row.created_at) {
                removed = removed + 1;
            } else {
                kept.push(clone_update(row));
                proof {
                    assert(update_models(kept@) =~= prev.push(ol[i as int]));
                }
            }
            i = i + 1;
        }
        proof {
            assert(ol.take(ol.len() as int) =~= ol);
        }
        self.updates = kept;
        proof {
            lemma_retired_unique(ol, doc_id@, ts);
        }
        removed
    }

    /// Returns the clock row of every document that has ever had an
    /// update pushed, ordered by document id; with a bound, only the
    /// documents whose clock lies strictly after it.
    pub fn get_doc_clocks(&self, after: Option<i64>) -> (r: Vec<DocClock>)
        requires
            self.wf(),
        ensures
            clock_models(r@) == clocks_after(self@.clocks, after),
            clocks_sorted(clock_models(r@)),
    {
        let mut r: Vec<DocClock> = Vec::new();
        let mut i: usize = 0;
        while i < self.clocks.len()
            invariant
                i <= self.clocks@.len(),
                clock_models(r@) == clocks_after(self@.clocks.take(i as int), after),
            decreases self.clocks@.len() - i,
        {
            proof {
                assert(self@.clocks[i as int] == self.clocks@[i as int]@);
            }
            let ghost prev = clock_models(r@);
            let keep = match after {
                Some(t) => self.clocks[i].timestamp > t,
                None => true,
            };
            if keep {
                r.push(clone_clock(&self.clocks[i]));
            }
            proof {
                match after {
                    Some(t) => {
                        lemma_clocks_after_step(self@.clocks, t, i as int);
                        if keep {
                            assert(clock_models(r@) =~= prev.push(self@.clocks[i as int]));
                        }
                    },
                    None => {
                        assert(clock_models(r@) =~= prev.push(self@.clocks[i as int]));
                        assert(self@.clocks.take(i + 1 as int) =~= self@.clocks.take(
                            i as int,
                        ).push(self@.clocks[i as int]));
                    },
                }
            }
            i = i + 1;
        }
        proof {
            assert(self@.clocks.take(self@.clocks.len() as int) =~= self@.clocks);
            lemma_clocks_after_sorted(self@.clocks, after);
        }
        r
    }

    /// Deletes every row of the document — update log, snapshot and
    /// clock — in one step, leaving all other documents untouched.  A
    /// document with no rows is a no-op, not an error.
    pub fn delete_doc(&mut self, doc_id: String)
        requires
            old(self).wf(),
        ensures
            final(self).wf(),
            final(self)@.log == purged(old(self)@.log, doc_id@),
            updates_for(final(self)@.log, doc_id@) == Seq::<UpdateModel>::empty(),
            !has_snapshot(final(self)@.snapshots, doc_id@),
            !has_clock(final(self)@.clocks, doc_id@),
            forall|d: Seq<char>|
                d != doc_id@ ==> updates_for(final(self)@.log, d) == updates_for(
                    old(self)@.log,
                    d,
                ),
            forall|d: Seq<char>|
                d != doc_id@ ==> has_snapshot(final(self)@.snapshots, d) == has_snapshot(
                    old(self)@.snapshots,
                    d,
                ),
            forall|d: Seq<char>|
                d != doc_id@ && has_snapshot(old(self)@.snapshots, d) ==> snapshot_for(
                    final(self)@.snapshots,
                    d,
                ) == snapshot_for(old(self)@.snapshots, d),
            forall|d: Seq<char>|
                d != doc_id@ ==> has_clock(final(self)@.clocks, d) == has_clock(
                    old(self)@.clocks,
                    d,
                ),
            forall|d: Seq<char>|
                d != doc_id@ && has_clock(old(self)@.clocks, d) ==> clock_for(
                    final(self)@.clocks,
                    d,
                ) == clock_for(old(self)@.clocks, d),
    {
        let ghost ol = self@.log;
        let mut kept: Vec<DocUpdate> = Vec::new();
        let mut i: usize = 0;
        while i < self.updates.len()
            invariant
                i <= self.updates@.len(),
                ol == update_models(self.updates@),
                update_models(kept@) == purged(ol.take(i as int), doc_id@),
            decreases self.updates@.len() - i,
        {
            proof {
                lemma_purged_step(ol, doc_id@, i as int);
                assert(ol[i as int] == self.updates@[i as int]@);
            }
            let ghost prev = update_models(kept@);
            if !(self.updates[i].doc_id == doc_id) {
                kept.push(clone_update(&self.updates[i]));
                proof {
                    assert(update_models(kept@) =~= prev.push(ol[i as int]));
                }
            }
            i = i + 1;
        }
        proof {
            assert(ol.take(ol.len() as int) =~= ol);
            lemma_purged_facts(ol, doc_id@);
        }
        self.updates = kept;
        let ghost os = self@.snapshots;
        match find_snapshot_index(&self.snapshots, &doc_id) {
            Some(j) => {
                self.snapshots.remove(j);
                proof {
                    assert(self@.snapshots =~= os.remove(j as int));
                    lemma_snaps_remove(os, j as int);
                }
            },
            None => {
                proof {
                    assert forall|k: int|
                        0 <= k < os.len() implies os[k].doc_id != doc_id@ by {
                        assert(self.snapshots@[k].doc_id@ != doc_id@);
                    }
                }
            },
        }
        let ghost oc = self@.clocks;
        let p = find_clock_slot(&self.clocks, &doc_id);
        if p < self.clocks.len() && self.clocks[p].doc_id == doc_id {
            self.clocks.remove(p);
            proof {
                assert(self@.clocks =~= oc.remove(p as int));
                lemma_clocks_remove(oc, p as int);
            }
        } else {
            proof {
                lemma_clocks_unique(oc);
                if has_clock(oc, doc_id@) {
                    let k = choose|k: int| 0 <= k < oc.len() && oc[k].doc_id == doc_id@;
                    if k < p {
                        assert(lex_lt(oc[k].doc_id, doc_id@));
                        lemma_lex_irrefl(doc_id@);
                    } else if k > p {
                        assert(lex_lt(oc[p as int].doc_id, oc[k].doc_id));
                        lemma_lex_total(oc[p as int].doc_id, doc_id@);
                        lemma_lex_irrefl(doc_id@);
                        lemma_lex_trans(doc_id@, oc[p as int].doc_id, doc_id@);
                    }
                }
            }
        }
    }

    /// Captures the current wall-clock time `t`, then appends the update
    /// row `(doc_id, t, update)` and overwrites the document's clock to
    /// `t` in one all-or-nothing step, returning `t`.  Fails, changing
    /// nothing, if the clock cannot be read or the captured time collides
    /// with an update already stored for the document.
    pub fn push_update(&mut self, doc_id: String, update: Vec<u8>) -> (r: Result<
        i64,
        StorageError,
    >)
        requires
            old(self).wf(),
        ensures
            final(self).wf(),
            match r {
                Ok(t) => {
                    &&& !has_update(old(self)@.log, doc_id@, t as int)
                    &&& final(self)@.log == old(self)@.log.push(
                        UpdateModel { doc_id: doc_id@, created_at: t as int, data: update@ },
                    )
                    &&& has_update(final(self)@.log, doc_id@, t as int)
                    &&& has_clock(final(self)@.clocks, doc_id@)
                    &&& clock_for(final(self)@.clocks, doc_id@) == t as int
                    &&& (forall|d: Seq<char>|
                        d != doc_id@ ==> has_clock(final(self)@.clocks, d) == has_clock(
                            old(self)@.clocks,
                            d,
                        ))
                    &&& (forall|d: Seq<char>|
                        d != doc_id@ && has_clock(old(self)@.clocks, d) ==> clock_for(
                            final(self)@.clocks,
                            d,
                        ) == clock_for(old(self)@.clocks, d))
                    &&& final(self)@.snapshots == old(self)@.snapshots
                },
                Err(_) => final(self)@ == old(self)@,
            },
    {
        match now_nanos() {
            None => Err(StorageError),
            Some(t) => match self.push_update_at(doc_id, update, t) {
                Ok(()) => Ok(t),
                Err(e) => Err(e),
            },
        }
    }
}

/// One step of scanning the log for a document's rows.
proof fn lemma_updates_for_step(log: Seq<UpdateModel>, d: Seq<char>, j: int)
    requires
        0 <= j < log.len(),
    ensures
        updates_for(log.take(j + 1), d) == if log[j].doc_id == d {
            updates_for(log.take(j), d).push(log[j])
        } else {
            updates_for(log.take(j), d)
        },
{
    reveal(Seq::filter);
    assert(log.take(j + 1).drop_last() =~= log.take(j));
    assert(log.take(j + 1).last() == log[j]);
}

/// One step of scanning the log for rows that survive a deletion.
proof fn lemma_purged_step(log: Seq<UpdateModel>, d: Seq<char>, j: int)
    requires
        0 <= j < log.len(),
    ensures
        purged(log.take(j + 1), d) == if log[j].doc_id == d {
            purged(log.take(j), d)
        } else {
            purged(log.take(j), d).push(log[j])
        },
{
    reveal(Seq::filter);
    assert(log.take(j + 1).drop_last() =~= log.take(j));
    assert(log.take(j + 1).last() == log[j]);
}

/// Deleting one document's rows keeps every other document's log intact,
/// leaves nothing of the deleted one, and keeps distinct keys distinct.
proof fn lemma_purged_facts(log: Seq<UpdateModel>, d: Seq<char>)
    ensures
        updates_for(purged(log, d), d) == Seq::<UpdateModel>::empty(),
        forall|dd: Seq<char>|
            dd != d ==> updates_for(purged(log, d), dd) == updates_for(log, dd),
        log_keys_unique(log) ==> log_keys_unique(purged(log, d)),
        forall|dd: Seq<char>, t: int| has_update(purged(log, d), dd, t) ==> has_update(log, dd, t),
    decreases log.len(),
{
    reveal(Seq::filter);
    if log.len() == 0 {
        assert(purged(log, d) =~= Seq::<UpdateModel>::empty());
        assert(updates_for(purged(log, d), d) =~= Seq::<UpdateModel>::empty());
    } else {
        let dl = log.drop_last();
        lemma_purged_facts(dl, d);
        let last = log.last();
        let f = purged(log, d);
        let fd = purged(dl, d);
        assert forall|dd: Seq<char>, t: int|
            has_update(dl, dd, t) implies has_update(log, dd, t) by {
            let i = choose|i: int| 0 <= i < dl.len() && dl[i].doc_id == dd && dl[i].created_at == t;
            assert(log[i] == dl[i]);
        }
        if last.doc_id == d {
            assert(f == fd);
            assert forall|dd: Seq<char>| dd != d implies updates_for(f, dd) == updates_for(
                log,
                dd,
            ) by {
                assert(updates_for(log, dd) == if last.doc_id == dd {
                    updates_for(dl, dd).push(last)
                } else {
                    updates_for(dl, dd)
                });
            }
        } else {
            assert(f == fd.push(last));
            assert(f.drop_last() =~= fd);
            assert(updates_for(f, d) == updates_for(fd, d));
            assert forall|dd: Seq<char>| dd != d implies updates_for(f, dd) == updates_for(
                log,
                dd,
            ) by {
                assert(updates_for(f, dd) == if last.doc_id == dd {
                    updates_for(fd, dd).push(last)
                } else {
                    updates_for(fd, dd)
                });
                assert(updates_for(log, dd) == if last.doc_id == dd {
                    updates_for(dl, dd).push(last)
                } else {
                    updates_for(dl, dd)
                });
            }
            if log_keys_unique(log) {
                assert(log_keys_unique(dl));
                if has_update(fd, last.doc_id, last.created_at) {
                    assert(has_update(dl, last.doc_id, last.created_at));
                    let i = choose|i: int|
                        0 <= i < dl.len() && dl[i].doc_id == last.doc_id && dl[i].created_at
                            == last.created_at;
                    assert(log[i] == dl[i]);
                    assert(false);
                }
                assert forall|i: int, j: int|
                    0 <= i < j < f.len() implies !(f[i].doc_id == f[j].doc_id && f[i].created_at
                    == f[j].created_at) by {
                    if j < f.len() - 1 {
                        assert(f[i] == fd[i] && f[j] == fd[j]);
                    } else {
                        assert(f[i] == fd[i] && f[j] == last);
                        if f[i].doc_id == last.doc_id && f[i].created_at == last.created_at {
                            assert(has_update(fd, last.doc_id, last.created_at));
                        }
                    }
                }
            }
        }
        assert forall|dd: Seq<char>, t: int|
            has_update(f, dd, t) implies has_update(log, dd, t) by {
            let k = choose|k: int| 0 <= k < f.len() && f[k].doc_id == dd && f[k].created_at == t;
            if last.doc_id != d && k == f.len() - 1 {
                assert(log[log.len() - 1] == last);
            } else {
                assert(f[k] == fd[k]);
                assert(has_update(fd, dd, t));
            }
        }
    }
}

/// Removing the row of one document keeps every other document's
/// snapshot in place.
proof fn lemma_snaps_remove(os: Seq<RecordModel>, i: int)
    requires
        snaps_unique(os),
        0 <= i < os.len(),
    ensures
        snaps_unique(os.remove(i)),
        !has_snapshot(os.remove(i), os[i].doc_id),
        forall|dd: Seq<char>|
            dd != os[i].doc_id ==> has_snapshot(os.remove(i), dd) == has_snapshot(os, dd),
        forall|dd: Seq<char>|
            dd != os[i].doc_id && has_snapshot(os, dd) ==> snapshot_for(os.remove(i), dd)
                == snapshot_for(os, dd),
{
    let ns = os.remove(i);
    assert forall|a: int| 0 <= a < ns.len() implies ns[a] == os[if a < i {
        a
    } else {
        a + 1
    }] by {}
    assert forall|dd: Seq<char>| dd != os[i].doc_id implies has_snapshot(ns, dd) == has_snapshot(
        os,
        dd,
    ) && (has_snapshot(os, dd) ==> snapshot_for(ns, dd) == snapshot_for(os, dd)) by {
        if has_snapshot(os, dd) {
            let j = choose|j: int| 0 <= j < os.len() && os[j].doc_id == dd;
            let nj: int = if j < i {
                j
            } else {
                j - 1
            };
            assert(ns[nj] == os[j]);
            assert(has_snapshot(ns, dd));
            lemma_snapshot_at(os, j);
            let k = choose|k: int| 0 <= k < ns.len() && ns[k].doc_id == dd;
            let ok: int = if k < i {
                k
            } else {
                k + 1
            };
            assert(ns[k] == os[ok]);
            assert(snapshot_for(ns, dd) == ns[k]);
            lemma_snapshot_at(os, ok);
        }
        if has_snapshot(ns, dd) {
            let j = choose|j: int| 0 <= j < ns.len() && ns[j].doc_id == dd;
            let oj: int = if j < i {
                j
            } else {
                j + 1
            };
            assert(ns[j] == os[oj]);
            assert(has_snapshot(os, dd));
        }
    }
    if has_snapshot(ns, os[i].doc_id) {
        let j = choose|j: int| 0 <= j < ns.len() && ns[j].doc_id == os[i].doc_id;
        let oj: int = if j < i {
            j
        } else {
            j + 1
        };
        assert(ns[j] == os[oj]);
    }
}

/// Removing the row of one document keeps every other document's clock
/// in place and keeps the table ordered.
proof fn lemma_clocks_remove(os: Seq<ClockModel>, i: int)
    requires
        clocks_sorted(os),
        0 <= i < os.len(),
    ensures
        clocks_sorted(os.remove(i)),
        !has_clock(os.remove(i), os[i].doc_id),
        forall|dd: Seq<char>|
            dd != os[i].doc_id ==> has_clock(os.remove(i), dd) == has_clock(os, dd),
        forall|dd: Seq<char>|
            dd != os[i].doc_id && has_clock(os, dd) ==> clock_for(os.remove(i), dd) == clock_for(
                os,
                dd,
            ),
{
    lemma_clocks_unique(os);
    let ns = os.remove(i);
    assert forall|a: int| 0 <= a < ns.len() implies ns[a] == os[if a < i {
        a
    } else {
        a + 1
    }] by {}
    assert(clocks_sorted(ns));
    assert forall|dd: Seq<char>| dd != os[i].doc_id implies has_clock(ns, dd) == has_clock(
        os,
        dd,
    ) && (has_clock(os, dd) ==> clock_for(ns, dd) == clock_for(os, dd)) by {
        if has_clock(os, dd) {
            let j = choose|j: int| 0 <= j < os.len() && os[j].doc_id == dd;
            let nj: int = if j < i {
                j
            } else {
                j - 1
            };
            assert(ns[nj] == os[j]);
            assert(has_clock(ns, dd));
            lemma_clock_at(os, j);
            lemma_clock_at(ns, nj);
        }
        if has_clock(ns, dd) {
            let j = choose|j: int| 0 <= j < ns.len() && ns[j].doc_id == dd;
            let oj: int = if j < i {
                j
            } else {
                j + 1
            };
            assert(ns[j] == os[oj]);
            assert(has_clock(os, dd));
        }
    }
    if has_clock(ns, os[i].doc_id) {
        let j = choose|j: int| 0 <= j < ns.len() && ns[j].doc_id == os[i].doc_id;
        let oj: int = if j < i {
            j
        } else {
            j + 1
        };
        assert(ns[j] == os[oj]);
    }
}

/// One step of scanning the clock table under a checkpoint filter.
proof fn lemma_clocks_after_step(clocks: Seq<ClockModel>, t: i64, j: int)
    requires
        0 <= j < clocks.len(),
    ensures
        clocks_after(clocks.take(j + 1), Some(t)) == if clocks[j].timestamp > t as int {
            clocks_after(clocks.take(j), Some(t)).push(clocks[j])
        } else {
            clocks_after(clocks.take(j), Some(t))
        },
{
    reveal(Seq::filter);
    assert(clocks.take(j + 1).drop_last() =~= clocks.take(j));
    assert(clocks.take(j + 1).last() == clocks[j]);
}

/// A checkpoint filter keeps the clock rows ordered by document id: the
/// survivors come out in their stored, ordered positions.
pub proof fn lemma_clocks_after_sorted(clocks: Seq<ClockModel>, after: Option<i64>)
    requires
        clocks_sorted(clocks),
    ensures
        clocks_sorted(clocks_after(clocks, after)),
        forall|k: int|
            0 <= k < clocks_after(clocks, after).len() ==> clocks.contains(
                #[trigger] clocks_after(clocks, after)[k],
            ),
    decreases clocks.len(),
{
    match after {
        None => {
            assert(clocks_after(clocks, after) == clocks);
            assert forall|k: int|
                0 <= k < clocks_after(clocks, after).len() implies clocks.contains(
                #[trigger] clocks_after(clocks, after)[k],
            ) by {
                assert(clocks[k] == clocks_after(clocks, after)[k]);
            }
        },
        Some(t) => {
            reveal(Seq::filter);
            if clocks.len() > 0 {
                let dl = clocks.drop_last();
                let last = clocks.last();
                assert(clocks_sorted(dl));
                lemma_clocks_after_sorted(dl, after);
                let f = clocks_after(clocks, after);
                let fd = clocks_after(dl, after);
                assert forall|k: int|
                    0 <= k < fd.len() implies clocks.contains(#[trigger] fd[k]) by {
                    assert(dl.contains(fd[k]));
                    let i = choose|i: int| 0 <= i < dl.len() && dl[i] == fd[k];
                    assert(clocks[i] == fd[k]);
                }
                if last.timestamp > t as int {
                    assert(f == fd.push(last));
                    assert forall|a: int, b: int|
                        0 <= a < b < f.len() implies lex_lt(f[a].doc_id, f[b].doc_id) by {
                        if b == f.len() - 1 {
                            assert(f[a] == fd[a]);
                            assert(dl.contains(fd[a]));
                            let i = choose|i: int| 0 <= i < dl.len() && dl[i] == fd[a];
                            assert(lex_lt(clocks[i].doc_id, last.doc_id));
                        } else {
                            assert(f[a] == fd[a] && f[b] == fd[b]);
                        }
                    }
                    assert forall|k: int|
                        0 <= k < clocks_after(clocks, after).len() implies clocks.contains(
                        #[trigger] clocks_after(clocks, after)[k],
                    ) by {
                        if k < f.len() - 1 {
                            assert(f[k] == fd[k]);
                            assert(clocks.contains(fd[k]));
                        } else {
                            assert(clocks[clocks.len() - 1] == f[k]);
                        }
                    }
                } else {
                    assert(f == fd);
                    assert forall|k: int|
                        0 <= k < clocks_after(clocks, after).len() implies clocks.contains(
                        #[trigger] clocks_after(clocks, after)[k],
                    ) by {
                        assert(clocks_after(clocks, after)[k] == fd[k]);
                        assert(clocks.contains(fd[k]));
                    }
                }
            } else {
                assert(clocks_after(clocks, after) =~= Seq::<ClockModel>::empty());
            }
        },
    }
}

/// One step of scanning the log for rows that survive a retirement.
proof fn lemma_retired_step(log: Seq<UpdateModel>, d: Seq<char>, ts: Seq<int>, j: int)
    requires
        0 <= j < log.len(),
    ensures
        retired(log.take(j + 1), d, ts) == if log[j].doc_id == d && ts.contains(
            log[j].created_at,
        ) {
            retired(log.take(j), d, ts)
        } else {
            retired(log.take(j), d, ts).push(log[j])
        },
{
    reveal(Seq::filter);
    assert(log.take(j + 1).drop_last() =~= log.take(j));
    assert(log.take(j + 1).last() == log[j]);
}

/// Retirement only removes rows: every key of the survivors was a key of
/// the log, and distinct keys stay distinct.
proof fn lemma_retired_unique(log: Seq<UpdateModel>, d: Seq<char>, ts: Seq<int>)
    ensures
        forall|dd: Seq<char>, t: int|
            has_update(retired(log, d, ts), dd, t) ==> has_update(log, dd, t),
        log_keys_unique(log) ==> log_keys_unique(retired(log, d, ts)),
    decreases log.len(),
{
    reveal(Seq::filter);
    if log.len() > 0 {
        let dl = log.drop_last();
        lemma_retired_unique(dl, d, ts);
        assert forall|dd: Seq<char>, t: int|
            has_update(dl, dd, t) implies has_update(log, dd, t) by {
            let i = choose|i: int| 0 <= i < dl.len() && dl[i].doc_id == dd && dl[i].created_at == t;
            assert(log[i] == dl[i]);
        }
        let last = log.last();
        let f = retired(log, d, ts);
        let fd = retired(dl, d, ts);
        if log_keys_unique(log) {
            assert(log_keys_unique(dl));
            if !(last.doc_id == d && ts.contains(last.created_at)) {
                assert(f == fd.push(last));
                if has_update(fd, last.doc_id, last.created_at) {
                    assert(has_update(dl, last.doc_id, last.created_at));
                    let i = choose|i: int|
                        0 <= i < dl.len() && dl[i].doc_id == last.doc_id && dl[i].created_at
                            == last.created_at;
                    assert(log[i] == dl[i]);
                    assert(false);
                }
                assert forall|i: int, j: int|
                    0 <= i < j < f.len() implies !(f[i].doc_id == f[j].doc_id && f[i].created_at
                    == f[j].created_at) by {
                    if j < f.len() - 1 {
                        assert(f[i] == fd[i] && f[j] == fd[j]);
                    } else {
                        assert(f[i] == fd[i] && f[j] == last);
                        if f[i].doc_id == last.doc_id && f[i].created_at == last.created_at {
                            assert(has_update(fd, last.doc_id, last.created_at));
                        }
                    }
                }
            }
        }
        assert forall|dd: Seq<char>, t: int|
            has_update(f, dd, t) implies has_update(log, dd, t) by {
            let k = choose|k: int| 0 <= k < f.len() && f[k].doc_id == dd && f[k].created_at == t;
            if f == fd.push(last) && k == f.len() - 1 {
                assert(log[log.len() - 1] == last);
            } else {
                assert(f[k] == fd[k]);
                assert(has_update(fd, dd, t));
            }
        }
    }
}

/// Whether `t` occurs among the supplied timestamps.
fn contains_time(ts: &Vec<i64>, t: i64) -> (r: bool)
    ensures
        r == time_models(ts@).contains(t as int),
{
    let mut i: usize = 0;
    while i < ts.len()
        invariant
            i <= ts@.len(),
            forall|j: int| 0 <= j < i ==> time_models(ts@)[j] != t as int,
        decreases ts@.len() - i,
    {
        if ts[i] == t {
            proof {
                assert(time_models(ts@)[i as int] == t as int);
            }
            return true;
        }
        proof {
            assert(time_models(ts@)[i as int] == ts@[i as int] as int);
        }
        i = i + 1;
    }
    false
}

/// Whether the log holds a row keyed `(doc_id, t)`.
fn log_has_key(updates: &Vec<DocUpdate>, doc_id: &String, t: i64) -> (r: bool)
    ensures
        r == has_update(update_models(updates@), doc_id@, t as int),
{
    let mut i: usize = 0;
    while i < updates.len()
        invariant
            i <= updates@.len(),
            forall|j: int|
                0 <= j < i ==> !(update_models(updates@)[j].doc_id == doc_id@ && update_models(
                    updates@,
                )[j].created_at == t as int),
        decreases updates@.len() - i,
    {
        if updates[i].created_at == t && updates[i].doc_id == *doc_id {
            proof {
                assert(update_models(updates@)[i as int].doc_id == doc_id@);
            }
            return true;
        }
        proof {
            assert(update_models(updates@)[i as int].doc_id == updates@[i as int].doc_id@);
        }
        i = i + 1;
    }
    false
}

/// Relies on `chrono::Utc::now`, read as nanoseconds since the Unix
/// epoch: the result depends on the wall clock alone, so nothing is
/// promised of it; none is returned when the instant has no such
/// representation.
#[verifier::external_body]
fn now_nanos() -> (r: Option<i64>) {
    chrono::Utc::now().timestamp_nanos_opt()
}

/// The snapshot row found at an index is the one `snapshot_for` names.
proof fn lemma_snapshot_at(snaps: Seq<RecordModel>, i: int)
    requires
        snaps_unique(snaps),
        0 <= i < snaps.len(),
    ensures
        has_snapshot(snaps, snaps[i].doc_id),
        snapshot_for(snaps, snaps[i].doc_id) == snaps[i],
{
    let d = snaps[i].doc_id;
    assert(has_snapshot(snaps, d));
    let k = choose|k: int| 0 <= k < snaps.len() && snaps[k].doc_id == d;
    assert(k == i);
}

/// Overwriting the row of a document in place keeps every other
/// document's snapshot and serves the new row for that document.
proof fn lemma_snaps_update(os: Seq<RecordModel>, i: int, rec: RecordModel)
    requires
        snaps_unique(os),
        0 <= i < os.len(),
        os[i].doc_id == rec.doc_id,
    ensures
        snaps_unique(os.update(i, rec)),
        has_snapshot(os.update(i, rec), rec.doc_id),
        snapshot_for(os.update(i, rec), rec.doc_id) == rec,
        forall|dd: Seq<char>|
            dd != rec.doc_id ==> has_snapshot(os.update(i, rec), dd) == has_snapshot(os, dd),
        forall|dd: Seq<char>|
            dd != rec.doc_id && has_snapshot(os, dd) ==> snapshot_for(os.update(i, rec), dd)
                == snapshot_for(os, dd),
{
    let ns = os.update(i, rec);
    assert(snaps_unique(ns));
    lemma_snapshot_at(ns, i);
    assert forall|dd: Seq<char>| dd != rec.doc_id implies has_snapshot(ns, dd) == has_snapshot(
        os,
        dd,
    ) && (has_snapshot(os, dd) ==> snapshot_for(ns, dd) == snapshot_for(os, dd)) by {
        if has_snapshot(os, dd) {
            let j = choose|j: int| 0 <= j < os.len() && os[j].doc_id == dd;
            assert(ns[j] == os[j]);
            lemma_snapshot_at(ns, j);
            lemma_snapshot_at(os, j);
        }
        if has_snapshot(ns, dd) {
            let j = choose|j: int| 0 <= j < ns.len() && ns[j].doc_id == dd;
            assert(ns[j] == os[j]);
            assert(has_snapshot(os, dd));
        }
    }
}

/// Appending a row for a document that had none keeps every other
/// document's snapshot and serves the new row for that document.
proof fn lemma_snaps_push(os: Seq<RecordModel>, rec: RecordModel)
    requires
        snaps_unique(os),
        !has_snapshot(os, rec.doc_id),
    ensures
        snaps_unique(os.push(rec)),
        has_snapshot(os.push(rec), rec.doc_id),
        snapshot_for(os.push(rec), rec.doc_id) == rec,
        forall|dd: Seq<char>|
            dd != rec.doc_id ==> has_snapshot(os.push(rec), dd) == has_snapshot(os, dd),
        forall|dd: Seq<char>|
            dd != rec.doc_id && has_snapshot(os, dd) ==> snapshot_for(os.push(rec), dd)
                == snapshot_for(os, dd),
{
    let ns = os.push(rec);
    assert forall|i: int, j: int| 0 <= i < j < ns.len() implies ns[i].doc_id != ns[j].doc_id by {
        if j == os.len() {
            assert(ns[i] == os[i]);
            if os[i].doc_id == rec.doc_id {
                assert(has_snapshot(os, rec.doc_id));
            }
        }
    }
    lemma_snapshot_at(ns, os.len() as int);
    assert forall|dd: Seq<char>| dd != rec.doc_id implies has_snapshot(ns, dd) == has_snapshot(
        os,
        dd,
    ) && (has_snapshot(os, dd) ==> snapshot_for(ns, dd) == snapshot_for(os, dd)) by {
        if has_snapshot(os, dd) {
            let j = choose|j: int| 0 <= j < os.len() && os[j].doc_id == dd;
            assert(ns[j] == os[j]);
            lemma_snapshot_at(ns, j);
            lemma_snapshot_at(os, j);
        }
        if has_snapshot(ns, dd) {
            let j = choose|j: int| 0 <= j < ns.len() && ns[j].doc_id == dd;
            assert(j < os.len());
            assert(ns[j] == os[j]);
            assert(has_snapshot(os, dd));
        }
    }
}

/// Replaces the row at `i`, leaving every other row in place.
fn replace_record<T>(rows: &mut Vec<T>, i: usize, rec: T)
    requires
        i < old(rows)@.len(),
    ensures
        final(rows)@ == old(rows)@.update(i as int, rec),
{
    rows.remove(i);
    rows.insert(i, rec);
    proof {
        assert(rows@ =~= old(rows)@.update(i as int, rec));
    }
}

/// Strictly ordered clock rows carry distinct document ids.
proof fn lemma_clocks_unique(clocks: Seq<ClockModel>)
    requires
        clocks_sorted(clocks),
    ensures
        forall|i: int, j: int|
            0 <= i < j < clocks.len() ==> clocks[i].doc_id != clocks[j].doc_id,
{
    assert forall|i: int, j: int|
        0 <= i < j < clocks.len() implies clocks[i].doc_id != clocks[j].doc_id by {
        if clocks[i].doc_id == clocks[j].doc_id {
            lemma_lex_irrefl(clocks[i].doc_id);
        }
    }
}

/// The clock row found at an index is the one `clock_for` names.
proof fn lemma_clock_at(clocks: Seq<ClockModel>, i: int)
    requires
        clocks_sorted(clocks),
        0 <= i < clocks.len(),
    ensures
        has_clock(clocks, clocks[i].doc_id),
        clock_for(clocks, clocks[i].doc_id) == clocks[i].timestamp,
{
    lemma_clocks_unique(clocks);
    let d = clocks[i].doc_id;
    assert(has_clock(clocks, d));
    let k = choose|k: int| 0 <= k < clocks.len() && clocks[k].doc_id == d;
    assert(k == i);
}

/// Overwriting the clock of a document in place keeps every other
/// document's clock and serves the new value for that document.
proof fn lemma_clocks_update(os: Seq<ClockModel>, i: int, c: ClockModel)
    requires
        clocks_sorted(os),
        0 <= i < os.len(),
        os[i].doc_id == c.doc_id,
    ensures
        clocks_sorted(os.update(i, c)),
        has_clock(os.update(i, c), c.doc_id),
        clock_for(os.update(i, c), c.doc_id) == c.timestamp,
        forall|dd: Seq<char>|
            dd != c.doc_id ==> has_clock(os.update(i, c), dd) == has_clock(os, dd),
        forall|dd: Seq<char>|
            dd != c.doc_id && has_clock(os, dd) ==> clock_for(os.update(i, c), dd) == clock_for(
                os,
                dd,
            ),
{
    let ns = os.update(i, c);
    assert(clocks_sorted(ns));
    lemma_clock_at(ns, i);
    lemma_clocks_unique(os);
    assert forall|dd: Seq<char>| dd != c.doc_id implies has_clock(ns, dd) == has_clock(os, dd) && (
    has_clock(os, dd) ==> clock_for(ns, dd) == clock_for(os, dd)) by {
        if has_clock(os, dd) {
            let j = choose|j: int| 0 <= j < os.len() && os[j].doc_id == dd;
            assert(ns[j] == os[j]);
            lemma_clock_at(ns, j);
            lemma_clock_at(os, j);
        }
        if has_clock(ns, dd) {
            let j = choose|j: int| 0 <= j < ns.len() && ns[j].doc_id == dd;
            assert(ns[j] == os[j]);
            assert(has_clock(os, dd));
        }
    }
}

/// Inserting a clock row at its ordered position keeps every other
/// document's clock and serves the new value for that document.
proof fn lemma_clocks_insert(os: Seq<ClockModel>, p: int, c: ClockModel)
    requires
        clocks_sorted(os),
        0 <= p <= os.len(),
        forall|j: int| 0 <= j < p ==> lex_lt(os[j].doc_id, c.doc_id),
        forall|j: int| p <= j < os.len() ==> lex_lt(c.doc_id, os[j].doc_id),
    ensures
        clocks_sorted(os.insert(p, c)),
        has_clock(os.insert(p, c), c.doc_id),
        clock_for(os.insert(p, c), c.doc_id) == c.timestamp,
        forall|dd: Seq<char>|
            dd != c.doc_id ==> has_clock(os.insert(p, c), dd) == has_clock(os, dd),
        forall|dd: Seq<char>|
            dd != c.doc_id && has_clock(os, dd) ==> clock_for(os.insert(p, c), dd) == clock_for(
                os,
                dd,
            ),
{
    let ns = os.insert(p, c);
    assert(ns.len() == os.len() + 1);
    assert forall|i: int, j: int|
        0 <= i < j < ns.len() implies lex_lt(ns[i].doc_id, ns[j].doc_id) by {
        if i < p && j < p {
            assert(ns[i] == os[i] && ns[j] == os[j]);
        } else if i < p && j == p {
            assert(ns[i] == os[i]);
        } else if i < p && j > p {
            assert(ns[i] == os[i] && ns[j] == os[j - 1]);
        } else if i == p {
            assert(ns[j] == os[j - 1]);
        } else {
            assert(ns[i] == os[i - 1] && ns[j] == os[j - 1]);
        }
    }
    lemma_clock_at(ns, p);
    lemma_clocks_unique(os);
    assert forall|dd: Seq<char>| dd != c.doc_id implies has_clock(ns, dd) == has_clock(os, dd) && (
    has_clock(os, dd) ==> clock_for(ns, dd) == clock_for(os, dd)) by {
        if has_clock(os, dd) {
            let j = choose|j: int| 0 <= j < os.len() && os[j].doc_id == dd;
            let nj: int = if j < p {
                j
            } else {
                j + 1
            };
            assert(ns[nj] == os[j]);
            lemma_clock_at(ns, nj);
            lemma_clock_at(os, j);
        }
        if has_clock(ns, dd) {
            let j = choose|j: int| 0 <= j < ns.len() && ns[j].doc_id == dd;
            let oj: int = if j < p {
                j
            } else {
                j - 1
            };
            assert(ns[j] == os[oj]);
            assert(has_clock(os, dd));
        }
    }
}

/// The position of `doc_id` in the ordered clock table: every row before
/// it is strictly below `doc_id`, and the row at it, if any, is not.
fn find_clock_slot(clocks: &Vec<DocClock>, doc_id: &String) -> (p: usize)
    requires
        clocks_sorted(clock_models(clocks@)),
    ensures
        p <= clocks@.len(),
        forall|j: int| 0 <= j < p ==> lex_lt(clock_models(clocks@)[j].doc_id, doc_id@),
        (p as int) < clocks@.len() ==> !lex_lt(clock_models(clocks@)[p as int].doc_id, doc_id@),
{
    let mut p: usize = 0;
    while p < clocks.len()
        invariant
            p <= clocks@.len(),
            forall|j: int| 0 <= j < p ==> lex_lt(clock_models(clocks@)[j].doc_id, doc_id@),
        decreases clocks@.len() - p,
    {
        if !str_lt(&clocks[p].doc_id, doc_id) {
            return p;
        }
        proof {
            assert(clock_models(clocks@)[p as int].doc_id == clocks@[p as int].doc_id@);
        }
        p = p + 1;
    }
    p
}

/// Sets the clock of `doc_id` to `timestamp`, inserting its row at the
/// ordered position when the document had none.
fn upsert_clock(clocks: &mut Vec<DocClock>, doc_id: &String, timestamp: i64)
    requires
        clocks_sorted(clock_models(old(clocks)@)),
    ensures
        clocks_sorted(clock_models(final(clocks)@)),
        has_clock(clock_models(final(clocks)@), doc_id@),
        clock_for(clock_models(final(clocks)@), doc_id@) == timestamp as int,
        forall|dd: Seq<char>|
            dd != doc_id@ ==> has_clock(clock_models(final(clocks)@), dd) == has_clock(
                clock_models(old(clocks)@),
                dd,
            ),
        forall|dd: Seq<char>|
            dd != doc_id@ && has_clock(clock_models(old(clocks)@), dd) ==> clock_for(
                clock_models(final(clocks)@),
                dd,
            ) == clock_for(clock_models(old(clocks)@), dd),
{
    let ghost os = clock_models(old(clocks)@);
    let p = find_clock_slot(clocks, doc_id);
    let row = DocClock { doc_id: doc_id.clone(), timestamp };
    let ghost m = row@;
    if p < clocks.len() && clocks[p].doc_id == *doc_id {
        replace_record(clocks, p, row);
        proof {
            assert(clock_models(clocks@) =~= os.update(p as int, m));
            lemma_clocks_update(os, p as int, m);
        }
    } else {
        proof {
            if (p as int) < os.len() {
                lemma_lex_total(os[p as int].doc_id, doc_id@);
                assert(os[p as int].doc_id == clocks@[p as int].doc_id@);
                assert(lex_lt(doc_id@, os[p as int].doc_id));
            }
            assert forall|j: int| p <= j < os.len() implies lex_lt(doc_id@, os[j].doc_id) by {
                if j > p {
                    lemma_lex_trans(doc_id@, os[p as int].doc_id, os[j].doc_id);
                }
            }
        }
        clocks.insert(p, row);
        proof {
            assert(clock_models(clocks@) =~= os.insert(p as int, m));
            lemma_clocks_insert(os, p as int, m);
        }
    }
}

/// The index of the snapshot row of `doc_id`, if one is present.

/// The index of the snapshot row of `doc_id`, if one is present.
fn find_snapshot_index(rows: &Vec<DocRecord>, doc_id: &String) -> (r: Option<usize>)
    ensures
        match r {
            Some(i) => (i as int) < rows@.len() && rows@[i as int].doc_id@ == doc_id@,
            None => forall|j: int| 0 <= j < rows@.len() ==> rows@[j].doc_id@ != doc_id@,
        },
{
    let mut i: usize = 0;
    while i < rows.len()
        invariant
            i <= rows@.len(),
            forall|j: int| 0 <= j < i ==> rows@[j].doc_id@ != doc_id@,
        decreases rows@.len() - i,
    {
        if rows[i].doc_id == *doc_id {
            return Some(i);
        }
        i = i + 1;
    }
    None
}

} // verus!
