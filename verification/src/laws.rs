use vstd::prelude::*;

use crate::records::UpdateModel;
use crate::storage::{retired, times_nondecreasing, updates_for};

verus! {

/// Chronological pushes keep the log of a document ordered: appending an
/// update whose creation time is no earlier than any of the document's
/// stored rows leaves that document's rows in non-decreasing creation
/// order, ties broken by insertion order, and leaves every other
/// document's rows exactly as they were.
pub proof fn lemma_chronological_push_keeps_order(log: Seq<UpdateModel>, u: UpdateModel)
    requires
        times_nondecreasing(updates_for(log, u.doc_id)),
        forall|i: int|
            0 <= i < updates_for(log, u.doc_id).len() ==> updates_for(log, u.doc_id)[i].created_at
                <= u.created_at,
    ensures
        updates_for(log.push(u), u.doc_id) == updates_for(log, u.doc_id).push(u),
        times_nondecreasing(updates_for(log.push(u), u.doc_id)),
        forall|d: Seq<char>| d != u.doc_id ==> updates_for(log.push(u), d) == updates_for(log, d),
{
    reveal(Seq::filter);
    assert(log.push(u).drop_last() =~= log);
    assert(log.push(u).last() == u);
    let f = updates_for(log, u.doc_id).push(u);
    assert forall|i: int, j: int|
        0 <= i < j < f.len() implies f[i].created_at <= f[j].created_at by {
        if j < f.len() - 1 {
            assert(f[i] == updates_for(log, u.doc_id)[i]);
            assert(f[j] == updates_for(log, u.doc_id)[j]);
        } else {
            assert(f[i] == updates_for(log, u.doc_id)[i]);
        }
    }
}

/// Retirement is idempotent: retiring the same set of timestamps a
/// second time finds nothing left to remove, so the log stays as it was
/// and the second removed count is 0.
pub proof fn lemma_retire_idempotent(log: Seq<UpdateModel>, d: Seq<char>, ts: Seq<int>)
    ensures
        retired(retired(log, d, ts), d, ts) == retired(log, d, ts),
        retired(log, d, ts).len() - retired(retired(log, d, ts), d, ts).len() == 0,
    decreases log.len(),
{
    reveal(Seq::filter);
    if log.len() > 0 {
        let dl = log.drop_last();
        lemma_retire_idempotent(dl, d, ts);
        let last = log.last();
        let f = retired(log, d, ts);
        let fd = retired(dl, d, ts);
        if !(last.doc_id == d && ts.contains(last.created_at)) {
            assert(f == fd.push(last));
            assert(f.drop_last() =~= fd);
            assert(f.last() == last);
            assert(retired(f, d, ts) == retired(fd, d, ts).push(last));
        } else {
            assert(f == fd);
        }
    }
}

} // verus!
