use vstd::prelude::*;

verus! {

/// One row of the update log: an opaque payload scoped to one document,
/// keyed by the pair `(doc_id, created_at)`.
pub struct DocUpdate {
    pub doc_id: String,
    pub created_at: i64,
    pub data: Vec<u8>,
}

/// The stored snapshot of a document: its materialized state and the
/// timestamp of the write that produced it.
pub struct DocRecord {
    pub doc_id: String,
    pub data: Vec<u8>,
    pub timestamp: i64,
}

/// The logical clock of a document: the timestamp of the most recently
/// pushed update.
pub struct DocClock {
    pub doc_id: String,
    pub timestamp: i64,
}

/// The one error kind of the engine: a storage write that could not be
/// applied, such as a duplicate `(doc_id, created_at)` key.
#[derive(Clone, Copy, Debug, PartialEq, Eq, Structural)]
pub struct StorageError;

/// Mathematical image of an update row.
#[verifier::ext_equal]
pub struct UpdateModel {
    pub doc_id: Seq<char>,
    pub created_at: int,
    pub data: Seq<u8>,
}

/// Mathematical image of a snapshot row.
#[verifier::ext_equal]
pub struct RecordModel {
    pub doc_id: Seq<char>,
    pub data: Seq<u8>,
    pub timestamp: int,
}

/// Mathematical image of a clock row.
#[verifier::ext_equal]
pub struct ClockModel {
    pub doc_id: Seq<char>,
    pub timestamp: int,
}

impl View for DocUpdate {
    type V = UpdateModel;

    open spec fn view(&self) -> UpdateModel {
        UpdateModel {
            doc_id: self.doc_id@,
            created_at: self.created_at as int,
            data: self.data@,
        }
    }
}

impl View for DocRecord {
    type V = RecordModel;

    open spec fn view(&self) -> RecordModel {
        RecordModel {
            doc_id: self.doc_id@,
            data: self.data@,
            timestamp: self.timestamp as int,
        }
    }
}

impl View for DocClock {
    type V = ClockModel;

    open spec fn view(&self) -> ClockModel {
        ClockModel {
            doc_id: self.doc_id@,
            timestamp: self.timestamp as int,
        }
    }
}

/// The images of a sequence of update rows.
pub open spec fn update_models(rows: Seq<DocUpdate>) -> Seq<UpdateModel> {
    rows.map_values(|r: DocUpdate| r@)
}

/// The images of a sequence of snapshot rows.
pub open spec fn record_models(rows: Seq<DocRecord>) -> Seq<RecordModel> {
    rows.map_values(|r: DocRecord| r@)
}

/// The images of a sequence of clock rows.
pub open spec fn clock_models(rows: Seq<DocClock>) -> Seq<ClockModel> {
    rows.map_values(|r: DocClock| r@)
}

/// The images of a sequence of timestamps.
pub open spec fn time_models(ts: Seq<i64>) -> Seq<int> {
    ts.map_values(|t: i64| t as int)
}

/// A byte-for-byte copy of an opaque payload.
pub fn clone_bytes(v: &Vec<u8>) -> (r: Vec<u8>)
    ensures
        r@ == v@,
{
    let mut r: Vec<u8> = Vec::new();
    let mut i: usize = 0;
    while i < v.len()
        invariant
            i <= v.len(),
            r@ == v@.take(i as int),
        decreases v.len() - i,
    {
        r.push(v[i]);
        proof {
            assert(v@.take(i + 1 as int) =~= v@.take(i as int).push(v@[i as int]));
        }
        i = i + 1;
    }
    proof {
        assert(v@.take(v@.len() as int) =~= v@);
    }
    r
}

/// A copy of an update row with the same image.
pub fn clone_update(u: &DocUpdate) -> (r: DocUpdate)
    ensures
        r@ == u@,
{
    DocUpdate {
        doc_id: u.doc_id.clone(),
        created_at: u.created_at,
        data: clone_bytes(&u.data),
    }
}

/// A copy of a snapshot row with the same image.
pub fn clone_record(rec: &DocRecord) -> (r: DocRecord)
    ensures
        r@ == rec@,
{
    DocRecord {
        doc_id: rec.doc_id.clone(),
        data: clone_bytes(&rec.data),
        timestamp: rec.timestamp,
    }
}

/// A copy of a clock row with the same image.
pub fn clone_clock(c: &DocClock) -> (r: DocClock)
    ensures
        r@ == c@,
{
    DocClock {
        doc_id: c.doc_id.clone(),
        timestamp: c.timestamp,
    }
}

} // verus!
