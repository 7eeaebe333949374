use vstd::prelude::*;
use crate::bytes::bytes_eq;
use crate::journal::{
    decode_all, decode_log, decode_rest, encode, encode_all, encode_op, lemma_decode_encode_all,
    lemma_pow256_8, lemma_rest_encode_all, lemma_torn_tail, log_intact, op_fits, LogOp, OpView,
};
use crate::record::{bumped, can_bump, fresh, Record};

verus! {

/// One stored sighting: namespace, value and its record.
pub type Row = (Seq<u8>, Seq<u8>, Record);

/// Position of the row keyed by (`ns`, `v`), or -1 where there is none.
pub open spec fn index_of(rows: Seq<Row>, ns: Seq<u8>, v: Seq<u8>) -> int
    decreases rows.len(),
{
    if rows.len() == 0 {
        -1
    } else if rows.last().0 == ns && rows.last().1 == v {
        rows.len() - 1
    } else {
        index_of(rows.drop_last(), ns, v)
    }
}

/// The record stored for (`ns`, `v`).
pub open spec fn lookup(rows: Seq<Row>, ns: Seq<u8>, v: Seq<u8>) -> Option<Record> {
    let i = index_of(rows, ns, v);
    if 0 <= i {
        Some(rows[i].2)
    } else {
        None
    }
}

/// The values and records under `ns`, in insertion order.
pub open spec fn namespace_rows(rows: Seq<Row>, ns: Seq<u8>) -> Seq<(Seq<u8>, Record)>
    decreases rows.len(),
{
    if rows.len() == 0 {
        seq![]
    } else {
        let rest = namespace_rows(rows.drop_last(), ns);
        if rows.last().0 == ns {
            rest.push((rows.last().1, rows.last().2))
        } else {
            rest
        }
    }
}

/// Whether no two rows share a namespace and a value.
pub open spec fn keys_unique(rows: Seq<Row>) -> bool {
    forall|i: int, j: int|
        0 <= i < j < rows.len() ==> !(#[trigger] rows[i].0 == #[trigger] rows[j].0 && rows[i].1
            == rows[j].1)
}

/// Whether any row lies under `ns`.
pub open spec fn has_namespace(rows: Seq<Row>, ns: Seq<u8>) -> bool {
    exists|i: int| 0 <= i < rows.len() && #[trigger] rows[i].0 == ns
}

/// The rows that do not lie under `ns`, in their order.
pub open spec fn without_namespace(rows: Seq<Row>, ns: Seq<u8>) -> Seq<Row>
    decreases rows.len(),
{
    if rows.len() == 0 {
        seq![]
    } else {
        let rest = without_namespace(rows.drop_last(), ns);
        if rows.last().0 == ns {
            rest
        } else {
            rest.push(rows.last())
        }
    }
}

/// Whether a write to (`ns`, `v`) is counted.
pub open spec fn write_succeeds(
    rows: Seq<Row>,
    ns: Seq<u8>,
    v: Seq<u8>,
    t: u64,
    period: u64,
    suppress_shadow: bool,
) -> bool {
    let i = index_of(rows, ns, v);
    i < 0 || can_bump(rows[i].2, t, period, suppress_shadow)
}

/// The rows after a write to (`ns`, `v`) at `t`.
pub open spec fn write_rows(
    rows: Seq<Row>,
    ns: Seq<u8>,
    v: Seq<u8>,
    t: u64,
    period: u64,
    suppress_shadow: bool,
) -> Seq<Row> {
    let i = index_of(rows, ns, v);
    if i < 0 {
        rows.push((ns, v, fresh(t, period)))
    } else if can_bump(rows[i].2, t, period, suppress_shadow) {
        rows.update(i, (ns, v, bumped(rows[i].2, t, period, suppress_shadow)))
    } else {
        rows
    }
}

/// The rows with the record of (`ns`, `v`) set to `rec`.
pub open spec fn put_rows(rows: Seq<Row>, ns: Seq<u8>, v: Seq<u8>, rec: Record) -> Seq<Row> {
    let i = index_of(rows, ns, v);
    if i < 0 {
        rows.push((ns, v, rec))
    } else {
        rows.update(i, (ns, v, rec))
    }
}

/// One `Put` per row, in order: the log of a compacted database.
pub open spec fn snapshot_ops(rows: Seq<Row>) -> Seq<OpView> {
    Seq::new(
        rows.len(),
        |i: int| OpView::Put { namespace: rows[i].0, value: rows[i].1, record: rows[i].2 },
    )
}

/// Whether applying `op` changes anything.
pub open spec fn op_changes(rows: Seq<Row>, period: u64, op: OpView) -> bool {
    match op {
        OpView::Write { namespace, value, timestamp, suppress_shadow } => write_succeeds(
            rows,
            namespace,
            value,
            timestamp,
            period,
            suppress_shadow,
        ),
        OpView::Delete { namespace } => has_namespace(rows, namespace),
        OpView::Put { .. } => true,
    }
}

/// The rows after `op`.
pub open spec fn apply_op(rows: Seq<Row>, period: u64, op: OpView) -> Seq<Row> {
    match op {
        OpView::Write { namespace, value, timestamp, suppress_shadow } => write_rows(
            rows,
            namespace,
            value,
            timestamp,
            period,
            suppress_shadow,
        ),
        OpView::Delete { namespace } => without_namespace(rows, namespace),
        OpView::Put { namespace, value, record } => put_rows(rows, namespace, value, record),
    }
}

/// The rows that applying `ops` in order to an empty database gives.
pub open spec fn replay(period: u64, ops: Seq<OpView>) -> Seq<Row>
    decreases ops.len(),
{
    if ops.len() == 0 {
        seq![]
    } else {
        apply_op(replay(period, ops.drop_last()), period, ops.last())
    }
}

pub proof fn lemma_index_of(rows: Seq<Row>, ns: Seq<u8>, v: Seq<u8>)
    ensures
        -1 <= index_of(rows, ns, v) < rows.len(),
        0 <= index_of(rows, ns, v) ==> rows[index_of(rows, ns, v)].0 == ns && rows[index_of(
            rows,
            ns,
            v,
        )].1 == v,
        index_of(rows, ns, v) == -1 ==> forall|j: int|
            0 <= j < rows.len() ==> !(#[trigger] rows[j].0 == ns && rows[j].1 == v),
    decreases rows.len(),
{
    if rows.len() > 0 {
        lemma_index_of(rows.drop_last(), ns, v);
        if index_of(rows, ns, v) == -1 {
            assert forall|j: int| 0 <= j < rows.len() implies !(#[trigger] rows[j].0 == ns
                && rows[j].1 == v) by {
                if j < rows.len() - 1 {
                    assert(rows.drop_last()[j] == rows[j]);
                }
            }
        }
    }
}

/// An update that keeps the key of a row keeps every lookup position.
pub proof fn lemma_index_of_update(rows: Seq<Row>, i: int, row: Row, ns: Seq<u8>, v: Seq<u8>)
    requires
        0 <= i < rows.len(),
        rows[i].0 == row.0,
        rows[i].1 == row.1,
    ensures
        index_of(rows.update(i, row), ns, v) == index_of(rows, ns, v),
    decreases rows.len(),
{
    let r2 = rows.update(i, row);
    if i < rows.len() - 1 {
        assert(r2.drop_last() =~= rows.drop_last().update(i, row));
        lemma_index_of_update(rows.drop_last(), i, row, ns, v);
    } else {
        assert(r2.drop_last() =~= rows.drop_last());
    }
}

/// Copies of one sighting handed out by a namespace listing.
pub struct Sighting {
    pub value: Vec<u8>,
    pub record: Record,
}

impl View for Sighting {
    type V = (Seq<u8>, Record);

    open spec fn view(&self) -> (Seq<u8>, Record) {
        (self.value@, self.record)
    }
}

/// The in-memory index of all sightings, with the log of the mutations that built it.
pub struct Database {
    namespaces: Vec<Vec<u8>>,
    values: Vec<Vec<u8>>,
    records: Vec<Record>,
    decay_period: u64,
    log: Vec<u8>,
    ops: Ghost<Seq<OpView>>,
}

impl View for Database {
    type V = Seq<Row>;

    closed spec fn view(&self) -> Seq<Row> {
        Seq::new(
            self.records@.len(),
            |i: int| (self.namespaces@[i]@, self.values@[i]@, self.records@[i]),
        )
    }
}

impl Database {
    /// Length of each decay period; zero turns decay off.
    pub closed spec fn period(&self) -> u64 {
        self.decay_period
    }

    /// The bytes of the durability log.
    pub closed spec fn log_view(&self) -> Seq<u8> {
        self.log@
    }

    /// The mutations recorded in the log, in order.
    pub closed spec fn logged_ops(&self) -> Seq<OpView> {
        self.ops@
    }

    /// The log holds the frames of the recorded mutations, and replaying
    /// those gives the present rows.
    pub closed spec fn wf(&self) -> bool {
        &&& self.namespaces@.len() == self.records@.len()
        &&& self.values@.len() == self.records@.len()
        &&& self.log@ == encode_all(self.ops@)
        &&& replay(self.decay_period, self.ops@) == self@
        &&& forall|i: int| 0 <= i < self.ops@.len() ==> op_fits(#[trigger] self.ops@[i])
    }

    /// An empty database whose records decay every `decay_period` time units.
    pub fn new(decay_period: u64) -> (r: Database)
        ensures
            r.wf(),
            r@ == Seq::<Row>::empty(),
            r.period() == decay_period,
            r.log_view() == Seq::<u8>::empty(),
    {
        let r = Database {
            namespaces: Vec::new(),
            values: Vec::new(),
            records: Vec::new(),
            decay_period,
            log: Vec::new(),
            ops: Ghost(Seq::empty()),
        };
        assert(r@ =~= Seq::<Row>::empty());
        r
    }

    /// Number of stored records.
    pub fn len(&self) -> (r: usize)
        requires
            self.wf(),
        ensures
            r == self@.len(),
    {
        self.records.len()
    }

    /// Namespace and value of the record at position `i`.
    pub fn key_at(&self, i: usize) -> (r: (&[u8], &[u8]))
        requires
            self.wf(),
            i < self@.len(),
        ensures
            r.0@ == self@[i as int].0,
            r.1@ == self@[i as int].1,
    {
        (self.namespaces[i].as_slice(), self.values[i].as_slice())
    }

    pub fn decay_period(&self) -> (r: u64)
        ensures
            r == self.period(),
    {
        self.decay_period
    }

    /// The bytes of the durability log, one frame per committed mutation.
    pub fn log_bytes(&self) -> (r: &Vec<u8>)
        ensures
            r@ == self.log_view(),
    {
        &self.log
    }

    fn find(&self, ns: &[u8], v: &[u8]) -> (r: Option<usize>)
        requires
            self.wf(),
        ensures
            r matches Some(i) ==> index_of(self@, ns@, v@) == i as int,
            r is None ==> index_of(self@, ns@, v@) == -1,
    {
        let mut i: usize = self.records.len();
        assert(self@.subrange(0, i as int) =~= self@);
        while i > 0
            invariant
                self.wf(),
                0 <= i <= self@.len(),
                index_of(self@, ns@, v@) == index_of(self@.subrange(0, i as int), ns@, v@),
            decreases i,
        {
            let ghost sub = self@.subrange(0, i as int);
            assert(sub.last() == self@[i - 1]);
            assert(sub.drop_last() =~= self@.subrange(0, i - 1));
            if bytes_eq(self.namespaces[i - 1].as_slice(), ns) && bytes_eq(
                self.values[i - 1].as_slice(),
                v,
            ) {
                return Some(i - 1);
            }
            i = i - 1;
        }
        None
    }

    /// The record stored for (`ns`, `v`); no side effect.
    pub fn read(&self, ns: &[u8], v: &[u8]) -> (r: Option<Record>)
        requires
            self.wf(),
        ensures
            r == lookup(self@, ns@, v@),
    {
        proof {
            lemma_index_of(self@, ns@, v@);
        }
        match self.find(ns, v) {
            Some(i) => Some(self.records[i]),
            None => None,
        }
    }

    /// Whether any record lies under `ns`.
    pub fn namespace_exists(&self, ns: &[u8]) -> (r: bool)
        requires
            self.wf(),
        ensures
            r == has_namespace(self@, ns@),
    {
        let mut i: usize = 0;
        while i < self.records.len()
            invariant
                self.wf(),
                0 <= i <= self@.len(),
                forall|j: int| 0 <= j < i ==> self@[j].0 != ns@,
            decreases self@.len() - i,
        {
            if bytes_eq(self.namespaces[i].as_slice(), ns) {
                assert(self@[i as int].0 == ns@);
                return true;
            }
            i = i + 1;
        }
        assert(!has_namespace(self@, ns@));
        false
    }

    /// The values and records under `ns`, in insertion order.
    pub fn read_namespace(&self, ns: &[u8]) -> (r: Vec<Sighting>)
        requires
            self.wf(),
        ensures
            r@.map_values(|s: Sighting| s@) == namespace_rows(self@, ns@),
    {
        let mut out: Vec<Sighting> = Vec::new();
        let mut i: usize = 0;
        while i < self.records.len()
            invariant
                self.wf(),
                0 <= i <= self@.len(),
                out@.map_values(|s: Sighting| s@) == namespace_rows(
                    self@.subrange(0, i as int),
                    ns@,
                ),
            decreases self@.len() - i,
        {
            let ghost sub = self@.subrange(0, i as int + 1);
            assert(sub.drop_last() =~= self@.subrange(0, i as int));
            assert(sub.last() == self@[i as int]);
            if bytes_eq(self.namespaces[i].as_slice(), ns) {
                let value = vstd::slice::slice_to_vec(self.values[i].as_slice());
                let ghost before = out@;
                out.push(Sighting { value, record: self.records[i] });
                assert(out@.map_values(|s: Sighting| s@) =~= before.map_values(|s: Sighting| s@).push(
                    (self@[i as int].1, self@[i as int].2),
                ));
            }
            i = i + 1;
        }
        assert(self@.subrange(0, self@.len() as int) =~= self@);
        out
    }

    /// Records `op` in the log.
    fn record_op(&mut self, op: &LogOp)
        requires
            old(self).log@ == encode_all(old(self).ops@),
            forall|i: int| 0 <= i < old(self).ops@.len() ==> op_fits(#[trigger] old(self).ops@[i]),
        ensures
            forall|i: int| 0 <= i < final(self).ops@.len() ==> op_fits(#[trigger] final(self).ops@[i]),
            final(self).log@ == encode_all(final(self).ops@),
            replay(final(self).decay_period, final(self).ops@) == apply_op(
                replay(old(self).decay_period, old(self).ops@),
                old(self).decay_period,
                op@,
            ),
            final(self).log@ == old(self).log@ + encode(op@),
            final(self).ops@ == old(self).ops@.push(op@),
            final(self).namespaces == old(self).namespaces,
            final(self).values == old(self).values,
            final(self).records == old(self).records,
            final(self).decay_period == old(self).decay_period,
    {
        encode_op(&mut self.log, op);
        self.ops = Ghost(self.ops@.push(op@));
        proof {
            lemma_pow256_8();
            match op {
                LogOp::Write { namespace, value, .. } => {
                    assert(namespace@.len() == namespace.len() && value@.len() == value.len());
                },
                LogOp::Delete { namespace } => {
                    assert(namespace@.len() == namespace.len());
                },
                LogOp::Put { namespace, value, .. } => {
                    assert(namespace@.len() == namespace.len() && value@.len() == value.len());
                },
            }
            assert(op_fits(self.ops@[self.ops@.len() - 1]));
            assert forall|i: int| 0 <= i < self.ops@.len() implies op_fits(#[trigger] self.ops@[i]) by {
                if i < old(self).ops@.len() {
                    assert(self.ops@[i] == old(self).ops@[i]);
                }
            }
            assert(self.ops@.drop_last() =~= old(self).ops@);
            assert(encode_all(self.ops@) == encode_all(old(self).ops@) + encode(op@));
        }
    }

    /// Counts one sighting of `v` under `ns` at time `t`, rotating the count
    /// into the shadow slot when a decay boundary was crossed (unless
    /// `suppress_shadow`). Returns false, changing nothing, where the count
    /// would overflow.
    pub fn write(&mut self, ns: &[u8], v: &[u8], t: u64, suppress_shadow: bool) -> (r: bool)
        requires
            old(self).wf(),
        ensures
            final(self).wf(),
            r == write_succeeds(old(self)@, ns@, v@, t, old(self).period(), suppress_shadow),
            final(self)@ == write_rows(old(self)@, ns@, v@, t, old(self).period(), suppress_shadow),
            final(self).period() == old(self).period(),
            final(self).log_view() == old(self).log_view() + (if r {
                encode(OpView::Write { namespace: ns@, value: v@, timestamp: t, suppress_shadow })
            } else {
                Seq::empty()
            }),
    {
        proof {
            lemma_index_of(self@, ns@, v@);
        }
        let ghost rows = self@;
        let op = LogOp::Write {
            namespace: vstd::slice::slice_to_vec(ns),
            value: vstd::slice::slice_to_vec(v),
            timestamp: t,
            suppress_shadow,
        };
        match self.find(ns, v) {
            Some(i) => {
                match self.records[i].bump(t, self.decay_period, suppress_shadow) {
                    Some(rec) => {
                        self.records.set(i, rec);
                        self.record_op(&op);
                        assert(self@ =~= rows.update(i as int, (ns@, v@, rec)));
                        true
                    },
                    None => {
                        assert(self@ =~= rows);
                        false
                    },
                }
            },
            None => {
                self.namespaces.push(vstd::slice::slice_to_vec(ns));
                self.values.push(vstd::slice::slice_to_vec(v));
                self.records.push(Record::first(t, self.decay_period));
                self.record_op(&op);
                assert(self@ =~= rows.push((ns@, v@, fresh(t, self.decay_period))));
                true
            },
        }
    }
    /// Removes every record under `ns`; returns whether there was any.
    pub fn delete(&mut self, ns: &[u8]) -> (r: bool)
        requires
            old(self).wf(),
        ensures
            final(self).wf(),
            r == has_namespace(old(self)@, ns@),
            final(self)@ == without_namespace(old(self)@, ns@),
            final(self).period() == old(self).period(),
            final(self).log_view() == old(self).log_view() + (if r {
                encode(OpView::Delete { namespace: ns@ })
            } else {
                Seq::empty()
            }),
    {
        if !self.namespace_exists(ns) {
            proof {
                lemma_without_absent(self@, ns@);
            }
            return false;
        }
        let ghost rows = self@;
        let mut namespaces: Vec<Vec<u8>> = Vec::new();
        let mut values: Vec<Vec<u8>> = Vec::new();
        let mut records: Vec<Record> = Vec::new();
        let mut i: usize = 0;
        while i < self.records.len()
            invariant
                self.wf(),
                self@ == rows,
                0 <= i <= rows.len(),
                namespaces@.len() == records@.len(),
                values@.len() == records@.len(),
                Seq::new(
                    records@.len(),
                    |k: int| (namespaces@[k]@, values@[k]@, records@[k]),
                ) == without_namespace(rows.subrange(0, i as int), ns@),
            decreases rows.len() - i,
        {
            let ghost sub = rows.subrange(0, i as int + 1);
            assert(sub.drop_last() =~= rows.subrange(0, i as int));
            assert(sub.last() == rows[i as int]);
            let ghost before = Seq::new(
                records@.len(),
                |k: int| (namespaces@[k]@, values@[k]@, records@[k]),
            );
            if !bytes_eq(self.namespaces[i].as_slice(), ns) {
                namespaces.push(vstd::slice::slice_to_vec(self.namespaces[i].as_slice()));
                values.push(vstd::slice::slice_to_vec(self.values[i].as_slice()));
                records.push(self.records[i]);
                assert(Seq::new(
                    records@.len(),
                    |k: int| (namespaces@[k]@, values@[k]@, records@[k]),
                ) =~= before.push(rows[i as int]));
            }
            i = i + 1;
        }
        assert(rows.subrange(0, rows.len() as int) =~= rows);
        self.namespaces = namespaces;
        self.values = values;
        self.records = records;
        let op = LogOp::Delete { namespace: vstd::slice::slice_to_vec(ns) };
        self.record_op(&op);
        assert(self@ =~= without_namespace(rows, ns@));
        true
    }

    /// Applies `op`, recording it in the log where it changes anything;
    /// returns whether it did.
    pub fn apply(&mut self, op: &LogOp) -> (r: bool)
        requires
            old(self).wf(),
        ensures
            final(self).wf(),
            r == op_changes(old(self)@, old(self).period(), op@),
            final(self)@ == apply_op(old(self)@, old(self).period(), op@),
            final(self).period() == old(self).period(),
            final(self).log_view() == old(self).log_view() + (if r {
                encode(op@)
            } else {
                Seq::empty()
            }),
    {
        match op {
            LogOp::Write { namespace, value, timestamp, suppress_shadow } => self.write(
                namespace.as_slice(),
                value.as_slice(),
                *timestamp,
                *suppress_shadow,
            ),
            LogOp::Delete { namespace } => self.delete(namespace.as_slice()),
            LogOp::Put { namespace, value, record } => {
                self.put(namespace.as_slice(), value.as_slice(), *record);
                true
            },
        }
    }

    /// Sets the record of (`ns`, `v`) to `rec`, adding the pair if it is new.
    fn put(&mut self, ns: &[u8], v: &[u8], rec: Record)
        requires
            old(self).wf(),
        ensures
            final(self).wf(),
            final(self)@ == put_rows(old(self)@, ns@, v@, rec),
            final(self).period() == old(self).period(),
            final(self).log_view() == old(self).log_view() + encode(
                OpView::Put { namespace: ns@, value: v@, record: rec },
            ),
            final(self).logged_ops() == old(self).logged_ops().push(
                OpView::Put { namespace: ns@, value: v@, record: rec },
            ),
    {
        proof {
            lemma_index_of(self@, ns@, v@);
        }
        let ghost rows = self@;
        let op = LogOp::Put {
            namespace: vstd::slice::slice_to_vec(ns),
            value: vstd::slice::slice_to_vec(v),
            record: rec,
        };
        match self.find(ns, v) {
            Some(i) => {
                self.records.set(i, rec);
                self.record_op(&op);
                assert(self@ =~= rows.update(i as int, (ns@, v@, rec)));
            },
            None => {
                self.namespaces.push(vstd::slice::slice_to_vec(ns));
                self.values.push(vstd::slice::slice_to_vec(v));
                self.records.push(rec);
                self.record_op(&op);
                assert(self@ =~= rows.push((ns@, v@, rec)));
            },
        }
    }

    /// A database with the same records, in the same order, whose log is a
    /// snapshot: one frame per record, so that a restart replays no more than
    /// the present state.
    pub fn compact(&self) -> (r: Database)
        requires
            self.wf(),
        ensures
            r.wf(),
            r@ == self@,
            r.period() == self.period(),
            r.logged_ops() == snapshot_ops(self@),
            r.log_view() == encode_all(snapshot_ops(self@)),
    {
        proof {
            lemma_keys_unique(self);
        }
        let mut out = Database::new(self.decay_period);
        let mut i: usize = 0;
        while i < self.records.len()
            invariant
                self.wf(),
                keys_unique(self@),
                out.wf(),
                out.period() == self.period(),
                0 <= i <= self@.len(),
                out@ == self@.subrange(0, i as int),
                out.logged_ops() == snapshot_ops(self@.subrange(0, i as int)),
            decreases self@.len() - i,
        {
            let ghost row = self@[i as int];
            let ghost before = out@;
            proof {
                lemma_index_of(before, row.0, row.1);
                if index_of(before, row.0, row.1) >= 0 {
                    let j = index_of(before, row.0, row.1);
                    assert(before[j] == self@[j]);
                }
            }
            out.put(self.namespaces[i].as_slice(), self.values[i].as_slice(), self.records[i]);
            assert(out@ =~= self@.subrange(0, i as int + 1));
            assert(out.logged_ops() =~= snapshot_ops(self@.subrange(0, i as int + 1)));
            i = i + 1;
        }
        assert(self@.subrange(0, self@.len() as int) =~= self@);
        out
    }

    /// Rebuilds a database from the bytes of a log, applying each whole
    /// frame in order to an empty database; a cut-short final frame is left
    /// out. A malformed frame refuses the whole log, giving its position.
    pub fn replay_log(bytes: &[u8], decay_period: u64) -> (r: Result<Database, usize>)
        ensures
            match r {
                Ok(db) => {
                    &&& log_intact(bytes@)
                    &&& db.wf()
                    &&& db.period() == decay_period
                    &&& db@ == replay(decay_period, decode_all(bytes@))
                },
                Err(pos) => !log_intact(bytes@) && pos <= bytes@.len() && decode_rest(bytes@)
                    == bytes@.subrange(pos as int, bytes@.len() as int),
            },
    {
        let ops = match decode_log(bytes) {
            Ok(ops) => ops,
            Err(pos) => {
                return Err(pos);
            },
        };
        let ghost views = ops@.map_values(|op: LogOp| op@);
        let mut db = Database::new(decay_period);
        let mut i: usize = 0;
        while i < ops.len()
            invariant
                db.wf(),
                db.period() == decay_period,
                views == ops@.map_values(|op: LogOp| op@),
                0 <= i <= ops@.len(),
                db@ == replay(decay_period, views.subrange(0, i as int)),
            decreases ops@.len() - i,
        {
            assert(views.subrange(0, i as int + 1).drop_last() =~= views.subrange(0, i as int));
            assert(views.subrange(0, i as int + 1).last() == ops@[i as int]@);
            db.apply(&ops[i]);
            i = i + 1;
        }
        assert(views.subrange(0, ops@.len() as int) =~= views);
        Ok(db)
    }
}

/// Replaying the log of a database, as a restart does, gives back the same
/// records in the same order.
pub proof fn lemma_restart(db: &Database)
    requires
        db.wf(),
    ensures
        log_intact(db.log_view()),
        replay(db.period(), decode_all(db.log_view())) == db@,
{
    lemma_decode_encode_all(db.ops@, Seq::empty());
    lemma_rest_encode_all(db.ops@, Seq::empty());
    assert(decode_rest(Seq::<u8>::empty()) =~= Seq::<u8>::empty());
    assert(encode_all(db.ops@) + Seq::<u8>::empty() =~= encode_all(db.ops@));
    assert(decode_all(Seq::<u8>::empty()) =~= Seq::<OpView>::empty());
    assert(db.ops@ + Seq::<OpView>::empty() =~= db.ops@);
}

/// A restart from a log whose last frame was cut short by a crash during
/// the append gives back the state from before that frame.
pub proof fn lemma_restart_torn(db: &Database, op: OpView, k: int)
    requires
        db.wf(),
        op_fits(op),
        0 <= k < encode(op).len(),
    ensures
        log_intact(db.log_view() + encode(op).subrange(0, k)),
        replay(db.period(), decode_all(db.log_view() + encode(op).subrange(0, k))) == db@,
{
    lemma_torn_tail(db.ops@, op, k);
}

/// Each row of `without_namespace(rows, ns)` is a row of `rows`.
pub proof fn lemma_without_members(rows: Seq<Row>, ns: Seq<u8>)
    ensures
        forall|a: int|
            0 <= a < without_namespace(rows, ns).len() ==> exists|j: int|
                0 <= j < rows.len() && #[trigger] without_namespace(rows, ns)[a] == rows[j],
    decreases rows.len(),
{
    if rows.len() > 0 {
        lemma_without_members(rows.drop_last(), ns);
        let rest = without_namespace(rows.drop_last(), ns);
        let w = without_namespace(rows, ns);
        assert forall|a: int| 0 <= a < w.len() implies exists|j: int|
            0 <= j < rows.len() && #[trigger] w[a] == rows[j] by {
            if a < rest.len() {
                let j = choose|j: int| 0 <= j < rows.drop_last().len() && rest[a] == rows.drop_last()[j];
                assert(w[a] == rows[j]);
            } else {
                assert(w[a] == rows[rows.len() - 1]);
            }
        }
    }
}

/// Deleting a namespace keeps the keys unique.
pub proof fn lemma_without_unique(rows: Seq<Row>, ns: Seq<u8>)
    requires
        keys_unique(rows),
    ensures
        keys_unique(without_namespace(rows, ns)),
    decreases rows.len(),
{
    if rows.len() > 0 {
        let front = rows.drop_last();
        assert(keys_unique(front)) by {
            assert forall|i: int, j: int| 0 <= i < j < front.len() implies !(#[trigger] front[i].0
                == #[trigger] front[j].0 && front[i].1 == front[j].1) by {
                assert(front[i] == rows[i] && front[j] == rows[j]);
            }
        }
        lemma_without_unique(front, ns);
        lemma_without_members(front, ns);
        let rest = without_namespace(front, ns);
        let w = without_namespace(rows, ns);
        if rows.last().0 != ns {
            assert forall|i: int, j: int| 0 <= i < j < w.len() implies !(#[trigger] w[i].0
                == #[trigger] w[j].0 && w[i].1 == w[j].1) by {
                if j == rest.len() {
                    let k = choose|k: int| 0 <= k < front.len() && #[trigger] rest[i] == front[k];
                    assert(rest[i] == rows[k]);
                    assert(w[j] == rows[rows.len() - 1]);
                } else {
                    assert(w[i] == rest[i] && w[j] == rest[j]);
                }
            }
        }
    }
}

/// A write keeps the keys unique.
pub proof fn lemma_write_unique(
    rows: Seq<Row>,
    ns: Seq<u8>,
    v: Seq<u8>,
    t: u64,
    period: u64,
    suppress_shadow: bool,
)
    requires
        keys_unique(rows),
    ensures
        keys_unique(write_rows(rows, ns, v, t, period, suppress_shadow)),
{
    lemma_index_of(rows, ns, v);
    let w = write_rows(rows, ns, v, t, period, suppress_shadow);
    let i = index_of(rows, ns, v);
    assert forall|a: int, b: int| 0 <= a < b < w.len() implies !(#[trigger] w[a].0
        == #[trigger] w[b].0 && w[a].1 == w[b].1) by {
        if i < 0 {
            if b == rows.len() {
                assert(!(rows[a].0 == ns && rows[a].1 == v));
            }
        } else {
            assert(w[a].0 == rows[a].0 && w[a].1 == rows[a].1);
            assert(w[b].0 == rows[b].0 && w[b].1 == rows[b].1);
        }
    }
}

/// Setting a record keeps the keys unique.
pub proof fn lemma_put_unique(rows: Seq<Row>, ns: Seq<u8>, v: Seq<u8>, rec: Record)
    requires
        keys_unique(rows),
    ensures
        keys_unique(put_rows(rows, ns, v, rec)),
{
    lemma_index_of(rows, ns, v);
    let w = put_rows(rows, ns, v, rec);
    let i = index_of(rows, ns, v);
    assert forall|a: int, b: int| 0 <= a < b < w.len() implies !(#[trigger] w[a].0
        == #[trigger] w[b].0 && w[a].1 == w[b].1) by {
        if i < 0 {
            if b == rows.len() {
                assert(!(rows[a].0 == ns && rows[a].1 == v));
            }
        } else {
            assert(w[a].0 == rows[a].0 && w[a].1 == rows[a].1);
            assert(w[b].0 == rows[b].0 && w[b].1 == rows[b].1);
        }
    }
}

/// Replaying any mutations gives rows with unique keys.
pub proof fn lemma_replay_unique(period: u64, ops: Seq<OpView>)
    ensures
        keys_unique(replay(period, ops)),
    decreases ops.len(),
{
    if ops.len() > 0 {
        lemma_replay_unique(period, ops.drop_last());
        let before = replay(period, ops.drop_last());
        match ops.last() {
            OpView::Write { namespace, value, timestamp, suppress_shadow } => {
                lemma_write_unique(before, namespace, value, timestamp, period, suppress_shadow);
            },
            OpView::Delete { namespace } => {
                lemma_without_unique(before, namespace);
            },
            OpView::Put { namespace, value, record } => {
                lemma_put_unique(before, namespace, value, record);
            },
        }
    }
}

/// No two records of a database share a namespace and a value, so a
/// namespace listing names each value once.
pub proof fn lemma_keys_unique(db: &Database)
    requires
        db.wf(),
    ensures
        keys_unique(db@),
{
    lemma_replay_unique(db.period(), db.logged_ops());
}

/// Nothing is removed from a namespace that holds no row.
pub proof fn lemma_without_absent(rows: Seq<Row>, ns: Seq<u8>)
    requires
        !has_namespace(rows, ns),
    ensures
        without_namespace(rows, ns) == rows,
    decreases rows.len(),
{
    if rows.len() > 0 {
        assert(!has_namespace(rows.drop_last(), ns)) by {
            if has_namespace(rows.drop_last(), ns) {
                let j = choose|j: int|
                    0 <= j < rows.drop_last().len() && #[trigger] rows.drop_last()[j].0 == ns;
                assert(rows[j].0 == ns);
            }
        }
        lemma_without_absent(rows.drop_last(), ns);
        assert(rows.last().0 != ns) by {
            assert(rows[rows.len() - 1].0 != ns);
        }
        assert(rows.drop_last().push(rows.last()) =~= rows);
    }
}

/// After a delete no row lies under the namespace: a listing of it is empty,
/// and a second delete of it finds nothing.
pub proof fn lemma_delete_empties(rows: Seq<Row>, ns: Seq<u8>)
    ensures
        namespace_rows(without_namespace(rows, ns), ns) == Seq::<(Seq<u8>, Record)>::empty(),
        !has_namespace(without_namespace(rows, ns), ns),
    decreases rows.len(),
{
    if rows.len() > 0 {
        lemma_delete_empties(rows.drop_last(), ns);
        let rest = without_namespace(rows.drop_last(), ns);
        if rows.last().0 != ns {
            let w = rest.push(rows.last());
            assert(w.drop_last() =~= rest);
            assert(!has_namespace(w, ns)) by {
                if has_namespace(w, ns) {
                    let j = choose|j: int| 0 <= j < w.len() && #[trigger] w[j].0 == ns;
                    if j < rest.len() {
                        assert(rest[j].0 == ns);
                    }
                }
            }
        }
    }
}

/// A write followed by a read of the same pair gives the written record:
/// created fresh on the first write, otherwise counted on top of the
/// previous record (with `first_seen` kept and `last_seen` set to `t`).
pub proof fn lemma_read_after_write(
    rows: Seq<Row>,
    ns: Seq<u8>,
    v: Seq<u8>,
    t: u64,
    period: u64,
    suppress_shadow: bool,
)
    requires
        write_succeeds(rows, ns, v, t, period, suppress_shadow),
    ensures
        lookup(write_rows(rows, ns, v, t, period, suppress_shadow), ns, v) == (match lookup(
            rows,
            ns,
            v,
        ) {
            Some(old_rec) => Some(bumped(old_rec, t, period, suppress_shadow)),
            None => Some(fresh(t, period)),
        }),
{
    lemma_index_of(rows, ns, v);
    let i = index_of(rows, ns, v);
    let w = write_rows(rows, ns, v, t, period, suppress_shadow);
    if i < 0 {
        assert(w.drop_last() =~= rows);
    } else {
        lemma_index_of_update(rows, i, (ns, v, bumped(rows[i].2, t, period, suppress_shadow)), ns, v);
    }
}

/// After a write to a pair, the pair has a record, whether or not the write was counted.
pub proof fn lemma_write_present(
    rows: Seq<Row>,
    ns: Seq<u8>,
    v: Seq<u8>,
    t: u64,
    period: u64,
    suppress_shadow: bool,
)
    ensures
        lookup(write_rows(rows, ns, v, t, period, suppress_shadow), ns, v) is Some,
{
    lemma_index_of(rows, ns, v);
    if write_succeeds(rows, ns, v, t, period, suppress_shadow) {
        lemma_read_after_write(rows, ns, v, t, period, suppress_shadow);
    }
}

/// A write never removes a record.
pub proof fn lemma_write_keeps_present(
    rows: Seq<Row>,
    ns: Seq<u8>,
    v: Seq<u8>,
    t: u64,
    period: u64,
    suppress_shadow: bool,
    ns2: Seq<u8>,
    v2: Seq<u8>,
)
    requires
        lookup(rows, ns2, v2) is Some,
    ensures
        lookup(write_rows(rows, ns, v, t, period, suppress_shadow), ns2, v2) is Some,
{
    if ns == ns2 && v == v2 {
        lemma_write_present(rows, ns, v, t, period, suppress_shadow);
    } else {
        lemma_write_keeps_others(rows, ns, v, t, period, suppress_shadow, ns2, v2);
    }
}

/// The rows after writes to (`ns`, `v`) at each time of `ts` in turn.
pub open spec fn write_each(rows: Seq<Row>, ns: Seq<u8>, v: Seq<u8>, ts: Seq<u64>, period: u64) -> Seq<
    Row,
>
    decreases ts.len(),
{
    if ts.len() == 0 {
        rows
    } else {
        write_rows(write_each(rows, ns, v, ts.drop_last(), period), ns, v, ts.last(), period, false)
    }
}

/// Over any number of counted writes to a new pair, `first_seen` stays the
/// time of the first write and `last_seen` is the time of the latest.
pub proof fn lemma_first_last_seen(rows: Seq<Row>, ns: Seq<u8>, v: Seq<u8>, ts: Seq<u64>, period: u64)
    requires
        lookup(rows, ns, v) is None,
        ts.len() >= 1,
        forall|j: int|
            0 <= j < ts.len() ==> write_succeeds(
                #[trigger] write_each(rows, ns, v, ts.subrange(0, j), period),
                ns,
                v,
                ts[j],
                period,
                false,
            ),
    ensures
        lookup(write_each(rows, ns, v, ts, period), ns, v) is Some,
        lookup(write_each(rows, ns, v, ts, period), ns, v).unwrap().first_seen == ts[0],
        lookup(write_each(rows, ns, v, ts, period), ns, v).unwrap().last_seen == ts.last(),
    decreases ts.len(),
{
    let front = ts.drop_last();
    let j = ts.len() - 1;
    assert(ts.subrange(0, j) =~= front);
    let before = write_each(rows, ns, v, front, period);
    assert(write_succeeds(before, ns, v, ts[j], period, false));
    lemma_read_after_write(before, ns, v, ts.last(), period, false);
    if ts.len() == 1 {
        assert(front.len() == 0);
    } else {
        assert forall|k: int| 0 <= k < front.len() implies write_succeeds(
            #[trigger] write_each(rows, ns, v, front.subrange(0, k), period),
            ns,
            v,
            front[k],
            period,
            false,
        ) by {
            assert(front.subrange(0, k) =~= ts.subrange(0, k));
            assert(write_succeeds(write_each(rows, ns, v, ts.subrange(0, k), period), ns, v, ts[k], period, false));
        }
        lemma_first_last_seen(rows, ns, v, front, period);
    }
}

/// A write leaves every other pair's record as it was.
pub proof fn lemma_write_keeps_others(
    rows: Seq<Row>,
    ns: Seq<u8>,
    v: Seq<u8>,
    t: u64,
    period: u64,
    suppress_shadow: bool,
    ns2: Seq<u8>,
    v2: Seq<u8>,
)
    requires
        ns != ns2 || v != v2,
    ensures
        lookup(write_rows(rows, ns, v, t, period, suppress_shadow), ns2, v2) == lookup(
            rows,
            ns2,
            v2,
        ),
{
    lemma_index_of(rows, ns, v);
    lemma_index_of(rows, ns2, v2);
    let i = index_of(rows, ns, v);
    let w = write_rows(rows, ns, v, t, period, suppress_shadow);
    if i < 0 {
        assert(w.drop_last() =~= rows);
    } else if can_bump(rows[i].2, t, period, suppress_shadow) {
        lemma_index_of_update(rows, i, (ns, v, bumped(rows[i].2, t, period, suppress_shadow)), ns2, v2);
        let j = index_of(rows, ns2, v2);
        if j >= 0 {
            assert(j != i);
        }
    }
}

} // verus!
