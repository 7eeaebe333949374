use vstd::prelude::*;
use vstd::string::StringSliceAdditionalSpecFns;
use vstd::utf8::encode_utf8;

pub mod acl;
pub mod bytes;
pub mod db;
pub mod journal;
pub mod record;
pub mod transport;

use crate::acl::{
    lemma_write_keeps_rights, allowed, can_access, grant_value, grant_value_bytes, key_namespace, key_namespace_bytes, Access,
};
use crate::db::{
    has_namespace, lookup, namespace_rows, without_namespace, write_rows, write_succeeds, Database,
    Row, Sighting,
};
use crate::journal::{encode, OpView};
use crate::record::Record;
use crate::transport::{decode_value, decoded, valid_base64url};

verus! {

/// The bytes of a string.
pub open spec fn utf8(s: Seq<char>) -> Seq<u8> {
    encode_utf8(s)
}

/// The engine shared by every request: the database, and whether requests
/// must carry an API key.
pub struct SharedState {
    pub db: Database,
    pub authenticate: bool,
}

/// What the access check decided for a request.
#[derive(Clone, Copy, Debug, PartialEq, Eq, Structural)]
pub enum Authorization {
    Granted,
    /// Authentication is on and the request carried no key.
    MissingKey,
    /// The key holds no grant of the mode that covers the namespace.
    Denied,
}

/// The decision of the access check. With authentication off every request is granted.
pub open spec fn authorization(
    authenticate: bool,
    rows: Seq<Row>,
    key: Option<Seq<u8>>,
    mode: Access,
    ns: Seq<u8>,
) -> Authorization {
    if !authenticate {
        Authorization::Granted
    } else {
        match key {
            None => Authorization::MissingKey,
            Some(k) => if allowed(rows, k, mode, ns) {
                Authorization::Granted
            } else {
                Authorization::Denied
            },
        }
    }
}

/// What a read reports of a record.
#[derive(Clone, Copy, Debug, PartialEq, Eq)]
pub struct Stats {
    pub count: u64,
    /// Present unless the read excluded the previous period.
    pub shadow_count: Option<u64>,
    /// Present when the read asked for statistics.
    pub first_seen: Option<u64>,
    /// Present when the read asked for statistics.
    pub last_seen: Option<u64>,
}

/// The report of `r` for the given read mode.
pub open spec fn stats_of(r: Record, with_stats: bool, with_shadow: bool) -> Stats {
    Stats {
        count: r.count,
        shadow_count: if with_shadow {
            Some(r.shadow_count)
        } else {
            None
        },
        first_seen: if with_stats {
            Some(r.first_seen)
        } else {
            None
        },
        last_seen: if with_stats {
            Some(r.last_seen)
        } else {
            None
        },
    }
}

/// The time a write is recorded at: its own timestamp, or `now` for 0.
pub open spec fn effective_time(t: u64, now: u64) -> u64 {
    if t == 0 {
        now
    } else {
        t
    }
}

/// The key that a fresh installation binds until an administrator replaces it: `changeme`.
pub open spec fn placeholder_key() -> Seq<u8> {
    seq![99u8, 104u8, 97u8, 110u8, 103u8, 101u8, 109u8, 101u8]
}

pub fn placeholder_key_bytes() -> (r: Vec<u8>)
    ensures
        r@ == placeholder_key(),
{
    let r: Vec<u8> = vec![99u8, 104u8, 97u8, 110u8, 103u8, 101u8, 109u8, 101u8];
    assert(r@ =~= placeholder_key());
    r
}

/// A message returned to a client.
pub struct Message {
    pub message: String,
}

/// What the server reports of itself.
pub struct InfoData {
    pub implementation: String,
    pub version: String,
    pub vendor: String,
    pub author: String,
}

/// The body of a bulk request.
pub struct PostData {
    pub items: Vec<BulkSighting>,
}

/// One item of a bulk request.
pub struct BulkSighting {
    pub namespace: String,
    pub value: String,
    /// Time of the sighting; absent or not positive means now.
    pub timestamp: Option<i64>,
    pub noshadow: bool,
}

/// What became of one item of a bulk write.
#[derive(Clone, Copy, Debug, PartialEq, Eq, Structural)]
pub enum BulkOutcome {
    /// The item carried an empty value and was passed over.
    Skipped,
    /// The value is not unpadded URL-safe base64.
    Malformed,
    MissingKey,
    Denied,
    Written,
    /// The write could not be counted.
    Failed,
}

/// Why a bulk read was refused.
#[derive(Clone, Copy, Debug, PartialEq, Eq, Structural)]
pub enum Refusal {
    MissingKey,
    Denied,
    /// A value is not unpadded URL-safe base64.
    Malformed,
}

/// Why a bulk read refuses `item`, if it does: the access check first, then
/// the value's encoding.
pub open spec fn read_refusal(
    authenticate: bool,
    rows: Seq<Row>,
    key: Option<Seq<u8>>,
    item: ItemView,
) -> Option<Refusal> {
    match authorization(authenticate, rows, key, Access::Read, item.0) {
        Authorization::MissingKey => Some(Refusal::MissingKey),
        Authorization::Denied => Some(Refusal::Denied),
        Authorization::Granted => if valid_base64url(item.1) {
            None
        } else {
            Some(Refusal::Malformed)
        },
    }
}

/// What a bulk read reports for an item that it does not refuse.
pub open spec fn read_item(rows: Seq<Row>, item: ItemView, with_stats: bool, with_shadow: bool) -> Option<
    Stats,
> {
    match lookup(rows, item.0, decoded(item.1)) {
        Some(rec) => Some(stats_of(rec, with_stats, with_shadow)),
        None => None,
    }
}

/// The time a bulk item is recorded at.
pub open spec fn bulk_time(t: Option<i64>, now: u64) -> u64 {
    match t {
        Some(x) => if x > 0 {
            x as u64
        } else {
            now
        },
        None => now,
    }
}

/// A bulk item as the engine sees it: namespace, value as sent (encoded) and timestamp.
pub type ItemView = (Seq<u8>, Seq<u8>, Option<i64>);

/// The rows after one bulk item, and what became of it.
pub open spec fn bulk_step(
    rows: Seq<Row>,
    period: u64,
    authenticate: bool,
    key: Option<Seq<u8>>,
    item: ItemView,
    now: u64,
) -> (Seq<Row>, BulkOutcome) {
    let (ns, text, t) = item;
    let v = decoded(text);
    if text.len() == 0 {
        (rows, BulkOutcome::Skipped)
    } else if !valid_base64url(text) {
        (rows, BulkOutcome::Malformed)
    } else {
        match authorization(authenticate, rows, key, Access::Write, ns) {
            Authorization::MissingKey => (rows, BulkOutcome::MissingKey),
            Authorization::Denied => (rows, BulkOutcome::Denied),
            Authorization::Granted => {
                let time = bulk_time(t, now);
                (
                    write_rows(rows, ns, v, time, period, false),
                    if write_succeeds(rows, ns, v, time, period, false) {
                        BulkOutcome::Written
                    } else {
                        BulkOutcome::Failed
                    },
                )
            },
        }
    }
}

/// The rows after the bulk items in order, each on its own.
pub open spec fn bulk_rows(
    rows: Seq<Row>,
    period: u64,
    authenticate: bool,
    key: Option<Seq<u8>>,
    items: Seq<ItemView>,
    now: u64,
) -> Seq<Row>
    decreases items.len(),
{
    if items.len() == 0 {
        rows
    } else {
        let before = bulk_rows(rows, period, authenticate, key, items.drop_last(), now);
        bulk_step(before, period, authenticate, key, items.last(), now).0
    }
}

/// What became of item `k` of a bulk write.
pub open spec fn bulk_outcome(
    rows: Seq<Row>,
    period: u64,
    authenticate: bool,
    key: Option<Seq<u8>>,
    items: Seq<ItemView>,
    now: u64,
    k: int,
) -> BulkOutcome {
    let before = bulk_rows(rows, period, authenticate, key, items.subrange(0, k), now);
    bulk_step(before, period, authenticate, key, items[k], now).1
}

pub open spec fn item_view(b: BulkSighting) -> ItemView {
    (utf8(b.namespace@), utf8(b.value@), b.timestamp)
}

pub open spec fn key_view(apikey: Option<&str>) -> Option<Seq<u8>> {
    match apikey {
        Some(k) => Some(k.spec_bytes()),
        None => None,
    }
}

/// A write followed by a read of the same pair reports the write: `last_seen`
/// is the write's time (now, for a zero timestamp), `first_seen` is kept from
/// before, and `count` is one more than before, or one for a new pair or the
/// first write of a new decay period, in which case the old count becomes
/// the shadow count.
pub proof fn lemma_write_then_read(
    rows: Seq<Row>,
    ns: Seq<u8>,
    v: Seq<u8>,
    t: u64,
    now: u64,
    period: u64,
)
    requires
        write_succeeds(rows, ns, v, effective_time(t, now), period, false),
    ensures
        ({
            let time = effective_time(t, now);
            let after = lookup(write_rows(rows, ns, v, time, period, false), ns, v);
            &&& after is Some
            &&& after.unwrap().last_seen == time
            &&& match lookup(rows, ns, v) {
                None => after.unwrap().count == 1 && after.unwrap().first_seen == time
                    && after.unwrap().shadow_count == 0,
                Some(prev) => {
                    &&& after.unwrap().first_seen == prev.first_seen
                    &&& if crate::record::crosses_boundary(prev, time, period) {
                        after.unwrap().count == 1 && after.unwrap().shadow_count == prev.count
                    } else {
                        after.unwrap().count == prev.count + 1 && after.unwrap().shadow_count
                            == prev.shadow_count
                    }
                },
            }
        }),
{
    let time = effective_time(t, now);
    crate::db::lemma_read_after_write(rows, ns, v, time, period, false);
}

/// The first write past a decay boundary moves the previous count into the
/// shadow slot, restarts the count at one, moves the counting period to the
/// one of the write, and keeps `first_seen`.
pub proof fn lemma_write_rotates(
    rows: Seq<Row>,
    ns: Seq<u8>,
    v: Seq<u8>,
    t: u64,
    now: u64,
    period: u64,
)
    requires
        period > 0,
        lookup(rows, ns, v) is Some,
        effective_time(t, now) >= lookup(rows, ns, v).unwrap().last_decay_at + period,
    ensures
        ({
            let prev = lookup(rows, ns, v).unwrap();
            let time = effective_time(t, now);
            let after = lookup(write_rows(rows, ns, v, time, period, false), ns, v).unwrap();
            &&& write_succeeds(rows, ns, v, time, period, false)
            &&& after.shadow_count == prev.count
            &&& after.count == 1
            &&& after.last_decay_at == crate::record::period_start(time, period)
            &&& after.first_seen == prev.first_seen
            &&& after.last_seen == time
        }),
{
    crate::db::lemma_index_of(rows, ns, v);
    crate::db::lemma_read_after_write(rows, ns, v, effective_time(t, now), period, false);
}

/// Bulk writes are not atomic: of three items, the first and the third are
/// committed when the key may write them, whatever becomes of the second.
pub proof fn lemma_bulk_not_atomic(
    rows: Seq<Row>,
    period: u64,
    key: Seq<u8>,
    items: Seq<ItemView>,
    now: u64,
)
    requires
        items.len() == 3,
        items[0].1.len() > 0 && valid_base64url(items[0].1),
        items[2].1.len() > 0 && valid_base64url(items[2].1),
        allowed(rows, key, Access::Write, items[0].0),
        allowed(rows, key, Access::Write, items[2].0),
    ensures
        lookup(bulk_rows(rows, period, true, Some(key), items, now), items[0].0, decoded(items[0].1))
            is Some,
        lookup(bulk_rows(rows, period, true, Some(key), items, now), items[2].0, decoded(items[2].1))
            is Some,
{
    let k = Some(key);
    let i0 = items[0];
    let i1 = items[1];
    let i2 = items[2];
    let s1 = items.subrange(0, 1);
    let s2 = items.subrange(0, 2);
    assert(items.drop_last() =~= s2);
    assert(s2.drop_last() =~= s1);
    assert(s1.drop_last() =~= Seq::<ItemView>::empty());
    let r0 = rows;
    assert(bulk_rows(rows, period, true, k, s1.drop_last(), now) == rows);
    assert(s1.last() == i0 && s2.last() == i1 && items.last() == i2);
    let r1 = bulk_rows(rows, period, true, k, s1, now);
    let r2 = bulk_rows(rows, period, true, k, s2, now);
    let r3 = bulk_rows(rows, period, true, k, items, now);
    assert(r1 == bulk_step(r0, period, true, k, i0, now).0);
    assert(r2 == bulk_step(r1, period, true, k, i1, now).0);
    assert(r3 == bulk_step(r2, period, true, k, i2, now).0);
    let d0 = decoded(i0.1);
    let d2 = decoded(i2.1);
    // The first item is written.
    crate::db::lemma_write_present(r0, i0.0, d0, bulk_time(i0.2, now), period, false);
    assert(lookup(r1, i0.0, d0) is Some);
    lemma_write_keeps_rights(r0, i0.0, d0, bulk_time(i0.2, now), period, false, key, Access::Write, i2.0);
    // The second item is written, skipped or refused; nothing is lost either way.
    if r2 != r1 {
        let d1 = decoded(i1.1);
        crate::db::lemma_write_keeps_present(r1, i1.0, d1, bulk_time(i1.2, now), period, false, i0.0, d0);
        lemma_write_keeps_rights(r1, i1.0, d1, bulk_time(i1.2, now), period, false, key, Access::Write, i2.0);
    }
    assert(lookup(r2, i0.0, d0) is Some);
    assert(allowed(r2, key, Access::Write, i2.0));
    // The third item is written.
    crate::db::lemma_write_present(r2, i2.0, d2, bulk_time(i2.2, now), period, false);
    crate::db::lemma_write_keeps_present(r2, i2.0, d2, bulk_time(i2.2, now), period, false, i0.0, d0);
}

/// Appending keeps what was there: `a` stays a prefix of `c` when `b`
/// extends `a` and `c` extends `b`.
pub proof fn lemma_prefix_trans(a: Seq<u8>, b: Seq<u8>, c: Seq<u8>)
    requires
        exists|x: Seq<u8>| b == a + x,
        exists|y: Seq<u8>| c == b + y,
    ensures
        a.is_prefix_of(c),
        exists|z: Seq<u8>| c == a + z,
{
    let x = choose|x: Seq<u8>| b == a + x;
    let y = choose|y: Seq<u8>| c == b + y;
    assert(c =~= a + (x + y));
    assert(a =~= c.subrange(0, a.len() as int));
}

impl Message {
    pub fn new(message: String) -> (r: Message)
        ensures
            r.message == message,
    {
        Message { message }
    }
}

impl InfoData {
    /// What this server reports of itself.
    pub fn current() -> (r: InfoData)
        ensures
            r.implementation@ == "SightingDB"@,
            r.version@ == "0.0.5"@,
            r.vendor@ == "NCOC"@,
            r.author@ == "Cooper"@,
    {
        InfoData {
            implementation: "SightingDB".to_owned(),
            version: "0.0.5".to_owned(),
            vendor: "NCOC".to_owned(),
            author: "Cooper".to_owned(),
        }
    }
}

impl Default for SharedState {
    fn default() -> (r: SharedState)
        ensures
            r.db.wf(),
            r.db@ == Seq::<Row>::empty(),
            r.db.period() == 0,
            r.db.log_view() == Seq::<u8>::empty(),
            r.authenticate,
    {
        SharedState::new()
    }
}

impl SharedState {
    /// An empty engine that asks for API keys and does not decay counts.
    pub fn new() -> (r: SharedState)
        ensures
            r.db.wf(),
            r.db@ == Seq::<Row>::empty(),
            r.db.period() == 0,
            r.db.log_view() == Seq::<u8>::empty(),
            r.authenticate,
    {
        SharedState { db: Database::new(0), authenticate: true }
    }

    /// An empty engine that asks for API keys and rotates counts every `decay_period`.
    pub fn with_decay_period(decay_period: u64) -> (r: SharedState)
        ensures
            r.db.wf(),
            r.db@ == Seq::<Row>::empty(),
            r.db.period() == decay_period,
            r.db.log_view() == Seq::<u8>::empty(),
            r.authenticate,
    {
        SharedState { db: Database::new(decay_period), authenticate: true }
    }

    /// Decides whether a request with `apikey` may use `ns` in `mode`.
    pub fn authorize(&self, apikey: Option<&str>, ns: &str, mode: Access) -> (r: Authorization)
        requires
            self.db.wf(),
        ensures
            r == authorization(self.authenticate, self.db@, key_view(apikey), mode, ns.spec_bytes()),
    {
        if !self.authenticate {
            return Authorization::Granted;
        }
        match apikey {
            None => Authorization::MissingKey,
            Some(k) => if can_access(&self.db, k.as_bytes(), mode, ns.as_bytes()) {
                Authorization::Granted
            } else {
                Authorization::Denied
            },
        }
    }

    /// Counts one sighting of `v` under `ns` at `t`, or at `now` where `t` is 0.
    pub fn write(&mut self, ns: &str, v: &[u8], t: u64, now: u64) -> (r: bool)
        requires
            old(self).db.wf(),
        ensures
            final(self).db.wf(),
            final(self).authenticate == old(self).authenticate,
            final(self).db.period() == old(self).db.period(),
            r == write_succeeds(
                old(self).db@,
                ns.spec_bytes(),
                v@,
                effective_time(t, now),
                old(self).db.period(),
                false,
            ),
            final(self).db@ == write_rows(
                old(self).db@,
                ns.spec_bytes(),
                v@,
                effective_time(t, now),
                old(self).db.period(),
                false,
            ),
            final(self).db.log_view() == old(self).db.log_view() + (if r {
                encode(
                    OpView::Write {
                        namespace: ns.spec_bytes(),
                        value: v@,
                        timestamp: effective_time(t, now),
                        suppress_shadow: false,
                    },
                )
            } else {
                Seq::empty()
            }),
    {
        let time = if t == 0 {
            now
        } else {
            t
        };
        self.db.write(ns.as_bytes(), v, time, false)
    }

    /// What is stored for `v` under `ns`, reported in the given mode.
    pub fn read(&self, ns: &str, v: &[u8], with_stats: bool, with_shadow: bool) -> (r: Option<
        Stats,
    >)
        requires
            self.db.wf(),
        ensures
            r == (match lookup(self.db@, ns.spec_bytes(), v@) {
                Some(rec) => Some(stats_of(rec, with_stats, with_shadow)),
                None => None,
            }),
    {
        match self.db.read(ns.as_bytes(), v) {
            Some(rec) => Some(
                Stats {
                    count: rec.count,
                    shadow_count: if with_shadow {
                        Some(rec.shadow_count)
                    } else {
                        None
                    },
                    first_seen: if with_stats {
                        Some(rec.first_seen)
                    } else {
                        None
                    },
                    last_seen: if with_stats {
                        Some(rec.last_seen)
                    } else {
                        None
                    },
                },
            ),
            None => None,
        }
    }

    /// The values and records under `ns`, in insertion order.
    pub fn read_namespace(&self, ns: &str) -> (r: Vec<Sighting>)
        requires
            self.db.wf(),
        ensures
            r@.map_values(|s: Sighting| s@) == namespace_rows(self.db@, ns.spec_bytes()),
    {
        self.db.read_namespace(ns.as_bytes())
    }

    /// Removes every record under `ns`; returns whether there was any.
    pub fn delete(&mut self, ns: &str) -> (r: bool)
        requires
            old(self).db.wf(),
        ensures
            final(self).db.wf(),
            final(self).authenticate == old(self).authenticate,
            final(self).db.period() == old(self).db.period(),
            r == has_namespace(old(self).db@, ns.spec_bytes()),
            final(self).db@ == without_namespace(old(self).db@, ns.spec_bytes()),
            final(self).db.log_view() == old(self).db.log_view() + (if r {
                encode(OpView::Delete { namespace: ns.spec_bytes() })
            } else {
                Seq::empty()
            }),
    {
        self.db.delete(ns.as_bytes())
    }

    /// Records a grant of `mode` on `prefix` for `key`, which binds the key
    /// if it was not yet bound. An empty prefix covers every namespace.
    pub fn grant(&mut self, key: &str, mode: Access, prefix: &str, now: u64) -> (r: bool)
        requires
            old(self).db.wf(),
        ensures
            final(self).db.wf(),
            final(self).authenticate == old(self).authenticate,
            final(self).db.period() == old(self).db.period(),
            r == write_succeeds(
                old(self).db@,
                key_namespace(key.spec_bytes()),
                grant_value(mode, prefix.spec_bytes()),
                now,
                old(self).db.period(),
                true,
            ),
            final(self).db@ == write_rows(
                old(self).db@,
                key_namespace(key.spec_bytes()),
                grant_value(mode, prefix.spec_bytes()),
                now,
                old(self).db.period(),
                true,
            ),
            final(self).db.log_view() == old(self).db.log_view() + (if r {
                encode(
                    OpView::Write {
                        namespace: key_namespace(key.spec_bytes()),
                        value: grant_value(mode, prefix.spec_bytes()),
                        timestamp: now,
                        suppress_shadow: true,
                    },
                )
            } else {
                Seq::empty()
            }),
    {
        let kns = key_namespace_bytes(key.as_bytes());
        let gv = grant_value_bytes(mode, prefix.as_bytes());
        self.db.write(kns.as_slice(), gv.as_slice(), now, true)
    }

    /// Installs `key` as the administrative key: removes the placeholder
    /// key `changeme`, then grants `key` reading and writing everywhere.
    /// Returns whether both grants were counted.
    pub fn install_api_key(&mut self, key: &str, now: u64) -> (r: bool)
        requires
            old(self).db.wf(),
        ensures
            final(self).db.wf(),
            final(self).authenticate == old(self).authenticate,
            final(self).db.period() == old(self).db.period(),
            ({
                let p = old(self).db.period();
                let kns = key_namespace(key.spec_bytes());
                let rows0 = without_namespace(old(self).db@, key_namespace(placeholder_key()));
                let rows1 = write_rows(rows0, kns, grant_value(Access::Read, seq![]), now, p, true);
                let rows2 = write_rows(rows1, kns, grant_value(Access::Write, seq![]), now, p, true);
                &&& final(self).db@ == rows2
                &&& r == (write_succeeds(rows0, kns, grant_value(Access::Read, seq![]), now, p, true)
                    && write_succeeds(rows1, kns, grant_value(Access::Write, seq![]), now, p, true))
            }),
            old(self).db.log_view().is_prefix_of(final(self).db.log_view()),
    {
        let placeholder = placeholder_key_bytes();
        let old_ns = key_namespace_bytes(placeholder.as_slice());
        let ghost l0 = self.db.log_view();
        self.db.delete(old_ns.as_slice());
        let kns = key_namespace_bytes(key.as_bytes());
        let empty: Vec<u8> = Vec::new();
        let read_value = grant_value_bytes(Access::Read, empty.as_slice());
        let write_value = grant_value_bytes(Access::Write, empty.as_slice());
        let ghost l1 = self.db.log_view();
        let a = self.db.write(kns.as_slice(), read_value.as_slice(), now, true);
        let ghost l2 = self.db.log_view();
        let b = self.db.write(kns.as_slice(), write_value.as_slice(), now, true);
        proof {
            let l3 = self.db.log_view();
            lemma_prefix_trans(l0, l1, l2);
            lemma_prefix_trans(l0, l2, l3);
        }
        a && b
    }

    /// Reads each item of a bulk request, with the shadow count unless the
    /// item asks to leave it out. The whole request is refused on its first
    /// item that the key may not read or whose value is not unpadded URL-safe
    /// base64.
    pub fn read_bulk(&self, apikey: Option<&str>, items: &Vec<BulkSighting>, with_stats: bool) -> (r:
        Result<Vec<Option<Stats>>, Refusal>)
        requires
            self.db.wf(),
        ensures
            match r {
                Ok(v) => {
                    &&& v@.len() == items@.len()
                    &&& forall|k: int|
                        0 <= k < items@.len() ==> read_refusal(
                            self.authenticate,
                            self.db@,
                            key_view(apikey),
                            #[trigger] item_view(items@[k]),
                        ) is None
                    &&& forall|k: int|
                        0 <= k < items@.len() ==> #[trigger] v@[k] == read_item(
                            self.db@,
                            item_view(items@[k]),
                            with_stats,
                            !items@[k].noshadow,
                        )
                },
                Err(e) => exists|k: int|
                    0 <= k < items@.len() && read_refusal(
                        self.authenticate,
                        self.db@,
                        key_view(apikey),
                        #[trigger] item_view(items@[k]),
                    ) == Some(e) && forall|j: int|
                        0 <= j < k ==> read_refusal(
                            self.authenticate,
                            self.db@,
                            key_view(apikey),
                            #[trigger] item_view(items@[j]),
                        ) is None,
            },
    {
        let mut out: Vec<Option<Stats>> = Vec::new();
        let mut i: usize = 0;
        while i < items.len()
            invariant
                self.db.wf(),
                0 <= i <= items@.len(),
                out@.len() == i,
                forall|k: int|
                    0 <= k < i ==> read_refusal(
                        self.authenticate,
                        self.db@,
                        key_view(apikey),
                        #[trigger] item_view(items@[k]),
                    ) is None,
                forall|k: int|
                    0 <= k < i ==> #[trigger] out@[k] == read_item(
                        self.db@,
                        item_view(items@[k]),
                        with_stats,
                        !items@[k].noshadow,
                    ),
            decreases items@.len() - i,
        {
            let item = &items[i];
            let ns = item.namespace.as_str();
            let text = item.value.as_str().as_bytes();
            let ghost iv = item_view(items@[i as int]);
            assert(ns.spec_bytes() == iv.0 && text@ == iv.1);
            match self.authorize(apikey, ns, Access::Read) {
                Authorization::MissingKey => {
                    return Err(Refusal::MissingKey);
                },
                Authorization::Denied => {
                    return Err(Refusal::Denied);
                },
                Authorization::Granted => {},
            }
            let stats = match decode_value(text) {
                Some(v) => self.read(ns, v.as_slice(), with_stats, !item.noshadow),
                None => {
                    return Err(Refusal::Malformed);
                },
            };
            let ghost before = out@;
            out.push(stats);
            assert(forall|k: int| 0 <= k < i ==> out@[k] == before[k]);
            i = i + 1;
        }
        Ok(out)
    }

    /// Writes each item of a bulk request on its own, its value decoded from
    /// unpadded URL-safe base64: an item with an empty value is passed over,
    /// one that does not decode or that the key may not write is refused, and
    /// none of these stops the items after it.
    pub fn write_bulk(&mut self, apikey: Option<&str>, items: &Vec<BulkSighting>, now: u64) -> (r:
        Vec<BulkOutcome>)
        requires
            old(self).db.wf(),
        ensures
            final(self).db.wf(),
            final(self).authenticate == old(self).authenticate,
            final(self).db.period() == old(self).db.period(),
            final(self).db@ == bulk_rows(
                old(self).db@,
                old(self).db.period(),
                old(self).authenticate,
                key_view(apikey),
                items@.map_values(|b: BulkSighting| item_view(b)),
                now,
            ),
            r@.len() == items@.len(),
            old(self).db.log_view().is_prefix_of(final(self).db.log_view()),
            forall|k: int|
                0 <= k < items@.len() ==> #[trigger] r@[k] == bulk_outcome(
                    old(self).db@,
                    old(self).db.period(),
                    old(self).authenticate,
                    key_view(apikey),
                    items@.map_values(|b: BulkSighting| item_view(b)),
                    now,
                    k,
                ),
    {
        let ghost start = self.db@;
        let ghost period = self.db.period();
        let ghost views = items@.map_values(|b: BulkSighting| item_view(b));
        let ghost start_log = self.db.log_view();
        assert(start_log == start_log + Seq::<u8>::empty());
        let mut out: Vec<BulkOutcome> = Vec::new();
        let mut i: usize = 0;
        while i < items.len()
            invariant
                self.db.wf(),
                self.authenticate == old(self).authenticate,
                self.db.period() == period,
                views == items@.map_values(|b: BulkSighting| item_view(b)),
                0 <= i <= items@.len(),
                out@.len() == i,
                exists|z: Seq<u8>| self.db.log_view() == start_log + z,
                self.db@ == bulk_rows(
                    start,
                    period,
                    self.authenticate,
                    key_view(apikey),
                    views.subrange(0, i as int),
                    now,
                ),
                forall|k: int|
                    0 <= k < i ==> #[trigger] out@[k] == bulk_outcome(
                        start,
                        period,
                        self.authenticate,
                        key_view(apikey),
                        views,
                        now,
                        k,
                    ),
            decreases items@.len() - i,
        {
            let item = &items[i];
            let ns = item.namespace.as_str();
            let text = item.value.as_str().as_bytes();
            assert(views[i as int] == item_view(*item));
            let ghost before = self.db@;
            let ghost log_before = self.db.log_view();
            let ghost step = bulk_step(
                before,
                period,
                self.authenticate,
                key_view(apikey),
                views[i as int],
                now,
            );
            let decoded_value = decode_value(text);
            let outcome = if text.len() == 0 {
                BulkOutcome::Skipped
            } else if decoded_value.is_none() {
                BulkOutcome::Malformed
            } else {
                let v = decoded_value.unwrap();
                match self.authorize(apikey, ns, Access::Write) {
                    Authorization::MissingKey => BulkOutcome::MissingKey,
                    Authorization::Denied => BulkOutcome::Denied,
                    Authorization::Granted => {
                        let time: u64 = match item.timestamp {
                            Some(x) => if x > 0 {
                                x as u64
                            } else {
                                now
                            },
                            None => now,
                        };
                        if self.db.write(ns.as_bytes(), v.as_slice(), time, false) {
                            BulkOutcome::Written
                        } else {
                            BulkOutcome::Failed
                        }
                    },
                }
            };
            assert(self.db@ == step.0 && outcome == step.1);
            proof {
                assert(exists|y: Seq<u8>| self.db.log_view() == log_before + y) by {
                    if self.db.log_view() == log_before {
                        assert(self.db.log_view() == log_before + Seq::<u8>::empty());
                    }
                }
                lemma_prefix_trans(start_log, log_before, self.db.log_view());
            }
            assert(views.subrange(0, i as int + 1).drop_last() =~= views.subrange(0, i as int));
            assert(views.subrange(0, i as int + 1).last() == views[i as int]);
            out.push(outcome);
            i = i + 1;
        }
        assert(views.subrange(0, items@.len() as int) =~= views);
        proof {
            let z = choose|z: Seq<u8>| self.db.log_view() == start_log + z;
            assert(start_log =~= self.db.log_view().subrange(0, start_log.len() as int));
        }
        out
    }
}

} // verus!
