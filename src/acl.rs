use vstd::prelude::*;
use crate::bytes::{append_bytes, bytes_eq};
use crate::db::{index_of, lemma_index_of, write_rows, write_succeeds, Database, Row};

verus! {

/// `/`, which separates the segments of a namespace.
pub const SLASH: u8 = 47;

/// `:`, which ends the tag of a grant.
pub const COLON: u8 = 58;

/// `r`, the tag of a read grant.
pub const READ_TAG: u8 = 114;

/// `w`, the tag of a write grant.
pub const WRITE_TAG: u8 = 119;

/// The reserved namespace under which API keys are bound: `_config/acl/apikeys/`.
pub open spec fn apikeys_prefix() -> Seq<u8> {
    seq![
        95u8, 99u8, 111u8, 110u8, 102u8, 105u8, 103u8, SLASH, 97u8, 99u8, 108u8, SLASH, 97u8, 112u8, 105u8,
        107u8, 101u8, 121u8, 115u8, SLASH,
    ]
}

/// The namespace that holds the binding and the grants of `key`.
pub open spec fn key_namespace(key: Seq<u8>) -> Seq<u8> {
    apikeys_prefix() + key
}

/// Which of the two independent rights a grant gives.
#[derive(Clone, Copy, Debug, PartialEq, Eq, Structural)]
pub enum Access {
    Read,
    Write,
}

/// The byte that marks a grant of `mode`: `r` or `w`.
pub open spec fn mode_tag(mode: Access) -> u8 {
    match mode {
        Access::Read => READ_TAG,
        Access::Write => WRITE_TAG,
    }
}

/// The value of the record that grants `mode` on `prefix`: the mode's tag, `:`, the prefix.
pub open spec fn grant_value(mode: Access, prefix: Seq<u8>) -> Seq<u8> {
    seq![mode_tag(mode), COLON] + prefix
}

/// Whether `ns` lies under `prefix`, segment by segment: it is the prefix
/// itself or continues it after a `/`. The empty prefix covers every namespace.
pub open spec fn segment_prefix(prefix: Seq<u8>, ns: Seq<u8>) -> bool {
    prefix.len() == 0 || ns == prefix || (ns.len() > prefix.len() && ns.subrange(
        0,
        prefix.len() as int,
    ) == prefix && ns[prefix.len() as int] == SLASH)
}

/// Whether the row is a grant of `mode` to `key` that covers `ns`.
pub open spec fn row_grants(row: Row, key: Seq<u8>, mode: Access, ns: Seq<u8>) -> bool {
    &&& row.0 == key_namespace(key)
    &&& row.1.len() >= 2
    &&& row.1[0] == mode_tag(mode)
    &&& row.1[1] == COLON
    &&& segment_prefix(row.1.subrange(2, row.1.len() as int), ns)
}

/// Whether `key` holds a grant of `mode` covering `ns`.
pub open spec fn allowed(rows: Seq<Row>, key: Seq<u8>, mode: Access, ns: Seq<u8>) -> bool {
    exists|i: int| 0 <= i < rows.len() && row_grants(#[trigger] rows[i], key, mode, ns)
}

/// Whether any record binds `key`.
pub open spec fn key_bound(rows: Seq<Row>, key: Seq<u8>) -> bool {
    exists|i: int| 0 <= i < rows.len() && #[trigger] rows[i].0 == key_namespace(key)
}

pub fn apikeys_prefix_bytes() -> (r: Vec<u8>)
    ensures
        r@ == apikeys_prefix(),
{
    let r = vec![
        95u8, 99u8, 111u8, 110u8, 102u8, 105u8, 103u8, SLASH, 97u8, 99u8, 108u8, SLASH, 97u8, 112u8, 105u8,
        107u8, 101u8, 121u8, 115u8, SLASH,
    ];
    assert(r@ =~= apikeys_prefix());
    r
}

/// The namespace that holds the binding and the grants of `key`.
pub fn key_namespace_bytes(key: &[u8]) -> (r: Vec<u8>)
    ensures
        r@ == key_namespace(key@),
{
    let mut r = apikeys_prefix_bytes();
    append_bytes(&mut r, key);
    r
}

/// The value of the record that grants `mode` on `prefix`.
pub fn grant_value_bytes(mode: Access, prefix: &[u8]) -> (r: Vec<u8>)
    ensures
        r@ == grant_value(mode, prefix@),
{
    let mut r: Vec<u8> = Vec::new();
    match mode {
        Access::Read => r.push(READ_TAG),
        Access::Write => r.push(WRITE_TAG),
    }
    r.push(COLON);
    append_bytes(&mut r, prefix);
    assert(r@ =~= grant_value(mode, prefix@));
    r
}

/// Whether `ns` lies under `prefix`, segment by segment.
pub fn is_segment_prefix(prefix: &[u8], ns: &[u8]) -> (r: bool)
    ensures
        r == segment_prefix(prefix@, ns@),
{
    if prefix.len() == 0 {
        return true;
    }
    if ns.len() < prefix.len() {
        return false;
    }
    let mut i: usize = 0;
    while i < prefix.len()
        invariant
            0 <= i <= prefix@.len() <= ns@.len(),
            forall|k: int| 0 <= k < i ==> ns@[k] == prefix@[k],
        decreases prefix@.len() - i,
    {
        if ns[i] != prefix[i] {
            assert(ns@.subrange(0, prefix@.len() as int)[i as int] != prefix@[i as int]);
            return false;
        }
        i = i + 1;
    }
    assert(ns@.subrange(0, prefix@.len() as int) =~= prefix@);
    if ns.len() == prefix.len() {
        assert(ns@ =~= prefix@);
        true
    } else {
        ns[prefix.len()] == SLASH
    }
}

fn row_grants_exec(
    row_ns: &[u8],
    row_value: &[u8],
    key_ns: &[u8],
    tag: u8,
    ns: &[u8],
) -> (r: bool)
    ensures
        r == (row_ns@ == key_ns@ && row_value@.len() >= 2 && row_value@[0] == tag && row_value@[1]
            == COLON && segment_prefix(row_value@.subrange(2, row_value@.len() as int), ns@)),
{
    if !bytes_eq(row_ns, key_ns) {
        return false;
    }
    if row_value.len() < 2 || row_value[0] != tag || row_value[1] != COLON {
        return false;
    }
    let rest = vstd::slice::slice_subrange(row_value, 2, row_value.len());
    is_segment_prefix(rest, ns)
}

/// Whether `key` holds a grant of `mode` covering `ns`. A key without a
/// binding has no grant, and a grant of one mode says nothing of the other.
pub fn can_access(db: &Database, key: &[u8], mode: Access, ns: &[u8]) -> (r: bool)
    requires
        db.wf(),
    ensures
        r == allowed(db@, key@, mode, ns@),
{
    let key_ns = key_namespace_bytes(key);
    let tag: u8 = match mode {
        Access::Read => READ_TAG,
        Access::Write => WRITE_TAG,
    };
    let n = db.len();
    let mut i: usize = 0;
    while i < n
        invariant
            db.wf(),
            n == db@.len(),
            0 <= i <= n,
            key_ns@ == key_namespace(key@),
            tag == mode_tag(mode),
            forall|j: int| 0 <= j < i ==> !row_grants(#[trigger] db@[j], key@, mode, ns@),
        decreases n - i,
    {
        let (row_ns, row_value) = db.key_at(i);
        if row_grants_exec(row_ns, row_value, key_ns.as_slice(), tag, ns) {
            assert(row_grants(db@[i as int], key@, mode, ns@));
            return true;
        }
        i = i + 1;
    }
    false
}

/// Whether `key` may read `ns`.
pub fn can_read(db: &Database, key: &[u8], ns: &[u8]) -> (r: bool)
    requires
        db.wf(),
    ensures
        r == allowed(db@, key@, Access::Read, ns@),
{
    can_access(db, key, Access::Read, ns)
}

/// Whether `key` may write `ns`.
pub fn can_write(db: &Database, key: &[u8], ns: &[u8]) -> (r: bool)
    requires
        db.wf(),
    ensures
        r == allowed(db@, key@, Access::Write, ns@),
{
    can_access(db, key, Access::Write, ns)
}

/// Recording a grant lets the key use, in that mode, every namespace under
/// the granted prefix.
pub proof fn lemma_grant_allows(
    rows: Seq<Row>,
    key: Seq<u8>,
    mode: Access,
    prefix: Seq<u8>,
    ns: Seq<u8>,
    t: u64,
    period: u64,
    suppress_shadow: bool,
)
    requires
        segment_prefix(prefix, ns),
        write_succeeds(rows, key_namespace(key), grant_value(mode, prefix), t, period, suppress_shadow),
    ensures
        allowed(
            write_rows(rows, key_namespace(key), grant_value(mode, prefix), t, period, suppress_shadow),
            key,
            mode,
            ns,
        ),
{
    let kns = key_namespace(key);
    let gv = grant_value(mode, prefix);
    lemma_index_of(rows, kns, gv);
    let i = index_of(rows, kns, gv);
    let w = write_rows(rows, kns, gv, t, period, suppress_shadow);
    assert(gv.subrange(2, gv.len() as int) =~= prefix);
    let j = if i < 0 {
        rows.len() as int
    } else {
        i
    };
    assert(w[j].0 == kns && w[j].1 == gv);
    assert(row_grants(w[j], key, mode, ns));
}

/// A write never takes a right away.
pub proof fn lemma_write_keeps_rights(
    rows: Seq<Row>,
    ns: Seq<u8>,
    v: Seq<u8>,
    t: u64,
    period: u64,
    suppress_shadow: bool,
    key: Seq<u8>,
    mode: Access,
    target: Seq<u8>,
)
    requires
        allowed(rows, key, mode, target),
    ensures
        allowed(write_rows(rows, ns, v, t, period, suppress_shadow), key, mode, target),
{
    lemma_index_of(rows, ns, v);
    let w = write_rows(rows, ns, v, t, period, suppress_shadow);
    let j = choose|j: int| 0 <= j < rows.len() && row_grants(#[trigger] rows[j], key, mode, target);
    assert(w[j].0 == rows[j].0 && w[j].1 == rows[j].1);
    assert(row_grants(w[j], key, mode, target));
}

/// Recording a grant of one mode changes no key's rights in the other mode,
/// and no other key's rights at all.
pub proof fn lemma_grant_keeps_other_rights(
    rows: Seq<Row>,
    key: Seq<u8>,
    mode: Access,
    prefix: Seq<u8>,
    t: u64,
    period: u64,
    suppress_shadow: bool,
    other_key: Seq<u8>,
    other_mode: Access,
    ns: Seq<u8>,
)
    requires
        other_mode != mode || key_namespace(other_key) != key_namespace(key),
    ensures
        allowed(
            write_rows(rows, key_namespace(key), grant_value(mode, prefix), t, period, suppress_shadow),
            other_key,
            other_mode,
            ns,
        ) == allowed(rows, other_key, other_mode, ns),
{
    let kns = key_namespace(key);
    let gv = grant_value(mode, prefix);
    lemma_index_of(rows, kns, gv);
    let i = index_of(rows, kns, gv);
    let w = write_rows(rows, kns, gv, t, period, suppress_shadow);
    assert(mode_tag(Access::Read) != mode_tag(Access::Write));
    if allowed(w, other_key, other_mode, ns) {
        let j = choose|j: int| 0 <= j < w.len() && row_grants(#[trigger] w[j], other_key, other_mode, ns);
        if j < rows.len() {
            assert(w[j].0 == rows[j].0 && w[j].1 == rows[j].1);
            assert(row_grants(rows[j], other_key, other_mode, ns));
        } else {
            assert(w[j].0 == kns && w[j].1 == gv);
            assert(false);
        }
    }
    if allowed(rows, other_key, other_mode, ns) {
        let j = choose|j: int|
            0 <= j < rows.len() && row_grants(#[trigger] rows[j], other_key, other_mode, ns);
        assert(w[j].0 == rows[j].0 && w[j].1 == rows[j].1);
        assert(row_grants(w[j], other_key, other_mode, ns));
    }
}

} // verus!
