use vstd::prelude::*;
use crate::bytes::append_bytes;
use crate::record::Record;

verus! {

/// A mutation as it stands in the durability log.
pub enum OpView {
    Write { namespace: Seq<u8>, value: Seq<u8>, timestamp: u64, suppress_shadow: bool },
    Delete { namespace: Seq<u8> },
    /// Sets the record of a pair outright, as a compacted log does.
    Put { namespace: Seq<u8>, value: Seq<u8>, record: Record },
}

/// A mutation to be applied to a database and recorded in its log.
pub enum LogOp {
    Write { namespace: Vec<u8>, value: Vec<u8>, timestamp: u64, suppress_shadow: bool },
    Delete { namespace: Vec<u8> },
    Put { namespace: Vec<u8>, value: Vec<u8>, record: Record },
}

impl View for LogOp {
    type V = OpView;

    open spec fn view(&self) -> OpView {
        match self {
            LogOp::Write { namespace, value, timestamp, suppress_shadow } => OpView::Write {
                namespace: namespace@,
                value: value@,
                timestamp: *timestamp,
                suppress_shadow: *suppress_shadow,
            },
            LogOp::Delete { namespace } => OpView::Delete { namespace: namespace@ },
            LogOp::Put { namespace, value, record } => OpView::Put {
                namespace: namespace@,
                value: value@,
                record: *record,
            },
        }
    }
}

pub const TAG_WRITE: u8 = 1;

pub const TAG_DELETE: u8 = 2;

pub const TAG_PUT: u8 = 3;

pub open spec fn pow256(n: nat) -> nat
    decreases n,
{
    if n == 0 {
        1
    } else {
        256 * pow256((n - 1) as nat)
    }
}

/// The `n` low bytes of `x`, least significant first.
pub open spec fn le_bytes(x: nat, n: nat) -> Seq<u8>
    decreases n,
{
    if n == 0 {
        seq![]
    } else {
        seq![(x % 256) as u8] + le_bytes(x / 256, (n - 1) as nat)
    }
}

/// The number that a little-endian byte string stands for.
pub open spec fn le_val(s: Seq<u8>) -> nat
    decreases s.len(),
{
    if s.len() == 0 {
        0
    } else {
        s[0] as nat + 256 * le_val(s.subrange(1, s.len() as int))
    }
}

/// A byte string as a length field followed by its bytes.
pub open spec fn block(s: Seq<u8>) -> Seq<u8> {
    le_bytes(s.len(), 8) + s
}

/// The five counters of a record, each in eight bytes.
pub open spec fn record_bytes(r: Record) -> Seq<u8> {
    le_bytes(r.count as nat, 8) + le_bytes(r.shadow_count as nat, 8) + le_bytes(
        r.first_seen as nat,
        8,
    ) + le_bytes(r.last_seen as nat, 8) + le_bytes(r.last_decay_at as nat, 8)
}

/// The frame that records `op` in the log.
pub open spec fn encode(op: OpView) -> Seq<u8> {
    match op {
        OpView::Write { namespace, value, timestamp, suppress_shadow } => seq![TAG_WRITE] + block(
            namespace,
        ) + block(value) + le_bytes(timestamp as nat, 8) + seq![
            if suppress_shadow {
                1u8
            } else {
                0u8
            },
        ],
        OpView::Delete { namespace } => seq![TAG_DELETE] + block(namespace),
        OpView::Put { namespace, value, record } => seq![TAG_PUT] + block(namespace) + block(value)
            + record_bytes(record),
    }
}

/// The frames of `ops`, one after the other.
pub open spec fn encode_all(ops: Seq<OpView>) -> Seq<u8>
    decreases ops.len(),
{
    if ops.len() == 0 {
        seq![]
    } else {
        encode_all(ops.drop_last()) + encode(ops.last())
    }
}

pub proof fn lemma_le_round_trip(x: nat, n: nat)
    requires
        x < pow256(n),
    ensures
        le_bytes(x, n).len() == n,
        le_val(le_bytes(x, n)) == x,
    decreases n,
{
    if n == 0 {
    } else {
        let m = (n - 1) as nat;
        assert(x / 256 < pow256(m)) by (nonlinear_arith)
            requires
                x < 256 * pow256(m),
        ;
        lemma_le_round_trip(x / 256, m);
        let s = le_bytes(x, n);
        assert(s.subrange(1, s.len() as int) =~= le_bytes(x / 256, m));
        assert(x == x % 256 + 256 * (x / 256)) by (nonlinear_arith);
    }
}

pub proof fn lemma_pow256_8()
    ensures
        pow256(8) == 0x1_0000_0000_0000_0000,
{
    reveal_with_fuel(pow256, 9);
}

/// Appends the eight little-endian bytes of `x`.
pub fn put_u64(out: &mut Vec<u8>, x: u64)
    ensures
        final(out)@ == old(out)@ + le_bytes(x as nat, 8),
{
    let mut cur: u64 = x;
    let mut i: usize = 0;
    while i < 8
        invariant
            0 <= i <= 8,
            old(out)@ + le_bytes(x as nat, 8) == out@ + le_bytes(cur as nat, (8 - i) as nat),
        decreases 8 - i,
    {
        let ghost before = out@;
        let ghost c = cur;
        out.push((cur % 256) as u8);
        cur = cur / 256;
        assert(le_bytes(c as nat, (8 - i) as nat) == seq![(c % 256) as u8] + le_bytes(
            cur as nat,
            (8 - (i + 1)) as nat,
        ));
        assert(before + le_bytes(c as nat, (8 - i) as nat) =~= out@ + le_bytes(
            cur as nat,
            (8 - (i + 1)) as nat,
        ));
        i = i + 1;
    }
    assert(le_bytes(cur as nat, 0) =~= Seq::<u8>::empty());
    assert(out@ + le_bytes(cur as nat, 0) =~= out@);
}

/// Appends a length field and the bytes of `s`.
pub fn put_block(out: &mut Vec<u8>, s: &[u8])
    ensures
        final(out)@ == old(out)@ + block(s@),
{
    put_u64(out, s.len() as u64);
    append_bytes(out, s);
    assert(final(out)@ =~= old(out)@ + block(s@));
}

/// Appends the frame that records `op`.
pub fn encode_op(out: &mut Vec<u8>, op: &LogOp)
    ensures
        final(out)@ == old(out)@ + encode(op@),
{
    let ghost start = out@;
    match op {
        LogOp::Write { namespace, value, timestamp, suppress_shadow } => {
            out.push(TAG_WRITE);
            put_block(out, namespace.as_slice());
            put_block(out, value.as_slice());
            put_u64(out, *timestamp);
            out.push(
                if *suppress_shadow {
                    1u8
                } else {
                    0u8
                },
            );
            assert(out@ =~= start + encode(op@));
        },
        LogOp::Delete { namespace } => {
            out.push(TAG_DELETE);
            put_block(out, namespace.as_slice());
            assert(out@ =~= start + encode(op@));
        },
        LogOp::Put { namespace, value, record } => {
            out.push(TAG_PUT);
            put_block(out, namespace.as_slice());
            put_block(out, value.as_slice());
            put_u64(out, record.count);
            put_u64(out, record.shadow_count);
            put_u64(out, record.first_seen);
            put_u64(out, record.last_seen);
            put_u64(out, record.last_decay_at);
            assert(out@ =~= start + encode(op@));
        },
    }
}

/// Both byte strings of `op` have lengths that a length field can hold.
pub open spec fn op_fits(op: OpView) -> bool {
    match op {
        OpView::Write { namespace, value, .. } => namespace.len() < pow256(8) && value.len()
            < pow256(8),
        OpView::Delete { namespace } => namespace.len() < pow256(8),
        OpView::Put { namespace, value, .. } => namespace.len() < pow256(8) && value.len() < pow256(
            8,
        ),
    }
}

/// The eight-byte number at `pos`, if `s` holds it.
pub open spec fn read_u64_at(s: Seq<u8>, pos: int) -> Option<u64> {
    if 0 <= pos && pos + 8 <= s.len() {
        Some(le_val(s.subrange(pos, pos + 8)) as u64)
    } else {
        None
    }
}

/// The record whose counters stand in the forty bytes at `pos`.
pub open spec fn read_record_at(s: Seq<u8>, pos: int) -> Option<Record> {
    if 0 <= pos && pos + 40 <= s.len() {
        Some(
            Record {
                count: le_val(s.subrange(pos, pos + 8)) as u64,
                shadow_count: le_val(s.subrange(pos + 8, pos + 16)) as u64,
                first_seen: le_val(s.subrange(pos + 16, pos + 24)) as u64,
                last_seen: le_val(s.subrange(pos + 24, pos + 32)) as u64,
                last_decay_at: le_val(s.subrange(pos + 32, pos + 40)) as u64,
            },
        )
    } else {
        None
    }
}

/// The length field and bytes at `pos`, with the position after them.
pub open spec fn read_block_at(s: Seq<u8>, pos: int) -> Option<(Seq<u8>, int)> {
    match read_u64_at(s, pos) {
        Some(n) => if pos + 8 + n <= s.len() {
            Some((s.subrange(pos + 8, pos + 8 + n), pos + 8 + n))
        } else {
            None
        },
        None => None,
    }
}

/// The mutation whose frame starts `s`, with the length of that frame;
/// `None` where `s` does not start with a whole frame.
pub open spec fn parse_frame(s: Seq<u8>) -> Option<(OpView, int)> {
    if s.len() == 0 {
        None
    } else if s[0] == TAG_WRITE {
        match read_block_at(s, 1) {
            Some((ns, pos_v)) => match read_block_at(s, pos_v) {
                Some((v, pos_t)) => match read_u64_at(s, pos_t) {
                    Some(t) => if pos_t + 8 < s.len() && s[pos_t + 8] <= 1 {
                        Some(
                            (
                                OpView::Write {
                                    namespace: ns,
                                    value: v,
                                    timestamp: t,
                                    suppress_shadow: s[pos_t + 8] == 1,
                                },
                                pos_t + 9,
                            ),
                        )
                    } else {
                        None
                    },
                    None => None,
                },
                None => None,
            },
            None => None,
        }
    } else if s[0] == TAG_DELETE {
        match read_block_at(s, 1) {
            Some((ns, pos_v)) => Some((OpView::Delete { namespace: ns }, pos_v)),
            None => None,
        }
    } else if s[0] == TAG_PUT {
        match read_block_at(s, 1) {
            Some((ns, pos_v)) => match read_block_at(s, pos_v) {
                Some((v, pos_t)) => match read_record_at(s, pos_t) {
                    Some(r) => Some((OpView::Put { namespace: ns, value: v, record: r }, pos_t + 40)),
                    None => None,
                },
                None => None,
            },
            None => None,
        }
    } else {
        None
    }
}

/// The mutations of the whole frames at the start of `s`; decoding stops at
/// the first frame that is cut short or malformed.
pub open spec fn decode_all(s: Seq<u8>) -> Seq<OpView>
    decreases s.len(),
{
    match parse_frame(s) {
        Some((op, k)) => if 0 < k <= s.len() {
            seq![op] + decode_all(s.subrange(k, s.len() as int))
        } else {
            seq![]
        },
        None => seq![],
    }
}

/// What is left of `s` where decoding stops: empty, a frame cut short, or
/// a malformed frame.
pub open spec fn decode_rest(s: Seq<u8>) -> Seq<u8>
    decreases s.len(),
{
    match parse_frame(s) {
        Some((op, k)) => if 0 < k <= s.len() {
            decode_rest(s.subrange(k, s.len() as int))
        } else {
            s
        },
        None => s,
    }
}

/// Whether `s` starts with a frame that no further bytes could complete:
/// an unknown tag, or a write whose flag byte is neither 0 nor 1.
pub open spec fn frame_invalid(s: Seq<u8>) -> bool {
    s.len() > 0 && (!(s[0] == TAG_WRITE || s[0] == TAG_DELETE || s[0] == TAG_PUT) || (s[0]
        == TAG_WRITE && match read_block_at(s, 1) {
        Some((ns, pos_v)) => match read_block_at(s, pos_v) {
            Some((v, pos_t)) => pos_t + 8 < s.len() && s[pos_t + 8] > 1,
            None => false,
        },
        None => false,
    }))
}

/// Whether decoding `s` stops only at its end or at a final frame cut short.
pub open spec fn log_intact(s: Seq<u8>) -> bool {
    !frame_invalid(decode_rest(s))
}

pub proof fn lemma_le_val_bound(s: Seq<u8>)
    ensures
        le_val(s) < pow256(s.len()),
    decreases s.len(),
{
    if s.len() > 0 {
        let t = s.subrange(1, s.len() as int);
        lemma_le_val_bound(t);
        assert(pow256(s.len()) == 256 * pow256(t.len()));
        assert(s[0] as nat + 256 * le_val(t) < 256 * pow256(t.len())) by (nonlinear_arith)
            requires
                le_val(t) < pow256(t.len()),
                s[0] < 256,
        ;
    }
}

pub proof fn lemma_pow256_mono(a: nat, b: nat)
    requires
        a <= b,
    ensures
        pow256(a) <= pow256(b),
    decreases b,
{
    if a < b {
        lemma_pow256_mono(a, (b - 1) as nat);
    }
}

/// A frame, whatever follows it, parses back to its mutation.
pub proof fn lemma_parse_encode(op: OpView, rest: Seq<u8>)
    requires
        op_fits(op),
    ensures
        parse_frame(encode(op) + rest) == Some((op, encode(op).len() as int)),
{
    lemma_pow256_8();
    let s = encode(op) + rest;
    match op {
        OpView::Write { namespace, value, timestamp, suppress_shadow } => {
            let n = namespace.len();
            let m = value.len();
            lemma_le_round_trip(n, 8);
            lemma_le_round_trip(m, 8);
            lemma_le_round_trip(timestamp as nat, 8);
            let pos_v: int = 9 + n as int;
            let pos_t: int = pos_v + 8 + m as int;
            assert(s.subrange(1, 9) =~= le_bytes(n, 8));
            assert(s.subrange(9, 9 + n as int) =~= namespace);
            assert(s.subrange(pos_v, pos_v + 8) =~= le_bytes(m, 8));
            assert(s.subrange(pos_v + 8, pos_t) =~= value);
            assert(s.subrange(pos_t, pos_t + 8) =~= le_bytes(timestamp as nat, 8));
            assert(s[pos_t + 8] == (if suppress_shadow {
                1u8
            } else {
                0u8
            }));
        },
        OpView::Delete { namespace } => {
            let n = namespace.len();
            lemma_le_round_trip(n, 8);
            assert(s.subrange(1, 9) =~= le_bytes(n, 8));
            assert(s.subrange(9, 9 + n as int) =~= namespace);
        },
        OpView::Put { namespace, value, record } => {
            let n = namespace.len();
            let m = value.len();
            lemma_le_round_trip(n, 8);
            lemma_le_round_trip(m, 8);
            lemma_le_round_trip(record.count as nat, 8);
            lemma_le_round_trip(record.shadow_count as nat, 8);
            lemma_le_round_trip(record.first_seen as nat, 8);
            lemma_le_round_trip(record.last_seen as nat, 8);
            lemma_le_round_trip(record.last_decay_at as nat, 8);
            let pos_v: int = 9 + n as int;
            let pos_t: int = pos_v + 8 + m as int;
            assert(s.subrange(1, 9) =~= le_bytes(n, 8));
            assert(s.subrange(9, 9 + n as int) =~= namespace);
            assert(s.subrange(pos_v, pos_v + 8) =~= le_bytes(m, 8));
            assert(s.subrange(pos_v + 8, pos_t) =~= value);
            assert(s.subrange(pos_t, pos_t + 8) =~= le_bytes(record.count as nat, 8));
            assert(s.subrange(pos_t + 8, pos_t + 16) =~= le_bytes(record.shadow_count as nat, 8));
            assert(s.subrange(pos_t + 16, pos_t + 24) =~= le_bytes(record.first_seen as nat, 8));
            assert(s.subrange(pos_t + 24, pos_t + 32) =~= le_bytes(record.last_seen as nat, 8));
            assert(s.subrange(pos_t + 32, pos_t + 40) =~= le_bytes(record.last_decay_at as nat, 8));
        },
    }
}

/// The frames of `ops`, whatever follows them, decode back to `ops`.
pub proof fn lemma_decode_encode_all(ops: Seq<OpView>, rest: Seq<u8>)
    requires
        forall|i: int| 0 <= i < ops.len() ==> op_fits(#[trigger] ops[i]),
    ensures
        decode_all(encode_all(ops) + rest) == ops + decode_all(rest),
    decreases ops.len(),
{
    if ops.len() == 0 {
        assert(encode_all(ops) + rest =~= rest);
        assert(ops + decode_all(rest) =~= decode_all(rest));
    } else {
        let last = ops.last();
        let front = ops.drop_last();
        let tail = encode(last) + rest;
        assert(op_fits(ops[ops.len() - 1]));
        lemma_parse_encode(last, rest);
        let k = encode(last).len() as int;
        assert(tail.subrange(k, tail.len() as int) =~= rest);
        assert(decode_all(tail) == seq![last] + decode_all(rest));
        lemma_decode_encode_all(front, tail);
        assert(encode_all(ops) + rest =~= encode_all(front) + tail);
        assert(ops =~= front + seq![last]);
        assert(front + (seq![last] + decode_all(rest)) =~= ops + decode_all(rest));
    }
}

/// Decoding stops in `rest` where it would stop without the frames before it.
pub proof fn lemma_rest_encode_all(ops: Seq<OpView>, rest: Seq<u8>)
    requires
        forall|i: int| 0 <= i < ops.len() ==> op_fits(#[trigger] ops[i]),
    ensures
        decode_rest(encode_all(ops) + rest) == decode_rest(rest),
    decreases ops.len(),
{
    if ops.len() == 0 {
        assert(encode_all(ops) + rest =~= rest);
    } else {
        let last = ops.last();
        let front = ops.drop_last();
        let tail = encode(last) + rest;
        assert(op_fits(ops[ops.len() - 1]));
        lemma_parse_encode(last, rest);
        let k = encode(last).len() as int;
        assert(tail.subrange(k, tail.len() as int) =~= rest);
        lemma_rest_encode_all(front, tail);
        assert(encode_all(ops) + rest =~= encode_all(front) + tail);
    }
}

/// What a prefix of `f` reads at `pos` is what `f` reads there.
pub proof fn lemma_prefix_reads(f: Seq<u8>, k: int, pos: int)
    requires
        0 <= k <= f.len(),
    ensures
        read_u64_at(f.subrange(0, k), pos) is Some ==> read_u64_at(f.subrange(0, k), pos)
            == read_u64_at(f, pos),
        read_block_at(f.subrange(0, k), pos) is Some ==> read_block_at(f.subrange(0, k), pos)
            == read_block_at(f, pos),
        read_record_at(f.subrange(0, k), pos) is Some ==> read_record_at(f.subrange(0, k), pos)
            == read_record_at(f, pos),
{
    let t = f.subrange(0, k);
    if 0 <= pos && pos + 40 <= k {
        assert(t.subrange(pos, pos + 8) =~= f.subrange(pos, pos + 8));
        assert(t.subrange(pos + 8, pos + 16) =~= f.subrange(pos + 8, pos + 16));
        assert(t.subrange(pos + 16, pos + 24) =~= f.subrange(pos + 16, pos + 24));
        assert(t.subrange(pos + 24, pos + 32) =~= f.subrange(pos + 24, pos + 32));
        assert(t.subrange(pos + 32, pos + 40) =~= f.subrange(pos + 32, pos + 40));
    }
    if 0 <= pos && pos + 8 <= k {
        assert(t.subrange(pos, pos + 8) =~= f.subrange(pos, pos + 8));
        let n = le_val(t.subrange(pos, pos + 8)) as u64;
        if pos + 8 + n <= k {
            assert(t.subrange(pos + 8, pos + 8 + n) =~= f.subrange(pos + 8, pos + 8 + n));
        }
    }
}

/// A whole frame cut short parses to nothing.
pub proof fn lemma_cut_frame(op: OpView, k: int)
    requires
        op_fits(op),
        0 <= k < encode(op).len(),
    ensures
        decode_all(encode(op).subrange(0, k)) == Seq::<OpView>::empty(),
        decode_rest(encode(op).subrange(0, k)) == encode(op).subrange(0, k),
        !frame_invalid(encode(op).subrange(0, k)),
{
    let f = encode(op);
    lemma_parse_encode(op, Seq::empty());
    assert(f + Seq::<u8>::empty() =~= f);
    let t = f.subrange(0, k);
    if k > 0 {
        assert(t[0] == f[0]);
        lemma_prefix_reads(f, k, 1);
        match read_block_at(f, 1) {
            Some((ns, pos_v)) => {
                lemma_prefix_reads(f, k, pos_v);
                match read_block_at(f, pos_v) {
                    Some((v, pos_t)) => {
                        lemma_prefix_reads(f, k, pos_t);
                        if pos_t + 8 < k {
                            assert(t[pos_t + 8] == f[pos_t + 8]);
                        }
                    },
                    None => {},
                }
            },
            None => {},
        }
    }
}

/// A log whose last frame was cut short, as a crash during an append leaves
/// it, decodes to the mutations of its whole frames.
pub proof fn lemma_torn_tail(ops: Seq<OpView>, op: OpView, k: int)
    requires
        forall|i: int| 0 <= i < ops.len() ==> op_fits(#[trigger] ops[i]),
        op_fits(op),
        0 <= k < encode(op).len(),
    ensures
        decode_all(encode_all(ops) + encode(op).subrange(0, k)) == ops,
        log_intact(encode_all(ops) + encode(op).subrange(0, k)),
{
    lemma_rest_encode_all(ops, encode(op).subrange(0, k));
    lemma_decode_encode_all(ops, encode(op).subrange(0, k));
    lemma_cut_frame(op, k);
    assert(ops + Seq::<OpView>::empty() =~= ops);
}

/// Reads the eight-byte number at `pos`, if `s` holds it.
pub fn get_u64(s: &[u8], pos: usize) -> (r: Option<u64>)
    ensures
        r == read_u64_at(s@, pos as int),
{
    if pos > s.len() || s.len() - pos < 8 {
        return None;
    }
    let mut acc: u64 = 0;
    let mut j: usize = 8;
    proof {
        lemma_pow256_8();
        assert(s@.subrange(pos + 8, pos + 8) =~= Seq::<u8>::empty());
    }
    while j > 0
        invariant
            pos + 8 <= s@.len(),
            s@.len() <= usize::MAX,
            0 <= j <= 8,
            acc as nat == le_val(s@.subrange(pos + j, pos + 8)),
            pow256(8) == 0x1_0000_0000_0000_0000,
        decreases j,
    {
        let ghost sub = s@.subrange(pos + j - 1, pos + 8);
        assert(sub.subrange(1, sub.len() as int) =~= s@.subrange(pos + j, pos + 8));
        proof {
            lemma_le_val_bound(sub);
            lemma_pow256_mono(sub.len(), 8);
        }
        let b = s[pos + j - 1];
        assert(acc as nat * 256 + b as nat == le_val(sub));
        acc = acc * 256 + b as u64;
        j = j - 1;
    }
    Some(acc)
}

/// Reads the record whose counters stand in the forty bytes at `pos`.
pub fn get_record(s: &[u8], pos: usize) -> (r: Option<Record>)
    ensures
        r == read_record_at(s@, pos as int),
{
    if pos > s.len() || s.len() - pos < 40 {
        return None;
    }
    let count = get_u64(s, pos).unwrap();
    let shadow_count = get_u64(s, pos + 8).unwrap();
    let first_seen = get_u64(s, pos + 16).unwrap();
    let last_seen = get_u64(s, pos + 24).unwrap();
    let last_decay_at = get_u64(s, pos + 32).unwrap();
    Some(Record { count, shadow_count, first_seen, last_seen, last_decay_at })
}

/// Reads the length field and bytes at `pos`, with the position after them.
pub fn get_block(s: &[u8], pos: usize) -> (r: Option<(Vec<u8>, usize)>)
    ensures
        match r {
            Some((b, end)) => read_block_at(s@, pos as int) == Some((b@, end as int)),
            None => read_block_at(s@, pos as int) is None,
        },
{
    let len = s.len();
    match get_u64(s, pos) {
        Some(n) => {
            let start = pos + 8;
            if n > (len - start) as u64 {
                return None;
            }
            let end = start + n as usize;
            let b = vstd::slice::slice_to_vec(vstd::slice::slice_subrange(s, start, end));
            Some((b, end))
        },
        None => None,
    }
}

pub proof fn lemma_tail_u64(s: Seq<u8>, pos: int, off: int)
    requires
        0 <= pos <= s.len(),
        0 <= off,
    ensures
        read_u64_at(s.subrange(pos, s.len() as int), off) == read_u64_at(s, pos + off),
{
    let t = s.subrange(pos, s.len() as int);
    if off + 8 <= t.len() {
        assert(t.subrange(off, off + 8) =~= s.subrange(pos + off, pos + off + 8));
    }
}

pub proof fn lemma_tail_block(s: Seq<u8>, pos: int, off: int)
    requires
        0 <= pos <= s.len(),
        0 <= off,
    ensures
        read_block_at(s.subrange(pos, s.len() as int), off) == (match read_block_at(s, pos + off) {
            Some((b, end)) => Some((b, end - pos)),
            None => None,
        }),
{
    let t = s.subrange(pos, s.len() as int);
    lemma_tail_u64(s, pos, off);
    match read_u64_at(s, pos + off) {
        Some(n) => {
            if pos + off + 8 + n <= s.len() {
                assert(t.subrange(off + 8, off + 8 + n) =~= s.subrange(
                    pos + off + 8,
                    pos + off + 8 + n,
                ));
            }
        },
        None => {},
    }
}

pub proof fn lemma_tail_record(s: Seq<u8>, pos: int, off: int)
    requires
        0 <= pos <= s.len(),
        0 <= off,
    ensures
        read_record_at(s.subrange(pos, s.len() as int), off) == read_record_at(s, pos + off),
{
    let t = s.subrange(pos, s.len() as int);
    if off + 40 <= t.len() {
        assert(t.subrange(off, off + 8) =~= s.subrange(pos + off, pos + off + 8));
        assert(t.subrange(off + 8, off + 16) =~= s.subrange(pos + off + 8, pos + off + 16));
        assert(t.subrange(off + 16, off + 24) =~= s.subrange(pos + off + 16, pos + off + 24));
        assert(t.subrange(off + 24, off + 32) =~= s.subrange(pos + off + 24, pos + off + 32));
        assert(t.subrange(off + 32, off + 40) =~= s.subrange(pos + off + 32, pos + off + 40));
    }
}

/// Parses the frame that starts at `pos`, giving its mutation and the
/// position after it.
pub fn parse_frame_at(s: &[u8], pos: usize) -> (r: Option<(LogOp, usize)>)
    requires
        pos <= s@.len(),
    ensures
        match r {
            Some((op, end)) => parse_frame(s@.subrange(pos as int, s@.len() as int)) == Some(
                (op@, end - pos),
            ),
            None => parse_frame(s@.subrange(pos as int, s@.len() as int)) is None,
        },
{
    let ghost t = s@.subrange(pos as int, s@.len() as int);
    if pos == s.len() {
        return None;
    }
    assert(t[0] == s@[pos as int]);
    proof {
        lemma_tail_block(s@, pos as int, 1);
    }
    let tag = s[pos];
    if tag == TAG_WRITE {
        match get_block(s, pos + 1) {
            Some((namespace, pos_v)) => {
                proof {
                    lemma_tail_block(s@, pos as int, pos_v - pos);
                }
                match get_block(s, pos_v) {
                    Some((value, pos_t)) => {
                        proof {
                            lemma_tail_u64(s@, pos as int, pos_t - pos);
                        }
                        match get_u64(s, pos_t) {
                            Some(timestamp) => {
                                if pos_t + 8 < s.len() && s[pos_t + 8] <= 1 {
                                    assert(t[pos_t - pos + 8] == s@[pos_t + 8]);
                                    let suppress_shadow = s[pos_t + 8] == 1;
                                    Some(
                                        (
                                            LogOp::Write {
                                                namespace,
                                                value,
                                                timestamp,
                                                suppress_shadow,
                                            },
                                            pos_t + 9,
                                        ),
                                    )
                                } else {
                                    if pos_t + 8 < s.len() {
                                        assert(t[pos_t - pos + 8] == s@[pos_t + 8]);
                                    }
                                    None
                                }
                            },
                            None => None,
                        }
                    },
                    None => None,
                }
            },
            None => None,
        }
    } else if tag == TAG_DELETE {
        match get_block(s, pos + 1) {
            Some((namespace, pos_v)) => Some((LogOp::Delete { namespace }, pos_v)),
            None => None,
        }
    } else if tag == TAG_PUT {
        match get_block(s, pos + 1) {
            Some((namespace, pos_v)) => {
                proof {
                    lemma_tail_block(s@, pos as int, pos_v - pos);
                }
                match get_block(s, pos_v) {
                    Some((value, pos_t)) => {
                        proof {
                            lemma_tail_record(s@, pos as int, pos_t - pos);
                        }
                        match get_record(s, pos_t) {
                            Some(record) => Some(
                                (LogOp::Put { namespace, value, record }, pos_t + 40),
                            ),
                            None => None,
                        }
                    },
                    None => None,
                }
            },
            None => None,
        }
    } else {
        None
    }
}

/// Whether the frame at `pos` is one that no further bytes could complete.
pub fn frame_is_invalid(s: &[u8], pos: usize) -> (r: bool)
    requires
        pos <= s@.len(),
    ensures
        r == frame_invalid(s@.subrange(pos as int, s@.len() as int)),
{
    let ghost t = s@.subrange(pos as int, s@.len() as int);
    if pos == s.len() {
        return false;
    }
    assert(t[0] == s@[pos as int]);
    let tag = s[pos];
    if tag != TAG_WRITE {
        return !(tag == TAG_DELETE || tag == TAG_PUT);
    }
    proof {
        lemma_tail_block(s@, pos as int, 1);
    }
    match get_block(s, pos + 1) {
        Some((_namespace, pos_v)) => {
            proof {
                lemma_tail_block(s@, pos as int, pos_v - pos);
            }
            match get_block(s, pos_v) {
                Some((_value, pos_t)) => {
                    if pos_t < s.len() && s.len() - pos_t > 8 {
                        assert(t[pos_t - pos + 8] == s@[pos_t + 8]);
                        s[pos_t + 8] > 1
                    } else {
                        false
                    }
                },
                None => false,
            }
        },
        None => false,
    }
}

/// The mutations of the whole frames of `s`, where decoding stops only at
/// the end or at a final frame cut short, as a crash during an append
/// leaves it; otherwise the position of the first malformed frame.
pub fn decode_log(s: &[u8]) -> (r: Result<Vec<LogOp>, usize>)
    ensures
        match r {
            Ok(ops) => ops@.map_values(|op: LogOp| op@) == decode_all(s@) && log_intact(s@),
            Err(pos) => !log_intact(s@) && pos <= s@.len() && decode_rest(s@) == s@.subrange(
                pos as int,
                s@.len() as int,
            ),
        },
{
    let mut out: Vec<LogOp> = Vec::new();
    let mut pos: usize = 0;
    assert(s@.subrange(0, s@.len() as int) =~= s@);
    loop
        invariant
            0 <= pos <= s@.len(),
            decode_all(s@) == out@.map_values(|op: LogOp| op@) + decode_all(
                s@.subrange(pos as int, s@.len() as int),
            ),
            decode_rest(s@) == decode_rest(s@.subrange(pos as int, s@.len() as int)),
        decreases s@.len() - pos,
    {
        let ghost t = s@.subrange(pos as int, s@.len() as int);
        match parse_frame_at(s, pos) {
            Some((op, end)) => {
                assert(t.subrange(end - pos, t.len() as int) =~= s@.subrange(
                    end as int,
                    s@.len() as int,
                ));
                let ghost before = out@.map_values(|op: LogOp| op@);
                let ghost v = op@;
                out.push(op);
                assert(out@.map_values(|op: LogOp| op@) =~= before.push(v));
                assert(before + (seq![v] + decode_all(s@.subrange(end as int, s@.len() as int)))
                    =~= before.push(v) + decode_all(s@.subrange(end as int, s@.len() as int)));
                pos = end;
            },
            None => {
                assert(out@.map_values(|op: LogOp| op@) + decode_all(t) =~= out@.map_values(
                    |op: LogOp| op@,
                ));
                if frame_is_invalid(s, pos) {
                    return Err(pos);
                }
                return Ok(out);
            },
        }
    }
}

} // verus!
