//! The mathematical model of recovery: scanning a segment's bytes into
//! records, and folding the records of the whole log into the index a
//! restart rebuilds.
//!
//! The engine's central invariant is that its memory index always equals
//! the fold below applied to its segments' bytes; opening an engine runs
//! exactly this fold, so a restart reproduces the index.

use vstd::prelude::*;

use crate::keys::spec_split_key;
use crate::log_record::{
    encodable, lemma_parse_encoded, lemma_parse_record_size, spec_encoded, spec_header_window,
    spec_parse_record, LogRecordPos, LogRecordType, RecParse, RecView,
};
use crate::varint::spec_varint_parse;

verus! {

/// A record at its place in the log.
pub struct LocatedRecord {
    pub pos: LogRecordPos,
    pub rec: RecView,
}

/// Scanning a segment yields its records and the offset of the clean end,
/// or fails on damage.
pub enum ScanResult {
    Bad,
    Good(Seq<LocatedRecord>, int),
}

/// The records of segment `fid` with contents `c`, from `off` to the
/// first clean end of file.  Damage anywhere makes the whole scan bad.
pub open spec fn spec_scan_from(c: Seq<u8>, fid: u32, off: int) -> ScanResult
    decreases c.len() - off,
    via spec_scan_from_dec
{
    if off < 0 {
        ScanResult::Bad
    } else {
        match spec_parse_record(c, off) {
            RecParse::Eof => ScanResult::Good(Seq::empty(), off),
            RecParse::Corrupt => ScanResult::Bad,
            RecParse::Rec(rv, sz) => match spec_scan_from(c, fid, off + sz) {
                ScanResult::Bad => ScanResult::Bad,
                ScanResult::Good(rest, end) => ScanResult::Good(
                    seq![
                        LocatedRecord {
                            pos: LogRecordPos { file_id: fid, offset: off as u64 },
                            rec: rv,
                        }
                    ] + rest,
                    end,
                ),
            },
        }
    }
}

#[via_fn]
proof fn spec_scan_from_dec(c: Seq<u8>, fid: u32, off: int) {
    if off >= 0 {
        match spec_parse_record(c, off) {
            RecParse::Rec(rv, sz) => {
                lemma_parse_record_size(c, off);
            },
            _ => {},
        }
    }
}

/// The scan of a whole segment.
pub open spec fn spec_scan(c: Seq<u8>, fid: u32) -> ScanResult {
    spec_scan_from(c, fid, 0)
}

/// Past the end of the segment only zeroes are read, which is the clean
/// end of file.
pub proof fn lemma_parse_past_end(c: Seq<u8>, off: int)
    requires
        off >= c.len(),
    ensures
        spec_parse_record(c, off) == RecParse::Eof,
{
    let win = spec_header_window(c, off);
    assert(win[0] == 0);
    assert(win.skip(1)[0] == 0);
    assert(spec_varint_parse(win.skip(1)) == Some((0int, 1int)));
    assert(win.skip(2)[0] == 0);
    assert(spec_varint_parse(win.skip(2)) == Some((0int, 1int)));
}

/// A good scan ends between its start and the end of the segment.
pub proof fn lemma_scan_from_end(c: Seq<u8>, fid: u32, off: int)
    requires
        0 <= off,
        spec_scan_from(c, fid, off) is Good,
    ensures
        ({
            let end = spec_scan_from(c, fid, off)->Good_1;
            off <= end && (off <= c.len() ==> end <= c.len())
        }),
    decreases c.len() - off,
{
    match spec_parse_record(c, off) {
        RecParse::Rec(rv, sz) => {
            lemma_parse_record_size(c, off);
            lemma_scan_from_end(c, fid, off + sz);
        },
        _ => {},
    }
}

/// Every record a good scan yields sits where the scan says: in this
/// segment, at an offset where the bytes parse to exactly that record.
pub proof fn lemma_scan_from_positions(c: Seq<u8>, fid: u32, off: int)
    requires
        0 <= off,
        c.len() <= u64::MAX,
        spec_scan_from(c, fid, off) is Good,
    ensures
        ({
            let rs = spec_scan_from(c, fid, off)->Good_0;
            forall|i: int|
                0 <= i < rs.len() ==> (#[trigger] rs[i]).pos.file_id == fid && off <= rs[i].pos.offset
                    && rs[i].pos.offset <= c.len() && (exists|sz: int|
                    spec_parse_record(c, rs[i].pos.offset as int) == RecParse::Rec(rs[i].rec, sz))
        }),
    decreases c.len() - off,
{
    let rs = spec_scan_from(c, fid, off)->Good_0;
    match spec_parse_record(c, off) {
        RecParse::Rec(rv, sz) => {
            lemma_parse_record_size(c, off);
            lemma_scan_from_positions(c, fid, off + sz);
            let rest = spec_scan_from(c, fid, off + sz)->Good_0;
            assert forall|i: int|
                0 <= i < rs.len() implies (#[trigger] rs[i]).pos.file_id == fid && off <= rs[i].pos.offset
                    && rs[i].pos.offset <= c.len() && (exists|sz2: int|
                    spec_parse_record(c, rs[i].pos.offset as int) == RecParse::Rec(
                        rs[i].rec,
                        sz2,
                    )) by {
                if i == 0 {
                    assert(rs[0].pos.offset == off as u64);
                    assert(spec_parse_record(c, off) == RecParse::Rec(rs[0].rec, sz));
                } else {
                    assert(rs[i] == rest[i - 1]);
                }
            }
        },
        _ => {},
    }
}

/// Reading one varint inspects nothing past the bytes it consumes.
proof fn lemma_varint_parse_prefix(s1: Seq<u8>, s2: Seq<u8>)
    requires
        spec_varint_parse(s1) is Some,
        s2.len() >= spec_varint_parse(s1)->Some_0.1,
        forall|i: int| 0 <= i < spec_varint_parse(s1)->Some_0.1 ==> s1[i] == s2[i],
    ensures
        spec_varint_parse(s2) == spec_varint_parse(s1),
    decreases s1.len(),
{
    let (v, l) = spec_varint_parse(s1)->Some_0;
    crate::varint::lemma_varint_parse_bounds(s1);
    if s1[0] < 128 {
        assert(s2[0] == s1[0]);
    } else {
        assert(s2[0] == s1[0]);
        let t1 = s1.skip(1);
        let t2 = s2.skip(1);
        crate::varint::lemma_varint_parse_bounds(t1);
        assert(forall|i: int|
            0 <= i < spec_varint_parse(t1)->Some_0.1 ==> t1[i] == t2[i]);
        lemma_varint_parse_prefix(t1, t2);
    }
}

/// A record that parses within `c` still parses the same after more bytes
/// are appended.
pub proof fn lemma_parse_stable_append(c: Seq<u8>, ext: Seq<u8>, off: int)
    requires
        0 <= off,
        spec_parse_record(c, off) is Rec,
    ensures
        spec_parse_record(c + ext, off) == spec_parse_record(c, off),
{
    let d = c + ext;
    let w1 = spec_header_window(c, off);
    let w2 = spec_header_window(d, off);
    let sz = spec_parse_record(c, off)->Rec_1;
    lemma_parse_record_size(c, off);

    let p1 = spec_varint_parse(w1.skip(1));
    let (ks, l1) = p1->Some_0;
    crate::varint::lemma_varint_parse_bounds(w1.skip(1));
    let p2 = spec_varint_parse(w1.skip(1 + l1));
    let (vs, l2) = p2->Some_0;
    crate::varint::lemma_varint_parse_bounds(w1.skip(1 + l1));
    let ah = 1 + l1 + l2;

    // the bytes the header reads lie inside the record, hence inside `c`
    assert(off + ah + ks + vs + 4 <= c.len());
    assert forall|i: int| 0 <= i < ah implies w2[i] == w1[i] by {
        assert(off + i < c.len());
        assert(d[off + i] == c[off + i]);
    }
    assert forall|i: int| 0 <= i < l1 implies #[trigger] w1.skip(1)[i] == w2.skip(1)[i] by {}
    lemma_varint_parse_prefix(w1.skip(1), w2.skip(1));
    assert forall|i: int|
        0 <= i < l2 implies #[trigger] w1.skip(1 + l1)[i] == w2.skip(1 + l1)[i] by {}
    lemma_varint_parse_prefix(w1.skip(1 + l1), w2.skip(1 + l1));

    assert(w2[0] == w1[0]);
    assert(d.subrange(off, off + ah + ks + vs) =~= c.subrange(off, off + ah + ks + vs));
    assert(d.subrange(off + ah + ks + vs, off + ah + ks + vs + 4) =~= c.subrange(
        off + ah + ks + vs,
        off + ah + ks + vs + 4,
    ));
    assert(d.subrange(off + ah, off + ah + ks) =~= c.subrange(off + ah, off + ah + ks));
    assert(d.subrange(off + ah + ks, off + ah + ks + vs) =~= c.subrange(
        off + ah + ks,
        off + ah + ks + vs,
    ));
}

/// Parsing a record inspects only the record's own bytes: any contents
/// agreeing on them parses the same record.
pub proof fn lemma_parse_agree(c1: Seq<u8>, c2: Seq<u8>, off: int)
    requires
        0 <= off,
        spec_parse_record(c1, off) is Rec,
        off + spec_parse_record(c1, off)->Rec_1 <= c2.len(),
        forall|i: int|
            off <= i < off + spec_parse_record(c1, off)->Rec_1 ==> c1[i] == #[trigger] c2[i],
    ensures
        spec_parse_record(c2, off) == spec_parse_record(c1, off),
{
    let w1 = spec_header_window(c1, off);
    let w2 = spec_header_window(c2, off);
    let sz = spec_parse_record(c1, off)->Rec_1;
    lemma_parse_record_size(c1, off);

    let p1 = spec_varint_parse(w1.skip(1));
    let (ks, l1) = p1->Some_0;
    crate::varint::lemma_varint_parse_bounds(w1.skip(1));
    let p2 = spec_varint_parse(w1.skip(1 + l1));
    let (vs, l2) = p2->Some_0;
    crate::varint::lemma_varint_parse_bounds(w1.skip(1 + l1));
    let ah = 1 + l1 + l2;

    assert(off + ah + ks + vs + 4 <= c1.len());
    assert(sz == ah + ks + vs + 4);
    assert forall|i: int| 0 <= i < ah implies w2[i] == w1[i] by {
        assert(off + i < c1.len());
        assert(off + i < c2.len());
        assert(c2[off + i] == c1[off + i]);
    }
    assert forall|i: int| 0 <= i < l1 implies #[trigger] w1.skip(1)[i] == w2.skip(1)[i] by {}
    lemma_varint_parse_prefix(w1.skip(1), w2.skip(1));
    assert forall|i: int|
        0 <= i < l2 implies #[trigger] w1.skip(1 + l1)[i] == w2.skip(1 + l1)[i] by {}
    lemma_varint_parse_prefix(w1.skip(1 + l1), w2.skip(1 + l1));

    assert(w2[0] == w1[0]);
    assert(c2.subrange(off, off + ah + ks + vs) =~= c1.subrange(off, off + ah + ks + vs));
    assert(c2.subrange(off + ah + ks + vs, off + ah + ks + vs + 4) =~= c1.subrange(
        off + ah + ks + vs,
        off + ah + ks + vs + 4,
    ));
    assert(c2.subrange(off + ah, off + ah + ks) =~= c1.subrange(off + ah, off + ah + ks));
    assert(c2.subrange(off + ah + ks, off + ah + ks + vs) =~= c1.subrange(
        off + ah + ks,
        off + ah + ks + vs,
    ));
}

/// Cutting a segment at the clean end its scan found leaves the same
/// records, now filling the whole segment.
pub proof fn lemma_scan_truncate(c: Seq<u8>, fid: u32, off: int)
    requires
        0 <= off,
        spec_scan_from(c, fid, off) is Good,
        spec_scan_from(c, fid, off)->Good_1 <= c.len(),
    ensures
        spec_scan_from(
            c.subrange(0, spec_scan_from(c, fid, off)->Good_1),
            fid,
            off,
        ) == spec_scan_from(c, fid, off),
    decreases c.len() - off,
{
    let end = spec_scan_from(c, fid, off)->Good_1;
    let t = c.subrange(0, end);
    match spec_parse_record(c, off) {
        RecParse::Eof => {
            assert(off == end);
            lemma_parse_past_end(t, off);
        },
        RecParse::Corrupt => {},
        RecParse::Rec(rv, sz) => {
            lemma_parse_record_size(c, off);
            lemma_scan_from_end(c, fid, off + sz);
            assert(spec_scan_from(c, fid, off + sz)->Good_1 == end);
            assert(off + sz <= end);
            lemma_parse_agree(c, t, off);
            lemma_scan_truncate(c, fid, off + sz);
        },
    }
}

/// Appending one encoded record to a fully scanned segment extends its
/// scan by exactly that record, located at the old end.
pub proof fn lemma_scan_append(c: Seq<u8>, fid: u32, off: int, r: RecView)
    requires
        0 <= off,
        encodable(r),
        c.len() + spec_encoded(r).len() <= u64::MAX,
        spec_scan_from(c, fid, off) is Good,
        spec_scan_from(c, fid, off)->Good_1 == c.len(),
    ensures
        spec_scan_from(c + spec_encoded(r), fid, off) == ScanResult::Good(
            spec_scan_from(c, fid, off)->Good_0 + seq![
                LocatedRecord {
                    pos: LogRecordPos { file_id: fid, offset: c.len() as u64 },
                    rec: r,
                }
            ],
            c.len() + spec_encoded(r).len() as int,
        ),
    decreases c.len() - off,
{
    let enc = spec_encoded(r);
    let d = c + enc;
    let rs = spec_scan_from(c, fid, off)->Good_0;
    let newrec = LocatedRecord {
        pos: LogRecordPos { file_id: fid, offset: c.len() as u64 },
        rec: r,
    };
    match spec_parse_record(c, off) {
        RecParse::Eof => {
            assert(off == c.len());
            assert(rs =~= Seq::<LocatedRecord>::empty());
            assert(d.subrange(off, off + enc.len() as int) =~= enc);
            lemma_parse_encoded(d, off, r);
            assert(spec_parse_record(d, off) == RecParse::Rec(r, enc.len() as int));
            lemma_parse_past_end(d, off + enc.len());
            assert(spec_scan_from(d, fid, off + enc.len()) == ScanResult::Good(
                Seq::<LocatedRecord>::empty(),
                off + enc.len(),
            ));
            assert(spec_scan_from(d, fid, off) == ScanResult::Good(
                seq![newrec] + Seq::<LocatedRecord>::empty(),
                off + enc.len(),
            ));
            assert(seq![newrec] + Seq::<LocatedRecord>::empty() =~= rs + seq![newrec]);
        },
        RecParse::Corrupt => {
            assert(false);
        },
        RecParse::Rec(rv, sz) => {
            lemma_parse_record_size(c, off);
            lemma_parse_stable_append(c, enc, off);
            lemma_scan_append(c, fid, off + sz, r);
            let rest = spec_scan_from(c, fid, off + sz)->Good_0;
            assert(rs == seq![
                LocatedRecord { pos: LogRecordPos { file_id: fid, offset: off as u64 }, rec: rv }
            ] + rest);
            assert(spec_scan_from(d, fid, off + sz) == ScanResult::Good(
                rest + seq![newrec],
                c.len() + enc.len() as int,
            ));
            assert(seq![
                LocatedRecord { pos: LogRecordPos { file_id: fid, offset: off as u64 }, rec: rv }
            ] + (rest + seq![newrec]) =~= rs + seq![newrec]);
        },
    }
}

/// One record as the replay holds it back for its transaction, or applies
/// it: the user key, the operation, the value, and where it lies.
pub struct PendRec {
    pub key: Seq<u8>,
    pub rec_type: LogRecordType,
    pub value: Seq<u8>,
    pub pos: LogRecordPos,
}

/// What the index remembers of a live key: where its record lies and what
/// value that record carries.
pub struct IdxEntry {
    pub pos: LogRecordPos,
    pub value: Seq<u8>,
}

/// The state the replay threads through the log: the index built so far,
/// the records of transactions whose sentinel has not yet come, and the
/// largest sequence number seen.
pub struct ReplayState {
    pub index: Map<Seq<u8>, IdxEntry>,
    pub pending: Map<u64, Seq<PendRec>>,
    pub max_seq: u64,
}

/// A replay either reaches a state or fails on a stored key that carries
/// no sequence number.
pub enum ReplayResult {
    Bad,
    Good(ReplayState),
}

/// Before any record: an empty index, no open transactions, nothing seen.
pub open spec fn init_state() -> ReplayState {
    ReplayState { index: Map::empty(), pending: Map::empty(), max_seq: 0 }
}

/// Applies one operation to the index: a live record installs its
/// locator, a tombstone removes the key, a sentinel changes nothing.
pub open spec fn apply_one(index: Map<Seq<u8>, IdxEntry>, r: PendRec) -> Map<Seq<u8>, IdxEntry> {
    match r.rec_type {
        LogRecordType::NORMAL => index.insert(r.key, IdxEntry { pos: r.pos, value: r.value }),
        LogRecordType::DELETED => index.remove(r.key),
        LogRecordType::TXNFINISH => index,
    }
}

/// Applies a buffered transaction in order.
pub open spec fn apply_seq(index: Map<Seq<u8>, IdxEntry>, rs: Seq<PendRec>) -> Map<
    Seq<u8>,
    IdxEntry,
>
    decreases rs.len(),
{
    if rs.len() == 0 {
        index
    } else {
        apply_seq(apply_one(index, rs[0]), rs.skip(1))
    }
}

/// The buffered records of transaction `s`, empty if none.
pub open spec fn pending_of(p: Map<u64, Seq<PendRec>>, s: u64) -> Seq<PendRec> {
    if p.dom().contains(s) {
        p[s]
    } else {
        Seq::empty()
    }
}

/// One step of the replay, exactly as recovery treats a record: a
/// sequence number of zero applies at once; a sentinel commits what its
/// transaction buffered; anything else is buffered for its transaction.
pub open spec fn replay_step(st: ReplayState, lr: LocatedRecord) -> ReplayResult {
    match spec_split_key(lr.rec.key) {
        None => ReplayResult::Bad,
        Some((seq_no, user_key)) => {
            let mx = if seq_no > st.max_seq {
                seq_no
            } else {
                st.max_seq
            };
            let pr = PendRec {
                key: user_key,
                rec_type: lr.rec.rec_type,
                value: lr.rec.value,
                pos: lr.pos,
            };
            if seq_no == 0 {
                ReplayResult::Good(
                    ReplayState {
                        index: apply_one(st.index, pr),
                        pending: st.pending,
                        max_seq: mx,
                    },
                )
            } else if lr.rec.rec_type == LogRecordType::TXNFINISH {
                ReplayResult::Good(
                    ReplayState {
                        index: apply_seq(st.index, pending_of(st.pending, seq_no)),
                        pending: st.pending.remove(seq_no),
                        max_seq: mx,
                    },
                )
            } else {
                ReplayResult::Good(
                    ReplayState {
                        index: st.index,
                        pending: st.pending.insert(
                            seq_no,
                            pending_of(st.pending, seq_no).push(pr),
                        ),
                        max_seq: mx,
                    },
                )
            }
        },
    }
}

/// The replay folded over a record sequence, from a given state.
pub open spec fn replay_fold(st0: ReplayState, recs: Seq<LocatedRecord>) -> ReplayResult
    decreases recs.len(),
{
    if recs.len() == 0 {
        ReplayResult::Good(st0)
    } else {
        match replay_fold(st0, recs.drop_last()) {
            ReplayResult::Bad => ReplayResult::Bad,
            ReplayResult::Good(st) => replay_step(st, recs.last()),
        }
    }
}

/// The replay of a whole log.
pub open spec fn spec_replay(recs: Seq<LocatedRecord>) -> ReplayResult {
    replay_fold(init_state(), recs)
}

/// Applying one more buffered record applies it after the rest.
pub proof fn lemma_apply_seq_snoc(index: Map<Seq<u8>, IdxEntry>, rs: Seq<PendRec>, x: PendRec)
    ensures
        apply_seq(index, rs.push(x)) == apply_one(apply_seq(index, rs), x),
    decreases rs.len(),
{
    assert(rs.push(x).len() == rs.len() + 1);
    if rs.len() == 0 {
        assert(rs.push(x)[0] == x);
        assert(rs.push(x).skip(1) =~= Seq::<PendRec>::empty());
        assert(apply_seq(index, rs.push(x)) == apply_seq(
            apply_one(index, rs.push(x)[0]),
            rs.push(x).skip(1),
        ));
        assert(apply_seq(apply_one(index, x), Seq::<PendRec>::empty()) == apply_one(index, x));
    } else {
        assert(rs.push(x)[0] == rs[0]);
        assert(rs.push(x).skip(1) =~= rs.skip(1).push(x));
        assert(apply_seq(index, rs.push(x)) == apply_seq(
            apply_one(index, rs[0]),
            rs.skip(1).push(x),
        ));
        lemma_apply_seq_snoc(apply_one(index, rs[0]), rs.skip(1), x);
        assert(apply_seq(index, rs) == apply_seq(apply_one(index, rs[0]), rs.skip(1)));
    }
}

/// Does a record-by-record walk of the segment from `from` land exactly
/// on `to`?  These are the offsets a replay reads records at.
pub open spec fn spec_reaches(c: Seq<u8>, from: int, to: int) -> bool
    decreases c.len() - from,
    via spec_reaches_dec
{
    if from == to {
        true
    } else {
        match spec_parse_record(c, from) {
            RecParse::Rec(rv, sz) => spec_reaches(c, from + sz, to),
            _ => false,
        }
    }
}

#[via_fn]
proof fn spec_reaches_dec(c: Seq<u8>, from: int, to: int) {
    if from != to {
        match spec_parse_record(c, from) {
            RecParse::Rec(rv, sz) => {
                lemma_parse_record_size(c, from);
            },
            _ => {},
        }
    }
}

/// A walk extends over one more parsed record.
pub proof fn lemma_reaches_step(c: Seq<u8>, a: int, b: int)
    requires
        spec_reaches(c, a, b),
        spec_parse_record(c, b) is Rec,
    ensures
        spec_reaches(c, a, b + spec_parse_record(c, b)->Rec_1),
    decreases c.len() - a,
{
    lemma_parse_record_size(c, b);
    let sz_b = spec_parse_record(c, b)->Rec_1;
    if a == b {
        assert(spec_reaches(c, b + sz_b, b + sz_b));
        assert(spec_reaches(c, b, b + sz_b));
    } else {
        match spec_parse_record(c, a) {
            RecParse::Rec(rv, sz) => {
                lemma_parse_record_size(c, a);
                lemma_reaches_step(c, a + sz, b);
                if a != b + sz_b {
                    assert(spec_reaches(c, a + sz, b + sz_b));
                    assert(spec_reaches(c, a, b + sz_b));
                }
            },
            _ => {
                assert(false);
            },
        }
    }
}

/// Does the replay's walk of the segment meet a record whose stored key
/// carries no sequence number?  Such a segment cannot be replayed.
pub open spec fn spec_has_bad_key(c: Seq<u8>) -> bool {
    exists|off: int|
        spec_reaches(c, 0, off) && (#[trigger] spec_parse_record(c, off)) is Rec && spec_split_key(
            spec_parse_record(c, off)->Rec_0.key,
        ) is None
}

/// The largest sequence number a replay observes never reaches the
/// counter's ceiling: a key spelling `u64::MAX` or more does not split.
pub proof fn lemma_replay_max_bound(st0: ReplayState, recs: Seq<LocatedRecord>)
    requires
        replay_fold(st0, recs) is Good,
    ensures
        ({
            let m = replay_fold(st0, recs)->Good_0.max_seq;
            m == st0.max_seq || m < u64::MAX
        }),
    decreases recs.len(),
{
    if recs.len() > 0 {
        lemma_replay_max_bound(st0, recs.drop_last());
        let prev = replay_fold(st0, recs.drop_last())->Good_0;
        let lr = recs.last();
        match spec_split_key(lr.rec.key) {
            None => {
                assert(replay_step(prev, lr) is Bad);
            },
            Some((sq, u)) => {
                crate::varint::lemma_varint_parse_bounds(lr.rec.key);
                assert(sq < u64::MAX);
                assert(replay_fold(st0, recs)->Good_0.max_seq == if sq > prev.max_seq {
                    sq
                } else {
                    prev.max_seq
                });
            },
        }
    }
}

/// No transaction stays buffered under a number above the watermark.
pub proof fn lemma_replay_pending_bounded(st0: ReplayState, recs: Seq<LocatedRecord>)
    requires
        replay_fold(st0, recs) is Good,
        forall|s: u64| #[trigger] st0.pending.dom().contains(s) ==> s <= st0.max_seq,
    ensures
        forall|s: u64|
            #[trigger] replay_fold(st0, recs)->Good_0.pending.dom().contains(s) ==> s
                <= replay_fold(st0, recs)->Good_0.max_seq,
    decreases recs.len(),
{
    if recs.len() > 0 {
        lemma_replay_max_mono(st0, recs);
        lemma_replay_pending_bounded(st0, recs.drop_last());
    }
}

/// The watermark never goes down.
pub proof fn lemma_replay_max_mono(st0: ReplayState, recs: Seq<LocatedRecord>)
    requires
        recs.len() > 0,
        replay_fold(st0, recs) is Good,
    ensures
        replay_fold(st0, recs.drop_last()) is Good,
        replay_fold(st0, recs.drop_last())->Good_0.max_seq <= replay_fold(
            st0,
            recs,
        )->Good_0.max_seq,
{
}


/// Atomic batch, the crash side: a transaction's records without their
/// sentinel leave the replayed index untouched — a commit cut off before
/// its sentinel is invisible after reopen.
pub proof fn lemma_batch_without_sentinel(
    recs: Seq<LocatedRecord>,
    batch: Seq<LocatedRecord>,
    s: u64,
)
    requires
        spec_replay(recs) is Good,
        s != 0,
        forall|i: int|
            0 <= i < batch.len() ==> spec_split_key((#[trigger] batch[i]).rec.key) is Some
                && spec_split_key(batch[i].rec.key)->Some_0.0 == s && batch[i].rec.rec_type
                != LogRecordType::TXNFINISH,
    ensures
        spec_replay(recs + batch) is Good,
        spec_replay(recs + batch)->Good_0.index == spec_replay(recs)->Good_0.index,
    decreases batch.len(),
{
    if batch.len() == 0 {
        assert(recs + batch =~= recs);
    } else {
        let bp = batch.drop_last();
        assert(forall|i: int| 0 <= i < bp.len() ==> bp[i] == batch[i]);
        lemma_batch_without_sentinel(recs, bp, s);
        assert(recs + batch =~= (recs + bp).push(batch.last()));
        lemma_replay_snoc(init_state(), recs + bp, batch.last());
    }
}

/// Atomic batch, the commit side: the sentinel installs everything its
/// transaction buffered, in one step.
pub proof fn lemma_batch_with_sentinel(
    recs: Seq<LocatedRecord>,
    batch: Seq<LocatedRecord>,
    s: u64,
    fin: LocatedRecord,
)
    requires
        spec_replay(recs) is Good,
        s != 0,
        forall|i: int|
            0 <= i < batch.len() ==> spec_split_key((#[trigger] batch[i]).rec.key) is Some
                && spec_split_key(batch[i].rec.key)->Some_0.0 == s && batch[i].rec.rec_type
                != LogRecordType::TXNFINISH,
        spec_split_key(fin.rec.key) is Some,
        spec_split_key(fin.rec.key)->Some_0.0 == s,
        fin.rec.rec_type == LogRecordType::TXNFINISH,
    ensures
        spec_replay(recs + batch + seq![fin]) is Good,
        spec_replay(recs + batch + seq![fin])->Good_0.index == apply_seq(
            spec_replay(recs)->Good_0.index,
            pending_of(spec_replay(recs + batch)->Good_0.pending, s),
        ),
{
    lemma_batch_without_sentinel(recs, batch, s);
    assert(recs + batch + seq![fin] =~= (recs + batch).push(fin));
    lemma_replay_snoc(init_state(), recs + batch, fin);
}

/// A replay that has gone bad stays bad however the log continues.
pub proof fn lemma_replay_bad_prefix(st0: ReplayState, a: Seq<LocatedRecord>, b: Seq<LocatedRecord>)
    requires
        a.len() <= b.len(),
        a == b.subrange(0, a.len() as int),
        replay_fold(st0, a) is Bad,
    ensures
        replay_fold(st0, b) is Bad,
    decreases b.len(),
{
    if b.len() == a.len() {
        assert(b.subrange(0, a.len() as int) =~= b);
    } else {
        assert(a == b.drop_last().subrange(0, a.len() as int)) by {
            assert(b.drop_last().subrange(0, a.len() as int) =~= b.subrange(0, a.len() as int));
        }
        lemma_replay_bad_prefix(st0, a, b.drop_last());
    }
}

/// Folding one more record is one more step.
pub proof fn lemma_replay_snoc(st0: ReplayState, recs: Seq<LocatedRecord>, lr: LocatedRecord)
    requires
        replay_fold(st0, recs) is Good,
    ensures
        replay_fold(st0, recs.push(lr)) == replay_step(replay_fold(st0, recs)->Good_0, lr),
{
    assert(recs.push(lr).drop_last() =~= recs);
    assert(recs.push(lr).last() == lr);
}

/// Is the index entry for `k` justified by a record of the log?  The
/// record must lie where the entry points, be a live record, carry the
/// entry's value, and spell `k` as its user key.
pub open spec fn backed(recs: Seq<LocatedRecord>, k: Seq<u8>, e: IdxEntry) -> bool {
    exists|i: int|
        0 <= i < recs.len() && (#[trigger] recs[i]).pos == e.pos && recs[i].rec.rec_type
            == LogRecordType::NORMAL && recs[i].rec.value == e.value && spec_split_key(
            recs[i].rec.key,
        ) is Some && spec_split_key(recs[i].rec.key)->Some_0.1 == k
}

/// Is a buffered record of transaction `s` justified by a record of the
/// log?
pub open spec fn pend_backed(recs: Seq<LocatedRecord>, s: u64, pr: PendRec) -> bool {
    exists|i: int|
        0 <= i < recs.len() && (#[trigger] recs[i]).pos == pr.pos && recs[i].rec.rec_type
            == pr.rec_type && recs[i].rec.value == pr.value && spec_split_key(
            recs[i].rec.key,
        ) == Some((s, pr.key))
}

/// Every entry of the state a replay reaches is backed by the log: index
/// entries by live records with the right key and value, buffered records
/// by the records of their transaction.
pub proof fn lemma_replay_backed(st0: ReplayState, recs: Seq<LocatedRecord>)
    requires
        replay_fold(st0, recs) is Good,
        forall|k: Seq<u8>|
            #[trigger] st0.index.dom().contains(k) ==> backed(Seq::empty(), k, st0.index[k]),
        forall|s: u64, j: int|
            #[trigger] st0.pending.dom().contains(s) && 0 <= j < st0.pending[s].len()
                ==> pend_backed(Seq::empty(), s, #[trigger] st0.pending[s][j]),
    ensures
        ({
            let st = replay_fold(st0, recs)->Good_0;
            &&& forall|k: Seq<u8>|
                #[trigger] st.index.dom().contains(k) ==> backed(recs, k, st.index[k])
            &&& forall|s: u64, j: int|
                #[trigger] st.pending.dom().contains(s) && 0 <= j < st.pending[s].len()
                    ==> pend_backed(recs, s, #[trigger] st.pending[s][j])
        }),
    decreases recs.len(),
{
    let st = replay_fold(st0, recs)->Good_0;
    if recs.len() == 0 {
        assert(st == st0);
        assert forall|k: Seq<u8>| #[trigger]
            st.index.dom().contains(k) implies backed(recs, k, st.index[k]) by {
            assert(backed(Seq::empty(), k, st0.index[k]));
            let i = choose|i: int|
                0 <= i < Seq::<LocatedRecord>::empty().len() && (#[trigger] Seq::<
                    LocatedRecord,
                >::empty()[i]).pos == st0.index[k].pos;
            assert(false);
        }
    } else {
        let prev = recs.drop_last();
        let lr = recs.last();
        lemma_replay_backed(st0, prev);
        let stp = replay_fold(st0, prev)->Good_0;
        // what is backed by the shorter log is backed by the longer one
        assert forall|k: Seq<u8>, e: IdxEntry|
            backed(prev, k, e) implies backed(recs, k, e) by {
            let i = choose|i: int|
                0 <= i < prev.len() && (#[trigger] prev[i]).pos == e.pos && prev[i].rec.rec_type
                    == LogRecordType::NORMAL && prev[i].rec.value == e.value && spec_split_key(
                    prev[i].rec.key,
                ) is Some && spec_split_key(prev[i].rec.key)->Some_0.1 == k;
            assert(recs[i] == prev[i]);
        }
        assert forall|s: u64, pr: PendRec|
            pend_backed(prev, s, pr) implies pend_backed(recs, s, pr) by {
            let i = choose|i: int|
                0 <= i < prev.len() && (#[trigger] prev[i]).pos == pr.pos && prev[i].rec.rec_type
                    == pr.rec_type && prev[i].rec.value == pr.value && spec_split_key(
                    prev[i].rec.key,
                ) == Some((s, pr.key));
            assert(recs[i] == prev[i]);
        }
        let n = recs.len() - 1;
        assert(recs[n] == lr);
        let (seq_no, user_key) = spec_split_key(lr.rec.key)->Some_0;
        let pr0 = PendRec {
            key: user_key,
            rec_type: lr.rec.rec_type,
            value: lr.rec.value,
            pos: lr.pos,
        };
        if seq_no == 0 {
            lemma_apply_one_backed(stp.index, pr0, recs, seq_no, user_key, n);
            assert(st.index == apply_one(stp.index, pr0));
            assert forall|k: Seq<u8>| #[trigger]
                st.index.dom().contains(k) implies backed(recs, k, st.index[k]) by {}
        } else if lr.rec.rec_type == LogRecordType::TXNFINISH {
            let buf = pending_of(stp.pending, seq_no);
            lemma_apply_seq_backed(stp.index, buf, recs, seq_no);
            assert forall|s: u64, j: int| #[trigger]
                st.pending.dom().contains(s) && 0 <= j < st.pending[s].len() implies pend_backed(
                recs,
                s,
                #[trigger] st.pending[s][j],
            ) by {
                assert(stp.pending.dom().contains(s) && stp.pending[s] == st.pending[s]);
            }
        } else {
            assert(st.index == stp.index);
            assert forall|s: u64, j: int| #[trigger]
                st.pending.dom().contains(s) && 0 <= j < st.pending[s].len() implies pend_backed(
                recs,
                s,
                #[trigger] st.pending[s][j],
            ) by {
                if s == seq_no && j == st.pending[s].len() - 1 {
                    assert(st.pending[s][j] == pr0);
                    assert((recs[n]).pos == pr0.pos && recs[n].rec.rec_type == pr0.rec_type
                        && recs[n].rec.value == pr0.value && spec_split_key(recs[n].rec.key)
                        == Some((seq_no, pr0.key)));
                } else if s == seq_no {
                    assert(stp.pending.dom().contains(s) ==> st.pending[s][j]
                        == stp.pending[s][j]);
                    assert(st.pending[s] == pending_of(stp.pending, seq_no).push(pr0));
                    assert(st.pending[s][j] == pending_of(stp.pending, seq_no)[j]);
                    assert(stp.pending.dom().contains(s));
                    assert(pend_backed(prev, s, stp.pending[s][j]));
                } else {
                    assert(stp.pending.dom().contains(s) && stp.pending[s] == st.pending[s]);
                }
            }
        }
    }
}

/// Applying a record backed at position `n` keeps every index entry
/// backed.
proof fn lemma_apply_one_backed(
    index: Map<Seq<u8>, IdxEntry>,
    pr: PendRec,
    recs: Seq<LocatedRecord>,
    s: u64,
    user_key: Seq<u8>,
    n: int,
)
    requires
        0 <= n < recs.len(),
        recs[n].pos == pr.pos,
        recs[n].rec.rec_type == pr.rec_type,
        recs[n].rec.value == pr.value,
        spec_split_key(recs[n].rec.key) == Some((s, pr.key)),
        forall|k: Seq<u8>| #[trigger] index.dom().contains(k) ==> backed(recs, k, index[k]),
    ensures
        forall|k: Seq<u8>|
            #[trigger] apply_one(index, pr).dom().contains(k) ==> backed(
                recs,
                k,
                apply_one(index, pr)[k],
            ),
{
    let res = apply_one(index, pr);
    assert forall|k: Seq<u8>| #[trigger] res.dom().contains(k) implies backed(recs, k, res[k]) by {
        match pr.rec_type {
            LogRecordType::NORMAL => {
                if k == pr.key {
                    assert(res[k] == IdxEntry { pos: pr.pos, value: pr.value });
                    assert((recs[n]).pos == res[k].pos && recs[n].rec.rec_type
                        == LogRecordType::NORMAL && recs[n].rec.value == res[k].value
                        && spec_split_key(recs[n].rec.key) is Some && spec_split_key(
                        recs[n].rec.key,
                    )->Some_0.1 == k);
                } else {
                    assert(index.dom().contains(k) && res[k] == index[k]);
                }
            },
            LogRecordType::DELETED => {
                assert(index.dom().contains(k) && res[k] == index[k]);
            },
            LogRecordType::TXNFINISH => {
                assert(index.dom().contains(k) && res[k] == index[k]);
            },
        }
    }
}

/// Applying a whole buffered transaction keeps every index entry backed,
/// provided each buffered record is backed.
proof fn lemma_apply_seq_backed(
    index: Map<Seq<u8>, IdxEntry>,
    buf: Seq<PendRec>,
    recs: Seq<LocatedRecord>,
    s: u64,
)
    requires
        forall|k: Seq<u8>| #[trigger] index.dom().contains(k) ==> backed(recs, k, index[k]),
        forall|j: int| 0 <= j < buf.len() ==> pend_backed(recs, s, #[trigger] buf[j]),
    ensures
        forall|k: Seq<u8>|
            #[trigger] apply_seq(index, buf).dom().contains(k) ==> backed(
                recs,
                k,
                apply_seq(index, buf)[k],
            ),
    decreases buf.len(),
{
    if buf.len() > 0 {
        let pr = buf[0];
        assert(pend_backed(recs, s, pr));
        let i = choose|i: int|
            0 <= i < recs.len() && (#[trigger] recs[i]).pos == pr.pos && recs[i].rec.rec_type
                == pr.rec_type && recs[i].rec.value == pr.value && spec_split_key(
                recs[i].rec.key,
            ) == Some((s, pr.key));
        lemma_apply_one_backed(index, pr, recs, s, pr.key, i);
        assert(forall|j: int|
            0 <= j < buf.skip(1).len() ==> pend_backed(recs, s, #[trigger] buf.skip(1)[j]));
        lemma_apply_seq_backed(apply_one(index, pr), buf.skip(1), recs, s);
        assert(apply_seq(index, buf) == apply_seq(apply_one(index, pr), buf.skip(1)));
        assert forall|k: Seq<u8>| #[trigger]
            apply_seq(index, buf).dom().contains(k) implies backed(
            recs,
            k,
            apply_seq(index, buf)[k],
        ) by {
            assert(apply_seq(apply_one(index, pr), buf.skip(1)).dom().contains(k));
        }
    }
}

} // verus!
