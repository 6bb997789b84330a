//! The write batch: staged operations committed atomically under one
//! transaction sequence number.
//!
//! A commit appends every staged record with a fresh sequence number,
//! seals them with one sentinel record, and only then installs the batch
//! in the index.  Replay applies the records only when it meets the
//! sentinel, which is what makes the batch all-or-nothing across a crash.

use vstd::prelude::*;

use crate::db::{pos_project, val_project, Engine, MAX_KEY_LEN, MAX_VALUE_LEN};
use crate::errors::Errors;
use crate::keys::{lemma_split_seq_key, log_record_key_with_seq, spec_seq_key, KeyOrder};
use crate::log_record::{encodable, LogRecord, LogRecordPos, LogRecordType, RecView};
use crate::replay::{
    apply_seq, lemma_apply_seq_snoc, lemma_replay_pending_bounded, pending_of, IdxEntry,
    LocatedRecord, PendRec,
};

verus! {

/// The sequence number of every record written outside a batch.
pub const NON_TRANSACTION_SEQ_NO: u64 = 0;

/// The reserved user key of a transaction's sentinel record: the ASCII
/// bytes of `txn-fin`.
pub open spec fn spec_txn_fin_key() -> Seq<u8> {
    seq![116u8, 120u8, 110u8, 45u8, 102u8, 105u8, 110u8]
}

/// The staged operations as pure triples: key, operation, value.
pub open spec fn staged_view(s: Seq<(Vec<u8>, LogRecord)>) -> Seq<
    (Seq<u8>, LogRecordType, Seq<u8>),
> {
    s.map_values(|e: (Vec<u8>, LogRecord)| (e.0@, e.1.rec_type, e.1.value@))
}

/// A staged run applied to the engine's key-value map, in order.
pub open spec fn apply_staged(
    view: Map<Seq<u8>, Seq<u8>>,
    s: Seq<(Seq<u8>, LogRecordType, Seq<u8>)>,
) -> Map<Seq<u8>, Seq<u8>>
    decreases s.len(),
{
    if s.len() == 0 {
        view
    } else {
        let rest = apply_staged(view, s.drop_last());
        if s.last().1 == LogRecordType::NORMAL {
            rest.insert(s.last().0, s.last().2)
        } else if s.last().1 == LogRecordType::DELETED {
            rest.remove(s.last().0)
        } else {
            rest
        }
    }
}

/// The first `n` staged operations as the replay buffers them, at the
/// positions a commit gave their records.
pub open spec fn staged_pend(
    s: Seq<(Seq<u8>, LogRecordType, Seq<u8>)>,
    positions: Seq<LogRecordPos>,
    n: int,
) -> Seq<PendRec>
    decreases n,
{
    if n <= 0 {
        Seq::empty()
    } else {
        staged_pend(s, positions, n - 1).push(
            PendRec { key: s[n - 1].0, rec_type: s[n - 1].1, value: s[n - 1].2, pos: positions[n
                - 1] },
        )
    }
}

/// Buffered records only read the positions before `n`.
proof fn lemma_staged_pend_push(
    s: Seq<(Seq<u8>, LogRecordType, Seq<u8>)>,
    positions: Seq<LogRecordPos>,
    pos: LogRecordPos,
    n: int,
)
    requires
        n <= positions.len(),
    ensures
        staged_pend(s, positions.push(pos), n) == staged_pend(s, positions, n),
    decreases n,
{
    if n > 0 {
        lemma_staged_pend_push(s, positions, pos, n - 1);
        assert(positions.push(pos)[n - 1] == positions[n - 1]);
    }
}

/// What the replay buffers is exactly the staged run, element by element.
proof fn lemma_staged_pend_index(
    s: Seq<(Seq<u8>, LogRecordType, Seq<u8>)>,
    positions: Seq<LogRecordPos>,
    n: int,
    t: int,
)
    requires
        0 <= t < n,
    ensures
        staged_pend(s, positions, n).len() == n,
        staged_pend(s, positions, n)[t] == (PendRec {
            key: s[t].0,
            rec_type: s[t].1,
            value: s[t].2,
            pos: positions[t],
        }),
    decreases n,
{
    lemma_staged_pend_len(s, positions, n - 1);
    lemma_staged_pend_len(s, positions, n);
    if t < n - 1 {
        lemma_staged_pend_index(s, positions, n - 1, t);
    }
}

proof fn lemma_staged_pend_len(
    s: Seq<(Seq<u8>, LogRecordType, Seq<u8>)>,
    positions: Seq<LogRecordPos>,
    n: int,
)
    requires
        0 <= n,
    ensures
        staged_pend(s, positions, n).len() == n,
    decreases n,
{
    if n > 0 {
        lemma_staged_pend_len(s, positions, n - 1);
    }
}

/// Installing the buffered records in the index and then reading off the
/// values is applying the staged operations to the value map.
proof fn lemma_apply_staged_correspond(
    m: Map<Seq<u8>, IdxEntry>,
    s: Seq<(Seq<u8>, LogRecordType, Seq<u8>)>,
    positions: Seq<LogRecordPos>,
    n: int,
)
    requires
        0 <= n <= s.len(),
    ensures
        val_project(apply_seq(m, staged_pend(s, positions, n))) == apply_staged(
            val_project(m),
            s.subrange(0, n),
        ),
    decreases n,
{
    if n == 0 {
        assert(s.subrange(0, 0) =~= Seq::<(Seq<u8>, LogRecordType, Seq<u8>)>::empty());
        assert(staged_pend(s, positions, 0) =~= Seq::<PendRec>::empty());
    } else {
        lemma_apply_staged_correspond(m, s, positions, n - 1);
        let pr = PendRec { key: s[n - 1].0, rec_type: s[n - 1].1, value: s[n - 1].2, pos: positions[n
            - 1] };
        lemma_apply_seq_snoc(m, staged_pend(s, positions, n - 1), pr);
        assert(s.subrange(0, n).drop_last() =~= s.subrange(0, n - 1));
        assert(s.subrange(0, n).last() == s[n - 1]);
        let prev = apply_seq(m, staged_pend(s, positions, n - 1));
        match pr.rec_type {
            LogRecordType::NORMAL => {
                assert(val_project(prev.insert(pr.key, IdxEntry { pos: pr.pos, value: pr.value }))
                    =~= val_project(prev).insert(pr.key, pr.value));
            },
            LogRecordType::DELETED => {
                assert(val_project(prev.remove(pr.key)) =~= val_project(prev).remove(pr.key));
            },
            LogRecordType::TXNFINISH => {},
        }
    }
}

/// A batch of staged writes bound for one engine.
pub struct WriteBatch {
    pending_writes: Vec<(Vec<u8>, LogRecord)>,
    options: WriteBatchOptions,
}

use crate::options::WriteBatchOptions;

impl WriteBatch {
    /// The staged operations, in staging order, latest writer per key.
    pub closed spec fn staged(&self) -> Seq<(Seq<u8>, LogRecordType, Seq<u8>)> {
        staged_view(self.pending_writes@)
    }

    /// The batch's options.
    pub closed spec fn spec_options(&self) -> WriteBatchOptions {
        self.options
    }

    /// Keys are unique, every staged record carries its own key, only
    /// writes and deletes are staged, and all sizes fit the record
    /// format.
    pub closed spec fn wf(&self) -> bool {
        &&& forall|i: int, j: int|
            0 <= i < j < self.pending_writes@.len() ==> (#[trigger] self.pending_writes@[i]).0@
                != (#[trigger] self.pending_writes@[j]).0@
        &&& forall|i: int|
            0 <= i < self.pending_writes@.len() ==> {
                let e = #[trigger] self.pending_writes@[i];
                &&& e.1.key@ == e.0@
                &&& 1 <= e.0@.len() <= MAX_KEY_LEN
                &&& e.1.value@.len() <= MAX_VALUE_LEN
                &&& (e.1.rec_type == LogRecordType::NORMAL || e.1.rec_type
                    == LogRecordType::DELETED)
            }
    }

    /// Finds the staged entry holding `key`.
    fn find_staged(&self, key: &[u8]) -> (r: Option<usize>)
        ensures
            match r {
                Some(i) => i < self.pending_writes@.len() && self.pending_writes@[i as int].0@
                    == key@,
                None => forall|i: int|
                    0 <= i < self.pending_writes@.len() ==> (
                    #[trigger] self.pending_writes@[i]).0@ != key@,
            },
    {
        let n = self.pending_writes.len();
        let mut i: usize = 0;
        while i < n
            invariant
                n == self.pending_writes@.len(),
                i <= n,
                forall|j: int|
                    0 <= j < i ==> (#[trigger] self.pending_writes@[j]).0@ != key@,
            decreases n - i,
        {
            let e = &self.pending_writes[i];
            if crate::keys::key_cmp(e.0.as_slice(), key) == KeyOrder::Equal {
                return Some(i);
            }
            proof {
                if e.0@ == key@ {
                    crate::keys::lemma_lex_irreflexive(key@);
                }
            }
            i = i + 1;
        }
        None
    }

    /// Stages `value` under `key`, superseding anything staged there.
    pub fn put(&mut self, key: Vec<u8>, value: Vec<u8>) -> (r: Result<(), Errors>)
        requires
            old(self).wf(),
            key@.len() <= MAX_KEY_LEN,
            value@.len() <= MAX_VALUE_LEN,
        ensures
            final(self).wf(),
            final(self).spec_options() == old(self).spec_options(),
            key@.len() == 0 <==> r == Err::<(), Errors>(Errors::KeyIsEmpty),
            key@.len() > 0 ==> r is Ok,
            r is Err ==> *final(self) == *old(self),
            r is Ok ==> ({
                ||| (exists|i: int|
                    0 <= i < old(self).staged().len() && (#[trigger] old(self).staged()[i]).0
                        == key@ && final(self).staged() == old(self).staged().update(
                        i,
                        (key@, LogRecordType::NORMAL, value@),
                    ))
                ||| ((forall|i: int|
                    0 <= i < old(self).staged().len() ==> (#[trigger] old(self).staged()[i]).0
                        != key@) && final(self).staged() == old(self).staged().push(
                    (key@, LogRecordType::NORMAL, value@),
                ))
            }),
    {
        if key.is_empty() {
            return Err(Errors::KeyIsEmpty);
        }
        let kcopy = vstd::slice::slice_to_vec(key.as_slice());
        let record = LogRecord { key: kcopy, value, rec_type: LogRecordType::NORMAL };
        let ghost olds = self.pending_writes@;
        match self.find_staged(key.as_slice()) {
            Some(i) => {
                self.pending_writes.set(i, (key, record));
                proof {
                    assert(self.pending_writes@ =~= olds.update(i as int, (key, record)));
                    assert(final(self).staged() =~= old(self).staged().update(
                        i as int,
                        (key@, LogRecordType::NORMAL, record.value@),
                    ));
                    assert(old(self).staged()[i as int].0 == key@);
                }
            },
            None => {
                self.pending_writes.push((key, record));
                proof {
                    assert(self.pending_writes@ =~= olds.push((key, record)));
                    assert(final(self).staged() =~= old(self).staged().push(
                        (key@, LogRecordType::NORMAL, record.value@),
                    ));
                    assert forall|i: int|
                        0 <= i < old(self).staged().len() implies (
                    #[trigger] old(self).staged()[i]).0 != key@ by {
                        assert(olds[i].0@ == old(self).staged()[i].0);
                    }
                }
            },
        }
        Ok(())
    }

    /// Stages a delete of `key`.  A key the engine does not hold is
    /// dropped from the batch instead: its delete would be a no-op.
    pub fn delete(&mut self, engine: &Engine, key: Vec<u8>) -> (r: Result<(), Errors>)
        requires
            old(self).wf(),
            engine.inv(),
            key@.len() <= MAX_KEY_LEN,
        ensures
            final(self).wf(),
            final(self).spec_options() == old(self).spec_options(),
            key@.len() == 0 <==> r == Err::<(), Errors>(Errors::KeyIsEmpty),
            key@.len() > 0 ==> r is Ok,
            r is Err ==> *final(self) == *old(self),
            r is Ok && !engine.index_map().dom().contains(key@) ==> ({
                // the key ends up staged nowhere: a later commit cannot
                // revive it from a superseded staging
                &&& (forall|i: int|
                    0 <= i < final(self).staged().len() ==> (
                    #[trigger] final(self).staged()[i]).0 != key@)
                &&& ({
                    ||| (exists|i: int|
                        0 <= i < old(self).staged().len() && (#[trigger] old(self).staged()[i]).0
                            == key@ && final(self).staged() == old(self).staged().remove(i))
                    ||| ((forall|i: int|
                        0 <= i < old(self).staged().len() ==> (#[trigger] old(self).staged()[i]).0
                            != key@) && *final(self) == *old(self))
                })
            }),
            r is Ok && engine.index_map().dom().contains(key@) ==> ({
                ||| (exists|i: int|
                    0 <= i < old(self).staged().len() && (#[trigger] old(self).staged()[i]).0
                        == key@ && final(self).staged() == old(self).staged().update(
                        i,
                        (key@, LogRecordType::DELETED, Seq::<u8>::empty()),
                    ))
                ||| ((forall|i: int|
                    0 <= i < old(self).staged().len() ==> (#[trigger] old(self).staged()[i]).0
                        != key@) && final(self).staged() == old(self).staged().push(
                    (key@, LogRecordType::DELETED, Seq::<u8>::empty()),
                ))
            }),
    {
        if key.is_empty() {
            return Err(Errors::KeyIsEmpty);
        }
        let probe = vstd::slice::slice_to_vec(key.as_slice());
        let index_pos = engine.index_get(probe);
        if index_pos.is_none() {
            let ghost olds = self.pending_writes@;
            match self.find_staged(key.as_slice()) {
                Some(i) => {
                    self.pending_writes.remove(i);
                    proof {
                        assert(self.pending_writes@ =~= olds.remove(i as int));
                        assert(final(self).staged() =~= old(self).staged().remove(i as int));
                        assert(old(self).staged()[i as int].0 == key@);
                        assert forall|a: int, b: int|
                            0 <= a < b < self.pending_writes@.len() implies (
                        #[trigger] self.pending_writes@[a]).0@ != (
                        #[trigger] self.pending_writes@[b]).0@ by {
                            let fa = if a < i {
                                a
                            } else {
                                a + 1
                            };
                            let fb = if b < i {
                                b
                            } else {
                                b + 1
                            };
                            assert(self.pending_writes@[a] == olds[fa]);
                            assert(self.pending_writes@[b] == olds[fb]);
                        }
                        // the dropped entry was the only one holding the key
                        assert forall|a: int|
                            0 <= a < final(self).staged().len() implies (
                        #[trigger] final(self).staged()[a]).0 != key@ by {
                            let fa = if a < i {
                                a
                            } else {
                                a + 1
                            };
                            assert(self.pending_writes@[a] == olds[fa]);
                            assert(fa != i);
                            assert(olds[fa].0@ != olds[i as int].0@);
                        }
                    }
                },
                None => {
                    proof {
                        assert forall|a: int|
                            0 <= a < final(self).staged().len() implies (
                        #[trigger] final(self).staged()[a]).0 != key@ by {
                            assert(self.pending_writes@[a].0@ != key@);
                        }
                        assert forall|a: int|
                            0 <= a < old(self).staged().len() implies (
                        #[trigger] old(self).staged()[a]).0 != key@ by {
                            assert(self.pending_writes@[a].0@ != key@);
                        }
                    }
                },
            }
            return Ok(());
        }
        let kcopy = vstd::slice::slice_to_vec(key.as_slice());
        let record = LogRecord { key: kcopy, value: Vec::new(), rec_type: LogRecordType::DELETED };
        let ghost olds = self.pending_writes@;
        match self.find_staged(key.as_slice()) {
            Some(i) => {
                self.pending_writes.set(i, (key, record));
                proof {
                    assert(self.pending_writes@ =~= olds.update(i as int, (key, record)));
                    assert(final(self).staged() =~= old(self).staged().update(
                        i as int,
                        (key@, LogRecordType::DELETED, Seq::<u8>::empty()),
                    ));
                    assert(old(self).staged()[i as int].0 == key@);
                }
            },
            None => {
                self.pending_writes.push((key, record));
                proof {
                    assert(self.pending_writes@ =~= olds.push((key, record)));
                    assert(final(self).staged() =~= old(self).staged().push(
                        (key@, LogRecordType::DELETED, Seq::<u8>::empty()),
                    ));
                    assert forall|i: int|
                        0 <= i < old(self).staged().len() implies (
                    #[trigger] old(self).staged()[i]).0 != key@ by {
                        assert(olds[i].0@ == old(self).staged()[i].0);
                    }
                }
            },
        }
        Ok(())
    }

    /// Commits the batch: every staged record is appended under one fresh
    /// sequence number, a sentinel seals the run, and only then does the
    /// index take the batch.  On success the engine's map is the staged
    /// run applied to it, and the batch is empty again.
    pub fn commit(&mut self, engine: &mut Engine) -> (r: Result<(), Errors>)
        requires
            old(self).wf(),
            old(engine).inv(),
            old(engine).spec_seq_no() < u64::MAX,
        ensures
            final(self).wf(),
            final(engine).inv(),
            final(self).spec_options() == old(self).spec_options(),
            final(engine).spec_options() == old(engine).spec_options(),
            old(self).staged().len() == 0 ==> r is Ok && *final(engine) == *old(engine)
                && *final(self) == *old(self),
            old(self).staged().len() > old(self).spec_options().max_batch_num ==> r == Err::<
                (),
                Errors,
            >(Errors::ExceddMaxBatchNum) && *final(engine) == *old(engine) && *final(self)
                == *old(self),
            0 < old(self).staged().len() <= old(self).spec_options().max_batch_num ==> match r {
                Ok(_) => ({
                    &&& final(engine).view_map() == apply_staged(
                        old(engine).view_map(),
                        old(self).staged(),
                    )
                    &&& final(engine).spec_seq_no() == old(engine).spec_seq_no() + 1
                    &&& final(self).staged() == Seq::<(Seq<u8>, LogRecordType, Seq<u8>)>::empty()
                    &&& final(engine).log().len() == old(engine).log().len() + old(
                        self,
                    ).staged().len() + 1
                    &&& final(engine).log().subrange(0, old(engine).log().len() as int) == old(
                        engine,
                    ).log()
                    &&& (forall|i: int|
                        0 <= i < old(self).staged().len() ==> (#[trigger] final(engine).log()[old(
                            engine,
                        ).log().len() + i]).rec == (RecView {
                            key: spec_seq_key(
                                old(engine).spec_seq_no(),
                                old(self).staged()[i].0,
                            ),
                            value: old(self).staged()[i].2,
                            rec_type: old(self).staged()[i].1,
                        }))
                    &&& final(engine).log().last().rec == (RecView {
                        key: spec_seq_key(old(engine).spec_seq_no(), spec_txn_fin_key()),
                        value: Seq::<u8>::empty(),
                        rec_type: LogRecordType::TXNFINISH,
                    })
                }),
                Err(e) => ({
                    &&& e == Errors::FailedToOpenDataFile
                    &&& final(engine).view_map() == old(engine).view_map()
                    &&& final(engine).spec_seq_no() == old(engine).spec_seq_no() + 1
                    &&& *final(self) == *old(self)
                }),
            },
            0 < old(self).staged().len() <= old(self).spec_options().max_batch_num && old(
                engine,
            ).active_id() as int + old(self).staged().len() < u32::MAX as int ==> r is Ok,
    {
        let n = self.pending_writes.len();
        if n == 0 {
            return Ok(());
        }
        if n > self.options.max_batch_num {
            return Err(Errors::ExceddMaxBatchNum);
        }
        let ghost staged0 = old(self).staged();
        let ghost st0 = old(engine).replay_st();
        proof {
            old(engine).lemma_inv_parts();
            old(engine).lemma_sound_parts();
            lemma_replay_pending_bounded(crate::replay::init_state(), old(engine).log());
        }
        let seq_no = engine.fetch_add_seq();
        let ghost bigs = seq_no;

        let mut positions: Vec<LogRecordPos> = Vec::new();
        let mut i: usize = 0;
        while i < n
            invariant
                old(self).wf(),
                n == self.pending_writes@.len(),
                self.pending_writes@ == old(self).pending_writes@,
                self.options == old(self).options,
                staged0 == staged_view(self.pending_writes@),
                i <= n,
                1 <= n <= old(self).spec_options().max_batch_num,
                staged0.len() == n,
                positions@.len() == i,
                bigs == old(engine).spec_seq_no(),
                seq_no == bigs,
                1 <= bigs < u64::MAX,
                engine.sound(),
                engine.spec_index() == old(engine).spec_index(),
                engine.spec_seq_no() == bigs + 1,
                engine.spec_options() == old(engine).spec_options(),
                crate::replay::spec_replay(engine.log()) is Good,
                engine.active_id() as int <= old(engine).active_id() as int + i,
                engine.log().len() == old(engine).log().len() + i,
                engine.log().subrange(0, old(engine).log().len() as int) == old(engine).log(),
                forall|j: int|
                    0 <= j < i ==> (#[trigger] engine.log()[old(engine).log().len() + j]).rec
                        == (RecView {
                        key: spec_seq_key(bigs, staged0[j].0),
                        value: staged0[j].2,
                        rec_type: staged0[j].1,
                    }),
                engine.replay_st().index == st0.index,
                st0 == old(engine).replay_st(),
                old(engine).spec_index().as_map() == pos_project(st0.index),
                pending_of(engine.replay_st().pending, bigs) == staged_pend(
                    staged0,
                    positions@,
                    i as int,
                ),
                forall|s: u64| #[trigger] st0.pending.dom().contains(s) ==> s <= st0.max_seq,
                st0.max_seq < bigs,
            decreases n - i,
        {
            let e = &self.pending_writes[i];
            let seq_key = log_record_key_with_seq(&e.0, seq_no);
            let vcopy = vstd::slice::slice_to_vec(e.1.value.as_slice());
            let record = LogRecord { key: seq_key, value: vcopy, rec_type: e.1.rec_type };
            proof {
                let ghost oe = old(self).pending_writes@[i as int];
                assert(oe == self.pending_writes@[i as int]);
                assert(1 <= oe.0@.len() <= MAX_KEY_LEN && oe.1.value@.len() <= MAX_VALUE_LEN
                    && oe.1.key@ == oe.0@ && (oe.1.rec_type == LogRecordType::NORMAL
                    || oe.1.rec_type == LogRecordType::DELETED));
                lemma_split_seq_key(bigs, e.0@);
                crate::varint::lemma_varint_len(bigs);
                assert(record@.key.len() == crate::varint::spec_varint(bigs).len() + e.0@.len());
                assert(encodable(record@));
            }
            let ghost stpre = engine.replay_st();
            let pos = match engine.append_log_record(&record) {
                Ok(p) => p,
                Err(err) => {
                    proof {
                        assert(engine.view_map() =~= old(engine).view_map());
                        engine.lemma_inv_intro();
                        assert(old(engine).active_id() as int + staged0.len() >= u32::MAX as int);
                    }
                    return Err(err);
                },
            };
            let ghost pentry = positions@;
            positions.push(pos);
            proof {
                assert(positions@ == pentry.push(pos));
                assert(positions@.drop_last() =~= pentry);
                let pr = PendRec {
                    key: e.0@,
                    rec_type: e.1.rec_type,
                    value: e.1.value@,
                    pos,
                };
                let lr = LocatedRecord { pos, rec: record@ };
                assert(record@.key == spec_seq_key(bigs, e.0@));
                assert(crate::keys::spec_split_key(record@.key) == Some((bigs, e.0@)));
                assert(bigs != 0);
                assert(record@.rec_type != LogRecordType::TXNFINISH);
                assert(staged0[i as int] == (e.0@, e.1.rec_type, e.1.value@));
                assert(crate::replay::replay_step(stpre, lr) is Good);
                assert(engine.replay_st().pending == stpre.pending.insert(
                    bigs,
                    pending_of(stpre.pending, bigs).push(pr),
                ));
                lemma_staged_pend_push(staged0, pentry, pos, i as int);
                assert(staged_pend(staged0, positions@, i as int) == staged_pend(
                    staged0,
                    pentry,
                    i as int,
                ));
                assert(staged_pend(staged0, positions@, i + 1) == staged_pend(
                    staged0,
                    positions@,
                    i as int,
                ).push(pr)) by {
                    assert(staged0[i as int] == (e.0@, e.1.rec_type, e.1.value@));
                    assert(positions@[i as int] == pos);
                }
                assert(pending_of(engine.replay_st().pending, bigs) == staged_pend(
                    staged0,
                    positions@,
                    i + 1,
                ));
                assert(engine.log().subrange(0, old(engine).log().len() as int) =~= old(
                    engine,
                ).log());
                assert(engine.log()[old(engine).log().len() + i as int].rec == record@);
                assert(record@ == (RecView {
                    key: spec_seq_key(bigs, staged0[i as int].0),
                    value: staged0[i as int].2,
                    rec_type: staged0[i as int].1,
                }));
            }
            i = i + 1;
        }

        // the sentinel seals the transaction
        let mut fin_key: Vec<u8> = Vec::new();
        fin_key.push(116);
        fin_key.push(120);
        fin_key.push(110);
        fin_key.push(45);
        fin_key.push(102);
        fin_key.push(105);
        fin_key.push(110);
        let finish_key = log_record_key_with_seq(&fin_key, seq_no);
        let finish_record = LogRecord {
            key: finish_key,
            value: Vec::new(),
            rec_type: LogRecordType::TXNFINISH,
        };
        proof {
            lemma_split_seq_key(bigs, fin_key@);
            crate::varint::lemma_varint_len(bigs);
            assert(encodable(finish_record@));
        }
        let ghost stpre = engine.replay_st();
        let ghost log_n = engine.log();
        match engine.append_log_record(&finish_record) {
            Ok(_) => {},
            Err(err) => {
                proof {
                    assert(engine.view_map() =~= old(engine).view_map());
                    engine.lemma_inv_intro();
                    assert(old(engine).active_id() as int + staged0.len() >= u32::MAX as int);
                }
                return Err(err);
            },
        }
        let ghost buf = staged_pend(staged0, positions@, n as int);
        proof {
            assert(engine.replay_st().index == apply_seq(st0.index, buf));
            assert(fin_key@ =~= spec_txn_fin_key());
            assert(finish_record@ == (RecView {
                key: spec_seq_key(bigs, spec_txn_fin_key()),
                value: Seq::<u8>::empty(),
                rec_type: LogRecordType::TXNFINISH,
            }));
            assert(engine.log().last().rec == finish_record@);
            assert(engine.log().len() == old(engine).log().len() + n + 1);
            assert(engine.log().subrange(0, old(engine).log().len() as int) =~= old(
                engine,
            ).log());
            assert forall|j: int|
                0 <= j < n implies (#[trigger] engine.log()[old(engine).log().len() + j]).rec
                    == (RecView {
                    key: spec_seq_key(bigs, staged0[j].0),
                    value: staged0[j].2,
                    rec_type: staged0[j].1,
                }) by {
                assert(engine.log()[old(engine).log().len() + j] == log_n[old(engine).log().len()
                    + j]);
            }
        }

        if self.options.sync_writes {
            let _ = engine.sync();
        }

        // only now does the index take the batch
        let mut t: usize = 0;
        while t < n
            invariant
                old(self).wf(),
                n == self.pending_writes@.len(),
                self.pending_writes@ == old(self).pending_writes@,
                self.options == old(self).options,
                staged0 == staged_view(self.pending_writes@),
                t <= n,
                positions@.len() == n,
                buf == staged_pend(staged0, positions@, n as int),
                engine.sound(),
                engine.log().len() == old(engine).log().len() + n + 1,
                engine.log().subrange(0, old(engine).log().len() as int) == old(engine).log(),
                forall|j: int|
                    0 <= j < n ==> (#[trigger] engine.log()[old(engine).log().len() + j]).rec
                        == (RecView {
                        key: spec_seq_key(bigs, staged0[j].0),
                        value: staged0[j].2,
                        rec_type: staged0[j].1,
                    }),
                engine.log().last().rec == (RecView {
                    key: spec_seq_key(bigs, spec_txn_fin_key()),
                    value: Seq::<u8>::empty(),
                    rec_type: LogRecordType::TXNFINISH,
                }),
                engine.spec_seq_no() == bigs + 1,
                bigs == old(engine).spec_seq_no(),
                engine.spec_options() == old(engine).spec_options(),
                crate::replay::spec_replay(engine.log()) is Good,
                engine.replay_st().index == apply_seq(st0.index, buf),
                st0 == old(engine).replay_st(),
                engine.spec_index().as_map() == pos_project(
                    apply_seq(st0.index, buf.subrange(0, t as int)),
                ),
            decreases n - t,
        {
            let e = &self.pending_writes[t];
            let kcopy = vstd::slice::slice_to_vec(e.0.as_slice());
            let ghost m0 = apply_seq(st0.index, buf.subrange(0, t as int));
            proof {
                lemma_staged_pend_index(staged0, positions@, n as int, t as int);
                lemma_apply_seq_snoc(st0.index, buf.subrange(0, t as int), buf[t as int]);
                assert(buf.subrange(0, t + 1) =~= buf.subrange(0, t as int).push(buf[t as int]));
            }
            if e.1.rec_type == LogRecordType::NORMAL {
                engine.index_put(kcopy, positions[t]);
                proof {
                    assert(engine.spec_index().as_map() =~= pos_project(
                        crate::replay::apply_one(m0, buf[t as int]),
                    ));
                }
            } else {
                engine.index_delete(kcopy);
                proof {
                    assert(engine.spec_index().as_map() =~= pos_project(
                        crate::replay::apply_one(m0, buf[t as int]),
                    ));
                }
            }
            t = t + 1;
        }
        self.pending_writes.clear();
        proof {
            lemma_staged_pend_len(staged0, positions@, n as int);
            assert(buf.subrange(0, n as int) =~= buf);
            assert(engine.spec_index().as_map() == pos_project(engine.replay_st().index));
            engine.lemma_inv_intro();
            lemma_apply_staged_correspond(st0.index, staged0, positions@, n as int);
            assert(staged0.subrange(0, n as int) =~= staged0);
            assert(final(engine).view_map() == apply_staged(old(engine).view_map(), staged0));
            assert(final(self).staged() =~= Seq::<(Seq<u8>, LogRecordType, Seq<u8>)>::empty());
        }
        Ok(())
    }
}

impl Engine {
    /// A fresh, empty batch bound for this engine.
    pub fn new_write_batch(&self, options: WriteBatchOptions) -> (r: Result<WriteBatch, Errors>)
        ensures
            r matches Ok(wb) && wb.wf() && wb.staged() == Seq::<
                (Seq<u8>, LogRecordType, Seq<u8>),
            >::empty() && wb.spec_options() == options,
    {
        let wb = WriteBatch { pending_writes: Vec::new(), options };
        proof {
            assert(wb.staged() =~= Seq::<(Seq<u8>, LogRecordType, Seq<u8>)>::empty());
        }
        Ok(wb)
    }
}

} // verus!
