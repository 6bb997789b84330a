//! The storage engine: one writable active segment, a set of sealed older
//! segments, and the memory index over them all.
//!
//! The engine's invariant ties the three together: the index always equals
//! the replay of the segments' bytes, so what a restart rebuilds is what
//! the running engine holds.

use vstd::prelude::*;

use crate::data_file::DataFile;
use crate::errors::Errors;
use crate::index::BTree;
use crate::keys::{spec_seq_key, spec_split_key};
use crate::log_record::{
    encodable, spec_encoded, spec_parse_record, LogRecord, LogRecordPos, LogRecordType, RecParse,
    RecView,
};
use crate::options::{IndexType, Options};
use crate::replay::{
    apply_one, init_state, lemma_parse_past_end, lemma_replay_snoc, lemma_scan_append,
    lemma_scan_from_end, spec_replay, spec_scan, IdxEntry, LocatedRecord, PendRec, ReplayResult,
    ReplayState, ScanResult,
};

verus! {

/// Does appending this record push the active segment past its size
/// threshold?  The comparison is strict, so a record exactly filling the
/// segment stays put; only a larger one rotates first.
pub open spec fn spec_needs_rotation(e: Engine, rec: RecView) -> bool {
    e.active_off() + spec_encoded(rec).len() > e.spec_options().data_file_size
}

/// The records one segment contributes to the log.
pub open spec fn scan_recs(f: (u32, Seq<u8>)) -> Seq<LocatedRecord> {
    match spec_scan(f.1, f.0) {
        ScanResult::Good(rs, end) => rs,
        ScanResult::Bad => Seq::empty(),
    }
}

/// The records of a run of segments, in order.
pub open spec fn segs_recs(fs: Seq<(u32, Seq<u8>)>) -> Seq<LocatedRecord>
    decreases fs.len(),
{
    if fs.len() == 0 {
        Seq::empty()
    } else {
        segs_recs(fs.drop_last()) + scan_recs(fs.last())
    }
}

/// One more segment contributes its records at the end.
pub proof fn lemma_segs_recs_snoc(fs: Seq<(u32, Seq<u8>)>, f: (u32, Seq<u8>))
    ensures
        segs_recs(fs.push(f)) == segs_recs(fs) + scan_recs(f),
{
    assert(fs.push(f).drop_last() =~= fs);
    assert(fs.push(f).last() == f);
}

/// The index's view of a replay index: just the locators.
pub open spec fn pos_project(m: Map<Seq<u8>, IdxEntry>) -> Map<Seq<u8>, LogRecordPos> {
    Map::new(|k: Seq<u8>| m.dom().contains(k), |k: Seq<u8>| m[k].pos)
}

/// The user's view of a replay index: just the values.
pub open spec fn val_project(m: Map<Seq<u8>, IdxEntry>) -> Map<Seq<u8>, Seq<u8>> {
    Map::new(|k: Seq<u8>| m.dom().contains(k), |k: Seq<u8>| m[k].value)
}

/// The storage engine.
pub struct Engine {
    options: Options,
    active_file: DataFile,
    older_files: Vec<DataFile>,
    index: BTree,
    seq_no: u64,
}

impl Engine {
    /// Every segment as `(id, contents)`, in ascending id order, the
    /// active one last.
    pub closed spec fn seg_files(&self) -> Seq<(u32, Seq<u8>)> {
        self.older_files@.map_values(|f: DataFile| (f.id(), f.contents())).push(
            (self.active_file.id(), self.active_file.contents()),
        )
    }

    /// The whole log: the records of every segment, in order.
    pub open spec fn log(&self) -> Seq<LocatedRecord> {
        segs_recs(self.seg_files())
    }

    /// The state the replay of the log reaches.
    pub open spec fn replay_st(&self) -> ReplayState {
        spec_replay(self.log())->Good_0
    }

    /// The locator map the engine's index holds.
    pub open spec fn index_map(&self) -> Map<Seq<u8>, LogRecordPos> {
        pos_project(self.replay_st().index)
    }

    /// The key-value map the engine holds: every live key with the value
    /// of its latest record.
    pub open spec fn view_map(&self) -> Map<Seq<u8>, Seq<u8>> {
        val_project(self.replay_st().index)
    }

    /// The id of the active segment.
    pub closed spec fn active_id(&self) -> u32 {
        self.active_file.id()
    }

    /// The write offset of the active segment.
    pub closed spec fn active_off(&self) -> u64 {
        self.active_file.off()
    }

    /// The transaction sequence number the next commit takes.
    pub closed spec fn spec_seq_no(&self) -> u64 {
        self.seq_no
    }

    /// The index as the engine holds it.
    pub closed spec fn spec_index(&self) -> BTree {
        self.index
    }

    /// The engine's options.
    pub closed spec fn spec_options(&self) -> Options {
        self.options
    }

    /// The structural half of the invariant: options validated, segment
    /// ids strictly ascending with the active segment highest, the active
    /// write offset at its end, and every segment's bytes scanning
    /// cleanly — the active one to its very end.
    pub closed spec fn files_wf(&self) -> bool {
        &&& self.options.data_file_size >= 100
        &&& self.options.index_type == IndexType::BTree
        &&& forall|i: int, j: int|
            0 <= i < j < self.older_files@.len() ==> (#[trigger] self.older_files@[i]).id() < (
            #[trigger] self.older_files@[j]).id()
        &&& forall|i: int|
            0 <= i < self.older_files@.len() ==> (#[trigger] self.older_files@[i]).id()
                < self.active_file.id()
        &&& self.active_file.off() == self.active_file.contents().len()
        &&& forall|i: int|
            0 <= i < self.older_files@.len() ==> (#[trigger] self.older_files@[i]).contents().len()
                <= u64::MAX
        &&& forall|i: int|
            0 <= i < self.older_files@.len() ==> spec_scan(
                (#[trigger] self.older_files@[i]).contents(),
                self.older_files@[i].id(),
            ) is Good
        &&& spec_scan(self.active_file.contents(), self.active_file.id()) is Good
        &&& spec_scan(self.active_file.contents(), self.active_file.id())->Good_1
            == self.active_file.contents().len()
    }

    /// Everything the invariant asks but the index matching the replay:
    /// what holds even in the middle of a commit, between the appended
    /// sentinel and the index updates.
    pub closed spec fn sound(&self) -> bool {
        &&& self.files_wf()
        &&& self.index.wf()
        &&& spec_replay(self.log()) is Good
        &&& self.replay_st().max_seq < self.seq_no
        &&& 1 <= self.seq_no
    }

    /// The engine invariant: sound, and the index is exactly what the
    /// replay of the log builds.
    pub closed spec fn inv(&self) -> bool {
        &&& self.sound()
        &&& self.index.as_map() == self.index_map()
    }

    /// Appends one encoded record to the active segment, rotating first
    /// when the segment is full.  The log grows by exactly this record;
    /// the index is untouched.
    pub(crate) fn append_log_record(&mut self, record: &LogRecord) -> (r: Result<
        LogRecordPos,
        Errors,
    >)
        requires
            old(self).sound(),
            encodable(record@),
            spec_split_key(record@.key) is Some,
            spec_split_key(record@.key)->Some_0.0 < old(self).spec_seq_no(),
        ensures
            final(self).sound(),
            final(self).spec_index() == old(self).spec_index(),
            final(self).spec_seq_no() == old(self).spec_seq_no(),
            final(self).spec_options() == old(self).spec_options(),
            match r {
                Ok(pos) => {
                    &&& final(self).log() == old(self).log() + seq![
                        LocatedRecord { pos, rec: record@ }
                    ]
                    &&& spec_replay(final(self).log()) == crate::replay::replay_step(
                        old(self).replay_st(),
                        LocatedRecord { pos, rec: record@ },
                    )
                    &&& pos.file_id == final(self).active_id()
                    &&& final(self).active_off() == pos.offset + spec_encoded(record@).len()
                    &&& (!spec_needs_rotation(*old(self), record@) ==> final(self).active_id()
                        == old(self).active_id() && pos.offset == old(self).active_off()
                        && final(self).seg_files().len() == old(self).seg_files().len())
                    &&& (spec_needs_rotation(*old(self), record@) ==> final(self).active_id()
                        == old(self).active_id() + 1 && pos.offset == 0
                        && final(self).seg_files().len() == old(self).seg_files().len() + 1
                        && final(self).seg_files()[final(self).seg_files().len() - 2] == old(
                        self,
                    ).seg_files().last())
                },
                Err(e) => {
                    &&& e == Errors::FailedToOpenDataFile
                    &&& *final(self) == *old(self)
                    &&& old(self).active_id() == u32::MAX
                    &&& spec_needs_rotation(*old(self), record@)
                },
            },
    {
        let enc_record = record.encode();
        let record_len = enc_record.len();
        let ghost pre = *self;

        let need_rotate = (self.active_file.get_write_off() as u128) + (record_len as u128) > (
        self.options.data_file_size as u128);
        proof {
            assert(need_rotate == spec_needs_rotation(*old(self), record@));
        }
        if need_rotate {
            match self.active_file.sync() {
                Ok(_) => {},
                Err(e) => {
                    return Err(e);
                },
            }
            let current_fid = self.active_file.get_file_id();
            if current_fid == u32::MAX {
                return Err(Errors::FailedToOpenDataFile);
            }
            let mut sealed = DataFile::new(current_fid + 1);
            core::mem::swap(&mut self.active_file, &mut sealed);
            self.older_files.push(sealed);
            proof {
                let oldfs = pre.seg_files();
                let midfs = self.seg_files();
                assert(self.older_files@ =~= pre.older_files@.push(pre.active_file));
                assert(midfs.drop_last() =~= pre.older_files@.map_values(
                    |f: DataFile| (f.id(), f.contents()),
                ).push((pre.active_file.id(), pre.active_file.contents())));
                assert(midfs.drop_last() =~= oldfs);
                lemma_parse_past_end(self.active_file.contents(), 0);
                assert(scan_recs(midfs.last()) =~= Seq::<LocatedRecord>::empty());
                assert(segs_recs(midfs) =~= segs_recs(oldfs));
                assert(self.log() == pre.log());
            }
        }
        let ghost mid = *self;
        assert(mid.files_wf());
        assert(mid.log() == pre.log());
        assert(mid.active_off() + enc_record@.len() <= u64::MAX) by {
            if need_rotate {
                assert(mid.active_off() == 0);
            } else {
                assert(mid.active_off() as int + record_len as int
                    <= mid.spec_options().data_file_size as int);
            }
        }

        let write_off = self.active_file.get_write_off();
        match self.active_file.write(enc_record.as_slice()) {
            Ok(_) => {},
            Err(e) => {
                return Err(e);
            },
        }

        if self.options.sync_write {
            match self.active_file.sync() {
                Ok(_) => {},
                Err(e) => {
                    return Err(e);
                },
            }
        }

        let pos = LogRecordPos { file_id: self.active_file.get_file_id(), offset: write_off };
        proof {
            let c = mid.active_file.contents();
            let fid = mid.active_file.id();
            lemma_scan_append(c, fid, 0, record@);
            let lr = LocatedRecord { pos, rec: record@ };
            let newfs = self.seg_files();
            let midfs = mid.seg_files();
            assert(newfs.drop_last() =~= midfs.drop_last());
            assert(segs_recs(newfs) == segs_recs(newfs.drop_last()) + scan_recs(newfs.last()));
            assert(segs_recs(midfs) == segs_recs(midfs.drop_last()) + scan_recs(midfs.last()));
            assert(scan_recs(newfs.last()) =~= scan_recs(midfs.last()) + seq![lr]);
            assert(self.log() =~= mid.log() + seq![lr]);
            assert(self.log() == pre.log() + seq![lr]);
            lemma_replay_snoc(init_state(), pre.log(), lr);
            assert(pre.log().push(lr) =~= pre.log() + seq![lr]);
            assert(spec_replay(self.log()) == crate::replay::replay_step(pre.replay_st(), lr));
            // the step is good and its watermark stays under the counter
            let (sq, uk) = spec_split_key(record@.key)->Some_0;
            assert(spec_replay(self.log()) is Good);
            assert(self.replay_st().max_seq < self.seq_no);
            assert(self.seg_files().len() == mid.seg_files().len());
            if need_rotate {
                assert(mid.seg_files().len() == pre.seg_files().len() + 1);
                assert(self.seg_files()[self.seg_files().len() - 2] == mid.seg_files()[
                    mid.seg_files().len() - 2]);
                assert(mid.seg_files()[mid.seg_files().len() - 2] == (pre.active_file.id(),
                    pre.active_file.contents()));
                assert(pre.seg_files().last() == (pre.active_file.id(),
                    pre.active_file.contents()));
            } else {
                assert(mid.seg_files().len() == pre.seg_files().len());
            }
        }
        Ok(pos)
    }

    /// The contents of the segment with the given id, if the engine holds
    /// one.
    pub closed spec fn file_contents_of(&self, fid: u32) -> Option<Seq<u8>> {
        if fid == self.active_file.id() {
            Some(self.active_file.contents())
        } else if exists|j: int|
            0 <= j < self.older_files@.len() && (#[trigger] self.older_files@[j]).id() == fid {
            let j = choose|j: int|
                0 <= j < self.older_files@.len() && (#[trigger] self.older_files@[j]).id() == fid;
            Some(self.older_files@[j].contents())
        } else {
            None
        }
    }

    /// The invariant, split into the pieces other modules build on.
    pub proof fn lemma_inv_parts(&self)
        requires
            self.inv(),
        ensures
            self.sound(),
            self.spec_index().as_map() == self.index_map(),
    {
    }

    /// What soundness gives in public terms.
    pub proof fn lemma_sound_parts(&self)
        requires
            self.sound(),
        ensures
            spec_replay(self.log()) is Good,
            self.replay_st().max_seq < self.spec_seq_no(),
            1 <= self.spec_seq_no(),
            self.spec_index().wf(),
    {
    }

    /// Soundness plus a synchronized index is the whole invariant.
    pub proof fn lemma_inv_intro(&self)
        requires
            self.sound(),
            self.spec_index().as_map() == self.index_map(),
        ensures
            self.inv(),
    {
    }

    /// Bumps the commit sequence counter, handing back the old value.
    pub(crate) fn fetch_add_seq(&mut self) -> (s: u64)
        requires
            old(self).sound(),
            old(self).spec_seq_no() < u64::MAX,
        ensures
            s == old(self).spec_seq_no(),
            final(self).spec_seq_no() == s + 1,
            final(self).sound(),
            final(self).log() == old(self).log(),
            final(self).spec_index() == old(self).spec_index(),
            final(self).spec_options() == old(self).spec_options(),
            final(self).active_id() == old(self).active_id(),
            old(self).inv() ==> final(self).inv(),
    {
        let s = self.seq_no;
        self.seq_no = s + 1;
        s
    }

    /// Installs a locator in the index; the log is untouched.
    pub(crate) fn index_put(&mut self, key: Vec<u8>, pos: LogRecordPos) -> (ok: bool)
        requires
            old(self).sound(),
        ensures
            ok,
            final(self).sound(),
            final(self).spec_index().as_map() == old(self).spec_index().as_map().insert(
                key@,
                pos,
            ),
            final(self).log() == old(self).log(),
            final(self).spec_seq_no() == old(self).spec_seq_no(),
            final(self).spec_options() == old(self).spec_options(),
            final(self).active_id() == old(self).active_id(),
    {
        self.index.put(key, pos)
    }

    /// Removes a key from the index; the log is untouched.
    pub(crate) fn index_delete(&mut self, key: Vec<u8>) -> (was: bool)
        requires
            old(self).sound(),
        ensures
            was == old(self).spec_index().as_map().dom().contains(key@),
            final(self).sound(),
            final(self).spec_index().as_map() == old(self).spec_index().as_map().remove(key@),
            final(self).log() == old(self).log(),
            final(self).spec_seq_no() == old(self).spec_seq_no(),
            final(self).spec_options() == old(self).spec_options(),
            final(self).active_id() == old(self).active_id(),
    {
        self.index.delete(key)
    }

    /// Looks a key up in the index; `None` exactly when the engine holds
    /// no live record for it.
    pub(crate) fn index_get(&self, key: Vec<u8>) -> (r: Option<LogRecordPos>)
        requires
            self.inv(),
        ensures
            match r {
                Some(p) => self.index_map().dom().contains(key@) && p == self.index_map()[key@],
                None => !self.index_map().dom().contains(key@),
            },
    {
        self.index.get(key)
    }

    /// Reads the record a locator points at and hands back its value;
    /// a tombstone reads as an absent key.
    pub(crate) fn get_value_by_position(&self, log_record_pos: &LogRecordPos) -> (r: Result<
        Vec<u8>,
        Errors,
    >)
        requires
            self.inv(),
        ensures
            match self.file_contents_of(log_record_pos.file_id) {
                None => r == Err::<Vec<u8>, Errors>(Errors::FailedToOpenDataFile),
                Some(c) => match spec_parse_record(c, log_record_pos.offset as int) {
                    RecParse::Rec(rv, sz) => if rv.rec_type == LogRecordType::DELETED {
                        r == Err::<Vec<u8>, Errors>(Errors::KeyNotFound)
                    } else {
                        r matches Ok(v) && v@ == rv.value
                    },
                    RecParse::Eof => r == Err::<Vec<u8>, Errors>(Errors::ReadDataFileEOF),
                    RecParse::Corrupt => r == Err::<Vec<u8>, Errors>(
                        Errors::InvalidLogRecordCrc,
                    ),
                },
            },
    {
        let read_res: Result<crate::log_record::ReadLogRecord, Errors>;
        if self.active_file.get_file_id() == log_record_pos.file_id {
            read_res = self.active_file.read_log_record(log_record_pos.offset);
        } else {
            let n = self.older_files.len();
            let mut m: usize = 0;
            let mut found: bool = false;
            while m < n
                invariant_except_break
                    !found,
                    n == self.older_files@.len(),
                    m <= n,
                    forall|j: int|
                        0 <= j < m ==> (#[trigger] self.older_files@[j]).id()
                            != log_record_pos.file_id,
                ensures
                    n == self.older_files@.len(),
                    m <= n,
                    found ==> m < n && self.older_files@[m as int].id() == log_record_pos.file_id,
                    !found ==> forall|j: int|
                        0 <= j < n ==> (#[trigger] self.older_files@[j]).id()
                            != log_record_pos.file_id,
                decreases n - m,
            {
                if self.older_files[m].get_file_id() == log_record_pos.file_id {
                    found = true;
                    break;
                }
                m = m + 1;
            }
            if !found {
                assert(self.file_contents_of(log_record_pos.file_id) is None);
                return Err(Errors::FailedToOpenDataFile);
            }
            proof {
                let fid = log_record_pos.file_id;
                let j = choose|j: int|
                    0 <= j < self.older_files@.len() && (#[trigger] self.older_files@[j]).id()
                        == fid;
                if j != m {
                    assert(self.inv());
                    assert(self.older_files@[j].id() != self.older_files@[m as int].id());
                }
                assert(self.file_contents_of(fid) == Some(
                    self.older_files@[m as int].contents(),
                ));
            }
            read_res = self.older_files[m].read_log_record(log_record_pos.offset);
        }
        match read_res {
            Ok(rl) => {
                if rl.record.rec_type == LogRecordType::DELETED {
                    Err(Errors::KeyNotFound)
                } else {
                    Ok(rl.record.value)
                }
            },
            Err(e) => Err(e),
        }
    }
}

/// The longest user key a record can carry: the sequence-number prefix
/// and the key together must fit the on-disk size field.
pub const MAX_KEY_LEN: usize = 0xFFFF_FFEF;

/// The longest value a record can carry.
pub const MAX_VALUE_LEN: usize = 0xFFFF_FFFF;

impl Engine {
    /// Stores `value` under `key`.  An empty key is rejected and nothing
    /// changes; otherwise the pair is appended to the log and installed
    /// in the index, and every later read of `key` sees `value`.
    pub fn put(&mut self, key: Vec<u8>, value: Vec<u8>) -> (r: Result<(), Errors>)
        requires
            old(self).inv(),
            key@.len() <= MAX_KEY_LEN,
            value@.len() <= MAX_VALUE_LEN,
        ensures
            final(self).inv(),
            final(self).spec_seq_no() == old(self).spec_seq_no(),
            final(self).spec_options() == old(self).spec_options(),
            key@.len() == 0 <==> r == Err::<(), Errors>(Errors::KeyIsEmpty),
            match r {
                Ok(_) => ({
                    &&& final(self).view_map() == old(self).view_map().insert(key@, value@)
                    &&& final(self).log() == old(self).log().push(final(self).log().last())
                    &&& final(self).log().last().rec == (RecView {
                        key: spec_seq_key(0, key@),
                        value: value@,
                        rec_type: LogRecordType::NORMAL,
                    })
                    &&& final(self).index_map() == old(self).index_map().insert(
                        key@,
                        final(self).log().last().pos,
                    )
                    &&& final(self).log().last().pos.file_id == final(self).active_id()
                    &&& final(self).active_off() == final(self).log().last().pos.offset
                        + spec_encoded(final(self).log().last().rec).len()
                }),
                Err(e) => *final(self) == *old(self) && (e == Errors::KeyIsEmpty || (e
                    == Errors::FailedToOpenDataFile && old(self).active_id() == u32::MAX)),
            },
            key@.len() > 0 && old(self).active_id() < u32::MAX ==> r is Ok,
    {
        if key.is_empty() {
            return Err(Errors::KeyIsEmpty);
        }
        let seq_key = crate::keys::log_record_key_with_seq(&key, crate::batch::NON_TRANSACTION_SEQ_NO);
        let record = LogRecord { key: seq_key, value, rec_type: LogRecordType::NORMAL };
        proof {
            crate::keys::lemma_split_seq_key(0, key@);
            assert(crate::varint::spec_varint(0) =~= seq![0u8]);
            assert(encodable(record@));
        }
        let log_record_pos = match self.append_log_record(&record) {
            Ok(pos) => pos,
            Err(e) => {
                return Err(e);
            },
        };
        let ghost mid = *self;
        let ok = self.index.put(key, log_record_pos);
        if !ok {
            return Err(Errors::IndexUpdateFailed);
        }
        proof {
            let st = old(self).replay_st();
            let entry = IdxEntry { pos: log_record_pos, value: record@.value };
            assert(self.replay_st().index == st.index.insert(key@, entry));
            assert(self.index.as_map() =~= pos_project(self.replay_st().index));
            assert(self.view_map() =~= old(self).view_map().insert(key@, record@.value));
            let lr = LocatedRecord { pos: log_record_pos, rec: record@ };
            assert(self.log() =~= old(self).log().push(lr));
            assert(self.log().last() == lr);
            assert(self.index_map() =~= old(self).index_map().insert(key@, lr.pos));
        }
        Ok(())
    }

    /// Reads the value stored under `key`.  An empty key is rejected;
    /// otherwise the result is exactly the engine's current mapping:
    /// the value for a live key, `KeyNotFound` for an absent one.
    pub fn get(&self, key: Vec<u8>) -> (r: Result<Vec<u8>, Errors>)
        requires
            self.inv(),
        ensures
            key@.len() == 0 <==> r == Err::<Vec<u8>, Errors>(Errors::KeyIsEmpty),
            key@.len() > 0 ==> match r {
                Ok(v) => self.view_map().dom().contains(key@) && v@ == self.view_map()[key@],
                Err(e) => e == Errors::KeyNotFound && !self.view_map().dom().contains(key@),
            },
    {
        if key.is_empty() {
            return Err(Errors::KeyIsEmpty);
        }
        let ghost gkey = key@;
        let pos = match self.index.get(key) {
            None => {
                return Err(Errors::KeyNotFound);
            },
            Some(p) => p,
        };
        proof {
            let st = self.replay_st();
            crate::replay::lemma_replay_backed(init_state(), self.log());
            assert(st.index.dom().contains(gkey));
            assert(crate::replay::backed(self.log(), gkey, st.index[gkey]));
            let fs = self.seg_files();
            assert forall|j: int|
                0 <= j < fs.len() implies spec_scan((#[trigger] fs[j]).1, fs[j].0) is Good && fs[
                j
            ].1.len() <= u64::MAX by {
                if j < self.older_files@.len() {
                    assert(fs[j] == (self.older_files@[j].id(), self.older_files@[j].contents()));
                } else {
                    assert(fs[j] == (self.active_file.id(), self.active_file.contents()));
                }
            }
            lemma_segs_recs_positions(fs);
            let e = st.index[gkey];
            let recs = self.log();
            let i = choose|i: int|
                0 <= i < recs.len() && (#[trigger] recs[i]).pos == e.pos && recs[i].rec.rec_type
                    == LogRecordType::NORMAL && recs[i].rec.value == e.value && spec_split_key(
                    recs[i].rec.key,
                ) is Some && spec_split_key(recs[i].rec.key)->Some_0.1 == gkey;
            let j = choose|j: int|
                0 <= j < fs.len() && (#[trigger] fs[j]).0 == recs[i].pos.file_id && (
                exists|sz: int|
                    spec_parse_record(fs[j].1, recs[i].pos.offset as int) == RecParse::Rec(
                        recs[i].rec,
                        sz,
                    ));
            assert(e.pos == pos);
            if j < self.older_files@.len() {
                assert(fs[j] == (self.older_files@[j].id(), self.older_files@[j].contents()));
                assert(self.older_files@[j].id() != self.active_file.id());
                let j2 = choose|j2: int|
                    0 <= j2 < self.older_files@.len() && (#[trigger] self.older_files@[j2]).id()
                        == pos.file_id;
                if j2 != j {
                    assert(self.older_files@[j2].id() != self.older_files@[j].id());
                }
                assert(self.file_contents_of(pos.file_id) == Some(fs[j].1));
            } else {
                assert(fs[j] == (self.active_file.id(), self.active_file.contents()));
                assert(self.file_contents_of(pos.file_id) == Some(fs[j].1));
            }
        }
        self.get_value_by_position(&pos)
    }

    /// Removes `key`.  An empty key is rejected; deleting an absent key
    /// is a no-op that appends nothing; deleting a live key appends a
    /// tombstone and drops the key from the index.
    pub fn delete(&mut self, key: Vec<u8>) -> (r: Result<(), Errors>)
        requires
            old(self).inv(),
            key@.len() <= MAX_KEY_LEN,
        ensures
            final(self).inv(),
            final(self).spec_seq_no() == old(self).spec_seq_no(),
            final(self).spec_options() == old(self).spec_options(),
            key@.len() == 0 <==> r == Err::<(), Errors>(Errors::KeyIsEmpty),
            key@.len() > 0 && !old(self).view_map().dom().contains(key@) ==> r is Ok
                && *final(self) == *old(self),
            match r {
                Ok(_) => final(self).view_map() == old(self).view_map().remove(key@),
                Err(e) => *final(self) == *old(self) && (e == Errors::KeyIsEmpty || (e
                    == Errors::FailedToOpenDataFile && old(self).active_id() == u32::MAX)),
            },
            r is Ok && old(self).view_map().dom().contains(key@) ==> ({
                &&& final(self).log() == old(self).log().push(final(self).log().last())
                &&& final(self).log().last().rec == (RecView {
                    key: spec_seq_key(0, key@),
                    value: Seq::<u8>::empty(),
                    rec_type: LogRecordType::DELETED,
                })
                &&& final(self).index_map() == old(self).index_map().remove(key@)
                &&& final(self).log().last().pos.file_id == final(self).active_id()
                &&& final(self).active_off() == final(self).log().last().pos.offset
                    + spec_encoded(final(self).log().last().rec).len()
            }),
            key@.len() > 0 && old(self).active_id() < u32::MAX ==> r is Ok,
    {
        if key.is_empty() {
            return Err(Errors::KeyIsEmpty);
        }
        let ghost gkey = key@;
        let probe = vstd::slice::slice_to_vec(key.as_slice());
        let pos = self.index.get(probe);
        if pos.is_none() {
            proof {
                assert(!self.view_map().dom().contains(gkey));
                assert(self.view_map() =~= self.view_map().remove(gkey));
            }
            return Ok(());
        }
        let seq_key = crate::keys::log_record_key_with_seq(&key, crate::batch::NON_TRANSACTION_SEQ_NO);
        let record = LogRecord { key: seq_key, value: Vec::new(), rec_type: LogRecordType::DELETED };
        proof {
            crate::keys::lemma_split_seq_key(0, key@);
            assert(crate::varint::spec_varint(0) =~= seq![0u8]);
            assert(encodable(record@));
        }
        match self.append_log_record(&record) {
            Ok(_) => {},
            Err(e) => {
                return Err(e);
            },
        }
        let ok = self.index.delete(key);
        if !ok {
            return Err(Errors::IndexUpdateFailed);
        }
        proof {
            let st = old(self).replay_st();
            assert(self.replay_st().index == st.index.remove(gkey));
            assert(self.index.as_map() =~= pos_project(self.replay_st().index));
            assert(self.view_map() =~= old(self).view_map().remove(gkey));
            assert(self.log().last().rec == record@);
            assert(self.log() =~= old(self).log().push(self.log().last()));
            assert(self.index_map() =~= old(self).index_map().remove(gkey));
        }
        Ok(())
    }

    /// Flushes the active segment to durable media.
    pub fn sync(&self) -> (r: Result<(), Errors>)
        ensures
            r is Ok,
    {
        self.active_file.sync()
    }

    /// Closes the engine, flushing the active segment first.
    pub fn close(&self) -> (r: Result<(), Errors>)
        ensures
            r is Ok,
    {
        self.active_file.sync()
    }

    /// Every live key, in ascending order.
    pub fn list_keys(&self) -> (r: Result<Vec<Vec<u8>>, Errors>)
        requires
            self.inv(),
        ensures
            r matches Ok(ks) && ks@.map_values(|k: Vec<u8>| k@) == self.spec_index().keys(),
            r matches Ok(ks) && forall|i: int|
                0 <= i < ks@.len() ==> self.view_map().dom().contains(#[trigger] ks@[i]@),
    {
        let r = self.index.list_keys();
        proof {
            match &r {
                Ok(ks) => {
                    self.spec_index().char();
                    assert(ks@.map_values(|k: Vec<u8>| k@).len() == ks@.len());
                    assert(self.spec_index().keys().len() == self.spec_index().pairs().len());
                    assert(ks@.len() == self.spec_index().pairs().len());
                    assert forall|i: int|
                        0 <= i < ks@.len() implies self.view_map().dom().contains(
                        #[trigger] ks@[i]@,
                    ) by {
                        assert(ks@.map_values(|k: Vec<u8>| k@)[i] == ks@[i]@);
                        assert(self.spec_index().keys()[i] == self.spec_index().pairs()[i].0);
                        assert(self.spec_index().as_map().dom().contains(
                            self.spec_index().pairs()[i].0,
                        ));
                    }
                },
                Err(_) => {},
            }
        }
        r
    }


    /// Every segment's id and bytes, in order, for a caller that mirrors
    /// the engine's files elsewhere.
    pub fn segments(&self) -> (r: Vec<(u32, Vec<u8>)>)
        ensures
            r@.map_values(|e: (u32, Vec<u8>)| (e.0, e.1@)) == self.seg_files(),
    {
        let mut out: Vec<(u32, Vec<u8>)> = Vec::new();
        let n = self.older_files.len();
        let mut i: usize = 0;
        while i < n
            invariant
                n == self.older_files@.len(),
                i <= n,
                out@.len() == i,
                forall|j: int|
                    0 <= j < i ==> (#[trigger] out@[j]).0 == self.older_files@[j].id()
                        && out@[j].1@ == self.older_files@[j].contents(),
            decreases n - i,
        {
            let f = &self.older_files[i];
            let bytes = vstd::slice::slice_to_vec(f.contents_ref().as_slice());
            out.push((f.get_file_id(), bytes));
            i = i + 1;
        }
        let abytes = vstd::slice::slice_to_vec(self.active_file.contents_ref().as_slice());
        out.push((self.active_file.get_file_id(), abytes));
        proof {
            assert(out@.map_values(|e: (u32, Vec<u8>)| (e.0, e.1@)) =~= self.seg_files());
        }
        out
    }

    /// Replay equivalence: two engines over the same segment bytes hold
    /// the same locators and the same key-value map — in particular, an
    /// engine reopened over the files a clean shutdown left behind
    /// rebuilds exactly the index it closed with.
    pub proof fn lemma_replay_equivalence(e1: Engine, e2: Engine)
        requires
            e1.inv(),
            e2.inv(),
            e1.seg_files() == e2.seg_files(),
        ensures
            e1.index_map() == e2.index_map(),
            e1.view_map() == e2.view_map(),
            e1.spec_index().as_map() == e2.spec_index().as_map(),
    {
    }


    /// Read-your-writes: once a store of `(k, v)` has succeeded, the
    /// engine maps `k` to `v`.
    pub proof fn lemma_read_your_writes(pre: Engine, post: Engine, k: Seq<u8>, v: Seq<u8>)
        requires
            post.view_map() == pre.view_map().insert(k, v),
        ensures
            post.view_map().dom().contains(k),
            post.view_map()[k] == v,
    {
    }

    /// Tombstoning: once a delete of `k` has succeeded, the engine does
    /// not map `k`.
    pub proof fn lemma_tombstone(pre: Engine, post: Engine, k: Seq<u8>)
        requires
            post.view_map() == pre.view_map().remove(k),
        ensures
            !post.view_map().dom().contains(k),
    {
    }

    /// A mapping of `k1` survives any later operation on a different key
    /// `k2`, store or delete alike.
    pub proof fn lemma_other_key_untouched(
        pre: Engine,
        post: Engine,
        k1: Seq<u8>,
        k2: Seq<u8>,
        v2: Seq<u8>,
    )
        requires
            k1 != k2,
            post.view_map() == pre.view_map().insert(k2, v2) || post.view_map()
                == pre.view_map().remove(k2),
        ensures
            post.view_map().dom().contains(k1) == pre.view_map().dom().contains(k1),
            pre.view_map().dom().contains(k1) ==> post.view_map()[k1] == pre.view_map()[k1],
    {
    }

    /// Rotation preserves reads: a stored pair survives any later write
    /// of a different key — also one whose append rotates the active
    /// segment.
    pub proof fn lemma_put_preserves_other_keys(
        pre: Engine,
        post: Engine,
        k1: Seq<u8>,
        v1: Seq<u8>,
        k2: Seq<u8>,
        v2: Seq<u8>,
    )
        requires
            pre.view_map().dom().contains(k1),
            pre.view_map()[k1] == v1,
            post.view_map() == pre.view_map().insert(k2, v2),
            k1 != k2,
        ensures
            post.view_map().dom().contains(k1),
            post.view_map()[k1] == v1,
    {
    }

    /// The sequence number the next commit will take.
    pub fn seq_no(&self) -> (n: u64)
        ensures
            n == self.spec_seq_no(),
    {
        self.seq_no
    }

    /// Opens an engine over a directory's files, handed over as
    /// `(name, contents)` pairs.  Options are validated first; every name
    /// ending in the data suffix must spell a distinct segment id; the
    /// segments are then replayed in ascending id order to rebuild the
    /// index, the highest id staying active for appends.  Only the
    /// ordered-map index is provided, so the options must ask for it.
    #[verifier::rlimit(100)]
    pub fn open(opts: Options, dir_files: Vec<(Vec<u8>, Vec<u8>)>) -> (r: Result<Engine, Errors>)
        requires
            opts.index_type == IndexType::BTree,
        ensures
            ({
                let dfs = dir_view(dir_files@);
                match crate::options::spec_check_options(opts) {
                    Some(e0) => r == Err::<Engine, Errors>(e0),
                    None => match r {
                        Ok(eng) => {
                            &&& eng.inv()
                            &&& eng.spec_options() == opts
                            &&& eng.spec_seq_no() == eng.replay_st().max_seq + 1
                            &&& forall|j1: int, j2: int|
                                0 <= j1 < j2 < eng.seg_files().len() ==> (
                                #[trigger] eng.seg_files()[j1]).0 < (
                                #[trigger] eng.seg_files()[j2]).0
                            &&& ((forall|i: int|
                                0 <= i < dfs.len() ==> !spec_is_data_name((#[trigger] dfs[i]).0))
                                ==> eng.seg_files() == seq![(0u32, Seq::<u8>::empty())])
                            &&& ((exists|i: int|
                                0 <= i < dfs.len() && spec_is_data_name((#[trigger] dfs[i]).0))
                                ==> segs_match_dir(eng.seg_files(), dfs))
                            &&& (forall|x: int|
                                0 <= x < dfs.len() && spec_valid_data_name(
                                    (#[trigger] dfs[x]).0,
                                ) ==> spec_scan(dfs[x].1, spec_name_id(dfs[x].0) as u32) is Good)
                            &&& eng.active_id() == eng.seg_files().last().0
                        },
                        Err(e) => {
                            &&& (e == Errors::DataDirectoryCorrupted || e
                                == Errors::InvalidLogRecordCrc)
                            &&& (e == Errors::DataDirectoryCorrupted ==> dir_corrupt_cause(dfs))
                            &&& (e == Errors::InvalidLogRecordCrc ==> crc_cause(dfs))
                        },
                    },
                }
            }),
    {
        let ghost dfs = dir_view(dir_files@);
        match crate::options::check_options(&opts) {
            Some(e) => {
                return Err(e);
            },
            None => {},
        }

        let parsed = match parse_dir(&dir_files) {
            Ok(p) => p,
            Err(e) => {
                return Err(e);
            },
        };
        build_engine(opts, parsed, &dir_files)
    }
}

/// A buffered record as the replay model sees it.
pub open spec fn tr_pend(tr: crate::log_record::TransactionRecord) -> PendRec {
    PendRec {
        key: tr.record.key@,
        rec_type: tr.record.rec_type,
        value: tr.record.value@,
        pos: tr.pos,
    }
}

/// The map a table of buffered transactions stands for.
pub open spec fn pend_view(s: Seq<(u64, Vec<crate::log_record::TransactionRecord>)>) -> Map<
    u64,
    Seq<PendRec>,
>
    decreases s.len(),
{
    if s.len() == 0 {
        Map::empty()
    } else {
        pend_view(s.drop_last()).insert(
            s.last().0,
            s.last().1@.map_values(|tr: crate::log_record::TransactionRecord| tr_pend(tr)),
        )
    }
}

/// No transaction is listed twice.
pub open spec fn pend_distinct(s: Seq<(u64, Vec<crate::log_record::TransactionRecord>)>) -> bool {
    forall|i: int, j: int| 0 <= i < j < s.len() ==> (#[trigger] s[i]).0 != (#[trigger] s[j]).0
}

/// What the table's map holds: exactly the listed transactions, each with
/// its listed records.
proof fn lemma_pend_view_char(s: Seq<(u64, Vec<crate::log_record::TransactionRecord>)>)
    requires
        pend_distinct(s),
    ensures
        forall|q: u64|
            #[trigger] pend_view(s).dom().contains(q) <==> exists|i: int|
                0 <= i < s.len() && (#[trigger] s[i]).0 == q,
        forall|i: int|
            0 <= i < s.len() ==> #[trigger] pend_view(s)[s[i].0] == s[i].1@.map_values(
                |tr: crate::log_record::TransactionRecord| tr_pend(tr),
            ),
    decreases s.len(),
{
    if s.len() > 0 {
        let dl = s.drop_last();
        lemma_pend_view_char(dl);
        assert forall|q: u64| #[trigger]
            pend_view(s).dom().contains(q) <==> exists|i: int|
                0 <= i < s.len() && (#[trigger] s[i]).0 == q by {
            if pend_view(s).dom().contains(q) {
                if q == s.last().0 {
                    assert(s[s.len() - 1].0 == q);
                } else {
                    assert(pend_view(dl).dom().contains(q));
                    let i = choose|i: int| 0 <= i < dl.len() && (#[trigger] dl[i]).0 == q;
                    assert(s[i].0 == q);
                }
            }
            if exists|i: int| 0 <= i < s.len() && (#[trigger] s[i]).0 == q {
                let i = choose|i: int| 0 <= i < s.len() && (#[trigger] s[i]).0 == q;
                if i < s.len() - 1 {
                    assert(dl[i].0 == q);
                    assert(pend_view(dl).dom().contains(q));
                }
            }
        }
        assert forall|i: int| 0 <= i < s.len() implies #[trigger] pend_view(s)[s[i].0] == s[i].1@.map_values(
            |tr: crate::log_record::TransactionRecord| tr_pend(tr),
        ) by {
            if i < s.len() - 1 {
                assert(s[i].0 != s.last().0);
                assert(dl[i] == s[i]);
                assert(pend_view(dl)[dl[i].0] == dl[i].1@.map_values(
                    |tr: crate::log_record::TransactionRecord| tr_pend(tr),
                ));
            }
        }
    }
}

/// Adds one record to the buffer of transaction `q`, opening the buffer
/// if the transaction is new.
fn pending_push(
    p: &mut Vec<(u64, Vec<crate::log_record::TransactionRecord>)>,
    q: u64,
    tr: crate::log_record::TransactionRecord,
)
    requires
        pend_distinct(old(p)@),
    ensures
        pend_distinct(final(p)@),
        pend_view(final(p)@) == pend_view(old(p)@).insert(
            q,
            crate::replay::pending_of(pend_view(old(p)@), q).push(tr_pend(tr)),
        ),
{
    proof {
        lemma_pend_view_char(p@);
    }
    let ghost olds = p@;
    let n = p.len();
    let mut i: usize = 0;
    let mut found: bool = false;
    while i < n
        invariant_except_break
            !found,
            n == p@.len(),
            i <= n,
            forall|j: int| 0 <= j < i ==> (#[trigger] p@[j]).0 != q,
        invariant
            p@ == olds,
        ensures
            n == p@.len(),
            i <= n,
            p@ == olds,
            found ==> i < n && p@[i as int].0 == q,
            !found ==> forall|j: int| 0 <= j < n ==> (#[trigger] p@[j]).0 != q,
        decreases n - i,
    {
        if p[i].0 == q {
            found = true;
            break;
        }
        i = i + 1;
    }
    if found {
        let mut entry = p.remove(i);
        entry.1.push(tr);
        p.push(entry);
        proof {
            let news = p@;
            assert forall|a: int, b: int|
                0 <= a < b < news.len() implies (#[trigger] news[a]).0 != (
            #[trigger] news[b]).0 by {
                let fixa = if a < i { a } else { a + 1 };
                if b < news.len() - 1 {
                    let fixb = if b < i { b } else { b + 1 };
                    assert(news[a] == olds[fixa] && news[b] == olds[fixb]);
                } else {
                    assert(news[a] == olds[fixa]);
                    assert(news[b].0 == q);
                    assert(olds[fixa].0 != olds[i as int].0);
                }
            }
            lemma_pend_view_char(news);
            assert(pend_view(olds).dom().contains(q));
            assert(pend_view(olds)[q] == olds[i as int].1@.map_values(
                |tr: crate::log_record::TransactionRecord| tr_pend(tr),
            ));
            assert(news[news.len() - 1].1@ =~= olds[i as int].1@.push(tr));
            assert(pend_view(news) =~= pend_view(olds).insert(
                q,
                crate::replay::pending_of(pend_view(olds), q).push(tr_pend(tr)),
            )) by {
                assert forall|q2: u64| #[trigger]
                    pend_view(news).dom().contains(q2) <==> (pend_view(olds).dom().contains(q2)
                        || q2 == q) by {
                    if pend_view(news).dom().contains(q2) {
                        let a = choose|a: int| 0 <= a < news.len() && (#[trigger] news[a]).0 == q2;
                        if a < news.len() - 1 {
                            let fixa = if a < i { a } else { a + 1 };
                            assert(olds[fixa].0 == q2);
                        }
                    }
                    if pend_view(olds).dom().contains(q2) && q2 != q {
                        let a = choose|a: int| 0 <= a < olds.len() && (#[trigger] olds[a]).0 == q2;
                        let fixa = if a < i { a } else { a - 1 };
                        assert(news[fixa].0 == q2);
                    }
                    if q2 == q {
                        assert(news[news.len() - 1].0 == q);
                    }
                }
                assert forall|q2: u64|
                    pend_view(news).dom().contains(q2) implies #[trigger] pend_view(news)[q2]
                        == (if q2 == q {
                        crate::replay::pending_of(pend_view(olds), q).push(tr_pend(tr))
                    } else {
                        pend_view(olds)[q2]
                    }) by {
                    if q2 == q {
                        assert(pend_view(news)[news[news.len() - 1].0] == news[news.len()
                            - 1].1@.map_values(
                            |tr: crate::log_record::TransactionRecord| tr_pend(tr),
                        ));
                        assert(news[news.len() - 1].1@.map_values(
                            |tr: crate::log_record::TransactionRecord| tr_pend(tr),
                        ) =~= crate::replay::pending_of(pend_view(olds), q).push(tr_pend(tr)));
                    } else {
                        let a = choose|a: int| 0 <= a < news.len() && (#[trigger] news[a]).0 == q2;
                        assert(a < news.len() - 1);
                        let fixa = if a < i { a } else { a + 1 };
                        assert(olds[fixa] == news[a]);
                        assert(pend_view(olds)[olds[fixa].0] == olds[fixa].1@.map_values(
                            |tr: crate::log_record::TransactionRecord| tr_pend(tr),
                        ));
                        assert(pend_view(news)[news[a].0] == news[a].1@.map_values(
                            |tr: crate::log_record::TransactionRecord| tr_pend(tr),
                        ));
                    }
                }
            }
        }
    } else {
        let mut buf: Vec<crate::log_record::TransactionRecord> = Vec::new();
        buf.push(tr);
        p.push((q, buf));
        proof {
            let news = p@;
            assert(news.drop_last() =~= olds);
            assert(!pend_view(olds).dom().contains(q));
            assert(news.last().1@.map_values(
                |tr: crate::log_record::TransactionRecord| tr_pend(tr),
            ) =~= crate::replay::pending_of(pend_view(olds), q).push(tr_pend(tr)));
        }
    }
}

/// Takes the whole buffer of transaction `q` out of the table, empty if
/// the transaction is unknown.
fn pending_take(p: &mut Vec<(u64, Vec<crate::log_record::TransactionRecord>)>, q: u64) -> (out:
    Vec<crate::log_record::TransactionRecord>)
    requires
        pend_distinct(old(p)@),
    ensures
        pend_distinct(final(p)@),
        pend_view(final(p)@) == pend_view(old(p)@).remove(q),
        out@.map_values(|tr: crate::log_record::TransactionRecord| tr_pend(tr))
            == crate::replay::pending_of(pend_view(old(p)@), q),
{
    proof {
        lemma_pend_view_char(p@);
    }
    let ghost olds = p@;
    let n = p.len();
    let mut i: usize = 0;
    let mut found: bool = false;
    while i < n
        invariant_except_break
            !found,
            n == p@.len(),
            i <= n,
            forall|j: int| 0 <= j < i ==> (#[trigger] p@[j]).0 != q,
        invariant
            p@ == olds,
        ensures
            n == p@.len(),
            i <= n,
            p@ == olds,
            found ==> i < n && p@[i as int].0 == q,
            !found ==> forall|j: int| 0 <= j < n ==> (#[trigger] p@[j]).0 != q,
        decreases n - i,
    {
        if p[i].0 == q {
            found = true;
            break;
        }
        i = i + 1;
    }
    if found {
        let entry = p.remove(i);
        proof {
            let news = p@;
            assert(news =~= olds.remove(i as int));
            assert forall|a: int, b: int|
                0 <= a < b < news.len() implies (#[trigger] news[a]).0 != (
            #[trigger] news[b]).0 by {
                let fixa = if a < i { a } else { a + 1 };
                let fixb = if b < i { b } else { b + 1 };
                assert(news[a] == olds[fixa] && news[b] == olds[fixb]);
            }
            lemma_pend_view_char(news);
            assert(pend_view(olds).dom().contains(q));
            assert(pend_view(olds)[q] == olds[i as int].1@.map_values(
                |tr: crate::log_record::TransactionRecord| tr_pend(tr),
            ));
            assert(pend_view(news) =~= pend_view(olds).remove(q)) by {
                assert forall|q2: u64| #[trigger]
                    pend_view(news).dom().contains(q2) <==> (pend_view(olds).dom().contains(q2)
                        && q2 != q) by {
                    if pend_view(news).dom().contains(q2) {
                        let a = choose|a: int| 0 <= a < news.len() && (#[trigger] news[a]).0 == q2;
                        let fixa = if a < i { a } else { a + 1 };
                        assert(olds[fixa].0 == q2);
                        assert(olds[fixa].0 != olds[i as int].0);
                    }
                    if pend_view(olds).dom().contains(q2) && q2 != q {
                        let a = choose|a: int| 0 <= a < olds.len() && (#[trigger] olds[a]).0 == q2;
                        assert(a != i);
                        let fixa = if a < i { a } else { a - 1 };
                        assert(news[fixa].0 == q2);
                    }
                }
                assert forall|q2: u64|
                    pend_view(news).dom().contains(q2) implies #[trigger] pend_view(news)[q2]
                        == pend_view(olds)[q2] by {
                    let a = choose|a: int| 0 <= a < news.len() && (#[trigger] news[a]).0 == q2;
                    let fixa = if a < i { a } else { a + 1 };
                    assert(olds[fixa] == news[a]);
                    assert(pend_view(olds)[olds[fixa].0] == olds[fixa].1@.map_values(
                        |tr: crate::log_record::TransactionRecord| tr_pend(tr),
                    ));
                    assert(pend_view(news)[news[a].0] == news[a].1@.map_values(
                        |tr: crate::log_record::TransactionRecord| tr_pend(tr),
                    ));
                }
            }
        }
        entry.1
    } else {
        proof {
            assert(!pend_view(olds).dom().contains(q));
            assert(pend_view(olds) =~= pend_view(olds).remove(q));
            assert(Seq::<crate::log_record::TransactionRecord>::empty().map_values(
                |tr: crate::log_record::TransactionRecord| tr_pend(tr),
            ) =~= crate::replay::pending_of(pend_view(olds), q));
        }
        Vec::new()
    }
}

/// Does the name end in the data-file suffix?
pub open spec fn spec_is_data_name(n: Seq<u8>) -> bool {
    n.len() >= 5 && n.subrange(n.len() - 5, n.len() as int)
        == crate::data_file::spec_data_file_suffix()
}

/// The name without its suffix: what must spell the segment id.
pub open spec fn spec_stem(n: Seq<u8>) -> Seq<u8> {
    n.subrange(0, n.len() - 5)
}

/// A well-formed segment file name: the suffix, preceded by a non-empty
/// run of decimal digits spelling an id that fits a `u32`.
pub open spec fn spec_valid_data_name(n: Seq<u8>) -> bool {
    &&& spec_is_data_name(n)
    &&& spec_stem(n).len() > 0
    &&& crate::data_file::spec_all_digits(spec_stem(n))
    &&& crate::data_file::spec_digits_val(spec_stem(n)) <= u32::MAX
}

/// The id a valid name spells.
pub open spec fn spec_name_id(n: Seq<u8>) -> int {
    crate::data_file::spec_digits_val(spec_stem(n))
}


/// A directory listing as pure byte pairs.
pub open spec fn dir_view(s: Seq<(Vec<u8>, Vec<u8>)>) -> Seq<(Seq<u8>, Seq<u8>)> {
    s.map_values(|e: (Vec<u8>, Vec<u8>)| (e.0@, e.1@))
}


/// Every gathered entry names a valid data file among the first `upto`
/// directory entries and carries its bytes.
pub open spec fn entry_named(e: (u32, Vec<u8>), dfs: Seq<(Seq<u8>, Seq<u8>)>, upto: int) -> bool {
    exists|x: int|
        #![trigger dfs[x]]
        0 <= x < upto && spec_valid_data_name(dfs[x].0) && spec_name_id(dfs[x].0) == e.0
            && dfs[x].1 == e.1@
}

#[verifier::opaque]
pub open spec fn parsed_sound(
    p: Seq<(u32, Vec<u8>)>,
    dfs: Seq<(Seq<u8>, Seq<u8>)>,
    upto: int,
) -> bool {
    forall|q: int| #![trigger p[q]] 0 <= q < p.len() ==> entry_named(p[q], dfs, upto)
}

/// Every valid data file among the first `upto` directory entries was
/// gathered.
pub open spec fn id_gathered(id: int, p: Seq<(u32, Vec<u8>)>) -> bool {
    exists|q: int| #![trigger p[q]] 0 <= q < p.len() && p[q].0 == id
}

#[verifier::opaque]
pub open spec fn parsed_complete(
    p: Seq<(u32, Vec<u8>)>,
    dfs: Seq<(Seq<u8>, Seq<u8>)>,
    upto: int,
) -> bool {
    forall|x: int|
        #![trigger dfs[x]]
        0 <= x < upto && spec_is_data_name(dfs[x].0) ==> id_gathered(spec_name_id(dfs[x].0), p)
}

/// Strictly ascending ids.
pub open spec fn parsed_sorted(p: Seq<(u32, Vec<u8>)>) -> bool {
    forall|a: int, b: int| 0 <= a < b < p.len() ==> (#[trigger] p[a]).0 < (#[trigger] p[b]).0
}


/// The engine's segments against the directory it was opened from: every
/// segment is a validly named data file carrying that file's bytes — the
/// last one cut at its clean end — and every validly named data file
/// appears as a segment.
pub open spec fn segs_match_dir(segs: Seq<(u32, Seq<u8>)>, dfs: Seq<(Seq<u8>, Seq<u8>)>) -> bool {
    &&& forall|j: int|
        0 <= j < segs.len() ==> exists|i: int|
            0 <= i < dfs.len() && spec_valid_data_name((#[trigger] dfs[i]).0) && spec_name_id(
                dfs[i].0,
            ) == (#[trigger] segs[j]).0 && (j < segs.len() - 1 ==> segs[j].1 == dfs[i].1) && (j
                == segs.len() - 1 ==> spec_scan(dfs[i].1, segs[j].0) is Good && segs[j].1
                == dfs[i].1.subrange(0, spec_scan(dfs[i].1, segs[j].0)->Good_1))
    &&& forall|i: int|
        0 <= i < dfs.len() && spec_valid_data_name((#[trigger] dfs[i]).0) ==> exists|j: int|
            0 <= j < segs.len() && (#[trigger] segs[j]).0 == spec_name_id(dfs[i].0)
}

/// What justifies rejecting a directory as corrupted: a data file whose
/// name does not spell an id, two files spelling the same id, or a record
/// whose stored key carries no sequence number.
pub open spec fn dir_corrupt_cause(dfs: Seq<(Seq<u8>, Seq<u8>)>) -> bool {
    ||| exists|i: int|
        0 <= i < dfs.len() && spec_is_data_name((#[trigger] dfs[i]).0) && !spec_valid_data_name(
            dfs[i].0,
        )
    ||| exists|i1: int, i2: int|
        0 <= i1 < i2 < dfs.len() && spec_valid_data_name((#[trigger] dfs[i1]).0)
            && spec_valid_data_name((#[trigger] dfs[i2]).0) && spec_name_id(dfs[i1].0)
            == spec_name_id(dfs[i2].0)
    ||| exists|i: int|
        0 <= i < dfs.len() && spec_valid_data_name((#[trigger] dfs[i]).0)
            && crate::replay::spec_has_bad_key(dfs[i].1)
}

/// What justifies a checksum failure at open: some validly named data
/// file whose bytes do not scan.
pub open spec fn crc_cause(dfs: Seq<(Seq<u8>, Seq<u8>)>) -> bool {
    exists|i: int|
        0 <= i < dfs.len() && spec_valid_data_name((#[trigger] dfs[i]).0) && spec_scan(
            dfs[i].1,
            spec_name_id(dfs[i].0) as u32,
        ) is Bad
}

/// Decides whether a directory entry's name is a data-file name.
fn is_data_name(n: &[u8]) -> (r: bool)
    ensures
        r == spec_is_data_name(n@),
{
    let len = n.len();
    if len < 5 {
        assert(!spec_is_data_name(n@));
        return false;
    }
    let r = n[len - 5] == 46 && n[len - 4] == 100 && n[len - 3] == 97 && n[len - 2] == 116
        && n[len - 1] == 97;
    proof {
        let suf = n@.subrange(n@.len() - 5, n@.len() as int);
        assert(suf.len() == 5);
        assert(suf[0] == n@[n@.len() - 5]);
        assert(suf[1] == n@[n@.len() - 4]);
        assert(suf[2] == n@[n@.len() - 3]);
        assert(suf[3] == n@[n@.len() - 2]);
        assert(suf[4] == n@[n@.len() - 1]);
        if r {
            assert(suf =~= crate::data_file::spec_data_file_suffix());
        } else {
            assert(suf != crate::data_file::spec_data_file_suffix());
        }
    }
    r
}


/// Reads a directory listing into segment entries: every data-file name
/// must spell a distinct id; the entries come back in ascending id order,
/// each with its file's bytes.
#[verifier::rlimit(100)]
fn parse_dir(dir_files: &Vec<(Vec<u8>, Vec<u8>)>) -> (r: Result<Vec<(u32, Vec<u8>)>, Errors>)
    ensures
        ({
            let dfs = dir_view(dir_files@);
            match r {
                Ok(parsed) => {
                    &&& parsed_sorted(parsed@)
                    &&& parsed_sound(parsed@, dfs, dfs.len() as int)
                    &&& parsed_complete(parsed@, dfs, dfs.len() as int)
                    &&& (forall|x: int|
                        0 <= x < dfs.len() && spec_is_data_name((#[trigger] dfs[x]).0)
                            ==> spec_valid_data_name(dfs[x].0))
                    &&& (forall|x1: int, x2: int|
                        0 <= x1 < x2 < dfs.len() && spec_valid_data_name((#[trigger] dfs[x1]).0)
                            && spec_valid_data_name((#[trigger] dfs[x2]).0) ==> spec_name_id(
                            dfs[x1].0,
                        ) != spec_name_id(dfs[x2].0))
                },
                Err(e) => e == Errors::DataDirectoryCorrupted && dir_corrupt_cause(dfs),
            }
        }),
{
    let ghost dfs = dir_view(dir_files@);
    let mut parsed: Vec<(u32, Vec<u8>)> = Vec::new();
    // where each gathered entry came from, and where each data file went
    let ghost mut srcs: Seq<int> = Seq::empty();
    let ghost mut slot: Map<int, int> = Map::empty();
    let nf = dir_files.len();
    let mut i: usize = 0;
    while i < nf
        invariant
            nf == dir_files@.len(),
            i <= nf,
            dfs == dir_view(dir_files@),
            parsed_sorted(parsed@),
            srcs.len() == parsed@.len(),
            forall|q: int|
                #![trigger srcs[q]]
                0 <= q < parsed@.len() ==> 0 <= srcs[q] < i && spec_valid_data_name(
                    dfs[srcs[q]].0,
                ) && spec_name_id(dfs[srcs[q]].0) == parsed@[q].0 && dfs[srcs[q]].1
                    == parsed@[q].1@,
            forall|x: int|
                #![trigger dfs[x]]
                0 <= x < i && spec_is_data_name(dfs[x].0) ==> spec_valid_data_name(dfs[x].0)
                    && slot.dom().contains(x) && 0 <= slot[x] < parsed@.len()
                    && parsed@[slot[x]].0 == spec_name_id(dfs[x].0),
            forall|x1: int, x2: int|
                0 <= x1 < x2 < i && spec_valid_data_name((#[trigger] dfs[x1]).0)
                    && spec_valid_data_name((#[trigger] dfs[x2]).0) ==> spec_name_id(dfs[x1].0)
                    != spec_name_id(dfs[x2].0),
        decreases nf - i,
    {
        let entry = &dir_files[i];
        proof {
            assert(dfs[i as int] == (entry.0@, entry.1@));
        }
        if is_data_name(entry.0.as_slice()) {
            let stem = vstd::slice::slice_subrange(entry.0.as_slice(), 0, entry.0.len() - 5);
            assert(stem@ == spec_stem(dfs[i as int].0));
            match crate::data_file::parse_u32_digits(stem) {
                None => {
                    proof {
                        assert(!spec_valid_data_name(dfs[i as int].0));
                        assert(dir_corrupt_cause(dfs));
                    }
                    return Err(Errors::DataDirectoryCorrupted);
                },
                Some(id) => {
                    assert(spec_valid_data_name(dfs[i as int].0));
                    assert(spec_name_id(dfs[i as int].0) == id);
                    let bytes = vstd::slice::slice_to_vec(entry.1.as_slice());
                    let ghost gbytes = bytes@;
                    let ghost oldp = parsed@;
                    let (ok, pos) = insert_parsed(&mut parsed, id, bytes);
                    if !ok {
                        proof {
                            let a = choose|a: int|
                                0 <= a < oldp.len() && (#[trigger] oldp[a]).0 == id;
                            let x1 = srcs[a];
                            assert(0 <= x1 < i as int);
                            assert(spec_valid_data_name(dfs[x1].0) && spec_name_id(dfs[x1].0)
                                == id);
                            assert(dir_corrupt_cause(dfs));
                        }
                        return Err(Errors::DataDirectoryCorrupted);
                    }
                    proof {
                        let newp = parsed@;
                        assert(newp == oldp.insert(pos as int, (id, bytes)));
                        assert forall|a: int| 0 <= a < newp.len() implies newp[a] == (if a
                            < pos {
                            oldp[a]
                        } else if a == pos {
                            (id, bytes)
                        } else {
                            oldp[a - 1]
                        }) by {}
                        assert(newp[pos as int].1@ == gbytes);
                        let oldsrcs = srcs;
                        let oldslot = slot;
                        srcs = srcs.insert(pos as int, i as int);
                        slot = Map::<int, int>::new(
                            |x: int| oldslot.dom().contains(x),
                            |x: int|
                                if oldslot[x] >= pos {
                                    oldslot[x] + 1
                                } else {
                                    oldslot[x]
                                },
                        ).insert(i as int, pos as int);
                        assert forall|q: int| #![trigger srcs[q]]
                            0 <= q < newp.len() implies 0 <= srcs[q] < i + 1
                                && spec_valid_data_name(dfs[srcs[q]].0) && spec_name_id(
                            dfs[srcs[q]].0,
                        ) == newp[q].0 && dfs[srcs[q]].1 == newp[q].1@ by {
                            if q < pos {
                                assert(srcs[q] == oldsrcs[q]);
                                assert(newp[q] == oldp[q]);
                            } else if q == pos {
                                assert(srcs[q] == i as int);
                            } else {
                                assert(srcs[q] == oldsrcs[q - 1]);
                                assert(newp[q] == oldp[q - 1]);
                            }
                        }
                        assert forall|x: int| #![trigger dfs[x]]
                            0 <= x < i + 1 && spec_is_data_name(dfs[x].0) implies
                            spec_valid_data_name(dfs[x].0) && slot.dom().contains(x) && 0
                                <= slot[x] < newp.len() && newp[slot[x]].0 == spec_name_id(
                            dfs[x].0,
                        ) by {
                            if x == i as int {
                                assert(slot[x] == pos as int);
                                assert(newp[pos as int].0 == id);
                            } else {
                                assert(oldslot.dom().contains(x));
                                let s0 = oldslot[x];
                                if s0 >= pos {
                                    assert(slot[x] == s0 + 1);
                                    assert(newp[s0 + 1] == oldp[s0]);
                                } else {
                                    assert(slot[x] == s0);
                                    assert(newp[s0] == oldp[s0]);
                                }
                            }
                        }
                        assert forall|x1: int, x2: int|
                            0 <= x1 < x2 < i + 1 && spec_valid_data_name((#[trigger] dfs[x1]).0)
                                && spec_valid_data_name((#[trigger] dfs[x2]).0) implies
                            spec_name_id(dfs[x1].0) != spec_name_id(dfs[x2].0) by {
                            if x2 == i as int {
                                if spec_name_id(dfs[x1].0) == id {
                                    // the earlier file's id was already gathered, so the
                                    // insertion would have refused it
                                    assert(oldslot.dom().contains(x1));
                                    assert(oldp[oldslot[x1]].0 == id);
                                }
                            }
                        }
                    }
                },
            }
        }
        i = i + 1;
    }
    proof {
        assert(dfs.len() == dir_files@.len());
        assert(i == nf);
        assert(parsed_sound(parsed@, dfs, dfs.len() as int)) by {
            reveal(parsed_sound);
            assert forall|q: int| #![trigger parsed@[q]] 0 <= q < parsed@.len() implies
                entry_named(parsed@[q], dfs, dfs.len() as int) by {
                let w = srcs[q];
                assert(0 <= w < dfs.len() && spec_valid_data_name(dfs[w].0) && spec_name_id(
                    dfs[w].0,
                ) == parsed@[q].0 && dfs[w].1 == parsed@[q].1@);
            }
        }
        assert(parsed_complete(parsed@, dfs, dfs.len() as int)) by {
            reveal(parsed_complete);
            assert forall|x: int| #![trigger dfs[x]]
                0 <= x < dfs.len() && spec_is_data_name(dfs[x].0) implies id_gathered(
                spec_name_id(dfs[x].0),
                parsed@,
            ) by {
                let w = slot[x];
                assert(0 <= w < parsed@.len() && parsed@[w].0 == spec_name_id(dfs[x].0));
            }
        }
    }
    Ok(parsed)
}

/// Slots one segment entry into its place in the ascending order and
/// says where it landed; refuses a repeated id.
#[verifier::rlimit(100)]
fn insert_parsed(parsed: &mut Vec<(u32, Vec<u8>)>, id: u32, bytes: Vec<u8>) -> (r: (bool, usize))
    requires
        parsed_sorted(old(parsed)@),
    ensures
        parsed_sorted(final(parsed)@),
        !r.0 ==> final(parsed)@ == old(parsed)@ && exists|a: int|
            0 <= a < old(parsed)@.len() && (#[trigger] old(parsed)@[a]).0 == id,
        r.0 ==> r.1 <= old(parsed)@.len() && final(parsed)@ == old(parsed)@.insert(
            r.1 as int,
            (id, bytes),
        ) && (forall|a: int| 0 <= a < old(parsed)@.len() ==> (#[trigger] old(parsed)@[a]).0 != id),
{
    let np0 = parsed.len();
    let mut p: usize = 0;
    while p < np0
        invariant_except_break
            np0 == parsed@.len(),
            p <= np0,
            forall|a: int| 0 <= a < p ==> (#[trigger] parsed@[a]).0 < id,
        invariant
            parsed@ == old(parsed)@,
        ensures
            np0 == parsed@.len(),
            p <= np0,
            forall|a: int| 0 <= a < p ==> (#[trigger] parsed@[a]).0 < id,
            p < np0 ==> parsed@[p as int].0 >= id,
        decreases np0 - p,
    {
        if parsed[p].0 >= id {
            break;
        }
        p = p + 1;
    }
    if p < np0 && parsed[p].0 == id {
        return (false, 0);
    }
    let ghost oldp = parsed@;
    proof {
        assert forall|a: int| 0 <= a < oldp.len() implies (#[trigger] oldp[a]).0 != id by {
            if a >= p {
                assert(p < np0);
                assert(oldp[p as int].0 > id);
                if a > p {
                    assert(oldp[p as int].0 < oldp[a].0);
                }
            }
        }
    }
    parsed.insert(p, (id, bytes));
    proof {
        let newp = parsed@;
        assert(newp == oldp.insert(p as int, (id, bytes)));
        assert forall|a: int| 0 <= a < newp.len() implies newp[a] == (if a < p {
            oldp[a]
        } else if a == p {
            (id, bytes)
        } else {
            oldp[a - 1]
        }) by {}
        assert forall|a: int, b: int|
            0 <= a < b < newp.len() implies (#[trigger] newp[a]).0 < (#[trigger] newp[b]).0 by {
            if b == p {
            } else if a == p {
                assert(b > p);
                assert(oldp[b - 1].0 >= id);
                assert(oldp[b - 1].0 != id) by {
                    if oldp[b - 1].0 == id {
                        if b - 1 >= p + 1 {
                            assert(p < np0);
                            assert(oldp[p as int].0 < oldp[b - 1].0);
                        }
                    }
                }
            }
        }
    }
    (true, p)
}

/// Replays one segment into the index: non-transactional records apply at
/// once, transactional ones are buffered and applied when their sentinel
/// arrives.  Hands back the offset of the segment's clean end.
fn replay_one_file(
    f: &DataFile,
    index: &mut BTree,
    pending: &mut Vec<(u64, Vec<crate::log_record::TransactionRecord>)>,
    max_seq: &mut u64,
    Ghost(prior): Ghost<Seq<LocatedRecord>>,
) -> (r: Result<u64, Errors>)
    requires
        f.contents().len() <= u64::MAX,
        spec_replay(prior) is Good,
        old(index).wf(),
        old(index).as_map() == pos_project(spec_replay(prior)->Good_0.index),
        pend_distinct(old(pending)@),
        pend_view(old(pending)@) == spec_replay(prior)->Good_0.pending,
        *old(max_seq) == spec_replay(prior)->Good_0.max_seq,
    ensures
        final(index).wf(),
        pend_distinct(final(pending)@),
        match r {
            Ok(end) => ({
                let sc = spec_scan(f.contents(), f.id());
                let whole = prior + scan_recs((f.id(), f.contents()));
                &&& sc is Good
                &&& sc->Good_1 == end
                &&& end <= f.contents().len()
                &&& spec_replay(whole) is Good
                &&& final(index).as_map() == pos_project(spec_replay(whole)->Good_0.index)
                &&& pend_view(final(pending)@) == spec_replay(whole)->Good_0.pending
                &&& *final(max_seq) == spec_replay(whole)->Good_0.max_seq
            }),
            Err(e) => {
                &&& (e == Errors::InvalidLogRecordCrc || e == Errors::DataDirectoryCorrupted)
                &&& (e == Errors::InvalidLogRecordCrc ==> spec_scan(f.contents(), f.id()) is Bad)
                &&& (e == Errors::DataDirectoryCorrupted ==> crate::replay::spec_has_bad_key(
                    f.contents(),
                ))
                &&& !(spec_scan(f.contents(), f.id()) is Good && spec_replay(
                    prior + scan_recs((f.id(), f.contents())),
                ) is Good)
            },
        },
{
    let ghost c = f.contents();
    let ghost fid_g = f.id();
    let mut offset: u64 = 0;
    let ghost mut done: Seq<LocatedRecord> = Seq::empty();
    proof {
        assert(prior + done =~= prior);
    }
    loop
        invariant
            f.contents() == c,
            f.id() == fid_g,
            c.len() <= u64::MAX,
            offset as int <= c.len(),
            (crate::replay::spec_scan_from(c, fid_g, offset as int) is Good ==> spec_scan(c, fid_g)
                == ScanResult::Good(
                done + crate::replay::spec_scan_from(c, fid_g, offset as int)->Good_0,
                crate::replay::spec_scan_from(c, fid_g, offset as int)->Good_1,
            )),
            (crate::replay::spec_scan_from(c, fid_g, offset as int) is Bad ==> spec_scan(c, fid_g)
                is Bad),
            crate::replay::spec_reaches(c, 0, offset as int),
            spec_replay(prior + done) is Good,
            index.wf(),
            index.as_map() == pos_project(spec_replay(prior + done)->Good_0.index),
            pend_distinct(pending@),
            pend_view(pending@) == spec_replay(prior + done)->Good_0.pending,
            *max_seq == spec_replay(prior + done)->Good_0.max_seq,
        decreases c.len() - offset,
    {
        let ghost st = spec_replay(prior + done)->Good_0;
        match f.read_log_record(offset) {
            Err(e) => {
                if e == Errors::ReadDataFileEOF {
                    proof {
                        assert(spec_parse_record(c, offset as int) is Eof);
                        assert(crate::replay::spec_scan_from(c, fid_g, offset as int)
                            == ScanResult::Good(Seq::<LocatedRecord>::empty(), offset as int));
                        assert(done + Seq::<LocatedRecord>::empty() =~= done);
                        assert(spec_scan(c, fid_g) == ScanResult::Good(done, offset as int));
                        assert(scan_recs((fid_g, c)) == done);
                        assert(prior + scan_recs((fid_g, c)) == prior + done);
                    }
                    return Ok(offset);
                } else {
                    proof {
                        assert(spec_parse_record(c, offset as int) is Corrupt);
                        assert(crate::replay::spec_scan_from(c, fid_g, offset as int) is Bad);
                        assert(spec_scan(c, fid_g) is Bad);
                    }
                    return Err(Errors::InvalidLogRecordCrc);
                }
            },
            Ok(rl) => {
                proof {
                    crate::log_record::lemma_parse_record_size(c, offset as int);
                }
                let fid = f.get_file_id();
                let pos = LogRecordPos { file_id: fid, offset };
                let ghost lr = LocatedRecord { pos, rec: rl.record@ };
                let ghost done2 = done.push(lr);
                proof {
                    assert(prior + done2 =~= (prior + done).push(lr));
                }
                let size = rl.size;
                match crate::keys::parse_log_record_key(&rl.record.key) {
                    None => {
                        proof {
                            assert(spec_parse_record(c, offset as int) is Rec && spec_split_key(
                                spec_parse_record(c, offset as int)->Rec_0.key,
                            ) is None);
                            assert(crate::replay::spec_has_bad_key(c));
                            lemma_replay_snoc(init_state(), prior + done, lr);
                            assert(crate::replay::replay_step(st, lr) is Bad);
                            assert(crate::replay::replay_fold(init_state(), prior + done2)
                                is Bad);
                            if spec_scan(c, fid_g) is Good {
                                let rest = crate::replay::spec_scan_from(
                                    c,
                                    fid_g,
                                    offset as int + rl.size,
                                );
                                let whole = prior + scan_recs((fid_g, c));
                                assert(prior + done2 =~= whole.subrange(
                                    0,
                                    (prior + done2).len() as int,
                                ));
                                crate::replay::lemma_replay_bad_prefix(
                                    init_state(),
                                    prior + done2,
                                    whole,
                                );
                            }
                        }
                        return Err(Errors::DataDirectoryCorrupted);
                    },
                    Some((real_key, seq)) => {
                        proof {
                            lemma_replay_snoc(init_state(), prior + done, lr);
                            assert(spec_split_key(lr.rec.key) == Some((seq, real_key@)));
                            assert(crate::replay::replay_step(st, lr) is Good);
                        }
                        let ghost st2 = crate::replay::replay_step(st, lr)->Good_0;
                        let ghost pr0 = PendRec {
                            key: real_key@,
                            rec_type: rl.record.rec_type,
                            value: rl.record.value@,
                            pos,
                        };
                        if seq == 0 {
                            match rl.record.rec_type {
                                LogRecordType::NORMAL => {
                                    index.put(real_key, pos);
                                    proof {
                                        assert(st2.index == st.index.insert(
                                            pr0.key,
                                            IdxEntry { pos: pr0.pos, value: pr0.value },
                                        ));
                                        assert(index.as_map() =~= pos_project(st2.index));
                                    }
                                },
                                LogRecordType::DELETED => {
                                    index.delete(real_key);
                                    proof {
                                        assert(st2.index == st.index.remove(pr0.key));
                                        assert(index.as_map() =~= pos_project(st2.index));
                                    }
                                },
                                LogRecordType::TXNFINISH => {
                                    proof {
                                        assert(st2.index == st.index);
                                    }
                                },
                            }
                        } else if rl.record.rec_type == LogRecordType::TXNFINISH {
                            let trs = pending_take(pending, seq);
                            let ghost buf = trs@.map_values(
                                |tr: crate::log_record::TransactionRecord| tr_pend(tr),
                            );
                            proof {
                                assert(buf == crate::replay::pending_of(st.pending, seq));
                                assert(st2.index == crate::replay::apply_seq(st.index, buf));
                                assert(st2.pending == st.pending.remove(seq));
                            }
                            let nt = trs.len();
                            let mut t: usize = 0;
                            while t < nt
                                invariant
                                    nt == trs@.len(),
                                    t <= nt,
                                    buf == trs@.map_values(
                                        |tr: crate::log_record::TransactionRecord| tr_pend(tr),
                                    ),
                                    index.wf(),
                                    index.as_map() == pos_project(
                                        crate::replay::apply_seq(
                                            st.index,
                                            buf.subrange(0, t as int),
                                        ),
                                    ),
                                decreases nt - t,
                            {
                                let tr = &trs[t];
                                let k = vstd::slice::slice_to_vec(tr.record.key.as_slice());
                                let ghost m0 = crate::replay::apply_seq(
                                    st.index,
                                    buf.subrange(0, t as int),
                                );
                                proof {
                                    crate::replay::lemma_apply_seq_snoc(
                                        st.index,
                                        buf.subrange(0, t as int),
                                        buf[t as int],
                                    );
                                    assert(buf.subrange(0, t + 1) =~= buf.subrange(
                                        0,
                                        t as int,
                                    ).push(buf[t as int]));
                                    assert(buf[t as int] == tr_pend(trs@[t as int]));
                                }
                                match tr.record.rec_type {
                                    LogRecordType::NORMAL => {
                                        index.put(k, tr.pos);
                                        proof {
                                            assert(index.as_map() =~= pos_project(
                                                crate::replay::apply_one(m0, buf[t as int]),
                                            ));
                                        }
                                    },
                                    LogRecordType::DELETED => {
                                        index.delete(k);
                                        proof {
                                            assert(index.as_map() =~= pos_project(
                                                crate::replay::apply_one(m0, buf[t as int]),
                                            ));
                                        }
                                    },
                                    LogRecordType::TXNFINISH => {},
                                }
                                t = t + 1;
                            }
                            proof {
                                assert(buf.subrange(0, nt as int) =~= buf);
                            }
                        } else {
                            let tr = crate::log_record::TransactionRecord {
                                record: LogRecord {
                                    key: real_key,
                                    value: rl.record.value,
                                    rec_type: rl.record.rec_type,
                                },
                                pos,
                            };
                            proof {
                                assert(tr_pend(tr) == pr0);
                            }
                            pending_push(pending, seq, tr);
                            proof {
                                assert(st2.pending == st.pending.insert(
                                    seq,
                                    crate::replay::pending_of(st.pending, seq).push(pr0),
                                ));
                            }
                        }
                        if seq > *max_seq {
                            *max_seq = seq;
                        }
                        let ghost prev_off = offset as int;
                        offset = offset + size as u64;
                        proof {
                            assert(*max_seq == st2.max_seq);
                            assert(spec_parse_record(c, prev_off) == RecParse::Rec(
                                lr.rec,
                                size as int,
                            ));
                            crate::replay::lemma_reaches_step(c, 0, prev_off);
                            let snew = crate::replay::spec_scan_from(c, fid_g, offset as int);
                            let sold = crate::replay::spec_scan_from(c, fid_g, prev_off);
                            if snew is Good {
                                assert(sold == ScanResult::Good(
                                    seq![lr] + snew->Good_0,
                                    snew->Good_1,
                                ));
                                assert(done + (seq![lr] + snew->Good_0) =~= done2 + snew->Good_0);
                            } else {
                                assert(sold is Bad);
                            }
                            done = done2;
                        }
                    },
                }
            },
        }
    }
}


/// Builds an engine over already-parsed segment entries: the files are
/// opened in ascending id order, replayed into a fresh index, and the
/// highest id becomes the active segment with its torn tail cut off.
#[verifier::rlimit(100)]
fn build_engine(
    opts: Options,
    parsed: Vec<(u32, Vec<u8>)>,
    dir_files: &Vec<(Vec<u8>, Vec<u8>)>,
) -> (r: Result<Engine, Errors>)
    requires
        opts.index_type == IndexType::BTree,
        crate::options::spec_check_options(opts) is None,
        parsed_sorted(parsed@),
        parsed_sound(parsed@, dir_view(dir_files@), dir_view(dir_files@).len() as int),
        parsed_complete(parsed@, dir_view(dir_files@), dir_view(dir_files@).len() as int),
        forall|x1: int, x2: int|
            0 <= x1 < x2 < dir_view(dir_files@).len() && spec_valid_data_name(
                (#[trigger] dir_view(dir_files@)[x1]).0,
            ) && spec_valid_data_name((#[trigger] dir_view(dir_files@)[x2]).0) ==> spec_name_id(
                dir_view(dir_files@)[x1].0,
            ) != spec_name_id(dir_view(dir_files@)[x2].0),
    ensures
        ({
            let dfs = dir_view(dir_files@);
            match r {
                Ok(eng) => {
                    &&& eng.inv()
                    &&& eng.spec_options() == opts
                    &&& eng.spec_seq_no() == eng.replay_st().max_seq + 1
                    &&& forall|j1: int, j2: int|
                        0 <= j1 < j2 < eng.seg_files().len() ==> (
                        #[trigger] eng.seg_files()[j1]).0 < (#[trigger] eng.seg_files()[j2]).0
                    &&& ((forall|i: int|
                        0 <= i < dfs.len() ==> !spec_is_data_name((#[trigger] dfs[i]).0))
                        ==> eng.seg_files() == seq![(0u32, Seq::<u8>::empty())])
                    &&& ((exists|i: int|
                        0 <= i < dfs.len() && spec_is_data_name((#[trigger] dfs[i]).0))
                        ==> segs_match_dir(eng.seg_files(), dfs))
                    &&& (forall|x: int|
                        0 <= x < dfs.len() && spec_valid_data_name((#[trigger] dfs[x]).0)
                            ==> spec_scan(dfs[x].1, spec_name_id(dfs[x].0) as u32) is Good)
                    &&& eng.active_id() == eng.seg_files().last().0
                },
                Err(e) => {
                    &&& (e == Errors::DataDirectoryCorrupted || e == Errors::InvalidLogRecordCrc)
                    &&& (e == Errors::DataDirectoryCorrupted ==> dir_corrupt_cause(dfs))
                    &&& (e == Errors::InvalidLogRecordCrc ==> crc_cause(dfs))
                },
            }
        }),
{
    let ghost dfs = dir_view(dir_files@);

    // no data file at all: start fresh with segment zero
    if parsed.len() == 0 {
        let eng = Engine {
            options: opts,
            active_file: DataFile::new(0),
            older_files: Vec::new(),
            index: BTree::new(),
            seq_no: 1,
        };
        proof {
            assert(eng.seg_files() =~= seq![(0u32, Seq::<u8>::empty())]);
            lemma_parse_past_end(Seq::<u8>::empty(), 0);
            assert(spec_scan(Seq::<u8>::empty(), 0u32) == ScanResult::Good(
                Seq::<LocatedRecord>::empty(),
                0int,
            ));
            assert(scan_recs((0u32, Seq::<u8>::empty())) =~= Seq::<LocatedRecord>::empty());
            let fs0 = eng.seg_files();
            assert(fs0.drop_last() =~= Seq::<(u32, Seq<u8>)>::empty());
            assert(segs_recs(fs0.drop_last()) == Seq::<LocatedRecord>::empty());
            assert(fs0.last() == (0u32, Seq::<u8>::empty()));
            assert(eng.log() == segs_recs(fs0.drop_last()) + scan_recs(fs0.last()));
            assert(eng.log() =~= Seq::<LocatedRecord>::empty());
            assert(spec_replay(eng.log()) == ReplayResult::Good(init_state()));
            assert(eng.index.as_map() =~= pos_project(eng.replay_st().index));
            assert forall|x: int|
                0 <= x < dfs.len() implies !spec_is_data_name((#[trigger] dfs[x]).0) by {
                reveal(parsed_complete);
                if spec_is_data_name(dfs[x].0) {
                    assert(id_gathered(spec_name_id(dfs[x].0), parsed@));
                    let q = choose|q: int|
                        #![trigger parsed@[q]]
                        0 <= q < parsed@.len() && parsed@[q].0 == spec_name_id(dfs[x].0);
                    assert(false);
                }
            }
            assert forall|x: int|
                0 <= x < dfs.len() && spec_valid_data_name((#[trigger] dfs[x]).0) implies
                spec_scan(dfs[x].1, spec_name_id(dfs[x].0) as u32) is Good by {
                assert(spec_is_data_name(dfs[x].0));
            }
            assert(eng.active_id() == eng.seg_files().last().0);
        }
        return Ok(eng);
    }

    // build the segments, the highest id active
    let np = parsed.len();
    let mut older: Vec<DataFile> = Vec::new();
    let mut j: usize = 0;
    while j + 1 < np
        invariant
            np == parsed@.len(),
            np >= 1,
            j <= np - 1,
            older@.len() == j,
            forall|x: int|
                0 <= x < j ==> (#[trigger] older@[x]).id() == parsed@[x].0 && older@[x].contents()
                    == parsed@[x].1@ && older@[x].contents().len() <= u64::MAX,
        decreases np - j,
    {
        let id = parsed[j].0;
        let bytes = vstd::slice::slice_to_vec(parsed[j].1.as_slice());
        older.push(DataFile::from_contents(id, bytes));
        j = j + 1;
    }
    let last_id = parsed[np - 1].0;
    let last_bytes = vstd::slice::slice_to_vec(parsed[np - 1].1.as_slice());
    let mut active_file = DataFile::from_contents(last_id, last_bytes);

    let r = replay_files(opts, older, active_file, Ghost(parsed@), Ghost(dfs));
    proof {
        if r is Ok {
            assert(exists|i: int|
                0 <= i < dfs.len() && spec_is_data_name((#[trigger] dfs[i]).0)) by {
                reveal(parsed_sound);
                let p0 = parsed@[0];
                assert(entry_named(p0, dfs, dfs.len() as int));
                let x = choose|x: int|
                    #![trigger dfs[x]]
                    0 <= x < dfs.len() && spec_valid_data_name(dfs[x].0) && spec_name_id(
                        dfs[x].0,
                    ) == p0.0 && dfs[x].1 == p0.1@;
                assert(spec_is_data_name(dfs[x].0));
            }
        }
    }
    r
}


/// The assembled segment run matches the directory it came from.
#[verifier::rlimit(100)]
proof fn lemma_segs_match(
    segs: Seq<(u32, Seq<u8>)>,
    parsed_g: Seq<(u32, Vec<u8>)>,
    dfs: Seq<(Seq<u8>, Seq<u8>)>,
    np: int,
)
    requires
        segs.len() == np,
        parsed_g.len() == np,
        np >= 1,
        forall|j: int|
            0 <= j < np - 1 ==> (#[trigger] segs[j]).0 == parsed_g[j].0 && segs[j].1
                == parsed_g[j].1@,
        segs[np - 1].0 == parsed_g[np - 1].0,
        spec_scan(parsed_g[np - 1].1@, segs[np - 1].0) is Good,
        segs[np - 1].1 == parsed_g[np - 1].1@.subrange(
            0,
            spec_scan(parsed_g[np - 1].1@, segs[np - 1].0)->Good_1,
        ),
        parsed_sorted(parsed_g),
        parsed_sound(parsed_g, dfs, dfs.len() as int),
        parsed_complete(parsed_g, dfs, dfs.len() as int),
    ensures
        forall|j1: int, j2: int|
            0 <= j1 < j2 < segs.len() ==> (#[trigger] segs[j1]).0 < (#[trigger] segs[j2]).0,
        segs_match_dir(segs, dfs),
{
    assert forall|j1: int, j2: int|
        0 <= j1 < j2 < segs.len() implies (#[trigger] segs[j1]).0 < (#[trigger] segs[j2]).0 by {
        if j2 < np - 1 {
            assert(segs[j1].0 == parsed_g[j1].0 && segs[j2].0 == parsed_g[j2].0);
        } else {
            assert(segs[j2].0 == parsed_g[np - 1].0);
            if j1 < np - 1 {
                assert(segs[j1].0 == parsed_g[j1].0);
            }
        }
    }
    assert forall|j: int|
        0 <= j < segs.len() implies exists|x: int|
        0 <= x < dfs.len() && spec_valid_data_name((#[trigger] dfs[x]).0) && spec_name_id(
            dfs[x].0,
        ) == (#[trigger] segs[j]).0 && (j < segs.len() - 1 ==> segs[j].1 == dfs[x].1) && (j
        == segs.len() - 1 ==> spec_scan(dfs[x].1, segs[j].0) is Good && segs[j].1
        == dfs[x].1.subrange(0, spec_scan(dfs[x].1, segs[j].0)->Good_1)) by {
        reveal(parsed_sound);
        let pj = parsed_g[j];
        assert(entry_named(pj, dfs, dfs.len() as int));
        let x = choose|x: int|
            #![trigger dfs[x]]
            0 <= x < dfs.len() && spec_valid_data_name(dfs[x].0) && spec_name_id(dfs[x].0)
                == pj.0 && dfs[x].1 == pj.1@;
        if j < np - 1 {
            assert(spec_name_id(dfs[x].0) == segs[j].0 && segs[j].1 == dfs[x].1);
        } else {
            assert(segs[j].0 == parsed_g[np - 1].0 && parsed_g[np - 1].1@ == dfs[x].1);
            assert(spec_scan(dfs[x].1, segs[j].0) is Good);
            assert(segs[j].1 == dfs[x].1.subrange(0, spec_scan(dfs[x].1, segs[j].0)->Good_1));
        }
    }
    assert forall|x: int|
        0 <= x < dfs.len() && spec_valid_data_name((#[trigger] dfs[x]).0) implies exists|j: int|
        0 <= j < segs.len() && (#[trigger] segs[j]).0 == spec_name_id(dfs[x].0) by {
        reveal(parsed_complete);
        assert(id_gathered(spec_name_id(dfs[x].0), parsed_g));
        let q = choose|q: int|
            #![trigger parsed_g[q]]
            0 <= q < parsed_g.len() && parsed_g[q].0 == spec_name_id(dfs[x].0);
        if q < np - 1 {
            assert(segs[q].0 == parsed_g[q].0);
        } else {
            assert(segs[np - 1].0 == parsed_g[np - 1].0);
        }
    }
}

/// Replays already-opened segments in id order and assembles the engine,
/// the active segment truncated to its clean end.
#[verifier::rlimit(100)]
fn replay_files(
    opts: Options,
    older: Vec<DataFile>,
    active_file: DataFile,
    Ghost(parsedv): Ghost<Seq<(u32, Vec<u8>)>>,
    Ghost(dfs): Ghost<Seq<(Seq<u8>, Seq<u8>)>>,
) -> (r: Result<Engine, Errors>)
    requires
        opts.index_type == IndexType::BTree,
        crate::options::spec_check_options(opts) is None,
        parsed_sorted(parsedv),
        parsed_sound(parsedv, dfs, dfs.len() as int),
        parsed_complete(parsedv, dfs, dfs.len() as int),
        forall|x1: int, x2: int|
            0 <= x1 < x2 < dfs.len() && spec_valid_data_name((#[trigger] dfs[x1]).0)
                && spec_valid_data_name((#[trigger] dfs[x2]).0) ==> spec_name_id(dfs[x1].0)
                != spec_name_id(dfs[x2].0),
        parsedv.len() >= 1,
        older@.len() < usize::MAX,
        older@.len() == parsedv.len() - 1,
        forall|x: int|
            0 <= x < older@.len() ==> (#[trigger] older@[x]).id() == parsedv[x].0
                && older@[x].contents() == parsedv[x].1@ && older@[x].contents().len()
                <= u64::MAX,
        active_file.id() == parsedv[parsedv.len() - 1].0,
        active_file.contents() == parsedv[parsedv.len() - 1].1@,
        active_file.contents().len() <= u64::MAX,
    ensures
        match r {
            Ok(eng) => {
                &&& eng.inv()
                &&& eng.spec_options() == opts
                &&& eng.spec_seq_no() == eng.replay_st().max_seq + 1
                &&& forall|j1: int, j2: int|
                    0 <= j1 < j2 < eng.seg_files().len() ==> (#[trigger] eng.seg_files()[j1]).0
                        < (#[trigger] eng.seg_files()[j2]).0
                &&& segs_match_dir(eng.seg_files(), dfs)
                &&& eng.active_id() == eng.seg_files().last().0
                &&& (forall|x: int|
                    0 <= x < dfs.len() && spec_valid_data_name((#[trigger] dfs[x]).0)
                        ==> spec_scan(dfs[x].1, spec_name_id(dfs[x].0) as u32) is Good)
            },
            Err(e) => {
                &&& (e == Errors::DataDirectoryCorrupted || e == Errors::InvalidLogRecordCrc)
                &&& (e == Errors::DataDirectoryCorrupted ==> dir_corrupt_cause(dfs))
                &&& (e == Errors::InvalidLogRecordCrc ==> crc_cause(dfs))
            },
        },
{
    let np = older.len() + 1;
    let ghost parsed_g = parsedv;
    let mut active_file = active_file;
    // replay every segment in id order
    let ghost opairs = older@.map_values(|f: DataFile| (f.id(), f.contents()));
    let mut index = BTree::new();
    let mut pending: Vec<(u64, Vec<crate::log_record::TransactionRecord>)> = Vec::new();
    let mut max_seq: u64 = 0;
    let ghost mut prior: Seq<LocatedRecord> = Seq::empty();
    proof {
        assert(prior =~= segs_recs(opairs.subrange(0, 0)));
        assert(spec_replay(prior) == ReplayResult::Good(init_state()));
        assert(index.as_map() =~= pos_project(init_state().index));
        assert(pend_view(pending@) =~= init_state().pending);
    }
    let no = older.len();
    let mut k: usize = 0;
    while k < no
        invariant
            no == older@.len(),
            no == np - 1,
            np == parsed_g.len(),
            k <= no,
            crate::options::spec_check_options(opts) is None,
            opairs == older@.map_values(|f: DataFile| (f.id(), f.contents())),
            forall|x: int|
                0 <= x < no ==> (#[trigger] older@[x]).id() == parsed_g[x].0 && older@[x].contents()
                    == parsed_g[x].1@ && older@[x].contents().len() <= u64::MAX,
            parsed_sound(parsed_g, dfs, dfs.len() as int),
            forall|x: int|
                0 <= x < k ==> spec_scan(
                    (#[trigger] older@[x]).contents(),
                    older@[x].id(),
                ) is Good,
            prior == segs_recs(opairs.subrange(0, k as int)),
            spec_replay(prior) is Good,
            index.wf(),
            index.as_map() == pos_project(spec_replay(prior)->Good_0.index),
            pend_distinct(pending@),
            pend_view(pending@) == spec_replay(prior)->Good_0.pending,
            max_seq == spec_replay(prior)->Good_0.max_seq,
        decreases no - k,
    {
        let res = replay_one_file(
            &older[k],
            &mut index,
            &mut pending,
            &mut max_seq,
            Ghost(prior),
        );
        match res {
            Err(e) => {
                proof {
                    reveal(parsed_sound);
                    let pk = parsed_g[k as int];
                    assert(entry_named(pk, dfs, dfs.len() as int));
                    let x = choose|x: int|
                        #![trigger dfs[x]]
                        0 <= x < dfs.len() && spec_valid_data_name(dfs[x].0) && spec_name_id(
                            dfs[x].0,
                        ) == pk.0 && dfs[x].1 == pk.1@;
                    if e == Errors::InvalidLogRecordCrc {
                        assert(crc_cause(dfs));
                    } else {
                        assert(crate::replay::spec_has_bad_key(dfs[x].1));
                        assert(dir_corrupt_cause(dfs));
                    }
                }
                return Err(e);
            },
            Ok(_) => {
                proof {
                    let pair = (older@[k as int].id(), older@[k as int].contents());
                    assert(opairs[k as int] == pair);
                    assert(opairs.subrange(0, k + 1) =~= opairs.subrange(0, k as int).push(
                        pair,
                    ));
                    lemma_segs_recs_snoc(opairs.subrange(0, k as int), pair);
                    prior = prior + scan_recs(pair);
                }
            },
        }
        k = k + 1;
    }

    // the active segment last; then cut its torn tail, if any, so the
    // write offset is the true end
    let ghost active_pair0 = (active_file.id(), active_file.contents());
    let end = match replay_one_file(
        &active_file,
        &mut index,
        &mut pending,
        &mut max_seq,
        Ghost(prior),
    ) {
        Err(e) => {
            proof {
                reveal(parsed_sound);
                let pk = parsed_g[np - 1];
                assert(entry_named(pk, dfs, dfs.len() as int));
                let x = choose|x: int|
                    #![trigger dfs[x]]
                    0 <= x < dfs.len() && spec_valid_data_name(dfs[x].0) && spec_name_id(
                        dfs[x].0,
                    ) == pk.0 && dfs[x].1 == pk.1@;
                if e == Errors::InvalidLogRecordCrc {
                    assert(spec_scan(dfs[x].1, spec_name_id(dfs[x].0) as u32) is Bad);
                    assert(crc_cause(dfs));
                } else {
                    assert(crate::replay::spec_has_bad_key(dfs[x].1));
                    assert(dir_corrupt_cause(dfs));
                }
            }
            return Err(e);
        },
        Ok(end) => end,
    };
    let ghost whole = prior + scan_recs(active_pair0);
    let clen = active_file.content_len();
    assert(end <= clen as u64);
    active_file.set_write_off(end);
    active_file.truncate_to(end as usize);
    proof {
        crate::replay::lemma_scan_truncate(active_pair0.1, active_pair0.0, 0);
        assert(spec_scan(active_file.contents(), active_file.id()) == spec_scan(
            active_pair0.1,
            active_pair0.0,
        ));
        assert(scan_recs((active_file.id(), active_file.contents())) == scan_recs(
            active_pair0,
        ));
    }

    proof {
        crate::replay::lemma_replay_max_bound(init_state(), whole);
    }
    let seq_no = max_seq + 1;

    let eng = Engine { options: opts, active_file, older_files: older, index, seq_no };
    proof {
        assert(eng.seg_files().drop_last() =~= opairs);
        assert(eng.seg_files().last() == (eng.active_file.id(), eng.active_file.contents()));
        assert(opairs.subrange(0, no as int) =~= opairs);
        assert(eng.log() == segs_recs(opairs) + scan_recs(
            (eng.active_file.id(), eng.active_file.contents()),
        ));
        assert(eng.log() == whole);
        // the structural invariant
        assert forall|a: int, b: int|
            0 <= a < b < eng.older_files@.len() implies (#[trigger] eng.older_files@[a]).id()
                < (#[trigger] eng.older_files@[b]).id() by {}
        assert forall|a: int|
            0 <= a < eng.older_files@.len() implies (#[trigger] eng.older_files@[a]).id()
                < eng.active_file.id() by {}
        assert(eng.files_wf());
        assert(eng.sound());
        assert(eng.inv());
        // the answer matches the directory
        let segs = eng.seg_files();
        assert(segs.len() == np);
        assert forall|j: int|
            0 <= j < np - 1 implies (#[trigger] segs[j]).0 == parsed_g[j].0 && segs[j].1
                == parsed_g[j].1@ by {
            assert(segs[j] == (older@[j].id(), older@[j].contents()));
        }
        assert(segs[np - 1].0 == parsed_g[np - 1].0);
        assert(spec_scan(parsed_g[np - 1].1@, segs[np - 1].0) is Good);
        assert(segs[np - 1].1 == parsed_g[np - 1].1@.subrange(
            0,
            spec_scan(parsed_g[np - 1].1@, segs[np - 1].0)->Good_1,
        ));
        lemma_segs_match(segs, parsed_g, dfs, np as int);
        assert forall|x: int|
            0 <= x < dfs.len() && spec_valid_data_name((#[trigger] dfs[x]).0) implies spec_scan(
            dfs[x].1,
            spec_name_id(dfs[x].0) as u32,
        ) is Good by {
            reveal(parsed_complete);
            assert(id_gathered(spec_name_id(dfs[x].0), parsed_g));
            let q = choose|q: int|
                #![trigger parsed_g[q]]
                0 <= q < parsed_g.len() && parsed_g[q].0 == spec_name_id(dfs[x].0);
            reveal(parsed_sound);
            let pq = parsed_g[q];
            assert(entry_named(pq, dfs, dfs.len() as int));
            let x2 = choose|x2: int|
                #![trigger dfs[x2]]
                0 <= x2 < dfs.len() && spec_valid_data_name(dfs[x2].0) && spec_name_id(
                    dfs[x2].0,
                ) == pq.0 && dfs[x2].1 == pq.1@;
            // one id, one file
            assert(x2 == x);
            assert(dfs[x].1 == parsed_g[q].1@);
            assert(spec_name_id(dfs[x].0) as u32 == parsed_g[q].0);
            if q < np - 1 {
                assert(spec_scan(older@[q].contents(), older@[q].id()) is Good);
                assert(older@[q].contents() == parsed_g[q].1@ && older@[q].id()
                    == parsed_g[q].0);
            } else {
                assert(spec_scan(active_pair0.1, active_pair0.0) is Good);
                assert(active_pair0.0 == parsed_g[np - 1].0 && active_pair0.1 == parsed_g[np
                    - 1].1@);
            }
        }
    }
    Ok(eng)
}

/// Every record of a run of well-scanned segments parses at the place its
/// locator names, in the segment with its id.
pub proof fn lemma_segs_recs_positions(fs: Seq<(u32, Seq<u8>)>)
    requires
        forall|j: int|
            0 <= j < fs.len() ==> spec_scan((#[trigger] fs[j]).1, fs[j].0) is Good && fs[j].1.len()
                <= u64::MAX,
    ensures
        forall|i: int|
            0 <= i < segs_recs(fs).len() ==> exists|j: int|
                0 <= j < fs.len() && (#[trigger] fs[j]).0 == (#[trigger] segs_recs(fs)[i]).pos.file_id
                    && (exists|sz: int|
                    spec_parse_record(fs[j].1, segs_recs(fs)[i].pos.offset as int)
                        == RecParse::Rec(segs_recs(fs)[i].rec, sz)),
    decreases fs.len(),
{
    if fs.len() > 0 {
        let dl = fs.drop_last();
        let lastf = fs.last();
        assert(forall|j: int| 0 <= j < dl.len() ==> dl[j] == fs[j]);
        lemma_segs_recs_positions(dl);
        crate::replay::lemma_scan_from_positions(lastf.1, lastf.0, 0);
        let rs = segs_recs(fs);
        let rsd = segs_recs(dl);
        let rsl = scan_recs(lastf);
        assert(rs == rsd + rsl);
        assert forall|i: int| 0 <= i < rs.len() implies exists|j: int|
            0 <= j < fs.len() && (#[trigger] fs[j]).0 == (#[trigger] rs[i]).pos.file_id && (
            exists|sz: int|
                spec_parse_record(fs[j].1, rs[i].pos.offset as int) == RecParse::Rec(
                    rs[i].rec,
                    sz,
                )) by {
            if i < rsd.len() {
                assert(rs[i] == rsd[i]);
                let j = choose|j: int|
                    0 <= j < dl.len() && (#[trigger] dl[j]).0 == rsd[i].pos.file_id && (
                    exists|sz: int|
                        spec_parse_record(dl[j].1, rsd[i].pos.offset as int) == RecParse::Rec(
                            rsd[i].rec,
                            sz,
                        ));
                assert(fs[j] == dl[j]);
                assert(fs[j].0 == rs[i].pos.file_id && (exists|sz: int|
                    spec_parse_record(fs[j].1, rs[i].pos.offset as int) == RecParse::Rec(
                        rs[i].rec,
                        sz,
                    )));
            } else {
                let j = fs.len() - 1;
                assert(rs[i] == rsl[i - rsd.len()]);
                assert(fs[j] == lastf);
                assert(fs[j].0 == rs[i].pos.file_id && (exists|sz: int|
                    spec_parse_record(fs[j].1, rs[i].pos.offset as int) == RecParse::Rec(
                        rs[i].rec,
                        sz,
                    )));
            }
        }
    }
}

} // verus!
