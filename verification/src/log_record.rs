//! The on-disk record format.
//!
//! A record is laid out as
//! `type (1 byte) | key_size (varint) | value_size (varint) | key | value | crc (4 bytes, little-endian)`,
//! where the checksum covers every byte before it.

use vstd::prelude::*;

use crate::crc::{crc32, crc32_of};
use crate::util::extend_bytes;
use crate::varint::{
    encode_varint, lemma_varint_len_u32, lemma_varint_parse_bounds, lemma_varint_round_trip,
    spec_varint, spec_varint_parse,
};

verus! {

/// Where a record lives: the id of its segment and the offset of its first
/// byte there.
#[derive(Clone, Copy, Debug, PartialEq, Eq, Structural)]
pub struct LogRecordPos {
    pub file_id: u32,
    pub offset: u64,
}

/// The kind of a log record.
#[derive(Debug, PartialEq, Eq, Clone, Copy, Structural)]
pub enum LogRecordType {
    /// A live key-value pair.
    NORMAL,
    /// A tombstone: the key was deleted.
    DELETED,
    /// The sentinel closing a transaction.
    TXNFINISH,
}

/// The byte that stands for each record type on disk.
pub open spec fn spec_type_byte(t: LogRecordType) -> u8 {
    match t {
        LogRecordType::NORMAL => 1,
        LogRecordType::DELETED => 2,
        LogRecordType::TXNFINISH => 3,
    }
}

/// The record type a byte stands for, if any.
pub open spec fn spec_type_of_byte(b: u8) -> Option<LogRecordType> {
    if b == 1 {
        Some(LogRecordType::NORMAL)
    } else if b == 2 {
        Some(LogRecordType::DELETED)
    } else if b == 3 {
        Some(LogRecordType::TXNFINISH)
    } else {
        None
    }
}

impl LogRecordType {
    /// The on-disk byte of this type.
    pub fn to_u8(self) -> (b: u8)
        ensures
            b == spec_type_byte(self),
            spec_type_of_byte(b) == Some(self),
    {
        match self {
            LogRecordType::NORMAL => 1,
            LogRecordType::DELETED => 2,
            LogRecordType::TXNFINISH => 3,
        }
    }

    /// The type a byte stands for.  A byte outside the known range has no
    /// type, so the caller must rule it out.
    pub fn from_u8(v: u8) -> (t: Self)
        requires
            spec_type_of_byte(v) is Some,
        ensures
            spec_type_of_byte(v) == Some(t),
    {
        if v == 1 {
            LogRecordType::NORMAL
        } else if v == 2 {
            LogRecordType::DELETED
        } else {
            LogRecordType::TXNFINISH
        }
    }
}

/// The mathematical shadow of a record: what it says, free of
/// representation.
pub struct RecView {
    pub key: Seq<u8>,
    pub value: Seq<u8>,
    pub rec_type: LogRecordType,
}

/// One record of the append-only log.  The key written here is the
/// sequenced key: a varint sequence number followed by the user key.
#[derive(Debug, Clone, PartialEq)]
pub struct LogRecord {
    pub key: Vec<u8>,
    pub value: Vec<u8>,
    pub rec_type: LogRecordType,
}

impl View for LogRecord {
    type V = RecView;

    open spec fn view(&self) -> RecView {
        RecView { key: self.key@, value: self.value@, rec_type: self.rec_type }
    }
}

/// Everything of an encoded record but the checksum.
pub open spec fn spec_encoded_body(r: RecView) -> Seq<u8> {
    seq![spec_type_byte(r.rec_type)] + spec_varint(r.key.len() as u64) + spec_varint(
        r.value.len() as u64,
    ) + r.key + r.value
}

/// The full encoding: the body followed by its CRC-32, little-endian.
pub open spec fn spec_encoded(r: RecView) -> Seq<u8> {
    spec_encoded_body(r) + vstd::bytes::spec_u32_to_le_bytes(crc32_of(spec_encoded_body(r)))
}

/// A record the codec can faithfully store and recover: the key is
/// non-empty (an empty key and value marks the end of a segment) and both
/// lengths fit the on-disk size fields.
pub open spec fn encodable(r: RecView) -> bool {
    &&& 1 <= r.key.len() < 0x1_0000_0000
    &&& r.value.len() < 0x1_0000_0000
}

impl LogRecord {
    /// Encodes the record and returns its checksum beside the bytes.
    pub fn encode_and_get_crc(&self) -> (r: (u32, Vec<u8>))
        ensures
            r.1@ == spec_encoded(self@),
            r.0 == crc32_of(spec_encoded_body(self@)),
    {
        let mut buf: Vec<u8> = Vec::new();
        buf.push(self.rec_type.to_u8());
        encode_varint(self.key.len() as u64, &mut buf);
        encode_varint(self.value.len() as u64, &mut buf);
        extend_bytes(&mut buf, self.key.as_slice());
        extend_bytes(&mut buf, self.value.as_slice());
        assert(buf@ =~= spec_encoded_body(self@));
        let crc = crc32(buf.as_slice());
        let crc_bytes = vstd::bytes::u32_to_le_bytes(crc);
        extend_bytes(&mut buf, crc_bytes.as_slice());
        assert(buf@ =~= spec_encoded(self@));
        (crc, buf)
    }

    /// The encoded bytes of the record.
    pub fn encode(&self) -> (buf: Vec<u8>)
        ensures
            buf@ == spec_encoded(self@),
    {
        let (_, enc_buf) = self.encode_and_get_crc();
        enc_buf
    }

    /// The checksum the record is stored with.
    pub fn get_crc(&self) -> (crc: u32)
        ensures
            crc == crc32_of(spec_encoded_body(self@)),
    {
        let (crc, _) = self.encode_and_get_crc();
        crc
    }
}

/// A record paired with the count of bytes its encoding occupies, as
/// handed back by a read.
#[derive(Debug)]
pub struct ReadLogRecord {
    pub record: LogRecord,
    pub size: usize,
}

/// A record held back while its transaction is replayed.
pub struct TransactionRecord {
    pub record: LogRecord,
    pub pos: LogRecordPos,
}

/// The largest header a record can have: the type byte and two five-byte
/// size fields.
pub fn max_log_record_header_size() -> (n: usize)
    ensures
        n == 11,
{
    11
}

/// What reading one record at an offset yields.
pub enum RecParse {
    /// The clean end of a segment: a zeroed header, or fewer bytes left
    /// than the record claims.
    Eof,
    /// Damage: an unreadable header, an unknown type byte, or a checksum
    /// that does not match.
    Corrupt,
    /// A record, with the count of bytes it occupies.
    Rec(RecView, int),
}

/// The fixed-size window a reader looks at first: eleven bytes from `off`,
/// zero-padded past the end of the segment.
pub open spec fn spec_header_window(c: Seq<u8>, off: int) -> Seq<u8> {
    Seq::new(11, |i: int| if off + i < c.len() { c[off + i] } else { 0 })
}

/// Reads the record at `off` in segment contents `c`, exactly as the
/// decoding contract prescribes: scan the header window, take the two size
/// varints, stop cleanly on a zeroed header or a short tail, and check the
/// trailing CRC against every byte before it.
pub open spec fn spec_parse_record(c: Seq<u8>, off: int) -> RecParse {
    let win = spec_header_window(c, off);
    match spec_varint_parse(win.skip(1)) {
        None => RecParse::Corrupt,
        Some((ks, l1)) => match spec_varint_parse(win.skip(1 + l1)) {
            None => RecParse::Corrupt,
            Some((vs, l2)) => {
                if ks == 0 && vs == 0 {
                    RecParse::Eof
                } else if ks > u64::MAX || vs > u64::MAX {
                    RecParse::Corrupt
                } else {
                    let ah = 1 + l1 + l2;
                    if off + ah + ks + vs + 4 > c.len() {
                        RecParse::Eof
                    } else {
                        match spec_type_of_byte(win[0]) {
                            None => RecParse::Corrupt,
                            Some(t) => {
                                let body = c.subrange(off, off + ah + ks + vs);
                                let stored = vstd::bytes::spec_u32_from_le_bytes(
                                    c.subrange(off + ah + ks + vs, off + ah + ks + vs + 4),
                                );
                                if stored != crc32_of(body) {
                                    RecParse::Corrupt
                                } else {
                                    RecParse::Rec(
                                        RecView {
                                            key: c.subrange(off + ah, off + ah + ks),
                                            value: c.subrange(off + ah + ks, off + ah + ks + vs),
                                            rec_type: t,
                                        },
                                        ah + ks + vs + 4,
                                    )
                                }
                            },
                        }
                    }
                }
            },
        },
    }
}

/// A successfully parsed record occupies at least seven bytes and ends
/// within the segment.
pub proof fn lemma_parse_record_size(c: Seq<u8>, off: int)
    requires
        spec_parse_record(c, off) is Rec,
    ensures
        7 <= spec_parse_record(c, off)->Rec_1,
        off + spec_parse_record(c, off)->Rec_1 <= c.len(),
{
    let win = spec_header_window(c, off);
    let (ks, l1) = spec_varint_parse(win.skip(1))->Some_0;
    lemma_varint_parse_bounds(win.skip(1));
    let (vs, l2) = spec_varint_parse(win.skip(1 + l1))->Some_0;
    lemma_varint_parse_bounds(win.skip(1 + l1));
}

/// Decoding an encoded record placed at `off` — whatever follows it —
/// recovers the record and its exact length.
pub proof fn lemma_parse_encoded(c: Seq<u8>, off: int, r: RecView)
    requires
        encodable(r),
        0 <= off,
        off + spec_encoded(r).len() <= c.len(),
        c.subrange(off, off + spec_encoded(r).len()) == spec_encoded(r),
    ensures
        spec_parse_record(c, off) == RecParse::Rec(r, spec_encoded(r).len() as int),
{
    let enc = spec_encoded(r);
    let body = spec_encoded_body(r);
    let ks = r.key.len() as u64;
    let vs = r.value.len() as u64;
    let var_k = spec_varint(ks);
    let var_v = spec_varint(vs);
    lemma_varint_len_u32(ks);
    lemma_varint_len_u32(vs);
    let l1 = var_k.len() as int;
    let l2 = var_v.len() as int;
    let ah = 1 + l1 + l2;
    assert(body.len() == ah + ks + vs);
    vstd::bytes::lemma_auto_spec_u32_to_from_le_bytes();
    assert(enc.len() == ah + ks + vs + 4);

    // every byte of the encoding is a byte of `c`
    assert forall|i: int| 0 <= i < enc.len() implies c[off + i] == enc[i] by {
        assert(c.subrange(off, off + enc.len() as int)[i] == c[off + i]);
    }
    assert forall|i: int| 0 <= i < body.len() implies enc[i] == body[i] by {}

    let win = spec_header_window(c, off);
    // the window opens on the type byte and the two size varints
    assert(win[0] == enc[0]);
    assert(enc[0] == spec_type_byte(r.rec_type));

    // first varint
    assert(win.skip(1) =~= var_k + win.skip(1 + l1)) by {
        assert forall|i: int| 0 <= i < 10 implies win.skip(1)[i] == (var_k + win.skip(1 + l1))[i]
        by {
            if i < l1 {
                assert(win[1 + i] == c[off + 1 + i]);
                assert(body[1 + i] == var_k[i]);
            }
        }
    }
    lemma_varint_round_trip(ks, win.skip(1 + l1));
    assert(spec_varint_parse(win.skip(1)) == Some((ks as int, l1)));

    // second varint
    assert(win.skip(1 + l1) =~= var_v + win.skip(ah)) by {
        assert forall|i: int|
            0 <= i < 10 - l1 implies win.skip(1 + l1)[i] == (var_v + win.skip(ah))[i] by {
            if i < l2 {
                assert(win[1 + l1 + i] == c[off + 1 + l1 + i]);
                assert(body[1 + l1 + i] == var_v[i]);
            }
        }
    }
    lemma_varint_round_trip(vs, win.skip(ah));
    assert(spec_varint_parse(win.skip(1 + l1)) == Some((vs as int, l2)));

    assert(!(ks == 0 && vs == 0));
    assert(off + ah + ks + vs + 4 <= c.len());
    assert(spec_type_of_byte(win[0]) == Some(r.rec_type));

    let sub = c.subrange(off, off + enc.len() as int);
    assert(c.subrange(off, off + ah + ks + vs) =~= sub.subrange(0, ah + ks + vs));
    assert(enc.subrange(0, ah + ks + vs) =~= body);
    assert(c.subrange(off, off + ah + ks + vs) == body);

    assert(c.subrange(off + ah + ks + vs, off + ah + ks + vs + 4) =~= sub.subrange(
        ah + ks + vs,
        ah + ks + vs + 4,
    ));
    assert(enc.subrange(ah + ks + vs, ah + ks + vs + 4) =~= vstd::bytes::spec_u32_to_le_bytes(
        crc32_of(body),
    ));
    assert(vstd::bytes::spec_u32_from_le_bytes(
        vstd::bytes::spec_u32_to_le_bytes(crc32_of(body)),
    ) == crc32_of(body));

    assert(c.subrange(off + ah, off + ah + ks) =~= sub.subrange(ah, ah + ks));
    assert(enc.subrange(ah, ah + ks) =~= r.key);
    assert(c.subrange(off + ah + ks, off + ah + ks + vs) =~= sub.subrange(ah + ks, ah + ks + vs));
    assert(enc.subrange(ah + ks, ah + ks + vs) =~= r.value);
}

/// Damage to the stored checksum is always caught: if the bytes at `off`
/// are an encoded record whose four checksum bytes were altered, decoding
/// reports corruption.
pub proof fn lemma_corrupt_crc_detected(c: Seq<u8>, off: int, r: RecView, stored: Seq<u8>)
    requires
        encodable(r),
        0 <= off,
        off + spec_encoded(r).len() <= c.len(),
        stored.len() == 4,
        stored != vstd::bytes::spec_u32_to_le_bytes(crc32_of(spec_encoded_body(r))),
        c.subrange(off, off + spec_encoded(r).len()) == spec_encoded_body(r) + stored,
    ensures
        spec_parse_record(c, off) == RecParse::Corrupt,
{
    let enc = spec_encoded(r);
    let body = spec_encoded_body(r);
    let ks = r.key.len() as u64;
    let vs = r.value.len() as u64;
    let var_k = spec_varint(ks);
    let var_v = spec_varint(vs);
    lemma_varint_len_u32(ks);
    lemma_varint_len_u32(vs);
    let l1 = var_k.len() as int;
    let l2 = var_v.len() as int;
    let ah = 1 + l1 + l2;
    assert(body.len() == ah + ks + vs);
    vstd::bytes::lemma_auto_spec_u32_to_from_le_bytes();
    assert(enc.len() == ah + ks + vs + 4);
    let laid = body + stored;

    assert forall|i: int| 0 <= i < enc.len() implies c[off + i] == laid[i] by {
        assert(c.subrange(off, off + enc.len() as int)[i] == c[off + i]);
    }

    let win = spec_header_window(c, off);
    assert(win[0] == laid[0]);
    assert(laid[0] == spec_type_byte(r.rec_type));

    assert(win.skip(1) =~= var_k + win.skip(1 + l1)) by {
        assert forall|i: int| 0 <= i < 10 implies win.skip(1)[i] == (var_k + win.skip(1 + l1))[i]
        by {
            if i < l1 {
                assert(win[1 + i] == c[off + 1 + i]);
                assert(laid[1 + i] == var_k[i]);
            }
        }
    }
    lemma_varint_round_trip(ks, win.skip(1 + l1));
    assert(win.skip(1 + l1) =~= var_v + win.skip(ah)) by {
        assert forall|i: int|
            0 <= i < 10 - l1 implies win.skip(1 + l1)[i] == (var_v + win.skip(ah))[i] by {
            if i < l2 {
                assert(win[1 + l1 + i] == c[off + 1 + l1 + i]);
                assert(laid[1 + l1 + i] == var_v[i]);
            }
        }
    }
    lemma_varint_round_trip(vs, win.skip(ah));

    let sub = c.subrange(off, off + enc.len() as int);
    assert(c.subrange(off, off + ah + ks + vs) =~= sub.subrange(0, ah + ks + vs));
    assert(laid.subrange(0, ah + ks + vs) =~= body);
    assert(c.subrange(off, off + ah + ks + vs) == body);
    assert(c.subrange(off + ah + ks + vs, off + ah + ks + vs + 4) =~= sub.subrange(
        ah + ks + vs,
        ah + ks + vs + 4,
    ));
    assert(laid.subrange(ah + ks + vs, ah + ks + vs + 4) =~= stored);
    assert(c.subrange(off + ah + ks + vs, off + ah + ks + vs + 4) == stored);
    // two distinct four-byte sequences never read back as the same word
    let good = vstd::bytes::spec_u32_to_le_bytes(crc32_of(body));
    assert(vstd::bytes::spec_u32_from_le_bytes(stored) != crc32_of(body)) by {
        if vstd::bytes::spec_u32_from_le_bytes(stored) == crc32_of(body) {
            assert(vstd::bytes::spec_u32_to_le_bytes(
                vstd::bytes::spec_u32_from_le_bytes(stored),
            ) == stored);
            assert(stored == good);
        }
    }
}

} // verus!
