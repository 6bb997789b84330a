//! One segment of the log: an append-only store of encoded records with a
//! running write offset.

use vstd::prelude::*;

use crate::errors::Errors;
use crate::fio::MemIO;
use crate::log_record::{
    spec_header_window, spec_parse_record, LogRecord, LogRecordType, ReadLogRecord, RecParse,
};
use crate::util::{copy_range, extend_bytes};
use crate::varint::{lemma_varint_parse_bounds, spec_varint_parse};
use vstd::string::StringSliceAdditionalSpecFns;

verus! {

/// The suffix every segment file name carries.
pub open spec fn spec_data_file_suffix() -> Seq<u8> {
    seq![46u8, 100u8, 97u8, 116u8, 97u8]
}

/// Ten to the `k`.
pub open spec fn pow10(k: nat) -> int
    decreases k,
{
    if k == 0 {
        1
    } else {
        10 * pow10((k - 1) as nat)
    }
}

/// The nine zero-padded decimal digits of a segment id, as ASCII bytes.
pub open spec fn spec_digits9(id: u32) -> Seq<u8> {
    Seq::new(9, |j: int| (48 + (id as int / pow10((8 - j) as nat)) % 10) as u8)
}

/// Is every byte an ASCII decimal digit?
pub open spec fn spec_all_digits(s: Seq<u8>) -> bool {
    forall|i: int| 0 <= i < s.len() ==> 48 <= #[trigger] s[i] <= 57
}

/// The number a run of decimal digits spells.
pub open spec fn spec_digits_val(s: Seq<u8>) -> int
    decreases s.len(),
{
    if s.len() == 0 {
        0
    } else {
        spec_digits_val(s.drop_last()) * 10 + (s.last() - 48)
    }
}

/// The full name of a segment file: the directory, a separator, nine
/// digits, and the data suffix.
pub fn get_data_file_name(dir_path: &str, file_id: u32) -> (name: Vec<u8>)
    ensures
        name@ == dir_path.spec_bytes() + seq![47u8] + spec_digits9(file_id) + spec_data_file_suffix(),
{
    let mut name: Vec<u8> = Vec::new();
    extend_bytes(&mut name, dir_path.as_bytes());
    name.push(47);
    let ghost base = name@;
    let mut div: u32 = 100_000_000;
    let mut j: usize = 0;
    proof {
        reveal_with_fuel(pow10, 10);
    }
    while j < 9
        invariant
            j <= 9,
            div >= 1,
            j < 9 ==> div as int == pow10((8 - j) as nat),
            name@ =~= base + spec_digits9(file_id).subrange(0, j as int),
        decreases 9 - j,
    {
        let d = (file_id / div) % 10;
        name.push((48 + d) as u8);
        proof {
            reveal_with_fuel(pow10, 10);
            assert(spec_digits9(file_id)[j as int] == (48 + (file_id as int / pow10(
                (8 - j) as nat,
            )) % 10) as u8);
            assert((file_id / div) as int == file_id as int / div as int);
            assert(name@ =~= base + spec_digits9(file_id).subrange(0, j + 1));
        }
        if j < 8 {
            div = div / 10;
            proof {
                reveal_with_fuel(pow10, 10);
            }
        }
        j = j + 1;
    }
    proof {
        assert(spec_digits9(file_id).subrange(0, 9) =~= spec_digits9(file_id));
    }
    let suffix: [u8; 5] = [46, 100, 97, 116, 97];
    extend_bytes(&mut name, suffix.as_slice());
    proof {
        assert(suffix@ =~= spec_data_file_suffix());
    }
    name
}

/// Reads a non-empty run of decimal digits as a `u32`; `None` when a
/// byte is no digit, the run is empty, or the value overflows.
pub fn parse_u32_digits(s: &[u8]) -> (r: Option<u32>)
    ensures
        match r {
            Some(v) => spec_all_digits(s@) && s@.len() > 0 && spec_digits_val(s@) == v as int,
            None => !(spec_all_digits(s@) && s@.len() > 0 && spec_digits_val(s@) <= u32::MAX),
        },
{
    if s.len() == 0 {
        return None;
    }
    let mut acc: u32 = 0;
    let mut i: usize = 0;
    while i < s.len()
        invariant
            i <= s@.len(),
            spec_all_digits(s@.subrange(0, i as int)),
            acc as int == spec_digits_val(s@.subrange(0, i as int)),
        decreases s@.len() - i,
    {
        let b = s[i];
        if b < 48 || b > 57 {
            assert(!spec_all_digits(s@)) by {
                assert(s@[i as int] == b);
            }
            return None;
        }
        let d = (b - 48) as u32;
        if acc > (u32::MAX - d) / 10 {
            proof {
                lemma_digits_val_monotone(s@, i as int);
                assert(10 * (acc as int) + d > u32::MAX) by {
                    assert(acc as int >= (u32::MAX - d) / 10 + 1);
                    assert(10 * ((u32::MAX - d) as int / 10) + 10 > u32::MAX - d);
                    assert(10 * (acc as int) >= 10 * ((u32::MAX - d) as int / 10 + 1)) by (nonlinear_arith)
                        requires acc as int >= (u32::MAX - d) as int / 10 + 1;
                }
                assert(s@.subrange(0, i + 1).drop_last() =~= s@.subrange(0, i as int));
                assert(s@.subrange(0, i + 1).last() == b);
                assert(spec_digits_val(s@.subrange(0, i + 1)) > u32::MAX);
            }
            return None;
        }
        let ghost prev = s@.subrange(0, i as int);
        acc = acc * 10 + d;
        i = i + 1;
        proof {
            assert(s@.subrange(0, i as int).drop_last() =~= prev);
            assert(s@.subrange(0, i as int).last() == b);
        }
    }
    proof {
        assert(s@.subrange(0, s@.len() as int) =~= s@);
    }
    Some(acc)
}

/// A longer digit run spells at least as large a number; in particular a
/// prefix that already overflows dooms the whole run.
proof fn lemma_digits_val_monotone(s: Seq<u8>, i: int)
    requires
        0 <= i < s.len(),
        spec_all_digits(s.subrange(0, i + 1)),
    ensures
        spec_digits_val(s) >= spec_digits_val(s.subrange(0, i + 1)) || !spec_all_digits(s),
    decreases s.len() - i,
{
    if i + 1 == s.len() {
        assert(s.subrange(0, i + 1) =~= s);
    } else {
        if spec_all_digits(s) {
            assert(spec_all_digits(s.subrange(0, i + 2))) by {
                assert(forall|j: int|
                    0 <= j < i + 2 ==> #[trigger] s.subrange(0, i + 2)[j] == s[j]);
            }
            lemma_digits_val_monotone(s, i + 1);
            assert(s.subrange(0, i + 2).drop_last() =~= s.subrange(0, i + 1));
            assert(spec_digits_val(s.subrange(0, i + 2)) == spec_digits_val(s.subrange(0, i + 1))
                * 10 + (s[i + 1] - 48));
            lemma_digits_val_nonneg(s.subrange(0, i + 1));
            assert(spec_digits_val(s.subrange(0, i + 1)) * 10 >= spec_digits_val(
                s.subrange(0, i + 1),
            )) by (nonlinear_arith)
                requires spec_digits_val(s.subrange(0, i + 1)) >= 0;
        }
    }
}

/// Digits spell a number, never a negative.
pub proof fn lemma_digits_val_nonneg(s: Seq<u8>)
    requires
        spec_all_digits(s),
    ensures
        spec_digits_val(s) >= 0,
    decreases s.len(),
{
    if s.len() > 0 {
        assert(spec_all_digits(s.drop_last())) by {
            assert(forall|j: int| 0 <= j < s.len() - 1 ==> #[trigger] s.drop_last()[j] == s[j]);
        }
        lemma_digits_val_nonneg(s.drop_last());
        assert(spec_digits_val(s.drop_last()) * 10 >= 0) by (nonlinear_arith)
            requires spec_digits_val(s.drop_last()) >= 0;
    }
}

/// An append-only data file: its id, the offset the next record will be
/// written at, and the store holding its bytes.
pub struct DataFile {
    file_id: u32,
    write_off: u64,
    io: MemIO,
}

impl DataFile {
    /// The bytes the segment holds.
    pub closed spec fn contents(&self) -> Seq<u8> {
        self.io@
    }

    /// The segment's id.
    pub closed spec fn id(&self) -> u32 {
        self.file_id
    }

    /// The current write offset.
    pub closed spec fn off(&self) -> u64 {
        self.write_off
    }

    /// Opens a fresh, empty segment.
    pub fn new(file_id: u32) -> (f: DataFile)
        ensures
            f.id() == file_id,
            f.off() == 0,
            f.contents() == Seq::<u8>::empty(),
    {
        DataFile { file_id, write_off: 0, io: MemIO::new() }
    }

    /// Opens a segment over bytes recovered from elsewhere.
    pub fn from_contents(file_id: u32, data: Vec<u8>) -> (f: DataFile)
        ensures
            f.id() == file_id,
            f.off() == 0,
            f.contents() == data@,
            f.contents().len() <= u64::MAX,
    {
        let n = data.len();
        assert(data@.len() == n);
        DataFile { file_id, write_off: 0, io: MemIO::from_contents(data) }
    }

    pub fn get_write_off(&self) -> (o: u64)
        ensures
            o == self.off(),
    {
        self.write_off
    }

    pub fn get_file_id(&self) -> (i: u32)
        ensures
            i == self.id(),
    {
        self.file_id
    }

    pub fn set_write_off(&mut self, offset: u64)
        ensures
            final(self).off() == offset,
            final(self).id() == old(self).id(),
            final(self).contents() == old(self).contents(),
    {
        self.write_off = offset;
    }

    /// How many bytes the segment holds.
    pub fn content_len(&self) -> (n: usize)
        ensures
            n == self.contents().len(),
    {
        self.io.len()
    }

    /// The held bytes, for a caller that mirrors the segment elsewhere.
    pub fn contents_ref(&self) -> (v: &Vec<u8>)
        ensures
            v@ == self.contents(),
    {
        self.io.contents()
    }

    /// Appends `buf` in full and advances the write offset by its length.
    pub fn write(&mut self, buf: &[u8]) -> (r: Result<usize, Errors>)
        requires
            old(self).off() + buf@.len() <= u64::MAX,
        ensures
            r == Ok::<usize, Errors>(buf@.len() as usize),
            final(self).contents() == old(self).contents() + buf@,
            final(self).off() == old(self).off() + buf@.len(),
            final(self).id() == old(self).id(),
    {
        self.io.append(buf);
        self.write_off = self.write_off + buf.len() as u64;
        Ok(buf.len())
    }

    /// Flushes the segment; in-memory contents are already durable.
    pub fn sync(&self) -> (r: Result<(), Errors>)
        ensures
            r is Ok,
    {
        Ok(())
    }

    /// Truncates the segment to `len` bytes; recovery uses this to drop a
    /// torn tail so that later appends land where their locators say.
    pub fn truncate_to(&mut self, len: usize)
        requires
            len <= old(self).contents().len(),
        ensures
            final(self).contents() == old(self).contents().subrange(0, len as int),
            final(self).id() == old(self).id(),
            final(self).off() == old(self).off(),
    {
        self.io.truncate_to(len);
    }

    /// Reads the record at `offset`, exactly as [`spec_parse_record`]
    /// prescribes: `Eof` becomes `ReadDataFileEOF`, damage becomes
    /// `InvalidLogRecordCrc`.
    pub fn read_log_record(&self, offset: u64) -> (r: Result<ReadLogRecord, Errors>)
        ensures
            match spec_parse_record(self.contents(), offset as int) {
                RecParse::Eof => r == Err::<ReadLogRecord, Errors>(Errors::ReadDataFileEOF),
                RecParse::Corrupt => r == Err::<ReadLogRecord, Errors>(
                    Errors::InvalidLogRecordCrc,
                ),
                RecParse::Rec(rv, sz) => r matches Ok(rl) && rl.record@ == rv && rl.size == sz,
            },
    {
        let ghost c = self.contents();
        let ghost goff = offset as int;

        // the eleven-byte header window, zero-padded past the end
        let raw = self.io.read_at(offset, 11);
        let ghost rawlen = raw@.len() as int;
        assert(rawlen == 11 || goff + rawlen >= c.len());
        let mut win = raw;
        while win.len() < 11
            invariant
                rawlen <= win@.len() <= 11,
                forall|i: int|
                    0 <= i < win@.len() ==> win@[i] == spec_header_window(c, goff)[i],
                rawlen == 11 || goff + rawlen >= c.len(),
            decreases 11 - win@.len(),
        {
            win.push(0);
        }
        assert(win@ =~= spec_header_window(c, goff));
        let ghost sw = spec_header_window(c, goff);

        let type_b = win[0];

        assert(win@.skip(1) =~= sw.skip(1));
        let (key_size, l1) = match crate::varint::decode_varint(win.as_slice(), 1) {
            None => {
                return Err(Errors::InvalidLogRecordCrc);
            },
            Some(p) => p,
        };
        proof {
            lemma_varint_parse_bounds(sw.skip(1));
        }
        assert(win@.skip(1 + l1 as int) =~= sw.skip(1 + l1 as int));
        let (value_size, l2) = match crate::varint::decode_varint(win.as_slice(), 1 + l1) {
            None => {
                return Err(Errors::InvalidLogRecordCrc);
            },
            Some(p) => p,
        };
        proof {
            lemma_varint_parse_bounds(sw.skip(1 + l1 as int));
        }

        if key_size == 0 && value_size == 0 {
            return Err(Errors::ReadDataFileEOF);
        }

        let actual_header_size: usize = 1 + l1 + l2;
        let clen = self.io.len();
        let total: u128 = offset as u128 + actual_header_size as u128 + key_size as u128
            + value_size as u128 + 4;
        if total > clen as u128 {
            return Err(Errors::ReadDataFileEOF);
        }

        let ks = key_size as usize;
        let vs = value_size as usize;
        let body_off: u64 = offset + actual_header_size as u64;
        let need: usize = ks + vs + 4;
        let kv = self.io.read_at(body_off, need);
        assert(kv@ == c.subrange(body_off as int, body_off as int + need));

        if type_b == 0 || type_b > 3 {
            return Err(Errors::InvalidLogRecordCrc);
        }

        // the checksum is taken over every byte before it
        let mut body = copy_range(win.as_slice(), 0, actual_header_size);
        assert(body@ =~= c.subrange(goff, goff + actual_header_size as int)) by {
            assert forall|i: int| 0 <= i < actual_header_size as int implies sw[i] == c[goff + i]
            by {}
        }
        let kv_data = vstd::slice::slice_subrange(kv.as_slice(), 0, ks + vs);
        extend_bytes(&mut body, kv_data);
        assert(body@ =~= c.subrange(goff, goff + actual_header_size as int + ks + vs));

        let computed = crate::crc::crc32(body.as_slice());
        let crc_slice = vstd::slice::slice_subrange(kv.as_slice(), ks + vs, ks + vs + 4);
        assert(crc_slice@ =~= c.subrange(
            goff + actual_header_size as int + ks + vs,
            goff + actual_header_size as int + ks + vs + 4,
        ));
        let stored = vstd::bytes::u32_from_le_bytes(crc_slice);

        if stored != computed {
            return Err(Errors::InvalidLogRecordCrc);
        }

        let key = copy_range(kv.as_slice(), 0, ks);
        let value = copy_range(kv.as_slice(), ks, ks + vs);
        assert(key@ =~= c.subrange(
            goff + actual_header_size as int,
            goff + actual_header_size as int + ks,
        ));
        assert(value@ =~= c.subrange(
            goff + actual_header_size as int + ks,
            goff + actual_header_size as int + ks + vs,
        ));
        let rec_type = LogRecordType::from_u8(type_b);
        let record = LogRecord { key, value, rec_type };
        let size: usize = actual_header_size + ks + vs + 4;
        Ok(ReadLogRecord { record, size })
    }
}

} // verus!
