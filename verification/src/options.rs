//! Configuration of the engine, its iterators and its write batches.

use vstd::prelude::*;

use crate::errors::Errors;

verus! {

/// Which memory index the engine builds.
#[derive(PartialEq, Eq, Debug, Clone, Copy, Structural)]
pub enum IndexType {
    /// The ordered map, and the only index this crate carries.
    BTree,
    /// Reserved; not provided here.
    SkipList,
}

/// How an engine is opened.
#[derive(Clone)]
pub struct Options {
    /// The directory the segment files live in.  Must be non-empty.
    pub dir_path: String,
    /// The size threshold, in bytes, past which the active segment is
    /// rotated.  At least 100.
    pub data_file_size: u64,
    /// Whether every single write flushes before returning.
    pub sync_write: bool,
    /// The memory index to build.
    pub index_type: IndexType,
}

impl Default for Options {
    /// A quarter-gigabyte segment size, no flush per write, the ordered
    /// map index, and segments kept under `/tmp`.
    fn default() -> (o: Self)
        ensures
            o.data_file_size == 0x1000_0000,
            o.sync_write == false,
            o.index_type == IndexType::BTree,
            o.dir_path@.len() > 0,
    {
        let dir: String = "/tmp".to_owned();
        proof {
            reveal_strlit("/tmp");
        }
        Options {
            dir_path: dir,
            data_file_size: 0x1000_0000,
            sync_write: false,
            index_type: IndexType::BTree,
        }
    }
}

/// Whether `opts` may open an engine, and the rejection if not: an empty
/// directory path or a segment size under 100 bytes.
pub open spec fn spec_check_options(opts: Options) -> Option<Errors> {
    if opts.dir_path@.len() == 0 {
        Some(Errors::DirPathIsEmpty)
    } else if opts.data_file_size < 100 {
        Some(Errors::DataFileSizeTooSmall)
    } else {
        None
    }
}

/// Validates options before an open.
pub fn check_options(opts: &Options) -> (r: Option<Errors>)
    ensures
        r == spec_check_options(*opts),
{
    if opts.dir_path.as_str().is_empty() {
        Some(Errors::DirPathIsEmpty)
    } else if opts.data_file_size < 100 {
        Some(Errors::DataFileSizeTooSmall)
    } else {
        None
    }
}

/// How an index iterator walks.
#[derive(Clone)]
pub struct IteratorOptions {
    /// Only keys starting with this prefix are yielded; empty means all.
    pub prefix: Vec<u8>,
    /// Walk the keys in descending order instead.
    pub reverse: bool,
}

impl Default for IteratorOptions {
    /// No prefix filter, ascending order.
    fn default() -> (o: Self)
        ensures
            o.prefix@ == Seq::<u8>::empty(),
            o.reverse == false,
    {
        IteratorOptions { prefix: Vec::new(), reverse: false }
    }
}

/// How a write batch behaves.
#[derive(Clone, Copy)]
pub struct WriteBatchOptions {
    /// The most operations one commit may carry.
    pub max_batch_num: usize,
    /// Whether the commit flushes before the index is updated.
    pub sync_writes: bool,
}

impl Default for WriteBatchOptions {
    /// Up to ten thousand staged operations, flushed on commit.
    fn default() -> (o: Self)
        ensures
            o.max_batch_num == 10000,
            o.sync_writes == true,
    {
        WriteBatchOptions { max_batch_num: 10000, sync_writes: true }
    }
}

} // verus!
