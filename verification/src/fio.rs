//! The storage capability a segment file runs on: positional read, append,
//! and flush, over a byte sequence.
//!
//! The engine itself runs on [`MemIO`], the in-memory store below, which
//! meets every contract outright.  A caller that keeps segments elsewhere
//! (a filesystem, say) implements [`IOManager`] for its own store and
//! mirrors the engine's buffers there; nothing verified dispatches through
//! such an implementation.

use vstd::prelude::*;

use crate::errors::Errors;

verus! {

/// What a positional read of `len` bytes at `off` must return: the bytes
/// there, cut short at the end of the store.
pub open spec fn read_window(c: Seq<u8>, off: int, len: int) -> Seq<u8> {
    if off >= c.len() {
        Seq::empty()
    } else if off + len <= c.len() {
        c.subrange(off, off + len)
    } else {
        c.subrange(off, c.len() as int)
    }
}

/// The capability set a segment needs from its store.  The view of an
/// implementor is the byte content it holds.
pub trait IOManager: View<V = Seq<u8>> + Sized {
    /// Reads up to `len` bytes starting at `offset`.
    fn read(&self, offset: u64, len: usize) -> (r: Result<Vec<u8>, Errors>)
        ensures
            r matches Ok(b) ==> b@ == read_window(self@, offset as int, len as int),
    ;

    /// Appends the whole of `buf`; the store grows by exactly those bytes
    /// or, on failure, not at all.
    fn write(&mut self, buf: &[u8]) -> (r: Result<usize, Errors>)
        ensures
            r matches Ok(n) ==> n == buf@.len() && final(self)@ == old(self)@ + buf@,
            r matches Err(_) ==> final(self)@ == old(self)@,
    ;

    /// Flushes to durable media; the content is untouched.
    fn sync(&self) -> (r: Result<(), Errors>)
    ;
}

/// The in-memory store: a growable byte buffer.  Every operation
/// succeeds.
pub struct MemIO {
    data: Vec<u8>,
}

impl View for MemIO {
    type V = Seq<u8>;

    closed spec fn view(&self) -> Seq<u8> {
        self.data@
    }
}

impl MemIO {
    /// An empty store.
    pub fn new() -> (m: MemIO)
        ensures
            m@ == Seq::<u8>::empty(),
    {
        MemIO { data: Vec::new() }
    }

    /// A store holding exactly `data`.
    pub fn from_contents(data: Vec<u8>) -> (m: MemIO)
        ensures
            m@ == data@,
    {
        MemIO { data }
    }

    /// How many bytes the store holds.
    pub fn len(&self) -> (n: usize)
        ensures
            n == self@.len(),
    {
        self.data.len()
    }

    /// The held bytes, for a caller that mirrors them elsewhere.
    pub fn contents(&self) -> (v: &Vec<u8>)
        ensures
            v@ == self@,
    {
        &self.data
    }

    /// Reads up to `len` bytes starting at `offset`; short exactly where
    /// the store ends.
    pub fn read_at(&self, offset: u64, len: usize) -> (b: Vec<u8>)
        ensures
            b@ == read_window(self@, offset as int, len as int),
    {
        let n = self.data.len();
        if offset >= n as u64 {
            let empty: Vec<u8> = Vec::new();
            assert(empty@ =~= read_window(self@, offset as int, len as int));
            return empty;
        }
        let start = offset as usize;
        let end = if len > n - start {
            n
        } else {
            start + len
        };
        crate::util::copy_range(self.data.as_slice(), start, end)
    }

    /// Appends `buf` in full.
    pub fn append(&mut self, buf: &[u8])
        ensures
            final(self)@ == old(self)@ + buf@,
    {
        crate::util::extend_bytes(&mut self.data, buf);
    }

    /// Cuts the store down to its first `len` bytes.
    pub fn truncate_to(&mut self, len: usize)
        requires
            len <= old(self)@.len(),
        ensures
            final(self)@ == old(self)@.subrange(0, len as int),
    {
        self.data.truncate(len);
    }
}

impl IOManager for MemIO {
    fn read(&self, offset: u64, len: usize) -> (r: Result<Vec<u8>, Errors>)
        ensures
            r matches Ok(b) && b@ == read_window(self@, offset as int, len as int),
    {
        Ok(self.read_at(offset, len))
    }

    fn write(&mut self, buf: &[u8]) -> (r: Result<usize, Errors>)
        ensures
            r matches Ok(n) && n == buf@.len() && final(self)@ == old(self)@ + buf@,
    {
        self.append(buf);
        Ok(buf.len())
    }

    fn sync(&self) -> (r: Result<(), Errors>)
        ensures
            r is Ok,
    {
        Ok(())
    }
}

/// A fresh in-memory store, the default manager a segment opens on.
pub fn new_io_manager() -> (m: MemIO)
    ensures
        m@ == Seq::<u8>::empty(),
{
    MemIO::new()
}

} // verus!
