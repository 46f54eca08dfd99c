//! The write-ahead log: an append-only record of serialised documents.
//!
//! The log owns a fixed-size region, the image of the file it will be
//! persisted to, and a small block buffer in front of it. Writes fill the
//! buffer; a flush copies the buffer into the region at the current offset.
//! Writing past the configured size fails with `WalOverflow`. Persisting
//! the region — to a file or a memory map, as `IOType` picks — is the
//! caller's concern.
use crate::{GyError, GyResult};
use vstd::prelude::*;
use vstd::slice::slice_subrange;

verus! {

/// How the log is persisted: buffered file writes, or a memory map.
#[derive(Debug, Clone, Copy)]
pub enum IOType {
    FILEIO,
    MMAP,
}

/// Default size of a WAL file.
pub const DEFAULT_WAL_FILE_SIZE: usize = 1048576;

/// Size of the block buffer in front of the region.
pub const WAL_BLOCK_SIZE: usize = 32768;

/// The write-ahead log.
pub struct Wal {
    io_type: IOType,
    store: Vec<u8>,
    i: usize,
    buffer: Vec<u8>,
    fsize: usize,
}

impl Wal {
    /// Every byte handed to the log so far, flushed or buffered.
    pub closed spec fn written(&self) -> Seq<u8> {
        self.store@.take(self.i as int) + self.buffer@
    }

    /// The bytes already copied into the region.
    pub closed spec fn flushed(&self) -> Seq<u8> {
        self.store@.take(self.i as int)
    }

    /// The whole region, documents first, zeros beyond.
    pub closed spec fn region(&self) -> Seq<u8> {
        self.store@
    }

    pub closed spec fn spec_fsize(&self) -> int {
        self.fsize as int
    }

    pub closed spec fn spec_offset(&self) -> int {
        self.i as int
    }

    pub closed spec fn spec_io_type(&self) -> IOType {
        self.io_type
    }

    pub closed spec fn wf(&self) -> bool {
        &&& self.store@.len() == self.fsize
        &&& self.i + self.buffer@.len() <= self.fsize
        &&& self.buffer@.len() <= WAL_BLOCK_SIZE
    }

    /// A fresh log over a zeroed region of `fsize` bytes.
    pub fn new(fsize: usize, io_type: IOType) -> (r: GyResult<Wal>)
        ensures
            match r {
                Ok(w) => {
                    &&& w.wf()
                    &&& w.written() == Seq::<u8>::empty()
                    &&& w.flushed() == Seq::<u8>::empty()
                    &&& w.spec_fsize() == fsize
                    &&& w.spec_offset() == 0
                },
                Err(_) => false,
            },
    {
        let mut store: Vec<u8> = Vec::new();
        let mut k: usize = 0;
        while k < fsize
            invariant
                k <= fsize,
                store@.len() == k,
            decreases fsize - k,
        {
            store.push(0u8);
            k += 1;
        }
        let w = Wal { io_type, store, i: 0, buffer: Vec::new(), fsize };
        proof {
            assert(w.written() =~= Seq::<u8>::empty());
            assert(w.flushed() =~= Seq::<u8>::empty());
        }
        Ok(w)
    }

    /// Errs with `WalOverflow` when `size` more bytes would not fit.
    pub fn check_rotate(&self, size: usize) -> (r: GyResult<()>)
        requires
            self.wf(),
        ensures
            r is Ok <==> self.spec_offset() + size <= self.spec_fsize(),
            r is Err ==> r == GyResult::<()>::Err(GyError::WalOverflow),
    {
        if size > self.fsize - self.i {
            return Err(GyError::WalOverflow);
        }
        Ok(())
    }

    /// Copies the buffer into the region and advances the offset.
    fn do_flush(&mut self)
        requires
            old(self).wf(),
        ensures
            final(self).wf(),
            final(self).written() == old(self).written(),
            final(self).flushed() == old(self).written(),
            final(self).spec_fsize() == old(self).spec_fsize(),
            final(self).spec_offset() == old(self).written().len(),
            final(self).written().len() == final(self).spec_offset(),
            final(self).io_type == old(self).io_type,
    {
        let n = self.buffer.len();
        let mut k: usize = 0;
        while k < n
            invariant
                old(self).wf(),
                k <= n,
                n == self.buffer@.len(),
                self.buffer == old(self).buffer,
                self.i == old(self).i,
                self.fsize == old(self).fsize,
                self.io_type == old(self).io_type,
                self.store@.len() == old(self).store@.len(),
                self.i + n <= self.store@.len(),
                forall|q: int| 0 <= q < self.i + k ==> self.store@[q] == old(self).written()[q],
                forall|q: int|
                    self.i + n <= q < self.store@.len() ==> self.store@[q] == old(self).store@[q],
            decreases n - k,
        {
            let b = self.buffer[k];
            let idx = self.i + k;
            self.store[idx] = b;
            k += 1;
        }
        self.i = self.i + n;
        self.buffer.clear();
        proof {
            assert(final(self).flushed() =~= old(self).written());
            assert(final(self).written() =~= old(self).written());
        }
    }

    /// Hands the buffer to the region; after it, everything written is in
    /// the region.
    pub fn flush(&mut self) -> (r: GyResult<()>)
        requires
            old(self).wf(),
        ensures
            r is Ok,
            final(self).wf(),
            final(self).written() == old(self).written(),
            final(self).flushed() == old(self).written(),
            final(self).spec_fsize() == old(self).spec_fsize(),
            final(self).spec_offset() == old(self).written().len(),
    {
        self.do_flush();
        Ok(())
    }

    /// Appends `content`; fails with `WalOverflow`, writing nothing, when
    /// it would not fit in the region.
    pub fn write_bytes(&mut self, content: &[u8]) -> (r: GyResult<()>)
        requires
            old(self).wf(),
        ensures
            final(self).wf(),
            final(self).spec_fsize() == old(self).spec_fsize(),
            r is Ok <==> old(self).written().len() + content@.len() <= old(self).spec_fsize(),
            r is Ok ==> final(self).written() == old(self).written() + content@,
            r is Err ==> r == GyResult::<()>::Err(GyError::WalOverflow) && *final(self) == *old(
                self,
            ),
    {
        let n = content.len();
        if n > self.fsize - self.i - self.buffer.len() {
            return Err(GyError::WalOverflow);
        }
        let ghost w0 = *old(self);
        proof {
            assert(self.written() =~= w0.written() + content@.take(0));
        }
        let mut k: usize = 0;
        while k < n
            invariant
                w0.wf(),
                k <= n,
                n == content@.len(),
                self.wf(),
                self.spec_fsize() == w0.spec_fsize(),
                self.io_type == w0.io_type,
                self.written() == w0.written() + content@.take(k as int),
                self.written().len() + (n - k) <= self.spec_fsize(),
            decreases n - k,
        {
            if self.buffer.len() >= WAL_BLOCK_SIZE {
                self.do_flush();
                proof {
                    assert(self.written().len() == self.flushed().len() + self.buffer@.len());
                    assert(self.buffer@.len() == 0);
                }
            }
            let ghost wb = self.written();
            let b = content[k];
            self.buffer.push(b);
            proof {
                assert(self.written() =~= wb.push(b));
                assert(content@.take(k + 1) =~= content@.take(k as int).push(b));
                assert(wb.push(b) =~= w0.written() + content@.take(k + 1));
                assert(self.store@.len() == self.fsize);
                assert(self.buffer@.len() <= WAL_BLOCK_SIZE);
                assert(self.written().len() == self.i + self.buffer@.len());
                assert(self.i + self.buffer@.len() <= self.fsize);
            }
            k += 1;
        }
        proof {
            assert(content@.take(n as int) =~= content@);
        }
        Ok(())
    }

    /// A well-formed log's flushed prefix ends exactly at its offset.
    pub proof fn lemma_wal_len(&self)
        requires
            self.wf(),
        ensures
            self.flushed().len() == self.spec_offset(),
            self.spec_offset() <= self.spec_fsize(),
            self.written().len() >= self.flushed().len(),
            self.written().len() <= self.spec_fsize(),
            self.flushed() == self.written().take(self.spec_offset()),
            self.region().len() == self.spec_fsize(),
            self.region().take(self.spec_offset()) == self.flushed(),
    {
        assert(self.flushed() =~= self.written().take(self.spec_offset()));
        assert(self.region().take(self.spec_offset()) =~= self.flushed());
    }

    /// The flushed offset: where the next flushed byte will land.
    pub fn offset(&self) -> (r: usize)
        ensures
            r == self.spec_offset(),
    {
        self.i
    }

    /// A view of the flushed prefix of the region.
    pub fn flushed_slice(&self) -> (r: &[u8])
        requires
            self.wf(),
        ensures
            r@ == self.flushed(),
    {
        let r = slice_subrange(self.store.as_slice(), 0, self.i);
        proof {
            assert(r@ =~= self.flushed());
        }
        r
    }

    /// A view of the whole region.
    pub fn region_slice(&self) -> (r: &[u8])
        ensures
            r@ == self.region(),
    {
        self.store.as_slice()
    }

    pub fn get_io_type(&self) -> (r: IOType)
        ensures
            r == self.spec_io_type(),
    {
        self.io_type
    }
}

/// A random-access reader over the flushed part of a log.
pub struct WalReader<'a> {
    pub wal: &'a Wal,
    pub offset: usize,
}

impl<'a> WalReader<'a> {
    pub fn from(wal: &'a Wal, offset: usize) -> (r: WalReader<'a>)
        ensures
            r.wal == wal,
            r.offset == offset,
    {
        WalReader { wal, offset }
    }

    /// Deserialises the document that starts at this reader's offset.
    pub fn read_doc(&self) -> (r: GyResult<crate::schema::Document>)
        requires
            self.wal.wf(),
            self.offset <= self.wal.flushed().len(),
        ensures
            match r {
                Ok(d) => crate::schema::dec_doc(
                    self.wal.flushed().skip(self.offset as int),
                ) matches Some((dv, _)) && dv == d@,
                Err(_) => crate::schema::dec_doc(self.wal.flushed().skip(self.offset as int))
                    is None,
            },
    {
        let b = self.wal.flushed_slice();
        proof {
            assert(b@.subrange(self.offset as int, b@.len() as int) =~= self.wal.flushed().skip(
                self.offset as int,
            ));
        }
        match crate::schema::Document::binary_deserialize(b, self.offset) {
            Ok((d, _)) => Ok(d),
            Err(e) => Err(e),
        }
    }
}

} // verus!
