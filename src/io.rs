use vstd::prelude::*;
use crate::error::Error;

verus! {

/// Access to one append-only file, whose bytes are `contents`.
pub trait IOManager: Sized {
    /// The bytes that the file holds: what `size` and `read` report and what
    /// `write` extends. An implementation defines it as the bytes of its file;
    /// an implementation that Verus does not check is trusted to behave as if
    /// it did.
    spec fn contents(&self) -> Seq<u8>;

    /// Whether every read succeeds and fills as much of its buffer as the
    /// file holds from its offset on.
    spec fn reads_reliably(&self) -> bool;

    /// Opens, creating it if absent, the file of `file_id` in the directory `dir`.
    fn open(dir: &str, file_id: u32) -> (r: Result<Self, Error>)
        ensures
            r is Err ==> r->Err_0 == Error::FileOpen,
    ;

    /// The length of the file.
    fn size(&self) -> (r: Result<u64, Error>)
        ensures
            match r {
                Ok(n) => n == self.contents().len(),
                Err(e) => e == Error::FileRead,
            },
    ;

    /// Reads into the start of `buf` the bytes at `offset`: how many were read.
    /// Fewer than `buf` holds is no error (the end of the file, for one).
    fn read(&self, buf: &mut Vec<u8>, offset: u64) -> (r: Result<usize, Error>)
        ensures
            final(buf)@.len() == old(buf)@.len(),
            match r {
                Ok(n) => n <= old(buf)@.len() && (n == 0 || (offset + n <= self.contents().len()
                    && final(buf)@.subrange(0, n as int) == self.contents().subrange(
                    offset as int,
                    offset + n,
                ))),
                Err(e) => e == Error::FileRead,
            },
            self.reads_reliably() && offset <= self.contents().len() ==> r is Ok && r->Ok_0 == (if old(
                buf,
            )@.len() <= self.contents().len() - offset {
                old(buf)@.len() as int
            } else {
                self.contents().len() - offset
            }),
    ;

    /// Appends the start of `buf` to the file: how many bytes were appended.
    fn write(&mut self, buf: &[u8]) -> (r: Result<usize, Error>)
        ensures
            match r {
                Ok(n) => n <= buf@.len() && final(self).contents() == old(self).contents()
                    + buf@.subrange(0, n as int),
                Err(e) => e == Error::FileWrite && final(self).contents() == old(self).contents(),
            },
            final(self).reads_reliably() == old(self).reads_reliably(),
    ;

    /// Makes every earlier write durable.
    fn sync(&self) -> (r: Result<(), Error>)
        ensures
            r is Err ==> r->Err_0 == Error::FileSync,
    ;
}

/// A file held in memory. It can be told to fail reads, writes or syncs, or
/// to append all but the last byte of each write, to exercise failure paths.
pub struct MemIO {
    data: Vec<u8>,
    fail_reads: bool,
    fail_writes: bool,
    short_writes: bool,
    fail_syncs: bool,
}

impl MemIO {
    /// A file that holds `data`.
    pub fn from_bytes(data: Vec<u8>) -> (r: MemIO)
        ensures
            r.contents() == data@,
            r.reads_reliably(),
    {
        MemIO { data, fail_reads: false, fail_writes: false, short_writes: false, fail_syncs: false }
    }

    /// A file that holds `data` and fails as the flags say.
    pub fn with_faults(
        data: Vec<u8>,
        fail_reads: bool,
        fail_writes: bool,
        short_writes: bool,
        fail_syncs: bool,
    ) -> (r: MemIO)
        ensures
            r.contents() == data@,
    {
        MemIO { data, fail_reads, fail_writes, short_writes, fail_syncs }
    }

    /// A copy of the file's bytes.
    pub fn bytes(&self) -> (r: Vec<u8>)
        ensures
            r@ == self.contents(),
    {
        self.data.clone()
    }
}

impl IOManager for MemIO {
    closed spec fn contents(&self) -> Seq<u8> {
        self.data@
    }

    closed spec fn reads_reliably(&self) -> bool {
        !self.fail_reads
    }

    fn open(dir: &str, file_id: u32) -> (r: Result<MemIO, Error>) {
        Ok(MemIO::from_bytes(Vec::new()))
    }

    fn size(&self) -> (r: Result<u64, Error>) {
        if self.data.len() as u64 as usize != self.data.len() {
            return Err(Error::FileRead);
        }
        Ok(self.data.len() as u64)
    }

    fn read(&self, buf: &mut Vec<u8>, offset: u64) -> (r: Result<usize, Error>) {
        if self.fail_reads {
            return Err(Error::FileRead);
        }
        let len = self.data.len();
        if offset as usize as u64 != offset || offset as usize >= len {
            return Ok(0);
        }
        let start = offset as usize;
        let mut i: usize = 0;
        while i < buf.len() && start + i < len
            invariant
                start < len == self.data@.len(),
                start == offset,
                i <= buf@.len() == old(buf)@.len(),
                start + i <= len,
                buf@.subrange(0, i as int) == self.data@.subrange(start as int, start + i),
            decreases buf@.len() - i,
        {
            buf.set(i, self.data[start + i]);
            i = i + 1;
            proof {
                assert(buf@.subrange(0, i as int) =~= self.data@.subrange(start as int, start + i));
            }
        }
        Ok(i)
    }

    fn write(&mut self, buf: &[u8]) -> (r: Result<usize, Error>) {
        if self.fail_writes {
            return Err(Error::FileWrite);
        }
        let n: usize = if self.short_writes && buf.len() > 0 {
            buf.len() - 1
        } else {
            buf.len()
        };
        let mut i: usize = 0;
        while i < n
            invariant
                n <= buf@.len(),
                i <= n,
                self.fail_reads == old(self).fail_reads,
                self.data@ == old(self).data@ + buf@.subrange(0, i as int),
            decreases n - i,
        {
            self.data.push(buf[i]);
            i = i + 1;
            proof {
                assert(self.data@ =~= old(self).data@ + buf@.subrange(0, i as int));
            }
        }
        Ok(i)
    }

    fn sync(&self) -> (r: Result<(), Error>) {
        if self.fail_syncs {
            return Err(Error::FileSync);
        }
        Ok(())
    }
}

} // verus!
