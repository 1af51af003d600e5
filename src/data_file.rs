use vstd::prelude::*;
use crate::error::Error;
use crate::io::IOManager;
use crate::log_record::{
    decode, decode_spec, lemma_decode_prefix, lemma_parse_varint_len, lemma_parse_varint_prefix,
    parse_varint, record_len, record_len_spec, LogRecord, RecordView, MAX_HEADER_LEN, MAX_VARINT_LEN,
};

verus! {

/// A vector of `n` zero bytes.
fn zeroed(n: usize) -> (r: Vec<u8>)
    ensures
        r@.len() == n,
{
    let mut r: Vec<u8> = Vec::new();
    while r.len() < n
        invariant
            r@.len() <= n,
        decreases n - r@.len(),
    {
        r.push(0);
    }
    r
}

/// One append-only segment: its number, its file, and the offset at which the
/// next append lands.
pub struct DataFile<M: IOManager> {
    file_id: u32,
    write_offset: u64,
    io: M,
}

impl<M: IOManager> DataFile<M> {
    /// The file's number.
    pub closed spec fn id(&self) -> u32 {
        self.file_id
    }

    /// The bytes that the file holds.
    pub closed spec fn contents(&self) -> Seq<u8> {
        self.io.contents()
    }

    /// Whether the file's reads succeed and fill as much as it holds.
    pub closed spec fn io_reads_reliably(&self) -> bool {
        self.io.reads_reliably()
    }

    /// The write offset is the end of the file.
    pub closed spec fn wf(&self) -> bool {
        self.write_offset == self.io.contents().len()
    }

    /// Opens, creating it if absent, the file of `file_id` in `dir`, to append
    /// after what it holds.
    pub fn new(dir: &str, file_id: u32) -> (r: Result<DataFile<M>, Error>)
        ensures
            r is Ok ==> r->Ok_0.wf() && r->Ok_0.id() == file_id,
            r is Err ==> r->Err_0 == Error::FileOpen || r->Err_0 == Error::FileRead,
    {
        let io = match M::open(dir, file_id) {
            Ok(io) => io,
            Err(e) => return Err(e),
        };
        DataFile::from_io(io, file_id)
    }

    /// The data file of number `file_id` over a file already opened.
    pub fn from_io(io: M, file_id: u32) -> (r: Result<DataFile<M>, Error>)
        ensures
            r is Ok ==> r->Ok_0.wf() && r->Ok_0.id() == file_id && r->Ok_0.contents()
                == io.contents(),
            r is Err ==> r->Err_0 == Error::FileRead,
    {
        let write_offset = match io.size() {
            Ok(n) => n,
            Err(e) => return Err(e),
        };
        Ok(DataFile { file_id, write_offset, io })
    }

    /// The file underneath.
    pub fn into_io(self) -> (r: M)
        ensures
            r.contents() == self.contents(),
    {
        self.io
    }

    /// The file underneath, borrowed.
    pub fn io(&self) -> (r: &M)
        ensures
            r.contents() == self.contents(),
    {
        &self.io
    }

    /// The file's number.
    pub fn file_id(&self) -> (r: u32)
        ensures
            r == self.id(),
    {
        self.file_id
    }

    /// The offset at which the next append lands.
    pub fn write_offset(&self) -> (r: u64)
        requires
            self.wf(),
        ensures
            r == self.contents().len(),
    {
        self.write_offset
    }

    /// Appends `buf`. On failure what was already appended of it stays.
    pub fn write(&mut self, buf: &[u8]) -> (r: Result<(), Error>)
        requires
            old(self).wf(),
            old(self).contents().len() + buf@.len() <= u64::MAX,
        ensures
            final(self).wf(),
            final(self).id() == old(self).id(),
            final(self).io_reads_reliably() == old(self).io_reads_reliably(),
            r is Ok ==> final(self).contents() == old(self).contents() + buf@,
            r is Err ==> r->Err_0 == Error::FileWrite,
            r is Err ==> old(self).contents().len() <= final(self).contents().len(),
            r is Err ==> final(self).contents().subrange(0, old(self).contents().len() as int)
                == old(self).contents(),
    {
        let ghost before = self.io.contents();
        let res = self.io.write(buf);
        match res {
            Ok(n) => {
                self.write_offset = self.write_offset + n as u64;
                proof {
                    assert(self.io.contents().subrange(0, before.len() as int) =~= before);
                }
                if n < buf.len() {
                    return Err(Error::FileWrite);
                }
                proof {
                    assert(buf@.subrange(0, n as int) =~= buf@);
                }
                Ok(())
            },
            Err(e) => {
                proof {
                    assert(self.io.contents().subrange(0, before.len() as int) =~= before);
                }
                Err(e)
            },
        }
    }

    /// Makes every earlier append durable.
    pub fn sync(&self) -> (r: Result<(), Error>)
        ensures
            r is Err ==> r->Err_0 == Error::FileSync,
    {
        self.io.sync()
    }

    /// Reads the record that starts at `offset`: the record and how many bytes
    /// it takes. Reads the header first, then the whole record.
    pub fn read_record(&self, offset: u64) -> (r: Result<(LogRecord, usize), Error>)
        requires
            self.wf(),
            offset <= self.contents().len(),
        ensures
            r is Ok ==> decode_spec(self.contents().subrange(offset as int, self.contents().len() as int))
                == Ok::<(RecordView, nat), Error>((r->Ok_0.0@, r->Ok_0.1 as nat)),
            r is Err ==> r->Err_0 == Error::FileRead || r->Err_0 == Error::Truncated || r->Err_0
                == Error::CorruptRecord,
            self.io_reads_reliably() && self.contents().len() <= usize::MAX && decode_spec(
                self.contents().subrange(offset as int, self.contents().len() as int),
            ) is Ok ==> r is Ok,
    {
        let ghost c = self.io.contents();
        let ghost t = c.subrange(offset as int, c.len() as int);
        let remaining: u64 = self.write_offset - offset;
        let hlen: usize = if remaining < MAX_HEADER_LEN as u64 {
            remaining as usize
        } else {
            MAX_HEADER_LEN
        };
        let mut hdr = zeroed(hlen);
        let got = match self.io.read(&mut hdr, offset) {
            Ok(n) => n,
            Err(e) => return Err(e),
        };
        if got < hlen {
            return Err(Error::Truncated);
        }
        proof {
            if self.io.reads_reliably() && c.len() <= usize::MAX && decode_spec(t) is Ok {
                assert(got == hlen);
                assert(hdr@ =~= t.subrange(0, hlen as int));
                let t5 = t.subrange(5, t.len() as int);
                let h5 = hdr@.subrange(5, hdr@.len() as int);
                lemma_parse_varint_len(t5, MAX_VARINT_LEN as nat);
                let (klen, a) = parse_varint(t5, MAX_VARINT_LEN as nat)->Ok_0;
                let ta = t.subrange(5 + a as int, t.len() as int);
                lemma_parse_varint_len(ta, MAX_VARINT_LEN as nat);
                let (vlen, b) = parse_varint(ta, MAX_VARINT_LEN as nat)->Ok_0;
                assert(5 + a + b <= hlen);
                assert(h5.subrange(0, a as int) =~= t5.subrange(0, a as int));
                lemma_parse_varint_prefix(t5, h5, MAX_VARINT_LEN as nat);
                let ha = hdr@.subrange(5 + a as int, hdr@.len() as int);
                assert(ha.subrange(0, b as int) =~= ta.subrange(0, b as int));
                lemma_parse_varint_prefix(ta, ha, MAX_VARINT_LEN as nat);
                assert(record_len_spec(hdr@) == Ok::<nat, Error>(decode_spec(t)->Ok_0.1));
            }
        }
        let total = match record_len(hdr.as_slice()) {
            Ok(n) => n,
            Err(e) => return Err(e),
        };
        if total as u64 > remaining || total as u64 as usize != total {
            return Err(Error::Truncated);
        }
        let mut buf = zeroed(total);
        let got = match self.io.read(&mut buf, offset) {
            Ok(n) => n,
            Err(e) => return Err(e),
        };
        if got < total {
            return Err(Error::Truncated);
        }
        proof {
            assert(buf@.subrange(0, total as int) =~= buf@);
            if self.io.reads_reliably() && c.len() <= usize::MAX && decode_spec(t) is Ok {
                assert(buf@ =~= t.subrange(0, total as int));
                assert(buf@.subrange(0, total as int) =~= t.subrange(0, total as int));
                lemma_decode_prefix(t, buf@);
            }
        }
        match decode(buf.as_slice()) {
            Ok((rec, n)) => {
                proof {
                    let t = c.subrange(offset as int, c.len() as int);
                    assert(t.subrange(0, n as int) =~= buf@.subrange(0, n as int));
                    lemma_decode_prefix(buf@, t);
                }
                Ok((rec, n))
            },
            Err(e) => Err(e),
        }
    }
}

} // verus!
