use vstd::prelude::*;
use crate::data_file::DataFile;
use crate::error::Error;
use crate::index::{BTree, Indexer};
use crate::io::{IOManager, MemIO};
use crate::log_record::{
    copy_range, decode_spec, encode_spec, lemma_scan_step, scan, lemma_decode_encode, lemma_decode_prefix, LogRecord,
    LogRecordPos, LogRecordStatus, RecordView,
};

verus! {

/// How an engine stores its data.
pub struct Config {
    /// Directory where data files are stored.
    pub data_file_dir: String,
    /// Size past which the active data file is closed and a new one started.
    pub max_data_file_size: u64,
    /// Whether every append is made durable before the call returns.
    pub sync_writes: bool,
}

/// What the first data file of `files` whose number is `fid` holds.
pub open spec fn find_file<M: IOManager>(files: Seq<DataFile<M>>, fid: u32) -> Option<Seq<u8>>
    decreases files.len(),
{
    if files.len() == 0 {
        None
    } else if files[0].id() == fid {
        Some(files[0].contents())
    } else {
        find_file(files.drop_first(), fid)
    }
}

/// The record that decodes at `off` in `c`, if one does.
pub open spec fn record_at(c: Seq<u8>, off: int) -> Option<RecordView> {
    if 0 <= off <= c.len() && decode_spec(c.subrange(off, c.len() as int)) is Ok {
        Some(decode_spec(c.subrange(off, c.len() as int))->Ok_0.0)
    } else {
        None
    }
}

/// The record that stands for `key` holding `value`.
pub open spec fn live_record(key: Seq<u8>, value: Seq<u8>) -> RecordView {
    RecordView { key, value, status: LogRecordStatus::Normal }
}

proof fn lemma_find_file_push<M: IOManager>(files: Seq<DataFile<M>>, f: DataFile<M>, fid: u32)
    ensures
        find_file(files.push(f), fid) == (if (find_file(files, fid) is Some) {
            find_file(files, fid)
        } else if f.id() == fid {
            Some(f.contents())
        } else {
            None
        }),
    decreases files.len(),
{
    if files.len() > 0 {
        assert(files.push(f)[0] == files[0]);
        assert(files.push(f).drop_first() =~= files.drop_first().push(f));
        lemma_find_file_push(files.drop_first(), f, fid);
        if files[0].id() != fid {
            assert(find_file(files.push(f), fid) == find_file(files.drop_first().push(f), fid));
            assert(find_file(files, fid) == find_file(files.drop_first(), fid));
        }
    } else {
        assert(files.push(f)[0] == f);
        assert(files.push(f).drop_first() =~= Seq::<DataFile<M>>::empty());
        assert(find_file(Seq::<DataFile<M>>::empty(), fid) is None);
        assert(find_file(files, fid) is None);
        if f.id() == fid {
            assert(find_file(files.push(f), fid) == Some(f.contents()));
        } else {
            assert(find_file(files.push(f), fid) == find_file(files.push(f).drop_first(), fid));
            assert(find_file(files.push(f), fid) is None);
        }
    }
}

/// What `live` becomes once the record `r` is replayed: a normal record sets
/// its key's value, a deleted one removes the key.
pub open spec fn replay(live: Map<Seq<u8>, Seq<u8>>, r: RecordView) -> Map<Seq<u8>, Seq<u8>> {
    match r.status {
        LogRecordStatus::Normal => live.insert(r.key, r.value),
        LogRecordStatus::Deleted => live.remove(r.key),
    }
}

/// What the live keys become once `rs` is replayed in order from `live`.
pub open spec fn replay_all(live: Map<Seq<u8>, Seq<u8>>, rs: Seq<RecordView>) -> Map<Seq<u8>, Seq<u8>>
    decreases rs.len(),
{
    if rs.len() == 0 {
        live
    } else {
        replay_all(replay(live, rs[0]), rs.drop_first())
    }
}

/// What the live keys become once the records that a scan reads from each of
/// `files` are replayed, file after file, from `live`.
pub open spec fn replay_files<M: IOManager>(live: Map<Seq<u8>, Seq<u8>>, files: Seq<DataFile<M>>) -> Map<Seq<u8>, Seq<u8>>
    decreases files.len(),
{
    if files.len() == 0 {
        live
    } else {
        replay_all(replay_files(live, files.drop_last()), scan(files.last().contents()))
    }
}

proof fn lemma_replay_all_push(live: Map<Seq<u8>, Seq<u8>>, rs: Seq<RecordView>, r: RecordView)
    ensures
        replay_all(live, rs.push(r)) == replay(replay_all(live, rs), r),
    decreases rs.len(),
{
    if rs.len() > 0 {
        assert(rs.push(r)[0] == rs[0]);
        assert(rs.push(r).drop_first() =~= rs.drop_first().push(r));
        lemma_replay_all_push(replay(live, rs[0]), rs.drop_first(), r);
    } else {
        assert(rs.push(r)[0] == r);
        assert(rs.push(r).drop_first() =~= Seq::<RecordView>::empty());
        assert(replay_all(replay(live, r), Seq::<RecordView>::empty()) == replay(live, r));
    }
}

proof fn lemma_scan_advance(c: Seq<u8>, off: int, scanned: Seq<RecordView>)
    requires
        0 <= off <= c.len(),
        scan(c) == scanned + scan(c.subrange(off, c.len() as int)),
        decode_spec(c.subrange(off, c.len() as int)) is Ok,
    ensures
        ({
            let d = decode_spec(c.subrange(off, c.len() as int))->Ok_0;
            &&& off + d.1 <= c.len()
            &&& scan(c) == scanned.push(d.0) + scan(c.subrange(off + d.1, c.len() as int))
        }),
{
    let t = c.subrange(off, c.len() as int);
    let d = decode_spec(t)->Ok_0;
    lemma_scan_step(t);
    assert(t.subrange(d.1 as int, t.len() as int) =~= c.subrange(off + d.1, c.len() as int));
    assert(scan(c) =~= scanned.push(d.0) + scan(c.subrange(off + d.1, c.len() as int)));
}

proof fn lemma_scan_end(c: Seq<u8>, off: int, scanned: Seq<RecordView>)
    requires
        0 <= off <= c.len(),
        scan(c) == scanned + scan(c.subrange(off, c.len() as int)),
        off == c.len() || decode_spec(c.subrange(off, c.len() as int)) is Err,
    ensures
        scan(c) == scanned,
{
    let t = c.subrange(off, c.len() as int);
    if off == c.len() {
        assert(t =~= Seq::<u8>::empty());
        assert(decode_spec(t) is Err);
    }
    lemma_scan_step(t);
    assert(scanned + Seq::<RecordView>::empty() =~= scanned);
}

proof fn lemma_find_file_distinct<M: IOManager>(files: Seq<DataFile<M>>, i: int)
    requires
        0 <= i < files.len(),
        forall|a: int, b: int| 0 <= a < b < files.len() ==> #[trigger] files[a].id() < #[trigger] files[b].id(),
    ensures
        find_file(files, files[i].id()) == Some(files[i].contents()),
    decreases i,
{
    if i > 0 {
        let d = files.drop_first();
        assert(files[0].id() < files[i].id());
        assert(d[i - 1] == files[i]);
        assert forall|a: int, b: int| 0 <= a < b < d.len() implies #[trigger] d[a].id() < #[trigger] d[b].id() by {
            assert(d[a] == files[a + 1]);
            assert(d[b] == files[b + 1]);
        }
        lemma_find_file_distinct(d, i - 1);
    }
}

proof fn lemma_find_file_below<M: IOManager>(files: Seq<DataFile<M>>, fid: u32, bound: u32)
    requires
        forall|i: int| 0 <= i < files.len() ==> #[trigger] files[i].id() < bound,
        find_file(files, fid) is Some,
    ensures
        fid < bound,
    decreases files.len(),
{
    if files[0].id() != fid {
        assert forall|i: int| 0 <= i < files.drop_first().len() implies #[trigger] files.drop_first()[i].id()
            < bound by {
            assert(files.drop_first()[i] == files[i + 1]);
        }
        lemma_find_file_below(files.drop_first(), fid, bound);
    }
}

/// A key-value store over append-only data files: one active file that takes
/// appends, older files that are only read, and an index from each live key to
/// the position of its latest record.
///
/// The older files stand in a vector in ascending order of their numbers, not
/// in a map by number: the contracts speak of what each file holds through
/// its trait's model, and the proofs of rotation and recovery follow that
/// order file by file.
pub struct Engine<M: IOManager> {
    config: Config,
    active_file: DataFile<M>,
    older_files: Vec<DataFile<M>>,
    index: BTree,
    live: Ghost<Map<Seq<u8>, Seq<u8>>>,
}

impl<M: IOManager> Engine<M> {
    /// The value of each live key.
    pub closed spec fn live(&self) -> Map<Seq<u8>, Seq<u8>> {
        self.live@
    }

    /// What the data file of number `fid` holds, if the engine has it.
    pub closed spec fn file_contents(&self, fid: u32) -> Option<Seq<u8>> {
        if fid == self.active_file.id() {
            Some(self.active_file.contents())
        } else {
            find_file(self.older_files@, fid)
        }
    }

    /// The number of the active data file.
    pub closed spec fn active_id(&self) -> u32 {
        self.active_file.id()
    }

    /// The bytes of the active data file.
    pub closed spec fn active_contents(&self) -> Seq<u8> {
        self.active_file.contents()
    }

    /// The length of the active data file.
    pub closed spec fn active_len(&self) -> nat {
        self.active_file.contents().len()
    }

    /// The size past which the active file is replaced.
    pub closed spec fn max_file_size(&self) -> u64 {
        self.config.max_data_file_size
    }

    /// Whether every data file reads reliably and its length fits in `usize`.
    pub closed spec fn reads_reliably(&self) -> bool {
        &&& self.active_file.io_reads_reliably()
        &&& self.active_file.contents().len() <= usize::MAX
        &&& forall|i: int|
            0 <= i < self.older_files@.len() ==> (#[trigger] self.older_files@[i]).io_reads_reliably()
                && self.older_files@[i].contents().len() <= usize::MAX
    }

    /// How many data files the engine holds.
    pub closed spec fn num_files(&self) -> nat {
        self.older_files@.len() + 1
    }

    /// The index entry of `k` names a record of the engine that holds `k`'s value.
    pub closed spec fn located(&self, k: Seq<u8>) -> bool {
        let p = self.index.index_map()[k];
        &&& self.file_contents(p.file_id) is Some
        &&& record_at(self.file_contents(p.file_id)->Some_0, p.offset as int) == Some(
            live_record(k, self.live@[k]),
        )
    }

    /// The engine's invariant: files well formed, older files numbered below the
    /// active one, and every live key indexed at a record with its value.
    pub closed spec fn inv(&self) -> bool {
        &&& self.active_file.wf()
        &&& self.older_files@.len() < usize::MAX
        &&& forall|i: int| 0 <= i < self.older_files@.len() ==> (#[trigger] self.older_files@[i]).wf()
        &&& forall|i: int|
            0 <= i < self.older_files@.len() ==> (#[trigger] self.older_files@[i]).id()
                < self.active_file.id()
        &&& self.index.inv()
        &&& self.index.index_map().dom() == self.live@.dom()
        &&& forall|k: Seq<u8>| #[trigger] self.live@.contains_key(k) ==> self.located(k)
    }

    /// Makes the active file an older one and starts the next file as active.
    fn rotate(&mut self) -> (r: Result<(), Error>)
        requires
            old(self).inv(),
        ensures
            final(self).inv(),
            final(self).live() == old(self).live(),
            final(self).index.index_map() == old(self).index.index_map(),
            final(self).config == old(self).config,
            r is Ok ==> final(self).num_files() == old(self).num_files() + 1,
            r is Ok ==> final(self).active_id() == old(self).active_id() + 1,
            r is Ok ==> forall|fid: u32|
                fid != final(self).active_id() ==> #[trigger] final(self).file_contents(fid)
                    == old(self).file_contents(fid),
            r is Err ==> *final(self) == *old(self),
            old(self).active_id() == u32::MAX ==> r == Err::<(), Error>(Error::FileOpen),
            r is Err ==> r->Err_0 == Error::FileOpen || r->Err_0 == Error::FileRead || r->Err_0
                == Error::FileSync,
    {
        let id = self.active_file.file_id();
        if id == u32::MAX || self.older_files.len() >= usize::MAX - 1 {
            return Err(Error::FileOpen);
        }
        match self.active_file.sync() {
            Ok(()) => {},
            Err(e) => return Err(e),
        }
        let mut next = match DataFile::new(self.config.data_file_dir.as_str(), id + 1) {
            Ok(f) => f,
            Err(e) => return Err(e),
        };
        let ghost pre = *self;
        core::mem::swap(&mut self.active_file, &mut next);
        self.older_files.push(next);
        proof {
            assert forall|fid: u32| fid != id + 1 implies #[trigger] self.file_contents(fid)
                == pre.file_contents(fid) by {
                lemma_find_file_push(pre.older_files@, pre.active_file, fid);
                if fid != id && find_file(pre.older_files@, fid) is Some {
                    lemma_find_file_below(pre.older_files@, fid, id);
                }
                if fid == id && find_file(pre.older_files@, fid) is Some {
                    lemma_find_file_below(pre.older_files@, fid, id);
                }
            }
            assert forall|k: Seq<u8>| #[trigger] self.live@.contains_key(k) implies self.located(
                k,
            ) by {
                assert(pre.located(k));
                let p = pre.index.index_map()[k];
                if p.file_id != id {
                    lemma_find_file_below(pre.older_files@, p.file_id, id);
                }
                assert(self.file_contents(p.file_id) == pre.file_contents(p.file_id));
            }
            assert forall|i: int| 0 <= i < self.older_files@.len() implies (
            #[trigger] self.older_files@[i]).id() < self.active_file.id() by {
                if i < pre.older_files@.len() {
                    assert(self.older_files@[i] == pre.older_files@[i]);
                }
            }
            assert forall|i: int| 0 <= i < self.older_files@.len() implies (
            #[trigger] self.older_files@[i]).wf() by {
                if i < pre.older_files@.len() {
                    assert(self.older_files@[i] == pre.older_files@[i]);
                }
            }
        }
        Ok(())
    }

    /// Appends `rec` to the active file, first starting a new active file if
    /// `rec` would take the active one past the configured size. Returns where
    /// `rec` starts.
    #[verifier::rlimit(100)]
    fn append_log_record(&mut self, rec: &LogRecord) -> (r: Result<LogRecordPos, Error>)
        requires
            old(self).inv(),
        ensures
            final(self).inv(),
            final(self).live() == old(self).live(),
            final(self).index.index_map() == old(self).index.index_map(),
            final(self).max_file_size() == old(self).max_file_size(),
            r is Ok ==> final(self).num_files() == if old(self).active_len() + encode_spec(rec@).len()
                > old(self).max_file_size() {
                old(self).num_files() + 1
            } else {
                old(self).num_files()
            },
            r is Ok ==> r->Ok_0.file_id == final(self).active_id() && r->Ok_0.offset
                + encode_spec(rec@).len() == final(self).active_len() && final(self).active_contents().subrange(
                r->Ok_0.offset as int,
                final(self).active_len() as int,
            ) == encode_spec(rec@),
            old(self).active_len() + encode_spec(rec@).len() <= old(self).max_file_size()
                ==> final(self).active_id() == old(self).active_id(),
            old(self).active_len() + encode_spec(rec@).len() <= old(self).max_file_size()
                ==> final(self).active_len() >= old(self).active_len(),
            old(self).active_len() + encode_spec(rec@).len() <= old(self).max_file_size()
                ==> final(self).active_contents().subrange(0, old(self).active_len() as int)
                == old(self).active_contents(),
            old(self).active_len() + encode_spec(rec@).len() <= old(self).max_file_size() && r is Ok
                ==> r->Ok_0.offset == old(self).active_len() && final(self).active_contents() == old(
                self).active_contents() + encode_spec(rec@),
            old(self).active_len() + encode_spec(rec@).len() > old(self).max_file_size() && r is Ok
                ==> final(self).active_id() == old(self).active_id() + 1,
            old(self).active_len() + encode_spec(rec@).len() > old(self).max_file_size()
                && old(self).active_id() == u32::MAX ==> r == Err::<LogRecordPos, Error>(
                Error::FileOpen,
            ),
            r is Ok ==> forall|fid: u32|
                fid != final(self).active_id() ==> #[trigger] final(self).file_contents(fid)
                    == old(self).file_contents(fid),
            old(self).active_len() + encode_spec(rec@).len() <= old(self).max_file_size()
                && old(self).reads_reliably() && final(self).active_len() <= usize::MAX
                ==> final(self).reads_reliably(),
            old(self).active_len() + encode_spec(rec@).len() <= old(self).max_file_size()
                ==> final(self).num_files() == old(self).num_files() && forall|fid: u32|
                fid != final(self).active_id() ==> #[trigger] final(self).file_contents(fid)
                    == old(self).file_contents(fid),
            r is Ok ==> final(self).file_contents(r->Ok_0.file_id) is Some && record_at(
                final(self).file_contents(r->Ok_0.file_id)->Some_0,
                r->Ok_0.offset as int,
            ) == Some(rec@),
            r is Err ==> r->Err_0 == Error::FileOpen || r->Err_0 == Error::FileRead || r->Err_0
                == Error::FileWrite || r->Err_0 == Error::FileSync,
    {
        let bytes = rec.encode();
        let off = self.active_file.write_offset();
        if bytes.len() as u64 as usize != bytes.len() {
            return Err(Error::FileWrite);
        }
        let len = bytes.len() as u64;
        let max = self.config.max_data_file_size;
        if off > max || len > max - off {
            match self.rotate() {
                Ok(()) => {},
                Err(e) => return Err(e),
            }
        }
        let ghost mid = *self;
        let off = match self.write_active(&bytes, Ghost(rec@)) {
            Ok(o) => o,
            Err(e) => return Err(e),
        };
        proof {
            assert forall|fid: u32| fid != self.active_id() implies #[trigger] self.file_contents(fid)
                == mid.file_contents(fid) by {}
        }
        Ok(LogRecordPos { file_id: self.active_file.file_id(), offset: off })
    }

    /// Appends `bytes`, the encoding of `rv`, to the active file, and makes it
    /// durable there if the engine syncs every write. Returns where it starts.
    fn write_active(&mut self, bytes: &Vec<u8>, Ghost(rv): Ghost<RecordView>) -> (r: Result<u64, Error>)
        requires
            old(self).inv(),
            bytes@ == encode_spec(rv),
        ensures
            final(self).inv(),
            final(self).live() == old(self).live(),
            final(self).index.index_map() == old(self).index.index_map(),
            final(self).config == old(self).config,
            final(self).older_files == old(self).older_files,
            final(self).active_id() == old(self).active_id(),
            final(self).active_file.io_reads_reliably() == old(self).active_file.io_reads_reliably(),
            final(self).active_len() >= old(self).active_len(),
            final(self).active_contents().subrange(0, old(self).active_len() as int)
                == old(self).active_contents(),
            old(self).active_len() + bytes@.len() > u64::MAX ==> r == Err::<u64, Error>(
                Error::FileWrite,
            ) && *final(self) == *old(self),
            r is Ok ==> r->Ok_0 == old(self).active_len(),
            r is Ok ==> final(self).active_contents() == old(self).active_contents() + bytes@,
            r is Ok ==> record_at(final(self).active_contents(), r->Ok_0 as int) == Some(rv),
            r is Err ==> r->Err_0 == Error::FileWrite || r->Err_0 == Error::FileSync,
    {
        let off = self.active_file.write_offset();
        if bytes.len() as u64 as usize != bytes.len() || bytes.len() as u64 > u64::MAX - off {
            proof {
                assert(self.active_file.contents().subrange(0, off as int) =~= self.active_file.contents());
            }
            return Err(Error::FileWrite);
        }
        let ghost pre = *self;
        let ghost c = self.active_file.contents();
        let res = self.active_file.write(bytes.as_slice());
        proof {
            let c2 = self.active_file.contents();
            let aid = self.active_file.id();
            assert(c2.subrange(0, c.len() as int) == c);
            assert forall|k: Seq<u8>| #[trigger] self.live@.contains_key(k) implies self.located(
                k,
            ) by {
                assert(pre.located(k));
                let p = pre.index.index_map()[k];
                if p.file_id == aid {
                    let s = c.subrange(p.offset as int, c.len() as int);
                    let t = c2.subrange(p.offset as int, c2.len() as int);
                    let n = decode_spec(s)->Ok_0.1;
                    assert(t.subrange(0, n as int) =~= s.subrange(0, n as int));
                    lemma_decode_prefix(s, t);
                }
            }
        }
        match res {
            Ok(()) => {},
            Err(e) => return Err(e),
        }
        proof {
            let c2 = self.active_file.contents();
            assert(c2.subrange(off as int, c2.len() as int) =~= bytes@ + Seq::<u8>::empty());
            lemma_decode_encode(rv, Seq::<u8>::empty());
        }
        if self.config.sync_writes {
            match self.active_file.sync() {
                Ok(()) => {},
                Err(e) => return Err(e),
            }
        }
        Ok(off)
    }

    /// Stores `value` under `key`. The key cannot be empty.
    #[verifier::rlimit(100)]
    #[verifier::spinoff_prover]
    pub fn put(&mut self, key: Vec<u8>, value: Vec<u8>) -> (r: Result<(), Error>)
        requires
            old(self).inv(),
        ensures
            final(self).inv(),
            key@.len() == 0 ==> r == Err::<(), Error>(Error::EmptyKey) && *final(self) == *old(
                self,
            ),
            key@.len() > 0 ==> r != Err::<(), Error>(Error::EmptyKey),
            r is Ok ==> final(self).live() == old(self).live().insert(key@, value@),
            r is Ok ==> final(self).active_len() >= encode_spec(live_record(key@, value@)).len()
                && final(self).active_contents().subrange(
                final(self).active_len() - encode_spec(live_record(key@, value@)).len(),
                final(self).active_len() as int,
            ) == encode_spec(live_record(key@, value@)),
            r is Ok ==> forall|fid: u32|
                fid != final(self).active_id() ==> #[trigger] final(self).file_contents(fid)
                    == old(self).file_contents(fid),
            old(self).reads_reliably() && old(self).active_len() + encode_spec(
                live_record(key@, value@),
            ).len() <= old(self).max_file_size() && final(self).active_len() <= usize::MAX
                ==> final(self).reads_reliably(),
            key@.len() > 0 && old(self).active_len() + encode_spec(live_record(key@, value@)).len()
                > old(self).max_file_size() && old(self).active_id() == u32::MAX ==> r == Err::<
                (),
                Error,
            >(Error::FileOpen),
            r is Ok && old(self).active_len() + encode_spec(live_record(key@, value@)).len()
                > old(self).max_file_size() ==> final(self).active_id() == old(self).active_id() + 1,
            r is Ok && old(self).active_len() + encode_spec(live_record(key@, value@)).len()
                <= old(self).max_file_size() ==> final(self).active_id() == old(self).active_id()
                && final(self).active_contents() == old(self).active_contents() + encode_spec(
                live_record(key@, value@),
            ),
            r is Ok ==> final(self).num_files() == if old(self).active_len() + encode_spec(
                live_record(key@, value@),
            ).len() > old(self).max_file_size() {
                old(self).num_files() + 1
            } else {
                old(self).num_files()
            },
            r is Err ==> final(self).live() == old(self).live(),
            r is Err ==> r->Err_0 == Error::EmptyKey || r->Err_0 == Error::FileOpen || r->Err_0
                == Error::FileRead || r->Err_0 == Error::FileWrite || r->Err_0 == Error::FileSync,
    {
        if key.len() == 0 {
            return Err(Error::EmptyKey);
        }
        let ghost k = key@;
        let ghost v = value@;
        let index_key = key.clone();
        let rec = LogRecord { key, value, status: LogRecordStatus::Normal };
        let pos = match self.append_log_record(&rec) {
            Ok(p) => p,
            Err(e) => return Err(e),
        };
        let ghost mid = *self;
        if !self.index.put(index_key, pos) {
            return Err(Error::IndexUpdate);
        }
        self.live = Ghost(self.live@.insert(k, v));
        proof {
            assert(self.active_file == mid.active_file && self.older_files == mid.older_files);
            assert(forall|fid: u32| #[trigger] self.file_contents(fid) == mid.file_contents(fid));
            assert(rec@ == live_record(k, v));
            assert(self.index.index_map().dom() =~= self.live@.dom());
            assert forall|kk: Seq<u8>| #[trigger] self.live@.contains_key(kk) implies self.located(
                kk,
            ) by {
                if kk != k {
                    assert(mid.located(kk));
                }
            }
        }
        Ok(())
    }

    /// The data file of number `fid`, if the engine holds it.
    fn data_file(&self, fid: u32) -> (r: Option<&DataFile<M>>)
        requires
            self.inv(),
        ensures
            match r {
                Some(f) => f.wf() && self.file_contents(fid) == Some(f.contents()) && (
                self.reads_reliably() ==> f.io_reads_reliably() && f.contents().len() <= usize::MAX),
                None => self.file_contents(fid) is None,
            },
    {
        if fid == self.active_file.file_id() {
            return Some(&self.active_file);
        }
        let mut i: usize = 0;
        assert(self.older_files@.subrange(0, self.older_files@.len() as int) =~= self.older_files@);
        while i < self.older_files.len()
            invariant
                self.inv(),
                fid != self.active_file.id(),
                i <= self.older_files@.len(),
                find_file(self.older_files@, fid) == find_file(
                    self.older_files@.subrange(i as int, self.older_files@.len() as int),
                    fid,
                ),
            decreases self.older_files@.len() - i,
        {
            let ghost rest = self.older_files@.subrange(i as int, self.older_files@.len() as int);
            assert(rest[0] == self.older_files@[i as int]);
            if self.older_files[i].file_id() == fid {
                return Some(&self.older_files[i]);
            }
            assert(rest.drop_first() =~= self.older_files@.subrange(
                i + 1,
                self.older_files@.len() as int,
            ));
            i = i + 1;
        }
        None
    }

    /// The value stored under `key`.
    pub fn get(&self, key: &[u8]) -> (r: Result<Vec<u8>, Error>)
        requires
            self.inv(),
        ensures
            key@.len() == 0 ==> r == Err::<Vec<u8>, Error>(Error::EmptyKey),
            key@.len() > 0 ==> r != Err::<Vec<u8>, Error>(Error::EmptyKey),
            key@.len() > 0 ==> (r == Err::<Vec<u8>, Error>(Error::KeyNotFound) <==> !self.live().contains_key(key@)),
            r is Ok ==> self.live().contains_key(key@) && r->Ok_0@ == self.live()[key@],
            self.reads_reliably() && key@.len() > 0 && self.live().contains_key(key@) ==> r is Ok,
            r is Err ==> r->Err_0 == Error::EmptyKey || r->Err_0 == Error::KeyNotFound || r->Err_0
                == Error::FileRead || r->Err_0 == Error::Truncated || r->Err_0
                == Error::CorruptRecord,
    {
        if key.len() == 0 {
            return Err(Error::EmptyKey);
        }
        let pos = match self.index.get(key) {
            Some(p) => p,
            None => return Err(Error::KeyNotFound),
        };
        proof {
            assert(self.live@.contains_key(key@));
            assert(self.located(key@));
        }
        let file = match self.data_file(pos.file_id) {
            Some(f) => f,
            None => return Err(Error::DataFileNotFound),
        };
        let rec = match file.read_record(pos.offset) {
            Ok((rec, _)) => rec,
            Err(e) => return Err(e),
        };
        match rec.status {
            LogRecordStatus::Deleted => Err(Error::KeyNotFound),
            LogRecordStatus::Normal => Ok(rec.value),
        }
    }

    /// Removes `key`. Removing a key that has no value is no error.
    #[verifier::rlimit(100)]
    pub fn delete(&mut self, key: &[u8]) -> (r: Result<(), Error>)
        requires
            old(self).inv(),
        ensures
            final(self).inv(),
            key@.len() == 0 ==> r == Err::<(), Error>(Error::EmptyKey) && *final(self) == *old(
                self,
            ),
            key@.len() > 0 && !old(self).live().contains_key(key@) ==> r == Ok::<(), Error>(())
                && *final(self) == *old(self),
            r is Ok ==> final(self).live() == old(self).live().remove(key@),
            r is Ok ==> forall|fid: u32|
                fid != final(self).active_id() ==> #[trigger] final(self).file_contents(fid)
                    == old(self).file_contents(fid),
            r is Err ==> final(self).live() == old(self).live(),
            r is Err ==> r->Err_0 == Error::EmptyKey || r->Err_0 == Error::FileOpen || r->Err_0
                == Error::FileRead || r->Err_0 == Error::FileWrite || r->Err_0 == Error::FileSync,
    {
        if key.len() == 0 {
            return Err(Error::EmptyKey);
        }
        if self.index.get(key).is_none() {
            proof {
                assert(self.live@.remove(key@) =~= self.live@);
            }
            return Ok(());
        }
        let ghost k = key@;
        let key_copy = copy_range(key, 0, key.len());
        let rec = LogRecord { key: key_copy, value: Vec::new(), status: LogRecordStatus::Deleted };
        match self.append_log_record(&rec) {
            Ok(_) => {},
            Err(e) => return Err(e),
        }
        let ghost mid = *self;
        self.index.delete(key);
        self.live = Ghost(self.live@.remove(k));
        proof {
            assert(self.active_file == mid.active_file && self.older_files == mid.older_files);
            assert(forall|fid: u32| #[trigger] self.file_contents(fid) == mid.file_contents(fid));
            assert(self.index.index_map().dom() =~= self.live@.dom());
            assert forall|kk: Seq<u8>| #[trigger] self.live@.contains_key(kk) implies self.located(
                kk,
            ) by {
                assert(mid.located(kk));
            }
        }
        Ok(())
    }

    /// Replays one record found during recovery at `pos`.
    fn apply_record(&mut self, rec: LogRecord, pos: LogRecordPos) -> (r: Result<(), Error>)
        requires
            old(self).inv(),
            old(self).file_contents(pos.file_id) is Some,
            record_at(old(self).file_contents(pos.file_id)->Some_0, pos.offset as int) == Some(
                rec@,
            ),
        ensures
            final(self).inv(),
            final(self).active_file == old(self).active_file,
            final(self).older_files == old(self).older_files,
            final(self).config == old(self).config,
            r is Ok ==> final(self).live() == replay(old(self).live(), rec@),
            r is Ok,
    {
        let ghost pre = *self;
        let ghost rv = rec@;
        match rec.status {
            LogRecordStatus::Normal => {
                let ghost k = rec.key@;
                if !self.index.put(rec.key, pos) {
                    return Err(Error::IndexUpdate);
                }
                self.live = Ghost(self.live@.insert(k, rv.value));
                proof {
                    assert(rv == live_record(k, rv.value));
                    assert(self.index.index_map().dom() =~= self.live@.dom());
                    assert forall|kk: Seq<u8>| #[trigger] self.live@.contains_key(kk) implies self.located(
                        kk,
                    ) by {
                        if kk != k {
                            assert(pre.located(kk));
                        }
                    }
                }
            },
            LogRecordStatus::Deleted => {
                let ghost k = rec.key@;
                self.index.delete(rec.key.as_slice());
                self.live = Ghost(self.live@.remove(k));
                proof {
                    assert(self.index.index_map().dom() =~= self.live@.dom());
                    assert forall|kk: Seq<u8>| #[trigger] self.live@.contains_key(kk) implies self.located(
                        kk,
                    ) by {
                        assert(pre.located(kk));
                    }
                }
            },
        }
        Ok(())
    }

    /// Rebuilds the index from `files`, given in ascending order of their
    /// numbers: replays every record of every file in that order. A record
    /// that fails to decode ends the scan of its file, whose rest is ignored.
    /// The last file becomes the active one, unless its scan ended before its
    /// end: then a fresh file after it takes the appends, so that nothing is
    /// ever written behind an unreadable tail. An older file can therefore end
    /// in such a tail (it was the last file when the tail was found), and its
    /// scan ends there too.
    pub fn recover(config: Config, files: Vec<DataFile<M>>) -> (r: Result<Engine<M>, Error>)
        requires
            files@.len() > 0,
            forall|i: int| 0 <= i < files@.len() ==> (#[trigger] files@[i]).wf(),
            forall|a: int, b: int|
                0 <= a < b < files@.len() ==> #[trigger] files@[a].id() < #[trigger] files@[b].id(),
        ensures
            r is Ok ==> r->Ok_0.inv() && r->Ok_0.num_files() >= files@.len(),
            (forall|i: int| 0 <= i < files@.len() ==> (#[trigger] files@[i]).contents().len() == 0)
                ==> r is Ok && r->Ok_0.live() == Map::<Seq<u8>, Seq<u8>>::empty(),
            r is Ok && (forall|i: int|
                0 <= i < files@.len() ==> (#[trigger] files@[i]).io_reads_reliably()
                    && files@[i].contents().len() <= usize::MAX) ==> r->Ok_0.live() == replay_files(
                Map::<Seq<u8>, Seq<u8>>::empty(),
                files@,
            ),
            r is Err ==> exists|i: int|
                0 <= i < files@.len() && (#[trigger] files@[i]).contents().len() > 0,
            r is Err ==> r->Err_0 == Error::FileRead || r->Err_0 == Error::FileOpen || r->Err_0
                == Error::FileSync,
    {
        let ghost all = files@;
        let n_files = files.len();
        assert(all.len() == n_files);
        let mut older = files;
        let active = match older.pop() {
            Some(f) => f,
            None => return Err(Error::FileRead),
        };
        let ghost older0 = older@;
        let ghost active0 = active;
        let ghost rel: bool = forall|i: int|
            0 <= i < all.len() ==> (#[trigger] all[i]).io_reads_reliably() && all[i].contents().len()
                <= usize::MAX;
        assert(older0 =~= all.drop_last());
        assert(all.take(0) =~= Seq::<DataFile<M>>::empty());
        let mut engine = Engine {
            config,
            active_file: active,
            older_files: older,
            index: BTree::new(),
            live: Ghost(Map::empty()),
        };
        proof {
            assert(engine.index.index_map().dom() =~= engine.live@.dom());
            assert forall|i: int| 0 <= i < engine.older_files@.len() implies (
            #[trigger] engine.older_files@[i]).id() < engine.active_file.id() by {
                assert(engine.older_files@[i] == all[i]);
            }
            assert forall|i: int| 0 <= i < engine.older_files@.len() implies (
            #[trigger] engine.older_files@[i]).wf() by {
                assert(engine.older_files@[i] == all[i]);
            }
        }
        let n_older = engine.older_files.len();
        let mut fi: usize = 0;
        let mut torn: bool = false;
        loop
            invariant_except_break
                rel ==> engine.live@ == replay_files(Map::<Seq<u8>, Seq<u8>>::empty(), all.take(fi as int)),
            invariant
                fi <= n_older,
                engine.inv(),
                n_older == older0.len(),
                engine.older_files@ == older0,
                engine.active_file == active0,
                all == older0.push(active0),
                all == files@,
                forall|a: int, b: int|
                    0 <= a < b < all.len() ==> #[trigger] all[a].id() < #[trigger] all[b].id(),
                (forall|j: int| 0 <= j < all.len() ==> (#[trigger] all[j]).contents().len() == 0)
                    ==> engine.live@ == Map::<Seq<u8>, Seq<u8>>::empty() && !torn,
                torn ==> all[n_older as int].contents().len() > 0,
                !torn || fi == n_older,
                rel == (forall|i: int|
                    0 <= i < all.len() ==> (#[trigger] all[i]).io_reads_reliably() && all[i].contents().len()
                        <= usize::MAX),
            ensures
                rel ==> engine.live@ == replay_files(Map::<Seq<u8>, Seq<u8>>::empty(), all),
            decreases n_older - fi,
        {
            let ghost fid = all[fi as int].id();
            proof {
                assert(all[fi as int] == if fi < n_older { older0[fi as int] } else { active0 });
                if fi < n_older {
                    assert forall|a: int, b: int| 0 <= a < b < older0.len() implies #[trigger] older0[a].id()
                        < #[trigger] older0[b].id() by {
                        assert(older0[a] == all[a]);
                        assert(older0[b] == all[b]);
                    }
                    lemma_find_file_distinct(older0, fi as int);
                    assert(older0[fi as int].id() < active0.id());
                }
            }
            let ghost base = engine.live@;
            let ghost c = all[fi as int].contents();
            let ghost mut scanned: Seq<RecordView> = Seq::empty();
            proof {
                assert(c.subrange(0, c.len() as int) =~= c);
                assert(scan(c) =~= scanned + scan(c.subrange(0, c.len() as int)));
            }
            let mut offset: u64 = 0;
            loop
                invariant
                    engine.inv(),
                    fi <= n_older == older0.len(),
                    engine.older_files@ == older0,
                    engine.active_file == active0,
                    all == older0.push(active0),
                    all == files@,
                    all[fi as int].wf(),
                    engine.file_contents(fid) == Some(all[fi as int].contents()),
                    fid == all[fi as int].id(),
                    offset <= all[fi as int].contents().len(),
                    (forall|j: int| 0 <= j < all.len() ==> (#[trigger] all[j]).contents().len() == 0)
                        ==> engine.live@ == Map::<Seq<u8>, Seq<u8>>::empty() && !torn,
                    torn ==> all[n_older as int].contents().len() > 0,
                    !torn || fi == n_older,
                    c == all[fi as int].contents(),
                    rel == (forall|i: int|
                    0 <= i < all.len() ==> (#[trigger] all[i]).io_reads_reliably() && all[i].contents().len()
                        <= usize::MAX),
                    rel ==> scan(c) == scanned + scan(c.subrange(offset as int, c.len() as int)),
                    rel ==> engine.live@ == replay_all(base, scanned),
                ensures
                    rel ==> scanned == scan(c),
                decreases all[fi as int].contents().len() - offset,
            {
                let file = if fi < n_older {
                    &engine.older_files[fi]
                } else {
                    &engine.active_file
                };
                let end = file.write_offset();
                proof {
                    assert(*file == all[fi as int]);
                }
                if offset >= end {
                    proof {
                        if rel {
                            lemma_scan_end(c, offset as int, scanned);
                        }
                    }
                    break;
                }
                let file_id = file.file_id();
                match file.read_record(offset) {
                    Ok((rec, n)) => {
                        proof {
                            let t = c.subrange(offset as int, c.len() as int);
                            assert(decode_spec(t)->Ok_0.1 <= t.len());
                            assert(decode_spec(t)->Ok_0.1 >= 5);
                            if rel {
                                lemma_scan_advance(c, offset as int, scanned);
                                lemma_replay_all_push(base, scanned, rec@);
                            }
                        }
                        let _ = engine.apply_record(rec, LogRecordPos { file_id, offset });
                        proof {
                            scanned = scanned.push(rec@);
                        }
                        offset = offset + n as u64;
                    },
                    Err(e) => {
                        if e == Error::Truncated || e == Error::CorruptRecord {
                            if fi == n_older {
                                torn = true;
                            }
                            proof {
                                if rel {
                                    assert(all[fi as int].io_reads_reliably());
                                    lemma_scan_end(c, offset as int, scanned);
                                }
                            }
                            break;
                        }
                        proof {
                            assert(all[fi as int].contents().len() > 0);
                            assert(0 <= fi < all.len());
                        }
                        return Err(e);
                    },
                }
            }
            proof {
                let nt = all.take(fi + 1);
                assert(nt.drop_last() =~= all.take(fi as int));
                assert(nt.last() == all[fi as int]);
            }
            if fi == n_older {
                proof {
                    assert(all.take(fi + 1) =~= all);
                }
                break;
            }
            fi = fi + 1;
        }
        if torn {
            match engine.rotate() {
                Ok(()) => {},
                Err(e) => return Err(e),
            }
        }
        Ok(engine)
    }

    /// Opens the engine over the data files numbered `file_ids`, in ascending
    /// order, and rebuilds its index from them. With no files, starts file 0.
    pub fn open(config: Config, file_ids: &[u32]) -> (r: Result<Engine<M>, Error>)
        requires
            forall|a: int, b: int|
                0 <= a < b < file_ids@.len() ==> #[trigger] file_ids@[a] < #[trigger] file_ids@[b],
        ensures
            r is Ok ==> r->Ok_0.inv(),
            r is Ok && file_ids@.len() == 0 ==> r->Ok_0.live() == Map::<Seq<u8>, Seq<u8>>::empty()
                && r->Ok_0.num_files() == 1 && r->Ok_0.active_id() == 0,
            r is Err ==> r->Err_0 == Error::FileOpen || r->Err_0 == Error::FileRead || r->Err_0
                == Error::FileSync,
    {
        if file_ids.len() == 0 {
            let f = match DataFile::new(config.data_file_dir.as_str(), 0) {
                Ok(f) => f,
                Err(e) => return Err(e),
            };
            let engine = Engine {
                config,
                active_file: f,
                older_files: Vec::new(),
                index: BTree::new(),
                live: Ghost(Map::empty()),
            };
            assert(engine.index.index_map().dom() =~= engine.live@.dom());
            return Ok(engine);
        }
        let mut files: Vec<DataFile<M>> = Vec::new();
        let mut i: usize = 0;
        while i < file_ids.len()
            invariant
                i <= file_ids@.len(),
                files@.len() == i,
                forall|j: int| 0 <= j < i ==> (#[trigger] files@[j]).wf() && files@[j].id() == file_ids@[j],
            decreases file_ids@.len() - i,
        {
            let f = match DataFile::new(config.data_file_dir.as_str(), file_ids[i]) {
                Ok(f) => f,
                Err(e) => return Err(e),
            };
            files.push(f);
            i = i + 1;
        }
        proof {
            assert forall|a: int, b: int| 0 <= a < b < files@.len() implies #[trigger] files@[a].id()
                < #[trigger] files@[b].id() by {
                assert(file_ids@[a] < file_ids@[b]);
            }
        }
        Engine::recover(config, files)
    }

    /// The number of the active data file.
    pub fn active_file_id(&self) -> (r: u32)
        ensures
            r == self.active_id(),
    {
        self.active_file.file_id()
    }

    /// How many data files the engine holds.
    pub fn file_count(&self) -> (r: usize)
        requires
            self.inv(),
        ensures
            r == self.num_files(),
    {
        self.older_files.len() + 1
    }

    /// Gives up the engine's data files, older ones first, the active one last.
    pub fn into_files(self) -> (r: Vec<DataFile<M>>)
        ensures
            r@.len() == self.num_files(),
    {
        let mut files = self.older_files;
        files.push(self.active_file);
        files
    }
}

impl Engine<MemIO> {
    /// The bytes of data file `fid` from offset `from` on, if the engine holds
    /// that file and it is at least `from` long.
    pub fn file_tail(&self, fid: u32, from: u64) -> (r: Option<Vec<u8>>)
        requires
            self.inv(),
        ensures
            match r {
                Some(v) => self.file_contents(fid) is Some && from <= self.file_contents(fid)->Some_0.len()
                    && v@ == self.file_contents(fid)->Some_0.subrange(
                    from as int,
                    self.file_contents(fid)->Some_0.len() as int,
                ),
                None => self.file_contents(fid) is None || from > self.file_contents(fid)->Some_0.len(),
            },
    {
        let file = match self.data_file(fid) {
            Some(f) => f,
            None => return None,
        };
        let bytes = file.io().bytes();
        let len = bytes.len();
        if from > len as u64 {
            return None;
        }
        Some(copy_range(bytes.as_slice(), from as usize, len))
    }
}

} // verus!
