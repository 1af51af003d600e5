use vstd::prelude::*;
use crate::error::Error;

verus! {

/// Most bytes a length prefix may take.
pub const MAX_VARINT_LEN: usize = 10;

/// Bytes before the key: checksum, status, and the two length prefixes at their longest.
pub const MAX_HEADER_LEN: usize = 25;

/// Starting value of the FNV-1a checksum.
pub const CHECKSUM_SEED: u32 = 2166136261;

/// Multiplier of the FNV-1a checksum.
pub const CHECKSUM_PRIME: u32 = 16777619;

/// Whether a record holds a value or marks its key as deleted.
#[derive(Debug, Clone, Copy, PartialEq, Eq, Structural)]
pub enum LogRecordStatus {
    /// The record holds the key's value.
    Normal,
    /// The record marks the key as deleted.
    Deleted,
}

/// One key-value entry as it is appended to a data file.
#[derive(Debug)]
pub struct LogRecord {
    pub key: Vec<u8>,
    pub value: Vec<u8>,
    pub status: LogRecordStatus,
}

/// Where a record lies: its data file and the offset at which it starts.
#[derive(Debug, Clone, Copy, PartialEq, Eq, Structural)]
pub struct LogRecordPos {
    pub file_id: u32,
    pub offset: u64,
}

/// The mathematical content of a record.
pub struct RecordView {
    pub key: Seq<u8>,
    pub value: Seq<u8>,
    pub status: LogRecordStatus,
}

impl View for LogRecord {
    type V = RecordView;

    open spec fn view(&self) -> RecordView {
        RecordView { key: self.key@, value: self.value@, status: self.status }
    }
}

/// The byte that stands for a status.
pub open spec fn status_byte(s: LogRecordStatus) -> u8 {
    match s {
        LogRecordStatus::Normal => 0,
        LogRecordStatus::Deleted => 1,
    }
}

/// Unsigned LEB128: seven bits per byte, low bits first, high bit set on all but the last.
pub open spec fn varint(n: nat) -> Seq<u8>
    decreases n,
{
    if n < 128 {
        seq![n as u8]
    } else {
        seq![(n % 128 + 128) as u8] + varint(n / 128)
    }
}

/// Reads a length prefix at the start of `s`, taking at most `room` bytes.
/// Fails with `Truncated` when `s` ends first, and with `CorruptRecord` when the
/// prefix is longer than `room` or its value does not fit in `usize`.
pub open spec fn parse_varint(s: Seq<u8>, room: nat) -> Result<(nat, nat), Error>
    decreases room,
{
    if room == 0 {
        Err(Error::CorruptRecord)
    } else if s.len() == 0 {
        Err(Error::Truncated)
    } else if s[0] < 128 {
        Ok((s[0] as nat, 1))
    } else {
        match parse_varint(s.drop_first(), (room - 1) as nat) {
            Ok((v, l)) => {
                let w = (s[0] - 128) + 128 * v;
                if w > usize::MAX {
                    Err(Error::CorruptRecord)
                } else {
                    Ok((w as nat, l + 1))
                }
            },
            Err(e) => Err(e),
        }
    }
}

/// FNV-1a over the bytes of `s`.
pub open spec fn checksum(s: Seq<u8>) -> u32
    decreases s.len(),
{
    if s.len() == 0 {
        CHECKSUM_SEED
    } else {
        (checksum(s.drop_last()) ^ (s.last() as u32)).wrapping_mul(CHECKSUM_PRIME)
    }
}

/// The four bytes of `c`, least significant first.
pub open spec fn le_bytes(c: u32) -> Seq<u8> {
    seq![(c % 256) as u8, ((c / 256) % 256) as u8, ((c / 65536) % 256) as u8, (c / 16777216) as u8]
}

/// Everything that the checksum covers: status, lengths, key and value.
pub open spec fn body_spec(r: RecordView) -> Seq<u8> {
    seq![status_byte(r.status)] + varint(r.key.len()) + varint(r.value.len()) + r.key + r.value
}

/// The encoded form of a record: checksum, then body.
pub open spec fn encode_spec(r: RecordView) -> Seq<u8> {
    le_bytes(checksum(body_spec(r))) + body_spec(r)
}

/// What decoding the start of `s` yields: the record and how many bytes it took,
/// or why no record starts there.
pub open spec fn decode_spec(s: Seq<u8>) -> Result<(RecordView, nat), Error> {
    if s.len() < 5 {
        Err(Error::Truncated)
    } else {
        match parse_varint(s.subrange(5, s.len() as int), MAX_VARINT_LEN as nat) {
            Err(e) => Err(e),
            Ok((klen, a)) => match parse_varint(
                s.subrange(5 + a as int, s.len() as int),
                MAX_VARINT_LEN as nat,
            ) {
                Err(e) => Err(e),
                Ok((vlen, b)) => {
                    let ks: int = 5 + a as int + b as int;
                    let total: int = ks + klen as int + vlen as int;
                    if total > s.len() as int {
                        Err(Error::Truncated)
                    } else if s.subrange(0, 4) != le_bytes(checksum(s.subrange(4, total))) {
                        Err(Error::CorruptRecord)
                    } else if s[4] > 1 {
                        Err(Error::CorruptRecord)
                    } else {
                        Ok(
                            (
                                RecordView {
                                    key: s.subrange(ks, ks + klen),
                                    value: s.subrange(ks + klen, total),
                                    status: if s[4] == 0 {
                                        LogRecordStatus::Normal
                                    } else {
                                        LogRecordStatus::Deleted
                                    },
                                },
                                total as nat,
                            ),
                        )
                    }
                },
            },
        }
    }
}


/// 128 to the power `k`.
pub open spec fn pow128(k: nat) -> nat
    decreases k,
{
    if k == 0 {
        1
    } else {
        128 * pow128((k - 1) as nat)
    }
}

proof fn lemma_varint_len_bound(n: nat, k: nat)
    requires
        1 <= k,
        n < pow128(k),
    ensures
        1 <= varint(n).len() <= k,
    decreases k,
{
    if n >= 128 {
        if k == 1 {
            assert(pow128(1) == 128 * pow128(0));
        }
        let p = pow128((k - 1) as nat);
        assert(n / 128 < p) by (nonlinear_arith)
            requires n < 128 * p;
        lemma_varint_len_bound(n / 128, (k - 1) as nat);
    }
}

/// A length that fits in `usize` takes at most ten bytes.
pub proof fn lemma_varint_len(n: nat)
    requires
        n <= usize::MAX,
    ensures
        1 <= varint(n).len() <= MAX_VARINT_LEN,
{
    reveal_with_fuel(pow128, 11);
    assert(pow128(10) == 1180591620717411303424nat);
    lemma_varint_len_bound(n, 10);
}

/// Parsing an encoded length gives it back, whatever follows it.
pub proof fn lemma_parse_varint(n: nat, rest: Seq<u8>, room: nat)
    requires
        n <= usize::MAX,
        varint(n).len() <= room,
    ensures
        parse_varint(varint(n) + rest, room) == Ok::<(nat, nat), Error>((n, varint(n).len())),
    decreases n,
{
    let s = varint(n) + rest;
    if n >= 128 {
        lemma_varint_len(n / 128);
        assert(s.drop_first() =~= varint(n / 128) + rest);
        lemma_parse_varint(n / 128, rest, (room - 1) as nat);
        assert(s[0] == (n % 128 + 128) as u8);
        assert((s[0] - 128) + 128 * (n / 128) == n);
    }
}

/// Decoding an encoded record gives the record back, with the length of its
/// encoding, whatever bytes follow it.
pub proof fn lemma_decode_encode(r: RecordView, rest: Seq<u8>)
    requires
        r.key.len() <= usize::MAX,
        r.value.len() <= usize::MAX,
    ensures
        decode_spec(encode_spec(r) + rest) == Ok::<(RecordView, nat), Error>(
            (r, encode_spec(r).len()),
        ),
{
    let e = encode_spec(r);
    let s = e + rest;
    let kv = varint(r.key.len());
    let vv = varint(r.value.len());
    lemma_varint_len(r.key.len());
    lemma_varint_len(r.value.len());
    let a = kv.len();
    let b = vv.len();
    assert(s.subrange(5, s.len() as int) =~= kv + (vv + r.key + r.value + rest));
    lemma_parse_varint(r.key.len(), vv + r.key + r.value + rest, MAX_VARINT_LEN as nat);
    assert(s.subrange(5 + a as int, s.len() as int) =~= vv + (r.key + r.value + rest));
    lemma_parse_varint(r.value.len(), r.key + r.value + rest, MAX_VARINT_LEN as nat);
    let ks: int = 5 + a as int + b as int;
    let total: int = ks + r.key.len() + r.value.len();
    assert(total == e.len());
    assert(s.subrange(4, total) =~= body_spec(r));
    assert(s.subrange(0, 4) =~= le_bytes(checksum(body_spec(r))));
    assert(s[4] == status_byte(r.status));
    assert(s.subrange(ks, ks + r.key.len()) =~= r.key);
    assert(s.subrange(ks + r.key.len(), total) =~= r.value);
}

/// Appends the encoded length `n` to `out`.
fn push_varint(out: &mut Vec<u8>, n: usize)
    ensures
        final(out)@ == old(out)@ + varint(n as nat),
{
    let mut m: usize = n;
    while m >= 128
        invariant
            old(out)@ + varint(n as nat) == out@ + varint(m as nat),
        decreases m,
    {
        let b: u8 = (m % 128 + 128) as u8;
        proof {
            assert(varint(m as nat) == seq![b] + varint((m / 128) as nat));
        }
        out.push(b);
        m = m / 128;
        proof {
            assert(old(out)@ + varint(n as nat) =~= out@ + varint(m as nat));
        }
    }
    out.push(m as u8);
    proof {
        assert(old(out)@ + varint(n as nat) =~= out@);
    }
}

/// Appends the bytes of `src` to `out`.
fn push_bytes(out: &mut Vec<u8>, src: &[u8])
    ensures
        final(out)@ == old(out)@ + src@,
{
    let mut i: usize = 0;
    while i < src.len()
        invariant
            i <= src@.len(),
            out@ == old(out)@ + src@.subrange(0, i as int),
        decreases src@.len() - i,
    {
        out.push(src[i]);
        i = i + 1;
        proof {
            assert(out@ =~= old(out)@ + src@.subrange(0, i as int));
        }
    }
    proof {
        assert(src@.subrange(0, i as int) =~= src@);
    }
}

/// The bytes of `s` from `start` up to `end`, as a new vector.
pub fn copy_range(s: &[u8], start: usize, end: usize) -> (r: Vec<u8>)
    requires
        start <= end <= s@.len(),
    ensures
        r@ == s@.subrange(start as int, end as int),
{
    let mut r: Vec<u8> = Vec::new();
    let mut i: usize = start;
    while i < end
        invariant
            start <= i <= end <= s@.len(),
            r@ == s@.subrange(start as int, i as int),
        decreases end - i,
    {
        r.push(s[i]);
        i = i + 1;
        proof {
            assert(r@ =~= s@.subrange(start as int, i as int));
        }
    }
    r
}

/// The checksum of the bytes of `s` from `start` up to `end`.
pub fn checksum_range(s: &[u8], start: usize, end: usize) -> (r: u32)
    requires
        start <= end <= s@.len(),
    ensures
        r == checksum(s@.subrange(start as int, end as int)),
{
    let mut h: u32 = CHECKSUM_SEED;
    let mut i: usize = start;
    proof {
        assert(s@.subrange(start as int, start as int) =~= Seq::<u8>::empty());
    }
    while i < end
        invariant
            start <= i <= end <= s@.len(),
            h == checksum(s@.subrange(start as int, i as int)),
        decreases end - i,
    {
        proof {
            let next = s@.subrange(start as int, i + 1);
            assert(next.drop_last() =~= s@.subrange(start as int, i as int));
            assert(next.last() == s@[i as int]);
        }
        h = (h ^ (s[i] as u32)).wrapping_mul(CHECKSUM_PRIME);
        i = i + 1;
    }
    h
}

/// The four bytes of `c`, least significant first.
fn push_le_bytes(out: &mut Vec<u8>, c: u32)
    ensures
        final(out)@ == old(out)@ + le_bytes(c),
{
    out.push((c % 256) as u8);
    out.push(((c / 256) % 256) as u8);
    out.push(((c / 65536) % 256) as u8);
    out.push((c / 16777216) as u8);
    proof {
        assert(final(out)@ =~= old(out)@ + le_bytes(c));
    }
}

impl LogRecord {
    /// The bytes that stand for this record in a data file.
    pub fn encode(&self) -> (r: Vec<u8>)
        ensures
            r@ == encode_spec(self@),
    {
        let mut body: Vec<u8> = Vec::new();
        let sb: u8 = match self.status {
            LogRecordStatus::Normal => 0,
            LogRecordStatus::Deleted => 1,
        };
        body.push(sb);
        push_varint(&mut body, self.key.len());
        push_varint(&mut body, self.value.len());
        push_bytes(&mut body, self.key.as_slice());
        push_bytes(&mut body, self.value.as_slice());
        proof {
            assert(body@ =~= body_spec(self@));
            assert(body@.subrange(0, body@.len() as int) =~= body@);
        }
        let c = checksum_range(body.as_slice(), 0, body.len());
        let mut out: Vec<u8> = Vec::new();
        push_le_bytes(&mut out, c);
        push_bytes(&mut out, body.as_slice());
        proof {
            assert(out@ =~= encode_spec(self@));
        }
        out
    }
}

/// Reads the length prefix that starts at `pos`, taking at most `room` bytes:
/// its value and how many bytes it took.
fn read_varint(s: &[u8], pos: usize, room: usize) -> (r: Result<(usize, usize), Error>)
    requires
        pos <= s@.len(),
    ensures
        match r {
            Ok((v, l)) => parse_varint(s@.subrange(pos as int, s@.len() as int), room as nat)
                == Ok::<(nat, nat), Error>((v as nat, l as nat)),
            Err(e) => parse_varint(s@.subrange(pos as int, s@.len() as int), room as nat) == Err::<
                (nat, nat),
                Error,
            >(e),
        },
        r is Ok ==> r->Ok_0.1 <= room && pos + r->Ok_0.1 <= s@.len(),
        r is Err ==> r->Err_0 == Error::Truncated || r->Err_0 == Error::CorruptRecord,
    decreases room,
{
    let ghost t = s@.subrange(pos as int, s@.len() as int);
    if room == 0 {
        return Err(Error::CorruptRecord);
    }
    if pos >= s.len() {
        return Err(Error::Truncated);
    }
    let b = s[pos];
    if b < 128 {
        return Ok((b as usize, 1));
    }
    proof {
        assert(t.drop_first() =~= s@.subrange(pos + 1, s@.len() as int));
    }
    match read_varint(s, pos + 1, room - 1) {
        Ok((v, l)) => {
            let low: usize = (b - 128) as usize;
            if v > (usize::MAX - low) / 128 {
                proof {
                    assert(low + 128 * v > usize::MAX) by (nonlinear_arith)
                        requires v > (usize::MAX - low) / 128, low < 128;
                }
                Err(Error::CorruptRecord)
            } else {
                proof {
                    assert(low + 128 * v <= usize::MAX) by (nonlinear_arith)
                        requires v <= (usize::MAX - low) / 128, low < 128;
                }
                Ok((low + 128 * v, l + 1))
            }
        },
        Err(e) => Err(e),
    }
}

/// Decodes the record that starts `buf`: the record and how many bytes it took.
/// Fails with `Truncated` where `buf` ends before the record does, and with
/// `CorruptRecord` where the checksum or the status byte is wrong.
pub fn decode(buf: &[u8]) -> (r: Result<(LogRecord, usize), Error>)
    ensures
        match r {
            Ok((rec, n)) => decode_spec(buf@) == Ok::<(RecordView, nat), Error>((rec@, n as nat)),
            Err(e) => decode_spec(buf@) == Err::<(RecordView, nat), Error>(e),
        },
        r is Err ==> r->Err_0 == Error::Truncated || r->Err_0 == Error::CorruptRecord,
{
    let len = buf.len();
    if len < 5 {
        return Err(Error::Truncated);
    }
    let (klen, a) = match read_varint(buf, 5, MAX_VARINT_LEN) {
        Ok(p) => p,
        Err(e) => return Err(e),
    };
    let (vlen, b) = match read_varint(buf, 5 + a, MAX_VARINT_LEN) {
        Ok(p) => p,
        Err(e) => return Err(e),
    };
    let ks: usize = 5 + a + b;
    if ks > len || klen > len - ks || vlen > len - ks - klen {
        return Err(Error::Truncated);
    }
    let total: usize = ks + klen + vlen;
    let c = checksum_range(buf, 4, total);
    if buf[0] != (c % 256) as u8 || buf[1] != ((c / 256) % 256) as u8 || buf[2] != ((c / 65536)
        % 256) as u8 || buf[3] != (c / 16777216) as u8 {
        proof {
            assert(buf@.subrange(0, 4) != le_bytes(c));
        }
        return Err(Error::CorruptRecord);
    }
    proof {
        assert(buf@.subrange(0, 4) =~= le_bytes(c));
    }
    let status = if buf[4] == 0 {
        LogRecordStatus::Normal
    } else if buf[4] == 1 {
        LogRecordStatus::Deleted
    } else {
        return Err(Error::CorruptRecord);
    };
    let key = copy_range(buf, ks, ks + klen);
    let value = copy_range(buf, ks + klen, total);
    Ok((LogRecord { key, value, status }, total))
}

pub proof fn lemma_parse_varint_len(s: Seq<u8>, room: nat)
    ensures
        parse_varint(s, room) is Ok ==> 1 <= parse_varint(s, room)->Ok_0.1 <= s.len()
            && parse_varint(s, room)->Ok_0.1 <= room,
    decreases room,
{
    if room > 0 && s.len() > 0 && s[0] >= 128 {
        lemma_parse_varint_len(s.drop_first(), (room - 1) as nat);
    }
}

/// A length prefix that parses from `s` parses the same from any `t` that
/// agrees with `s` on the bytes it took.
pub proof fn lemma_parse_varint_prefix(s: Seq<u8>, t: Seq<u8>, room: nat)
    requires
        parse_varint(s, room) is Ok,
        parse_varint(s, room)->Ok_0.1 <= t.len(),
        t.subrange(0, parse_varint(s, room)->Ok_0.1 as int) == s.subrange(
            0,
            parse_varint(s, room)->Ok_0.1 as int,
        ),
    ensures
        parse_varint(t, room) == parse_varint(s, room),
    decreases room,
{
    lemma_parse_varint_len(s, room);
    let l = parse_varint(s, room)->Ok_0.1 as int;
    assert(t[0] == t.subrange(0, l)[0]);
    assert(s[0] == s.subrange(0, l)[0]);
    if s[0] >= 128 {
        let l2 = l - 1;
        assert(t.drop_first().subrange(0, l2) =~= t.subrange(0, l).drop_first());
        assert(s.drop_first().subrange(0, l2) =~= s.subrange(0, l).drop_first());
        lemma_parse_varint_prefix(s.drop_first(), t.drop_first(), (room - 1) as nat);
    }
}

/// A record that decodes from `s` decodes the same from any `t` that agrees
/// with `s` on the bytes it took; in particular whatever is appended after it.
pub proof fn lemma_decode_prefix(s: Seq<u8>, t: Seq<u8>)
    requires
        decode_spec(s) is Ok,
        decode_spec(s)->Ok_0.1 <= t.len(),
        t.subrange(0, decode_spec(s)->Ok_0.1 as int) == s.subrange(
            0,
            decode_spec(s)->Ok_0.1 as int,
        ),
    ensures
        decode_spec(t) == decode_spec(s),
{
    let n = decode_spec(s)->Ok_0.1 as int;
    assert forall|i: int| 0 <= i < n implies t[i] == s[i] by {
        assert(t[i] == t.subrange(0, n)[i]);
        assert(s[i] == s.subrange(0, n)[i]);
    }
    let s5 = s.subrange(5, s.len() as int);
    let t5 = t.subrange(5, t.len() as int);
    lemma_parse_varint_len(s5, MAX_VARINT_LEN as nat);
    let (klen, a) = parse_varint(s5, MAX_VARINT_LEN as nat)->Ok_0;
    assert(t5.subrange(0, a as int) =~= s5.subrange(0, a as int));
    lemma_parse_varint_prefix(s5, t5, MAX_VARINT_LEN as nat);
    let sa = s.subrange(5 + a as int, s.len() as int);
    let ta = t.subrange(5 + a as int, t.len() as int);
    lemma_parse_varint_len(sa, MAX_VARINT_LEN as nat);
    let (vlen, b) = parse_varint(sa, MAX_VARINT_LEN as nat)->Ok_0;
    assert(ta.subrange(0, b as int) =~= sa.subrange(0, b as int));
    lemma_parse_varint_prefix(sa, ta, MAX_VARINT_LEN as nat);
    assert(t.subrange(0, 4) =~= s.subrange(0, 4));
    assert(t.subrange(4, n) =~= s.subrange(4, n));
    let ks: int = 5 + a as int + b as int;
    assert(t.subrange(ks, ks + klen) =~= s.subrange(ks, ks + klen));
    assert(t.subrange(ks + klen, n) =~= s.subrange(ks + klen, n));
}

/// How many bytes the record that starts `s` takes, as its header declares:
/// checksum, status, both length prefixes, key and value.
pub open spec fn record_len_spec(s: Seq<u8>) -> Result<nat, Error> {
    if s.len() < 5 {
        Err(Error::Truncated)
    } else {
        match parse_varint(s.subrange(5, s.len() as int), MAX_VARINT_LEN as nat) {
            Err(e) => Err(e),
            Ok((klen, a)) => match parse_varint(
                s.subrange(5 + a as int, s.len() as int),
                MAX_VARINT_LEN as nat,
            ) {
                Err(e) => Err(e),
                Ok((vlen, b)) => {
                    let total = 5 + a + b + klen + vlen;
                    if total > usize::MAX {
                        Err(Error::CorruptRecord)
                    } else {
                        Ok(total as nat)
                    }
                },
            },
        }
    }
}

/// How many bytes the record whose first bytes are `hdr` takes, as its header
/// declares; `hdr` holds the whole header or ends where the file does.
pub fn record_len(hdr: &[u8]) -> (r: Result<usize, Error>)
    ensures
        match r {
            Ok(n) => record_len_spec(hdr@) == Ok::<nat, Error>(n as nat),
            Err(e) => record_len_spec(hdr@) == Err::<nat, Error>(e),
        },
        r is Ok ==> r->Ok_0 >= 5,
        r is Err ==> r->Err_0 == Error::Truncated || r->Err_0 == Error::CorruptRecord,
{
    let len = hdr.len();
    if len < 5 {
        return Err(Error::Truncated);
    }
    let (klen, a) = match read_varint(hdr, 5, MAX_VARINT_LEN) {
        Ok(p) => p,
        Err(e) => return Err(e),
    };
    let (vlen, b) = match read_varint(hdr, 5 + a, MAX_VARINT_LEN) {
        Ok(p) => p,
        Err(e) => return Err(e),
    };
    let ks: usize = 5 + a + b;
    if klen > usize::MAX - ks || vlen > usize::MAX - ks - klen {
        return Err(Error::CorruptRecord);
    }
    Ok(ks + klen + vlen)
}

/// The records that a scan from the start of `c` reads: one after another,
/// until one fails to decode.
#[verifier::opaque]
pub open spec fn scan(c: Seq<u8>) -> Seq<RecordView>
    decreases c.len(),
{
    if decode_spec(c) is Ok && 0 < decode_spec(c)->Ok_0.1 <= c.len() {
        seq![decode_spec(c)->Ok_0.0] + scan(c.subrange(decode_spec(c)->Ok_0.1 as int, c.len() as int))
    } else {
        Seq::empty()
    }
}

/// The encodings of `rs`, one after another.
pub open spec fn encode_all(rs: Seq<RecordView>) -> Seq<u8>
    decreases rs.len(),
{
    if rs.len() == 0 {
        Seq::empty()
    } else {
        encode_spec(rs[0]) + encode_all(rs.drop_first())
    }
}

/// A record that decodes at the start of `c` is the first that a scan reads,
/// and the scan goes on after it; where none decodes, the scan reads nothing.
pub proof fn lemma_scan_step(c: Seq<u8>)
    ensures
        decode_spec(c) is Ok ==> 0 < decode_spec(c)->Ok_0.1 <= c.len() && scan(c) == seq![
            decode_spec(c)->Ok_0.0,
        ] + scan(c.subrange(decode_spec(c)->Ok_0.1 as int, c.len() as int)),
        decode_spec(c) is Err ==> scan(c) == Seq::<RecordView>::empty(),
{
    reveal(scan);
}

} // verus!
