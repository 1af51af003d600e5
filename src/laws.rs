use vstd::prelude::*;
use crate::error::Error;
use crate::log_record::{decode_spec, encode_all, encode_spec, lemma_decode_encode, scan, RecordView};

verus! {

/// Decoding an encoded record gives it back, with the length of its encoding.
pub proof fn law_decode_round_trip(r: RecordView)
    requires
        r.key.len() <= usize::MAX,
        r.value.len() <= usize::MAX,
    ensures
        decode_spec(encode_spec(r)) == Ok::<(RecordView, nat), Error>((r, encode_spec(r).len())),
{
    lemma_decode_encode(r, Seq::empty());
    assert(encode_spec(r) + Seq::<u8>::empty() =~= encode_spec(r));
}

/// A well-formed record followed by fewer trailing bytes than the smallest
/// record decodes whole, and the trailing bytes then fail to decode as
/// `Truncated`: a recovery scan keeps the record and stops at the tail.
pub proof fn law_short_tail_after_record(r: RecordView, tail: Seq<u8>)
    requires
        r.key.len() <= usize::MAX,
        r.value.len() <= usize::MAX,
        tail.len() < 5,
    ensures
        decode_spec(encode_spec(r) + tail) == Ok::<(RecordView, nat), Error>(
            (r, encode_spec(r).len()),
        ),
        decode_spec(tail) == Err::<(RecordView, nat), Error>(Error::Truncated),
{
    lemma_decode_encode(r, tail);
}

/// A log made of encoded records, followed by fewer bytes than the smallest
/// record, scans back to exactly those records in order, so recovery replays
/// the records that were written.
pub proof fn law_scan_log(rs: Seq<RecordView>, tail: Seq<u8>)
    requires
        forall|i: int| 0 <= i < rs.len() ==> (#[trigger] rs[i]).key.len() <= usize::MAX && rs[i].value.len() <= usize::MAX,
        tail.len() < 5,
    ensures
        scan(encode_all(rs) + tail) == rs,
    decreases rs.len(),
{
    reveal(scan);
    if rs.len() == 0 {
        assert(encode_all(rs) + tail =~= tail);
        assert(decode_spec(tail) is Err);
        assert(scan(tail) =~= rs);
    } else {
        let r = rs[0];
        let rest = rs.drop_first();
        assert(r.key.len() <= usize::MAX && r.value.len() <= usize::MAX);
        assert forall|i: int| 0 <= i < rest.len() implies (#[trigger] rest[i]).key.len() <= usize::MAX && rest[i].value.len() <= usize::MAX by {
            assert(rest[i] == rs[i + 1]);
        }
        law_scan_log(rest, tail);
        let c = encode_all(rs) + tail;
        let e = encode_spec(r);
        assert(c =~= e + (encode_all(rest) + tail));
        lemma_decode_encode(r, encode_all(rest) + tail);
        assert(c.subrange(e.len() as int, c.len() as int) =~= encode_all(rest) + tail);
        assert(scan(c) =~= seq![r] + rest);
        assert(seq![r] + rest =~= rs);
    }
}

} // verus!
