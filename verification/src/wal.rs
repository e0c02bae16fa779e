use vstd::prelude::*;
use vstd::slice::slice_subrange;
use crate::types::{SeqNo, Ts};
use crate::le::{
    le_u32_bytes, le_u64_bytes, lemma_u32_le_roundtrip, lemma_u64_le_roundtrip, push_u32_le,
    push_u64_le, read_u32_le, read_u64_le, u32_of_le, u64_of_le,
};

verus! {

#[verifier::external_type_specification]
#[verifier::external_body]
pub struct ExIoError(std::io::Error);

/// Errors of the write-ahead log.
#[derive(Debug)]
pub enum WalError {
    Io(std::io::Error),
    Crc { expected: u32, actual: u32 },
    Truncated(u64),
    Serialise(String),
}

/// Kind of a WAL record.
#[derive(Debug, Clone, Copy, PartialEq, Eq, Structural)]
pub enum RecordType {
    Command,
    Event,
    Snap,
}

impl RecordType {
    /// The on-disk tag of a record type.
    pub open spec fn spec_code(self) -> u8 {
        match self {
            RecordType::Command => 1,
            RecordType::Event => 2,
            RecordType::Snap => 3,
        }
    }

    pub open spec fn spec_from_u8(b: u8) -> Option<RecordType> {
        if b == 1 {
            Some(RecordType::Command)
        } else if b == 2 {
            Some(RecordType::Event)
        } else if b == 3 {
            Some(RecordType::Snap)
        } else {
            None
        }
    }

    /// The record type of an on-disk tag: 1 command, 2 event, 3 snapshot.
    pub fn from_u8(b: u8) -> (r: Option<RecordType>)
        ensures
            r == RecordType::spec_from_u8(b),
    {
        match b {
            1 => Some(RecordType::Command),
            2 => Some(RecordType::Event),
            3 => Some(RecordType::Snap),
            _ => None,
        }
    }

    /// The on-disk tag of the record type.
    pub fn code(self) -> (b: u8)
        ensures
            b == self.spec_code(),
    {
        match self {
            RecordType::Command => 1,
            RecordType::Event => 2,
            RecordType::Snap => 3,
        }
    }
}

/// One bit of the CRC-32 (IEEE) register, least significant bit first, with the reflected
/// polynomial 0xEDB88320.
pub open spec fn crc32_shift(c: u32) -> u32 {
    if c & 1 == 1 {
        (c >> 1u32) ^ 0xEDB8_8320u32
    } else {
        c >> 1u32
    }
}

/// The CRC-32 register after one more byte.
pub open spec fn crc32_byte(c: u32, b: u8) -> u32 {
    let x = c ^ (b as u32);
    crc32_shift(crc32_shift(crc32_shift(crc32_shift(crc32_shift(crc32_shift(crc32_shift(crc32_shift(x))))))))
}

/// The CRC-32 register after `data`, starting from all ones.
pub open spec fn crc32_register(data: Seq<u8>) -> u32
    decreases data.len(),
{
    if data.len() == 0 {
        0xFFFF_FFFFu32
    } else {
        crc32_byte(crc32_register(data.drop_last()), data.last())
    }
}

/// The CRC-32 (IEEE) checksum of a byte string: the final register, inverted.
pub open spec fn crc32_checksum(data: Seq<u8>) -> u32 {
    crc32_register(data) ^ 0xFFFF_FFFFu32
}

/// CRC-32 of `data`: calls `crc32fast::hash`, which feeds `data` to a fresh
/// `crc32fast::Hasher` and finalizes it. Claimed: the result is the CRC-32 (IEEE)
/// checksum of the bytes, as `crc32_checksum` defines it.
#[verifier::external_body]
fn crc32_of(data: &[u8]) -> (r: u32)
    ensures
        r == crc32_checksum(data@),
{
    crc32fast::hash(data)
}

/// The decimal digit `d`.
pub open spec fn digit_char(d: nat) -> char {
    (d + 48) as char
}

/// The decimal digits of `n`, most significant first, with no leading zero.
pub open spec fn decimal_digits(n: nat) -> Seq<char>
    decreases n,
{
    if n < 10 {
        seq![digit_char(n)]
    } else {
        decimal_digits(n / 10).push(digit_char(n % 10))
    }
}

/// Text of the error for an unknown record tag.
pub open spec fn unknown_rec_type_text(tag: u8) -> Seq<char> {
    "unknown rec_type "@ + decimal_digits(tag as nat)
}

/// Formats `tag` with std's `format!` and `Display` for `u8`. Claimed: the text is the
/// decimal digits of the tag, with no sign and no leading zero.
#[verifier::external_body]
fn u8_decimal_text(tag: u8) -> (s: String)
    ensures
        s@ == decimal_digits(tag as nat),
{
    format!("{}", tag)
}

/// The message of the error for an unknown record tag.
fn unknown_rec_type_message(tag: u8) -> (s: String)
    ensures
        s@ == unknown_rec_type_text(tag),
{
    let mut m = String::from_str("unknown rec_type ");
    let digits = u8_decimal_text(tag);
    m.append(digits.as_str());
    m
}

/// One WAL record.
#[derive(Debug, Clone)]
pub struct WalRecord {
    pub seq: SeqNo,
    pub ts: Ts,
    pub rec_type: RecordType,
    pub payload: Vec<u8>,
}

/// The body of a record: seq, ts, type tag, payload.
pub open spec fn body_bytes(seq: u64, ts: u64, rec_type: RecordType, payload: Seq<u8>) -> Seq<u8> {
    le_u64_bytes(seq) + le_u64_bytes(ts) + seq![rec_type.spec_code()] + payload
}

/// The bytes of a record: body length, body checksum, body (all little-endian).
pub open spec fn record_bytes(seq: u64, ts: u64, rec_type: RecordType, payload: Seq<u8>) -> Seq<u8> {
    let body = body_bytes(seq, ts, rec_type, payload);
    le_u32_bytes(body.len() as u32) + le_u32_bytes(crc32_checksum(body)) + body
}

/// What decoding the front of a buffer yields.
pub enum Decoded {
    Record { seq: u64, ts: u64, rec_type: RecordType, payload: Seq<u8>, consumed: int },
    Truncated { at: u64 },
    CrcMismatch { expected: u32, actual: u32 },
    UnknownType { tag: u8 },
}

/// Decode the record at the front of `buf`.
pub open spec fn decode_view(buf: Seq<u8>) -> Decoded {
    if buf.len() < 8 {
        Decoded::Truncated { at: 0 }
    } else {
        let plen = u32_of_le(buf.subrange(0, 4));
        let stored = u32_of_le(buf.subrange(4, 8));
        let total = 8 + plen;
        if buf.len() < total {
            Decoded::Truncated { at: 8 }
        } else {
            let body = buf.subrange(8, total);
            let actual = crc32_checksum(body);
            if actual != stored {
                Decoded::CrcMismatch { expected: stored, actual }
            } else if body.len() < 17 {
                Decoded::Truncated { at: 8 }
            } else {
                match RecordType::spec_from_u8(body[16]) {
                    None => Decoded::UnknownType { tag: body[16] },
                    Some(rt) => Decoded::Record {
                        seq: u64_of_le(body.subrange(0, 8)),
                        ts: u64_of_le(body.subrange(8, 16)),
                        rec_type: rt,
                        payload: body.subrange(17, body.len() as int),
                        consumed: total,
                    },
                }
            }
        }
    }
}

/// The result of `decode` agrees with `decode_view`.
pub open spec fn decode_agrees(r: Result<(WalRecord, usize), WalError>, d: Decoded) -> bool {
    match d {
        Decoded::Record { seq, ts, rec_type, payload, consumed } => match r {
            Ok((rec, n)) => rec.seq == seq && rec.ts == ts && rec.rec_type == rec_type
                && rec.payload@ == payload && n == consumed,
            Err(_) => false,
        },
        Decoded::Truncated { at } => r matches Err(WalError::Truncated(a)) && a == at,
        Decoded::CrcMismatch { expected, actual } => r matches Err(
            WalError::Crc { expected: e, actual: a },
        ) && e == expected && a == actual,
        Decoded::UnknownType { tag } => r matches Err(WalError::Serialise(s)) && s@
            == unknown_rec_type_text(tag),
    }
}

fn copy_bytes(v: &mut Vec<u8>, src: &[u8])
    ensures
        final(v)@ == old(v)@ + src@,
{
    let mut i: usize = 0;
    while i < src.len()
        invariant
            i <= src@.len(),
            v@ == old(v)@ + src@.take(i as int),
        decreases src@.len() - i,
    {
        v.push(src[i]);
        i = i + 1;
        assert(v@ =~= old(v)@ + src@.take(i as int));
    }
    assert(src@.take(i as int) =~= src@);
}

impl WalRecord {
    pub fn new(seq: SeqNo, ts: Ts, rec_type: RecordType, payload: Vec<u8>) -> (r: WalRecord)
        ensures
            r.seq == seq,
            r.ts == ts,
            r.rec_type == rec_type,
            r.payload@ == payload@,
    {
        WalRecord { seq, ts, rec_type, payload }
    }

    /// The framed bytes of the record. The length field holds the body length modulo 2^32.
    pub fn encode(&self) -> (out: Vec<u8>)
        ensures
            out@ == record_bytes(self.seq, self.ts, self.rec_type, self.payload@),
    {
        let mut body: Vec<u8> = Vec::new();
        push_u64_le(&mut body, self.seq);
        push_u64_le(&mut body, self.ts);
        body.push(self.rec_type.code());
        copy_bytes(&mut body, self.payload.as_slice());
        assert(body@ =~= body_bytes(self.seq, self.ts, self.rec_type, self.payload@));
        let crc = crc32_of(body.as_slice());
        let payload_len = body.len() as u32;
        let mut out: Vec<u8> = Vec::new();
        push_u32_le(&mut out, payload_len);
        push_u32_le(&mut out, crc);
        copy_bytes(&mut out, body.as_slice());
        out
    }

    /// Decode one record from the front of `buf`, with the number of bytes it takes.
    pub fn decode(buf: &[u8]) -> (r: Result<(WalRecord, usize), WalError>)
        ensures
            decode_agrees(r, decode_view(buf@)),
    {
        if buf.len() < 8 {
            return Err(WalError::Truncated(0));
        }
        let payload_len = read_u32_le(buf, 0);
        let stored_crc = read_u32_le(buf, 4);
        let total: u64 = 8 + payload_len as u64;
        if (buf.len() as u64) < total {
            return Err(WalError::Truncated(8));
        }
        let total = total as usize;
        let body = slice_subrange(buf, 8, total);
        let actual_crc = crc32_of(body);
        if actual_crc != stored_crc {
            return Err(WalError::Crc { expected: stored_crc, actual: actual_crc });
        }
        if body.len() < 17 {
            return Err(WalError::Truncated(8));
        }
        let seq = read_u64_le(body, 0);
        let ts = read_u64_le(body, 8);
        let rec_type = match RecordType::from_u8(body[16]) {
            Some(t) => t,
            None => {
                return Err(WalError::Serialise(unknown_rec_type_message(body[16])));
            },
        };
        let mut payload: Vec<u8> = Vec::new();
        copy_bytes(&mut payload, slice_subrange(body, 17, body.len()));
        assert(body@.subrange(0, 8) =~= buf@.subrange(8, total as int).subrange(0, 8));
        Ok((WalRecord { seq, ts, rec_type, payload }, total))
    }
}

/// A record written and then read back decodes to the same fields and length.
pub proof fn law_record_roundtrip(seq: u64, ts: u64, rec_type: RecordType, payload: Seq<u8>, rest: Seq<u8>)
    requires
        17 + payload.len() <= u32::MAX,
    ensures
        decode_view(record_bytes(seq, ts, rec_type, payload) + rest) == (Decoded::Record {
            seq,
            ts,
            rec_type,
            payload,
            consumed: record_bytes(seq, ts, rec_type, payload).len() as int,
        }),
{
    let body = body_bytes(seq, ts, rec_type, payload);
    let bytes = record_bytes(seq, ts, rec_type, payload);
    let buf = bytes + rest;
    lemma_u32_le_roundtrip(body.len() as u32);
    lemma_u32_le_roundtrip(crc32_checksum(body));
    lemma_u64_le_roundtrip(seq);
    lemma_u64_le_roundtrip(ts);
    assert(buf.subrange(0, 4) =~= le_u32_bytes(body.len() as u32));
    assert(buf.subrange(4, 8) =~= le_u32_bytes(crc32_checksum(body)));
    assert(buf.subrange(8, 8 + body.len() as int) =~= body);
    assert(body.subrange(0, 8) =~= le_u64_bytes(seq));
    assert(body.subrange(8, 16) =~= le_u64_bytes(ts));
    assert(body[16] == rec_type.spec_code());
    assert(body.subrange(17, body.len() as int) =~= payload);
}

/// Any strict prefix of a written record (a torn write) decodes as truncated.
pub proof fn law_torn_record_truncated(seq: u64, ts: u64, rec_type: RecordType, payload: Seq<u8>, k: int)
    requires
        17 + payload.len() <= u32::MAX,
        0 <= k < record_bytes(seq, ts, rec_type, payload).len(),
    ensures
        decode_view(record_bytes(seq, ts, rec_type, payload).take(k)) is Truncated,
{
    let body = body_bytes(seq, ts, rec_type, payload);
    let bytes = record_bytes(seq, ts, rec_type, payload);
    let buf = bytes.take(k);
    lemma_u32_le_roundtrip(body.len() as u32);
    if k >= 8 {
        assert(buf.subrange(0, 4) =~= le_u32_bytes(body.len() as u32));
    }
}


/// The fields of a record.
pub struct RecordView {
    pub seq: u64,
    pub ts: u64,
    pub rec_type: RecordType,
    pub payload: Seq<u8>,
}

impl WalRecord {
    pub open spec fn view_fields(&self) -> RecordView {
        RecordView { seq: self.seq, ts: self.ts, rec_type: self.rec_type, payload: self.payload@ }
    }
}

/// Outcome of reading a segment: the records past `after` in order, the last sequence
/// number delivered (or the one given), and the error that stopped the reading, if any.
pub struct ScanView {
    pub records: Seq<RecordView>,
    pub last_seq: u64,
    pub error: Option<Decoded>,
}

/// Read records from the front of `data` until it is used up or a record is cut short
/// (a torn write, which ends the segment quietly); any other decoding failure stops the
/// reading with that error.
pub open spec fn scan_view(data: Seq<u8>, after: u64, last: u64) -> ScanView
    decreases data.len(),
{
    if data.len() == 0 {
        ScanView { records: seq![], last_seq: last, error: None }
    } else {
        match decode_view(data) {
            Decoded::Record { seq, ts, rec_type, payload, consumed } => {
                if consumed <= 0 || consumed > data.len() {
                    ScanView { records: seq![], last_seq: last, error: None }
                } else if seq > after {
                    let rest = scan_view(data.skip(consumed), after, seq);
                    ScanView {
                        records: seq![RecordView { seq, ts, rec_type, payload }] + rest.records,
                        ..rest
                    }
                } else {
                    scan_view(data.skip(consumed), after, last)
                }
            },
            Decoded::Truncated { .. } => ScanView { records: seq![], last_seq: last, error: None },
            d => ScanView { records: seq![], last_seq: last, error: Some(d) },
        }
    }
}

/// The error a decoding failure is reported as.
pub open spec fn error_agrees(e: WalError, d: Decoded) -> bool {
    match d {
        Decoded::Truncated { at } => e matches WalError::Truncated(a) && a == at,
        Decoded::CrcMismatch { expected, actual } => e matches WalError::Crc {
            expected: x,
            actual: y,
        } && x == expected && y == actual,
        Decoded::UnknownType { tag } => e matches WalError::Serialise(s) && s@
            == unknown_rec_type_text(tag),
        Decoded::Record { .. } => false,
    }
}

/// Read the records of one segment whose sequence number exceeds `after_seq`, in order.
/// Returns them with the last sequence number delivered (`last_seq` when none) and the
/// error, if any, that stopped the reading. A record cut short ends the segment without
/// error.
pub fn scan_segment(data: &[u8], after_seq: SeqNo, last_seq: SeqNo) -> (r: (
    Vec<WalRecord>,
    SeqNo,
    Option<WalError>,
))
    ensures
        r.0@.map_values(|w: WalRecord| w.view_fields()) == scan_view(data@, after_seq, last_seq).records,
        r.1 == scan_view(data@, after_seq, last_seq).last_seq,
        match scan_view(data@, after_seq, last_seq).error {
            None => r.2 is None,
            Some(d) => r.2 matches Some(e) && error_agrees(e, d),
        },
{
    let mut out: Vec<WalRecord> = Vec::new();
    let mut last = last_seq;
    let mut offset: usize = 0;
    let ghost target = scan_view(data@, after_seq, last_seq);
    assert(data@.skip(0) =~= data@);
    assert(out@.map_values(|w: WalRecord| w.view_fields()) =~= Seq::<RecordView>::empty());
    assert(Seq::<RecordView>::empty() + target.records =~= target.records);
    loop
        invariant_except_break
            target == scan_view(data@, after_seq, last_seq),
            offset <= data@.len(),
            out@.map_values(|w: WalRecord| w.view_fields()) + scan_view(data@.skip(offset as int), after_seq, last).records
                == target.records,
            scan_view(data@.skip(offset as int), after_seq, last).last_seq == target.last_seq,
            scan_view(data@.skip(offset as int), after_seq, last).error == target.error,
        ensures
            out@.map_values(|w: WalRecord| w.view_fields()) == target.records,
            last == target.last_seq,
            target.error is None,
        decreases data@.len() - offset,
    {
        let ghost rest = data@.skip(offset as int);
        if offset >= data.len() {
            assert(rest.len() == 0);
            assert(out@.map_values(|w: WalRecord| w.view_fields()) + Seq::<RecordView>::empty() =~= out@.map_values(|w: WalRecord| w.view_fields()));
            break;
        }
        let chunk = slice_subrange(data, offset, data.len());
        assert(chunk@ =~= rest);
        match WalRecord::decode(chunk) {
            Ok((rec, consumed)) => {
                let ghost before = out@.map_values(|w: WalRecord| w.view_fields());
                assert(data@.skip(offset + consumed) =~= rest.skip(consumed as int));
                offset = offset + consumed;
                if rec.seq > after_seq {
                    last = rec.seq;
                    out.push(rec);
                    assert(out@.map_values(|w: WalRecord| w.view_fields()) =~= before.push(rec.view_fields()));
                    assert(before.push(rec.view_fields()) + scan_view(data@.skip(offset as int), after_seq, last).records
                        =~= before + (seq![rec.view_fields()] + scan_view(data@.skip(offset as int), after_seq, last).records));
                }
            },
            Err(WalError::Truncated(_)) => {
                assert(out@.map_values(|w: WalRecord| w.view_fields()) + Seq::<RecordView>::empty() =~= out@.map_values(|w: WalRecord| w.view_fields()));
                break;
            },
            Err(e) => {
                assert(!(decode_view(rest) is Record));
                assert(!(decode_view(rest) is Truncated));
                assert(rest.len() > 0);
                assert(scan_view(rest, after_seq, last).records == Seq::<RecordView>::empty());
                assert(scan_view(rest, after_seq, last).last_seq == last);
                assert(out@.map_values(|w: WalRecord| w.view_fields()) + Seq::<RecordView>::empty() =~= out@.map_values(|w: WalRecord| w.view_fields()));
                assert(out@.map_values(|w: WalRecord| w.view_fields()) == target.records);
                return (out, last, Some(e));
            },
        }
    }
    (out, last, None)
}

/// The bytes of a sequence of records written one after another.
pub open spec fn records_bytes(rs: Seq<RecordView>) -> Seq<u8>
    decreases rs.len(),
{
    if rs.len() == 0 {
        seq![]
    } else {
        record_bytes(rs[0].seq, rs[0].ts, rs[0].rec_type, rs[0].payload) + records_bytes(
            rs.drop_first(),
        )
    }
}

/// The records of `rs` with a sequence number above `after`, in order.
pub open spec fn records_after(rs: Seq<RecordView>, after: u64) -> Seq<RecordView>
    decreases rs.len(),
{
    if rs.len() == 0 {
        seq![]
    } else if rs[0].seq > after {
        seq![rs[0]] + records_after(rs.drop_first(), after)
    } else {
        records_after(rs.drop_first(), after)
    }
}

/// Every record is small enough for its length field.
pub open spec fn records_fit(rs: Seq<RecordView>) -> bool {
    forall|i: int| 0 <= i < rs.len() ==> 17 + (#[trigger] rs[i]).payload.len() <= u32::MAX
}

/// Sequence number of the last of `rs` past `after`; `last` when there is none.
pub open spec fn last_delivered(rs: Seq<RecordView>, after: u64, last: u64) -> u64
    decreases rs.len(),
{
    if rs.len() == 0 {
        last
    } else {
        last_delivered(rs.drop_first(), after, if rs[0].seq > after { rs[0].seq } else { last })
    }
}

/// Reading a segment gives back, in order, exactly the records written to it with a
/// sequence number past `after`, the sequence number of the last of them, and no error.
pub proof fn law_replay_returns_written(rs: Seq<RecordView>, after: u64, last: u64)
    requires
        records_fit(rs),
    ensures
        scan_view(records_bytes(rs), after, last).records == records_after(rs, after),
        scan_view(records_bytes(rs), after, last).last_seq == last_delivered(rs, after, last),
        scan_view(records_bytes(rs), after, last).error is None,
    decreases rs.len(),
{
    if rs.len() > 0 {
        let r = rs[0];
        let first = record_bytes(r.seq, r.ts, r.rec_type, r.payload);
        let more = records_bytes(rs.drop_first());
        let data = records_bytes(rs);
        assert(records_fit(rs.drop_first())) by {
            assert forall|i: int| 0 <= i < rs.drop_first().len() implies 17 + (#[trigger] rs.drop_first()[i]).payload.len() <= u32::MAX by {
                assert(rs.drop_first()[i] == rs[i + 1]);
            }
        }
        assert(17 + rs[0].payload.len() <= u32::MAX);
        law_record_roundtrip(r.seq, r.ts, r.rec_type, r.payload, more);
        assert(data == first + more);
        assert(data.skip(first.len() as int) =~= more);
        assert(data.len() > 0);
        let next_last = if r.seq > after { r.seq } else { last };
        law_replay_returns_written(rs.drop_first(), after, next_last);
        assert(RecordView { seq: r.seq, ts: r.ts, rec_type: r.rec_type, payload: r.payload } == r);
        let sv = scan_view(data, after, last);
        let rest = scan_view(more, after, next_last);
        if r.seq > after {
            assert(sv.records == seq![r] + rest.records);
        } else {
            assert(sv.records == rest.records);
        }
    }
}

/// A torn tail (a strict prefix of one more record) does not change what a segment reads.
#[verifier::rlimit(40)]
pub proof fn law_torn_tail_ignored(rs: Seq<RecordView>, after: u64, last: u64, torn: RecordView, k: int)
    requires
        records_fit(rs),
        17 + torn.payload.len() <= u32::MAX,
        0 <= k < record_bytes(torn.seq, torn.ts, torn.rec_type, torn.payload).len(),
    ensures
        scan_view(
            records_bytes(rs) + record_bytes(torn.seq, torn.ts, torn.rec_type, torn.payload).take(k),
            after,
            last,
        ) == scan_view(records_bytes(rs), after, last),
    decreases rs.len(),
{
    let tail = record_bytes(torn.seq, torn.ts, torn.rec_type, torn.payload).take(k);
    if rs.len() == 0 {
        assert(records_bytes(rs) =~= Seq::<u8>::empty());
        assert(records_bytes(rs) + tail =~= tail);
        law_torn_record_truncated(torn.seq, torn.ts, torn.rec_type, torn.payload, k);
    } else {
        let r = rs[0];
        let first = record_bytes(r.seq, r.ts, r.rec_type, r.payload);
        let more = records_bytes(rs.drop_first());
        let data = records_bytes(rs);
        assert(records_fit(rs.drop_first())) by {
            assert forall|i: int| 0 <= i < rs.drop_first().len() implies 17 + (#[trigger] rs.drop_first()[i]).payload.len() <= u32::MAX by {
                assert(rs.drop_first()[i] == rs[i + 1]);
            }
        }
        assert(17 + rs[0].payload.len() <= u32::MAX);
        law_record_roundtrip(r.seq, r.ts, r.rec_type, r.payload, more);
        law_record_roundtrip(r.seq, r.ts, r.rec_type, r.payload, more + tail);
        assert(data == first + more);
        assert(data + tail =~= first + (more + tail));
        assert(data.skip(first.len() as int) =~= more);
        assert((first + (more + tail)).skip(first.len() as int) =~= more + tail);
        let next_last = if r.seq > after { r.seq } else { last };
        law_torn_tail_ignored(rs.drop_first(), after, next_last, torn, k);
        let d1 = decode_view(data + tail);
        let d2 = decode_view(data);
        assert(d1 == d2);
        assert((data + tail).skip(first.len() as int) =~= more + tail);
        assert((data + tail).len() > 0);
        assert(data.len() > 0);
        assert(scan_view(more + tail, after, next_last) == scan_view(more, after, next_last));
    }
}

/// Reading segments one after another, in the order given: each from where the one before
/// left the last sequence number, its records delivered in turn; an error in a segment
/// ends the reading after that segment's records.
pub open spec fn replay_view(segs: Seq<Seq<u8>>, after: u64, last: u64) -> ScanView
    decreases segs.len(),
{
    if segs.len() == 0 {
        ScanView { records: seq![], last_seq: last, error: None }
    } else {
        let first = scan_view(segs[0], after, last);
        if first.error is Some {
            first
        } else {
            let rest = replay_view(segs.drop_first(), after, first.last_seq);
            ScanView { records: first.records + rest.records, ..rest }
        }
    }
}

/// The bytes of segments holding the given records, segment by segment.
pub open spec fn segments_bytes(rss: Seq<Seq<RecordView>>) -> Seq<Seq<u8>> {
    rss.map_values(|rs: Seq<RecordView>| records_bytes(rs))
}

/// The records of all segments, in segment order.
pub open spec fn all_records(rss: Seq<Seq<RecordView>>) -> Seq<RecordView>
    decreases rss.len(),
{
    if rss.len() == 0 {
        seq![]
    } else {
        rss[0] + all_records(rss.drop_first())
    }
}

proof fn lemma_records_after_append(a: Seq<RecordView>, b: Seq<RecordView>, after: u64, last: u64)
    ensures
        records_after(a + b, after) == records_after(a, after) + records_after(b, after),
        last_delivered(a + b, after, last) == last_delivered(b, after, last_delivered(a, after, last)),
    decreases a.len(),
{
    if a.len() == 0 {
        assert(a + b =~= b);
    } else {
        assert((a + b).drop_first() =~= a.drop_first() + b);
        assert((a + b)[0] == a[0]);
        let next = if a[0].seq > after { a[0].seq } else { last };
        lemma_records_after_append(a.drop_first(), b, after, next);
        if a[0].seq > after {
            assert(seq![a[0]] + (records_after(a.drop_first(), after) + records_after(b, after)) =~= (seq![
                a[0],
            ] + records_after(a.drop_first(), after)) + records_after(b, after));
        }
    }
}

/// Reading the segments of a log in order gives back, in order, exactly the records
/// written to them with a sequence number past `after`, the sequence number of the last of
/// them, and no error.
pub proof fn law_replay_segments_returns_written(rss: Seq<Seq<RecordView>>, after: u64, last: u64)
    requires
        forall|i: int| 0 <= i < rss.len() ==> records_fit(#[trigger] rss[i]),
    ensures
        replay_view(segments_bytes(rss), after, last).records == records_after(all_records(rss), after),
        replay_view(segments_bytes(rss), after, last).last_seq == last_delivered(all_records(rss), after, last),
        replay_view(segments_bytes(rss), after, last).error is None,
    decreases rss.len(),
{
    if rss.len() > 0 {
        let segs = segments_bytes(rss);
        assert(records_fit(rss[0]));
        law_replay_returns_written(rss[0], after, last);
        assert(segs[0] == records_bytes(rss[0]));
        let first = scan_view(segs[0], after, last);
        assert(segs.drop_first() =~= segments_bytes(rss.drop_first()));
        assert forall|i: int| 0 <= i < rss.drop_first().len() implies records_fit(#[trigger] rss.drop_first()[i]) by {
            assert(rss.drop_first()[i] == rss[i + 1]);
        }
        law_replay_segments_returns_written(rss.drop_first(), after, first.last_seq);
        lemma_records_after_append(rss[0], all_records(rss.drop_first()), after, last);
    }
}

/// Every record type reads back from its own tag, and a tag that reads as a type at all is
/// that type's tag, so distinct types are stored under distinct tags.
pub proof fn law_record_type_tags_read_back(t: RecordType, b: u8)
    ensures
        RecordType::spec_from_u8(t.spec_code()) == Some(t),
        RecordType::spec_from_u8(b) matches Some(x) ==> x.spec_code() == b,
{
}

} // verus!

