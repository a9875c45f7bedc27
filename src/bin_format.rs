//! The length-framed binary format.
//!
//! A frame is the magic `YPBN`, a big-endian `u32` record size that counts the
//! bytes after it, and a body: `tx_id` (8), type byte (1), `from_user_id` (8),
//! `to_user_id` (8), `amount` (8), `timestamp` (8), status byte (1), description
//! length (4), then the UTF-8 description. Integers are big-endian.
use vstd::prelude::*;
use vstd::utf8::*;

use crate::error::{ErrorView, ParseError};
use crate::model::{
    decoded, lemma_prepend_push, lemma_records_view_push, prepend, records_view, Record,
    RecordView, TransactionStatus, TransactionType,
};
use crate::scan::{copy_range, push_bytes, string_from_utf8};

verus! {

/// Size of the fixed part of a body; also the smallest record size.
pub const MIN_RECORD_SIZE: u32 = 46;

/// The largest record size that the reader accepts: a sanity cap that bounds
/// the descriptions it reads to 104 bytes. The writer is not held to it.
pub const MAX_RECORD_SIZE: u32 = 150;

/// Magic and record size.
pub const HEADER_LEN: usize = 8;

/// The sentinel that opens every frame: ASCII `YPBN`.
pub open spec fn magic() -> Seq<u8> {
    seq![89u8, 80u8, 66u8, 78u8]
}

pub open spec fn be64(x: u64) -> Seq<u8> {
    seq![
        ((x >> 56u64) & 0xffu64) as u8,
        ((x >> 48u64) & 0xffu64) as u8,
        ((x >> 40u64) & 0xffu64) as u8,
        ((x >> 32u64) & 0xffu64) as u8,
        ((x >> 24u64) & 0xffu64) as u8,
        ((x >> 16u64) & 0xffu64) as u8,
        ((x >> 8u64) & 0xffu64) as u8,
        (x & 0xffu64) as u8,
    ]
}

pub open spec fn from_be64(s: Seq<u8>) -> u64 {
    (s[0] as u64) << 56u64 | (s[1] as u64) << 48u64 | (s[2] as u64) << 40u64 | (s[3] as u64)
        << 32u64 | (s[4] as u64) << 24u64 | (s[5] as u64) << 16u64 | (s[6] as u64) << 8u64 | (
    s[7] as u64)
}

pub open spec fn be32(x: u32) -> Seq<u8> {
    seq![
        ((x >> 24u32) & 0xffu32) as u8,
        ((x >> 16u32) & 0xffu32) as u8,
        ((x >> 8u32) & 0xffu32) as u8,
        (x & 0xffu32) as u8,
    ]
}

pub open spec fn from_be32(s: Seq<u8>) -> u32 {
    (s[0] as u32) << 24u32 | (s[1] as u32) << 16u32 | (s[2] as u32) << 8u32 | (s[3] as u32)
}

/// The record that a body of the declared size holds.
pub open spec fn frame_record(b: Seq<u8>) -> Result<RecordView, ErrorView> {
    let tx_id = from_be64(b.subrange(0, 8));
    match TransactionType::from_code(b[8]) {
        None => Err(ErrorView::UnknownTypeByte(b[8])),
        Some(tx_type) => match TransactionStatus::from_code(b[41]) {
            None => Err(ErrorView::UnknownStatusByte(b[41])),
            Some(status) => {
                if from_be32(b.subrange(42, 46)) != b.len() - MIN_RECORD_SIZE {
                    Err(ErrorView::RecordDamaged(tx_id))
                } else if !valid_utf8(b.skip(46)) {
                    Err(ErrorView::InvalidUtf8)
                } else {
                    Ok(
                        RecordView {
                            tx_id,
                            tx_type,
                            from_user_id: from_be64(b.subrange(9, 17)),
                            to_user_id: from_be64(b.subrange(17, 25)),
                            amount: from_be64(b.subrange(25, 33)),
                            timestamp: from_be64(b.subrange(33, 41)),
                            status,
                            description: decode_utf8(b.skip(46)),
                        },
                    )
                }
            },
        },
    }
}

/// What a binary stream decodes to: its frames in order, or the first failure.
#[verifier::opaque]
pub open spec fn decode_bin(s: Seq<u8>) -> Result<Seq<RecordView>, ErrorView>
    decreases s.len(),
{
    if s.len() == 0 {
        Ok(seq![])
    } else if s.len() < HEADER_LEN {
        Err(ErrorView::UnexpectedEof { needed: HEADER_LEN, got: s.len() as usize })
    } else if s.take(4) != magic() {
        Err(ErrorView::InvalidMagic)
    } else {
        let size = from_be32(s.subrange(4, 8));
        if size < MIN_RECORD_SIZE || size > MAX_RECORD_SIZE {
            Err(ErrorView::UnexpectedRecordSize(size))
        } else if s.len() - HEADER_LEN < size {
            Err(
                ErrorView::UnexpectedEof {
                    needed: size as usize,
                    got: (s.len() - HEADER_LEN) as usize,
                },
            )
        } else {
            match frame_record(s.subrange(8, 8 + size)) {
                Err(e) => Err(e),
                Ok(r) => prepend(seq![r], decode_bin(s.skip(8 + size))),
            }
        }
    }
}

/// The UTF-8 bytes of a record's description.
pub open spec fn desc_bytes(r: RecordView) -> Seq<u8> {
    encode_utf8(r.description)
}

/// A record whose description length, with the fixed part, fits the 32-bit
/// record-size field.
pub open spec fn bin_fits(r: RecordView) -> bool {
    desc_bytes(r).len() <= u32::MAX - MIN_RECORD_SIZE
}

/// A record whose description fits under the record-size bound that readers
/// accept.
pub open spec fn bin_encodable(r: RecordView) -> bool {
    desc_bytes(r).len() <= MAX_RECORD_SIZE - MIN_RECORD_SIZE
}

/// The frame that encodes one record.
#[verifier::opaque]
pub open spec fn frame(r: RecordView) -> Seq<u8> {
    let d = desc_bytes(r);
    magic() + be32((MIN_RECORD_SIZE + d.len()) as u32) + be64(r.tx_id) + seq![r.tx_type.code()]
        + be64(r.from_user_id) + be64(r.to_user_id) + be64(r.amount) + be64(r.timestamp) + seq![
        r.status.code(),
    ] + be32(d.len() as u32) + d
}

/// The binary encoding of records: their frames, one after another.
pub open spec fn encode_bin(rs: Seq<RecordView>) -> Seq<u8> {
    rs.map_values(|r: RecordView| frame(r)).flatten()
}

/// Big-endian `u64` at `body[start..end]`.
fn u64(body: &[u8], start: usize, end: usize) -> (r: Result<u64, ParseError>)
    requires
        start + 8 == end,
    ensures
        end <= body@.len() ==> (r matches Ok(v) && v == from_be64(
            body@.subrange(start as int, end as int),
        )),
        end > body@.len() ==> (r matches Err(e) && e@ == ErrorView::RecordTooShort),
{
    if end > body.len() {
        return Err(ParseError::RecordTooShort);
    }
    Ok(
        (body[start] as u64) << 56u64 | (body[start + 1] as u64) << 48u64 | (body[start + 2] as u64)
            << 40u64 | (body[start + 3] as u64) << 32u64 | (body[start + 4] as u64) << 24u64 | (
        body[start + 5] as u64) << 16u64 | (body[start + 6] as u64) << 8u64 | (body[start
            + 7] as u64),
    )
}

/// Big-endian `u32` at `body[start..end]`.
fn u32(body: &[u8], start: usize, end: usize) -> (r: Result<u32, ParseError>)
    requires
        start + 4 == end,
    ensures
        end <= body@.len() ==> (r matches Ok(v) && v == from_be32(
            body@.subrange(start as int, end as int),
        )),
        end > body@.len() ==> (r matches Err(e) && e@ == ErrorView::RecordTooShort),
{
    if end > body.len() {
        return Err(ParseError::RecordTooShort);
    }
    Ok(
        (body[start] as u32) << 24u32 | (body[start + 1] as u32) << 16u32 | (body[start + 2] as u32)
            << 8u32 | (body[start + 3] as u32),
    )
}

/// The byte at `body[pos]`.
fn u8(body: &[u8], pos: usize) -> (r: Result<u8, ParseError>)
    ensures
        pos < body@.len() ==> (r matches Ok(v) && v == body@[pos as int]),
        pos >= body@.len() ==> (r matches Err(e) && e@ == ErrorView::RecordTooShort),
{
    if pos >= body.len() {
        return Err(ParseError::RecordTooShort);
    }
    Ok(body[pos])
}

/// Decodes the body of one frame, whose length is the declared record size.
fn read_frame(body: &[u8]) -> (r: Result<Record, ParseError>)
    requires
        MIN_RECORD_SIZE <= body@.len() <= MAX_RECORD_SIZE,
    ensures
        match frame_record(body@) {
            Ok(v) => r matches Ok(rec) && rec@ == v,
            Err(e) => r matches Err(err) && err@ == e,
        },
{
    let tx_id = u64(body, 0, 8)?;
    let tx_type = match TransactionType::from_byte(u8(body, 8)?) {
        Ok(t) => t,
        Err(e) => return Err(ParseError::TransactionType(e)),
    };
    let from_user_id = u64(body, 9, 17)?;
    let to_user_id = u64(body, 17, 25)?;
    let amount = u64(body, 25, 33)?;
    let timestamp = u64(body, 33, 41)?;
    let status = match TransactionStatus::from_byte(u8(body, 41)?) {
        Ok(s) => s,
        Err(e) => return Err(ParseError::TransactionStatus(e)),
    };
    let desc_len = u32(body, 42, 46)?;
    if desc_len as usize != body.len() - 46 {
        return Err(ParseError::RecordDamaged(tx_id));
    }
    let desc = copy_range(body, 46, body.len());
    assert(desc@ == body@.skip(46));
    let description = match string_from_utf8(desc) {
        Ok(s) => s,
        Err(e) => return Err(ParseError::InvalidUtf8(e)),
    };
    Ok(Record { tx_id, tx_type, from_user_id, to_user_id, amount, timestamp, status, description })
}

/// Decodes the frame that starts at `input[pos]`, returning its record and
/// the position after it.
fn read_frame_at(input: &[u8], pos: usize) -> (r: Result<(Record, usize), ParseError>)
    requires
        pos < input@.len(),
    ensures
        match r {
            Ok((rec, next)) => pos < next <= input@.len() && decode_bin(input@.skip(pos as int))
                == prepend(seq![rec@], decode_bin(input@.skip(next as int))),
            Err(e) => decode_bin(input@.skip(pos as int)) == Err::<Seq<RecordView>, ErrorView>(e@),
        },
{
    reveal(decode_bin);
    let ghost rest = input@.skip(pos as int);
    let avail = input.len() - pos;
    if avail < HEADER_LEN {
        return Err(ParseError::UnexpectedEof { needed: HEADER_LEN, got: avail });
    }
    if !(input[pos] == 89 && input[pos + 1] == 80 && input[pos + 2] == 66 && input[pos + 3] == 78) {
        assert(rest.take(4) != magic()) by {
            if rest.take(4) == magic() {
                assert(rest.take(4)[0] == input@[pos as int]);
                assert(rest.take(4)[1] == input@[pos + 1]);
                assert(rest.take(4)[2] == input@[pos + 2]);
                assert(rest.take(4)[3] == input@[pos + 3]);
            }
        }
        return Err(ParseError::InvalidMagic);
    }
    assert(rest.take(4) =~= magic());
    let record_size = match u32(input, pos + 4, pos + 8) {
        Ok(v) => v,
        Err(e) => return Err(e),
    };
    assert(input@.subrange(pos + 4, pos + 8) =~= rest.subrange(4, 8));
    if record_size < MIN_RECORD_SIZE || record_size > MAX_RECORD_SIZE {
        return Err(ParseError::UnexpectedRecordSize(record_size));
    }
    let size = record_size as usize;
    if avail - HEADER_LEN < size {
        return Err(ParseError::UnexpectedEof { needed: size, got: avail - HEADER_LEN });
    }
    let start = pos + HEADER_LEN;
    let body = &input[start..start + size];
    assert(body@ =~= rest.subrange(8, 8 + size));
    let record = read_frame(body)?;
    assert(input@.skip(start + size) =~= rest.skip(8 + size));
    Ok((record, start + size))
}

/// Decodes a whole binary stream into its records.
pub fn read_from(input: &[u8]) -> (r: Result<Vec<Record>, ParseError>)
    ensures
        decoded(r) == decode_bin(input@),
{
    let mut data: Vec<Record> = Vec::new();
    let mut pos: usize = 0;
    proof {
        assert(input@.skip(0) =~= input@);
        if let Ok(rs) = decode_bin(input@) {
            assert(records_view(data@) + rs =~= rs);
        }
    }
    while pos < input.len()
        invariant
            pos <= input@.len(),
            decode_bin(input@) == prepend(records_view(data@), decode_bin(input@.skip(pos as int))),
        decreases input@.len() - pos,
    {
        let (record, next) = match read_frame_at(input, pos) {
            Ok(v) => v,
            Err(e) => return Err(e),
        };
        proof {
            lemma_prepend_push(records_view(data@), record@, decode_bin(input@.skip(next as int)));
            lemma_records_view_push(data@, record);
        }
        data.push(record);
        pos = next;
    }
    proof {
        reveal(decode_bin);
        assert(input@.skip(pos as int) =~= Seq::<u8>::empty());
        assert(records_view(data@) + Seq::<RecordView>::empty() =~= records_view(data@));
    }
    Ok(data)
}

fn push_be64(out: &mut Vec<u8>, x: u64)
    ensures
        final(out)@ == old(out)@ + be64(x),
{
    out.push(((x >> 56u64) & 0xffu64) as u8);
    out.push(((x >> 48u64) & 0xffu64) as u8);
    out.push(((x >> 40u64) & 0xffu64) as u8);
    out.push(((x >> 32u64) & 0xffu64) as u8);
    out.push(((x >> 24u64) & 0xffu64) as u8);
    out.push(((x >> 16u64) & 0xffu64) as u8);
    out.push(((x >> 8u64) & 0xffu64) as u8);
    out.push((x & 0xffu64) as u8);
    assert(out@ =~= old(out)@ + be64(x));
}

fn push_be32(out: &mut Vec<u8>, x: u32)
    ensures
        final(out)@ == old(out)@ + be32(x),
{
    out.push(((x >> 24u32) & 0xffu32) as u8);
    out.push(((x >> 16u32) & 0xffu32) as u8);
    out.push(((x >> 8u32) & 0xffu32) as u8);
    out.push((x & 0xffu32) as u8);
    assert(out@ =~= old(out)@ + be32(x));
}

/// Appends the frame of one record.
fn push_frame(out: &mut Vec<u8>, record: &Record)
    requires
        bin_fits(record@),
    ensures
        final(out)@ == old(out)@ + frame(record@),
{
    let description_bytes = record.description.as_str().as_bytes();
    let desc_len = description_bytes.len() as u32;
    push_bytes(out, &[89u8, 80, 66, 78]);
    push_be32(out, MIN_RECORD_SIZE + desc_len);
    push_be64(out, record.tx_id);
    out.push(record.tx_type.to_byte());
    push_be64(out, record.from_user_id);
    push_be64(out, record.to_user_id);
    push_be64(out, record.amount);
    push_be64(out, record.timestamp);
    out.push(record.status.to_byte());
    push_be32(out, desc_len);
    push_bytes(out, description_bytes);
    reveal(frame);
    assert(out@ =~= old(out)@ + frame(record@));
}

/// Encodes records as consecutive frames. Only a description too long for the
/// 32-bit size field is refused; frames beyond the size bound that readers
/// accept are still written.
pub fn write_to(records: Vec<Record>) -> (r: Result<Vec<u8>, ParseError>)
    ensures
        match r {
            Ok(bytes) => (forall|i: int|
                0 <= i < records@.len() ==> bin_fits(#[trigger] records@[i]@)) && bytes@
                == encode_bin(records_view(records@)),
            Err(e) => (exists|i: int|
                0 <= i < records@.len() && !bin_fits(#[trigger] records@[i]@)) && e@
                == ErrorView::InvalidArgument("description too long"@),
        },
{
    let mut data: Vec<u8> = Vec::new();
    let mut i: usize = 0;
    while i < records.len()
        invariant
            i <= records@.len(),
            forall|k: int| 0 <= k < i ==> bin_fits(#[trigger] records@[k]@),
            data@ == encode_bin(records_view(records@.take(i as int))),
        decreases records@.len() - i,
    {
        let record = &records[i];
        let description_bytes = record.description.as_str().as_bytes();
        if description_bytes.len() > (u32::MAX - MIN_RECORD_SIZE) as usize {
            assert(!bin_fits(records@[i as int]@));
            return Err(ParseError::InvalidArgument("description too long"));
        }
        let ghost before = data@;
        push_frame(&mut data, record);
        proof {
            let rv = records_view(records@.take(i as int));
            assert(records_view(records@.take(i + 1)) =~= rv.push(record@));
            assert(rv.push(record@).map_values(|r: RecordView| frame(r)) =~= rv.map_values(
                |r: RecordView| frame(r),
            ).push(frame(record@)));
            rv.map_values(|r: RecordView| frame(r)).lemma_flatten_push(frame(record@));
            assert(data@ =~= before + frame(record@));
        }
        i = i + 1;
    }
    assert(records@.take(i as int) =~= records@);
    Ok(data)
}

pub proof fn lemma_be64(x: u64)
    ensures
        be64(x).len() == 8,
        from_be64(be64(x)) == x,
{
    assert((((x >> 56u64) & 0xffu64) as u8 as u64) << 56u64 | (((x >> 48u64) & 0xffu64) as u8 as u64)
        << 48u64 | (((x >> 40u64) & 0xffu64) as u8 as u64) << 40u64 | (((x >> 32u64) & 0xffu64) as u8
        as u64) << 32u64 | (((x >> 24u64) & 0xffu64) as u8 as u64) << 24u64 | (((x >> 16u64)
        & 0xffu64) as u8 as u64) << 16u64 | (((x >> 8u64) & 0xffu64) as u8 as u64) << 8u64 | ((x
        & 0xffu64) as u8 as u64) == x) by (bit_vector);
}

pub proof fn lemma_be32(x: u32)
    ensures
        be32(x).len() == 4,
        from_be32(be32(x)) == x,
{
    assert((((x >> 24u32) & 0xffu32) as u8 as u32) << 24u32 | (((x >> 16u32) & 0xffu32) as u8 as u32)
        << 16u32 | (((x >> 8u32) & 0xffu32) as u8 as u32) << 8u32 | ((x & 0xffu32) as u8 as u32)
        == x) by (bit_vector);
}

/// The header of a frame: its length, the magic, and the record size.
proof fn lemma_frame_header(r: RecordView)
    requires
        bin_fits(r),
    ensures
        frame(r).len() == HEADER_LEN + MIN_RECORD_SIZE + desc_bytes(r).len(),
        frame(r).take(4) == magic(),
        from_be32(frame(r).subrange(4, 8)) == MIN_RECORD_SIZE + desc_bytes(r).len(),
{
    reveal(frame);
    let size = (MIN_RECORD_SIZE + desc_bytes(r).len()) as u32;
    lemma_be32(size);
    assert(frame(r).take(4) =~= magic());
    assert(frame(r).subrange(4, 8) =~= be32(size));
}

/// The body of a frame holds its record.
proof fn lemma_frame_body(r: RecordView)
    requires
        bin_encodable(r),
    ensures
        frame_record(frame(r).subrange(8, 8 + MIN_RECORD_SIZE + desc_bytes(r).len())) == Ok::<
            RecordView,
            ErrorView,
        >(r),
{
    reveal(frame);
    let d = desc_bytes(r);
    let size = (MIN_RECORD_SIZE + d.len()) as u32;
    lemma_be64(r.tx_id);
    lemma_be64(r.from_user_id);
    lemma_be64(r.to_user_id);
    lemma_be64(r.amount);
    lemma_be64(r.timestamp);
    lemma_be32(size);
    lemma_be32(d.len() as u32);
    encode_utf8_valid_utf8(r.description);
    encode_utf8_decode_utf8(r.description);
    let b = frame(r).subrange(8, 8 + size);
    assert(b.subrange(0, 8) =~= be64(r.tx_id));
    assert(b[8] == r.tx_type.code());
    assert(b.subrange(9, 17) =~= be64(r.from_user_id));
    assert(b.subrange(17, 25) =~= be64(r.to_user_id));
    assert(b.subrange(25, 33) =~= be64(r.amount));
    assert(b.subrange(33, 41) =~= be64(r.timestamp));
    assert(b[41] == r.status.code());
    assert(b.subrange(42, 46) =~= be32(d.len() as u32));
    assert(b.skip(46) =~= d);
    assert(TransactionType::from_code(r.tx_type.code()) == Some(r.tx_type));
    assert(TransactionStatus::from_code(r.status.code()) == Some(r.status));
}

/// One frame followed by anything decodes to its record followed by what the
/// rest decodes to.
pub proof fn lemma_decode_frame(r: RecordView, tail: Seq<u8>)
    requires
        bin_encodable(r),
    ensures
        decode_bin(frame(r) + tail) == prepend(seq![r], decode_bin(tail)),
{
    reveal(decode_bin);
    let size = MIN_RECORD_SIZE + desc_bytes(r).len();
    let f = frame(r);
    let s = f + tail;
    lemma_frame_header(r);
    lemma_frame_body(r);
    assert(s.take(4) =~= f.take(4));
    assert(s.subrange(4, 8) =~= f.subrange(4, 8));
    assert(s.subrange(8, 8 + size) =~= f.subrange(8, 8 + size));
    assert(s.skip(8 + size) =~= tail);
}

proof fn lemma_encode_bin_first(rs: Seq<RecordView>)
    requires
        rs.len() > 0,
    ensures
        encode_bin(rs) == frame(rs[0]) + encode_bin(rs.drop_first()),
{
    let f = rs.map_values(|r: RecordView| frame(r));
    assert(f.drop_first() =~= rs.drop_first().map_values(|r: RecordView| frame(r)));
    assert(f.first() == frame(rs[0]));
}

/// Decoding what encoding produced gives back the same records, in order.
pub proof fn lemma_bin_round_trip(rs: Seq<RecordView>)
    requires
        forall|i: int| 0 <= i < rs.len() ==> bin_encodable(#[trigger] rs[i]),
    ensures
        decode_bin(encode_bin(rs)) == Ok::<Seq<RecordView>, ErrorView>(rs),
    decreases rs.len(),
{
    if rs.len() == 0 {
        assert(encode_bin(rs) =~= Seq::<u8>::empty());
        assert(rs =~= Seq::<RecordView>::empty());
        reveal(decode_bin);
    } else {
        let rest = rs.drop_first();
        lemma_encode_bin_first(rs);
        assert(bin_encodable(rs[0]));
        assert forall|i: int| 0 <= i < rest.len() implies bin_encodable(#[trigger] rest[i]) by {
            assert(rest[i] == rs[i + 1]);
        }
        lemma_bin_round_trip(rest);
        let tail = encode_bin(rest);
        lemma_decode_frame(rs[0], tail);
        assert(decode_bin(encode_bin(rs)) == prepend(seq![rs[0]], decode_bin(tail)));
        assert(seq![rs[0]] + rest =~= rs);
    }
}

/// Input that holds a whole header whose first four bytes are not the magic
/// fails with invalid-magic, whatever follows.
pub proof fn lemma_magic_rejected(s: Seq<u8>)
    requires
        s.len() >= HEADER_LEN,
        s.take(4) != magic(),
    ensures
        decode_bin(s) == Err::<Seq<RecordView>, ErrorView>(ErrorView::InvalidMagic),
{
    reveal(decode_bin);
}

/// A declared record size outside the accepted band fails with that size.
pub proof fn lemma_size_rejected(s: Seq<u8>)
    requires
        s.len() >= HEADER_LEN,
        s.take(4) == magic(),
        from_be32(s.subrange(4, 8)) < MIN_RECORD_SIZE || from_be32(s.subrange(4, 8))
            > MAX_RECORD_SIZE,
    ensures
        decode_bin(s) == Err::<Seq<RecordView>, ErrorView>(
            ErrorView::UnexpectedRecordSize(from_be32(s.subrange(4, 8))),
        ),
{
    reveal(decode_bin);
}

/// A frame whose description length disagrees with its record size fails as
/// damaged, naming the frame's own `tx_id`. The type and status bytes are
/// read before the length, so they are taken to be known codes.
pub proof fn lemma_damaged_rejected(s: Seq<u8>)
    requires
        s.len() >= HEADER_LEN,
        s.take(4) == magic(),
        MIN_RECORD_SIZE <= from_be32(s.subrange(4, 8)) <= MAX_RECORD_SIZE,
        s.len() >= HEADER_LEN + from_be32(s.subrange(4, 8)),
        TransactionType::from_code(s[16]) is Some,
        TransactionStatus::from_code(s[49]) is Some,
        from_be32(s.subrange(50, 54)) != from_be32(s.subrange(4, 8)) - MIN_RECORD_SIZE,
    ensures
        decode_bin(s) == Err::<Seq<RecordView>, ErrorView>(
            ErrorView::RecordDamaged(from_be64(s.subrange(8, 16))),
        ),
{
    reveal(decode_bin);
    let size = from_be32(s.subrange(4, 8));
    let b = s.subrange(8, 8 + size);
    assert(b.subrange(0, 8) =~= s.subrange(8, 16));
    assert(b[8] == s[16]);
    assert(b[41] == s[49]);
    assert(b.subrange(42, 46) =~= s.subrange(50, 54));
}

} // verus!
