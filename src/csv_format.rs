//! The CSV format: a fixed header line, then one record per line with its
//! eight fields separated by bare commas, without quoting or escaping.
use vstd::prelude::*;
use vstd::string::StringSliceAdditionalSpecFns;
use vstd::utf8::*;

use crate::error::{ErrorView, ParseError};
use crate::fields::{
    is_word, is_word_byte, lemma_tokens, number_field, read_status, read_text, read_type, status_field, text_field, type_field,
};
use crate::model::{
    decoded, lemma_records_view_push, prepend, records_view, Record, RecordView,
};
use crate::number::{
    decimal, is_digit, lemma_decimal, lemma_decimal_parses, parse_number, push_decimal,
};
use crate::scan::{
    find, find_byte, is_ws, lemma_ascii_first, lemma_ascii_last, lemma_find_bounds, lemma_find_concat, lemma_split_cons, lemma_split_one,
    lemma_trim_clean, lemma_ws_suffix_after_ascii, push_bytes, split, trim, trim_range, ws_suffix,
};

verus! {

pub const HEADER: &'static str = "TX_ID,TX_TYPE,FROM_USER_ID,TO_USER_ID,AMOUNT,TIMESTAMP,STATUS,DESCRIPTION";

/// The record on one trimmed, non-blank data line.
pub open spec fn csv_record(line: Seq<u8>) -> Result<RecordView, ErrorView> {
    let f = split(line, 44);
    if f.len() != 8 {
        Err(ErrorView::MalformedLine)
    } else {
        match number_field(f[0]) {
            Err(e) => Err(e),
            Ok(tx_id) => match type_field(f[1]) {
                Err(e) => Err(e),
                Ok(tx_type) => match number_field(f[2]) {
                    Err(e) => Err(e),
                    Ok(from_user_id) => match number_field(f[3]) {
                        Err(e) => Err(e),
                        Ok(to_user_id) => match number_field(f[4]) {
                            Err(e) => Err(e),
                            Ok(amount) => match number_field(f[5]) {
                                Err(e) => Err(e),
                                Ok(timestamp) => match status_field(f[6]) {
                                    Err(e) => Err(e),
                                    Ok(status) => match text_field(f[7]) {
                                        Err(e) => Err(e),
                                        Ok(description) => Ok(
                                            RecordView {
                                                tx_id,
                                                tx_type,
                                                from_user_id,
                                                to_user_id,
                                                amount,
                                                timestamp,
                                                status,
                                                description,
                                            },
                                        ),
                                    },
                                },
                            },
                        },
                    },
                },
            },
        }
    }
}

/// The records on the lines of `s`; blank lines hold none.
pub open spec fn csv_lines(s: Seq<u8>) -> Result<Seq<RecordView>, ErrorView>
    decreases s.len(),
{
    let i = find(s, 10);
    let line = trim(s.take(i as int));
    let here = if line.len() == 0 {
        Ok(Seq::<RecordView>::empty())
    } else {
        match csv_record(line) {
            Ok(r) => Ok(seq![r]),
            Err(e) => Err(e),
        }
    };
    match here {
        Err(e) => Err(e),
        Ok(h) => if i >= s.len() {
            Ok(h)
        } else {
            prepend(h, csv_lines(s.skip((i + 1) as int)))
        },
    }
}

/// What a CSV stream decodes to: the first line is the header and is skipped.
pub open spec fn decode_csv(s: Seq<u8>) -> Result<Seq<RecordView>, ErrorView> {
    let i = find(s, 10);
    if i >= s.len() {
        Ok(seq![])
    } else {
        csv_lines(s.skip((i + 1) as int))
    }
}

/// The line that encodes one record, with its line feed.
pub open spec fn csv_line(r: RecordView) -> Seq<u8> {
    decimal(r.tx_id as nat) + seq![44u8] + encode_utf8(r.tx_type.token()) + seq![44u8] + decimal(
        r.from_user_id as nat,
    ) + seq![44u8] + decimal(r.to_user_id as nat) + seq![44u8] + decimal(r.amount as nat) + seq![
        44u8,
    ] + decimal(r.timestamp as nat) + seq![44u8] + encode_utf8(r.status.token()) + seq![44u8]
        + encode_utf8(r.description) + seq![10u8]
}

pub open spec fn encode_csv(rs: Seq<RecordView>) -> Seq<u8> {
    HEADER.spec_bytes() + seq![10u8] + rs.map_values(|r: RecordView| csv_line(r)).flatten()
}

/// Collects the bounds of the comma-separated fields of `s[from..to]`.
fn field_bounds(s: &[u8], from: usize, to: usize) -> (r: Vec<(usize, usize)>)
    requires
        from <= to <= s@.len(),
    ensures
        r@.len() == split(s@.subrange(from as int, to as int), 44).len(),
        forall|k: int|
            0 <= k < r@.len() ==> r@[k].0 <= r@[k].1 <= to && from <= r@[k].0 && s@.subrange(
                #[trigger] r@[k].0 as int,
                r@[k].1 as int,
            ) == split(s@.subrange(from as int, to as int), 44)[k],
{
    let mut bounds: Vec<(usize, usize)> = Vec::new();
    let mut p = from;
    let ghost whole = split(s@.subrange(from as int, to as int), 44);
    proof {
        assert(whole == Seq::<Seq<u8>>::empty() + split(s@.subrange(p as int, to as int), 44));
    }
    loop
        invariant
            from <= p <= to <= s@.len(),
            whole == split(s@.subrange(from as int, to as int), 44),
            whole == bounds@.map_values(|b: (usize, usize)| s@.subrange(b.0 as int, b.1 as int))
                + split(s@.subrange(p as int, to as int), 44),
            forall|k: int|
                0 <= k < bounds@.len() ==> bounds@[k].0 <= bounds@[k].1 <= to && from
                    <= #[trigger] bounds@[k].0,
        decreases to - p,
    {
        let e = find_byte(s, p, to, 44);
        let ghost t = s@.subrange(p as int, to as int);
        proof {
            lemma_find_bounds(t, 44);
            assert(t.take(e - p) =~= s@.subrange(p as int, e as int));
        }
        let ghost old_bounds = bounds@;
        bounds.push((p, e));
        proof {
            assert(bounds@.map_values(|b: (usize, usize)| s@.subrange(b.0 as int, b.1 as int))
                =~= old_bounds.map_values(|b: (usize, usize)| s@.subrange(b.0 as int, b.1 as int))
                + seq![s@.subrange(p as int, e as int)]);
        }
        if e >= to {
            proof {
                assert(t =~= s@.subrange(p as int, e as int));
                assert(whole =~= bounds@.map_values(
                    |b: (usize, usize)| s@.subrange(b.0 as int, b.1 as int),
                ));
                assert forall|k: int| 0 <= k < bounds@.len() implies s@.subrange(
                    #[trigger] bounds@[k].0 as int,
                    bounds@[k].1 as int,
                ) == whole[k] by {
                    assert(whole[k] == bounds@.map_values(
                        |b: (usize, usize)| s@.subrange(b.0 as int, b.1 as int),
                    )[k]);
                }
            }
            return bounds;
        }
        proof {
            assert(t.skip(e - p + 1) =~= s@.subrange(e + 1, to as int));
            assert(whole =~= bounds@.map_values(
                |b: (usize, usize)| s@.subrange(b.0 as int, b.1 as int),
            ) + split(s@.subrange(e + 1, to as int), 44));
        }
        p = e + 1;
    }
}

/// Decodes the record on the trimmed, non-blank line `s[from..to]`.
fn read_record(s: &[u8], from: usize, to: usize) -> (r: Result<Record, ParseError>)
    requires
        from <= to <= s@.len(),
    ensures
        match csv_record(s@.subrange(from as int, to as int)) {
            Ok(v) => r matches Ok(x) && x@ == v,
            Err(e) => r matches Err(x) && x@ == e,
        },
{
    let f = field_bounds(s, from, to);
    if f.len() != 8 {
        return Err(ParseError::MalformedLine);
    }
    let tx_id = parse_number(s, f[0].0, f[0].1)?;
    let tx_type = read_type(s, f[1].0, f[1].1)?;
    let from_user_id = parse_number(s, f[2].0, f[2].1)?;
    let to_user_id = parse_number(s, f[3].0, f[3].1)?;
    let amount = parse_number(s, f[4].0, f[4].1)?;
    let timestamp = parse_number(s, f[5].0, f[5].1)?;
    let status = read_status(s, f[6].0, f[6].1)?;
    let description = read_text(s, f[7].0, f[7].1)?;
    Ok(Record { tx_id, tx_type, from_user_id, to_user_id, amount, timestamp, status, description })
}

/// Decodes a whole CSV stream into its records.
pub fn read_from(input: &[u8]) -> (r: Result<Vec<Record>, ParseError>)
    ensures
        decoded(r) == decode_csv(input@),
{
    let mut data: Vec<Record> = Vec::new();
    let header_end = find_byte(input, 0, input.len(), 10);
    assert(input@.subrange(0, input@.len() as int) =~= input@);
    if header_end >= input.len() {
        assert(records_view(data@) =~= Seq::<RecordView>::empty());
        return Ok(data);
    }
    let mut pos = header_end + 1;
    proof {
        if let Ok(rs) = csv_lines(input@.skip(pos as int)) {
            assert(records_view(data@) + rs =~= rs);
        }
    }
    loop
        invariant
            pos <= input@.len(),
            decode_csv(input@) == prepend(records_view(data@), csv_lines(input@.skip(pos as int))),
        decreases input@.len() - pos,
    {
        let ghost rest = input@.skip(pos as int);
        let end = find_byte(input, pos, input.len(), 10);
        assert(input@.subrange(pos as int, input@.len() as int) =~= rest);
        let (a, b) = trim_range(input, pos, end);
        assert(input@.subrange(pos as int, end as int) =~= rest.take(end - pos));
        let ghost before = records_view(data@);
        if a < b {
            let record = read_record(input, a, b)?;
            proof {
                lemma_records_view_push(data@, record);
            }
            data.push(record);
        }
        proof {
            assert(records_view(data@) =~= before + (if a < b {
                seq![records_view(data@).last()]
            } else {
                Seq::<RecordView>::empty()
            }));
        }
        if end >= input.len() {
            proof {
                if let Ok(rs) = csv_lines(rest) {
                    assert(before + rs =~= records_view(data@));
                }
            }
            return Ok(data);
        }
        proof {
            assert(rest.skip(end - pos + 1) =~= input@.skip(end + 1));
            if a < b {
                if let Ok(rs) = csv_lines(input@.skip(end + 1)) {
                    assert(before + (seq![records_view(data@).last()] + rs) =~= records_view(data@)
                        + rs);
                }
            } else {
                if let Ok(rs) = csv_lines(input@.skip(end + 1)) {
                    assert(before + (Seq::<RecordView>::empty() + rs) =~= records_view(data@) + rs);
                }
            }
        }
        pos = end + 1;
    }
}

/// Appends the line of one record.
fn push_line(out: &mut Vec<u8>, r: &Record)
    ensures
        final(out)@ == old(out)@ + csv_line(r@),
{
    push_decimal(out, r.tx_id);
    out.push(44);
    push_bytes(out, r.tx_type.to_str().as_bytes());
    out.push(44);
    push_decimal(out, r.from_user_id);
    out.push(44);
    push_decimal(out, r.to_user_id);
    out.push(44);
    push_decimal(out, r.amount);
    out.push(44);
    push_decimal(out, r.timestamp);
    out.push(44);
    push_bytes(out, r.status.to_str().as_bytes());
    out.push(44);
    push_bytes(out, r.description.as_str().as_bytes());
    out.push(10);
    assert(final(out)@ =~= old(out)@ + csv_line(r@));
}

/// Encodes records as the header line followed by one line per record, each
/// ended by a line feed.
pub fn write_to(records: Vec<Record>) -> (r: Vec<u8>)
    ensures
        r@ == encode_csv(records_view(records@)),
{
    let mut data: Vec<u8> = Vec::new();
    push_bytes(&mut data, HEADER.as_bytes());
    data.push(10);
    let mut i: usize = 0;
    proof {
        assert(records_view(records@.take(0)).map_values(|r: RecordView| csv_line(r))
            =~= Seq::<Seq<u8>>::empty());
        assert(data@ =~= encode_csv(records_view(records@.take(0))));
    }
    while i < records.len()
        invariant
            i <= records@.len(),
            data@ == encode_csv(records_view(records@.take(i as int))),
        decreases records@.len() - i,
    {
        let ghost before = data@;
        push_line(&mut data, &records[i]);
        proof {
            let rv = records_view(records@.take(i as int));
            assert(records_view(records@.take(i + 1)) =~= rv.push(records@[i as int]@));
            assert(rv.push(records@[i as int]@).map_values(|r: RecordView| csv_line(r))
                =~= rv.map_values(|r: RecordView| csv_line(r)).push(csv_line(records@[i as int]@)));
            rv.map_values(|r: RecordView| csv_line(r)).lemma_flatten_push(csv_line(records@[i as int]@));
            assert(data@ =~= encode_csv(records_view(records@.take(i + 1))));
        }
        i = i + 1;
    }
    assert(records@.take(i as int) =~= records@);
    data
}

/// A record that the CSV format carries unchanged: its description holds no
/// comma or line feed, and does not end in whitespace.
pub open spec fn csv_safe(r: RecordView) -> bool {
    let d = encode_utf8(r.description);
    (forall|i: int| 0 <= i < d.len() ==> #[trigger] d[i] != 44 && d[i] != 10) && ws_suffix(d)
        == 0
}

proof fn lemma_header()
    ensures
        forall|i: int| 0 <= i < HEADER.spec_bytes().len() ==> #[trigger] HEADER.spec_bytes()[i] != 10,
{
    reveal_strlit("TX_ID,TX_TYPE,FROM_USER_ID,TO_USER_ID,AMOUNT,TIMESTAMP,STATUS,DESCRIPTION");
    assert(vstd::string::is_ascii(HEADER));
}

/// Bytes that are digits or word bytes hold neither comma nor line feed.
proof fn lemma_plain(x: Seq<u8>)
    requires
        forall|i: int| 0 <= i < x.len() ==> is_digit(#[trigger] x[i]) || is_word_byte(x[i]),
    ensures
        forall|i: int| 0 <= i < x.len() ==> #[trigger] x[i] != 44 && x[i] != 10 && !is_ws(x[i]),
{
}

/// The fields of a record's line, as text.
spec fn csv_fields(r: RecordView) -> Seq<Seq<u8>> {
    seq![
        decimal(r.tx_id as nat),
        encode_utf8(r.tx_type.token()),
        decimal(r.from_user_id as nat),
        decimal(r.to_user_id as nat),
        decimal(r.amount as nat),
        decimal(r.timestamp as nat),
        encode_utf8(r.status.token()),
        encode_utf8(r.description),
    ]
}

/// The fields from `k` on, joined by commas.
spec fn joined(f: Seq<Seq<u8>>, k: int) -> Seq<u8>
    decreases f.len() - k,
{
    if k >= f.len() - 1 {
        f.last()
    } else {
        f[k] + seq![44u8] + joined(f, k + 1)
    }
}

proof fn lemma_csv_fields(r: RecordView)
    requires
        csv_safe(r),
    ensures
        forall|k: int, i: int|
            0 <= k < 8 && 0 <= i < csv_fields(r)[k].len() ==> #[trigger] csv_fields(r)[k][i] != 44
                && csv_fields(r)[k][i] != 10,
        csv_fields(r)[0].len() > 0 && csv_fields(r)[0][0] < 128 && !is_ws(csv_fields(r)[0][0]),
        csv_record(joined(csv_fields(r), 0)) == Ok::<RecordView, ErrorView>(r),
{
    lemma_tokens();
    lemma_decimal(r.tx_id as nat);
    lemma_decimal(r.from_user_id as nat);
    lemma_decimal(r.to_user_id as nat);
    lemma_decimal(r.amount as nat);
    lemma_decimal(r.timestamp as nat);
    lemma_decimal_parses(r.tx_id);
    lemma_decimal_parses(r.from_user_id);
    lemma_decimal_parses(r.to_user_id);
    lemma_decimal_parses(r.amount);
    lemma_decimal_parses(r.timestamp);
    encode_utf8_valid_utf8(r.description);
    encode_utf8_decode_utf8(r.description);
    let f = csv_fields(r);
    assert(is_word(f[1]));
    assert(is_word(f[6]));
    lemma_plain(f[0]);
    lemma_plain(f[1]);
    lemma_plain(f[2]);
    lemma_plain(f[3]);
    lemma_plain(f[4]);
    lemma_plain(f[5]);
    lemma_plain(f[6]);
    lemma_split_one(f[7], 44);
    lemma_split_cons(f[6], 44, joined(f, 7));
    lemma_split_cons(f[5], 44, joined(f, 6));
    lemma_split_cons(f[4], 44, joined(f, 5));
    lemma_split_cons(f[3], 44, joined(f, 4));
    lemma_split_cons(f[2], 44, joined(f, 3));
    lemma_split_cons(f[1], 44, joined(f, 2));
    lemma_split_cons(f[0], 44, joined(f, 1));
    assert(split(joined(f, 0), 44) =~= f);
}

/// A record's line is its fields joined by commas, then a line feed.
proof fn lemma_csv_line_joined(r: RecordView)
    ensures
        csv_line(r) == joined(csv_fields(r), 0) + seq![10u8],
{
    let f = csv_fields(r);
    let c = seq![44u8];
    let n = seq![10u8];
    let (f0, f1, f2, f3, f4, f5, f6, f7) = (f[0], f[1], f[2], f[3], f[4], f[5], f[6], f[7]);
    assert(joined(f, 7) == f7);
    assert(joined(f, 6) == f6 + c + joined(f, 7));
    assert(joined(f, 5) == f5 + c + joined(f, 6));
    assert(joined(f, 4) == f4 + c + joined(f, 5));
    assert(joined(f, 3) == f3 + c + joined(f, 4));
    assert(joined(f, 2) == f2 + c + joined(f, 3));
    assert(joined(f, 1) == f1 + c + joined(f, 2));
    assert(joined(f, 0) == f0 + c + joined(f, 1));
    let l1 = f0 + c + f1;
    let l2 = l1 + c + f2;
    let l3 = l2 + c + f3;
    let l4 = l3 + c + f4;
    let l5 = l4 + c + f5;
    let l6 = l5 + c + f6;
    let l7 = l6 + c + f7;
    assert(csv_line(r) == l7 + n);
    assert(l7 =~= l6 + (c + joined(f, 7)));
    assert(l6 + (c + joined(f, 7)) =~= l5 + (c + joined(f, 6)));
    assert(l5 + (c + joined(f, 6)) =~= l4 + (c + joined(f, 5)));
    assert(l4 + (c + joined(f, 5)) =~= l3 + (c + joined(f, 4)));
    assert(l3 + (c + joined(f, 4)) =~= l2 + (c + joined(f, 3)));
    assert(l2 + (c + joined(f, 3)) =~= l1 + (c + joined(f, 2)));
    assert(l1 + (c + joined(f, 2)) =~= f0 + (c + joined(f, 1)));
    assert(f0 + (c + joined(f, 1)) =~= joined(f, 0));
}

/// A record's joined fields end with a comma and the description.
proof fn lemma_joined_last(f: Seq<Seq<u8>>, k: int)
    requires
        0 <= k < f.len() - 1,
    ensures
        joined(f, k) == joined(f, k).take(joined(f, k).len() - f.last().len() - 1) + seq![44u8]
            + f.last(),
    decreases f.len() - k,
{
    let j = joined(f, k);
    let c = seq![44u8];
    if k == f.len() - 2 {
        assert(j == f[k] + c + f.last());
        assert(j.take(j.len() - f.last().len() - 1) =~= f[k]);
    } else {
        lemma_joined_last(f, k + 1);
        let j1 = joined(f, k + 1);
        let p1 = j1.take(j1.len() - f.last().len() - 1);
        assert(j == f[k] + c + (p1 + c + f.last()));
        assert(j.take(j.len() - f.last().len() - 1) =~= f[k] + c + p1);
        assert(j =~= (f[k] + c + p1) + c + f.last());
    }
}

/// Joined fields without line feeds hold none, and keep their ends.
proof fn lemma_joined(f: Seq<Seq<u8>>, k: int)
    requires
        0 <= k < f.len(),
        forall|j: int, i: int| 0 <= j < f.len() && 0 <= i < f[j].len() ==> #[trigger] f[j][i] != 10,
    ensures
        forall|i: int| 0 <= i < joined(f, k).len() ==> #[trigger] joined(f, k)[i] != 10,
        f[k].len() > 0 ==> joined(f, k)[0] == f[k][0],
        f.last().len() > 0 ==> joined(f, k).last() == f.last().last(),
        f.last().len() == 0 && k < f.len() - 1 ==> joined(f, k).last() == 44,
    decreases f.len() - k,
{
    if k < f.len() - 1 {
        lemma_joined(f, k + 1);
        let j = joined(f, k);
        assert forall|i: int| 0 <= i < j.len() implies #[trigger] j[i] != 10 by {
            if i < f[k].len() {
                assert(j[i] == f[k][i]);
            } else if i > f[k].len() {
                assert(j[i] == joined(f, k + 1)[i - f[k].len() - 1]);
            }
        }
        if f.last().len() == 0 && k + 1 == f.len() - 1 {
            assert(joined(f, k + 1) == f.last());
        }
    }
}

/// The line of one record, followed by anything, decodes to that record
/// followed by what the rest decodes to.
proof fn lemma_csv_line(r: RecordView, tail: Seq<u8>)
    requires
        csv_safe(r),
    ensures
        csv_lines(csv_line(r) + tail) == prepend(seq![r], csv_lines(tail)),
{
    let f = csv_fields(r);
    let line = joined(f, 0);
    lemma_csv_fields(r);
    lemma_csv_line_joined(r);
    assert forall|j: int, i: int| 0 <= j < f.len() && 0 <= i < f[j].len() implies #[trigger] f[j][i]
        != 10 by {}
    lemma_joined(f, 0);
    lemma_find_concat(line, 10, tail);
    lemma_ascii_first(line);
    let f7 = f[7];
    lemma_joined_last(f, 0);
    if f7.len() > 0 {
        let pre = line.take(line.len() - f7.len() - 1) + seq![44u8];
        assert(line =~= pre + f7);
        lemma_ws_suffix_after_ascii(pre, f7);
    } else {
        lemma_ascii_last(line);
    }
    lemma_trim_clean(line);
    assert(csv_line(r) + tail =~= line + seq![10u8] + tail);
}

/// Decoding what encoding produced gives back the same records, in order.
pub proof fn lemma_csv_round_trip(rs: Seq<RecordView>)
    requires
        forall|i: int| 0 <= i < rs.len() ==> csv_safe(#[trigger] rs[i]),
    ensures
        decode_csv(encode_csv(rs)) == Ok::<Seq<RecordView>, ErrorView>(rs),
{
    let lines = rs.map_values(|r: RecordView| csv_line(r)).flatten();
    lemma_header();
    lemma_find_concat(HEADER.spec_bytes(), 10, lines);
    lemma_csv_lines(rs);
}

proof fn lemma_csv_lines(rs: Seq<RecordView>)
    requires
        forall|i: int| 0 <= i < rs.len() ==> csv_safe(#[trigger] rs[i]),
    ensures
        csv_lines(rs.map_values(|r: RecordView| csv_line(r)).flatten()) == Ok::<
            Seq<RecordView>,
            ErrorView,
        >(rs),
    decreases rs.len(),
{
    if rs.len() == 0 {
        assert(rs.map_values(|r: RecordView| csv_line(r)).flatten() =~= Seq::<u8>::empty());
        assert(rs =~= Seq::<RecordView>::empty());
        assert(Seq::<u8>::empty().take(0) =~= Seq::<u8>::empty());
        lemma_trim_clean(Seq::<u8>::empty());
    } else {
        let rest = rs.drop_first();
        let m = rs.map_values(|r: RecordView| csv_line(r));
        assert(m.drop_first() =~= rest.map_values(|r: RecordView| csv_line(r)));
        assert(m.first() == csv_line(rs[0]));
        assert(csv_safe(rs[0]));
        assert forall|i: int| 0 <= i < rest.len() implies csv_safe(#[trigger] rest[i]) by {
            assert(rest[i] == rs[i + 1]);
        }
        lemma_csv_lines(rest);
        lemma_csv_line(rs[0], rest.map_values(|r: RecordView| csv_line(r)).flatten());
        assert(seq![rs[0]] + rest =~= rs);
    }
}

/// Complete lines (each ended by a line feed) followed by more input decode
/// as the lines, then the rest.
pub proof fn lemma_csv_lines_concat(p: Seq<u8>, t: Seq<u8>)
    requires
        p.len() == 0 || p.last() == 10,
    ensures
        csv_lines(p + t) == match csv_lines(p) {
            Ok(a) => prepend(a, csv_lines(t)),
            Err(e) => Err(e),
        },
    decreases p.len(),
{
    if p.len() == 0 {
        assert(p + t =~= t);
        assert(p.take(0) =~= p);
        lemma_trim_clean(p);
        if let Ok(rs) = csv_lines(t) {
            assert(Seq::<RecordView>::empty() + rs =~= rs);
        }
    } else {
        let s = p + t;
        let i = find(p, 10);
        lemma_find_bounds(p, 10);
        assert(p[p.len() - 1] == 10);
        assert(i < p.len());
        assert forall|k: int| 0 <= k < i implies s[k] != 10 by {
            assert(s[k] == p[k]);
        }
        crate::scan::lemma_find_is(s, 10, i as int);
        assert(s.take(i as int) =~= p.take(i as int));
        let p2 = p.skip((i + 1) as int);
        assert(s.skip((i + 1) as int) =~= p2 + t);
        if p2.len() > 0 {
            assert(p2.last() == p.last());
        }
        lemma_csv_lines_concat(p2, t);
        if p2.len() == 0 {
            assert(p2.take(0) =~= p2);
            lemma_trim_clean(p2);
            assert(csv_lines(p2) == Ok::<Seq<RecordView>, ErrorView>(Seq::<RecordView>::empty()));
        }
        match csv_lines(p2) {
            Ok(a) => {
                if let Ok(rs) = csv_lines(t) {
                    let line = trim(p.take(i as int));
                    if line.len() > 0 {
                        if let Ok(r) = csv_record(line) {
                            assert(seq![r] + (a + rs) =~= (seq![r] + a) + rs);
                        }
                    } else {
                        assert(Seq::<RecordView>::empty() + (a + rs) =~= (
                        Seq::<RecordView>::empty() + a) + rs);
                    }
                }
            },
            Err(_) => {},
        }
    }
}

/// A data line with other than eight comma-separated fields fails as
/// malformed, after any lines that decode without error.
pub proof fn lemma_csv_arity(header: Seq<u8>, before: Seq<u8>, line: Seq<u8>, rest: Seq<u8>)
    requires
        forall|k: int| 0 <= k < header.len() ==> header[k] != 10,
        before.len() == 0 || before.last() == 10,
        csv_lines(before) is Ok,
        forall|k: int| 0 <= k < line.len() ==> line[k] != 10,
        trim(line).len() > 0,
        split(trim(line), 44).len() != 8,
        rest.len() == 0 || rest[0] == 10,
    ensures
        decode_csv(header + seq![10u8] + before + line + rest) == Err::<
            Seq<RecordView>,
            ErrorView,
        >(ErrorView::MalformedLine),
{
    let tail = line + rest;
    let s = header + seq![10u8] + before + line + rest;
    assert(s =~= header + seq![10u8] + (before + tail));
    lemma_find_concat(header, 10, before + tail);
    lemma_csv_lines_concat(before, tail);
    if rest.len() == 0 {
        assert(tail =~= line);
        crate::scan::lemma_find_is(line, 10, line.len() as int);
        assert(line.take(line.len() as int) =~= line);
    } else {
        assert(tail =~= line + seq![10u8] + rest.skip(1));
        lemma_find_concat(line, 10, rest.skip(1));
    }
}

} // verus!
