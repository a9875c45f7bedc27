//! The text format: blocks of `KEY: value` lines in any order, each block ended
//! by a blank line or the end of input; lines that start with `#` are comments.
use vstd::prelude::*;
use vstd::string::StringSliceAdditionalSpecFns;
use vstd::utf8::*;

use crate::error::{ErrorView, ParseError};
use crate::fields::{
    is_word, is_word_byte, lemma_tokens, number_field, read_status, read_text, read_type, status_field, text_field, type_field,
};
use crate::model::{
    decoded, lemma_records_view_push, records_view, DraftView, Field, Record, RecordView,
    TextRecordDraft,
};
use crate::number::{
    decimal, lemma_decimal, lemma_decimal_parses, parse_number, push_decimal,
};
use crate::scan::{
    bytes_eq, copy_range, find, find_byte, lemma_ascii_first, lemma_ascii_last, lemma_find_concat,
    lemma_trim_clean, lemma_ws_suffix_after_ascii, push_bytes, trim, trim_end, trim_range,
    trim_start, ws_prefix, ws_suffix,
};

verus! {

/// The field that a key names, in the order in which keys are tried.
pub open spec fn field_of_key(k: Seq<u8>) -> Option<Field> {
    if k == encode_utf8(Field::TxId.key()) {
        Some(Field::TxId)
    } else if k == encode_utf8(Field::FromUserId.key()) {
        Some(Field::FromUserId)
    } else if k == encode_utf8(Field::ToUserId.key()) {
        Some(Field::ToUserId)
    } else if k == encode_utf8(Field::Timestamp.key()) {
        Some(Field::Timestamp)
    } else if k == encode_utf8(Field::Amount.key()) {
        Some(Field::Amount)
    } else if k == encode_utf8(Field::TxType.key()) {
        Some(Field::TxType)
    } else if k == encode_utf8(Field::Description.key()) {
        Some(Field::Description)
    } else if k == encode_utf8(Field::Status.key()) {
        Some(Field::Status)
    } else {
        None
    }
}

/// The draft after field `f` is given the text `value`.
pub open spec fn set_field(d: DraftView, f: Field, value: Seq<u8>) -> Result<DraftView, ErrorView> {
    match f {
        Field::TxId => match number_field(value) {
            Ok(v) => Ok(DraftView { tx_id: Some(v), ..d }),
            Err(e) => Err(e),
        },
        Field::FromUserId => match number_field(value) {
            Ok(v) => Ok(DraftView { from_user_id: Some(v), ..d }),
            Err(e) => Err(e),
        },
        Field::ToUserId => match number_field(value) {
            Ok(v) => Ok(DraftView { to_user_id: Some(v), ..d }),
            Err(e) => Err(e),
        },
        Field::Timestamp => match number_field(value) {
            Ok(v) => Ok(DraftView { timestamp: Some(v), ..d }),
            Err(e) => Err(e),
        },
        Field::Amount => match number_field(value) {
            Ok(v) => Ok(DraftView { amount: Some(v), ..d }),
            Err(e) => Err(e),
        },
        Field::TxType => match type_field(value) {
            Ok(v) => Ok(DraftView { tx_type: Some(v), ..d }),
            Err(e) => Err(e),
        },
        Field::Description => match text_field(value) {
            Ok(v) => Ok(DraftView { description: Some(v), ..d }),
            Err(e) => Err(e),
        },
        Field::Status => match status_field(value) {
            Ok(v) => Ok(DraftView { status: Some(v), ..d }),
            Err(e) => Err(e),
        },
    }
}

/// The draft after one `KEY: value` line (already trimmed).
pub open spec fn text_entry(d: DraftView, line: Seq<u8>) -> Result<DraftView, ErrorView> {
    let c = find(line, 58);
    if c >= line.len() {
        Err(ErrorView::MalformedLine)
    } else {
        match field_of_key(trim(line.take(c as int))) {
            None => Err(ErrorView::MalformedLine),
            Some(f) => set_field(d, f, trim(line.skip((c + 1) as int))),
        }
    }
}

/// One trimmed line applied to the draft and the records so far.
pub open spec fn text_step(line: Seq<u8>, d: DraftView, acc: Seq<RecordView>) -> Result<
    (DraftView, Seq<RecordView>),
    ErrorView,
> {
    if line.len() == 0 {
        if d.is_empty() {
            Ok((d, acc))
        } else {
            match d.finish() {
                Ok(r) => Ok((DraftView::empty(), acc.push(r))),
                Err(e) => Err(e),
            }
        }
    } else if line[0] == 35 {
        Ok((d, acc))
    } else {
        match text_entry(d, line) {
            Ok(d2) => Ok((d2, acc)),
            Err(e) => Err(e),
        }
    }
}

/// At the end of input a non-empty draft becomes the last record.
pub open spec fn text_finish(d: DraftView, acc: Seq<RecordView>) -> Result<Seq<RecordView>, ErrorView> {
    if d.is_empty() {
        Ok(acc)
    } else {
        match d.finish() {
            Ok(r) => Ok(acc.push(r)),
            Err(e) => Err(e),
        }
    }
}

/// The records of the lines of `s`, after `acc` and starting from draft `d`.
pub open spec fn text_from(s: Seq<u8>, d: DraftView, acc: Seq<RecordView>) -> Result<
    Seq<RecordView>,
    ErrorView,
>
    decreases s.len(),
{
    let i = find(s, 10);
    match text_step(trim(s.take(i as int)), d, acc) {
        Err(e) => Err(e),
        Ok((d2, acc2)) => if i >= s.len() {
            text_finish(d2, acc2)
        } else {
            text_from(s.skip((i + 1) as int), d2, acc2)
        },
    }
}

/// What a text stream decodes to.
pub open spec fn decode_text(s: Seq<u8>) -> Result<Seq<RecordView>, ErrorView> {
    text_from(s, DraftView::empty(), seq![])
}

/// The field that the key `s[from..to]` names.
fn key_field(s: &[u8], from: usize, to: usize) -> (r: Option<Field>)
    requires
        from <= to <= s@.len(),
    ensures
        r == field_of_key(s@.subrange(from as int, to as int)),
{
    let k = &s[from..to];
    if bytes_eq(k, Field::TxId.key_str().as_bytes()) {
        Some(Field::TxId)
    } else if bytes_eq(k, Field::FromUserId.key_str().as_bytes()) {
        Some(Field::FromUserId)
    } else if bytes_eq(k, Field::ToUserId.key_str().as_bytes()) {
        Some(Field::ToUserId)
    } else if bytes_eq(k, Field::Timestamp.key_str().as_bytes()) {
        Some(Field::Timestamp)
    } else if bytes_eq(k, Field::Amount.key_str().as_bytes()) {
        Some(Field::Amount)
    } else if bytes_eq(k, Field::TxType.key_str().as_bytes()) {
        Some(Field::TxType)
    } else if bytes_eq(k, Field::Description.key_str().as_bytes()) {
        Some(Field::Description)
    } else if bytes_eq(k, Field::Status.key_str().as_bytes()) {
        Some(Field::Status)
    } else {
        None
    }
}

/// Gives field `f` of the draft the value `s[from..to]`.
fn set_draft_field(draft: &mut TextRecordDraft, f: Field, s: &[u8], from: usize, to: usize) -> (r:
    Result<(), ParseError>)
    requires
        from <= to <= s@.len(),
    ensures
        match set_field(old(draft)@, f, s@.subrange(from as int, to as int)) {
            Ok(d) => r is Ok && final(draft)@ == d,
            Err(e) => r matches Err(x) && x@ == e,
        },
{
    match f {
        Field::TxId => draft.tx_id = Some(parse_number(s, from, to)?),
        Field::FromUserId => draft.from_user_id = Some(parse_number(s, from, to)?),
        Field::ToUserId => draft.to_user_id = Some(parse_number(s, from, to)?),
        Field::Timestamp => draft.timestamp = Some(parse_number(s, from, to)?),
        Field::Amount => draft.amount = Some(parse_number(s, from, to)?),
        Field::TxType => draft.tx_type = Some(read_type(s, from, to)?),
        Field::Description => draft.description = Some(read_text(s, from, to)?),
        Field::Status => draft.status = Some(read_status(s, from, to)?),
    }
    Ok(())
}

/// Applies the trimmed, non-blank line `s[from..to]` to the draft and records.
fn read_line(
    s: &[u8],
    from: usize,
    to: usize,
    draft: &mut TextRecordDraft,
    data: &mut Vec<Record>,
) -> (r: Result<(), ParseError>)
    requires
        from <= to <= s@.len(),
    ensures
        match text_step(s@.subrange(from as int, to as int), old(draft)@, records_view(old(data)@)) {
            Ok((d, acc)) => r is Ok && final(draft)@ == d && records_view(final(data)@) == acc,
            Err(e) => r matches Err(x) && x@ == e,
        },
{
    if from == to {
        if !draft.is_empty() {
            let record = Record::from_draft(draft)?;
            proof {
                lemma_records_view_push(data@, record);
            }
            data.push(record);
            draft.reset();
        }
        return Ok(());
    }
    if s[from] == 35 {
        return Ok(());
    }
    let ghost line = s@.subrange(from as int, to as int);
    let colon = find_byte(s, from, to, 58);
    if colon >= to {
        return Err(ParseError::MalformedLine);
    }
    let (ka, kb) = trim_range(s, from, colon);
    let (va, vb) = trim_range(s, colon + 1, to);
    assert(s@.subrange(from as int, colon as int) =~= line.take(colon - from));
    assert(s@.subrange(colon + 1, to as int) =~= line.skip(colon - from + 1));
    let field = match key_field(s, ka, kb) {
        Some(f) => f,
        None => return Err(ParseError::MalformedLine),
    };
    set_draft_field(draft, field, s, va, vb)
}

/// Decodes a whole text stream into its records.
pub fn read_from(input: &[u8]) -> (r: Result<Vec<Record>, ParseError>)
    ensures
        decoded(r) == decode_text(input@),
{
    let mut data: Vec<Record> = Vec::new();
    let mut draft = TextRecordDraft {
        tx_id: None,
        tx_type: None,
        from_user_id: None,
        to_user_id: None,
        amount: None,
        timestamp: None,
        status: None,
        description: None,
    };
    let mut pos: usize = 0;
    proof {
        assert(input@.skip(0) =~= input@);
        assert(records_view(data@) =~= Seq::<RecordView>::empty());
    }
    loop
        invariant
            pos <= input@.len(),
            decode_text(input@) == text_from(input@.skip(pos as int), draft@, records_view(data@)),
        decreases input@.len() - pos,
    {
        let ghost rest = input@.skip(pos as int);
        let end = find_byte(input, pos, input.len(), 10);
        assert(input@.subrange(pos as int, input@.len() as int) =~= rest);
        let (a, b) = trim_range(input, pos, end);
        assert(input@.subrange(pos as int, end as int) =~= rest.take(end - pos));
        read_line(input, a, b, &mut draft, &mut data)?;
        if end >= input.len() {
            if !draft.is_empty() {
                let record = Record::from_draft(&draft)?;
                proof {
                    lemma_records_view_push(data@, record);
                }
                data.push(record);
            }
            return Ok(data);
        }
        assert(rest.skip(end - pos + 1) =~= input@.skip(end + 1));
        pos = end + 1;
    }
}

/// The text of field `f` of a record.
pub open spec fn field_text(f: Field, r: RecordView) -> Seq<u8> {
    match f {
        Field::TxId => decimal(r.tx_id as nat),
        Field::TxType => encode_utf8(r.tx_type.token()),
        Field::FromUserId => decimal(r.from_user_id as nat),
        Field::ToUserId => decimal(r.to_user_id as nat),
        Field::Amount => decimal(r.amount as nat),
        Field::Timestamp => decimal(r.timestamp as nat),
        Field::Status => encode_utf8(r.status.token()),
        Field::Description => encode_utf8(r.description),
    }
}

/// The `KEY: value` line of field `f`, with its line feed.
#[verifier::opaque]
pub open spec fn entry_line(f: Field, r: RecordView) -> Seq<u8> {
    encode_utf8(f.key()) + seq![58u8, 32u8] + field_text(f, r) + seq![10u8]
}

/// The lines of the given fields, in the given order.
pub open spec fn entry_lines(order: Seq<Field>, r: RecordView) -> Seq<u8> {
    order.map_values(|f: Field| entry_line(f, r)).flatten()
}

/// The block of one record: its eight lines in the written order, then a
/// blank line.
#[verifier::opaque]
pub open spec fn text_block(r: RecordView) -> Seq<u8> {
    entry_line(Field::TxId, r) + entry_line(Field::TxType, r) + entry_line(Field::ToUserId, r)
        + entry_line(Field::FromUserId, r) + entry_line(Field::Timestamp, r) + entry_line(
        Field::Description,
        r,
    ) + entry_line(Field::Amount, r) + entry_line(Field::Status, r) + seq![10u8]
}

/// The text encoding: the blocks one after another, trimmed.
pub open spec fn encode_text(rs: Seq<RecordView>) -> Seq<u8> {
    trim(rs.map_values(|r: RecordView| text_block(r)).flatten())
}

/// Appends the line of field `f`.
fn push_entry(out: &mut Vec<u8>, f: Field, r: &Record)
    ensures
        final(out)@ == old(out)@ + entry_line(f, r@),
{
    push_bytes(out, f.key_str().as_bytes());
    out.push(58);
    out.push(32);
    match f {
        Field::TxId => push_decimal(out, r.tx_id),
        Field::TxType => push_bytes(out, r.tx_type.to_str().as_bytes()),
        Field::FromUserId => push_decimal(out, r.from_user_id),
        Field::ToUserId => push_decimal(out, r.to_user_id),
        Field::Amount => push_decimal(out, r.amount),
        Field::Timestamp => push_decimal(out, r.timestamp),
        Field::Status => push_bytes(out, r.status.to_str().as_bytes()),
        Field::Description => push_bytes(out, r.description.as_str().as_bytes()),
    }
    out.push(10);
    reveal(entry_line);
    assert(final(out)@ =~= old(out)@ + entry_line(f, r@));
}

/// Encodes records as blocks of `KEY: value` lines separated by blank lines.
pub fn write_to(records: Vec<Record>) -> (r: Vec<u8>)
    ensures
        r@ == encode_text(records_view(records@)),
{
    let mut data: Vec<u8> = Vec::new();
    let mut i: usize = 0;
    proof {
        assert(records_view(records@.take(0)).map_values(|r: RecordView| text_block(r))
            =~= Seq::<Seq<u8>>::empty());
    }
    while i < records.len()
        invariant
            i <= records@.len(),
            data@ == records_view(records@.take(i as int)).map_values(
                |r: RecordView| text_block(r),
            ).flatten(),
        decreases records@.len() - i,
    {
        let ghost before = data@;
        let record = &records[i];
        push_entry(&mut data, Field::TxId, record);
        push_entry(&mut data, Field::TxType, record);
        push_entry(&mut data, Field::ToUserId, record);
        push_entry(&mut data, Field::FromUserId, record);
        push_entry(&mut data, Field::Timestamp, record);
        push_entry(&mut data, Field::Description, record);
        push_entry(&mut data, Field::Amount, record);
        push_entry(&mut data, Field::Status, record);
        data.push(10);
        proof {
            reveal(text_block);
            assert(data@ =~= before + text_block(record@));
            let rv = records_view(records@.take(i as int));
            assert(records_view(records@.take(i + 1)) =~= rv.push(record@));
            assert(rv.push(record@).map_values(|r: RecordView| text_block(r)) =~= rv.map_values(
                |r: RecordView| text_block(r),
            ).push(text_block(record@)));
            rv.map_values(|r: RecordView| text_block(r)).lemma_flatten_push(text_block(record@));
        }
        i = i + 1;
    }
    assert(records@.take(i as int) =~= records@);
    let (a, b) = trim_range(data.as_slice(), 0, data.len());
    assert(data@.subrange(0, data@.len() as int) =~= data@);
    copy_range(data.as_slice(), a, b)
}

/// A record that the text format carries unchanged: its description holds no
/// line feed and neither starts nor ends with a whitespace character.
pub open spec fn text_safe(r: RecordView) -> bool {
    let d = encode_utf8(r.description);
    (forall|i: int| 0 <= i < d.len() ==> #[trigger] d[i] != 10) && ws_prefix(d) == 0 && ws_suffix(
        d,
    ) == 0
}

/// The draft with field `f` taken from `r`.
pub open spec fn fill(d: DraftView, f: Field, r: RecordView) -> DraftView {
    match f {
        Field::TxId => DraftView { tx_id: Some(r.tx_id), ..d },
        Field::TxType => DraftView { tx_type: Some(r.tx_type), ..d },
        Field::FromUserId => DraftView { from_user_id: Some(r.from_user_id), ..d },
        Field::ToUserId => DraftView { to_user_id: Some(r.to_user_id), ..d },
        Field::Amount => DraftView { amount: Some(r.amount), ..d },
        Field::Timestamp => DraftView { timestamp: Some(r.timestamp), ..d },
        Field::Status => DraftView { status: Some(r.status), ..d },
        Field::Description => DraftView { description: Some(r.description), ..d },
    }
}

/// The draft with the given fields, in order, taken from `r`.
pub open spec fn fill_all(d: DraftView, order: Seq<Field>, r: RecordView) -> DraftView
    decreases order.len(),
{
    if order.len() == 0 {
        d
    } else {
        fill_all(fill(d, order[0], r), order.drop_first(), r)
    }
}

/// Every field present in the draft holds the value that `r` has.
pub open spec fn agrees(d: DraftView, r: RecordView) -> bool {
    &&& (d.tx_id is Some ==> d.tx_id == Some(r.tx_id))
    &&& (d.tx_type is Some ==> d.tx_type == Some(r.tx_type))
    &&& (d.from_user_id is Some ==> d.from_user_id == Some(r.from_user_id))
    &&& (d.to_user_id is Some ==> d.to_user_id == Some(r.to_user_id))
    &&& (d.amount is Some ==> d.amount == Some(r.amount))
    &&& (d.timestamp is Some ==> d.timestamp == Some(r.timestamp))
    &&& (d.status is Some ==> d.status == Some(r.status))
    &&& (d.description is Some ==> d.description == Some(r.description))
}

/// The keys are upper-case words, and each names its own field.
pub proof fn lemma_keys()
    ensures
        forall|f: Field| #[trigger] is_word(encode_utf8(f.key())),
        forall|f: Field| #[trigger] field_of_key(encode_utf8(f.key())) == Some(f),
{
    reveal_strlit("TX_ID");
    reveal_strlit("TX_TYPE");
    reveal_strlit("FROM_USER_ID");
    reveal_strlit("TO_USER_ID");
    reveal_strlit("AMOUNT");
    reveal_strlit("TIMESTAMP");
    reveal_strlit("STATUS");
    reveal_strlit("DESCRIPTION");
    assert(vstd::string::is_ascii("TX_ID"));
    assert(vstd::string::is_ascii("TX_TYPE"));
    assert(vstd::string::is_ascii("FROM_USER_ID"));
    assert(vstd::string::is_ascii("TO_USER_ID"));
    assert(vstd::string::is_ascii("AMOUNT"));
    assert(vstd::string::is_ascii("TIMESTAMP"));
    assert(vstd::string::is_ascii("STATUS"));
    assert(vstd::string::is_ascii("DESCRIPTION"));
    let b0 = "TX_ID".spec_bytes();
    let b1 = "TX_TYPE".spec_bytes();
    let b2 = "FROM_USER_ID".spec_bytes();
    let b3 = "TO_USER_ID".spec_bytes();
    let b4 = "AMOUNT".spec_bytes();
    let b5 = "TIMESTAMP".spec_bytes();
    let b6 = "STATUS".spec_bytes();
    let b7 = "DESCRIPTION".spec_bytes();
    assert(b4[0] != b6[0]);
    assert(b4 != b6);
    assert forall|f: Field| #[trigger] is_word(encode_utf8(f.key())) by {
        match f {
            Field::TxId => assert(is_word(b0)),
            Field::TxType => assert(is_word(b1)),
            Field::FromUserId => assert(is_word(b2)),
            Field::ToUserId => assert(is_word(b3)),
            Field::Amount => assert(is_word(b4)),
            Field::Timestamp => assert(is_word(b5)),
            Field::Status => assert(is_word(b6)),
            Field::Description => assert(is_word(b7)),
        }
    }
}

/// The text of a field: no line feed, no whitespace at its ends, and it sets
/// the field to the record's value.
proof fn lemma_field_text(f: Field, r: RecordView, d: DraftView)
    requires
        text_safe(r),
    ensures
        forall|i: int| 0 <= i < field_text(f, r).len() ==> #[trigger] field_text(f, r)[i] != 10,
        ws_prefix(field_text(f, r)) == 0,
        ws_suffix(field_text(f, r)) == 0,
        set_field(d, f, field_text(f, r)) == Ok::<DraftView, ErrorView>(fill(d, f, r)),
{
    lemma_tokens();
    encode_utf8_valid_utf8(r.description);
    encode_utf8_decode_utf8(r.description);
    match f {
        Field::TxId => {
            lemma_decimal(r.tx_id as nat);
            lemma_decimal_parses(r.tx_id);
        },
        Field::FromUserId => {
            lemma_decimal(r.from_user_id as nat);
            lemma_decimal_parses(r.from_user_id);
        },
        Field::ToUserId => {
            lemma_decimal(r.to_user_id as nat);
            lemma_decimal_parses(r.to_user_id);
        },
        Field::Amount => {
            lemma_decimal(r.amount as nat);
            lemma_decimal_parses(r.amount);
        },
        Field::Timestamp => {
            lemma_decimal(r.timestamp as nat);
            lemma_decimal_parses(r.timestamp);
        },
        Field::TxType => {
            assert(is_word(encode_utf8(r.tx_type.token())));
        },
        Field::Status => {
            assert(is_word(encode_utf8(r.status.token())));
        },
        Field::Description => {},
    }
    let v = field_text(f, r);
    if f != Field::Description {
        assert(v.len() > 0);
        assert(v.last() == v[v.len() - 1]);
        lemma_ascii_first(v);
        lemma_ascii_last(v);
    }
}

/// What follows the colon of a `KEY: value` line once trimmed: nothing for an
/// empty value, else a space and the value.
spec fn after_colon(v: Seq<u8>) -> Seq<u8> {
    if v.len() > 0 {
        seq![32u8] + v
    } else {
        Seq::<u8>::empty()
    }
}

/// Trimming a `KEY: value` line with a word key and a clean value, and
/// splitting it at its colon, gives back the key and the value.
proof fn lemma_key_value_line(k: Seq<u8>, v: Seq<u8>)
    requires
        is_word(k),
        ws_prefix(v) == 0,
        ws_suffix(v) == 0,
    ensures
        trim(k + seq![58u8, 32u8] + v) == k + seq![58u8] + after_colon(v),
        find(k + seq![58u8] + after_colon(v), 58) == k.len(),
        (k + seq![58u8] + after_colon(v)).take(k.len() as int) == k,
        (k + seq![58u8] + after_colon(v)).skip((k.len() + 1) as int) == after_colon(v),
        (k + seq![58u8] + after_colon(v))[0] == k[0],
        trim(k) == k,
        trim(after_colon(v)) == v,
{
    let body = k + seq![58u8, 32u8] + v;
    let x = after_colon(v);
    let line = k + seq![58u8] + x;
    assert(body[0] == k[0]);
    lemma_ascii_first(body);
    if v.len() > 0 {
        assert(body =~= line);
        lemma_ws_suffix_after_ascii(k + seq![58u8, 32u8], v);
        lemma_trim_clean(body);
        assert(x.skip(1) =~= v);
        assert(trim_start(x) == trim_start(v));
        lemma_trim_clean(v);
    } else {
        assert(body =~= line + seq![32u8]);
        assert(trim_start(body) == body);
        assert(body.take(body.len() - 1) =~= line);
        assert(trim_end(body) == trim_end(line));
        lemma_ascii_last(line);
        assert(trim_end(line) == line);
        lemma_trim_clean(x);
    }
    assert(forall|i: int| 0 <= i < k.len() ==> #[trigger] k[i] != 58);
    lemma_find_concat(k, 58, x);
    assert(k.last() == k[k.len() - 1]);
    lemma_ascii_first(k);
    lemma_ascii_last(k);
    lemma_trim_clean(k);
}

/// The trimmed `KEY: value` line of a field sets that field.
proof fn lemma_entry_body(f: Field, r: RecordView, d: DraftView, acc: Seq<RecordView>)
    requires
        text_safe(r),
    ensures
        entry_line(f, r) == entry_line(f, r).drop_last() + seq![10u8],
        forall|i: int|
            0 <= i < entry_line(f, r).len() - 1 ==> #[trigger] entry_line(f, r)[i] != 10,
        text_step(trim(entry_line(f, r).drop_last()), d, acc) == Ok::<
            (DraftView, Seq<RecordView>),
            ErrorView,
        >((fill(d, f, r), acc)),
{
    reveal(entry_line);
    lemma_keys();
    lemma_field_text(f, r, d);
    let k = encode_utf8(f.key());
    let v = field_text(f, r);
    assert(is_word(k));
    let body = k + seq![58u8, 32u8] + v;
    assert(entry_line(f, r) == body + seq![10u8]);
    assert((body + seq![10u8]).drop_last() =~= body);
    assert forall|i: int| 0 <= i < body.len() implies #[trigger] body[i] != 10 by {
        if i >= k.len() + 2 {
            assert(body[i] == v[i - k.len() - 2]);
        }
    }
    assert forall|i: int| 0 <= i < entry_line(f, r).len() - 1 implies #[trigger] entry_line(
        f,
        r,
    )[i] != 10 by {
        assert(entry_line(f, r)[i] == body[i]);
    }
    lemma_key_value_line(k, v);
    let line = k + seq![58u8] + after_colon(v);
    assert(text_entry(d, line) == set_field(d, f, v));
}

/// One `KEY: value` line sets its field and leaves the rest to the lines after it.
proof fn lemma_entry_step(f: Field, r: RecordView, rest: Seq<u8>, d: DraftView, acc: Seq<RecordView>)
    requires
        text_safe(r),
    ensures
        text_from(entry_line(f, r) + rest, d, acc) == text_from(rest, fill(d, f, r), acc),
{
    lemma_entry_body(f, r, d, acc);
    let body = entry_line(f, r).drop_last();
    assert forall|i: int| 0 <= i < body.len() implies #[trigger] body[i] != 10 by {
        assert(body[i] == entry_line(f, r)[i]);
    }
    lemma_find_concat(body, 10, rest);
    assert(entry_line(f, r) + rest =~= body + seq![10u8] + rest);
}

proof fn lemma_entry_lines_first(order: Seq<Field>, r: RecordView)
    requires
        order.len() > 0,
    ensures
        entry_lines(order, r) == entry_line(order[0], r) + entry_lines(order.drop_first(), r),
{
    let m = order.map_values(|f: Field| entry_line(f, r));
    assert(m.drop_first() =~= order.drop_first().map_values(|f: Field| entry_line(f, r)));
}

/// Lines of fields, followed by anything, fill those fields in order.
proof fn lemma_entries(
    order: Seq<Field>,
    r: RecordView,
    rest: Seq<u8>,
    d: DraftView,
    acc: Seq<RecordView>,
)
    requires
        text_safe(r),
    ensures
        text_from(entry_lines(order, r) + rest, d, acc) == text_from(
            rest,
            fill_all(d, order, r),
            acc,
        ),
    decreases order.len(),
{
    if order.len() == 0 {
        assert(entry_lines(order, r) + rest =~= rest);
    } else {
        lemma_entry_lines_first(order, r);
        let tail = entry_lines(order.drop_first(), r) + rest;
        assert(entry_lines(order, r) + rest =~= entry_line(order[0], r) + tail);
        lemma_entry_step(order[0], r, tail, d, acc);
        lemma_entries(order.drop_first(), r, rest, fill(d, order[0], r), acc);
    }
}

/// Filling fields from `r` keeps the draft in agreement with `r`, and makes
/// present exactly the fields that were present or filled.
proof fn lemma_fill_all(d: DraftView, order: Seq<Field>, r: RecordView)
    requires
        agrees(d, r),
    ensures
        agrees(fill_all(d, order, r), r),
        forall|g: Field| #[trigger] fill_all(d, order, r).has(g) == (d.has(g) || order.contains(g)),
    decreases order.len(),
{
    if order.len() > 0 {
        let d1 = fill(d, order[0], r);
        lemma_fill_all(d1, order.drop_first(), r);
        assert forall|g: Field| #[trigger] fill_all(d, order, r).has(g) == (d.has(g) || order.contains(g)) by {
            if order.contains(g) && !order.drop_first().contains(g) {
                let j = choose|j: int| 0 <= j < order.len() && order[j] == g;
                if j > 0 {
                    assert(order.drop_first()[j - 1] == g);
                }
            }
            if order.drop_first().contains(g) {
                let j = choose|j: int| 0 <= j < order.drop_first().len() && order.drop_first()[j] == g;
                assert(order[j + 1] == g);
            }
            if g == order[0] {
                assert(order.contains(g));
            }
        }
    }
}

/// A draft that agrees with `r` becomes `r` when every field is present.
proof fn lemma_finish_complete(d: DraftView, r: RecordView)
    requires
        agrees(d, r),
        forall|g: Field| #[trigger] d.has(g),
    ensures
        d.finish() == Ok::<RecordView, ErrorView>(r),
{
    assert(d.has(Field::TxId));
    assert(d.has(Field::TxType));
    assert(d.has(Field::FromUserId));
    assert(d.has(Field::ToUserId));
    assert(d.has(Field::Amount));
    assert(d.has(Field::Timestamp));
    assert(d.has(Field::Status));
    assert(d.has(Field::Description));
}

/// At the end of input the draft is finished.
proof fn lemma_text_end(d: DraftView, acc: Seq<RecordView>)
    ensures
        text_from(Seq::<u8>::empty(), d, acc) == text_finish(d, acc),
{
    let e = Seq::<u8>::empty();
    assert(e.take(0) =~= e);
    lemma_trim_clean(e);
}

/// A final line feed changes nothing.
proof fn lemma_text_newline(x: Seq<u8>, d: DraftView, acc: Seq<RecordView>)
    ensures
        text_from(x + seq![10u8], d, acc) == text_from(x, d, acc),
    decreases x.len(),
{
    let y = x + seq![10u8];
    let i = find(x, 10);
    crate::scan::lemma_find_bounds(x, 10);
    if i < x.len() {
        assert forall|k: int| 0 <= k < i implies y[k] != 10 by {
            assert(y[k] == x[k]);
        }
        crate::scan::lemma_find_is(y, 10, i as int);
        assert(y.take(i as int) =~= x.take(i as int));
        assert(y.skip((i + 1) as int) =~= x.skip((i + 1) as int) + seq![10u8]);
        match text_step(trim(x.take(i as int)), d, acc) {
            Ok((d2, a2)) => {
                lemma_text_newline(x.skip((i + 1) as int), d2, a2);
            },
            Err(_) => {},
        }
    } else {
        assert forall|k: int| 0 <= k < x.len() implies x[k] != 10 by {}
        lemma_find_concat(x, 10, Seq::<u8>::empty());
        assert(y =~= x + seq![10u8] + Seq::<u8>::empty());
        assert(x.take(i as int) =~= x);
        match text_step(trim(x), d, acc) {
            Ok((d2, a2)) => {
                lemma_text_end(d2, a2);
            },
            Err(_) => {},
        }
    }
}

/// The fields in the order in which blocks are written.
pub open spec fn written_order() -> Seq<Field> {
    seq![
        Field::TxId,
        Field::TxType,
        Field::ToUserId,
        Field::FromUserId,
        Field::Timestamp,
        Field::Description,
        Field::Amount,
        Field::Status,
    ]
}

proof fn lemma_text_block_lines(r: RecordView)
    ensures
        text_block(r) == entry_lines(written_order(), r) + seq![10u8],
{
    reveal(text_block);
    let w = written_order();
    let e0 = entry_line(Field::TxId, r);
    let e1 = entry_line(Field::TxType, r);
    let e2 = entry_line(Field::ToUserId, r);
    let e3 = entry_line(Field::FromUserId, r);
    let e4 = entry_line(Field::Timestamp, r);
    let e5 = entry_line(Field::Description, r);
    let e6 = entry_line(Field::Amount, r);
    let e7 = entry_line(Field::Status, r);
    let w1 = w.drop_first();
    let w2 = w1.drop_first();
    let w3 = w2.drop_first();
    let w4 = w3.drop_first();
    let w5 = w4.drop_first();
    let w6 = w5.drop_first();
    let w7 = w6.drop_first();
    let w8 = w7.drop_first();
    lemma_entry_lines_first(w, r);
    lemma_entry_lines_first(w1, r);
    lemma_entry_lines_first(w2, r);
    lemma_entry_lines_first(w3, r);
    lemma_entry_lines_first(w4, r);
    lemma_entry_lines_first(w5, r);
    lemma_entry_lines_first(w6, r);
    lemma_entry_lines_first(w7, r);
    assert(w8.len() == 0);
    assert(entry_lines(w8, r) =~= Seq::<u8>::empty());
    let l1 = e0 + e1;
    let l2 = l1 + e2;
    let l3 = l2 + e3;
    let l4 = l3 + e4;
    let l5 = l4 + e5;
    let l6 = l5 + e6;
    let l7 = l6 + e7;
    assert(l7 =~= l6 + entry_lines(w7, r));
    assert(l6 + entry_lines(w7, r) =~= l5 + entry_lines(w6, r));
    assert(l5 + entry_lines(w6, r) =~= l4 + entry_lines(w5, r));
    assert(l4 + entry_lines(w5, r) =~= l3 + entry_lines(w4, r));
    assert(l3 + entry_lines(w4, r) =~= l2 + entry_lines(w3, r));
    assert(l2 + entry_lines(w3, r) =~= l1 + entry_lines(w2, r));
    assert(l1 + entry_lines(w2, r) =~= e0 + entry_lines(w1, r));
}

/// One block, followed by anything, gives its record and leaves an empty draft.
proof fn lemma_text_block(r: RecordView, tail: Seq<u8>, acc: Seq<RecordView>)
    requires
        text_safe(r),
    ensures
        text_from(text_block(r) + tail, DraftView::empty(), acc) == text_from(
            tail,
            DraftView::empty(),
            acc.push(r),
        ),
{
    let w = written_order();
    lemma_text_block_lines(r);
    let rest = seq![10u8] + tail;
    assert(text_block(r) + tail =~= entry_lines(w, r) + rest);
    lemma_entries(w, r, rest, DraftView::empty(), acc);
    let d = fill_all(DraftView::empty(), w, r);
    lemma_fill_all(DraftView::empty(), w, r);
    assert forall|g: Field| #[trigger] d.has(g) by {
        match g {
            Field::TxId => assert(w[0] == g),
            Field::TxType => assert(w[1] == g),
            Field::ToUserId => assert(w[2] == g),
            Field::FromUserId => assert(w[3] == g),
            Field::Timestamp => assert(w[4] == g),
            Field::Description => assert(w[5] == g),
            Field::Amount => assert(w[6] == g),
            Field::Status => assert(w[7] == g),
        }
    }
    lemma_finish_complete(d, r);
    crate::scan::lemma_find_is(rest, 10, 0);
    assert(rest.take(0) =~= Seq::<u8>::empty());
    lemma_trim_clean(Seq::<u8>::empty());
    assert(rest.skip(1) =~= tail);
}

proof fn lemma_text_blocks(rs: Seq<RecordView>, acc: Seq<RecordView>)
    requires
        forall|i: int| 0 <= i < rs.len() ==> text_safe(#[trigger] rs[i]),
    ensures
        text_from(rs.map_values(|r: RecordView| text_block(r)).flatten(), DraftView::empty(), acc)
            == Ok::<Seq<RecordView>, ErrorView>(acc + rs),
    decreases rs.len(),
{
    let m = rs.map_values(|r: RecordView| text_block(r));
    if rs.len() == 0 {
        assert(m.flatten() =~= Seq::<u8>::empty());
        lemma_text_end(DraftView::empty(), acc);
        assert(acc + rs =~= acc);
    } else {
        let rest = rs.drop_first();
        assert(m.drop_first() =~= rest.map_values(|r: RecordView| text_block(r)));
        assert(m.first() == text_block(rs[0]));
        assert(text_safe(rs[0]));
        assert forall|i: int| 0 <= i < rest.len() implies text_safe(#[trigger] rest[i]) by {
            assert(rest[i] == rs[i + 1]);
        }
        lemma_text_block(rs[0], rest.map_values(|r: RecordView| text_block(r)).flatten(), acc);
        lemma_text_blocks(rest, acc.push(rs[0]));
        assert(acc.push(rs[0]) + rest =~= acc + rs);
    }
}

/// A block starts with a word byte and ends with a word byte and two line feeds.
proof fn lemma_block_ends(r: RecordView)
    ensures
        text_block(r).len() >= 3,
        is_word_byte(text_block(r)[0]),
        text_block(r)[text_block(r).len() - 1] == 10,
        text_block(r)[text_block(r).len() - 2] == 10,
        is_word_byte(text_block(r)[text_block(r).len() - 3]),
{
    reveal(entry_line);
    reveal(text_block);
    lemma_keys();
    lemma_tokens();
    let k0 = encode_utf8(Field::TxId.key());
    let ks = encode_utf8(Field::Status.key());
    let tok = encode_utf8(r.status.token());
    assert(is_word(k0));
    assert(is_word(ks));
    assert(is_word(tok));
    let e0 = entry_line(Field::TxId, r);
    let es = entry_line(Field::Status, r);
    let mid = entry_line(Field::TxType, r) + entry_line(Field::ToUserId, r) + entry_line(
        Field::FromUserId,
        r,
    ) + entry_line(Field::Timestamp, r) + entry_line(Field::Description, r) + entry_line(
        Field::Amount,
        r,
    );
    let b = text_block(r);
    assert(b =~= e0 + (mid + (es + seq![10u8])));
    assert(b[0] == e0[0]);
    assert(e0[0] == k0[0]);
    let t = es + seq![10u8];
    assert(t[t.len() - 3] == tok[tok.len() - 1]);
    assert(b[b.len() - 3] == t[t.len() - 3]);
}

/// The blocks of at least one record end in two line feeds, which is all that
/// trimming removes.
proof fn lemma_blocks_trim(rs: Seq<RecordView>)
    requires
        rs.len() > 0,
    ensures
        rs.map_values(|r: RecordView| text_block(r)).flatten() == trim(
            rs.map_values(|r: RecordView| text_block(r)).flatten(),
        ) + seq![10u8] + seq![10u8],
{
    let m = rs.map_values(|r: RecordView| text_block(r));
    let f = m.flatten();
    let last = rs.last();
    let front = rs.drop_last().map_values(|r: RecordView| text_block(r));
    assert(m =~= front.push(text_block(last)));
    front.lemma_flatten_push(text_block(last));
    lemma_block_ends(last);
    lemma_block_ends(rs[0]);
    let bl = text_block(last);
    assert(f == front.flatten() + bl);
    assert(f[f.len() - 1] == bl[bl.len() - 1]);
    assert(f[f.len() - 2] == bl[bl.len() - 2]);
    assert(f[f.len() - 3] == bl[bl.len() - 3]);
    assert(m.first() == text_block(rs[0]));
    assert(f == text_block(rs[0]) + m.drop_first().flatten());
    assert(f[0] == text_block(rs[0])[0]);
    let q = f.take(f.len() - 2);
    assert(f =~= q + seq![10u8] + seq![10u8]);
    lemma_ascii_first(f);
    assert(trim_start(f) == f);
    let g = f.take(f.len() - 1);
    assert(g =~= q + seq![10u8]);
    assert(g.take(g.len() - 1) =~= q);
    assert(ws_suffix(f) == 1);
    assert(trim_end(f) == trim_end(g));
    assert(ws_suffix(g) == 1);
    assert(trim_end(g) == trim_end(q));
    assert(q[0] == f[0]);
    assert(q.last() == f[f.len() - 3]);
    lemma_ascii_first(q);
    lemma_ascii_last(q);
    lemma_trim_clean(q);
}

/// Decoding what encoding produced gives back the same records, in order.
pub proof fn lemma_text_round_trip(rs: Seq<RecordView>)
    requires
        forall|i: int| 0 <= i < rs.len() ==> text_safe(#[trigger] rs[i]),
    ensures
        decode_text(encode_text(rs)) == Ok::<Seq<RecordView>, ErrorView>(rs),
{
    let f = rs.map_values(|r: RecordView| text_block(r)).flatten();
    lemma_text_blocks(rs, seq![]);
    assert(Seq::<RecordView>::empty() + rs =~= rs);
    if rs.len() == 0 {
        assert(f =~= Seq::<u8>::empty());
        lemma_trim_clean(f);
    } else {
        lemma_blocks_trim(rs);
        let q = trim(f);
        lemma_text_newline(q + seq![10u8], DraftView::empty(), seq![]);
        lemma_text_newline(q, DraftView::empty(), seq![]);
    }
}

/// A `KEY: value` line with its line feed, for any value text.
pub open spec fn kv_line(f: Field, v: Seq<u8>) -> Seq<u8> {
    encode_utf8(f.key()) + seq![58u8, 32u8] + v + seq![10u8]
}

/// The lines of the given entries, in order.
pub open spec fn kv_lines(es: Seq<(Field, Seq<u8>)>) -> Seq<u8> {
    es.map_values(|e: (Field, Seq<u8>)| kv_line(e.0, e.1)).flatten()
}

/// A value text that stands on one line and has no whitespace at its ends.
pub open spec fn clean_value(v: Seq<u8>) -> bool {
    (forall|i: int| 0 <= i < v.len() ==> #[trigger] v[i] != 10) && ws_prefix(v) == 0 && ws_suffix(
        v,
    ) == 0
}

/// Value text `v` read into field `f` gives the value that `r` has there.
pub open spec fn reads_as(f: Field, v: Seq<u8>, r: RecordView) -> bool {
    set_field(DraftView::empty(), f, v) == Ok::<DraftView, ErrorView>(
        fill(DraftView::empty(), f, r),
    )
}

/// A line that is blank or a comment, with its line feed.
pub open spec fn quiet_line(l: Seq<u8>) -> bool {
    (forall|i: int| 0 <= i < l.len() ==> #[trigger] l[i] != 10) && (trim(l).len() == 0 || trim(
        l,
    )[0] == 35)
}

proof fn lemma_reads_as_any(f: Field, v: Seq<u8>, r: RecordView, d: DraftView)
    requires
        reads_as(f, v, r),
    ensures
        set_field(d, f, v) == Ok::<DraftView, ErrorView>(fill(d, f, r)),
{
}

/// One `KEY: value` line applies its value to the draft.
proof fn lemma_kv_step(f: Field, v: Seq<u8>, rest: Seq<u8>, d: DraftView, acc: Seq<RecordView>)
    requires
        clean_value(v),
    ensures
        text_from(kv_line(f, v) + rest, d, acc) == match set_field(d, f, v) {
            Ok(d2) => text_from(rest, d2, acc),
            Err(e) => Err(e),
        },
{
    lemma_keys();
    let k = encode_utf8(f.key());
    assert(is_word(k));
    let body = k + seq![58u8, 32u8] + v;
    assert forall|i: int| 0 <= i < body.len() implies #[trigger] body[i] != 10 by {
        if i >= k.len() + 2 {
            assert(body[i] == v[i - k.len() - 2]);
        }
    }
    lemma_find_concat(body, 10, rest);
    lemma_key_value_line(k, v);
    let line = k + seq![58u8] + after_colon(v);
    assert(text_entry(d, line) == set_field(d, f, v));
    assert(kv_line(f, v) + rest =~= body + seq![10u8] + rest);
}

/// The field of each entry.
pub open spec fn entry_fields(es: Seq<(Field, Seq<u8>)>) -> Seq<Field> {
    es.map_values(|e: (Field, Seq<u8>)| e.0)
}

/// Lines whose values read as `r`'s fill those fields of the draft from `r`.
proof fn lemma_kv_lines(
    es: Seq<(Field, Seq<u8>)>,
    r: RecordView,
    rest: Seq<u8>,
    d: DraftView,
    acc: Seq<RecordView>,
)
    requires
        forall|i: int| 0 <= i < es.len() ==> clean_value(#[trigger] es[i].1) && reads_as(es[i].0, es[i].1, r),
    ensures
        text_from(kv_lines(es) + rest, d, acc) == text_from(
            rest,
            fill_all(d, entry_fields(es), r),
            acc,
        ),
    decreases es.len(),
{
    if es.len() == 0 {
        assert(kv_lines(es) + rest =~= rest);
    } else {
        let m = es.map_values(|e: (Field, Seq<u8>)| kv_line(e.0, e.1));
        let es2 = es.drop_first();
        assert(m.drop_first() =~= es2.map_values(|e: (Field, Seq<u8>)| kv_line(e.0, e.1)));
        assert(m.first() == kv_line(es[0].0, es[0].1));
        let tail = kv_lines(es2) + rest;
        assert(kv_lines(es) + rest =~= kv_line(es[0].0, es[0].1) + tail);
        assert(clean_value(es[0].1) && reads_as(es[0].0, es[0].1, r));
        lemma_kv_step(es[0].0, es[0].1, tail, d, acc);
        lemma_reads_as_any(es[0].0, es[0].1, r, d);
        assert forall|i: int| 0 <= i < es2.len() implies clean_value(#[trigger] es2[i].1) && reads_as(
            es2[i].0,
            es2[i].1,
            r,
        ) by {
            assert(es2[i] == es[i + 1]);
        }
        lemma_kv_lines(es2, r, rest, fill(d, es[0].0, r), acc);
        assert(entry_fields(es).drop_first() =~= entry_fields(es2));
        assert(entry_fields(es)[0] == es[0].0);
    }
}

/// Blank and comment lines before a block leave the empty draft as it is.
proof fn lemma_quiet_lines(ls: Seq<Seq<u8>>, t: Seq<u8>, acc: Seq<RecordView>)
    requires
        forall|i: int| 0 <= i < ls.len() ==> quiet_line(#[trigger] ls[i]),
    ensures
        text_from(ls.map_values(|l: Seq<u8>| l + seq![10u8]).flatten() + t, DraftView::empty(), acc)
            == text_from(t, DraftView::empty(), acc),
    decreases ls.len(),
{
    let m = ls.map_values(|l: Seq<u8>| l + seq![10u8]);
    if ls.len() == 0 {
        assert(m.flatten() + t =~= t);
    } else {
        let ls2 = ls.drop_first();
        assert(m.drop_first() =~= ls2.map_values(|l: Seq<u8>| l + seq![10u8]));
        let tail = ls2.map_values(|l: Seq<u8>| l + seq![10u8]).flatten() + t;
        assert(m.flatten() + t =~= ls[0] + seq![10u8] + tail);
        assert(quiet_line(ls[0]));
        lemma_find_concat(ls[0], 10, tail);
        assert forall|i: int| 0 <= i < ls2.len() implies quiet_line(#[trigger] ls2[i]) by {
            assert(ls2[i] == ls[i + 1]);
        }
        lemma_quiet_lines(ls2, t, acc);
    }
}

/// The input of a block: blank and comment lines, the entries' lines, and
/// optionally one blank line that ends the block.
pub open spec fn block_input(ls: Seq<Seq<u8>>, es: Seq<(Field, Seq<u8>)>, blank_after: bool) -> Seq<
    u8,
> {
    ls.map_values(|l: Seq<u8>| l + seq![10u8]).flatten() + kv_lines(es) + (if blank_after {
        seq![10u8]
    } else {
        Seq::<u8>::empty()
    })
}

proof fn lemma_block_input(
    ls: Seq<Seq<u8>>,
    es: Seq<(Field, Seq<u8>)>,
    blank_after: bool,
    r: RecordView,
)
    requires
        forall|i: int| 0 <= i < ls.len() ==> quiet_line(#[trigger] ls[i]),
        forall|i: int| 0 <= i < es.len() ==> clean_value(#[trigger] es[i].1) && reads_as(es[i].0, es[i].1, r),
    ensures
        decode_text(block_input(ls, es, blank_after)) == text_finish(
            fill_all(DraftView::empty(), entry_fields(es), r),
            seq![],
        ),
{
    let pre = ls.map_values(|l: Seq<u8>| l + seq![10u8]).flatten();
    let e = Seq::<u8>::empty();
    let d = fill_all(DraftView::empty(), entry_fields(es), r);
    if blank_after {
        assert(block_input(ls, es, blank_after) =~= (pre + kv_lines(es)) + seq![10u8]);
        lemma_text_newline(pre + kv_lines(es), DraftView::empty(), seq![]);
    } else {
        assert(block_input(ls, es, blank_after) =~= pre + kv_lines(es));
    }
    lemma_quiet_lines(ls, kv_lines(es), seq![]);
    lemma_kv_lines(es, r, e, DraftView::empty(), seq![]);
    assert(kv_lines(es) + e =~= kv_lines(es));
    lemma_text_end(d, seq![]);
}

/// A block holding, in any order, a line for every key whose value reads as
/// the field of `r`, decodes to `r`; blank and comment lines may come before
/// it, and a blank line after it.
pub proof fn lemma_block_complete(
    ls: Seq<Seq<u8>>,
    es: Seq<(Field, Seq<u8>)>,
    blank_after: bool,
    r: RecordView,
)
    requires
        forall|i: int| 0 <= i < ls.len() ==> quiet_line(#[trigger] ls[i]),
        forall|i: int| 0 <= i < es.len() ==> clean_value(#[trigger] es[i].1) && reads_as(es[i].0, es[i].1, r),
        forall|g: Field| entry_fields(es).contains(g),
    ensures
        decode_text(block_input(ls, es, blank_after)) == Ok::<Seq<RecordView>, ErrorView>(seq![r]),
{
    let d = fill_all(DraftView::empty(), entry_fields(es), r);
    lemma_block_input(ls, es, blank_after, r);
    lemma_fill_all(DraftView::empty(), entry_fields(es), r);
    lemma_finish_complete(d, r);
    assert(d.has(Field::TxId));
    assert(Seq::<RecordView>::empty().push(r) =~= seq![r]);
}

/// A block that lacks the line of one key, and holds lines for all others
/// whose values read as the fields of `r`, fails naming that field.
pub proof fn lemma_block_missing(
    ls: Seq<Seq<u8>>,
    es: Seq<(Field, Seq<u8>)>,
    blank_after: bool,
    r: RecordView,
    g: Field,
)
    requires
        forall|i: int| 0 <= i < ls.len() ==> quiet_line(#[trigger] ls[i]),
        forall|i: int| 0 <= i < es.len() ==> clean_value(#[trigger] es[i].1) && reads_as(es[i].0, es[i].1, r),
        !entry_fields(es).contains(g),
        forall|h: Field| h != g ==> entry_fields(es).contains(h),
    ensures
        decode_text(block_input(ls, es, blank_after)) == Err::<Seq<RecordView>, ErrorView>(
            ErrorView::MissingField(g.name()),
        ),
{
    let d = fill_all(DraftView::empty(), entry_fields(es), r);
    lemma_block_input(ls, es, blank_after, r);
    lemma_fill_all(DraftView::empty(), entry_fields(es), r);
    assert(!d.has(g));
    assert(d.has(Field::TxId) || g == Field::TxId);
    assert(d.has(Field::TxType) || g == Field::TxType);
    assert(d.has(Field::FromUserId) || g == Field::FromUserId);
    assert(d.has(Field::ToUserId) || g == Field::ToUserId);
    assert(d.has(Field::Amount) || g == Field::Amount);
    assert(d.has(Field::Timestamp) || g == Field::Timestamp);
    assert(d.has(Field::Status) || g == Field::Status);
    assert(d.has(Field::Description) || g == Field::Description);
}

} // verus!
