//! Choosing a codec by format.
use vstd::prelude::*;

use crate::bin_format;
use crate::csv_format;
use crate::error::{ErrorView, ParseError};
use crate::model::{decoded, records_view, Format, Record, RecordView};
use crate::text_format;

verus! {

/// What input in the given format decodes to.
pub open spec fn decode(format: Format, s: Seq<u8>) -> Result<Seq<RecordView>, ErrorView> {
    match format {
        Format::Csv => csv_format::decode_csv(s),
        Format::Text => text_format::decode_text(s),
        Format::Bin => bin_format::decode_bin(s),
    }
}

/// Decodes input in the given format.
pub fn read_records(format: Format, input: &[u8]) -> (r: Result<Vec<Record>, ParseError>)
    ensures
        decoded(r) == decode(format, input@),
{
    match format {
        Format::Csv => csv_format::read_from(input),
        Format::Text => text_format::read_from(input),
        Format::Bin => bin_format::read_from(input),
    }
}

/// Encodes records in the given format. Only the binary format can refuse a
/// record, one whose description is too long for the 32-bit size field.
pub fn write_records(format: Format, records: Vec<Record>) -> (r: Result<Vec<u8>, ParseError>)
    ensures
        match format {
            Format::Csv => r matches Ok(b) && b@ == csv_format::encode_csv(records_view(records@)),
            Format::Text => r matches Ok(b) && b@ == text_format::encode_text(
                records_view(records@),
            ),
            Format::Bin => match r {
                Ok(b) => (forall|i: int|
                    0 <= i < records@.len() ==> bin_format::bin_fits(
                        #[trigger] records@[i]@,
                    )) && b@ == bin_format::encode_bin(records_view(records@)),
                Err(e) => (exists|i: int|
                    0 <= i < records@.len() && !bin_format::bin_fits(
                        #[trigger] records@[i]@,
                    )) && e@ == ErrorView::InvalidArgument("description too long"@),
            },
        },
{
    match format {
        Format::Csv => Ok(csv_format::write_to(records)),
        Format::Text => Ok(text_format::write_to(records)),
        Format::Bin => bin_format::write_to(records),
    }
}

} // verus!
