//! Field values shared by the text and CSV formats.
use vstd::prelude::*;
use vstd::string::StringSliceAdditionalSpecFns;
use vstd::utf8::*;

use crate::error::{ErrorView, ParseError};
use crate::model::{TransactionStatus, TransactionType};
use crate::number::parse_decimal;
use crate::scan::{copy_range, string_from_utf8};

verus! {

/// A byte that may stand in a keyword: an upper-case ASCII letter or `_`.
pub open spec fn is_word_byte(b: u8) -> bool {
    (65 <= b <= 90) || b == 95
}

pub open spec fn is_word(s: Seq<u8>) -> bool {
    s.len() > 0 && forall|i: int| 0 <= i < s.len() ==> is_word_byte(#[trigger] s[i])
}

pub open spec fn number_field(f: Seq<u8>) -> Result<u64, ErrorView> {
    match parse_decimal(f) {
        Some(v) => Ok(v),
        None => Err(ErrorView::InvalidNumber),
    }
}

pub open spec fn type_field(f: Seq<u8>) -> Result<TransactionType, ErrorView> {
    if !valid_utf8(f) {
        Err(ErrorView::InvalidUtf8)
    } else {
        match TransactionType::from_token(decode_utf8(f)) {
            Some(t) => Ok(t),
            None => Err(ErrorView::UnknownTypeString(decode_utf8(f))),
        }
    }
}

pub open spec fn status_field(f: Seq<u8>) -> Result<TransactionStatus, ErrorView> {
    if !valid_utf8(f) {
        Err(ErrorView::InvalidUtf8)
    } else {
        match TransactionStatus::from_token(decode_utf8(f)) {
            Some(s) => Ok(s),
            None => Err(ErrorView::UnknownStatusString(decode_utf8(f))),
        }
    }
}

pub open spec fn text_field(f: Seq<u8>) -> Result<Seq<char>, ErrorView> {
    if !valid_utf8(f) {
        Err(ErrorView::InvalidUtf8)
    } else {
        Ok(decode_utf8(f))
    }
}

/// Reads `s[from..to]` as a string.
pub fn read_text(s: &[u8], from: usize, to: usize) -> (r: Result<String, ParseError>)
    requires
        from <= to <= s@.len(),
    ensures
        match text_field(s@.subrange(from as int, to as int)) {
            Ok(v) => r matches Ok(x) && x@ == v,
            Err(e) => r matches Err(x) && x@ == e,
        },
{
    match string_from_utf8(copy_range(s, from, to)) {
        Ok(v) => Ok(v),
        Err(e) => Err(ParseError::InvalidUtf8(e)),
    }
}

/// Reads `s[from..to]` as a transaction type word.
pub fn read_type(s: &[u8], from: usize, to: usize) -> (r: Result<TransactionType, ParseError>)
    requires
        from <= to <= s@.len(),
    ensures
        match type_field(s@.subrange(from as int, to as int)) {
            Ok(v) => r matches Ok(x) && x == v,
            Err(e) => r matches Err(x) && x@ == e,
        },
{
    let text = read_text(s, from, to)?;
    match TransactionType::parse(text.as_str()) {
        Ok(t) => Ok(t),
        Err(e) => Err(ParseError::TransactionType(e)),
    }
}

/// Reads `s[from..to]` as a transaction status word.
pub fn read_status(s: &[u8], from: usize, to: usize) -> (r: Result<TransactionStatus, ParseError>)
    requires
        from <= to <= s@.len(),
    ensures
        match status_field(s@.subrange(from as int, to as int)) {
            Ok(v) => r matches Ok(x) && x == v,
            Err(e) => r matches Err(x) && x@ == e,
        },
{
    let text = read_text(s, from, to)?;
    match TransactionStatus::parse(text.as_str()) {
        Ok(t) => Ok(t),
        Err(e) => Err(ParseError::TransactionStatus(e)),
    }
}

/// The words of the two enumerations are upper-case ASCII, and each reads
/// back as its own variant.
pub proof fn lemma_tokens()
    ensures
        forall|t: TransactionType| #[trigger] is_word(encode_utf8(t.token())),
        forall|t: TransactionStatus| #[trigger] is_word(encode_utf8(t.token())),
        forall|t: TransactionType| #[trigger] type_field(encode_utf8(t.token())) == Ok::<TransactionType, ErrorView>(t),
        forall|t: TransactionStatus| #[trigger] status_field(encode_utf8(t.token())) == Ok::<TransactionStatus, ErrorView>(t),
{
    reveal_strlit("DEPOSIT");
    reveal_strlit("TRANSFER");
    reveal_strlit("WITHDRAWAL");
    reveal_strlit("SUCCESS");
    reveal_strlit("FAILURE");
    reveal_strlit("PENDING");
    assert(vstd::string::is_ascii("DEPOSIT"));
    assert(vstd::string::is_ascii("TRANSFER"));
    assert(vstd::string::is_ascii("WITHDRAWAL"));
    assert(vstd::string::is_ascii("SUCCESS"));
    assert(vstd::string::is_ascii("FAILURE"));
    assert(vstd::string::is_ascii("PENDING"));
    assert forall|t: TransactionType| #[trigger] is_word(encode_utf8(t.token())) by {
        match t {
            TransactionType::Deposit => assert(is_word("DEPOSIT".spec_bytes())),
            TransactionType::Transfer => assert(is_word("TRANSFER".spec_bytes())),
            TransactionType::Withdrawal => assert(is_word("WITHDRAWAL".spec_bytes())),
        }
    }
    assert forall|t: TransactionStatus| #[trigger] is_word(encode_utf8(t.token())) by {
        match t {
            TransactionStatus::Success => assert(is_word("SUCCESS".spec_bytes())),
            TransactionStatus::Failure => assert(is_word("FAILURE".spec_bytes())),
            TransactionStatus::Pending => assert(is_word("PENDING".spec_bytes())),
        }
    }
    assert forall|t: TransactionType| #[trigger] type_field(encode_utf8(t.token())) == Ok::<TransactionType, ErrorView>(t) by {
        encode_utf8_valid_utf8(t.token());
        encode_utf8_decode_utf8(t.token());
    }
    assert forall|t: TransactionStatus| #[trigger] status_field(encode_utf8(t.token())) == Ok::<TransactionStatus, ErrorView>(t) by {
        encode_utf8_valid_utf8(t.token());
        encode_utf8_decode_utf8(t.token());
    }
}

} // verus!
