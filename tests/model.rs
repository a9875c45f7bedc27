use tx_formats::cli_types::CliFormat;
use tx_formats::codec::{read_records, write_records};
use tx_formats::error::{ParseError, ParseTransactionStatusError, ParseTransactionTypeError};
use tx_formats::model::{Format, Record, TextRecordDraft, TransactionStatus, TransactionType};
use tx_formats::number::parse_number;

fn full_draft() -> TextRecordDraft {
    TextRecordDraft {
        tx_id: Some(7),
        tx_type: Some(TransactionType::Transfer),
        from_user_id: Some(1),
        to_user_id: Some(2),
        amount: Some(3),
        timestamp: Some(4),
        status: Some(TransactionStatus::Pending),
        description: Some("memo".to_string()),
    }
}

#[test]
fn type_bytes_and_words() {
    for (t, b, w) in [
        (TransactionType::Deposit, 0u8, "DEPOSIT"),
        (TransactionType::Transfer, 1, "TRANSFER"),
        (TransactionType::Withdrawal, 2, "WITHDRAWAL"),
    ] {
        assert_eq!(t.to_byte(), b);
        assert_eq!(TransactionType::from_byte(b).unwrap(), t);
        assert_eq!(t.to_str(), w);
        assert_eq!(TransactionType::parse(w).unwrap(), t);
    }
    assert!(matches!(
        TransactionType::from_byte(3),
        Err(ParseTransactionTypeError::UnknownTransactionTypeByte(3))
    ));
    match TransactionType::parse("Deposit") {
        Err(ParseTransactionTypeError::UnknownTransactionTypeString(s)) => assert_eq!(s, "Deposit"),
        other => panic!("unexpected {:?}", other),
    }
}

#[test]
fn status_bytes_and_words() {
    for (s, b, w) in [
        (TransactionStatus::Success, 0u8, "SUCCESS"),
        (TransactionStatus::Failure, 1, "FAILURE"),
        (TransactionStatus::Pending, 2, "PENDING"),
    ] {
        assert_eq!(s.to_byte(), b);
        assert_eq!(TransactionStatus::from_byte(b).unwrap(), s);
        assert_eq!(s.to_str(), w);
        assert_eq!(TransactionStatus::parse(w).unwrap(), s);
    }
    assert!(matches!(
        TransactionStatus::from_byte(255),
        Err(ParseTransactionStatusError::UnknownTransactionStatusByte(255))
    ));
    match TransactionStatus::parse("") {
        Err(ParseTransactionStatusError::UnknownTransactionStatusString(s)) => assert_eq!(s, ""),
        other => panic!("unexpected {:?}", other),
    }
}

#[test]
fn draft_becomes_record() {
    let r = Record::from_draft(&full_draft()).unwrap();
    assert_eq!(
        r,
        Record {
            tx_id: 7,
            tx_type: TransactionType::Transfer,
            from_user_id: 1,
            to_user_id: 2,
            amount: 3,
            timestamp: 4,
            status: TransactionStatus::Pending,
            description: "memo".to_string(),
        }
    );
}

#[test]
fn draft_reports_first_missing_field() {
    let mut d = full_draft();
    d.amount = None;
    d.status = None;
    assert!(matches!(Record::from_draft(&d), Err(ParseError::MissingField("amount"))));
    let mut d = full_draft();
    d.description = None;
    assert!(matches!(Record::from_draft(&d), Err(ParseError::MissingField("description"))));
}

#[test]
fn draft_reset_and_is_empty() {
    let mut d = full_draft();
    assert!(!d.is_empty());
    d.reset();
    assert!(d.is_empty());
    assert!(matches!(Record::from_draft(&d), Err(ParseError::MissingField("tx_id"))));
}

#[test]
fn numbers_parse() {
    let s = b"12345 +7 x 18446744073709551615 18446744073709551616 + ";
    assert_eq!(parse_number(s, 0, 5).unwrap(), 12345);
    assert_eq!(parse_number(s, 6, 8).unwrap(), 7);
    assert!(matches!(parse_number(s, 9, 10), Err(ParseError::InvalidNumber)));
    assert_eq!(parse_number(s, 11, 31).unwrap(), u64::MAX);
    assert!(matches!(parse_number(s, 32, 52), Err(ParseError::InvalidNumber)));
    assert!(matches!(parse_number(s, 53, 54), Err(ParseError::InvalidNumber)));
    assert!(matches!(parse_number(s, 0, 0), Err(ParseError::InvalidNumber)));
}

#[test]
fn conversion_between_formats() {
    let records = vec![Record::from_draft(&full_draft()).unwrap()];
    let text = write_records(Format::Text, records.clone()).unwrap();
    let from_text = read_records(Format::Text, &text).unwrap();
    let csv = write_records(Format::Csv, from_text).unwrap();
    let from_csv = read_records(Format::Csv, &csv).unwrap();
    let bin = write_records(Format::Bin, from_csv).unwrap();
    assert_eq!(read_records(Format::Bin, &bin).unwrap(), records);
    assert_eq!(Format::Bin.as_str(), "Bin");
    assert_eq!(Format::Csv.as_str(), "Csv");
    assert_eq!(Format::Text.as_str(), "Text");
}

#[test]
fn cli_format_selects_format() {
    assert_eq!(Format::from(CliFormat::Text), Format::Text);
    assert_eq!(Format::from(CliFormat::Csv), Format::Csv);
    assert_eq!(Format::from(CliFormat::Bin), Format::Bin);
}
