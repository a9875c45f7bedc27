use tx_formats::bin_format::{read_from, write_to};
use tx_formats::error::{ParseError, ParseTransactionStatusError, ParseTransactionTypeError};
use tx_formats::model::{Record, TransactionStatus, TransactionType};

const BYTES_MOCK: [u8; 213] = [
    89, 80, 66, 78, 0, 0, 0, 63, 0, 3, 141, 126, 164, 198, 128, 0, 0, 0, 0, 0, 0, 0, 0, 0, 0,
    127, 255, 255, 255, 255, 255, 255, 255, 0, 0, 0, 0, 0, 0, 0, 100, 0, 0, 1, 124, 56, 148,
    250, 96, 1, 0, 0, 0, 17, 34, 82, 101, 99, 111, 114, 100, 32, 110, 117, 109, 98, 101, 114,
    32, 49, 34, 89, 80, 66, 78, 0, 0, 0, 63, 0, 3, 141, 126, 164, 198, 128, 1, 1, 127, 255,
    255, 255, 255, 255, 255, 255, 127, 255, 255, 255, 255, 255, 255, 255, 0, 0, 0, 0, 0, 0, 0,
    200, 0, 0, 1, 124, 56, 149, 228, 192, 2, 0, 0, 0, 17, 34, 82, 101, 99, 111, 114, 100, 32,
    110, 117, 109, 98, 101, 114, 32, 50, 34, 89, 80, 66, 78, 0, 0, 0, 63, 0, 3, 141, 126, 164,
    198, 128, 2, 2, 8, 80, 104, 216, 118, 118, 194, 104, 0, 0, 0, 0, 0, 0, 0, 0, 0, 0, 0, 0, 0,
    0, 1, 44, 0, 0, 1, 124, 56, 150, 207, 32, 0, 0, 0, 0, 17, 34, 82, 101, 99, 111, 114, 100,
    32, 110, 117, 109, 98, 101, 114, 32, 51, 34,
];

fn records_mock() -> [Record; 3] {
    [
        Record {
            tx_id: 1000000000000000,
            tx_type: TransactionType::Deposit,
            from_user_id: 0,
            to_user_id: 9223372036854775807,
            amount: 100,
            timestamp: 1633036860000,
            status: TransactionStatus::Failure,
            description: "\"Record number 1\"".to_string(),
        },
        Record {
            tx_id: 1000000000000001,
            tx_type: TransactionType::Transfer,
            from_user_id: 9223372036854775807,
            to_user_id: 9223372036854775807,
            amount: 200,
            timestamp: 1633036920000,
            status: TransactionStatus::Pending,
            description: "\"Record number 2\"".to_string(),
        },
        Record {
            tx_id: 1000000000000002,
            tx_type: TransactionType::Withdrawal,
            from_user_id: 599094029349995112,
            to_user_id: 0,
            amount: 300,
            timestamp: 1633036980000,
            status: TransactionStatus::Success,
            description: "\"Record number 3\"".to_string(),
        },
    ]
}

#[test]
fn bin_format_test_load_data() {
    let r = read_from(&BYTES_MOCK[..]).unwrap();

    assert_eq!(r.len(), 3);
    assert_eq!(r[0].timestamp, 1633036860000);
    assert_eq!(r[1].tx_id, 1000000000000001);
    assert_eq!(r[2].from_user_id, 599094029349995112);
}

#[test]
fn bin_format_test_write_data() {
    let r = write_to(records_mock().to_vec());

    assert!(r.is_ok());
    let binary = r.unwrap();

    assert_eq!(binary.len(), BYTES_MOCK.len());
}

#[test]
fn bin_write_matches_known_bytes() {
    let binary = write_to(records_mock().to_vec()).unwrap();
    assert_eq!(binary, BYTES_MOCK.to_vec());
}

#[test]
fn bin_single_record_is_71_bytes_and_reads_back() {
    let record = records_mock()[0].clone();
    let binary = write_to(vec![record.clone()]).unwrap();
    assert_eq!(binary.len(), 71);
    assert_eq!(&binary[..], &BYTES_MOCK[..71]);
    let back = read_from(&binary).unwrap();
    assert_eq!(back, vec![record]);
}

#[test]
fn bin_round_trip_three_records() {
    let records = records_mock().to_vec();
    let binary = write_to(records.clone()).unwrap();
    assert_eq!(read_from(&binary).unwrap(), records);
}

#[test]
fn bin_round_trip_non_ascii_description() {
    let mut record = records_mock()[1].clone();
    record.description = "Überweisung für Café — ok".to_string();
    let binary = write_to(vec![record.clone()]).unwrap();
    assert_eq!(binary.len(), 8 + 46 + record.description.len());
    assert_eq!(read_from(&binary).unwrap(), vec![record]);
}

#[test]
fn bin_empty_input_has_no_records() {
    assert_eq!(read_from(&[]).unwrap(), Vec::<Record>::new());
    assert_eq!(write_to(Vec::new()).unwrap(), Vec::<u8>::new());
}

#[test]
fn bin_bad_magic_is_rejected() {
    let mut bytes = BYTES_MOCK.to_vec();
    bytes[0] = b'X';
    assert!(matches!(read_from(&bytes), Err(ParseError::InvalidMagic)));
    assert!(matches!(read_from(b"ABCDEFGH"), Err(ParseError::InvalidMagic)));
    assert!(matches!(
        read_from(b"ABCDE"),
        Err(ParseError::UnexpectedEof { needed: 8, got: 5 })
    ));
    let mut trailing = BYTES_MOCK[..71].to_vec();
    trailing.extend_from_slice(b"ABCD");
    assert!(matches!(
        read_from(&trailing),
        Err(ParseError::UnexpectedEof { needed: 8, got: 4 })
    ));
}

#[test]
fn bin_size_out_of_band_is_rejected() {
    let mut bytes = BYTES_MOCK[..71].to_vec();
    bytes[7] = 45;
    assert!(matches!(read_from(&bytes), Err(ParseError::UnexpectedRecordSize(45))));
    bytes[7] = 151;
    assert!(matches!(read_from(&bytes), Err(ParseError::UnexpectedRecordSize(151))));
}

#[test]
fn bin_description_length_mismatch_is_damaged() {
    let mut bytes = BYTES_MOCK[..71].to_vec();
    bytes[53] = 16;
    assert!(matches!(
        read_from(&bytes),
        Err(ParseError::RecordDamaged(1000000000000000))
    ));
}

#[test]
fn bin_truncated_input_is_unexpected_eof() {
    assert!(matches!(
        read_from(&BYTES_MOCK[..5]),
        Err(ParseError::UnexpectedEof { needed: 8, got: 5 })
    ));
    assert!(matches!(
        read_from(&BYTES_MOCK[..70]),
        Err(ParseError::UnexpectedEof { needed: 63, got: 62 })
    ));
    assert!(matches!(
        read_from(&BYTES_MOCK[..75]),
        Err(ParseError::UnexpectedEof { needed: 8, got: 4 })
    ));
}

#[test]
fn bin_unknown_type_and_status_bytes() {
    let mut bytes = BYTES_MOCK[..71].to_vec();
    bytes[16] = 7;
    assert!(matches!(
        read_from(&bytes),
        Err(ParseError::TransactionType(ParseTransactionTypeError::UnknownTransactionTypeByte(7)))
    ));
    let mut bytes = BYTES_MOCK[..71].to_vec();
    bytes[49] = 9;
    assert!(matches!(
        read_from(&bytes),
        Err(ParseError::TransactionStatus(
            ParseTransactionStatusError::UnknownTransactionStatusByte(9)
        ))
    ));
}

#[test]
fn bin_invalid_utf8_description() {
    let mut bytes = BYTES_MOCK[..71].to_vec();
    bytes[60] = 0xff;
    assert!(matches!(read_from(&bytes), Err(ParseError::InvalidUtf8(_))));
}

#[test]
fn bin_long_description_is_written_but_not_read() {
    let mut record = records_mock()[0].clone();
    record.description = "x".repeat(104);
    let binary = write_to(vec![record.clone()]).unwrap();
    assert_eq!(binary.len(), 158);
    assert_eq!(read_from(&binary).unwrap(), vec![record.clone()]);
    record.description = "x".repeat(105);
    let binary = write_to(vec![records_mock()[0].clone(), record]).unwrap();
    assert_eq!(binary.len(), 71 + 159);
    assert_eq!(&binary[71 + 4..71 + 8], &[0, 0, 0, 151]);
    assert!(matches!(read_from(&binary), Err(ParseError::UnexpectedRecordSize(151))));
}
