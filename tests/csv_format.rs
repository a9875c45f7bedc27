use tx_formats::csv_format::{read_from, write_to};
use tx_formats::error::{ParseError, ParseTransactionStatusError, ParseTransactionTypeError};
use tx_formats::model::{Record, TransactionStatus, TransactionType};

const HEADER_LINE: &str = "TX_ID,TX_TYPE,FROM_USER_ID,TO_USER_ID,AMOUNT,TIMESTAMP,STATUS,DESCRIPTION";

fn records() -> Vec<Record> {
    vec![
        Record {
            tx_id: 1000000000000000,
            tx_type: TransactionType::Deposit,
            from_user_id: 0,
            to_user_id: 9223372036854775807,
            amount: 100,
            timestamp: 1633036860000,
            status: TransactionStatus::Failure,
            description: "Record number 1".to_string(),
        },
        Record {
            tx_id: 1000000000000001,
            tx_type: TransactionType::Transfer,
            from_user_id: 9223372036854775807,
            to_user_id: 9223372036854775807,
            amount: 200,
            timestamp: 1633036920000,
            status: TransactionStatus::Pending,
            description: "Record number 2".to_string(),
        },
        Record {
            tx_id: 1000000000000002,
            tx_type: TransactionType::Withdrawal,
            from_user_id: 599094029349995112,
            to_user_id: 0,
            amount: 300,
            timestamp: 1633036980000,
            status: TransactionStatus::Success,
            description: "Record number 3".to_string(),
        },
    ]
}

#[test]
fn csv_format_test_load_data() {
    let data = b"TX_ID,TX_TYPE,FROM_USER_ID,TO_USER_ID,AMOUNT,TIMESTAMP,STATUS,DESCRIPTION\n1000000000000000,DEPOSIT,0,9223372036854775807,100,1633036860000,FAILURE,\"Record number 1\"\n1000000000000001,TRANSFER,9223372036854775807,9223372036854775807,200,1633036920000,PENDING,\"Record number 2\"\n1000000000000002,WITHDRAWAL,599094029349995112,0,300,1633036980000,SUCCESS,\"Record number 3\"";

    let r = read_from(&data[..]);

    assert_eq!(r.unwrap().len(), 3);
}

#[test]
fn csv_format_test_write_data() {
    let data = records();

    let r = write_to(data);

    let text = String::from_utf8(r).unwrap();
    let lines: Vec<&str> = text.lines().collect();

    assert_eq!(lines.len(), 4);
}

#[test]
fn csv_write_exact_text() {
    let text = String::from_utf8(write_to(records()[..1].to_vec())).unwrap();
    assert_eq!(
        text,
        format!(
            "{}\n1000000000000000,DEPOSIT,0,9223372036854775807,100,1633036860000,FAILURE,Record number 1\n",
            HEADER_LINE
        )
    );
}

#[test]
fn csv_round_trip() {
    let bytes = write_to(records());
    assert_eq!(read_from(&bytes).unwrap(), records());
}

#[test]
fn csv_round_trip_non_ascii_and_empty_description() {
    let mut rs = records();
    rs[0].description = "naïve café".to_string();
    rs[1].description = String::new();
    let bytes = write_to(rs.clone());
    assert_eq!(read_from(&bytes).unwrap(), rs);
}

#[test]
fn csv_header_only_and_empty_input() {
    assert_eq!(read_from(b"").unwrap(), Vec::<Record>::new());
    assert_eq!(read_from(HEADER_LINE.as_bytes()).unwrap(), Vec::<Record>::new());
    let only_header = write_to(Vec::new());
    assert_eq!(only_header, format!("{}\n", HEADER_LINE).into_bytes());
}

#[test]
fn csv_blank_lines_are_skipped() {
    let text = format!("{}\n\n1,DEPOSIT,2,3,4,5,SUCCESS,x\n   \n", HEADER_LINE);
    let r = read_from(text.as_bytes()).unwrap();
    assert_eq!(r.len(), 1);
    assert_eq!(r[0].tx_id, 1);
    assert_eq!(r[0].timestamp, 5);
    assert_eq!(r[0].description, "x");
}

#[test]
fn csv_too_few_fields_is_malformed() {
    let text = format!("{}\n1,DEPOSIT,2,3,4,5,SUCCESS\n", HEADER_LINE);
    assert!(matches!(read_from(text.as_bytes()), Err(ParseError::MalformedLine)));
    let text = format!("{}\nabc\n", HEADER_LINE);
    assert!(matches!(read_from(text.as_bytes()), Err(ParseError::MalformedLine)));
}

#[test]
fn csv_too_many_fields_is_malformed() {
    let text = format!("{}\n1,DEPOSIT,2,3,4,5,SUCCESS,a,b\n", HEADER_LINE);
    assert!(matches!(read_from(text.as_bytes()), Err(ParseError::MalformedLine)));
}

#[test]
fn csv_bad_number_is_invalid() {
    let text = format!("{}\n1,DEPOSIT,two,3,4,5,SUCCESS,x\n", HEADER_LINE);
    assert!(matches!(read_from(text.as_bytes()), Err(ParseError::InvalidNumber)));
    let text = format!("{}\n18446744073709551616,DEPOSIT,2,3,4,5,SUCCESS,x\n", HEADER_LINE);
    assert!(matches!(read_from(text.as_bytes()), Err(ParseError::InvalidNumber)));
    let text = format!("{}\n18446744073709551615,DEPOSIT,+2,3,4,5,SUCCESS,x\n", HEADER_LINE);
    let r = read_from(text.as_bytes()).unwrap();
    assert_eq!(r[0].tx_id, u64::MAX);
    assert_eq!(r[0].from_user_id, 2);
}

#[test]
fn csv_unknown_words() {
    let text = format!("{}\n1,deposit,2,3,4,5,SUCCESS,x\n", HEADER_LINE);
    match read_from(text.as_bytes()) {
        Err(ParseError::TransactionType(ParseTransactionTypeError::UnknownTransactionTypeString(s))) => {
            assert_eq!(s, "deposit")
        }
        other => panic!("unexpected {:?}", other),
    }
    let text = format!("{}\n1,DEPOSIT,2,3,4,5,DONE,x\n", HEADER_LINE);
    match read_from(text.as_bytes()) {
        Err(ParseError::TransactionStatus(
            ParseTransactionStatusError::UnknownTransactionStatusString(s),
        )) => assert_eq!(s, "DONE"),
        other => panic!("unexpected {:?}", other),
    }
}

#[test]
fn csv_invalid_utf8_description() {
    let mut bytes = format!("{}\n1,DEPOSIT,2,3,4,5,SUCCESS,", HEADER_LINE).into_bytes();
    bytes.push(0xc3);
    bytes.push(b'\n');
    assert!(matches!(read_from(&bytes), Err(ParseError::InvalidUtf8(_))));
}

#[test]
fn csv_unicode_whitespace_ends_are_trimmed() {
    let text = format!("{}\n\u{3000}1,DEPOSIT,2,3,4,5,SUCCESS,caf\u{e9}\u{A0}\u{2009}\n\u{205F}\n", HEADER_LINE);
    let r = read_from(text.as_bytes()).unwrap();
    assert_eq!(r.len(), 1);
    assert_eq!(r[0].tx_id, 1);
    assert_eq!(r[0].description, "caf\u{e9}");
}

#[test]
fn csv_bad_field_count_after_valid_lines() {
    let text = format!(
        "{}\n1,DEPOSIT,2,3,4,5,SUCCESS,x\n\n1,DEPOSIT,2,3,4,SUCCESS,x",
        HEADER_LINE
    );
    assert!(matches!(read_from(text.as_bytes()), Err(ParseError::MalformedLine)));
    let text = format!("{}\n1,DEPOSIT,2,3,4,5,SUCCESS,x\nDEPOSIT,2,3,4,5,SUCCESS,x\n", HEADER_LINE);
    assert!(matches!(read_from(text.as_bytes()), Err(ParseError::MalformedLine)));
}
