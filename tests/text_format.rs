use tx_formats::error::ParseError;
use tx_formats::model::{Record, TransactionStatus, TransactionType};
use tx_formats::text_format::{read_from, write_to};

fn records() -> Vec<Record> {
    vec![
        Record {
            tx_id: 1000000000000000,
            tx_type: TransactionType::Deposit,
            from_user_id: 0,
            to_user_id: 9223372036854775807,
            amount: 100,
            timestamp: 1633036860000,
            status: TransactionStatus::Failure,
            description: "Record number 1".to_string(),
        },
        Record {
            tx_id: 1000000000000001,
            tx_type: TransactionType::Transfer,
            from_user_id: 9223372036854775807,
            to_user_id: 9223372036854775807,
            amount: 200,
            timestamp: 1633036920000,
            status: TransactionStatus::Pending,
            description: "Record number 2".to_string(),
        },
        Record {
            tx_id: 1000000000000002,
            tx_type: TransactionType::Withdrawal,
            from_user_id: 599094029349995112,
            to_user_id: 0,
            amount: 300,
            timestamp: 1633036980000,
            status: TransactionStatus::Success,
            description: "Record number 3".to_string(),
        },
    ]
}

const BLOCK: &str = "TX_ID: 1\nTX_TYPE: DEPOSIT\nTO_USER_ID: 2\nFROM_USER_ID: 3\nTIMESTAMP: 4\nDESCRIPTION: d\nAMOUNT: 5\nSTATUS: SUCCESS\n";

#[test]
fn text_format_test_load_data() {
    let data = "
            # Record 1 (DEPOSIT)
            TX_TYPE: DEPOSIT
            TO_USER_ID: 9223372036854775807
            FROM_USER_ID: 0
            TIMESTAMP: 1633036860000
            DESCRIPTION: \"Record number 1\"
            TX_ID: 1000000000000000
            AMOUNT: 100
            STATUS: FAILURE

            # Record 2 (TRANSFER)
            DESCRIPTION: \"Record number 2\"
            TIMESTAMP: 1633036920000
            STATUS: PENDING
            AMOUNT: 200
            TX_ID: 1000000000000001
            TX_TYPE: TRANSFER
            FROM_USER_ID: 9223372036854775807
            TO_USER_ID: 9223372036854775807

            # Record 3 (WITHDRAWAL)
            DESCRIPTION: \"Record number 3\"
            FROM_USER_ID: 599094029349995112
            TX_ID: 1000000000000002
            TO_USER_ID: 0
            AMOUNT: 300
            TX_TYPE: WITHDRAWAL
            STATUS: SUCCESS
            TIMESTAMP: 1633036980000
            ";

    let r = read_from(data.as_bytes());

    assert_eq!(r.unwrap().len(), 3);
}

#[test]
fn text_format_test_write_data() {
    let data = records();

    let r = write_to(data);

    let text = String::from_utf8(r).unwrap();
    let lines: Vec<&str> = text.lines().collect();

    assert_eq!(lines.len(), 26);
}

#[test]
fn text_write_exact_text() {
    let text = String::from_utf8(write_to(records()[..1].to_vec())).unwrap();
    assert_eq!(
        text,
        "TX_ID: 1000000000000000\nTX_TYPE: DEPOSIT\nTO_USER_ID: 9223372036854775807\nFROM_USER_ID: 0\nTIMESTAMP: 1633036860000\nDESCRIPTION: Record number 1\nAMOUNT: 100\nSTATUS: FAILURE"
    );
    assert_eq!(write_to(Vec::new()), Vec::<u8>::new());
}

#[test]
fn text_round_trip() {
    let bytes = write_to(records());
    assert_eq!(read_from(&bytes).unwrap(), records());
}

#[test]
fn text_round_trip_unusual_descriptions() {
    let mut rs = records();
    rs[0].description = "a: b, # c".to_string();
    rs[1].description = String::new();
    rs[2].description = "Grüße".to_string();
    let bytes = write_to(rs.clone());
    assert_eq!(read_from(&bytes).unwrap(), rs);
}

#[test]
fn text_block_in_any_order_decodes() {
    let text = "STATUS: SUCCESS\nAMOUNT: 5\nDESCRIPTION: d\nTIMESTAMP: 4\nFROM_USER_ID: 3\nTO_USER_ID: 2\nTX_TYPE: DEPOSIT\nTX_ID: 1\n";
    let r = read_from(text.as_bytes()).unwrap();
    assert_eq!(
        r,
        vec![Record {
            tx_id: 1,
            tx_type: TransactionType::Deposit,
            from_user_id: 3,
            to_user_id: 2,
            amount: 5,
            timestamp: 4,
            status: TransactionStatus::Success,
            description: "d".to_string(),
        }]
    );
}

#[test]
fn text_missing_key_names_it() {
    let cases = [
        ("TX_ID", "tx_id"),
        ("TX_TYPE", "tx_type"),
        ("FROM_USER_ID", "from_user_id"),
        ("TO_USER_ID", "to_user_id"),
        ("AMOUNT", "amount"),
        ("TIMESTAMP", "timestamp"),
        ("STATUS", "status"),
        ("DESCRIPTION", "description"),
    ];
    for (key, name) in cases {
        let text: String = BLOCK
            .lines()
            .filter(|l| !l.starts_with(&format!("{}:", key)))
            .map(|l| format!("{}\n", l))
            .collect();
        match read_from(text.as_bytes()) {
            Err(ParseError::MissingField(n)) => assert_eq!(n, name),
            other => panic!("unexpected {:?}", other),
        }
        let blocked = format!("{}\n{}", text, BLOCK);
        assert!(matches!(read_from(blocked.as_bytes()), Err(ParseError::MissingField(_))));
    }
}

#[test]
fn text_blocks_comments_and_blank_lines() {
    let text = format!("# first\n\n{}\n\n\n# second\n{}", BLOCK, BLOCK);
    let r = read_from(text.as_bytes()).unwrap();
    assert_eq!(r.len(), 2);
    assert_eq!(r[0], r[1]);
    assert_eq!(read_from(b"\n\n# nothing\n").unwrap(), Vec::<Record>::new());
}

#[test]
fn text_errors() {
    assert!(matches!(read_from(b"TX_ID 1\n"), Err(ParseError::MalformedLine)));
    assert!(matches!(read_from(b"COLOR: red\n"), Err(ParseError::MalformedLine)));
    assert!(matches!(read_from(b"TX_ID: one\n"), Err(ParseError::InvalidNumber)));
    assert!(matches!(read_from(b"AMOUNT: -5\n"), Err(ParseError::InvalidNumber)));
    assert!(matches!(read_from(b"TX_TYPE: GIFT\n"), Err(ParseError::TransactionType(_))));
    assert!(matches!(read_from(b"STATUS: LOST\n"), Err(ParseError::TransactionStatus(_))));
    assert!(matches!(read_from(b"DESCRIPTION: \xff\n"), Err(ParseError::InvalidUtf8(_))));
}

#[test]
fn text_later_value_wins() {
    let text = format!("TX_ID: 99\n{}", BLOCK);
    let r = read_from(text.as_bytes()).unwrap();
    assert_eq!(r[0].tx_id, 1);
}

#[test]
fn text_unicode_whitespace_is_trimmed() {
    let text = "TX_ID:\u{A0}1\u{3000}\nTX_TYPE: DEPOSIT\u{2003}\n\u{1680}TO_USER_ID: 2\nFROM_USER_ID:\u{0B}3\nTIMESTAMP: 4\u{85}\nDESCRIPTION:\u{2028} d \u{202F}\nAMOUNT: 5\nSTATUS: SUCCESS\n";
    let r = read_from(text.as_bytes()).unwrap();
    assert_eq!(r.len(), 1);
    assert_eq!(r[0].tx_id, 1);
    assert_eq!(r[0].to_user_id, 2);
    assert_eq!(r[0].from_user_id, 3);
    assert_eq!(r[0].timestamp, 4);
    assert_eq!(r[0].description, "d");
    assert!(read_from("\u{3000}\n\u{A0}\n".as_bytes()).unwrap().is_empty());
}

#[test]
fn text_block_with_comments_and_plain_values() {
    let text = "# header\n\n  \nAMOUNT: +5\nTX_TYPE: DEPOSIT\nSTATUS: SUCCESS\nTX_ID: 0001\nDESCRIPTION: d\nFROM_USER_ID: 3\nTIMESTAMP: 4\nTO_USER_ID: 2\n\n";
    let r = read_from(text.as_bytes()).unwrap();
    assert_eq!(r.len(), 1);
    assert_eq!(r[0].amount, 5);
    assert_eq!(r[0].tx_id, 1);
    let missing = "# header\nAMOUNT: +5\nTX_TYPE: DEPOSIT\nSTATUS: SUCCESS\nTX_ID: 0001\nDESCRIPTION: d\nFROM_USER_ID: 3\nTIMESTAMP: 4\n\n";
    match read_from(missing.as_bytes()) {
        Err(ParseError::MissingField(n)) => assert_eq!(n, "to_user_id"),
        other => panic!("unexpected {:?}", other),
    }
}
