use tx_formats::compare::is_equal_transactions;
use tx_formats::model::{Record, TransactionStatus, TransactionType};

fn records_mock_1() -> [Record; 2] {
    [
        Record {
            tx_id: 1000000000000000,
            tx_type: TransactionType::Deposit,
            from_user_id: 0,
            to_user_id: 9223372036854775807,
            amount: 100,
            timestamp: 1633036860000,
            status: TransactionStatus::Failure,
            description: "\"Record number 1\"".to_string(),
        },
        Record {
            tx_id: 1000000000000001,
            tx_type: TransactionType::Transfer,
            from_user_id: 9223372036854775807,
            to_user_id: 9223372036854775807,
            amount: 200,
            timestamp: 1633036920000,
            status: TransactionStatus::Pending,
            description: "\"Record number 2\"".to_string(),
        },
    ]
}

fn records_mock_2() -> [Record; 2] {
    [
        Record {
            tx_id: 1000000000000000,
            tx_type: TransactionType::Deposit,
            from_user_id: 0,
            to_user_id: 9223372036854775807,
            amount: 100,
            timestamp: 1633036860000,
            status: TransactionStatus::Failure,
            description: "\"Record number 1\"".to_string(),
        },
        Record {
            tx_id: 1000000000000002,
            tx_type: TransactionType::Withdrawal,
            from_user_id: 599094029349995112,
            to_user_id: 0,
            amount: 300,
            timestamp: 1633036980000,
            status: TransactionStatus::Success,
            description: "\"Record number 3\"".to_string(),
        },
    ]
}

#[test]
fn comparer_test_equal_transactions() {
    let is_equal = is_equal_transactions(&records_mock_1(), &records_mock_1());

    assert!(is_equal);
}

#[test]
fn comparer_test_not_equal_transactions() {
    let is_equal = is_equal_transactions(&records_mock_1(), &records_mock_2());

    assert!(!is_equal);
}

#[test]
fn comparer_order_does_not_matter() {
    let a = records_mock_1();
    let b = [a[1].clone(), a[0].clone()];
    assert!(is_equal_transactions(&a, &b));
}

#[test]
fn comparer_counts_repeats() {
    let a = records_mock_1();
    let twice = [a[0].clone(), a[0].clone()];
    let once = [a[0].clone()];
    assert!(!is_equal_transactions(&twice, &once));
    assert!(!is_equal_transactions(&once, &twice));
    assert!(!is_equal_transactions(&twice, &a));
    assert!(is_equal_transactions(&twice, &twice));
}

#[test]
fn comparer_empty_collections() {
    let empty: [Record; 0] = [];
    assert!(is_equal_transactions(&empty, &empty));
    assert!(!is_equal_transactions(&empty, &records_mock_1()));
}

#[test]
fn comparer_single_field_difference() {
    let a = records_mock_1();
    let mut b = records_mock_1();
    b[1].description = "\"Record number 9\"".to_string();
    assert!(!is_equal_transactions(&a, &b));
}
