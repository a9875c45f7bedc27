//! The transaction record, its two closed enumerations, and the text-format draft.
use vstd::prelude::*;

use crate::error::{ErrorView, ParseError, ParseTransactionStatusError, ParseTransactionTypeError};
use crate::scan::str_eq;

verus! {

#[derive(Debug, PartialEq, Eq, Clone, Copy, Hash, Structural)]
pub enum TransactionType {
    Deposit,
    Withdrawal,
    Transfer,
}

impl TransactionType {
    /// The byte that stands for the type in the binary format.
    pub open spec fn code(self) -> u8 {
        match self {
            TransactionType::Deposit => 0,
            TransactionType::Transfer => 1,
            TransactionType::Withdrawal => 2,
        }
    }

    pub open spec fn from_code(b: u8) -> Option<TransactionType> {
        if b == 0 {
            Some(TransactionType::Deposit)
        } else if b == 1 {
            Some(TransactionType::Transfer)
        } else if b == 2 {
            Some(TransactionType::Withdrawal)
        } else {
            None
        }
    }

    /// The word that stands for the type in the text and CSV formats.
    pub open spec fn token(self) -> Seq<char> {
        match self {
            TransactionType::Deposit => "DEPOSIT"@,
            TransactionType::Transfer => "TRANSFER"@,
            TransactionType::Withdrawal => "WITHDRAWAL"@,
        }
    }

    pub open spec fn from_token(s: Seq<char>) -> Option<TransactionType> {
        if s == "DEPOSIT"@ {
            Some(TransactionType::Deposit)
        } else if s == "TRANSFER"@ {
            Some(TransactionType::Transfer)
        } else if s == "WITHDRAWAL"@ {
            Some(TransactionType::Withdrawal)
        } else {
            None
        }
    }

    pub fn to_byte(&self) -> (r: u8)
        ensures
            r == self.code(),
    {
        match self {
            TransactionType::Deposit => 0,
            TransactionType::Transfer => 1,
            TransactionType::Withdrawal => 2,
        }
    }

    pub fn from_byte(byte: u8) -> (r: Result<TransactionType, ParseTransactionTypeError>)
        ensures
            match Self::from_code(byte) {
                Some(t) => r == Ok::<TransactionType, ParseTransactionTypeError>(t),
                None => r matches Err(e) && e@ == ErrorView::UnknownTypeByte(byte),
            },
    {
        match byte {
            0 => Ok(TransactionType::Deposit),
            1 => Ok(TransactionType::Transfer),
            2 => Ok(TransactionType::Withdrawal),
            other => Err(ParseTransactionTypeError::UnknownTransactionTypeByte(other)),
        }
    }

    pub fn to_str(&self) -> (r: &'static str)
        ensures
            r@ == self.token(),
    {
        match self {
            TransactionType::Deposit => "DEPOSIT",
            TransactionType::Transfer => "TRANSFER",
            TransactionType::Withdrawal => "WITHDRAWAL",
        }
    }

    pub fn parse(tx_type: &str) -> (r: Result<TransactionType, ParseTransactionTypeError>)
        ensures
            match Self::from_token(tx_type@) {
                Some(t) => r == Ok::<TransactionType, ParseTransactionTypeError>(t),
                None => r matches Err(e) && e@ == ErrorView::UnknownTypeString(tx_type@),
            },
    {
        if str_eq(tx_type, "DEPOSIT") {
            Ok(TransactionType::Deposit)
        } else if str_eq(tx_type, "TRANSFER") {
            Ok(TransactionType::Transfer)
        } else if str_eq(tx_type, "WITHDRAWAL") {
            Ok(TransactionType::Withdrawal)
        } else {
            Err(ParseTransactionTypeError::UnknownTransactionTypeString(tx_type.to_owned()))
        }
    }
}

#[derive(Debug, PartialEq, Eq, Clone, Copy, Hash, Structural)]
pub enum TransactionStatus {
    Success,
    Failure,
    Pending,
}

impl TransactionStatus {
    /// The byte that stands for the status in the binary format.
    pub open spec fn code(self) -> u8 {
        match self {
            TransactionStatus::Success => 0,
            TransactionStatus::Failure => 1,
            TransactionStatus::Pending => 2,
        }
    }

    pub open spec fn from_code(b: u8) -> Option<TransactionStatus> {
        if b == 0 {
            Some(TransactionStatus::Success)
        } else if b == 1 {
            Some(TransactionStatus::Failure)
        } else if b == 2 {
            Some(TransactionStatus::Pending)
        } else {
            None
        }
    }

    /// The word that stands for the status in the text and CSV formats.
    pub open spec fn token(self) -> Seq<char> {
        match self {
            TransactionStatus::Success => "SUCCESS"@,
            TransactionStatus::Failure => "FAILURE"@,
            TransactionStatus::Pending => "PENDING"@,
        }
    }

    pub open spec fn from_token(s: Seq<char>) -> Option<TransactionStatus> {
        if s == "SUCCESS"@ {
            Some(TransactionStatus::Success)
        } else if s == "FAILURE"@ {
            Some(TransactionStatus::Failure)
        } else if s == "PENDING"@ {
            Some(TransactionStatus::Pending)
        } else {
            None
        }
    }

    pub fn to_byte(&self) -> (r: u8)
        ensures
            r == self.code(),
    {
        match self {
            TransactionStatus::Success => 0,
            TransactionStatus::Failure => 1,
            TransactionStatus::Pending => 2,
        }
    }

    pub fn from_byte(byte: u8) -> (r: Result<TransactionStatus, ParseTransactionStatusError>)
        ensures
            match Self::from_code(byte) {
                Some(s) => r == Ok::<TransactionStatus, ParseTransactionStatusError>(s),
                None => r matches Err(e) && e@ == ErrorView::UnknownStatusByte(byte),
            },
    {
        match byte {
            0 => Ok(TransactionStatus::Success),
            1 => Ok(TransactionStatus::Failure),
            2 => Ok(TransactionStatus::Pending),
            other => Err(ParseTransactionStatusError::UnknownTransactionStatusByte(other)),
        }
    }

    pub fn to_str(&self) -> (r: &'static str)
        ensures
            r@ == self.token(),
    {
        match self {
            TransactionStatus::Success => "SUCCESS",
            TransactionStatus::Failure => "FAILURE",
            TransactionStatus::Pending => "PENDING",
        }
    }

    pub fn parse(tx_type: &str) -> (r: Result<TransactionStatus, ParseTransactionStatusError>)
        ensures
            match Self::from_token(tx_type@) {
                Some(s) => r == Ok::<TransactionStatus, ParseTransactionStatusError>(s),
                None => r matches Err(e) && e@ == ErrorView::UnknownStatusString(tx_type@),
            },
    {
        if str_eq(tx_type, "SUCCESS") {
            Ok(TransactionStatus::Success)
        } else if str_eq(tx_type, "FAILURE") {
            Ok(TransactionStatus::Failure)
        } else if str_eq(tx_type, "PENDING") {
            Ok(TransactionStatus::Pending)
        } else {
            Err(ParseTransactionStatusError::UnknownTransactionStatusString(tx_type.to_owned()))
        }
    }
}

/// One transaction.
#[derive(Debug, Clone, Hash)]
pub struct Record {
    pub tx_id: u64,
    pub tx_type: TransactionType,
    pub from_user_id: u64,
    pub to_user_id: u64,
    pub amount: u64,
    pub timestamp: u64,
    pub status: TransactionStatus,
    pub description: String,
}

/// A record as a mathematical value: the description is its characters.
pub struct RecordView {
    pub tx_id: u64,
    pub tx_type: TransactionType,
    pub from_user_id: u64,
    pub to_user_id: u64,
    pub amount: u64,
    pub timestamp: u64,
    pub status: TransactionStatus,
    pub description: Seq<char>,
}

impl View for Record {
    type V = RecordView;

    open spec fn view(&self) -> RecordView {
        RecordView {
            tx_id: self.tx_id,
            tx_type: self.tx_type,
            from_user_id: self.from_user_id,
            to_user_id: self.to_user_id,
            amount: self.amount,
            timestamp: self.timestamp,
            status: self.status,
            description: self.description@,
        }
    }
}

/// The views of a sequence of records.
pub open spec fn records_view(rs: Seq<Record>) -> Seq<RecordView> {
    rs.map_values(|r: Record| r@)
}

/// A decoding result as a mathematical value.
pub open spec fn decoded(r: Result<Vec<Record>, ParseError>) -> Result<Seq<RecordView>, ErrorView> {
    match r {
        Ok(v) => Ok(records_view(v@)),
        Err(e) => Err(e@),
    }
}

impl PartialEq for Record {
    fn eq(&self, other: &Record) -> (r: bool) {
        self.tx_id == other.tx_id && self.tx_type == other.tx_type && self.from_user_id
            == other.from_user_id && self.to_user_id == other.to_user_id && self.amount
            == other.amount && self.timestamp == other.timestamp && self.status == other.status
            && self.description == other.description
    }
}

impl vstd::std_specs::cmp::PartialEqSpecImpl for Record {
    open spec fn obeys_eq_spec() -> bool {
        true
    }

    open spec fn eq_spec(&self, other: &Record) -> bool {
        self@ == other@
    }
}

impl Eq for Record {
}

/// The eight fields of a record, as the text format names them.
#[derive(Debug, PartialEq, Eq, Clone, Copy, Structural)]
pub enum Field {
    TxId,
    TxType,
    FromUserId,
    ToUserId,
    Amount,
    Timestamp,
    Status,
    Description,
}

impl Field {
    /// The key of the field in the text format.
    pub open spec fn key(self) -> Seq<char> {
        match self {
            Field::TxId => "TX_ID"@,
            Field::TxType => "TX_TYPE"@,
            Field::FromUserId => "FROM_USER_ID"@,
            Field::ToUserId => "TO_USER_ID"@,
            Field::Amount => "AMOUNT"@,
            Field::Timestamp => "TIMESTAMP"@,
            Field::Status => "STATUS"@,
            Field::Description => "DESCRIPTION"@,
        }
    }

    /// The name that a missing-field error gives.
    pub open spec fn name(self) -> Seq<char> {
        match self {
            Field::TxId => "tx_id"@,
            Field::TxType => "tx_type"@,
            Field::FromUserId => "from_user_id"@,
            Field::ToUserId => "to_user_id"@,
            Field::Amount => "amount"@,
            Field::Timestamp => "timestamp"@,
            Field::Status => "status"@,
            Field::Description => "description"@,
        }
    }

    pub fn key_str(&self) -> (r: &'static str)
        ensures
            r@ == self.key(),
    {
        match self {
            Field::TxId => "TX_ID",
            Field::TxType => "TX_TYPE",
            Field::FromUserId => "FROM_USER_ID",
            Field::ToUserId => "TO_USER_ID",
            Field::Amount => "AMOUNT",
            Field::Timestamp => "TIMESTAMP",
            Field::Status => "STATUS",
            Field::Description => "DESCRIPTION",
        }
    }
}

/// A record under construction: each field present or absent.
#[derive(Debug)]
pub struct TextRecordDraft {
    pub tx_id: Option<u64>,
    pub tx_type: Option<TransactionType>,
    pub from_user_id: Option<u64>,
    pub to_user_id: Option<u64>,
    pub amount: Option<u64>,
    pub timestamp: Option<u64>,
    pub status: Option<TransactionStatus>,
    pub description: Option<String>,
}

pub struct DraftView {
    pub tx_id: Option<u64>,
    pub tx_type: Option<TransactionType>,
    pub from_user_id: Option<u64>,
    pub to_user_id: Option<u64>,
    pub amount: Option<u64>,
    pub timestamp: Option<u64>,
    pub status: Option<TransactionStatus>,
    pub description: Option<Seq<char>>,
}

impl View for TextRecordDraft {
    type V = DraftView;

    open spec fn view(&self) -> DraftView {
        DraftView {
            tx_id: self.tx_id,
            tx_type: self.tx_type,
            from_user_id: self.from_user_id,
            to_user_id: self.to_user_id,
            amount: self.amount,
            timestamp: self.timestamp,
            status: self.status,
            description: match self.description {
                Some(s) => Some(s@),
                None => None,
            },
        }
    }
}

impl DraftView {
    pub open spec fn empty() -> DraftView {
        DraftView {
            tx_id: None,
            tx_type: None,
            from_user_id: None,
            to_user_id: None,
            amount: None,
            timestamp: None,
            status: None,
            description: None,
        }
    }

    pub open spec fn is_empty(self) -> bool {
        self == DraftView::empty()
    }

    pub open spec fn has(self, f: Field) -> bool {
        match f {
            Field::TxId => self.tx_id is Some,
            Field::TxType => self.tx_type is Some,
            Field::FromUserId => self.from_user_id is Some,
            Field::ToUserId => self.to_user_id is Some,
            Field::Amount => self.amount is Some,
            Field::Timestamp => self.timestamp is Some,
            Field::Status => self.status is Some,
            Field::Description => self.description is Some,
        }
    }

    /// The record that a draft becomes, or the first absent field, checked in
    /// the order tx_id, from_user_id, to_user_id, amount, tx_type, timestamp,
    /// status, description.
    pub open spec fn finish(self) -> Result<RecordView, ErrorView> {
        if self.tx_id is None {
            Err(ErrorView::MissingField(Field::TxId.name()))
        } else if self.from_user_id is None {
            Err(ErrorView::MissingField(Field::FromUserId.name()))
        } else if self.to_user_id is None {
            Err(ErrorView::MissingField(Field::ToUserId.name()))
        } else if self.amount is None {
            Err(ErrorView::MissingField(Field::Amount.name()))
        } else if self.tx_type is None {
            Err(ErrorView::MissingField(Field::TxType.name()))
        } else if self.timestamp is None {
            Err(ErrorView::MissingField(Field::Timestamp.name()))
        } else if self.status is None {
            Err(ErrorView::MissingField(Field::Status.name()))
        } else if self.description is None {
            Err(ErrorView::MissingField(Field::Description.name()))
        } else {
            Ok(
                RecordView {
                    tx_id: self.tx_id->Some_0,
                    tx_type: self.tx_type->Some_0,
                    from_user_id: self.from_user_id->Some_0,
                    to_user_id: self.to_user_id->Some_0,
                    amount: self.amount->Some_0,
                    timestamp: self.timestamp->Some_0,
                    status: self.status->Some_0,
                    description: self.description->Some_0,
                },
            )
        }
    }
}

impl Record {
    pub fn from_draft(draft: &TextRecordDraft) -> (r: Result<Record, ParseError>)
        ensures
            match draft@.finish() {
                Ok(v) => r matches Ok(rec) && rec@ == v,
                Err(e) => r matches Err(err) && err@ == e,
            },
    {
        let tx_id = match draft.tx_id {
            Some(v) => v,
            None => return Err(ParseError::MissingField("tx_id")),
        };
        let from_user_id = match draft.from_user_id {
            Some(v) => v,
            None => return Err(ParseError::MissingField("from_user_id")),
        };
        let to_user_id = match draft.to_user_id {
            Some(v) => v,
            None => return Err(ParseError::MissingField("to_user_id")),
        };
        let amount = match draft.amount {
            Some(v) => v,
            None => return Err(ParseError::MissingField("amount")),
        };
        let tx_type = match draft.tx_type {
            Some(v) => v,
            None => return Err(ParseError::MissingField("tx_type")),
        };
        let timestamp = match draft.timestamp {
            Some(v) => v,
            None => return Err(ParseError::MissingField("timestamp")),
        };
        let status = match draft.status {
            Some(v) => v,
            None => return Err(ParseError::MissingField("status")),
        };
        let description = match &draft.description {
            Some(v) => v.clone(),
            None => return Err(ParseError::MissingField("description")),
        };
        Ok(Record { tx_id, tx_type, from_user_id, to_user_id, amount, timestamp, status, description })
    }
}

impl TextRecordDraft {
    pub fn reset(&mut self)
        ensures
            final(self)@ == DraftView::empty(),
    {
        self.tx_id = None;
        self.tx_type = None;
        self.from_user_id = None;
        self.to_user_id = None;
        self.amount = None;
        self.timestamp = None;
        self.status = None;
        self.description = None;
    }

    pub fn is_empty(&self) -> (r: bool)
        ensures
            r == self@.is_empty(),
    {
        self.tx_id.is_none() && self.tx_type.is_none() && self.from_user_id.is_none()
            && self.to_user_id.is_none() && self.amount.is_none() && self.timestamp.is_none()
            && self.status.is_none() && self.description.is_none()
    }
}

/// The three interchangeable formats.
#[derive(Debug, PartialEq, Eq, Clone, Copy, Structural)]
pub enum Format {
    Csv,
    Text,
    Bin,
}

impl Format {
    /// The name of the format.
    pub fn as_str(&self) -> (r: &'static str)
        ensures
            r@ == match self {
                Format::Csv => "Csv"@,
                Format::Text => "Text"@,
                Format::Bin => "Bin"@,
            },
    {
        match self {
            Format::Csv => "Csv",
            Format::Text => "Text",
            Format::Bin => "Bin",
        }
    }
}

/// Records decoded so far in front of the outcome of decoding the rest.
pub open spec fn prepend(
    acc: Seq<RecordView>,
    rest: Result<Seq<RecordView>, ErrorView>,
) -> Result<Seq<RecordView>, ErrorView> {
    match rest {
        Ok(rs) => Ok(acc + rs),
        Err(e) => Err(e),
    }
}

pub proof fn lemma_prepend_push(
    acc: Seq<RecordView>,
    r: RecordView,
    rest: Result<Seq<RecordView>, ErrorView>,
)
    ensures
        prepend(acc, prepend(seq![r], rest)) == prepend(acc.push(r), rest),
{
    if let Ok(rs) = rest {
        assert(acc + (seq![r] + rs) =~= acc.push(r) + rs);
    }
}

pub proof fn lemma_records_view_push(rs: Seq<Record>, r: Record)
    ensures
        records_view(rs.push(r)) == records_view(rs).push(r@),
{
    assert(records_view(rs.push(r)) =~= records_view(rs).push(r@));
}

} // verus!
