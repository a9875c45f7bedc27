use vstd::prelude::*;

verus! {

#[verifier::external_type_specification]
#[verifier::external_body]
pub struct ExIoError(std::io::Error);

#[verifier::external_type_specification]
#[verifier::external_body]
pub struct ExFromUtf8Error(std::string::FromUtf8Error);

/// Failure to decode a transaction type.
#[derive(Debug)]
pub enum ParseTransactionTypeError {
    UnknownTransactionTypeByte(u8),
    UnknownTransactionTypeString(String),
}

/// Failure to decode a transaction status.
#[derive(Debug)]
pub enum ParseTransactionStatusError {
    UnknownTransactionStatusByte(u8),
    UnknownTransactionStatusString(String),
}

/// Every way in which decoding or encoding records can fail.
#[derive(Debug)]
pub enum ParseError {
    TransactionType(ParseTransactionTypeError),
    TransactionStatus(ParseTransactionStatusError),
    RecordDamaged(u64),
    UnexpectedEof { needed: usize, got: usize },
    UnexpectedRecordSize(u32),
    InvalidMagic,
    RecordTooShort,
    Io(std::io::Error),
    InvalidUtf8(std::string::FromUtf8Error),
    InvalidNumber,
    MalformedLine,
    MissingField(&'static str),
    InvalidArgument(&'static str),
}

/// What an error says, with the payloads that cannot be inspected left out.
pub enum ErrorView {
    UnknownTypeByte(u8),
    UnknownTypeString(Seq<char>),
    UnknownStatusByte(u8),
    UnknownStatusString(Seq<char>),
    RecordDamaged(u64),
    UnexpectedEof { needed: usize, got: usize },
    UnexpectedRecordSize(u32),
    InvalidMagic,
    RecordTooShort,
    Io,
    InvalidUtf8,
    InvalidNumber,
    MalformedLine,
    MissingField(Seq<char>),
    InvalidArgument(Seq<char>),
}

impl View for ParseTransactionTypeError {
    type V = ErrorView;

    open spec fn view(&self) -> ErrorView {
        match self {
            ParseTransactionTypeError::UnknownTransactionTypeByte(b) => ErrorView::UnknownTypeByte(*b),
            ParseTransactionTypeError::UnknownTransactionTypeString(s) => ErrorView::UnknownTypeString(s@),
        }
    }
}

impl View for ParseTransactionStatusError {
    type V = ErrorView;

    open spec fn view(&self) -> ErrorView {
        match self {
            ParseTransactionStatusError::UnknownTransactionStatusByte(b) => ErrorView::UnknownStatusByte(*b),
            ParseTransactionStatusError::UnknownTransactionStatusString(s) => ErrorView::UnknownStatusString(s@),
        }
    }
}

impl View for ParseError {
    type V = ErrorView;

    open spec fn view(&self) -> ErrorView {
        match self {
            ParseError::TransactionType(e) => e@,
            ParseError::TransactionStatus(e) => e@,
            ParseError::RecordDamaged(id) => ErrorView::RecordDamaged(*id),
            ParseError::UnexpectedEof { needed, got } => ErrorView::UnexpectedEof { needed: *needed, got: *got },
            ParseError::UnexpectedRecordSize(s) => ErrorView::UnexpectedRecordSize(*s),
            ParseError::InvalidMagic => ErrorView::InvalidMagic,
            ParseError::RecordTooShort => ErrorView::RecordTooShort,
            ParseError::Io(_) => ErrorView::Io,
            ParseError::InvalidUtf8(_) => ErrorView::InvalidUtf8,
            ParseError::InvalidNumber => ErrorView::InvalidNumber,
            ParseError::MalformedLine => ErrorView::MalformedLine,
            ParseError::MissingField(name) => ErrorView::MissingField(name@),
            ParseError::InvalidArgument(msg) => ErrorView::InvalidArgument(msg@),
        }
    }
}

impl From<ParseTransactionTypeError> for ParseError {
    fn from(value: ParseTransactionTypeError) -> Self {
        ParseError::TransactionType(value)
    }
}

impl vstd::std_specs::convert::FromSpecImpl<ParseTransactionTypeError> for ParseError {
    open spec fn obeys_from_spec() -> bool {
        true
    }

    open spec fn from_spec(v: ParseTransactionTypeError) -> ParseError {
        ParseError::TransactionType(v)
    }
}

impl From<ParseTransactionStatusError> for ParseError {
    fn from(value: ParseTransactionStatusError) -> Self {
        ParseError::TransactionStatus(value)
    }
}

impl vstd::std_specs::convert::FromSpecImpl<ParseTransactionStatusError> for ParseError {
    open spec fn obeys_from_spec() -> bool {
        true
    }

    open spec fn from_spec(v: ParseTransactionStatusError) -> ParseError {
        ParseError::TransactionStatus(v)
    }
}

impl From<std::io::Error> for ParseError {
    fn from(value: std::io::Error) -> Self {
        ParseError::Io(value)
    }
}

impl vstd::std_specs::convert::FromSpecImpl<std::io::Error> for ParseError {
    open spec fn obeys_from_spec() -> bool {
        true
    }

    open spec fn from_spec(v: std::io::Error) -> ParseError {
        ParseError::Io(v)
    }
}

impl From<std::string::FromUtf8Error> for ParseError {
    fn from(value: std::string::FromUtf8Error) -> Self {
        ParseError::InvalidUtf8(value)
    }
}

impl vstd::std_specs::convert::FromSpecImpl<std::string::FromUtf8Error> for ParseError {
    open spec fn obeys_from_spec() -> bool {
        true
    }

    open spec fn from_spec(v: std::string::FromUtf8Error) -> ParseError {
        ParseError::InvalidUtf8(v)
    }
}

} // verus!
