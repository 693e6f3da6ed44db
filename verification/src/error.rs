use vstd::prelude::*;

verus! {

/// The six kinds of JSON value.
#[derive(Debug, Clone, Copy, PartialEq, Eq, Structural)]
pub enum Kind {
    Null,
    Bool,
    Number,
    String,
    Array,
    Object,
}

/// A scalar token or a value that its decoder does not take.
#[derive(Debug, PartialEq, Eq)]
pub enum FormatError {
    /// A map with entries stood where only an empty map is accepted.
    ExpectedEmptyMap,
    /// The numeric prefix of a quantity is not a number.
    InvalidAmount(String),
    /// The suffix of a quantity is not one of the unit labels.
    UnknownUnit(String),
    /// The token is not one of the flag names.
    UnknownFlag(String),
    /// The number literal is not an integer that the field can hold.
    InvalidInteger(String),
    /// The text is neither an integer nor the word for no limit.
    InvalidLimit(String),
    /// The value is of a kind that the decoder does not take.
    UnexpectedKind(Kind),
    /// A key that a closed map form does not have.
    UnknownField(String),
    /// A closed map form lacks one of its keys.
    MissingField,
}

/// Required fields were absent after a whole record had been scanned.
#[derive(Debug, PartialEq, Eq)]
pub struct SchemaViolation {
    /// The record type that was being decoded.
    pub record: String,
    /// The canonical names of the absent fields, in the order of the field table.
    pub missing: Vec<String>,
    /// The keys that went to the remaining bucket, in the order in which they were first seen.
    pub remaining: Vec<String>,
}

/// Why a document could not be decoded.
#[derive(Debug, PartialEq, Eq)]
pub enum DecodeError {
    Format(FormatError),
    Schema(SchemaViolation),
}

/// The mathematical content of a [`FormatError`].
pub enum FormatErrorView {
    ExpectedEmptyMap,
    InvalidAmount(Seq<char>),
    UnknownUnit(Seq<char>),
    UnknownFlag(Seq<char>),
    InvalidInteger(Seq<char>),
    InvalidLimit(Seq<char>),
    UnexpectedKind(Kind),
    UnknownField(Seq<char>),
    MissingField,
}

/// The mathematical content of a [`SchemaViolation`].
pub struct SchemaViolationView {
    pub record: Seq<char>,
    pub missing: Seq<Seq<char>>,
    pub remaining: Seq<Seq<char>>,
}

/// The mathematical content of a [`DecodeError`].
pub enum DecodeErrorView {
    Format(FormatErrorView),
    Schema(SchemaViolationView),
}

/// The views of a sequence of strings, element by element.
pub open spec fn texts_view(texts: Seq<String>) -> Seq<Seq<char>> {
    Seq::new(texts.len(), |i: int| texts[i]@)
}

impl View for FormatError {
    type V = FormatErrorView;

    open spec fn view(&self) -> FormatErrorView {
        match self {
            FormatError::ExpectedEmptyMap => FormatErrorView::ExpectedEmptyMap,
            FormatError::InvalidAmount(t) => FormatErrorView::InvalidAmount(t@),
            FormatError::UnknownUnit(t) => FormatErrorView::UnknownUnit(t@),
            FormatError::UnknownFlag(t) => FormatErrorView::UnknownFlag(t@),
            FormatError::InvalidInteger(t) => FormatErrorView::InvalidInteger(t@),
            FormatError::InvalidLimit(t) => FormatErrorView::InvalidLimit(t@),
            FormatError::UnexpectedKind(k) => FormatErrorView::UnexpectedKind(*k),
            FormatError::UnknownField(t) => FormatErrorView::UnknownField(t@),
            FormatError::MissingField => FormatErrorView::MissingField,
        }
    }
}

impl View for SchemaViolation {
    type V = SchemaViolationView;

    open spec fn view(&self) -> SchemaViolationView {
        SchemaViolationView {
            record: self.record@,
            missing: texts_view(self.missing@),
            remaining: texts_view(self.remaining@),
        }
    }
}

impl View for DecodeError {
    type V = DecodeErrorView;

    open spec fn view(&self) -> DecodeErrorView {
        match self {
            DecodeError::Format(e) => DecodeErrorView::Format(e@),
            DecodeError::Schema(e) => DecodeErrorView::Schema(e@),
        }
    }
}

impl DecodeError {
    /// Whether a scalar token or a value failed its decoder.
    pub fn is_format(&self) -> (yes: bool)
        ensures
            yes == (self is Format),
    {
        match self {
            DecodeError::Format(_) => true,
            DecodeError::Schema(_) => false,
        }
    }

    /// Whether required fields were absent.
    pub fn is_schema_violation(&self) -> (yes: bool)
        ensures
            yes == (self is Schema),
    {
        match self {
            DecodeError::Format(_) => false,
            DecodeError::Schema(_) => true,
        }
    }
}

} // verus!
