//! Tokens of the pre-order stream, the scalars they borrow, and errors.
use vstd::prelude::*;

verus! {

/// Step into nested containers or skip over them.
#[derive(Clone, Copy, PartialEq, Eq, Structural, Debug)]
pub enum JsonbTraversal {
    SkipOver,
    StepInto,
}

/// A string inside a document, borrowed from the buffer; its bytes are
/// expected to be UTF-8 but are not checked yet.
#[derive(Clone, Copy, Debug)]
pub struct JsonbString<'a> {
    pub bytes: &'a [u8],
}

/// A number inside a document, borrowed from the buffer as its exact decimal
/// digit string.
#[derive(Clone, Copy, Debug)]
pub struct JsonbNumeric<'a> {
    pub digits: &'a [u8],
}

/// A scalar inside a document.
#[derive(Clone, Copy, Debug)]
pub enum JsonbScalar<'a> {
    Null,
    String(JsonbString<'a>),
    Number(JsonbNumeric<'a>),
    Bool(bool),
}

impl<'a> JsonbString<'a> {
    /// The string's bytes in the buffer.
    pub fn as_bytes(&self) -> (r: &'a [u8])
        ensures
            r@ == self.bytes@,
    {
        self.bytes
    }
}

impl<'a> JsonbNumeric<'a> {
    /// The number's decimal digit string in the buffer.
    pub fn as_bytes(&self) -> (r: &'a [u8])
        ensures
            r@ == self.digits@,
    {
        self.digits
    }
}

/// The model of a scalar: the bytes it borrows.
pub enum ScalarModel {
    Null,
    Bool(bool),
    Number(Seq<u8>),
    Str(Seq<u8>),
}

impl<'a> View for JsonbScalar<'a> {
    type V = ScalarModel;

    open spec fn view(&self) -> ScalarModel {
        match self {
            JsonbScalar::Null => ScalarModel::Null,
            JsonbScalar::Bool(b) => ScalarModel::Bool(*b),
            JsonbScalar::Number(n) => ScalarModel::Number(n.digits@),
            JsonbScalar::String(s) => ScalarModel::Str(s.bytes@),
        }
    }
}

/// One event of the pre-order stream.
///
/// `Skipped` stands for a whole container that was passed over: `object` tells
/// its kind and `count` its number of elements or pairs. It takes the place
/// of the `Elem` or `Value` that the container is.
#[derive(Clone, Copy, Debug)]
pub enum JsonbToken<'a> {
    BeginArray(usize),
    EndArray,
    BeginObject(usize),
    EndObject,
    Key(JsonbString<'a>),
    Value(JsonbScalar<'a>),
    Elem(JsonbScalar<'a>),
    Skipped { object: bool, count: usize },
    Done,
}

/// The model of a token.
pub enum TokenModel {
    BeginArray(nat),
    EndArray,
    BeginObject(nat),
    EndObject,
    Key(Seq<u8>),
    Value(ScalarModel),
    Elem(ScalarModel),
    Skipped(bool, nat),
    Done,
}

impl<'a> View for JsonbToken<'a> {
    type V = TokenModel;

    open spec fn view(&self) -> TokenModel {
        match self {
            JsonbToken::BeginArray(n) => TokenModel::BeginArray(*n as nat),
            JsonbToken::EndArray => TokenModel::EndArray,
            JsonbToken::BeginObject(n) => TokenModel::BeginObject(*n as nat),
            JsonbToken::EndObject => TokenModel::EndObject,
            JsonbToken::Key(k) => TokenModel::Key(k.bytes@),
            JsonbToken::Value(s) => TokenModel::Value(s@),
            JsonbToken::Elem(s) => TokenModel::Elem(s@),
            JsonbToken::Skipped { object, count } => TokenModel::Skipped(*object, *count as nat),
            JsonbToken::Done => TokenModel::Done,
        }
    }
}

/// Why a decode failed.
#[derive(Clone, Copy, PartialEq, Eq, Structural, Debug)]
pub enum DecodeError {
    /// Unknown tag byte, truncated buffer, or a declared length or count that
    /// the buffer cannot hold.
    MalformedEncoding,
    /// Bytes that must be UTF-8 text are not.
    InvalidTextEncoding,
    /// A token arrived in a state where it cannot be placed.
    UnexpectedToken,
    /// A scalar kind that is recognised but not handled.
    UnimplementedScalarKind,
    /// The token stream ended before exactly one complete value was built.
    IncompleteDocument,
}

} // verus!
