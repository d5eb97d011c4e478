//! Errors reported by parsing, conversion and evaluation.
use vstd::prelude::*;
use vstd::string::*;
use crate::position::Position;
use crate::text::push_chars;

verus! {

/// A value could not be converted without loss.
#[derive(Debug)]
pub struct ConversionError {
    pub msg: String,
}

/// An operation was applied outside its domain.
#[derive(Debug)]
pub struct InvalidOperationError {
    pub msg: String,
}

/// Malformed input, with the place in the source where it was found.
#[derive(Debug)]
pub struct SyntaxError {
    pub msg: String,
    pub position: Position,
}

/// What a [`SyntaxError`] says, as plain data.
pub ghost struct SyntaxErrorView {
    pub msg: Seq<char>,
    pub position: Position,
}

impl View for SyntaxError {
    type V = SyntaxErrorView;

    open spec fn view(&self) -> SyntaxErrorView {
        SyntaxErrorView { msg: self.msg@, position: self.position }
    }
}

impl View for ConversionError {
    type V = Seq<char>;

    open spec fn view(&self) -> Seq<char> {
        self.msg@
    }
}

impl View for InvalidOperationError {
    type V = Seq<char>;

    open spec fn view(&self) -> Seq<char> {
        self.msg@
    }
}

/// An operation on values failed.
#[derive(Debug)]
pub enum ValueError {
    /// A conversion would have lost information.
    Conversion(ConversionError),
    /// The operation is not defined on its operands.
    InvalidOperation(InvalidOperationError),
}

/// What a [`ValueError`] says, as plain data.
pub ghost enum ValueErrorView {
    Conversion(Seq<char>),
    InvalidOperation(Seq<char>),
}

impl View for ValueError {
    type V = ValueErrorView;

    open spec fn view(&self) -> ValueErrorView {
        match self {
            ValueError::Conversion(e) => ValueErrorView::Conversion(e@),
            ValueError::InvalidOperation(e) => ValueErrorView::InvalidOperation(e@),
        }
    }
}

impl ValueError {
    /// A failed conversion with the message `msg`.
    pub fn conversion(msg: &str) -> (e: ValueError)
        ensures
            e@ == ValueErrorView::Conversion(msg@),
    {
        ValueError::Conversion(ConversionError::new(msg))
    }

    /// An undefined operation with the message `msg`.
    pub fn invalid(msg: &str) -> (e: ValueError)
        ensures
            e@ == ValueErrorView::InvalidOperation(msg@),
    {
        ValueError::InvalidOperation(InvalidOperationError::new(msg))
    }

    /// The message of the error.
    pub fn message(&self) -> (s: String)
        ensures
            s@ == match self@ {
                ValueErrorView::Conversion(m) => m,
                ValueErrorView::InvalidOperation(m) => m,
            },
    {
        match self {
            ValueError::Conversion(e) => e.msg.clone(),
            ValueError::InvalidOperation(e) => e.msg.clone(),
        }
    }
}

/// The text `prefix`, then `detail`, then `suffix`.
pub open spec fn framed(prefix: Seq<char>, detail: Seq<char>, suffix: Seq<char>) -> Seq<char> {
    prefix + detail + suffix
}

/// Builds the message `prefix`, `detail`, `suffix`.
pub fn framed_message(prefix: &str, detail: &Vec<char>, suffix: &str) -> (m: String)
    ensures
        m@ == framed(prefix@, detail@, suffix@),
{
    let mut m = String::from_str(prefix);
    push_chars(&mut m, detail);
    m.append(suffix);
    m
}

impl ConversionError {
    /// A conversion error with the message `msg`.
    pub fn new(msg: &str) -> (e: ConversionError)
        ensures
            e@ == msg@,
    {
        ConversionError { msg: String::from_str(msg) }
    }
}

impl InvalidOperationError {
    /// An invalid-operation error with the message `msg`.
    pub fn new(msg: &str) -> (e: InvalidOperationError)
        ensures
            e@ == msg@,
    {
        InvalidOperationError { msg: String::from_str(msg) }
    }
}

impl SyntaxError {
    /// A syntax error with the message `msg`, found at `position`.
    pub fn new(msg: &str, position: Position) -> (e: SyntaxError)
        ensures
            e@ == (SyntaxErrorView { msg: msg@, position }),
    {
        SyntaxError { msg: String::from_str(msg), position }
    }

    /// A syntax error at `position` whose message quotes `detail` between
    /// `prefix` and `suffix`.
    pub fn quoting(prefix: &str, detail: &Vec<char>, suffix: &str, position: Position) -> (e:
        SyntaxError)
        ensures
            e@ == (SyntaxErrorView { msg: framed(prefix@, detail@, suffix@), position }),
    {
        SyntaxError { msg: framed_message(prefix, detail, suffix), position }
    }

    /// The rendering `<message> at <line>:<column>`.
    pub fn to_string(&self) -> (s: String)
        ensures
            s@ == self.msg@ + " at "@ + self.position.rendering(),
    {
        let mut s = self.msg.clone();
        s.append(" at ");
        let p = self.position.to_string();
        s.append(p.as_str());
        s
    }
}

} // verus!
