//! What can go wrong while a configuration is compiled.

use vstd::prelude::*;
use vstd::string::*;
use crate::text::{concat2, concat3, decimal, decimal_string};

verus! {

/// An error of the compiler. Errors of the configuration are values of this
/// type; none of them ends the process.
#[derive(Debug, PartialEq, Eq)]
#[allow(inconsistent_fields)]
pub enum Error {
    /// `key` was looked up in `container` and is not there.
    Lookup { key: String, container: String },
    /// The number `value`, called `name`, is outside `min..=max`.
    OutOfRange { name: String, value: usize, min: usize, max: usize },
    /// `value` cannot be used as a `thing`.
    BadValue { thing: String, value: String },
    /// A layout file is malformed near line `line` (the first line is 1).
    Syntax { line: usize },
    /// `key` is already in `container`.
    Duplicate { key: String, container: String },
    /// The rows of the two-dimensional array `name` differ in length, or it
    /// has no row.
    NotRectangular { name: String },
    /// A layout names the switch at (`row`, `column`), and these pins are not
    /// both among the configured row and column pins.
    UnknownSwitch { row: u8, column: u8 },
    /// The switches of the layout are not the switches of the matrix, each
    /// exactly once.
    NotPermutation,
    /// `cause` happened while doing what `message` says.
    Context { message: String, cause: Box<Error> },
}

/// An `Error` with its strings as sequences of characters.
#[allow(inconsistent_fields)]
pub enum ErrorView {
    Lookup { key: Seq<char>, container: Seq<char> },
    OutOfRange { name: Seq<char>, value: nat, min: nat, max: nat },
    BadValue { thing: Seq<char>, value: Seq<char> },
    Syntax { line: nat },
    Duplicate { key: Seq<char>, container: Seq<char> },
    NotRectangular { name: Seq<char> },
    UnknownSwitch { row: u8, column: u8 },
    NotPermutation,
    Context { message: Seq<char>, cause: Box<ErrorView> },
}

impl View for Error {
    type V = ErrorView;

    open spec fn view(&self) -> ErrorView {
        self.model()
    }
}

impl Error {
    /// The error with its strings as sequences of characters.
    pub open spec fn model(&self) -> ErrorView
        decreases self,
    {
        match self {
            Error::Lookup { key, container } => ErrorView::Lookup {
                key: key@,
                container: container@,
            },
            Error::OutOfRange { name, value, min, max } => ErrorView::OutOfRange {
                name: name@,
                value: *value as nat,
                min: *min as nat,
                max: *max as nat,
            },
            Error::BadValue { thing, value } => ErrorView::BadValue { thing: thing@, value: value@ },
            Error::Syntax { line } => ErrorView::Syntax { line: *line as nat },
            Error::Duplicate { key, container } => ErrorView::Duplicate {
                key: key@,
                container: container@,
            },
            Error::NotRectangular { name } => ErrorView::NotRectangular { name: name@ },
            Error::UnknownSwitch { row, column } => ErrorView::UnknownSwitch {
                row: *row,
                column: *column,
            },
            Error::NotPermutation => ErrorView::NotPermutation,
            Error::Context { message, cause } => ErrorView::Context {
                message: message@,
                cause: Box::new(cause.model()),
            },
        }
    }
}

impl ErrorView {
    /// The error without the contexts wrapped round it.
    pub open spec fn root(self) -> ErrorView
        decreases self,
    {
        match self {
            ErrorView::Context { message, cause } => cause.root(),
            _ => self,
        }
    }

    /// The error as one line of text: the contexts from the outermost in,
    /// each followed by `": "`, then the root error.
    pub open spec fn message(self) -> Seq<char>
        decreases self,
    {
        match self {
            ErrorView::Lookup { key, container } => "no entry for '"@ + key + "' in "@ + container,
            ErrorView::OutOfRange { name, value, min, max } => name + " is out of range: "@
                + decimal(value) + " is not in "@ + decimal(min) + "..="@ + decimal(max),
            ErrorView::BadValue { thing, value } => "invalid "@ + thing + ": '"@ + value + "'"@,
            ErrorView::Syntax { line } => "syntax error in kmap file near line "@ + decimal(line),
            ErrorView::Duplicate { key, container } => container + " already contains key: "@ + key,
            ErrorView::NotRectangular { name } => "array is not rectangular: "@ + name,
            ErrorView::UnknownSwitch { row, column } => "no switch at row pin "@ + decimal(row as nat)
                + ", column pin "@ + decimal(column as nat),
            ErrorView::NotPermutation => "layout and switch matrix do not match one to one"@,
            ErrorView::Context { message, cause } => message + ": "@ + cause.message(),
        }
    }
}

impl Error {
    /// `key` is missing from `container`.
    pub fn lookup(key: &str, container: &str) -> (e: Error)
        ensures
            e@ == (ErrorView::Lookup { key: key@, container: container@ }),
    {
        Error::Lookup { key: key.to_owned(), container: container.to_owned() }
    }

    /// `key` is already in `container`.
    pub fn duplicate(key: &str, container: &str) -> (e: Error)
        ensures
            e@ == (ErrorView::Duplicate { key: key@, container: container@ }),
    {
        Error::Duplicate { key: key.to_owned(), container: container.to_owned() }
    }

    /// `value` cannot be used as a `thing`.
    pub fn bad_value(thing: &str, value: &str) -> (e: Error)
        ensures
            e@ == (ErrorView::BadValue { thing: thing@, value: value@ }),
    {
        Error::BadValue { thing: thing.to_owned(), value: value.to_owned() }
    }

    /// Wraps the error in a context.
    pub fn context(self, message: &str) -> (e: Error)
        ensures
            e@ == (ErrorView::Context { message: message@, cause: Box::new(self@) }),
    {
        Error::Context { message: message.to_owned(), cause: Box::new(self) }
    }

    /// The error as one line of text.
    pub fn message(&self) -> (text: String)
        ensures
            text@ == self@.message(),
        decreases self,
    {
        match self {
            Error::Lookup { key, container } => {
                let mut s = concat3("no entry for '", key.as_str(), "' in ");
                s.append(container.as_str());
                s
            },
            Error::OutOfRange { name, value, min, max } => {
                let mut s = concat2(name.as_str(), " is out of range: ");
                s.append(decimal_string(*value).as_str());
                s.append(" is not in ");
                s.append(decimal_string(*min).as_str());
                s.append("..=");
                s.append(decimal_string(*max).as_str());
                s
            },
            Error::BadValue { thing, value } => {
                let mut s = concat3("invalid ", thing.as_str(), ": '");
                s.append(value.as_str());
                s.append("'");
                s
            },
            Error::Syntax { line } => concat2(
                "syntax error in kmap file near line ",
                decimal_string(*line).as_str(),
            ),
            Error::Duplicate { key, container } => concat3(
                container.as_str(),
                " already contains key: ",
                key.as_str(),
            ),
            Error::NotRectangular { name } => concat2("array is not rectangular: ", name.as_str()),
            Error::UnknownSwitch { row, column } => {
                let mut s = concat2("no switch at row pin ", decimal_string(*row as usize).as_str());
                s.append(", column pin ");
                s.append(decimal_string(*column as usize).as_str());
                s
            },
            Error::NotPermutation => "layout and switch matrix do not match one to one".to_owned(),
            Error::Context { message, cause } => {
                let inner = cause.message();
                concat3(message.as_str(), ": ", inner.as_str())
            },
        }
    }
}

} // verus!
