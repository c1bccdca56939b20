//! Errors found in a source text, with the byte span they concern.
use vstd::prelude::*;

verus! {

/// An error: a message and the byte range of the source text that it concerns.
#[derive(Debug)]
pub struct Error {
    msg: String,
    span: core::ops::Range<usize>,
}

/// What an [`Error`] holds, as the specifications see it.
pub struct ErrorView {
    pub msg: Seq<char>,
    pub start: int,
    pub end: int,
}

impl View for Error {
    type V = ErrorView;

    closed spec fn view(&self) -> ErrorView {
        ErrorView { msg: self.msg@, start: self.span.start as int, end: self.span.end as int }
    }
}

impl Error {
    /// An error with the given message and span.
    pub fn new(msg: String, span: core::ops::Range<usize>) -> (e: Error)
        ensures
            e@ == (ErrorView { msg: msg@, start: span.start as int, end: span.end as int }),
    {
        Error { msg, span }
    }

    /// The message.
    pub fn msg(&self) -> (m: &str)
        ensures
            m@ == self@.msg,
    {
        self.msg.as_str()
    }

    /// The start of the span.
    pub fn start(&self) -> (s: usize)
        ensures
            s == self@.start,
    {
        self.span.start
    }

    /// The end of the span.
    pub fn end(&self) -> (s: usize)
        ensures
            s == self@.end,
    {
        self.span.end
    }
}

} // verus!
