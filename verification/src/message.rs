//! The console messages of a run, and its errors.

use vstd::prelude::*;

use crate::ast::Span;
use crate::chars::cat;

verus! {

/// One line of console output.
#[derive(Debug)]
pub enum Message {
    Echo(String),
    Warning(String),
}

/// A console line, mathematically.
pub enum Line {
    Echo(Seq<char>),
    Warning(Seq<char>),
}

impl View for Message {
    type V = Line;

    open spec fn view(&self) -> Line {
        match *self {
            Message::Echo(s) => Line::Echo(s@),
            Message::Warning(s) => Line::Warning(s@),
        }
    }
}

/// A row of console lines, mathematically.
pub open spec fn lines(s: Seq<Message>) -> Seq<Line> {
    Seq::new(s.len(), |i: int| s[i]@)
}

/// One more console line.
pub broadcast proof fn lemma_lines_push(s: Seq<Message>, m: Message)
    ensures
        #[trigger] lines(s.push(m)) == lines(s).push(m@),
{
    assert(lines(s.push(m)) =~= lines(s).push(m@));
}

/// A console line as it is shown.
pub open spec fn shown(l: Line) -> Seq<char> {
    match l {
        Line::Echo(s) => "ECHO: "@ + s,
        Line::Warning(s) => "WARNING: "@ + s,
    }
}

impl Message {
    /// The line as it is shown.
    pub fn render(&self) -> (r: String)
        ensures
            r@ == shown(self@),
    {
        match self {
            Message::Echo(s) => cat("ECHO: ", s.as_str()),
            Message::Warning(s) => cat("WARNING: ", s.as_str()),
        }
    }
}

/// Why an evaluation failed.
#[derive(Debug)]
pub enum Error {
    /// The program is wrong.
    Eval(String),
    /// An assertion of the program failed.
    Assert(String),
    /// The program uses what is not there yet.
    Unimplemented(String),
    /// A name is not known.
    Unknown(String),
    /// A file could not be had.
    Load(String),
    /// The source text is malformed.
    Parse(String),
    /// The evaluation was given up after the number of steps that it was allowed.
    Unfinished,
}

/// A failure, mathematically.
pub enum Fault {
    Eval(Seq<char>),
    Assert(Seq<char>),
    Unimplemented(Seq<char>),
    Unknown(Seq<char>),
    Load(Seq<char>),
    Parse(Seq<char>),
    Unfinished,
}

impl View for Error {
    type V = Fault;

    open spec fn view(&self) -> Fault {
        match *self {
            Error::Eval(s) => Fault::Eval(s@),
            Error::Assert(s) => Fault::Assert(s@),
            Error::Unimplemented(s) => Fault::Unimplemented(s@),
            Error::Unknown(s) => Fault::Unknown(s@),
            Error::Load(s) => Fault::Load(s@),
            Error::Parse(s) => Fault::Parse(s@),
            Error::Unfinished => Fault::Unfinished,
        }
    }
}

/// Why an evaluation failed, and where in the root file where that is known.
#[derive(Debug)]
pub struct Failure {
    pub error: Error,
    pub at: Option<Span>,
}

/// A failure with its place, mathematically.
pub struct Stop {
    pub fault: Fault,
    pub at: Option<Span>,
}

impl View for Failure {
    type V = Stop;

    open spec fn view(&self) -> Stop {
        Stop { fault: self.error@, at: self.at }
    }
}

impl Failure {
    /// A failure whose place is not known.
    pub fn nowhere(error: Error) -> (r: Failure)
        ensures
            r.error == error,
            r.at is None,
    {
        Failure { error, at: None }
    }
}

/// A failure whose place is not known, mathematically.
pub open spec fn nowhere(fault: Fault) -> Stop {
    Stop { fault, at: None }
}

/// A line is shown after the word for what it is.
pub proof fn law_lines_are_shown(text: Seq<char>)
    ensures
        shown(Line::Echo(text)) == "ECHO: "@ + text,
        shown(Line::Warning(text)) == "WARNING: "@ + text,
{
}

}
