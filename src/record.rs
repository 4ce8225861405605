use vstd::prelude::*;
use crate::value::{entries_model, EntriesModel, Value};

verus! {

/// The class of a reply to a command.
#[derive(Clone, Copy, Debug, PartialEq, Eq, Structural)]
pub enum ResultClass {
    Done,
    Running,
    Connected,
    Error,
    Exit,
}

/// The channel of an out-of-band notification.
#[derive(Clone, Copy, Debug, PartialEq, Eq, Structural)]
pub enum AsyncKind {
    Exec,
    Notify,
    Status,
}

/// The channel of a stream of raw text.
#[derive(Clone, Copy, Debug, PartialEq, Eq, Structural)]
pub enum StreamKind {
    Console,
    Target,
    Log,
}

/// The reply to exactly one command.
#[derive(Debug, PartialEq)]
pub struct ResultRecord {
    pub class: ResultClass,
    pub results: Vec<(String, Value)>,
}

/// A notification that no command asked for.
#[derive(Debug, PartialEq)]
pub struct OutOfBandRecord {
    pub kind: AsyncKind,
    pub class: String,
    pub results: Vec<(String, Value)>,
}

/// Text passed through for display.
#[derive(Debug, PartialEq)]
pub struct StreamRecord {
    pub kind: StreamKind,
    pub data: String,
}

/// One line of the debugger's output.
#[derive(Debug, PartialEq)]
pub enum Record {
    Result(ResultRecord),
    OutOfBand(OutOfBandRecord),
    Stream(StreamRecord),
}

/// The mathematical model of a `Record`.
pub enum RecordModel {
    Result(ResultClass, EntriesModel),
    OutOfBand(AsyncKind, Seq<char>, EntriesModel),
    Stream(StreamKind, Seq<char>),
}

impl View for ResultRecord {
    type V = RecordModel;

    open spec fn view(&self) -> RecordModel {
        RecordModel::Result(self.class, entries_model(self.results@))
    }
}

impl View for OutOfBandRecord {
    type V = RecordModel;

    open spec fn view(&self) -> RecordModel {
        RecordModel::OutOfBand(self.kind, self.class@, entries_model(self.results@))
    }
}

impl View for StreamRecord {
    type V = RecordModel;

    open spec fn view(&self) -> RecordModel {
        RecordModel::Stream(self.kind, self.data@)
    }
}

impl View for Record {
    type V = RecordModel;

    open spec fn view(&self) -> RecordModel {
        match self {
            Record::Result(r) => r@,
            Record::OutOfBand(r) => r@,
            Record::Stream(r) => r@,
        }
    }
}

/// A line that does not follow the grammar; it carries the line.
#[derive(Debug, PartialEq)]
pub struct ParseError {
    pub line: String,
}

} // verus!
