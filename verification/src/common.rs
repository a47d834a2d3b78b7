//! The commands and responses that the store and its clients exchange.

use vstd::prelude::*;

verus! {

/// A command, as contracts speak of it: the same three shapes over texts.
pub enum Record {
    Put(Seq<char>, Seq<char>),
    Rm(Seq<char>),
    Get(Seq<char>),
}

impl Record {
    /// The key that the command is about.
    pub open spec fn key(self) -> Seq<char> {
        match self {
            Record::Put(k, _) => k,
            Record::Rm(k) => k,
            Record::Get(k) => k,
        }
    }
}

/// A command of the store. `Put` sets a key to a value. `Put` and `Rm` are also the records of the log;
/// `Get` is sent by clients and never written.
#[derive(Debug, Clone)]
pub enum Command {
    Put(String, String),
    Rm(String),
    Get(String),
}

impl View for Command {
    type V = Record;

    open spec fn view(&self) -> Record {
        match self {
            Command::Put(k, v) => Record::Put(k@, v@),
            Command::Rm(k) => Record::Rm(k@),
            Command::Get(k) => Record::Get(k@),
        }
    }
}

/// What the server answers to one command.
#[derive(Debug, Clone)]
pub enum Response {
    Success(Option<String>),
    Failure(String),
}

/// A response, as contracts speak of it.
pub enum Reply {
    Success(Option<Seq<char>>),
    Failure(Seq<char>),
}

impl View for Response {
    type V = Reply;

    open spec fn view(&self) -> Reply {
        match self {
            Response::Success(Some(v)) => Reply::Success(Some(v@)),
            Response::Success(None) => Reply::Success(None),
            Response::Failure(e) => Reply::Failure(e@),
        }
    }
}

} // verus!
