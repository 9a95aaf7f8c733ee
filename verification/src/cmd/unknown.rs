//! A command name the server does not know; it replies with an error frame
//! and keeps the connection open.

use vstd::prelude::*;
use vstd::string::StringExecFns;

use crate::frame::{Frame, FrameView};

verus! {

/// A request whose name matched no command, carrying the name as
/// received.
#[derive(Debug)]
pub struct Unknown {
    command_name: String,
}

impl View for Unknown {
    type V = Seq<char>;

    closed spec fn view(&self) -> Seq<char> {
        self.command_name@
    }
}

impl Unknown {
    /// Record the unrecognised command name.
    pub fn new(key: &str) -> (u: Unknown)
        ensures
            u@ == key@,
    {
        Unknown { command_name: String::from_str(key) }
    }

    /// The unrecognised name.
    pub fn get_name(&self) -> (n: &str)
        ensures
            n@ == self@,
    {
        self.command_name.as_str()
    }

    /// The reply: an error frame naming the command.
    pub fn apply(self) -> (resp: Frame)
        ensures
            resp@ == FrameView::Error("ERR unknown command '"@ + self@ + "'"@),
    {
        let mut msg = String::from_str("ERR unknown command '");
        msg.append(self.command_name.as_str());
        msg.append("'");
        Frame::Error(msg)
    }
}

} // verus!
