use vstd::prelude::*;

use crate::frame::{Frame, FrameModel};
use vstd::string::StringExecFns;

verus! {

/// A command that is not supported, answered with an error.
#[derive(Debug)]
pub struct Unknown {
    command_name: String,
}

impl View for Unknown {
    type V = Seq<char>;

    closed spec fn view(&self) -> Seq<char> {
        self.command_name@
    }
}

/// The error text for an unsupported command named `name`.
pub open spec fn unknown_message(name: Seq<char>) -> Seq<char> {
    "ERR unknown command '"@ + name + "'"@
}

impl Unknown {
    /// An unsupported command named `key`.
    pub fn new(key: &str) -> (r: Unknown)
        ensures
            r@ == key@,
    {
        Unknown { command_name: key.to_owned() }
    }

    /// The command's name.
    pub fn get_name(&self) -> (r: &str)
        ensures
            r@ == self@,
    {
        self.command_name.as_str()
    }

    /// The reply: an error naming the command.
    pub fn apply(&self) -> (r: Frame)
        ensures
            r@ == FrameModel::Error(unknown_message(self@)),
    {
        let mut text = "ERR unknown command '".to_owned();
        text.append(self.command_name.as_str());
        text.append("'");
        Frame::Error(text)
    }
}

} // verus!
