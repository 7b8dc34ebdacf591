//! The arguments of the status command.

use vstd::prelude::*;

verus! {

/// The status command: the path whose status is asked for.
#[derive(Debug)]
pub struct StatusCommand {
    path: String,
}

impl View for StatusCommand {
    type V = Seq<char>;

    /// The path, as a sequence of characters.
    closed spec fn view(&self) -> Seq<char> {
        self.path@
    }
}

impl StatusCommand {
    /// The command for a path.
    pub fn new(path: String) -> (command: StatusCommand)
        ensures
            command@ == path@,
    {
        StatusCommand { path }
    }

    /// The path whose status is asked for.
    pub fn path(&self) -> (path: &str)
        ensures
            path@ == self@,
    {
        self.path.as_str()
    }
}

} // verus!
