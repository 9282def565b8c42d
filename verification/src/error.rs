//! The one error type of the library.

use vstd::prelude::*;
use vstd::string::StringExecFns;

verus! {

/// What the accessibility layer reports when a walk leaves no node at all.
pub open spec fn no_root_text() -> Seq<char> {
    "No root node built"@
}

/// An error from the accessibility test interface.
#[derive(Debug, PartialEq, Eq)]
pub enum TestByATSPIError {
    /// Cannot find the application you specified to connect to: no
    /// application on the bus bears the name, or more than one does.
    CannotFindApplication,
    /// An error of the accessibility layer, with its description.
    Atspi(String),
    /// An error of the message bus, with its description.
    Zbus(String),
    /// The target does not support this kind of interaction.
    CannotPerformInteractionOnTarget,
    /// The action cannot be found on this node.
    CannotFindAction,
}

impl TestByATSPIError {
    /// The text that describes the error to a reader.
    pub open spec fn describe(self) -> Seq<char> {
        match self {
            TestByATSPIError::CannotFindApplication =>
                "Cannot find the application you specified to connect to."@,
            TestByATSPIError::Atspi(text) => "ATSPI error: "@ + text@,
            TestByATSPIError::Zbus(text) => "ZBus error: "@ + text@,
            TestByATSPIError::CannotPerformInteractionOnTarget =>
                "The target you have provided does not support that kind of interaction"@,
            TestByATSPIError::CannotFindAction => "The action cannot be found on this node"@,
        }
    }

    /// Whether this is the error that stands for a walk that left no node.
    pub open spec fn is_no_root(self) -> bool {
        self matches TestByATSPIError::Atspi(text) && text@ == no_root_text()
    }

    /// The error that stands for a walk that left no node.
    pub fn no_root() -> (error: TestByATSPIError)
        ensures
            error.is_no_root(),
    {
        TestByATSPIError::Atspi(String::from_str("No root node built"))
    }

    /// The text that describes the error to a reader.
    pub fn message(&self) -> (text: String)
        ensures
            text@ == self.describe(),
    {
        match self {
            TestByATSPIError::CannotFindApplication => String::from_str(
                "Cannot find the application you specified to connect to.",
            ),
            TestByATSPIError::Atspi(text) => String::from_str("ATSPI error: ").concat(
                text.as_str(),
            ),
            TestByATSPIError::Zbus(text) => String::from_str("ZBus error: ").concat(text.as_str()),
            TestByATSPIError::CannotPerformInteractionOnTarget => String::from_str(
                "The target you have provided does not support that kind of interaction",
            ),
            TestByATSPIError::CannotFindAction => String::from_str(
                "The action cannot be found on this node",
            ),
        }
    }
}

} // verus!
