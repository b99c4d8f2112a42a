//! The failure type of the command line.
use vstd::prelude::*;

verus! {

#[verifier::external_type_specification]
#[verifier::external_body]
pub struct ExIoError(std::io::Error);

/// Wraps the `Display` text of `std::io::Error`; that text depends on the
/// operating system, so nothing is stated of it.
#[verifier::external_body]
fn io_error_text(e: &std::io::Error) -> (s: String) {
    e.to_string()
}

/// A failure of a command.
#[derive(Debug)]
pub enum CliError {
    /// The failure was already reported as diagnostic JSON; nothing more is
    /// printed.
    Reported,
    /// An I/O failure (terminal control, writing a file).
    Io(std::io::Error),
    /// A usage error; its message is printed.
    Usage(String),
}

impl CliError {
    /// The text printed for the failure: nothing for [`CliError::Reported`],
    /// the message of a usage error, `io error: ` and the error's text for
    /// an I/O failure.
    pub fn message(&self) -> (s: String)
        ensures
            *self is Reported ==> s@ == Seq::<char>::empty(),
            *self matches CliError::Usage(m) ==> s@ == m@,
            *self is Io ==> exists|t: Seq<char>| s@ == "io error: "@ + t,
    {
        match self {
            CliError::Reported => String::new(),
            CliError::Io(e) => {
                let mut s = String::from_str("io error: ");
                let t = io_error_text(e);
                s.append(t.as_str());
                s
            },
            CliError::Usage(m) => m.clone(),
        }
    }
}

impl From<std::io::Error> for CliError {
    /// An I/O failure becomes [`CliError::Io`].
    fn from(e: std::io::Error) -> (r: CliError) {
        CliError::Io(e)
    }
}

impl vstd::std_specs::convert::FromSpecImpl<std::io::Error> for CliError {
    open spec fn obeys_from_spec() -> bool {
        true
    }

    open spec fn from_spec(e: std::io::Error) -> CliError {
        CliError::Io(e)
    }
}

} // verus!
