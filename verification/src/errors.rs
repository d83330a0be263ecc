use vstd::prelude::*;
use vstd::string::StringExecFns;

use crate::file_system::FileSystemErrors;

verus! {

/// The failures a flow can surface. Per-item transport and parse failures
/// are recovered locally and never reach this type; what does reach it
/// aborts the flow it came from.
pub enum Errors {
    /// A feed document could not be parsed.
    RSS,
    /// An explicitly requested identifier has no matching catalog.
    WrongID(String),
    /// A number field could not be read.
    Parse(String),
    /// A catalog or directory could not be opened or created.
    IO(String),
    /// A catalog row does not match the expected shape.
    CSV(String),
    /// A request exceeded its timeout policy.
    Timeout(String),
    /// A request answered with "not found".
    NotFound(String),
    /// Any other transport-level failure, with its cause.
    Network(String),
}

impl Errors {
    /// The human-readable account of the failure.
    pub fn message(&self) -> (r: String)
        ensures
            match self {
                Errors::RSS => r@ == "Couldn't parse RSS feed"@,
                Errors::WrongID(id) => r@ == "Invalid ID: "@ + id@,
                Errors::Parse(e) => r@ == "Couldn't parse string as number: "@ + e@,
                Errors::IO(e) => r@ == "IO error: "@ + e@,
                Errors::CSV(e) => r@ == "CSV error: "@ + e@,
                Errors::Timeout(url) => r@ == "Network timeout for "@ + url@,
                Errors::NotFound(url) => r@ == "Resource not found "@ + url@,
                Errors::Network(e) => r@ == "Network error "@ + e@,
            },
    {
        match self {
            Errors::RSS => String::from_str("Couldn't parse RSS feed"),
            Errors::WrongID(id) => String::from_str("Invalid ID: ").concat(id.as_str()),
            Errors::Parse(e) => String::from_str("Couldn't parse string as number: ").concat(
                e.as_str(),
            ),
            Errors::IO(e) => String::from_str("IO error: ").concat(e.as_str()),
            Errors::CSV(e) => String::from_str("CSV error: ").concat(e.as_str()),
            Errors::Timeout(url) => String::from_str("Network timeout for ").concat(url.as_str()),
            Errors::NotFound(url) => String::from_str("Resource not found ").concat(url.as_str()),
            Errors::Network(e) => String::from_str("Network error ").concat(e.as_str()),
        }
    }

    /// Maps a storage failure into the flow-level taxonomy, keeping its
    /// account.
    pub fn from_file_system(err: FileSystemErrors) -> (r: Errors)
        ensures
            match err {
                FileSystemErrors::CreateDirectory(e) => r matches Errors::IO(m) && m@ == e@,
                FileSystemErrors::CreateFile(e) => r matches Errors::IO(m) && m@ == e@,
                FileSystemErrors::RenameError(e) => r matches Errors::IO(m) && m@ == e@,
                FileSystemErrors::RemoveError(e) => r matches Errors::IO(m) && m@ == e@,
            },
    {
        match err {
            FileSystemErrors::CreateDirectory(e) => Errors::IO(e),
            FileSystemErrors::CreateFile(e) => Errors::IO(e),
            FileSystemErrors::RenameError(e) => Errors::IO(e),
            FileSystemErrors::RemoveError(e) => Errors::IO(e),
        }
    }
}

} // verus!
