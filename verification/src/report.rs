//! The lines that a run prints.

use crate::entry::FileEntry;
use vstd::prelude::*;
use vstd::string::StringExecFns;

verus! {

/// The line that reports two files as duplicates of each other:
/// `<path A> and <path B> are the same`.
pub fn report_line(first: &FileEntry, second: &FileEntry) -> (line: String)
    ensures
        line@ == first.path@ + " and "@ + second.path@ + " are the same"@,
{
    let mut line = first.path.clone();
    line.append(" and ");
    line.append(second.path.as_str());
    line.append(" are the same");
    line
}

/// The line that warns of an entry whose size could not be read:
/// `Error in <path>: <message>`.
pub fn warning_line(path: &str, message: &str) -> (line: String)
    ensures
        line@ == "Error in "@ + path@ + ": "@ + message@,
{
    let mut line = String::from_str("Error in ");
    line.append(path);
    line.append(": ");
    line.append(message);
    line
}

} // verus!
