//! The command-line input accepted by the tool and its validation rules.

use vstd::prelude::*;

verus! {

/// What the tool is invoked with: a datetime format, an optional user name
/// for the report, and a file pattern naming the logs to read. The
/// surrounding application parses the command line into this shape.
pub struct Cli {
    /// Datetime string format, e.g. `"%d/%m/%y %H:%M:%S"`.
    pub datetime_str_format: String,
    /// Shown in the report when given.
    pub user: Option<String>,
    /// File pattern naming the log files to read, e.g. `"./*.log"`.
    pub file_pattern: String,
}

/// Accepts the input exactly when both the file pattern and the datetime
/// format are non-empty; the error names the first field found empty, the
/// file pattern being checked first.
pub fn validate_input(input: &Cli) -> (r: Result<bool, &str>)
    ensures
        match r {
            Ok(b) => b && input.file_pattern@.len() > 0 && input.datetime_str_format@.len() > 0,
            Err(m) => {
                &&& (input.file_pattern@.len() == 0 || input.datetime_str_format@.len() == 0)
                &&& if input.file_pattern@.len() == 0 {
                    m@ == "No file pattern given, give a valid file pattern"@
                } else {
                    m@ == "Empty datetime string format given, give a valid datetime format"@
                }
            },
        },
{
    if input.file_pattern.as_str().is_empty() {
        return Err("No file pattern given, give a valid file pattern");
    }
    if input.datetime_str_format.as_str().is_empty() {
        return Err("Empty datetime string format given, give a valid datetime format");
    }
    Ok(true)
}

} // verus!
