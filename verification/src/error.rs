//! The closed taxonomy of failures. Every error is fatal to a run; each
//! carries enough context (a path or a variable name) to act on.

use vstd::prelude::*;

verus! {

/// Every way a run can fail, mutually exclusive. The string payloads carry
/// the offending path or variable name.
#[derive(Debug, PartialEq)]
pub enum Error {
    CreateDirectoryFailed(String),
    CreateFileFailed(String),
    CurrentDirectoryNotFound,
    InputIsNotUtf8,
    InputIsNotValidJson,
    NoArguments,
    ReadDirectoryFailed(String),
    ReadFileFailed(String),
    TemplateDirNameIsNotUtf8(String),
    TemplateFileNameIsNotUtf8(String),
    TemplateIsNotDirectory,
    TemplateNotFound,
    VariableContainsPathSeparator(String, String),
    VariableNotFound(String),
    WriteFileFailed(String),
}

} // verus!
