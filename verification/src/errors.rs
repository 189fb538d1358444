use vstd::prelude::*;

verus! {

/// Every failure the tracker reports. Each invocation performs one logical
/// mutation, so all of these are terminal for the current run.
#[derive(Clone, Copy, Debug, PartialEq, Eq, Structural)]
pub enum TaskError {
    /// The first command token is not one of `add`, `edit`, `list`, `delete`, `mark`.
    InvalidCommand,
    /// A required positional argument is absent.
    MissingArgument,
    /// An id argument is not parseable as a 32-bit integer.
    MalformedInteger,
    /// A status token is not one of `todo`, `progress`, `done`, `all`.
    InvalidStatus,
    /// `all` was given where a single concrete status is required.
    StatusNotAllowed,
    /// No task with the requested id exists; the store is left unchanged.
    TaskNotFound,
    /// Reading or writing the task file failed (reported by the caller that did the I/O).
    FileIOError,
    /// The task file does not hold a well-formed task document.
    JsonParseError,
}

/// The text `TaskError::message` returns for each variant.
pub open spec fn spec_message(e: TaskError) -> Seq<char> {
    match e {
        TaskError::InvalidCommand => "got an incorrect command"@,
        TaskError::MissingArgument => "a required argument is missing"@,
        TaskError::MalformedInteger => "failed to parse an integer id"@,
        TaskError::InvalidStatus => "failed to parse a status"@,
        TaskError::StatusNotAllowed => "this status is not allowed here"@,
        TaskError::TaskNotFound => "no task with that id exists"@,
        TaskError::FileIOError => "failed to read or write the task file"@,
        TaskError::JsonParseError => "failed to parse the task file"@,
    }
}

impl TaskError {
    /// A short human-readable description of the error.
    pub fn message(&self) -> (r: &'static str)
        ensures
            r@ == spec_message(*self),
    {
        match self {
            TaskError::InvalidCommand => "got an incorrect command",
            TaskError::MissingArgument => "a required argument is missing",
            TaskError::MalformedInteger => "failed to parse an integer id",
            TaskError::InvalidStatus => "failed to parse a status",
            TaskError::StatusNotAllowed => "this status is not allowed here",
            TaskError::TaskNotFound => "no task with that id exists",
            TaskError::FileIOError => "failed to read or write the task file",
            TaskError::JsonParseError => "failed to parse the task file",
        }
    }
}

} // verus!
