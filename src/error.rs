use vstd::prelude::*;

verus! {

/// Everything that can stop a schedule from being built or computed.
#[derive(Debug, PartialEq, Eq)]
pub enum ScheduleError {
    /// The input holds no record at all.
    EmptyInput,
    /// A record has fewer than three fields, or its duration is not a
    /// decimal number that fits in 16 bits.
    InvalidRecord,
    /// Two records declare the same identifier.
    DuplicateTask(String),
    /// A record waits on an identifier that no record declares.
    MissingDependency(String),
    /// Every task waits on some other task.
    NoRootTask,
    /// Every task is waited on by some other task.
    NoLeafTask,
    /// Some tasks wait on each other in a loop; the named task is one of them.
    CircularDependency(String),
}

} // verus!
