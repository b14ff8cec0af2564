//! The outcome of one test execution.

use vstd::prelude::*;

verus! {

/// Represents the result of a test.
#[derive(Debug, Clone)]
pub enum TestResult {
    /// The test passed.
    Success,
    /// An assertion did not hold.
    Failure { type_: String, message: String },
    /// The test was not run.
    Skipped { message: String },
    /// The test could not run to a verdict.
    Error { type_: String, message: String },
}

impl TestResult {
    /// The message carried by the result, when there is one.
    pub open spec fn message_view(self) -> Option<Seq<char>> {
        match self {
            TestResult::Success => None,
            TestResult::Failure { message, .. } => Some(message@),
            TestResult::Skipped { message } => Some(message@),
            TestResult::Error { message, .. } => Some(message@),
        }
    }

    /// Creates a successful test result.
    pub fn success() -> (r: TestResult)
        ensures
            r is Success,
    {
        TestResult::Success
    }

    /// Creates a failed test result.
    pub fn failure(message: &str) -> (r: TestResult)
        ensures
            r matches TestResult::Failure { type_, message: m } && type_@ == "assertion"@ && m@
                == message@,
    {
        TestResult::Failure { type_: "assertion".to_owned(), message: message.to_owned() }
    }

    /// Creates an unexpected-error test result.
    pub fn error(message: &str) -> (r: TestResult)
        ensures
            r matches TestResult::Error { type_, message: m } && type_@ == "error"@ && m@
                == message@,
    {
        TestResult::Error { type_: "error".to_owned(), message: message.to_owned() }
    }

    /// Creates a skipped test result.
    pub fn skipped(message: &str) -> (r: TestResult)
        ensures
            r matches TestResult::Skipped { message: m } && m@ == message@,
    {
        TestResult::Skipped { message: message.to_owned() }
    }

    /// Extracts the message from the test result.
    pub fn message(&self) -> (r: Option<&String>)
        ensures
            match r {
                Some(m) => self.message_view() == Some(m@),
                None => self.message_view() is None,
            },
    {
        match self {
            TestResult::Success => None,
            TestResult::Failure { message, .. } => Some(message),
            TestResult::Skipped { message } => Some(message),
            TestResult::Error { message, .. } => Some(message),
        }
    }
}

impl PartialEq for TestResult {
    /// Results are equal when their shapes and texts agree.
    fn eq(&self, other: &TestResult) -> (r: bool) {
        match (self, other) {
            (TestResult::Success, TestResult::Success) => true,
            (
                TestResult::Failure { type_: a, message: b },
                TestResult::Failure { type_: c, message: d },
            ) => *a == *c && *b == *d,
            (TestResult::Skipped { message: b }, TestResult::Skipped { message: d }) => *b == *d,
            (
                TestResult::Error { type_: a, message: b },
                TestResult::Error { type_: c, message: d },
            ) => *a == *c && *b == *d,
            _ => false,
        }
    }
}

impl vstd::std_specs::cmp::PartialEqSpecImpl for TestResult {
    open spec fn obeys_eq_spec() -> bool {
        true
    }

    open spec fn eq_spec(&self, other: &TestResult) -> bool {
        match (self, other) {
            (TestResult::Success, TestResult::Success) => true,
            (
                TestResult::Failure { type_: a, message: b },
                TestResult::Failure { type_: c, message: d },
            ) => a@ == c@ && b@ == d@,
            (TestResult::Skipped { message: b }, TestResult::Skipped { message: d }) => b@ == d@,
            (
                TestResult::Error { type_: a, message: b },
                TestResult::Error { type_: c, message: d },
            ) => a@ == c@ && b@ == d@,
            _ => false,
        }
    }
}

} // verus!
