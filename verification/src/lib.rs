//! A matcher engine for test assertions: it checks an actual value against
//! an expected condition and renders a precise explanation when the check
//! fails.
//!
//! The core pieces are the minimum-cost edit-alignment engine in
//! [`edit_distance`], which diffs two sequences under a pluggable distance
//! metric, and the sequence matcher [`elements_are_matcher::ElementsAre`],
//! which checks an actual sequence element by element against a list of
//! per-position matchers. The crate root adds the support traits test code
//! uses on its outcomes: [`GoogleTestSupport`] to log or annotate a failed
//! assertion, and [`IntoTestResult`] to map foreign error types to a test
//! failure.

use std::io::Write;
use vstd::prelude::*;

use crate::text::{append_str, chars_to_vec, string_from_chars};

pub mod cost;
pub mod description;
pub mod edit_distance;
pub mod elements_are_matcher;
pub mod eq_matcher;
pub mod matcher;
pub mod text;
pub mod zipped_iterator;

verus! {

/// The data of a fatal assertion failure: the rendered description of the
/// failed assertion and an optional custom message added by the test.
#[derive(Debug, Clone)]
pub struct TestAssertionFailure {
    /// The description of the failed assertion.
    pub description: String,
    /// The message set by [`GoogleTestSupport::failure_message`] or
    /// [`GoogleTestSupport::with_failure_message`], if any.
    pub custom_message: Option<String>,
}

impl TestAssertionFailure {
    /// A failure holding `description` and no custom message.
    pub fn create(description: String) -> (t: Self)
        ensures
            t.description@ == description@,
            t.custom_message is None,
    {
        TestAssertionFailure { description, custom_message: None }
    }

    /// The failure report: the description, then the custom message on
    /// its own line when one was set.
    pub open spec fn render_spec(&self) -> Seq<char> {
        match self.custom_message {
            Some(m) => self.description@ + seq!['\n'] + m@,
            None => self.description@,
        }
    }

    /// Render the failure report.
    pub fn render(&self) -> (s: String)
        ensures
            s@ == self.render_spec(),
    {
        match &self.custom_message {
            Some(m) => {
                let mut v: Vec<char> = chars_to_vec(self.description.as_str());
                v.push('\n');
                append_str(&mut v, m.as_str());
                proof {
                    assert(v@ =~= self.render_spec());
                }
                string_from_chars(&v)
            },
            None => self.description.clone(),
        }
    }

    /// Write the failure report to standard output.
    pub fn log(&self) {
        let s = self.render();
        write_stdout_line(s.as_str());
    }
}

/// Write one line to standard output.
///
/// Relies on `std::io::Stdout::write_fmt`, through `writeln`: the text
/// leaves the process, and nothing is claimed about the outcome.
#[verifier::external_body]
fn write_stdout_line(s: &str) {
    let _ = writeln!(std::io::stdout(), "{}", s);
}

/// Support methods on a test outcome whose `Err` variant is a
/// [`TestAssertionFailure`].
pub trait GoogleTestSupport: Sized {
    /// The failure carried, if any.
    spec fn spec_failure(&self) -> Option<TestAssertionFailure>;

    /// Whether `r` is `self` with its failure's custom message set to `m`
    /// (and `self` unchanged when it carries no failure).
    spec fn is_with_message(&self, r: &Self, m: Seq<char>) -> bool;

    /// If `self` carries a failure, write its report to standard output.
    /// Otherwise, do nothing.
    fn and_log_failure(self);

    /// Add `message` to the logged failure message, if `self` carries a
    /// failure. Only the message from the last call is kept.
    fn failure_message(self, message: String) -> (r: Self)
        ensures
            self.is_with_message(&r, message@),
    ;

    /// Add the message `provider` produces, if `self` carries a failure;
    /// `provider` runs only in that case.
    fn with_failure_message<F: FnOnce() -> String>(self, provider: F) -> (r: Self)
        requires
            call_requires(provider, ()),
        ensures
            self.spec_failure() is None ==> r == self,
            self.spec_failure() is Some ==> exists|m: String|
                #[trigger] call_ensures(provider, (), m) && self.is_with_message(&r, m@),
    ;
}

impl<T> GoogleTestSupport for Result<T, TestAssertionFailure> {
    open spec fn spec_failure(&self) -> Option<TestAssertionFailure> {
        match *self {
            Ok(_) => None,
            Err(f) => Some(f),
        }
    }

    open spec fn is_with_message(&self, r: &Self, m: Seq<char>) -> bool {
        match *self {
            Ok(_) => *r == *self,
            Err(f) => match *r {
                Ok(_) => false,
                Err(g) => {
                    &&& g.description == f.description
                    &&& match g.custom_message {
                        Some(mm) => mm@ == m,
                        None => false,
                    }
                },
            },
        }
    }

    fn and_log_failure(self) {
        match self {
            Ok(_) => {},
            Err(failure) => failure.log(),
        }
    }

    fn failure_message(self, message: String) -> (r: Self) {
        match self {
            Ok(v) => Ok(v),
            Err(mut failure) => {
                failure.custom_message = Some(message);
                Err(failure)
            },
        }
    }

    fn with_failure_message<F: FnOnce() -> String>(self, provider: F) -> (r: Self) {
        match self {
            Ok(v) => Ok(v),
            Err(mut failure) => {
                let message = provider();
                failure.custom_message = Some(message);
                Err(failure)
            },
        }
    }
}

/// Converting an arbitrary outcome into a test `Result`.
///
/// A type implements this to let a test return immediately with `?` even
/// when its error type is foreign to the assertion machinery.
pub trait IntoTestResult<T>: Sized {
    /// Whether this outcome counts as success.
    spec fn test_success(&self) -> bool;

    /// The value carried on success.
    spec fn test_value(self) -> T;

    /// Convert into a test `Result`: the success value under `Ok`, any
    /// failure mapped to a [`TestAssertionFailure`].
    fn into_test_result(self) -> (r: Result<T, TestAssertionFailure>)
        ensures
            r is Ok <==> self.test_success(),
            r is Ok ==> r->Ok_0 == self.test_value(),
    ;
}

/// Declares anyhow's error type, so that values of it can pass through
/// signatures. The type stays opaque.
#[verifier::external_type_specification]
#[verifier::external_body]
pub struct ExAnyhowError(anyhow::Error);

/// The error's rendered message.
///
/// Relies on `anyhow::Error`'s `Display` implementation; nothing is
/// claimed about the text.
#[verifier::external_body]
fn anyhow_error_text(e: &anyhow::Error) -> String {
    format!("{}", e)
}

impl<T> IntoTestResult<T> for Result<T, anyhow::Error> {
    open spec fn test_success(&self) -> bool {
        *self is Ok
    }

    open spec fn test_value(self) -> T {
        self->Ok_0
    }

    fn into_test_result(self) -> (r: Result<T, TestAssertionFailure>) {
        match self {
            Ok(v) => Ok(v),
            Err(e) => Err(TestAssertionFailure::create(anyhow_error_text(&e))),
        }
    }
}

} // verus!
