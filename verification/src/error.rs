//! The errors the watchdog reports.

use vstd::prelude::*;

verus! {

/// Why a memory limit expression cannot be used as a threshold.
#[derive(Clone, Copy, Debug, PartialEq, Eq, Structural)]
pub enum InvalidThreshold {
    /// The text in front of the `%` is not a finite decimal number.
    MalformedPercentage,
    /// The percentage is 100 or more: such a limit could never be exceeded.
    PercentageTooLarge,
    /// The text is not a byte size.
    MalformedSize,
}

/// Why a monitoring loop gave up.
#[derive(Clone, Copy, Debug, PartialEq, Eq, Structural)]
pub enum Fatal {
    /// The process table could not be sampled.
    SamplerUnavailable,
    /// The liveness ping did not reach the service manager.
    NotificationFailed,
}

/// A fatal error of the watchdog, carried as the text shown to the operator.
#[derive(Debug)]
pub struct ProcessReaperError {
    text: String,
}

impl View for ProcessReaperError {
    type V = Seq<char>;

    /// The text the error was made with.
    closed spec fn view(&self) -> Seq<char> {
        self.text@
    }
}

impl ProcessReaperError {
    /// An error with the given text.
    pub fn new(text: &str) -> (error: ProcessReaperError)
        ensures
            error@ == text@,
    {
        ProcessReaperError { text: text.to_owned() }
    }

    /// The text the error was made with.
    pub fn text(&self) -> (text: &str)
        ensures
            text@ == self@,
    {
        self.text.as_str()
    }

    /// The line shown to the operator: the text behind `Error: `.
    pub fn message(&self) -> (line: String)
        ensures
            line@ == "Error: "@ + self@,
    {
        let mut line = String::from_str("Error: ");
        line.append(self.text.as_str());
        line
    }
}

impl InvalidThreshold {
    /// The text that explains the refusal.
    pub open spec fn reason(self) -> Seq<char> {
        match self {
            InvalidThreshold::MalformedPercentage => "Memory percentage is not a number"@,
            InvalidThreshold::PercentageTooLarge => "Memory percentage >= 100%"@,
            InvalidThreshold::MalformedSize => "Memory limit is not a byte size"@,
        }
    }

    /// The refusal as a fatal error of the watchdog.
    pub fn to_error(self) -> (error: ProcessReaperError)
        ensures
            error@ == self.reason(),
    {
        match self {
            InvalidThreshold::MalformedPercentage => ProcessReaperError::new(
                "Memory percentage is not a number",
            ),
            InvalidThreshold::PercentageTooLarge => ProcessReaperError::new(
                "Memory percentage >= 100%",
            ),
            InvalidThreshold::MalformedSize => ProcessReaperError::new(
                "Memory limit is not a byte size",
            ),
        }
    }
}

impl Fatal {
    /// The text that explains why the loop gave up.
    pub open spec fn reason(self) -> Seq<char> {
        match self {
            Fatal::SamplerUnavailable => "Failed to sample the process table"@,
            Fatal::NotificationFailed => "Failed to pet systemd watchdog"@,
        }
    }

    /// The cause as a fatal error of the watchdog.
    pub fn to_error(self) -> (error: ProcessReaperError)
        ensures
            error@ == self.reason(),
    {
        match self {
            Fatal::SamplerUnavailable => ProcessReaperError::new(
                "Failed to sample the process table",
            ),
            Fatal::NotificationFailed => ProcessReaperError::new("Failed to pet systemd watchdog"),
        }
    }
}

} // verus!
