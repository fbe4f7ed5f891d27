//! The results a command surface renders, and how each one turns into
//! a process exit status. The rendering itself (text, structured
//! formats) lives outside the library; only the status logic is here.

use vstd::prelude::*;
use crate::compare::{CompositeComparison, ExitStatus};
use crate::version::Version;

verus! {

/// One result of a completed operation, as handed to the rendering
/// layer.
pub enum ApplicationOutput {
    /// A two-version comparison and its encoded status.
    ComparisonStatement { comparison: CompositeComparison, status: ExitStatus },
    /// Versions in their final order.
    FlatVersionsList { versions: Vec<Version> },
    /// Generated version strings.
    FlatStringList { strings: Vec<String> },
    /// The outcome of validating one input string.
    ValidateResult { valid: bool },
    /// The outcome of testing one version against a range filter.
    FilterTestResult { matched: bool },
    /// One version, to be laid out part by part.
    VersionExplanation { version: Version },
}

/// The status an output reports: a comparison reports its encoded
/// status; a failed validation and a missed filter report `1`;
/// everything else reports success.
pub open spec fn output_status(o: ApplicationOutput) -> ExitStatus {
    match o {
        ApplicationOutput::ComparisonStatement { status, .. } => status,
        ApplicationOutput::ValidateResult { valid } => if valid {
            ExitStatus::Success
        } else {
            ExitStatus::Code(1)
        },
        ApplicationOutput::FilterTestResult { matched } => if matched {
            ExitStatus::Success
        } else {
            ExitStatus::Code(1)
        },
        _ => ExitStatus::Success,
    }
}

impl ApplicationOutput {
    /// The status this output reports.
    pub fn report(&self) -> (r: ExitStatus)
        ensures
            r == output_status(*self),
    {
        match self {
            ApplicationOutput::ComparisonStatement { status, .. } => *status,
            ApplicationOutput::ValidateResult { valid } => if *valid {
                ExitStatus::Success
            } else {
                ExitStatus::Code(1)
            },
            ApplicationOutput::FilterTestResult { matched } => if *matched {
                ExitStatus::Success
            } else {
                ExitStatus::Code(1)
            },
            _ => ExitStatus::Success,
        }
    }
}

/// An output together with the flagging that decides the process exit
/// status: a normal output reports its own status; one marked always
/// successful reports success whatever it holds.
pub enum ApplicationTermination {
    Normal(ApplicationOutput),
    AlwaysSuccessful(ApplicationOutput),
}

impl ApplicationTermination {
    /// Wrap an output; `hard_success` forces a successful exit.
    pub fn new(output: ApplicationOutput, hard_success: bool) -> (r: Self)
        ensures
            r == if hard_success {
                ApplicationTermination::AlwaysSuccessful(output)
            } else {
                ApplicationTermination::Normal(output)
            },
    {
        if hard_success {
            Self::AlwaysSuccessful(output)
        } else {
            Self::Normal(output)
        }
    }

    /// The status the process ends with.
    pub fn report(self) -> (r: ExitStatus)
        ensures
            r == match self {
                ApplicationTermination::Normal(o) => output_status(o),
                ApplicationTermination::AlwaysSuccessful(_) => ExitStatus::Success,
            },
    {
        match self {
            ApplicationTermination::Normal(o) => o.report(),
            ApplicationTermination::AlwaysSuccessful(_) => ExitStatus::Success,
        }
    }
}

} // verus!
