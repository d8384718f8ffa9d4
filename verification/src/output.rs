//! The formats in which a finished schedule can be written out.

use vstd::prelude::*;

verus! {

/// How a schedule is written out.
#[derive(Debug, Clone, Copy, PartialEq, Eq, Structural, Hash)]
pub enum OutputFormat {
    /// Nothing is written.
    Silent,
    /// One indented line for each slot.
    Human,
    /// A JSON array of slots.
    Json,
    /// Comma-separated values under a header line.
    Csv,
}

impl Default for OutputFormat {
    fn default() -> (format: Self)
        ensures
            format == OutputFormat::Human,
    {
        OutputFormat::Human
    }
}

impl OutputFormat {
    /// The name by which the format is chosen.
    pub open spec fn label(&self) -> Seq<char> {
        match self {
            OutputFormat::Silent => "none"@,
            OutputFormat::Human => "human"@,
            OutputFormat::Json => "json"@,
            OutputFormat::Csv => "csv"@,
        }
    }

    /// The name by which the format is chosen.
    pub fn name(&self) -> (s: &'static str)
        ensures
            s@ == self.label(),
    {
        match self {
            OutputFormat::Silent => "none",
            OutputFormat::Human => "human",
            OutputFormat::Json => "json",
            OutputFormat::Csv => "csv",
        }
    }
}

} // verus!
