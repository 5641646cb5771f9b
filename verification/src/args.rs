//! The options of a run: what to read, and how to write the result.

use vstd::prelude::*;

verus! {

/// The format in which records are written.
#[derive(Debug, Clone, Copy, PartialEq, Eq, Structural)]
pub enum OutputFormat {
    /// A JSON array of objects.
    Json,
    /// A YAML mapping per record.
    Yaml,
    /// The language itself.
    Non,
}

impl OutputFormat {
    /// The name of the format, as it is given on the command line.
    pub open spec fn name(self) -> Seq<char> {
        match self {
            OutputFormat::Json => "json"@,
            OutputFormat::Yaml => "yaml"@,
            OutputFormat::Non => "non"@,
        }
    }

    /// The name of the format, as it is given on the command line.
    pub fn to_string(&self) -> (s: String)
        ensures
            s@ == self.name(),
    {
        match self {
            OutputFormat::Json => "json".to_owned(),
            OutputFormat::Yaml => "yaml".to_owned(),
            OutputFormat::Non => "non".to_owned(),
        }
    }
}

impl Default for OutputFormat {
    /// The language itself.
    fn default() -> (format: Self)
        ensures
            format == OutputFormat::Non,
    {
        OutputFormat::Non
    }
}

/// The options of a run.
#[derive(Debug)]
pub struct Args {
    /// The path of the source file.
    pub path: String,
    /// The format of the output.
    pub format: OutputFormat,
    /// The path of the output file; standard output where there is none.
    pub output: Option<String>,
    /// Whether records are written resolved, without parents or references.
    pub flat: bool,
}

} // verus!
