//! What the command line selects.

use vstd::prelude::*;

verus! {

/// The diagnostic output format.
#[derive(Copy, Clone, Hash, Debug, PartialEq, Eq, PartialOrd, Ord, Structural)]
pub enum OutputFormat {
    /// Diagnostics in full, with the source context they point at.
    Full,
    /// Diagnostics one to a line.
    Concise,
}

impl OutputFormat {
    /// The name under which the format is selected.
    pub fn name(&self) -> (r: &'static str)
        ensures
            r@ == (match *self {
                OutputFormat::Full => "full"@,
                OutputFormat::Concise => "concise"@,
            }),
    {
        match self {
            OutputFormat::Full => "full",
            OutputFormat::Concise => "concise",
        }
    }
}

impl Default for OutputFormat {
    fn default() -> (r: OutputFormat)
        ensures
            r == OutputFormat::Full,
    {
        OutputFormat::Full
    }
}

} // verus!
