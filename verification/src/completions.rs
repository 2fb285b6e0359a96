//! The shells that `vat completions` writes scripts for.
use vstd::prelude::*;

verus! {

/// A shell that completion scripts are generated for. Deliberately a closed
/// list: exactly bash, zsh and fish.
#[derive(Debug, Clone, Copy, PartialEq, Eq, Structural)]
pub enum SupportedShell {
    Bash,
    Zsh,
    Fish,
}

impl SupportedShell {
    /// The shell's name as typed on the command line.
    pub fn name(&self) -> (r: &'static str)
        ensures
            r@ == match self {
                SupportedShell::Bash => "bash"@,
                SupportedShell::Zsh => "zsh"@,
                SupportedShell::Fish => "fish"@,
            },
    {
        match self {
            SupportedShell::Bash => "bash",
            SupportedShell::Zsh => "zsh",
            SupportedShell::Fish => "fish",
        }
    }
}

} // verus!
