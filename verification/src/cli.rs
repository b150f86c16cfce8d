//! What the command line asks for.

use vstd::prelude::*;

verus! {

/// What a run of the program does.
#[derive(Clone, Copy, Debug, PartialEq, Eq, Structural)]
pub enum Command {
    PrintVersion,
    HintMode,
    GridMode,
    NormalMode,
    GenerateConfig,
    /// No flag was given: nothing happens.
    Nothing,
}

/// What the flags ask for. Of several, the first in this order counts.
pub fn command(version: bool, hint: bool, grid: bool, normal: bool, generate_config: bool) -> (c:
    Command)
    ensures
        c == (if version {
            Command::PrintVersion
        } else if hint {
            Command::HintMode
        } else if grid {
            Command::GridMode
        } else if normal {
            Command::NormalMode
        } else if generate_config {
            Command::GenerateConfig
        } else {
            Command::Nothing
        }),
{
    if version {
        Command::PrintVersion
    } else if hint {
        Command::HintMode
    } else if grid {
        Command::GridMode
    } else if normal {
        Command::NormalMode
    } else if generate_config {
        Command::GenerateConfig
    } else {
        Command::Nothing
    }
}

/// The optional features that the program has, for the version line.
pub fn runtime_features_string(opencv: bool) -> (s: &'static str)
    ensures
        s@ == (if opencv {
            "opencv"@
        } else {
            "none"@
        }),
{
    if opencv {
        "opencv"
    } else {
        "none"
    }
}

} // verus!
