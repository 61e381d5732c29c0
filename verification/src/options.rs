//! The command surface of the tool, as plain data: which command runs,
//! with which arguments. The command line is parsed outside the library
//! and handed in as these values.

use vstd::prelude::*;

verus! {

/// Options common to every command: where the settings store lives, when
/// the default location is not wanted.
pub struct CommonOptions {
    pub db: Option<String>,
}

/// The arguments of a transfer: source device identifier, target device
/// identifier, and whether to only preview the result.
pub struct TransferAssignments {
    pub from: String,
    pub to: String,
    pub dry_run: bool,
}

/// One invocation runs one of these commands.
pub enum Command {
    ShowSettings,
    ListDevices,
    EditSettings,
    TransferAssignments(TransferAssignments),
}

/// Everything one invocation was asked to do.
pub struct Options {
    pub common: CommonOptions,
    pub command: Command,
}

} // verus!
