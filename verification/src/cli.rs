use vstd::prelude::*;

verus! {

/// Creates and prunes snapshots on one volume.
pub struct SnapCommand {
    /// Volume locator: `host:dataset` or a bare dataset path.
    pub location: String,
    /// Rotation spec string, digit groups closed by `m w d h f`.
    pub keep: String,
}

/// Replicates snapshots from one volume to another.
pub struct SendCommand {
    /// Job name embedded in the replication checkpoints.
    pub name: String,
    /// Origin volume locator.
    pub from: String,
    /// Destination volume locator.
    pub to: String,
    /// Rotation spec applied on the destination.
    pub keep: String,
}

pub enum Subcommand {
    Snap(SnapCommand),
    Send(SendCommand),
}

/// The tool's invocation: one of the two operations.
pub struct App {
    pub subcmd: Subcommand,
}

} // verus!
