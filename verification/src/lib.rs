pub mod calendar;
pub mod cli;
pub mod naming;
pub mod planner;
pub mod remote;
pub mod retention;
pub mod snapshot;
pub mod text;

pub use cli::{App, SendCommand, SnapCommand, Subcommand};
pub use planner::{PlanError, SendPlan, SendStep};
pub use remote::{InventoryError, Remote, Transport};
pub use retention::{RotationSpec, SpecError};
pub use snapshot::{PruningPlan, Snapshot};
