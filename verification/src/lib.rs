pub mod change;
pub mod codec;
pub mod diff;
pub mod digle;
pub mod error;
pub mod patch;
pub mod storage;

pub use change::{Change, Changes, NodeId};
pub use diff::{diff, lines, LineDiff};
pub use digle::Digle;
pub use error::Error;
pub use patch::{Patch, PatchHeader, PatchId, UnidentifiedPatch};
pub use storage::Storage;
