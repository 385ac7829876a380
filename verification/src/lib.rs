//! Conversation labelling for the `/resume` index: the text rules, the
//! evidence ladder, batching and refresh decisions, with their contracts.
use vstd::prelude::*;

pub mod chars;
pub mod text;
pub mod refresh;
pub mod partial;
pub mod evidence;
pub mod jobs;
pub mod resilient;
pub mod graph;
pub mod hooks;
pub mod install;
pub mod runtime;

pub use install::{InstallRoot, INSTALLATION_FILE};

verus! {

} // verus!
