use vstd::prelude::*;

pub mod apix_action;
pub mod args;
pub mod installation;
pub mod labels;
pub mod local_refs;
pub mod order;
pub mod prs;
pub mod scan;
pub mod shared;
pub mod sync;
pub mod sync_entry;
pub mod text;

verus! {

} // verus!
