//! The label that marks pull requests of this tool.
use vstd::prelude::*;

verus! {

/// The label name.
pub const LABEL: &'static str = "apix-action";

/// The label colour.
pub const LABEL_COLOR: &'static str = "0366d6";

/// What to do after looking the label up in a repository.
#[derive(Debug, Clone, Copy, PartialEq, Eq)]
pub enum LabelAction {
    /// The label exists.
    Keep,
    /// The label is missing and is created.
    Create,
    /// The lookup failed otherwise; the run stops with its error.
    Fail,
}

/// Decide from a label lookup: found, or failed with a GitHub status code (`None` when the
/// failure did not come from GitHub). Only a 404 means the label is missing.
pub fn after_label_lookup(found: bool, status: Option<u16>) -> (r: LabelAction)
    ensures
        found ==> r == LabelAction::Keep,
        !found ==> (r == LabelAction::Create <==> status == Some(404u16)),
        !found ==> (r == LabelAction::Fail <==> status != Some(404u16)),
{
    if found {
        LabelAction::Keep
    } else {
        match status {
            Some(code) => if code == 404 {
                LabelAction::Create
            } else {
                LabelAction::Fail
            },
            None => LabelAction::Fail,
        }
    }
}

} // verus!
