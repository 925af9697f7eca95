//! Kinds of interactive question a template may ask.
use vstd::prelude::*;

verus! {

/// A question asked when a template is used.
pub enum Prompt {
    Text {},
    Select {},
}

} // verus!
