//! mote: filesystem triage.
use vstd::prelude::*;

pub mod apply;
pub mod archive;
pub mod dedupe;
pub mod ident;
pub mod index;
pub mod order;
pub mod path;
pub mod plan;
pub mod route;
pub mod rules;
pub mod text;
pub mod walk;

verus! {
}
