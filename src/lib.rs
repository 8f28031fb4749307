//! Execution contexts for chained, stateless compute functions: the codecs
//! that shrink them, their wire format, the binding of delivered data to the
//! leaf scans of a plan, and the plan for deploying a query's function graph.
use vstd::prelude::*;

pub mod context;
pub mod encoding;
pub mod envelope;
pub mod launch;
pub mod naming;
pub mod plan;
pub mod wire;

verus! {

} // verus!
