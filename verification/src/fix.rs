//! RustFix: the self-healing pipeline (capture exception context, diagnose,
//! propose a diff, apply it through hot reload on approval). It holds no
//! state yet.
use vstd::prelude::*;

verus! {

/// The self-healing pipeline.
#[derive(Debug, Default)]
pub struct FixPipeline;

} // verus!
