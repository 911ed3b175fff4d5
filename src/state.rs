use vstd::prelude::*;
use std::path::{Path, PathBuf};
use crate::error::Error;

verus! {

#[verifier::external_type_specification]
#[verifier::external_body]
pub struct ExPathBuf(PathBuf);

#[verifier::external_type_specification]
#[verifier::external_body]
pub struct ExPath(Path);

/// Current state of the output of one action.
pub struct ActionState {
    pub source_crate: String,
    pub action_type_id: String,
    pub serialized_config: Vec<u8>,
}

/// Where the output goes.
pub struct OutputConfig {
    pub target_dir: Option<PathBuf>,
}

/// Current state of the whole output.
pub struct BundleState {
    pub output_config: Option<OutputConfig>,
    pub actions: Vec<ActionState>,
}

impl BundleState {
    /// A state with no output configured and no actions; the directory is not read.
    pub fn new(path: &Path) -> (r: Result<BundleState, Error>)
        ensures
            r matches Ok(s) && s.output_config.is_none() && s.actions@.len() == 0,
    {
        Ok(BundleState { output_config: None, actions: Vec::new() })
    }

    /// Sets the output configuration.
    pub fn configure_output(&mut self, output_config: OutputConfig) -> (r: Result<(), Error>)
        ensures
            r is Ok,
            final(self).output_config == Some(output_config),
            final(self).actions == old(self).actions,
    {
        self.output_config = Some(output_config);
        Ok(())
    }
}

} // verus!
