use vstd::prelude::*;
use crate::bundler::{Bundler, Files};
use crate::hash::{DirMapping, joined, same_strings, sha256_of};
use crate::plugins::StaticId;
use vstd::string::StringSliceAdditionalSpecFns;

verus! {

/// Configuration of an inclusion action.
pub struct Config {
    mapping: DirMapping,
}

impl Config {
    pub closed spec fn spec_mapping(&self) -> DirMapping {
        self.mapping
    }

    /// The action from `from_rel_dir` to `to_rel_dir`, identified by the SHA-256 digest of
    /// the bytes of all the parts of both, in order.
    pub fn new(from_rel_dir: &[&str], to_rel_dir: &[&str]) -> (r: Config)
        ensures
            r.spec_mapping().spec_action_hash() == sha256_of(
                joined(from_rel_dir@) + joined(to_rel_dir@),
            ),
            r.spec_mapping().spec_action_hash().len() == 32,
            same_strings(r.spec_mapping().spec_from_rel_dir(), from_rel_dir@),
            same_strings(r.spec_mapping().spec_to_rel_dir(), to_rel_dir@),
    {
        Config { mapping: DirMapping::new(from_rel_dir, to_rel_dir) }
    }

    /// The bytes that identify the action.
    pub fn config_hash(&self) -> (r: &[u8])
        ensures
            r@ == self.spec_mapping().spec_action_hash(),
    {
        self.mapping.config_hash()
    }

    /// Identifier of the action type that uses this configuration.
    pub fn type_id(&self) -> (r: &'static str)
        ensures
            r == PLUGIN_ID,
    {
        PLUGIN_ID
    }

    pub fn mapping(&self) -> (r: &DirMapping)
        ensures
            *r == self.spec_mapping(),
    {
        &self.mapping
    }
}

/// Identifier of the plugin.
pub const PLUGIN_ID: &'static str = "inclusion";

/// The inclusion action.
struct Action;

impl Action {
    fn new() -> (r: Action) {
        Action
    }
}

impl StaticId for Action {
    open spec fn spec_static_id(&self) -> &'static str {
        PLUGIN_ID
    }

    fn static_id(&self) -> (r: &'static str) {
        PLUGIN_ID
    }
}

impl Files for Action {
}

/// Registers this plugin with `bundler`.
pub fn init(bundler: &mut Bundler)
    requires
        old(bundler).wf(),
    ensures
        final(bundler).wf(),
        final(bundler).file_plugin_ids() == old(bundler).file_plugin_ids().insert(
            PLUGIN_ID.spec_bytes(),
        ),
        final(bundler).spec_crate_path() == old(bundler).spec_crate_path(),
{
    bundler.insert_files_plugin(Action::new());
}

} // verus!
