use vstd::prelude::*;
use crate::hash::{DirMapping, joined, same_strings, sha256_of};

verus! {

/// Configuration of a copy action.
pub struct CopyConfig {
    mapping: DirMapping,
}

impl CopyConfig {
    pub closed spec fn spec_mapping(&self) -> DirMapping {
        self.mapping
    }

    /// The action from `from_rel_dir` to `to_rel_dir`, identified by the SHA-256 digest of
    /// the bytes of all the parts of both, in order.
    pub fn new(from_rel_dir: &[&str], to_rel_dir: &[&str]) -> (r: CopyConfig)
        ensures
            r.spec_mapping().spec_action_hash() == sha256_of(
                joined(from_rel_dir@) + joined(to_rel_dir@),
            ),
            r.spec_mapping().spec_action_hash().len() == 32,
            same_strings(r.spec_mapping().spec_from_rel_dir(), from_rel_dir@),
            same_strings(r.spec_mapping().spec_to_rel_dir(), to_rel_dir@),
    {
        CopyConfig { mapping: DirMapping::new(from_rel_dir, to_rel_dir) }
    }

    /// The bytes that identify the action.
    pub fn config_hash(&self) -> (r: &[u8])
        ensures
            r@ == self.spec_mapping().spec_action_hash(),
    {
        self.mapping.config_hash()
    }

    /// Identifier of the action type that uses this configuration.
    pub fn type_id(&self) -> (r: &'static str)
        ensures
            r == COPY_ID,
    {
        COPY_ID
    }

    pub fn mapping(&self) -> (r: &DirMapping)
        ensures
            *r == self.spec_mapping(),
    {
        &self.mapping
    }
}

/// Identifier of the copy action.
pub const COPY_ID: &'static str = "copy";

/// The copy action.
pub struct Copy;

impl Copy {
    pub fn new() -> (r: Copy) {
        Copy
    }
}

} // verus!
