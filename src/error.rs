use vstd::prelude::*;

verus! {

/// Errors of the bundler's registries and state.
#[derive(Debug)]
pub enum Error {
    /// No plugin of kind `plugin_type` is registered under `plugin_id`.
    PluginNotInitialized { plugin_type: &'static str, plugin_id: String },
}

} // verus!
