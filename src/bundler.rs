use vstd::prelude::*;
use vstd::string::StringSliceAdditionalSpecFns;
use std::path::PathBuf;
use crate::plugins::{Plugins, StaticId};

verus! {

/// A plugin that lists files for the bundler.
pub trait Files {
}

/// Collects assets of a crate with the help of registered plugins.
pub struct Bundler {
    crate_path: PathBuf,
    files: Plugins<Box<dyn Files>>,
}

impl Bundler {
    pub closed spec fn wf(&self) -> bool {
        self.files.wf()
    }

    /// Identifiers of the registered file plugins, as bytes.
    pub closed spec fn file_plugin_ids(&self) -> Set<Seq<u8>> {
        self.files.ids()
    }

    /// The registered file plugins, by identifier as bytes.
    pub closed spec fn file_plugins(&self) -> Map<Seq<u8>, Box<dyn Files>> {
        self.files.view()
    }

    /// The crate whose assets are collected.
    pub closed spec fn spec_crate_path(&self) -> PathBuf {
        self.crate_path
    }

    /// A bundler for the crate at `crate_path`, with no plugins yet.
    pub fn new(crate_path: PathBuf) -> (r: Bundler)
        ensures
            r.wf(),
            r.spec_crate_path() == crate_path,
            r.file_plugin_ids() == Set::<Seq<u8>>::empty(),
    {
        Bundler { crate_path, files: Plugins::new("files") }
    }

    /// Registers `action` as a file plugin under its own identifier, replacing the plugin
    /// registered under that identifier before.
    pub fn insert_files_plugin<T: StaticId + Files + 'static>(&mut self, action: T)
        requires
            old(self).wf(),
        ensures
            final(self).wf(),
            final(self).file_plugin_ids() == old(self).file_plugin_ids().insert(
                action.spec_static_id().spec_bytes(),
            ),
            final(self).spec_crate_path() == old(self).spec_crate_path(),
            forall|k: Seq<u8>|
                k != action.spec_static_id().spec_bytes() ==> #[trigger] final(self).file_plugins().contains_key(k)
                    == old(self).file_plugins().contains_key(k),
            forall|k: Seq<u8>|
                k != action.spec_static_id().spec_bytes() && old(self).file_plugins().contains_key(k)
                    ==> #[trigger] final(self).file_plugins()[k] == old(self).file_plugins()[k],
            final(self).file_plugins().contains_key(action.spec_static_id().spec_bytes()),
    {
        let id = action.static_id();
        let boxed: Box<dyn Files> = Box::new(action);
        self.files.insert(id, boxed);
        assert(self.file_plugin_ids() == old(self).file_plugin_ids().insert(id.spec_bytes()));
        assert forall|k: Seq<u8>|
            k != action.spec_static_id().spec_bytes() implies #[trigger] self.file_plugins().contains_key(k)
            == old(self).file_plugins().contains_key(k) by {
            assert(self.files.view().contains_key(k) == old(self).files.view().contains_key(k));
        }
        assert forall|k: Seq<u8>|
            k != action.spec_static_id().spec_bytes() && old(self).file_plugins().contains_key(k)
                implies #[trigger] self.file_plugins()[k] == old(self).file_plugins()[k] by {
            assert(self.files.view()[k] == old(self).files.view()[k]);
        }
    }
}

} // verus!
