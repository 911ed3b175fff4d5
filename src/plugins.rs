use vstd::prelude::*;
use vstd::string::StringSliceAdditionalSpecFns;
use crate::error::Error;
use crate::registry::Registry;

verus! {

/// Plugins registered by identifier.
pub struct Plugins<T> {
    plugins: Registry<T>,
}

impl<T> Plugins<T> {
    pub closed spec fn view(&self) -> Map<Seq<u8>, T> {
        self.plugins.view()
    }

    pub closed spec fn wf(&self) -> bool {
        self.plugins.wf()
    }

    /// The registered identifiers, as bytes.
    pub closed spec fn ids(&self) -> Set<Seq<u8>> {
        self.plugins.ids()
    }

    pub closed spec fn spec_plugin_type(&self) -> &'static str {
        self.plugins.spec_plugin_type()
    }

    pub fn new(plugin_type: &'static str) -> (r: Plugins<T>)
        ensures
            r.wf(),
            r.view() == Map::<Seq<u8>, T>::empty(),
            r.ids() == Set::<Seq<u8>>::empty(),
            r.spec_plugin_type() == plugin_type,
    {
        Plugins { plugins: Registry::new(plugin_type) }
    }

    /// Registers `action` under `id`, replacing what was registered under it before.
    pub fn insert(&mut self, id: &'static str, action: T)
        requires
            old(self).wf(),
        ensures
            final(self).wf(),
            final(self).view() == old(self).view().insert(id.spec_bytes(), action),
            final(self).view().contains_key(id.spec_bytes()),
            final(self).view()[id.spec_bytes()] == action,
            forall|k: Seq<u8>|
                k != id.spec_bytes() ==> #[trigger] final(self).view().contains_key(k)
                    == old(self).view().contains_key(k),
            forall|k: Seq<u8>|
                k != id.spec_bytes() && old(self).view().contains_key(k)
                    ==> #[trigger] final(self).view()[k] == old(self).view()[k],
            final(self).ids() == old(self).ids().insert(id.spec_bytes()),
            final(self).spec_plugin_type() == old(self).spec_plugin_type(),
    {
        self.plugins.insert(id, action);
    }

    /// The plugin registered under `id`, or `PluginNotInitialized` when there is none.
    pub fn get(&self, id: &str) -> (r: Result<&T, Error>)
        requires
            self.wf(),
        ensures
            match r {
                Ok(v) => self.view().contains_key(id.spec_bytes()) && *v == self.view()[id.spec_bytes()],
                Err(Error::PluginNotInitialized { plugin_type, plugin_id }) => {
                    &&& !self.view().contains_key(id.spec_bytes())
                    &&& plugin_type == self.spec_plugin_type()
                    &&& plugin_id@ == id@
                },
            },
    {
        self.plugins.get(id)
    }
}

/// A value that names itself by a fixed identifier.
pub trait StaticId {
    /// The identifier that `static_id` gives.
    spec fn spec_static_id(&self) -> &'static str;

    fn static_id(&self) -> (r: &'static str)
        ensures
            r == self.spec_static_id(),
    ;
}

} // verus!
