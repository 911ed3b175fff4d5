use vstd::prelude::*;
use vstd::string::StringSliceAdditionalSpecFns;
use crate::error::Error;

verus! {

/// Whether two strings hold the same bytes.
pub fn same_key(a: &str, b: &str) -> (r: bool)
    ensures
        r == (a.spec_bytes() == b.spec_bytes()),
{
    let x = a.as_bytes();
    let y = b.as_bytes();
    if x.len() != y.len() {
        return false;
    }
    let mut i: usize = 0;
    while i < x.len()
        invariant
            x@ == a.spec_bytes(),
            y@ == b.spec_bytes(),
            x@.len() == y@.len(),
            i <= x@.len(),
            forall|k: int| 0 <= k < i ==> x@[k] == y@[k],
        decreases x@.len() - i,
    {
        if x[i] != y[i] {
            return false;
        }
        i = i + 1;
    }
    assert(x@ =~= y@);
    true
}

/// Values of type `T` registered under string identifiers, at most one per identifier.
/// `plugin_type` names the kind of value held, for error reports.
pub struct Registry<T> {
    plugin_type: &'static str,
    entries: Vec<(&'static str, T)>,
    map: Ghost<Map<Seq<u8>, T>>,
}

impl<T> Registry<T> {
    /// Each identifier, as bytes, with its value.
    pub closed spec fn view(&self) -> Map<Seq<u8>, T> {
        self.map@
    }

    pub closed spec fn spec_plugin_type(&self) -> &'static str {
        self.plugin_type
    }

    /// The registered identifiers, as bytes.
    pub closed spec fn ids(&self) -> Set<Seq<u8>> {
        self.map@.dom()
    }

    pub closed spec fn wf(&self) -> bool {
        &&& forall|i: int|
            0 <= i < self.entries@.len() ==> {
                &&& self.map@.contains_key((#[trigger] self.entries@[i]).0.spec_bytes())
                &&& self.map@[self.entries@[i].0.spec_bytes()] == self.entries@[i].1
            }
        &&& forall|i: int, j: int|
            0 <= i < self.entries@.len() && 0 <= j < self.entries@.len() && (
            #[trigger] self.entries@[i]).0.spec_bytes() == (#[trigger] self.entries@[j]).0.spec_bytes()
                ==> i == j
        &&& forall|k: Seq<u8>| #[trigger]
            self.map@.contains_key(k) ==> exists|i: int|
                0 <= i < self.entries@.len() && (#[trigger] self.entries@[i]).0.spec_bytes() == k
    }

    pub fn new(plugin_type: &'static str) -> (r: Registry<T>)
        ensures
            r.wf(),
            r.view() == Map::<Seq<u8>, T>::empty(),
            r.ids() == Set::<Seq<u8>>::empty(),
            r.spec_plugin_type() == plugin_type,
    {
        let r = Registry { plugin_type, entries: Vec::new(), map: Ghost(Map::empty()) };
        assert(r.map@.dom() =~= Set::<Seq<u8>>::empty());
        r
    }

    /// Position of the entry for `id`, if there is one.
    fn position(&self, id: &str) -> (r: Option<usize>)
        requires
            self.wf(),
        ensures
            match r {
                Some(i) => i < self.entries@.len() && self.entries@[i as int].0.spec_bytes()
                    == id.spec_bytes(),
                None => !self.view().contains_key(id.spec_bytes()),
            },
    {
        let mut i: usize = 0;
        while i < self.entries.len()
            invariant
                self.wf(),
                i <= self.entries@.len(),
                forall|k: int|
                    0 <= k < i ==> (#[trigger] self.entries@[k]).0.spec_bytes() != id.spec_bytes(),
            decreases self.entries@.len() - i,
        {
            if same_key(self.entries[i].0, id) {
                return Some(i);
            }
            i = i + 1;
        }
        None
    }

    /// Registers `value` under `id`, replacing what was registered under it before.
    pub fn insert(&mut self, id: &'static str, value: T)
        requires
            old(self).wf(),
        ensures
            final(self).wf(),
            final(self).view() == old(self).view().insert(id.spec_bytes(), value),
            final(self).view().contains_key(id.spec_bytes()),
            final(self).view()[id.spec_bytes()] == value,
            forall|k: Seq<u8>|
                k != id.spec_bytes() ==> #[trigger] final(self).view().contains_key(k)
                    == old(self).view().contains_key(k),
            forall|k: Seq<u8>|
                k != id.spec_bytes() && old(self).view().contains_key(k)
                    ==> #[trigger] final(self).view()[k] == old(self).view()[k],
            final(self).ids() == old(self).ids().insert(id.spec_bytes()),
            final(self).spec_plugin_type() == old(self).spec_plugin_type(),
    {
        let ghost key = id.spec_bytes();
        let ghost v = value;
        let at = match self.position(id) {
            Some(i) => {
                self.entries.set(i, (id, value));
                i
            },
            None => {
                self.entries.push((id, value));
                self.entries.len() - 1
            },
        };
        self.map = Ghost(self.map@.insert(key, v));
        assert(self.map@.dom() =~= old(self).map@.dom().insert(key));
        assert(self.entries@[at as int].0.spec_bytes() == key);
        assert forall|k: Seq<u8>| #[trigger] self.map@.contains_key(k) implies exists|i: int|
            0 <= i < self.entries@.len() && (#[trigger] self.entries@[i]).0.spec_bytes() == k by {
            if k != key {
                let i = choose|i: int|
                    0 <= i < old(self).entries@.len() && (#[trigger] old(self).entries@[i]).0.spec_bytes() == k;
                assert(self.entries@[i] == old(self).entries@[i]);
            }
        }
    }

    /// The value registered under `id`, or `PluginNotInitialized` naming the kind of value
    /// and `id` when there is none.
    pub fn get(&self, id: &str) -> (r: Result<&T, Error>)
        requires
            self.wf(),
        ensures
            match r {
                Ok(v) => self.view().contains_key(id.spec_bytes()) && *v == self.view()[id.spec_bytes()],
                Err(Error::PluginNotInitialized { plugin_type, plugin_id }) => {
                    &&& !self.view().contains_key(id.spec_bytes())
                    &&& plugin_type == self.spec_plugin_type()
                    &&& plugin_id@ == id@
                },
            },
    {
        match self.position(id) {
            Some(i) => Ok(&self.entries[i].1),
            None => Err(Error::PluginNotInitialized { plugin_type: self.plugin_type, plugin_id: id.to_owned() }),
        }
    }
}

} // verus!
