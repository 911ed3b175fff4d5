use vstd::prelude::*;
use vstd::string::StringSliceAdditionalSpecFns;

verus! {

/// The SHA-256 digest of `data`.
pub uninterp spec fn sha256_of(data: Seq<u8>) -> Seq<u8>;

/// Relies on `crypto_hash::digest` with `Algorithm::SHA256`: the SHA-256 digest of `data`,
/// which is 256 bits long.
#[verifier::external_body]
fn sha256(data: &[u8]) -> (r: Vec<u8>)
    ensures
        r@ == sha256_of(data@),
        r@.len() == 32,
{
    crypto_hash::digest(crypto_hash::Algorithm::SHA256, data)
}

/// The bytes of `parts`, one after another.
pub open spec fn joined(parts: Seq<&str>) -> Seq<u8>
    decreases parts.len(),
{
    if parts.len() == 0 {
        Seq::empty()
    } else {
        joined(parts.drop_last()) + parts.last().spec_bytes()
    }
}

/// `owned` holds the same strings as `parts`, in the same order.
pub open spec fn same_strings(owned: Seq<String>, parts: Seq<&str>) -> bool {
    &&& owned.len() == parts.len()
    &&& forall|i: int| 0 <= i < parts.len() ==> (#[trigger] owned[i])@ == parts[i]@
}

fn append_parts(out: &mut Vec<u8>, parts: &[&str])
    ensures
        final(out)@ == old(out)@ + joined(parts@),
{
    let ghost start = old(out)@;
    let mut i: usize = 0;
    while i < parts.len()
        invariant
            i <= parts@.len(),
            out@ == start + joined(parts@.subrange(0, i as int)),
        decreases parts@.len() - i,
    {
        let part: &str = parts[i];
        out.extend_from_slice(part.as_bytes());
        assert(parts@.subrange(0, i + 1).drop_last() =~= parts@.subrange(0, i as int));
        assert(out@ =~= start + joined(parts@.subrange(0, i + 1)));
        i = i + 1;
    }
    assert(parts@.subrange(0, parts@.len() as int) =~= parts@);
}

fn to_strings(parts: &[&str]) -> (r: Vec<String>)
    ensures
        same_strings(r@, parts@),
{
    let mut r: Vec<String> = Vec::new();
    let mut i: usize = 0;
    while i < parts.len()
        invariant
            i <= parts@.len(),
            r@.len() == i,
            forall|k: int| 0 <= k < i ==> (#[trigger] r@[k])@ == parts@[k]@,
        decreases parts@.len() - i,
    {
        let part: &str = parts[i];
        r.push(part.to_owned());
        i = i + 1;
    }
    r
}

/// A copy or inclusion action between two directories, given as path parts relative to the
/// crate, with the digest that identifies the action.
pub struct DirMapping {
    from_rel_dir: Vec<String>,
    to_rel_dir: Vec<String>,
    action_hash: Vec<u8>,
}

impl DirMapping {
    pub closed spec fn spec_from_rel_dir(&self) -> Seq<String> {
        self.from_rel_dir@
    }

    pub closed spec fn spec_to_rel_dir(&self) -> Seq<String> {
        self.to_rel_dir@
    }

    pub closed spec fn spec_action_hash(&self) -> Seq<u8> {
        self.action_hash@
    }

    /// The mapping from `from_rel_dir` to `to_rel_dir`; its digest is the SHA-256 digest of
    /// the bytes of all the parts of both, in order.
    pub fn new(from_rel_dir: &[&str], to_rel_dir: &[&str]) -> (r: DirMapping)
        ensures
            r.spec_action_hash() == sha256_of(joined(from_rel_dir@) + joined(to_rel_dir@)),
            r.spec_action_hash().len() == 32,
            same_strings(r.spec_from_rel_dir(), from_rel_dir@),
            same_strings(r.spec_to_rel_dir(), to_rel_dir@),
    {
        let mut data: Vec<u8> = Vec::new();
        append_parts(&mut data, from_rel_dir);
        append_parts(&mut data, to_rel_dir);
        let action_hash = sha256(data.as_slice());
        DirMapping {
            from_rel_dir: to_strings(from_rel_dir),
            to_rel_dir: to_strings(to_rel_dir),
            action_hash,
        }
    }

    /// The bytes that identify the action.
    pub fn config_hash(&self) -> (r: &[u8])
        ensures
            r@ == self.spec_action_hash(),
    {
        self.action_hash.as_slice()
    }

    pub fn from_rel_dir(&self) -> (r: &Vec<String>)
        ensures
            r@ == self.spec_from_rel_dir(),
    {
        &self.from_rel_dir
    }

    pub fn to_rel_dir(&self) -> (r: &Vec<String>)
        ensures
            r@ == self.spec_to_rel_dir(),
    {
        &self.to_rel_dir
    }
}

} // verus!
