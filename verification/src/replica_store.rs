//! A replica's side of the quorum protocol: the name its store is found under, which
//! of the stores found is asked, and what a sweep of its blobs does.
use vstd::prelude::*;
use vstd::string::*;

use crate::blobs::BlobId;
use crate::error::CallError;
use crate::error::NodeId;
use crate::grain::GrainName;
use crate::memory::key_of;
use crate::memory::MemoryGrainStore;
use crate::memory::StoreModel;
use crate::ordmap::OrdSet;
use crate::text::joined;

verus! {

/// The key that a grain type's replica stores register under.
pub open spec fn replica_key(grain_type: Seq<char>) -> Seq<char> {
    "granary.replica/"@ + grain_type
}

/// The key that a grain type's replica stores register under.
pub fn replica_store_key_id(grain_type: &str) -> (r: String)
    ensures
        r@ == replica_key(grain_type@),
{
    joined("granary.replica/", grain_type)
}

/// A grain type's replica stores are never found under its own name, which is where its
/// gateways are.
pub proof fn law_replica_keys_are_not_gateway_keys(grain_type: Seq<char>)
    ensures
        replica_key(grain_type) != grain_type,
{
    reveal_strlit("granary.replica/");
    assert(replica_key(grain_type).len() == grain_type.len() + 16);
}

/// Two grain types never share a key.
pub proof fn law_replica_keys_are_distinct(a: Seq<char>, b: Seq<char>)
    requires
        replica_key(a) == replica_key(b),
    ensures
        a == b,
{
    let n = "granary.replica/"@.len() as int;
    assert(replica_key(a).skip(n) =~= a);
    assert(replica_key(b).skip(n) =~= b);
}

/// The first of the registered stores that lives on `node`.
pub fn resolve(registered: &Vec<NodeId>, node: NodeId) -> (r: Option<usize>)
    ensures
        match r {
            Some(i) => {
                &&& i < registered@.len()
                &&& registered@[i as int] == node
                &&& forall|j: int| 0 <= j < i ==> registered@[j] != node
            },
            None => !registered@.contains(node),
        },
{
    let mut i: usize = 0;
    while i < registered.len()
        invariant
            i <= registered@.len(),
            forall|j: int| 0 <= j < i ==> registered@[j] != node,
        decreases registered@.len() - i,
    {
        if registered[i] == node {
            return Some(i);
        }
        i = i + 1;
    }
    None
}

/// The store to ask on a node: one that is not registered cannot be reached.
pub fn reach(registered: &Vec<NodeId>, node: NodeId) -> (r: Result<usize, CallError>)
    ensures
        match r {
            Ok(i) => {
                &&& i < registered@.len()
                &&& registered@[i as int] == node
                &&& forall|j: int| 0 <= j < i ==> registered@[j] != node
            },
            Err(e) => !registered@.contains(node) && e == CallError::Unreachable,
        },
{
    match resolve(registered, node) {
        Some(i) => Ok(i),
        None => Err(CallError::Unreachable),
    }
}

/// Reclaim a grain's blobs: all of them, or those that are not retained.
pub fn sweep_blobs(
    store: &mut MemoryGrainStore,
    shard: u32,
    grain: &GrainName,
    retain: Option<&OrdSet<BlobId>>,
)
    requires
        old(store).wf(),
        retain matches Some(ids) ==> ids.wf(),
    ensures
        final(store).wf(),
        ({
            let k = key_of(shard, grain);
            final(store)@ == (StoreModel {
                blobs: match retain {
                    None => old(store)@.blobs.remove(k),
                    Some(ids) => if old(store)@.blobs.contains_key(k) {
                        old(store)@.blobs.insert(k, old(store)@.blobs[k].restrict(ids@))
                    } else {
                        old(store)@.blobs
                    },
                },
                ..old(store)@
            })
        }),
{
    match retain {
        None => store.delete_blobs(shard, grain),
        Some(ids) => store.retain_blobs(shard, grain, ids),
    }
}

} // verus!
