use vstd::prelude::*;
use crate::geometry::Aabb;
use crate::item::Item;
use crate::traversal::{DebugItem, debug_record_ok};
use crate::tree::{Octree, descends_from, lists_exactly, listed, live, removal};

verus! {

/// One mutation of a tree: `update(id, bb)` or `remove(id)`.
pub enum Edit {
    Update(u64, Aabb),
    Remove(u64),
}

/// The content after one edit, as the contracts of `update` and `remove` give it.
pub open spec fn apply(m: Map<u64, Aabb>, e: Edit) -> Map<u64, Aabb> {
    match e {
        Edit::Update(id, bb) => m.insert(id, bb),
        Edit::Remove(id) => m.remove(id),
    }
}

/// The content after a run of edits on a new, empty tree.
pub open spec fn replay(es: Seq<Edit>) -> Map<u64, Aabb>
    decreases es.len(),
{
    if es.len() == 0 {
        Map::empty()
    } else {
        apply(replay(es.drop_last()), es.last())
    }
}

/// The box that the last edit of `id` in `es` left it with: `None` when that edit is a
/// removal or when no edit names `id`.
pub open spec fn latest(es: Seq<Edit>, id: u64) -> Option<Aabb>
    decreases es.len(),
{
    if es.len() == 0 {
        None
    } else {
        match es.last() {
            Edit::Update(x, bb) => if x == id {
                Some(bb)
            } else {
                latest(es.drop_last(), id)
            },
            Edit::Remove(x) => if x == id {
                None
            } else {
                latest(es.drop_last(), id)
            },
        }
    }
}

proof fn lemma_replay_latest(es: Seq<Edit>, id: u64)
    ensures
        replay(es).contains_key(id) == latest(es, id).is_some(),
        replay(es).contains_key(id) ==> Some(replay(es)[id]) == latest(es, id),
    decreases es.len(),
{
    if es.len() > 0 {
        lemma_replay_latest(es.drop_last(), id);
    }
}

/// After any run of edits, a listing of the whole tree (as `iterate_all` gives it) names
/// exactly the identifiers whose last edit was an update, each once, with the box of that
/// update.
pub proof fn lemma_listing_after_edits(es: Seq<Edit>, r: Seq<Item>)
    requires
        lists_exactly(r, replay(es)),
    ensures
        forall|id: u64| #[trigger] listed(r, id) == latest(es, id).is_some(),
        forall|i: int| 0 <= i < r.len() ==> latest(es, (#[trigger] r[i]).id) == Some(r[i].bb),
        forall|i: int, j: int|
            0 <= i < r.len() && 0 <= j < r.len() && (#[trigger] r[i]).id == (#[trigger] r[j]).id
                ==> i == j,
{
    assert forall|id: u64| #[trigger] listed(r, id) == latest(es, id).is_some() by {
        lemma_replay_latest(es, id);
        if listed(r, id) {
            let i = choose|i: int| 0 <= i < r.len() && (#[trigger] r[i]).id == id;
            assert(replay(es).contains_key(r[i].id));
        }
        if replay(es).contains_key(id) {
            assert(listed(r, id));
        }
    }
    assert forall|i: int| 0 <= i < r.len() implies latest(es, (#[trigger] r[i]).id) == Some(
        r[i].bb,
    ) by {
        lemma_replay_latest(es, r[i].id);
    }
}

/// Right after `update(id, bb)`, a listing of the whole tree holds `id` with `bb`.
pub proof fn lemma_update_then_listed(m: Map<u64, Aabb>, id: u64, bb: Aabb, r: Seq<Item>)
    requires
        lists_exactly(r, m.insert(id, bb)),
    ensures
        exists|i: int| 0 <= i < r.len() && r[i] == (Item { bb, id }),
{
    assert(m.insert(id, bb).contains_key(id));
    let i = choose|i: int| 0 <= i < r.len() && (#[trigger] r[i]).id == id;
    assert(r[i] == Item { bb, id });
}

/// Removing a stored identifier twice gives its item, then nothing.
pub proof fn lemma_remove_twice(m: Map<u64, Aabb>, id: u64)
    requires
        m.contains_key(id),
    ensures
        removal(m, id) == Some(Item { bb: m[id], id }),
        removal(m.remove(id), id) is None,
{
}

/// Every own item of a node other than the root lies inside the box of that node and of
/// each of its ancestors.
pub proof fn lemma_containment(t: Octree, m: int, a: int, j: int)
    requires
        t.wf(),
        0 < m < t.spec_nodes().len(),
        0 <= a < t.spec_nodes().len(),
        descends_from(t.spec_nodes(), m, a),
        0 <= j < t.spec_nodes()[m].leafs@.len(),
    ensures
        t.spec_nodes()[a].bb.spec_contains(t.spec_nodes()[m].leafs@[j].bb),
{
    t.lemma_leaf_stored(m, j);
    t.lemma_box_within_ancestor(m, a);
}

/// A tree that holds nothing, after any run of updates and removals, has a leaf for its
/// root: every branch it divided has merged back. So the diagnostic walk, whose records are
/// all items when the root is a leaf, reports nothing at all.
pub proof fn lemma_empty_tree_collapses(t: Octree, r: Seq<DebugItem>)
    requires
        t.wf(),
        t.tidy(),
        t.view() == Map::<u64, Aabb>::empty(),
        forall|i: int| 0 <= i < r.len() ==> debug_record_ok(t, #[trigger] r[i]),
        t.spec_nodes()[0].children.is_none() ==> forall|i: int| 0 <= i < r.len() ==> (#[trigger] r[i]) is Item,
    ensures
        t.spec_nodes()[0].children.is_none(),
        r.len() == 0,
{
    t.lemma_has_root();
    t.lemma_node_shape(0);
    if t.spec_nodes()[0].children.is_some() {
        assert(live(t.spec_nodes(), 0));
        t.lemma_item_below(0);
    }
    if r.len() > 0 {
        assert(r[0] is Item);
        assert(debug_record_ok(t, r[0]));
    }
}

} // verus!
