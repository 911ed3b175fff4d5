use vstd::prelude::*;
use crate::geometry::Aabb;
use crate::item::Item;
use crate::node::Node;
use crate::tree::{
    Octree, children_preorder, descends_from, hangs, lemma_descends_not_below,
    lemma_descends_transitive, lemma_live_descends_from_root, live, node_shape_ok, preorder,
};

verus! {

/// Depths at or below this one score zero.
pub const BAD_DEPTH: usize = 1;

/// Depths at or above this one score full marks.
pub const GOOD_DEPTH: usize = 10;

/// The diagnostic score of a depth, in ninths: depth 1 scores 0, depth 10 scores 9, the
/// depths between rise by one each, and depths outside that range are clamped into it.
pub open spec fn goodness_of(depth: int) -> int {
    if depth <= BAD_DEPTH {
        0
    } else if depth >= GOOD_DEPTH {
        (GOOD_DEPTH - BAD_DEPTH) as int
    } else {
        depth - BAD_DEPTH
    }
}

/// The score of `depth` as `goodness_of` gives it, in ninths of the full score.
pub fn calculate_goodness(depth: usize) -> (r: u8)
    ensures
        r as int == goodness_of(depth as int),
{
    let mut d = depth;
    if d < BAD_DEPTH {
        d = BAD_DEPTH;
    }
    if d > GOOD_DEPTH {
        d = GOOD_DEPTH;
    }
    (d - BAD_DEPTH) as u8
}

/// One record of the diagnostic walk: a node as the walk enters it, or a stored item.
/// `goodness` is in ninths, as `calculate_goodness` gives it.
#[derive(Clone, Copy, Debug, PartialEq, Eq)]
pub enum DebugItem {
    Node { bb: Aabb, depth: usize, goodness: u8, is_branch: bool },
    Item { item: Item, depth: usize, goodness: u8, in_branch: bool },
}

/// What holds of every record of `debug_items` on `tree`.
pub open spec fn debug_record_ok(tree: Octree, rec: DebugItem) -> bool {
    let nodes = tree.spec_nodes();
    match rec {
        DebugItem::Node { bb, depth, goodness, is_branch } => {
            &&& depth >= 2
            &&& goodness as int == goodness_of(depth as int)
            &&& exists|c: int|
                0 < c < nodes.len() && live(nodes, c) && nodes[c].bb == bb && depth == depth_of(
                    nodes,
                    c,
                ) && is_branch == (#[trigger] nodes[c].children is Some)
        },
        DebugItem::Item { item, depth, goodness, in_branch } => {
            &&& depth >= 1
            &&& goodness as int == goodness_of(depth as int)
            &&& tree.view().contains_key(item.id)
            &&& tree.view()[item.id] == item.bb
            &&& depth == depth_of(nodes, tree.holder(item.id))
            &&& in_branch == (nodes[tree.holder(item.id)].children is Some)
        },
    }
}

/// The record of item `it` held by a node at `depth`.
pub open spec fn item_record(it: Item, depth: int, in_branch: bool) -> DebugItem {
    DebugItem::Item {
        item: it,
        depth: depth as usize,
        goodness: goodness_of(depth) as u8,
        in_branch,
    }
}

/// The record that announces `node` at `depth`.
pub open spec fn node_record(node: Node, depth: int) -> DebugItem {
    DebugItem::Node {
        bb: node.bb,
        depth: depth as usize,
        goodness: goodness_of(depth) as u8,
        is_branch: node.children is Some,
    }
}

/// The records of the items `leafs` of a node at `depth`.
pub open spec fn leaf_records(leafs: Seq<Item>, depth: int, in_branch: bool) -> Seq<DebugItem> {
    leafs.map_values(|it: Item| item_record(it, depth, in_branch))
}

/// The records of the diagnostic walk from node `n` at `depth`: the records of its own items,
/// then, for each child that is not empty in octant order, the record announcing it followed
/// by the walk from it one level deeper.
pub open spec fn walk(nodes: Seq<Node>, n: int, depth: int) -> Seq<DebugItem>
    decreases nodes.len() - n, 9int,
{
    if n < 0 || n >= nodes.len() {
        Seq::empty()
    } else {
        leaf_records(nodes[n].leafs@, depth, nodes[n].children is Some) + match nodes[n].children {
            Some(b) => walk_children(nodes, n, b as int, 0, depth),
            None => Seq::empty(),
        }
    }
}

/// The walks from the children of `n` from octant `k` on, empty children skipped.
pub open spec fn walk_children(nodes: Seq<Node>, n: int, b: int, k: int, depth: int) -> Seq<
    DebugItem,
>
    decreases nodes.len() - n, 8 - k,
{
    if k < 0 || k >= 8 || b + k <= n || b + k >= nodes.len() || n < 0 {
        Seq::empty()
    } else {
        (if nodes[b + k].spec_is_empty() {
            Seq::empty()
        } else {
            seq![node_record(nodes[b + k], depth + 1)] + walk(nodes, b + k, depth + 1)
        }) + walk_children(nodes, n, b, k + 1, depth)
    }
}

/// Depth of node `m`: 1 for the root, one more for each step down.
pub open spec fn depth_of(nodes: Seq<Node>, m: int) -> int
    decreases m,
{
    if m <= 0 || m >= nodes.len() {
        1
    } else {
        match nodes[m].parent {
            Some(p) => if p < m {
                depth_of(nodes, p as int) + 1
            } else {
                1
            },
            None => 1,
        }
    }
}

/// The items that the `Item` records of `recs` show, in order.
pub open spec fn item_records(recs: Seq<DebugItem>) -> Seq<Item>
    decreases recs.len(),
{
    if recs.len() == 0 {
        Seq::empty()
    } else {
        item_records(recs.drop_last()) + match recs.last() {
            DebugItem::Item { item, .. } => seq![item],
            DebugItem::Node { .. } => Seq::empty(),
        }
    }
}

proof fn lemma_item_records_push(recs: Seq<DebugItem>, rec: DebugItem)
    ensures
        item_records(recs.push(rec)) == item_records(recs) + match rec {
            DebugItem::Item { item, .. } => seq![item],
            DebugItem::Node { .. } => Seq::<Item>::empty(),
        },
{
    assert(recs.push(rec).drop_last() =~= recs);
}

/// The identifier of the item that an `Item` record shows; `None` for a `Node` record.
pub open spec fn record_item_id(rec: DebugItem) -> Option<u64> {
    match rec {
        DebugItem::Item { item, .. } => Some(item.id),
        DebugItem::Node { .. } => None,
    }
}

/// Some `Item` record of `out` shows the item `id`.
pub open spec fn debug_listed(out: Seq<DebugItem>, id: u64) -> bool {
    exists|i: int| 0 <= i < out.len() && record_item_id(#[trigger] out[i]) == Some(id)
}

/// A hit of the ray query: the point that the hit test gave and the item hit.
#[derive(Clone, Copy, Debug)]
pub struct RayIntersection<P> {
    pub hit_point: P,
    pub hit_item: Item,
}

impl<P: Copy> RayIntersection<P> {
    /// The intersection point.
    pub fn point(&self) -> (r: P)
        ensures
            r == self.hit_point,
    {
        self.hit_point
    }

    /// The item hit.
    pub fn item(&self) -> (r: Item)
        ensures
            r == self.hit_item,
    {
        self.hit_item
    }
}

impl Octree {
    /// Every node below the root and every stored item, depth first: a node's own items come
    /// before its children, the children in octant order, and each child is announced by a
    /// `Node` record as the walk enters it. The root's items have depth 1. Each stored item
    /// appears in exactly one `Item` record.
    pub fn debug_items(&self) -> (r: Vec<DebugItem>)
        requires
            self.wf(),
        ensures
            forall|i: int| 0 <= i < r@.len() ==> debug_record_ok(*self, #[trigger] r@[i]),
            forall|i: int, k: int|
                0 <= i < r@.len() && 0 <= k < r@.len() && record_item_id(#[trigger] r@[i]) is Some
                    && record_item_id(r@[i]) == record_item_id(#[trigger] r@[k]) ==> i == k,
            forall|id: u64| #[trigger] self.view().contains_key(id) ==> debug_listed(r@, id),
            item_records(r@) == preorder(self.spec_nodes(), 0),
            r@ == walk(self.spec_nodes(), 0, 1),
            self.spec_nodes()[0].children.is_none() ==> forall|i: int|
                0 <= i < r@.len() ==> (#[trigger] r@[i]) is Item,
    {
        let mut out: Vec<DebugItem> = Vec::new();
        proof {
            self.lemma_node_shape(0);
            assert(live(self.nodes@, 0));
            assert(item_records(out@) =~= Seq::<Item>::empty());
        }
        self.debug_walk(0, 1, &mut out);
        assert(out@ =~= walk(self.nodes@, 0, 1));
        proof {
            assert forall|id: u64| #[trigger] self.view().contains_key(id) implies debug_listed(
                out@,
                id,
            ) by {
                assert(self.index@.contains_key(id));
                let q = self.index@[id] as int;
                let j = choose|j: int|
                    0 <= j < self.nodes@[q].leafs@.len() && (
                    #[trigger] self.nodes@[q].leafs@[j]).id == id;
                assert(hangs(self.nodes@, q));
                lemma_live_descends_from_root(self.nodes@, q);
                assert(debug_listed(out@, self.nodes@[q].leafs@[j].id));
            }
        }
        out
    }

    fn debug_walk(&self, n: usize, depth: usize, out: &mut Vec<DebugItem>)
        requires
            self.wf(),
            n < self.nodes@.len(),
            1 <= depth <= n + 1,
            depth == depth_of(self.nodes@, n as int),
            live(self.nodes@, n as int),
            forall|i: int| 0 <= i < old(out)@.len() ==> debug_record_ok(*self, #[trigger] old(out)@[i]),
        ensures
            item_records(final(out)@) == item_records(old(out)@) + preorder(self.nodes@, n as int),
            final(out)@ == old(out)@ + walk(self.nodes@, n as int, depth as int),
            forall|i: int|
                0 <= i < final(out)@.len() ==> debug_record_ok(*self, #[trigger] final(out)@[i]),
            final(out)@.len() >= old(out)@.len(),
            forall|i: int| 0 <= i < old(out)@.len() ==> final(out)@[i] == old(out)@[i],
            self.nodes@[n as int].children.is_none() ==> forall|i: int|
                old(out)@.len() <= i < final(out)@.len() ==> (#[trigger] final(out)@[i]) is Item,
            forall|i: int|
                old(out)@.len() <= i < final(out)@.len() && #[trigger] record_item_id(final(out)@[i]) is Some ==> {
                    &&& self.index@.contains_key(record_item_id(final(out)@[i])->0)
                    &&& descends_from(
                        self.nodes@,
                        self.index@[record_item_id(final(out)@[i])->0] as int,
                        n as int,
                    )
                },
            forall|i: int, k: int|
                old(out)@.len() <= i < final(out)@.len() && old(out)@.len() <= k < final(out)@.len()
                    && record_item_id(#[trigger] final(out)@[i]) is Some && record_item_id(final(out)@[i])
                    == record_item_id(#[trigger] final(out)@[k]) ==> i == k,
            forall|m: int, j: int|
                0 <= m < self.nodes@.len() && live(self.nodes@, m) && descends_from(
                    self.nodes@,
                    m,
                    n as int,
                ) && 0 <= j < self.nodes@[m].leafs@.len() ==> debug_listed(
                    final(out)@,
                    (#[trigger] self.nodes@[m].leafs@[j]).id,
                ),
        decreases self.nodes@.len() - n,
    {
        let ghost start = out@.len();
        let ghost nodes = self.nodes@;
        let node = &self.nodes[n];
        proof {
            assert(node_shape_ok(nodes, n as int));
            self.lemma_node_shape(n as int);
        }
        let goodness = calculate_goodness(depth);
        let mut j: usize = 0;
        while j < node.leafs.len()
            invariant
                self.wf(),
                n < nodes.len(),
                nodes == self.nodes@,
                *node == nodes[n as int],
                1 <= depth,
                goodness as int == goodness_of(depth as int),
                j <= node.leafs@.len(),
                depth == depth_of(nodes, n as int),
                item_records(out@) == item_records(old(out)@) + node.leafs@.subrange(0, j as int),
                out@ == old(out)@ + leaf_records(
                    node.leafs@.subrange(0, j as int),
                    depth as int,
                    node.children is Some,
                ),
                forall|i: int| 0 <= i < out@.len() ==> debug_record_ok(*self, #[trigger] out@[i]),
                out@.len() >= start,
                forall|i: int| 0 <= i < start ==> out@[i] == old(out)@[i],
                forall|i: int| start <= i < out@.len() ==> (#[trigger] out@[i]) is Item,
                forall|i: int|
                    start <= i < out@.len() ==> {
                        &&& #[trigger] record_item_id(out@[i]) is Some
                        &&& self.index@.contains_key(record_item_id(out@[i])->0)
                        &&& self.index@[record_item_id(out@[i])->0] == n
                        &&& exists|jj: int|
                            0 <= jj < j && node.leafs@[jj].id == record_item_id(out@[i])->0
                    },
                forall|i: int, k: int|
                    start <= i < out@.len() && start <= k < out@.len() && record_item_id(
                        #[trigger] out@[i],
                    ) is Some && record_item_id(out@[i]) == record_item_id(#[trigger] out@[k]) ==> i
                        == k,
                forall|jj: int| 0 <= jj < j ==> debug_listed(out@, (#[trigger] node.leafs@[jj]).id),
            decreases node.leafs@.len() - j,
        {
            let it = node.leafs[j];
            proof {
                self.lemma_leaf_stored(n as int, j as int);
                assert(self.leaf_ok(n as int, j as int));
                assert forall|i: int| start <= i < out@.len() implies record_item_id(out@[i]) != Some(
                    it.id,
                ) by {
                    if record_item_id(out@[i]) == Some(it.id) {
                        let jj = choose|jj: int|
                            0 <= jj < j && node.leafs@[jj].id == record_item_id(out@[i])->0;
                        assert(node.leafs@[jj].id == node.leafs@[j as int].id);
                    }
                }
            }
            let ghost before = out@;
            let rec = DebugItem::Item { item: it, depth, goodness, in_branch: node.is_branch() };
            out.push(rec);
            proof {
                lemma_item_records_push(before, rec);
                assert(rec == item_record(it, depth as int, node.children is Some));
                assert(leaf_records(node.leafs@.subrange(0, j + 1), depth as int, node.children is Some)
                    =~= leaf_records(node.leafs@.subrange(0, j as int), depth as int, node.children is Some).push(
                    rec,
                ));
                assert(node.leafs@.subrange(0, j + 1) =~= node.leafs@.subrange(0, j as int).push(it));
                assert(item_records(out@) =~= item_records(old(out)@) + node.leafs@.subrange(0, j + 1));
                assert(self.holder(it.id) == n);
                assert(record_item_id(out@[before.len() as int]) == Some(it.id));
                assert forall|jj: int| 0 <= jj < j + 1 implies debug_listed(
                    out@,
                    (#[trigger] node.leafs@[jj]).id,
                ) by {
                    if jj == j {
                        assert(record_item_id(out@[before.len() as int]) == Some(node.leafs@[jj].id));
                    } else {
                        let i = choose|i: int|
                            0 <= i < before.len() && record_item_id(#[trigger] before[i]) == Some(
                                node.leafs@[jj].id,
                            );
                        assert(out@[i] == before[i]);
                    }
                }
                assert forall|i: int| start <= i < out@.len() implies {
                    &&& #[trigger] record_item_id(out@[i]) is Some
                    &&& self.index@.contains_key(record_item_id(out@[i])->0)
                    &&& self.index@[record_item_id(out@[i])->0] == n
                    &&& exists|jj: int|
                        0 <= jj < j + 1 && node.leafs@[jj].id == record_item_id(out@[i])->0
                } by {
                    if i < before.len() {
                        assert(out@[i] == before[i]);
                    } else {
                        assert(node.leafs@[j as int].id == record_item_id(out@[i])->0);
                    }
                }
            }
            j = j + 1;
        }
        let ghost own_end = out@.len();
        proof {
            assert(node.leafs@.subrange(0, node.leafs@.len() as int) =~= node.leafs@);
        }
        if let Some(b) = node.children {
            proof {
                assert(out@ + walk_children(nodes, n as int, b as int, 0, depth as int) =~= old(out)@
                    + walk(nodes, n as int, depth as int));
                assert(self.nodes.len() == self.nodes@.len());
                assert(item_records(out@) + children_preorder(nodes, n as int, b as int, 0) =~= item_records(
                    old(out)@,
                ) + preorder(nodes, n as int));
            }
            let child_goodness = calculate_goodness(depth + 1);
            let mut k: usize = 0;
            while k < 8
                invariant
                    self.wf(),
                    nodes == self.nodes@,
                    n < b,
                    b + 8 <= nodes.len() <= usize::MAX,
                    nodes[n as int].children == Some(b),
                    1 <= depth <= n + 1,
                    child_goodness as int == goodness_of(depth + 1),
                    k <= 8,
                    depth == depth_of(nodes, n as int),
                    live(nodes, n as int),
                    item_records(out@) + children_preorder(nodes, n as int, b as int, k as int)
                        == item_records(old(out)@) + preorder(nodes, n as int),
                    out@ + walk_children(nodes, n as int, b as int, k as int, depth as int) == old(out)@
                        + walk(nodes, n as int, depth as int),
                    start <= own_end <= out@.len(),
                    forall|i: int|
                        0 <= i < out@.len() ==> debug_record_ok(*self, #[trigger] out@[i]),
                    forall|i: int| 0 <= i < start ==> out@[i] == old(out)@[i],
                    forall|i: int|
                        start <= i < out@.len() && #[trigger] record_item_id(out@[i]) is Some ==> {
                            &&& self.index@.contains_key(record_item_id(out@[i])->0)
                            &&& descends_from(nodes, self.index@[record_item_id(out@[i])->0] as int, n as int)
                            &&& (i < own_end <==> self.index@[record_item_id(out@[i])->0] == n)
                            &&& (i >= own_end ==> exists|kk: int|
                                0 <= kk < k && #[trigger] descends_from(
                                    nodes,
                                    self.index@[record_item_id(out@[i])->0] as int,
                                    b + kk,
                                ))
                        },
                    forall|i: int| start <= i < own_end ==> (#[trigger] record_item_id(out@[i])) is Some,
                    forall|i: int, q: int|
                        start <= i < out@.len() && start <= q < out@.len() && record_item_id(
                            #[trigger] out@[i],
                        ) is Some && record_item_id(out@[i]) == record_item_id(#[trigger] out@[q])
                            ==> i == q,
                    forall|jj: int|
                        0 <= jj < nodes[n as int].leafs@.len() ==> debug_listed(
                            out@,
                            (#[trigger] nodes[n as int].leafs@[jj]).id,
                        ),
                    forall|m: int, jj: int|
                        0 <= m < nodes.len() && live(nodes, m) && (exists|kk: int|
                            0 <= kk < k && #[trigger] descends_from(nodes, m, b + kk)) && 0 <= jj
                            < nodes[m].leafs@.len() ==> debug_listed(
                            out@,
                            (#[trigger] nodes[m].leafs@[jj]).id,
                        ),
                decreases 8 - k,
            {
                proof {
                    assert(node_shape_ok(self.nodes@, n as int));
                    assert(self.nodes@[b + k as int].parent == Some(n));
                    assert(descends_from(nodes, n as int, n as int));
                    assert(descends_from(nodes, b + k as int, n as int));
                }
                let child = &self.nodes[b + k];
                if child.is_empty() {
                    proof {
                        let c = b + k as int;
                        assert(nodes[c] == *child);
                        assert(preorder(nodes, c) =~= Seq::<Item>::empty());
                        assert(children_preorder(nodes, n as int, b as int, k as int) == preorder(nodes, c)
                            + children_preorder(nodes, n as int, b as int, k + 1));
                        assert(item_records(out@) + children_preorder(nodes, n as int, b as int, k + 1)
                            =~= item_records(old(out)@) + preorder(nodes, n as int));
                        assert(walk_children(nodes, n as int, b as int, k as int, depth as int)
                            =~= walk_children(nodes, n as int, b as int, k + 1, depth as int));
                        assert forall|m: int, jj: int|
                            0 <= m < nodes.len() && live(nodes, m) && (exists|kk: int|
                                0 <= kk < k + 1 && #[trigger] descends_from(nodes, m, b + kk)) && 0 <= jj
                                < nodes[m].leafs@.len() implies debug_listed(
                            out@,
                            (#[trigger] nodes[m].leafs@[jj]).id,
                        ) by {
                            if descends_from(nodes, m, c) {
                                lemma_descends_not_below(nodes, m, c);
                                if m != c {
                                    let kk = self.lemma_descendant_in_child(m, c);
                                }
                            }
                        }
                    }
                    k = k + 1;
                    continue;
                }
                let ghost pre_push = out@;
                proof {
                    assert(live(nodes, b + k as int));
                    assert(depth_of(nodes, b + k as int) == depth + 1);
                }
                let rec = DebugItem::Node {
                    bb: child.bb,
                    depth: depth + 1,
                    goodness: child_goodness,
                    is_branch: child.is_branch(),
                };
                out.push(rec);
                let ghost before = out@;
                proof {
                    lemma_item_records_push(pre_push, rec);
                    assert(before == pre_push.push(rec));
                    assert(debug_record_ok(*self, rec)) by {
                        let c = b + k as int;
                        assert(nodes[c] == *child);
                    }
                }
                self.debug_walk(b + k, depth + 1, out);
                proof {
                    assert(children_preorder(nodes, n as int, b as int, k as int) == preorder(
                        nodes,
                        b + k as int,
                    ) + children_preorder(nodes, n as int, b as int, k + 1));
                    assert(item_records(out@) + children_preorder(nodes, n as int, b as int, k + 1)
                        =~= item_records(old(out)@) + preorder(nodes, n as int));
                    assert(rec == node_record(nodes[b + k as int], depth + 1));
                    assert(walk_children(nodes, n as int, b as int, k as int, depth as int) == seq![
                        node_record(nodes[b + k as int], depth + 1),
                    ] + walk(nodes, b + k as int, depth + 1) + walk_children(
                        nodes,
                        n as int,
                        b as int,
                        k + 1,
                        depth as int,
                    ));
                    assert(out@ + walk_children(nodes, n as int, b as int, k + 1, depth as int) =~= old(out)@
                        + walk(nodes, n as int, depth as int));
                    assert forall|i: int|
                        start <= i < out@.len() && #[trigger] record_item_id(out@[i]) is Some implies {
                        &&& self.index@.contains_key(record_item_id(out@[i])->0)
                        &&& descends_from(nodes, self.index@[record_item_id(out@[i])->0] as int, n as int)
                        &&& (i < own_end <==> self.index@[record_item_id(out@[i])->0] == n)
                        &&& (i >= own_end ==> exists|kk: int|
                            0 <= kk < k + 1 && #[trigger] descends_from(
                                nodes,
                                self.index@[record_item_id(out@[i])->0] as int,
                                b + kk,
                            ))
                    } by {
                        if i < before.len() {
                            assert(out@[i] == before[i]);
                        } else {
                            let q = self.index@[record_item_id(out@[i])->0] as int;
                            assert(descends_from(nodes, q, b + k as int));
                            lemma_descends_not_below(nodes, q, b + k as int);
                            lemma_descends_transitive(nodes, q, b + k as int, n as int);
                        }
                    }
                    assert forall|i: int| start <= i < own_end implies (#[trigger] record_item_id(out@[i])) is Some by {
                        assert(out@[i] == before[i]);
                    }
                    assert forall|i: int, q: int|
                        start <= i < out@.len() && start <= q < out@.len() && record_item_id(
                            #[trigger] out@[i],
                        ) is Some && record_item_id(out@[i]) == record_item_id(#[trigger] out@[q])
                            implies i == q by {
                        if i < before.len() && q >= before.len() {
                            let x = self.index@[record_item_id(out@[q])->0] as int;
                            assert(out@[i] == before[i]);
                            lemma_descends_not_below(nodes, x, b + k as int);
                            if i >= own_end {
                                let kk = choose|kk: int|
                                    0 <= kk < k && #[trigger] descends_from(nodes, x, b + kk);
                                self.lemma_siblings_apart(n as int, kk, k as int, x);
                            }
                        } else if q < before.len() && i >= before.len() {
                            let x = self.index@[record_item_id(out@[i])->0] as int;
                            assert(out@[q] == before[q]);
                            lemma_descends_not_below(nodes, x, b + k as int);
                            if q >= own_end {
                                let kk = choose|kk: int|
                                    0 <= kk < k && #[trigger] descends_from(nodes, x, b + kk);
                                self.lemma_siblings_apart(n as int, kk, k as int, x);
                            }
                        } else if i < before.len() && q < before.len() {
                            assert(out@[i] == before[i]);
                            assert(out@[q] == before[q]);
                        }
                    }
                    assert forall|jj: int| 0 <= jj < nodes[n as int].leafs@.len() implies debug_listed(
                        out@,
                        (#[trigger] nodes[n as int].leafs@[jj]).id,
                    ) by {
                        let i = choose|i: int|
                            0 <= i < pre_push.len() && record_item_id(#[trigger] pre_push[i]) == Some(
                                nodes[n as int].leafs@[jj].id,
                            );
                        assert(before[i] == pre_push[i]);
                        assert(out@[i] == before[i]);
                    }
                    assert forall|m: int, jj: int|
                        0 <= m < nodes.len() && live(nodes, m) && (exists|kk: int|
                            0 <= kk < k + 1 && #[trigger] descends_from(nodes, m, b + kk)) && 0 <= jj
                            < nodes[m].leafs@.len() implies debug_listed(
                        out@,
                        (#[trigger] nodes[m].leafs@[jj]).id,
                    ) by {
                        if !descends_from(nodes, m, b + k as int) {
                            let i = choose|i: int|
                                0 <= i < pre_push.len() && record_item_id(#[trigger] pre_push[i])
                                    == Some(nodes[m].leafs@[jj].id);
                            assert(before[i] == pre_push[i]);
                            assert(out@[i] == before[i]);
                        }
                    }
                }
                k = k + 1;
            }
            proof {
                assert(children_preorder(nodes, n as int, b as int, 8) =~= Seq::<Item>::empty());
                assert(item_records(out@) =~= item_records(old(out)@) + preorder(nodes, n as int));
                assert(walk_children(nodes, n as int, b as int, 8, depth as int) =~= Seq::<DebugItem>::empty());
                assert(out@ =~= old(out)@ + walk(nodes, n as int, depth as int));
                assert forall|m: int, jj: int|
                    0 <= m < nodes.len() && live(nodes, m) && descends_from(nodes, m, n as int) && 0
                        <= jj < nodes[m].leafs@.len() implies debug_listed(
                    out@,
                    (#[trigger] nodes[m].leafs@[jj]).id,
                ) by {
                    if m != n {
                        lemma_descends_not_below(nodes, m, n as int);
                        let kk = self.lemma_descendant_in_child(m, n as int);
                        assert(descends_from(nodes, m, b + kk));
                    }
                }
            }
        } else {
            proof {
                assert(item_records(out@) =~= item_records(old(out)@) + preorder(nodes, n as int));
                assert(out@ =~= old(out)@ + walk(nodes, n as int, depth as int));
                assert forall|m: int, jj: int|
                    0 <= m < nodes.len() && live(nodes, m) && descends_from(nodes, m, n as int) && 0
                        <= jj < nodes[m].leafs@.len() implies debug_listed(
                    out@,
                    (#[trigger] nodes[m].leafs@[jj]).id,
                ) by {
                    if m != n {
                        lemma_descends_not_below(nodes, m, n as int);
                        let kk = self.lemma_descendant_in_child(m, n as int);
                    }
                }
            }
        }
    }

    /// Every stored item whose box the hit test accepts, each once, with the point it gave,
    /// depth first. The root's own items are always tested; any other node is entered only
    /// when it is not empty and the hit test accepts its box. So when the test is decided by
    /// a predicate that every box around a hit box also meets (as a ray meets every box
    /// around a box it meets), no hit item is missed.
    pub fn ray_intersections<P: Copy, F: Fn(&Aabb) -> Option<P>>(&self, hit: &F) -> (r: Vec<
        RayIntersection<P>,
    >)
        requires
            self.wf(),
            forall|b: &Aabb| #[trigger] hit.requires((b,)),
        ensures
            forall|i: int|
                0 <= i < r@.len() ==> {
                    &&& self.view().contains_key((#[trigger] r@[i]).hit_item.id)
                    &&& self.view()[r@[i].hit_item.id] == r@[i].hit_item.bb
                    &&& hit.ensures((&r@[i].hit_item.bb,), Some(r@[i].hit_point))
                },
            forall|i: int, k: int|
                0 <= i < r@.len() && 0 <= k < r@.len() && (#[trigger] r@[i]).hit_item.id == (
                #[trigger] r@[k]).hit_item.id ==> i == k,
            forall|hits: spec_fn(Aabb) -> bool|
                #[trigger] decided_by(hit, hits) ==> forall|id: u64|
                    #[trigger] self.view().contains_key(id) && hits(self.view()[id]) ==> ray_listed(
                        r@,
                        id,
                    ),
    {
        let mut out: Vec<RayIntersection<P>> = Vec::new();
        proof {
            self.lemma_node_shape(0);
        }
        self.ray_walk(0, hit, &mut out);
        proof {
            assert forall|hits: spec_fn(Aabb) -> bool|
                #[trigger] decided_by(hit, hits) implies forall|id: u64|
                #[trigger] self.view().contains_key(id) && hits(self.view()[id]) ==> ray_listed(
                    out@,
                    id,
                ) by {
                assert forall|id: u64|
                    #[trigger] self.view().contains_key(id) && hits(self.view()[id]) implies ray_listed(
                    out@,
                    id,
                ) by {
                    assert(self.index@.contains_key(id));
                    let q = self.index@[id] as int;
                    let j = choose|j: int|
                        0 <= j < self.nodes@[q].leafs@.len() && (
                        #[trigger] self.nodes@[q].leafs@[j]).id == id;
                    assert(self.leaf_ok(q, j));
                    assert(hangs(self.nodes@, q));
                    lemma_live_descends_from_root(self.nodes@, q);
                }
            }
        }
        out
    }

    fn ray_walk<P: Copy, F: Fn(&Aabb) -> Option<P>>(
        &self,
        n: usize,
        hit: &F,
        out: &mut Vec<RayIntersection<P>>,
    )
        requires
            self.wf(),
            n < self.nodes@.len(),
            forall|b: &Aabb| #[trigger] hit.requires((b,)),
        ensures
            final(out)@.len() >= old(out)@.len(),
            forall|i: int| 0 <= i < old(out)@.len() ==> final(out)@[i] == old(out)@[i],
            forall|i: int|
                old(out)@.len() <= i < final(out)@.len() ==> {
                    &&& self.index@.contains_key((#[trigger] final(out)@[i]).hit_item.id)
                    &&& descends_from(
                        self.nodes@,
                        self.index@[final(out)@[i].hit_item.id] as int,
                        n as int,
                    )
                    &&& self.items@[final(out)@[i].hit_item.id] == final(out)@[i].hit_item.bb
                    &&& hit.ensures((&final(out)@[i].hit_item.bb,), Some(final(out)@[i].hit_point))
                },
            forall|i: int, k: int|
                old(out)@.len() <= i < final(out)@.len() && old(out)@.len() <= k < final(out)@.len()
                    && (#[trigger] final(out)@[i]).hit_item.id == (#[trigger] final(out)@[k]).hit_item.id
                    ==> i == k,
            forall|hits: spec_fn(Aabb) -> bool|
                #[trigger] decided_by(hit, hits) ==> forall|m: int, j: int|
                    0 <= m < self.nodes@.len() && live(self.nodes@, m) && descends_from(
                        self.nodes@,
                        m,
                        n as int,
                    ) && 0 <= j < self.nodes@[m].leafs@.len() && hits(
                        #[trigger] self.nodes@[m].leafs@[j].bb,
                    ) ==> ray_listed(final(out)@, self.nodes@[m].leafs@[j].id),
        decreases self.nodes@.len() - n,
    {
        let ghost start = out@.len();
        let ghost nodes = self.nodes@;
        proof {
            assert(node_shape_ok(nodes, n as int));
        }
        let leafs = &self.nodes[n].leafs;
        let mut j: usize = 0;
        while j < leafs.len()
            invariant
                self.wf(),
                n < nodes.len(),
                nodes == self.nodes@,
                *leafs == nodes[n as int].leafs,
                forall|b: &Aabb| #[trigger] hit.requires((b,)),
                j <= leafs@.len(),
                out@.len() >= start,
                forall|i: int| 0 <= i < start ==> out@[i] == old(out)@[i],
                forall|i: int|
                    start <= i < out@.len() ==> {
                        &&& self.index@.contains_key((#[trigger] out@[i]).hit_item.id)
                        &&& self.index@[out@[i].hit_item.id] == n
                        &&& exists|jj: int| 0 <= jj < j && leafs@[jj].id == out@[i].hit_item.id
                        &&& self.items@[out@[i].hit_item.id] == out@[i].hit_item.bb
                        &&& hit.ensures((&out@[i].hit_item.bb,), Some(out@[i].hit_point))
                    },
                forall|i: int, k: int|
                    start <= i < out@.len() && start <= k < out@.len() && (#[trigger] out@[i]).hit_item.id
                        == (#[trigger] out@[k]).hit_item.id ==> i == k,
                forall|hits: spec_fn(Aabb) -> bool|
                    #[trigger] decided_by(hit, hits) ==> forall|jj: int|
                        0 <= jj < j && hits(#[trigger] leafs@[jj].bb) ==> ray_listed(out@, leafs@[jj].id),
            decreases leafs@.len() - j,
        {
            let leaf = leafs[j];
            proof {
                assert(self.leaf_ok(n as int, j as int));
            }
            let r = hit(&leaf.bb);
            if let Some(p) = r {
                proof {
                    assert forall|i: int| start <= i < out@.len() implies out@[i].hit_item.id != leaf.id by {
                        if out@[i].hit_item.id == leaf.id {
                            let jj = choose|jj: int| 0 <= jj < j && leafs@[jj].id == out@[i].hit_item.id;
                            assert(leafs@[jj].id == leafs@[j as int].id);
                        }
                    }
                }
                let ghost before = out@;
                out.push(RayIntersection { hit_point: p, hit_item: leaf });
                proof {
                    assert(out@[before.len() as int].hit_item == leaf);
                    assert forall|hits: spec_fn(Aabb) -> bool|
                        #[trigger] decided_by(hit, hits) implies forall|jj: int|
                        0 <= jj < j + 1 && hits(#[trigger] leafs@[jj].bb) ==> ray_listed(
                            out@,
                            leafs@[jj].id,
                        ) by {
                        assert forall|jj: int|
                            0 <= jj < j + 1 && hits(#[trigger] leafs@[jj].bb) implies ray_listed(
                            out@,
                            leafs@[jj].id,
                        ) by {
                            if jj == j {
                                assert(out@[before.len() as int].hit_item.id == leafs@[jj].id);
                            } else {
                                let i = choose|i: int|
                                    0 <= i < before.len() && (#[trigger] before[i]).hit_item.id
                                        == leafs@[jj].id;
                                assert(out@[i] == before[i]);
                            }
                        }
                    }
                    assert forall|i: int| start <= i < out@.len() implies {
                        &&& self.index@.contains_key((#[trigger] out@[i]).hit_item.id)
                        &&& self.index@[out@[i].hit_item.id] == n
                        &&& exists|jj: int| 0 <= jj < j + 1 && leafs@[jj].id == out@[i].hit_item.id
                        &&& self.items@[out@[i].hit_item.id] == out@[i].hit_item.bb
                        &&& hit.ensures((&out@[i].hit_item.bb,), Some(out@[i].hit_point))
                    } by {
                        if i < before.len() {
                            assert(out@[i] == before[i]);
                        } else {
                            assert(leafs@[j as int].id == out@[i].hit_item.id);
                        }
                    }
                }
            } else {
                proof {
                    assert forall|hits: spec_fn(Aabb) -> bool|
                        #[trigger] decided_by(hit, hits) implies forall|jj: int|
                        0 <= jj < j + 1 && hits(#[trigger] leafs@[jj].bb) ==> ray_listed(
                            out@,
                            leafs@[jj].id,
                        ) by {
                        assert(hit.ensures((&leaf.bb,), r));
                    }
                    assert forall|i: int| start <= i < out@.len() implies exists|jj: int|
                        0 <= jj < j + 1 && leafs@[jj].id == (#[trigger] out@[i]).hit_item.id by {
                        let jj = choose|jj: int| 0 <= jj < j && leafs@[jj].id == out@[i].hit_item.id;
                    }
                }
            }
            j = j + 1;
        }
        let ghost own_end = out@.len();
        if let Some(b) = self.nodes[n].children {
            proof {
                assert(self.nodes.len() == self.nodes@.len());
            }
            let mut k: usize = 0;
            while k < 8
                invariant
                    self.wf(),
                    nodes == self.nodes@,
                    n < b,
                    b + 8 <= nodes.len() <= usize::MAX,
                    nodes[n as int].children == Some(b),
                    forall|bx: &Aabb| #[trigger] hit.requires((bx,)),
                    k <= 8,
                    start <= own_end <= out@.len(),
                    forall|i: int| 0 <= i < start ==> out@[i] == old(out)@[i],
                    forall|i: int|
                        start <= i < out@.len() ==> {
                            &&& self.index@.contains_key((#[trigger] out@[i]).hit_item.id)
                            &&& descends_from(nodes, self.index@[out@[i].hit_item.id] as int, n as int)
                            &&& self.items@[out@[i].hit_item.id] == out@[i].hit_item.bb
                            &&& hit.ensures((&out@[i].hit_item.bb,), Some(out@[i].hit_point))
                            &&& (i < own_end <==> self.index@[out@[i].hit_item.id] == n)
                            &&& (i >= own_end ==> exists|kk: int|
                                0 <= kk < k && #[trigger] descends_from(
                                    nodes,
                                    self.index@[out@[i].hit_item.id] as int,
                                    b + kk,
                                ))
                        },
                    forall|i: int, q: int|
                        start <= i < out@.len() && start <= q < out@.len() && (#[trigger] out@[i]).hit_item.id
                            == (#[trigger] out@[q]).hit_item.id ==> i == q,
                    forall|hits: spec_fn(Aabb) -> bool|
                        #[trigger] decided_by(hit, hits) ==> forall|jj: int|
                            0 <= jj < nodes[n as int].leafs@.len() && hits(
                                #[trigger] nodes[n as int].leafs@[jj].bb,
                            ) ==> ray_listed(out@, nodes[n as int].leafs@[jj].id),
                    forall|hits: spec_fn(Aabb) -> bool|
                        #[trigger] decided_by(hit, hits) ==> forall|m: int, jj: int|
                            0 <= m < nodes.len() && live(nodes, m) && (exists|kk: int|
                                0 <= kk < k && #[trigger] descends_from(nodes, m, b + kk)) && 0 <= jj
                                < nodes[m].leafs@.len() && hits(#[trigger] nodes[m].leafs@[jj].bb)
                                ==> ray_listed(out@, nodes[m].leafs@[jj].id),
                decreases 8 - k,
            {
                let ghost before = out@;
                proof {
                    assert(node_shape_ok(self.nodes@, n as int));
                    assert(self.nodes@[b + k as int].parent == Some(n));
                    assert(descends_from(nodes, n as int, n as int));
                    assert(descends_from(nodes, b + k as int, n as int));
                }
                let child = &self.nodes[b + k];
                let enter = if child.is_empty() {
                    false
                } else {
                    let r = hit(&child.bb);
                    proof {
                        assert forall|hits: spec_fn(Aabb) -> bool|
                            #[trigger] decided_by(hit, hits) implies r.is_some() == hits(child.bb) by {
                            assert(hit.ensures((&child.bb,), r));
                        }
                    }
                    r.is_some()
                };
                if enter {
                    self.ray_walk(b + k, hit, out);
                }
                assert(enter ==> !child.spec_is_empty());
                proof {
                    assert forall|i: int| start <= i < out@.len() implies {
                        &&& self.index@.contains_key((#[trigger] out@[i]).hit_item.id)
                        &&& descends_from(nodes, self.index@[out@[i].hit_item.id] as int, n as int)
                        &&& self.items@[out@[i].hit_item.id] == out@[i].hit_item.bb
                        &&& hit.ensures((&out@[i].hit_item.bb,), Some(out@[i].hit_point))
                        &&& (i < own_end <==> self.index@[out@[i].hit_item.id] == n)
                        &&& (i >= own_end ==> exists|kk: int|
                            0 <= kk < k + 1 && #[trigger] descends_from(
                                nodes,
                                self.index@[out@[i].hit_item.id] as int,
                                b + kk,
                            ))
                    } by {
                        if i < before.len() {
                            assert(out@[i] == before[i]);
                        } else {
                            let q = self.index@[out@[i].hit_item.id] as int;
                            assert(descends_from(nodes, q, b + k as int));
                            lemma_descends_not_below(nodes, q, b + k as int);
                            lemma_descends_transitive(nodes, q, b + k as int, n as int);
                        }
                    }
                    assert forall|i: int, q: int|
                        start <= i < out@.len() && start <= q < out@.len() && (#[trigger] out@[i]).hit_item.id
                            == (#[trigger] out@[q]).hit_item.id implies i == q by {
                        if i < before.len() && q >= before.len() {
                            let x = self.index@[out@[q].hit_item.id] as int;
                            assert(out@[i] == before[i]);
                            lemma_descends_not_below(nodes, x, b + k as int);
                            if i >= own_end {
                                let kk = choose|kk: int|
                                    0 <= kk < k && #[trigger] descends_from(nodes, x, b + kk);
                                self.lemma_siblings_apart(n as int, kk, k as int, x);
                            }
                        } else if q < before.len() && i >= before.len() {
                            let x = self.index@[out@[i].hit_item.id] as int;
                            assert(out@[q] == before[q]);
                            lemma_descends_not_below(nodes, x, b + k as int);
                            if q >= own_end {
                                let kk = choose|kk: int|
                                    0 <= kk < k && #[trigger] descends_from(nodes, x, b + kk);
                                self.lemma_siblings_apart(n as int, kk, k as int, x);
                            }
                        } else if i < before.len() && q < before.len() {
                            assert(out@[i] == before[i]);
                            assert(out@[q] == before[q]);
                        }
                    }
                    assert forall|hits: spec_fn(Aabb) -> bool|
                        #[trigger] decided_by(hit, hits) implies {
                        &&& forall|jj: int|
                            0 <= jj < nodes[n as int].leafs@.len() && hits(
                                #[trigger] nodes[n as int].leafs@[jj].bb,
                            ) ==> ray_listed(out@, nodes[n as int].leafs@[jj].id)
                        &&& forall|m: int, jj: int|
                            0 <= m < nodes.len() && live(nodes, m) && (exists|kk: int|
                                0 <= kk < k + 1 && #[trigger] descends_from(nodes, m, b + kk)) && 0
                                <= jj < nodes[m].leafs@.len() && hits(
                                #[trigger] nodes[m].leafs@[jj].bb,
                            ) ==> ray_listed(out@, nodes[m].leafs@[jj].id)
                    } by {
                        assert forall|jj: int|
                            0 <= jj < nodes[n as int].leafs@.len() && hits(
                                #[trigger] nodes[n as int].leafs@[jj].bb,
                            ) implies ray_listed(out@, nodes[n as int].leafs@[jj].id) by {
                            let i = choose|i: int|
                                0 <= i < before.len() && (#[trigger] before[i]).hit_item.id
                                    == nodes[n as int].leafs@[jj].id;
                            assert(out@[i] == before[i]);
                        }
                        assert forall|m: int, jj: int|
                            0 <= m < nodes.len() && live(nodes, m) && (exists|kk: int|
                                0 <= kk < k + 1 && #[trigger] descends_from(nodes, m, b + kk)) && 0
                                <= jj < nodes[m].leafs@.len() && hits(
                                #[trigger] nodes[m].leafs@[jj].bb,
                            ) implies ray_listed(out@, nodes[m].leafs@[jj].id) by {
                            if descends_from(nodes, m, b + k as int) {
                                let c = b + k as int;
                                lemma_descends_not_below(nodes, m, c);
                                if !enter {
                                    if child.spec_is_empty() {
                                        if m != c {
                                            let kk = self.lemma_descendant_in_child(m, c);
                                        }
                                    } else {
                                        assert(self.leaf_ok(m, jj));
                                        self.lemma_box_within_ancestor(m, c);
                                        assert(nodes[c].bb.spec_contains(nodes[m].leafs@[jj].bb));
                                    }
                                }
                            } else {
                                let i = choose|i: int|
                                    0 <= i < before.len() && (#[trigger] before[i]).hit_item.id
                                        == nodes[m].leafs@[jj].id;
                                assert(out@[i] == before[i]);
                            }
                        }
                    }
                }
                k = k + 1;
            }
            proof {
                assert forall|hits: spec_fn(Aabb) -> bool|
                    #[trigger] decided_by(hit, hits) implies forall|m: int, jj: int|
                    0 <= m < nodes.len() && live(nodes, m) && descends_from(nodes, m, n as int) && 0
                        <= jj < nodes[m].leafs@.len() && hits(#[trigger] nodes[m].leafs@[jj].bb)
                        ==> ray_listed(out@, nodes[m].leafs@[jj].id) by {
                    assert forall|m: int, jj: int|
                        0 <= m < nodes.len() && live(nodes, m) && descends_from(nodes, m, n as int)
                            && 0 <= jj < nodes[m].leafs@.len() && hits(
                            #[trigger] nodes[m].leafs@[jj].bb,
                        ) implies ray_listed(out@, nodes[m].leafs@[jj].id) by {
                        if m != n {
                            lemma_descends_not_below(nodes, m, n as int);
                            let kk = self.lemma_descendant_in_child(m, n as int);
                            assert(descends_from(nodes, m, b + kk));
                        }
                    }
                }
            }
        } else {
            proof {
                assert forall|hits: spec_fn(Aabb) -> bool|
                    #[trigger] decided_by(hit, hits) implies forall|m: int, jj: int|
                    0 <= m < nodes.len() && live(nodes, m) && descends_from(nodes, m, n as int) && 0
                        <= jj < nodes[m].leafs@.len() && hits(#[trigger] nodes[m].leafs@[jj].bb)
                        ==> ray_listed(out@, nodes[m].leafs@[jj].id) by {
                    assert forall|m: int, jj: int|
                        0 <= m < nodes.len() && live(nodes, m) && descends_from(nodes, m, n as int)
                            && 0 <= jj < nodes[m].leafs@.len() && hits(
                            #[trigger] nodes[m].leafs@[jj].bb,
                        ) implies ray_listed(out@, nodes[m].leafs@[jj].id) by {
                        if m != n {
                            lemma_descends_not_below(nodes, m, n as int);
                            let kk = self.lemma_descendant_in_child(m, n as int);
                        }
                    }
                }
                assert forall|i: int| start <= i < out@.len() implies descends_from(
                    nodes,
                    self.index@[(#[trigger] out@[i]).hit_item.id] as int,
                    n as int,
                ) by {}
            }
        }
    }
}

/// `hits` decides the hit test `hit`: the test gives a point exactly for the boxes that
/// `hits` holds of, and every box around such a box is hit too.
pub open spec fn decided_by<P, F: Fn(&Aabb) -> Option<P>>(hit: &F, hits: spec_fn(Aabb) -> bool) -> bool {
    &&& forall|b: &Aabb, r: Option<P>| #[trigger] hit.ensures((b,), r) ==> r.is_some() == hits(*b)
    &&& forall|a: Aabb, b: Aabb| #![trigger a.spec_contains(b), hits(b)] a.spec_contains(b) && hits(b) ==> hits(a)
}

/// Some entry of `out` is a hit on the item `id`.
pub open spec fn ray_listed<P>(out: Seq<RayIntersection<P>>, id: u64) -> bool {
    exists|i: int| 0 <= i < out.len() && (#[trigger] out[i]).hit_item.id == id
}

} // verus!
