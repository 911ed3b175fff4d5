use vstd::prelude::*;
use std::collections::HashMap;
use crate::geometry::{Aabb, lemma_octant, lemma_select};
use crate::item::Item;
use crate::node::Node;

pub mod traversal;

verus! {

broadcast use vstd::std_specs::hash::group_hash_axioms;

/// Branch size used by `Octree::new`.
pub const DEFAULT_BRANCH_SIZE: usize = 16;

/// Hierarchical storage of boxes keyed by identifier, sorted by location in subdivided
/// space.
///
/// The nodes sit in one arena; slot 0 is the root, whose box is the world. A child is always
/// stored after its parent, and a branch owns eight consecutive slots. `index` maps every
/// stored identifier to the slot of the node that holds it, and the ghost map `items` is the
/// abstract content of the tree.
///
/// A full node is divided when a new box fits one of its octants whole; a box that crosses a
/// splitting plane stays with the node, and a node at most one unit wide on every axis is not
/// divided further. A branch whose children have all become empty turns back into a leaf, so
/// no branch stays idle (`tidy`), and the slots of the last block of children are released.
pub struct Octree {
    branch_size: usize,
    nodes: Vec<Node>,
    index: HashMap<u64, usize>,
    items: Ghost<Map<u64, Aabb>>,
}

/// Per-node shape facts: the box and its center, the parent link, and the eight children
/// of a branch, each an octant of this node's box that names this node as its parent.
pub open spec fn node_shape_ok(nodes: Seq<Node>, n: int) -> bool {
    let node = nodes[n];
    &&& node.bb.wf()
    &&& node.center == node.bb.spec_center()
    &&& (n == 0) == node.parent.is_none()
    &&& (node.parent matches Some(p) ==> p < n && nodes[p as int].bb.spec_contains(node.bb))
    &&& (node.children matches Some(b) ==> {
        &&& n < b
        &&& b + 8 <= nodes.len()
        &&& forall|k: int|
            0 <= k < 8 ==> {
                &&& (#[trigger] nodes[b + k]).parent == Some(n as usize)
                &&& nodes[b + k].bb == node.bb.octant(k)
            }
    })
}

/// `new` keeps the box, center and parent of every node of `old`, and the children of each
/// of its branches; it may add nodes after them.
spec fn grows_from(old: Seq<Node>, new: Seq<Node>) -> bool {
    &&& new.len() >= old.len()
    &&& forall|m: int|
        0 <= m < old.len() ==> {
            &&& (#[trigger] new[m]).bb == old[m].bb
            &&& new[m].center == old[m].center
            &&& new[m].parent == old[m].parent
            &&& (old[m].children.is_some() ==> new[m].children == old[m].children)
        }
}

/// `items` lists the content `m` exactly: every entry of `m` once, with its box, and nothing
/// else.
pub open spec fn lists_exactly(items: Seq<Item>, m: Map<u64, Aabb>) -> bool {
    &&& forall|i: int|
        0 <= i < items.len() ==> m.contains_key(#[trigger] items[i].id) && m[items[i].id]
            == items[i].bb
    &&& forall|i: int, j: int|
        0 <= i < items.len() && 0 <= j < items.len() && (#[trigger] items[i]).id == (
        #[trigger] items[j]).id ==> i == j
    &&& forall|id: u64| #[trigger]
        m.contains_key(id) ==> exists|i: int| 0 <= i < items.len() && (#[trigger] items[i]).id == id
}

/// What `remove(id)` returns on a tree with content `m`.
pub open spec fn removal(m: Map<u64, Aabb>, id: u64) -> Option<Item> {
    if m.contains_key(id) {
        Some(Item { bb: m[id], id })
    } else {
        None
    }
}

/// Some entry of `items` has identifier `id`.
pub open spec fn listed(items: Seq<Item>, id: u64) -> bool {
    exists|i: int| 0 <= i < items.len() && (#[trigger] items[i]).id == id
}

/// `p` is a branch whose eight children hold no items and have no children.
pub open spec fn children_all_empty(nodes: Seq<Node>, p: int) -> bool {
    match nodes[p].children {
        Some(b) => block_empty(nodes, b as int),
        None => false,
    }
}

/// The eight nodes from slot `b` on hold no items and have no children.
pub open spec fn block_empty(nodes: Seq<Node>, b: int) -> bool {
    forall|k: int| 0 <= k < 8 ==> (#[trigger] nodes[b + k]).spec_is_empty()
}

/// The branch `p`, if it is one, has a child that holds items or children of its own.
pub open spec fn busy(nodes: Seq<Node>, p: int) -> bool {
    match nodes[p].children {
        Some(b) => !block_empty(nodes, b as int),
        None => true,
    }
}

/// Every branch that hangs from the root, but those in `xs`, has a child that is not empty.
pub open spec fn no_idle_branch_except(nodes: Seq<Node>, xs: Set<int>) -> bool {
    forall|p: int| 0 <= p < nodes.len() && live(nodes, p) && !xs.contains(p) ==> #[trigger] busy(nodes, p)
}

/// Each block of children lies inside the arena.
pub open spec fn blocks_in_range(nodes: Seq<Node>) -> bool {
    forall|q: int|
        0 <= q < nodes.len() ==> ((#[trigger] nodes[q]).children matches Some(b) ==> b + 8
            <= nodes.len())
}

/// The parent of `n`, as a set of at most one node.
pub open spec fn up(nodes: Seq<Node>, n: int) -> Set<int> {
    match nodes[n].parent {
        Some(p) => set![p as int],
        None => Set::empty(),
    }
}

/// Arenas with the same links, where every node that was not empty still is not, keep every
/// busy branch busy.
proof fn lemma_busy_same_links(a: Seq<Node>, c: Seq<Node>, xs: Set<int>)
    requires
        a.len() == c.len(),
        forall|q: int|
            0 <= q < a.len() ==> (#[trigger] a[q]).parent == c[q].parent && a[q].children
                == c[q].children,
        forall|q: int| 0 <= q < a.len() && !(#[trigger] a[q]).spec_is_empty() ==> !c[q].spec_is_empty(),
        blocks_in_range(a),
        no_idle_branch_except(a, xs),
    ensures
        no_idle_branch_except(c, xs),
{
    assert forall|p: int| 0 <= p < c.len() && live(c, p) && !xs.contains(p) implies #[trigger] busy(
        c,
        p,
    ) by {
        lemma_live_same_links(a, c, a.len() as int, p);
        assert(busy(a, p));
        if let Some(b) = c[p].children {
            assert(a[p].children == Some(b));
            if block_empty(c, b as int) {
                assert forall|k: int| 0 <= k < 8 implies (#[trigger] a[b + k]).spec_is_empty() by {
                    assert(c[b + k].spec_is_empty());
                    assert(b + 8 <= a.len());
                }
            }
        }
    }
}

/// Each block of children lies inside the arena and names its owner as parent.
pub open spec fn links_consistent(nodes: Seq<Node>) -> bool {
    &&& nodes.len() <= usize::MAX
    &&& blocks_in_range(nodes)
    &&& forall|q: int, k: int|
        0 <= q < nodes.len() && 0 <= k < 8 && (#[trigger] nodes[q]).children is Some ==> (
        #[trigger] nodes[nodes[q].children.unwrap() + k]).parent == Some(q as usize)
}

/// When only node `n` may have lost its items, only the parent of `n` may have become idle,
/// and not even that when `n` still is not empty.
proof fn lemma_busy_emptied(a: Seq<Node>, c: Seq<Node>, xs: Set<int>, n: int)
    requires
        a.len() == c.len(),
        0 <= n < a.len(),
        forall|q: int|
            0 <= q < a.len() ==> (#[trigger] a[q]).parent == c[q].parent && a[q].children
                == c[q].children,
        forall|q: int|
            0 <= q < a.len() && q != n && !(#[trigger] a[q]).spec_is_empty() ==> !c[q].spec_is_empty(),
        links_consistent(a),
        no_idle_branch_except(a, xs),
    ensures
        no_idle_branch_except(c, xs + up(a, n)),
        !c[n].spec_is_empty() || a[n].spec_is_empty() ==> no_idle_branch_except(c, xs),
{
    assert forall|p: int| 0 <= p < c.len() && live(c, p) && !(xs + up(a, n)).contains(p) implies #[trigger] busy(
        c,
        p,
    ) by {
        lemma_busy_emptied_at(a, c, xs, n, p);
    }
    if !c[n].spec_is_empty() || a[n].spec_is_empty() {
        assert forall|p: int| 0 <= p < c.len() && live(c, p) && !xs.contains(p) implies #[trigger] busy(
            c,
            p,
        ) by {
            lemma_busy_emptied_at(a, c, xs, n, p);
        }
    }
}

proof fn lemma_busy_emptied_at(a: Seq<Node>, c: Seq<Node>, xs: Set<int>, n: int, p: int)
    requires
        a.len() == c.len(),
        0 <= n < a.len(),
        0 <= p < c.len(),
        live(c, p),
        !xs.contains(p),
        forall|q: int|
            0 <= q < a.len() ==> (#[trigger] a[q]).parent == c[q].parent && a[q].children
                == c[q].children,
        forall|q: int|
            0 <= q < a.len() && q != n && !(#[trigger] a[q]).spec_is_empty() ==> !c[q].spec_is_empty(),
        links_consistent(a),
        no_idle_branch_except(a, xs),
    ensures
        !up(a, n).contains(p) ==> busy(c, p),
        !c[n].spec_is_empty() || a[n].spec_is_empty() ==> busy(c, p),
{
    lemma_live_same_links(a, c, a.len() as int, p);
    assert(busy(a, p));
    if let Some(b) = c[p].children {
        assert(a[p].children == Some(b));
        assert(b + 8 <= a.len());
        if !block_empty(a, b as int) {
            let k = choose|k: int| 0 <= k < 8 && !(#[trigger] a[b + k]).spec_is_empty();
            if b + k == n {
                assert(a[a[p].children.unwrap() + k].parent == Some(p as usize));
                if !up(a, n).contains(p) {
                    assert(up(a, n).contains(p));
                }
                if !c[n].spec_is_empty() {
                    assert(!c[b + k].spec_is_empty());
                }
            } else {
                assert(!c[b + k].spec_is_empty());
            }
        }
    }
}

/// Giving the leaf `n` a block of new, empty children leaves only `n` possibly idle.
proof fn lemma_busy_new_block(a: Seq<Node>, c: Seq<Node>, xs: Set<int>, n: int, b: usize)
    requires
        0 <= n < a.len(),
        b == a.len(),
        c.len() == a.len() + 8,
        a[n].children.is_none(),
        c[n].children == Some(b),
        forall|q: int|
            0 <= q < a.len() ==> (#[trigger] a[q]).parent == c[q].parent && (q != n ==> a[q].children
                == c[q].children),
        forall|q: int| 0 <= q < a.len() && q != n ==> (#[trigger] a[q]).leafs == c[q].leafs,
        a[n].leafs == c[n].leafs,
        forall|k: int| 0 <= k < 8 ==> (#[trigger] c[b + k]).children.is_none(),
        blocks_in_range(a),
        no_idle_branch_except(a, xs),
    ensures
        no_idle_branch_except(c, xs.insert(n)),
{
    assert forall|p: int| 0 <= p < c.len() && live(c, p) && !xs.insert(n).contains(p) implies #[trigger] busy(
        c,
        p,
    ) by {
        if p < b {
            lemma_live_new_block(a, c, b as int, n, b, p);
            assert(busy(a, p));
            if let Some(bb) = c[p].children {
                assert(a[p].children == Some(bb));
                assert(bb + 8 <= a.len());
                if !block_empty(a, bb as int) {
                    let k = choose|k: int| 0 <= k < 8 && !(#[trigger] a[bb + k]).spec_is_empty();
                    assert(!c[bb + k].spec_is_empty());
                }
            }
        } else {
            assert(c[b + (p - b)].children.is_none());
        }
    }
}

/// Taking the block of children away from `p` leaves only the parent of `p` possibly idle,
/// and not even that when `p` still holds items.
proof fn lemma_busy_drop_block(a: Seq<Node>, c: Seq<Node>, xs: Set<int>, p: int, b: usize)
    requires
        a.len() == c.len(),
        0 <= p < a.len(),
        a[p].children == Some(b),
        c[p].children.is_none(),
        c[p].leafs == a[p].leafs,
        b + 8 <= a.len(),
        forall|i: int| 0 <= i < 8 ==> (#[trigger] a[b + i]).children.is_none(),
        forall|q: int|
            0 <= q < a.len() ==> (#[trigger] a[q]).parent == c[q].parent && (q != p ==> a[q].children
                == c[q].children),
        forall|q: int| 0 <= q < a.len() && q != p ==> (#[trigger] a[q]).leafs == c[q].leafs,
        links_consistent(a),
        no_idle_branch_except(a, xs),
    ensures
        no_idle_branch_except(c, xs + up(a, p)),
        c[p].leafs@.len() > 0 ==> no_idle_branch_except(c, xs),
{
    assert forall|q: int| 0 <= q < c.len() && live(c, q) && !(xs + up(a, p)).contains(q) implies #[trigger] busy(
        c,
        q,
    ) by {
        lemma_busy_drop_at(a, c, xs, p, b, q);
    }
    if c[p].leafs@.len() > 0 {
        assert forall|q: int| 0 <= q < c.len() && live(c, q) && !xs.contains(q) implies #[trigger] busy(
            c,
            q,
        ) by {
            lemma_busy_drop_at(a, c, xs, p, b, q);
        }
    }
}

proof fn lemma_busy_drop_at(a: Seq<Node>, c: Seq<Node>, xs: Set<int>, p: int, b: usize, q: int)
    requires
        a.len() == c.len(),
        0 <= p < a.len(),
        0 <= q < c.len(),
        live(c, q),
        !xs.contains(q),
        a[p].children == Some(b),
        c[p].children.is_none(),
        c[p].leafs == a[p].leafs,
        b + 8 <= a.len(),
        forall|i: int| 0 <= i < 8 ==> (#[trigger] a[b + i]).children.is_none(),
        forall|r: int|
            0 <= r < a.len() ==> (#[trigger] a[r]).parent == c[r].parent && (r != p ==> a[r].children
                == c[r].children),
        forall|r: int| 0 <= r < a.len() && r != p ==> (#[trigger] a[r]).leafs == c[r].leafs,
        links_consistent(a),
        no_idle_branch_except(a, xs),
    ensures
        !up(a, p).contains(q) ==> busy(c, q),
        c[p].leafs@.len() > 0 ==> busy(c, q),
{
    if q != p {
        lemma_live_drop_block(a, c, p, b, q);
        assert(busy(a, q));
        if let Some(bb) = c[q].children {
            assert(a[q].children == Some(bb));
            assert(bb + 8 <= a.len());
            if !block_empty(a, bb as int) {
                let k = choose|k: int| 0 <= k < 8 && !(#[trigger] a[bb + k]).spec_is_empty();
                if bb + k == p {
                    assert(a[a[q].children.unwrap() + k].parent == Some(q as usize));
                    if !up(a, p).contains(q) {
                        assert(up(a, p).contains(q));
                    }
                    if c[p].leafs@.len() > 0 {
                        assert(!c[bb + k].spec_is_empty());
                    }
                } else {
                    assert(a[bb + k].leafs == c[bb + k].leafs);
                    assert(!c[bb + k].spec_is_empty());
                }
            }
        }
    }
}

/// `new` is `old` with at most some branches turned into leaves and some trailing slots
/// released: every remaining node keeps its box, parent and items.
pub open spec fn only_merged(old: Seq<Node>, new: Seq<Node>) -> bool {
    &&& 1 <= new.len() <= old.len()
    &&& forall|m: int|
        0 <= m < new.len() ==> {
            &&& (#[trigger] new[m]).parent == old[m].parent
            &&& new[m].bb == old[m].bb
            &&& new[m].leafs == old[m].leafs
            &&& (new[m].children is None || new[m].children == old[m].children)
        }
}

/// The items of node `n`, a leaf in `on` and a branch in `nn`, were sorted out when it was
/// divided: each that an octant holds whole now lies below the child for that octant, and the
/// others stay with `n` and are all its items. `oi` and `ni` give each item's holder before and
/// after.
pub open spec fn sorted_out(
    on: Seq<Node>,
    nn: Seq<Node>,
    oi: Map<u64, usize>,
    ni: Map<u64, usize>,
    n: int,
) -> bool {
    let ol = on[n].leafs@;
    &&& drawn_from(nn[n].leafs@, ol)
    &&& forall|j: int|
        0 <= j < nn[n].leafs@.len() ==> on[n].bb.spec_select((#[trigger] nn[n].leafs@[j]).bb) is None
    &&& forall|j: int|
        0 <= j < ol.len() && (#[trigger] on[n].bb.spec_select(ol[j].bb)) is None ==> {
            &&& ni[ol[j].id] == n
            &&& item_in(nn[n].leafs@, ol[j])
        }
    &&& forall|j: int|
        0 <= j < ol.len() && (#[trigger] on[n].bb.spec_select(ol[j].bb)) is Some ==> descends_from(
            nn,
            ni[ol[j].id] as int,
            nn[n].children.unwrap() + on[n].bb.spec_select(ol[j].bb).unwrap(),
        )
}

/// Where an item `(id, bb)` offered to node `n` lands, `oi` and `ni` giving each item's holder
/// before and after. When `n` is full and an octant holds `bb` whole, the item goes down into
/// the subtree of that child; a leaf `n` is divided first and its items sorted out, while a
/// branch keeps its own items. Otherwise the item is appended to the items of `n`, and no other
/// node and no other holder changes.
pub open spec fn placed_at(
    on: Seq<Node>,
    nn: Seq<Node>,
    oi: Map<u64, usize>,
    ni: Map<u64, usize>,
    branch_size: usize,
    n: int,
    bb: Aabb,
    id: u64,
) -> bool {
    &&& Octree::goes_down(on, branch_size, n, bb) ==> {
        &&& nn[n].children is Some
        &&& descends_from(nn, ni[id] as int, nn[n].children.unwrap() + on[n].bb.spec_select(bb).unwrap())
        &&& on[n].children is None ==> sorted_out(on, nn, oi, ni, n)
        &&& on[n].children is Some ==> nn[n].leafs == on[n].leafs
    }
    &&& !Octree::goes_down(on, branch_size, n, bb) ==> {
        &&& nn[n].leafs@ == on[n].leafs@.push(Item { bb, id })
        &&& nn[n].children == on[n].children
        &&& ni == oi.insert(id, n as usize)
        &&& nn.len() == on.len()
        &&& forall|m: int| 0 <= m < on.len() && m != n ==> #[trigger] nn[m] == on[m]
    }
}

/// Where `update(id, bb)` moves the item held by node `h`, `h2` being its holder afterwards.
/// When `bb` still fits `h` (the root fits every box) and `h` is a branch or full, and an
/// octant holds `bb` whole: down in the subtree of that child, `h` being a branch. When it
/// fits otherwise: its box is replaced where it stands and no other node changes. When it no
/// longer fits: in the subtree of the nearest proper ancestor that can take `bb`.
pub open spec fn moved_by_update(
    on: Seq<Node>,
    nn: Seq<Node>,
    oi: Map<u64, usize>,
    ni: Map<u64, usize>,
    branch_size: usize,
    h: int,
    bb: Aabb,
    id: u64,
) -> bool {
    let h2 = ni[id] as int;
    let fits = h == 0 || on[h].bb.spec_contains(bb);
    let down = (on[h].children is Some || on[h].leafs@.len() >= branch_size) && on[h].bb.spec_select(
        bb,
    ) is Some;
    &&& fits && down ==> {
        &&& nn[h].children is Some
        &&& descends_from(nn, h2, nn[h].children.unwrap() + on[h].bb.spec_select(bb).unwrap())
    }
    &&& fits && !down ==> {
        &&& h2 == h
        &&& ni == oi
        &&& nn.len() == on.len()
        &&& nn[h].children == on[h].children
        &&& forall|m: int| 0 <= m < on.len() && m != h ==> #[trigger] nn[m] == on[m]
        &&& exists|j: int|
            0 <= j < on[h].leafs@.len() && on[h].leafs@[j].id == id && nn[h].leafs@
                == on[h].leafs@.update(j, Item { bb, id })
    }
    &&& !fits ==> exists|a: int|
        {
            &&& 0 <= a < nn.len()
            &&& a != h
            &&& descends_from(on, h, a)
            &&& (a == 0 || on[a].bb.spec_contains(bb))
            &&& forall|m: int| #[trigger]
                strictly_between(on, h, m, a) ==> m != 0 && !on[m].bb.spec_contains(bb)
            &&& descends_from(nn, h2, a)
            &&& !Octree::goes_down(on, branch_size, a, bb) ==> {
                &&& nn[a].leafs@ == on[a].leafs@.push(Item { bb, id })
                &&& h2 == a
                &&& (on[a].children is None ==> nn[a].children is None)
                &&& forall|x: u64| #[trigger] oi.contains_key(x) && x != id ==> ni[x] == oi[x]
            }
        }
}

/// Every node present before and after has kept its box; the arena still has its root.
pub open spec fn boxes_kept(on: Seq<Node>, nn: Seq<Node>) -> bool {
    &&& nn.len() >= 1
    &&& forall|m: int| 0 <= m < on.len() && m < nn.len() ==> (#[trigger] nn[m]).bb == on[m].bb
}

/// A box outside the world ends up with the root, which it does not divide.
pub open spec fn outside_stays_at_root(on: Seq<Node>, nn: Seq<Node>, bb: Aabb, h2: int) -> bool {
    !on[0].bb.spec_contains(bb) ==> {
        &&& h2 == 0
        &&& (on[0].children is None ==> nn[0].children is None)
    }
}

/// The items of node `n` and of every node below it, depth first: the node's own items in
/// their order, then the subtrees of its children in octant order.
pub open spec fn preorder(nodes: Seq<Node>, n: int) -> Seq<Item>
    decreases nodes.len() - n, 9int,
{
    if n < 0 || n >= nodes.len() {
        Seq::empty()
    } else {
        nodes[n].leafs@ + match nodes[n].children {
            Some(b) => children_preorder(nodes, n, b as int, 0),
            None => Seq::empty(),
        }
    }
}

/// The depth-first listings of the children of `n` from octant `k` on, one after another.
pub open spec fn children_preorder(nodes: Seq<Node>, n: int, b: int, k: int) -> Seq<Item>
    decreases nodes.len() - n, 8 - k,
{
    if k < 0 || k >= 8 || b + k <= n || b + k >= nodes.len() || n < 0 {
        Seq::empty()
    } else {
        preorder(nodes, b + k) + children_preorder(nodes, n, b, k + 1)
    }
}

/// `t` has the item `it` at some position.
pub open spec fn item_in(t: Seq<Item>, it: Item) -> bool {
    exists|b: int| 0 <= b < t.len() && t[b] == it
}

/// Every item of `s` is an item of `t`.
pub open spec fn drawn_from(s: Seq<Item>, t: Seq<Item>) -> bool {
    forall|a: int| 0 <= a < s.len() ==> item_in(t, #[trigger] s[a])
}

/// `n` lies in the block of children of `p`.
pub open spec fn child_slot(nodes: Seq<Node>, p: int, n: int) -> bool {
    match nodes[p].children {
        Some(b) => b <= n < b + 8,
        None => false,
    }
}

/// `n` hangs from the root: every node on its chain of parents holds the next one among its
/// children.
pub open spec fn live(nodes: Seq<Node>, n: int) -> bool
    decreases n,
{
    if n == 0 {
        nodes.len() > 0
    } else if n < 0 || n >= nodes.len() {
        false
    } else {
        match nodes[n].parent {
            Some(p) => p < n && live(nodes, p as int) && child_slot(nodes, p as int, n),
            None => false,
        }
    }
}

/// A node with items or children hangs from the root.
pub open spec fn hangs(nodes: Seq<Node>, n: int) -> bool {
    nodes[n].spec_is_empty() || live(nodes, n)
}

/// Two arenas that agree on the links of their first `upto` nodes agree on which of those
/// hang from the root.
proof fn lemma_live_same_links(a: Seq<Node>, c: Seq<Node>, upto: int, n: int)
    requires
        0 <= n < upto <= a.len(),
        upto <= c.len(),
        forall|m: int|
            0 <= m < upto ==> (#[trigger] a[m]).parent == c[m].parent && a[m].children
                == c[m].children,
    ensures
        live(a, n) == live(c, n),
    decreases n,
{
    if n > 0 {
        if let Some(p) = a[n].parent {
            if p < n {
                lemma_live_same_links(a, c, upto, p as int);
            }
        }
    }
}

/// Giving the leaf `n` a block of children at or after `upto` changes nothing about which of
/// the first `upto` nodes hang from the root.
proof fn lemma_live_new_block(a: Seq<Node>, c: Seq<Node>, upto: int, n: int, b: usize, m: int)
    requires
        0 <= m < upto <= a.len(),
        upto <= c.len(),
        0 <= n < upto,
        b >= upto,
        a[n].children.is_none(),
        c[n].children == Some(b),
        forall|q: int|
            0 <= q < upto ==> (#[trigger] a[q]).parent == c[q].parent && (q != n ==> a[q].children
                == c[q].children),
    ensures
        live(a, m) == live(c, m),
    decreases m,
{
    if m > 0 {
        assert(a[m].parent == c[m].parent);
        if let Some(p) = a[m].parent {
            if p < m {
                lemma_live_new_block(a, c, upto, n, b, p as int);
                assert(a[p as int].parent == c[p as int].parent);
                assert(child_slot(a, p as int, m) == child_slot(c, p as int, m));
            }
        }
    }
}

/// Taking away the block of children of `p` unhooks exactly that block, given that its nodes
/// have no children of their own.
proof fn lemma_live_drop_block(a: Seq<Node>, c: Seq<Node>, p: int, b: usize, m: int)
    requires
        a.len() == c.len(),
        0 <= p < a.len(),
        0 <= m < a.len(),
        a[p].children == Some(b),
        c[p].children.is_none(),
        b + 8 <= a.len(),
        forall|i: int| 0 <= i < 8 ==> (#[trigger] a[b + i]).children.is_none(),
        forall|q: int|
            0 <= q < a.len() ==> (#[trigger] a[q]).parent == c[q].parent && (q != p ==> a[q].children
                == c[q].children),
    ensures
        live(c, m) ==> live(a, m),
        live(a, m) && !(b <= m < b + 8) ==> live(c, m),
    decreases m,
{
    if m > 0 {
        assert(a[m].parent == c[m].parent);
        if let Some(q) = a[m].parent {
            if q < m {
                lemma_live_drop_block(a, c, p, b, q as int);
                assert(a[q as int].parent == c[q as int].parent);
                if q as int != p {
                    assert(child_slot(a, q as int, m) == child_slot(c, q as int, m));
                }
                if live(a, m) && !(b <= m < b + 8) {
                    if b <= q < b + 8 {
                        assert(a[b + (q - b)].children.is_none());
                    }
                }
            }
        }
    }
}

/// `a` is `m` or one of its ancestors, following the parent links.
pub open spec fn descends_from(nodes: Seq<Node>, m: int, a: int) -> bool
    decreases m,
{
    if m == a {
        true
    } else if m <= 0 || m >= nodes.len() {
        false
    } else {
        match nodes[m].parent {
            Some(p) => p < m && descends_from(nodes, p as int, a),
            None => false,
        }
    }
}

/// Ancestry survives any change that keeps the parent links of the nodes involved.
proof fn lemma_descends_keep(a: Seq<Node>, c: Seq<Node>, m: int, x: int)
    requires
        0 <= m < a.len(),
        m < c.len(),
        forall|q: int| 0 <= q < a.len() && q < c.len() ==> (#[trigger] c[q]).parent == a[q].parent,
        descends_from(a, m, x),
    ensures
        descends_from(c, m, x),
    decreases m,
{
    if m != x {
        let p = a[m].parent.unwrap() as int;
        assert(c[m].parent == a[m].parent);
        lemma_descends_keep(a, c, p, x);
    }
}

/// Each node between `n` and its ancestor `a` on the chain of parents.
pub open spec fn strictly_between(nodes: Seq<Node>, n: int, m: int, a: int) -> bool {
    &&& m != n
    &&& m != a
    &&& descends_from(nodes, n, m)
    &&& descends_from(nodes, m, a)
}

proof fn lemma_descends_antisymmetric(nodes: Seq<Node>, x: int, y: int)
    requires
        descends_from(nodes, x, y),
        descends_from(nodes, y, x),
    ensures
        x == y,
{
    lemma_descends_not_below(nodes, x, y);
    lemma_descends_not_below(nodes, y, x);
}

pub proof fn lemma_descends_not_below(nodes: Seq<Node>, m: int, a: int)
    requires
        descends_from(nodes, m, a),
    ensures
        m >= a,
    decreases m,
{
    if m != a && m > 0 && m < nodes.len() {
        if let Some(p) = nodes[m].parent {
            lemma_descends_not_below(nodes, p as int, a);
        }
    }
}

/// Two ancestors of one node lie on one chain.
proof fn lemma_descends_chain(nodes: Seq<Node>, m: int, a1: int, a2: int)
    requires
        descends_from(nodes, m, a1),
        descends_from(nodes, m, a2),
    ensures
        descends_from(nodes, a1, a2) || descends_from(nodes, a2, a1),
    decreases m,
{
    if m != a1 && m != a2 {
        let p = nodes[m].parent.unwrap() as int;
        lemma_descends_chain(nodes, p, a1, a2);
    }
}

proof fn lemma_descends_transitive(nodes: Seq<Node>, m: int, a: int, c: int)
    requires
        descends_from(nodes, m, a),
        descends_from(nodes, a, c),
    ensures
        descends_from(nodes, m, c),
    decreases m,
{
    if m != a {
        let p = nodes[m].parent.unwrap() as int;
        lemma_descends_transitive(nodes, p, a, c);
    }
}

/// A node that hangs from the root descends from it.
proof fn lemma_live_descends_from_root(nodes: Seq<Node>, m: int)
    requires
        live(nodes, m),
    ensures
        descends_from(nodes, m, 0),
    decreases m,
{
    if m > 0 {
        let p = nodes[m].parent.unwrap() as int;
        lemma_live_descends_from_root(nodes, p);
    }
}

impl Octree {
    pub closed spec fn spec_branch_size(&self) -> usize {
        self.branch_size
    }

    pub closed spec fn spec_nodes(&self) -> Seq<Node> {
        self.nodes@
    }

    /// An item with box `bb` offered to node `n` goes down into a child: `n` already holds
    /// `branch_size` items of its own and one of its octants holds `bb` whole.
    pub open spec fn goes_down(nodes: Seq<Node>, branch_size: usize, n: int, bb: Aabb) -> bool {
        nodes[n].leafs@.len() >= branch_size && nodes[n].bb.spec_select(bb) is Some
    }

    /// Whether node `n` holds an item with identifier `id` among its own items.
    pub open spec fn node_holds(nodes: Seq<Node>, n: int, id: u64) -> bool {
        exists|j: int| 0 <= j < nodes[n].leafs@.len() && (#[trigger] nodes[n].leafs@[j]).id == id
    }

    pub closed spec fn leaf_ok(&self, n: int, j: int) -> bool {
        let it = self.nodes@[n].leafs@[j];
        &&& self.index@.contains_key(it.id)
        &&& self.index@[it.id] as int == n
        &&& self.items@.contains_key(it.id)
        &&& self.items@[it.id] == it.bb
        &&& (n != 0 ==> self.nodes@[n].bb.spec_contains(it.bb))
    }

    pub closed spec fn wf(&self) -> bool {
        let nodes = self.nodes@;
        &&& self.branch_size > 0
        &&& nodes.len() >= 1
        &&& forall|n: int| 0 <= n < nodes.len() ==> #[trigger] node_shape_ok(nodes, n)
        &&& forall|n: int, j: int|
            0 <= n < nodes.len() && 0 <= j < nodes[n].leafs@.len() ==> #[trigger] self.leaf_ok(
                n,
                j,
            )
        &&& forall|n: int, j1: int, j2: int|
            0 <= n < nodes.len() && 0 <= j1 < nodes[n].leafs@.len() && 0 <= j2
                < nodes[n].leafs@.len() && (#[trigger] nodes[n].leafs@[j1]).id == (
            #[trigger] nodes[n].leafs@[j2]).id ==> j1 == j2
        &&& self.index@.dom() == self.items@.dom()
        &&& forall|n: int| 0 <= n < nodes.len() ==> #[trigger] hangs(nodes, n)
        &&& forall|id: u64| #[trigger]
            self.index@.contains_key(id) ==> {
                &&& (self.index@[id] as int) < nodes.len()
                &&& Self::node_holds(nodes, self.index@[id] as int, id)
            }
    }

    /// No branch of the tree is idle: each has a child with items or children of its own.
    pub closed spec fn tidy(&self) -> bool {
        no_idle_branch_except(self.nodes@, Set::empty())
    }

    /// The slot of the node that holds the item `id`.
    pub open spec fn holder(&self, id: u64) -> int {
        self.holders()[id] as int
    }

    /// The slot of the node that holds each stored item.
    pub closed spec fn holders(&self) -> Map<u64, usize> {
        self.index@
    }

    /// The content of the tree: each stored identifier with its box.
    pub closed spec fn view(&self) -> Map<u64, Aabb> {
        self.items@
    }

    /// A tree with the default branch size of 16 over the world `bb`.
    pub fn new(bb: Aabb) -> (r: Octree)
        requires
            bb.spec_has_volume(),
        ensures
            r.wf(),
            r.view() == Map::<u64, Aabb>::empty(),
            r.tidy(),
            r.spec_branch_size() == DEFAULT_BRANCH_SIZE,
            r.spec_nodes()[0].bb == bb,
            r.spec_nodes().len() == 1,
            r.spec_nodes()[0].leafs@.len() == 0,
            r.spec_nodes()[0].children is None,
    {
        Self::with_branch_size(DEFAULT_BRANCH_SIZE, bb)
    }

    /// A tree with the given branch size over the world `bb`.
    pub fn with_branch_size(branch_size: usize, bb: Aabb) -> (r: Octree)
        requires
            branch_size > 0,
            bb.spec_has_volume(),
        ensures
            r.wf(),
            r.view() == Map::<u64, Aabb>::empty(),
            r.tidy(),
            r.spec_branch_size() == branch_size,
            r.spec_nodes()[0].bb == bb,
            r.spec_nodes().len() == 1,
            r.spec_nodes()[0].leafs@.len() == 0,
            r.spec_nodes()[0].children is None,
    {
        let mut nodes: Vec<Node> = Vec::new();
        nodes.push(Node::new(bb, None));
        let r = Octree {
            branch_size,
            nodes,
            index: HashMap::new(),
            items: Ghost(Map::empty()),
        };
        assert(node_shape_ok(r.nodes@, 0));
        assert forall|q: int| 0 <= q < r.nodes@.len() && live(r.nodes@, q) && !Set::<int>::empty().contains(q) implies #[trigger] busy(
            r.nodes@,
            q,
        ) by {}
        r
    }

    /// The root node, whose box is the world.
    pub fn root(&self) -> (r: &Node)
        requires
            self.wf(),
        ensures
            *r == self.spec_nodes()[0],
    {
        &self.nodes[0]
    }

    pub fn branch_size(&self) -> (r: usize)
        ensures
            r == self.spec_branch_size(),
    {
        self.branch_size
    }

    /// Adds `(id, bb)` to the own items of node `n`.
    fn push_leaf(&mut self, n: usize, id: u64, bb: Aabb)
        requires
            old(self).wf(),
            n < old(self).nodes@.len(),
            !old(self).view().contains_key(id),
            n != 0 ==> old(self).nodes@[n as int].bb.spec_contains(bb),
            live(old(self).nodes@, n as int),
        ensures
            final(self).wf(),
            final(self).view() == old(self).view().insert(id, bb),
            final(self).branch_size == old(self).branch_size,
            final(self).nodes@.len() == old(self).nodes@.len(),
            forall|m: int|
                0 <= m < old(self).nodes@.len() && m != n ==> final(self).nodes@[m] == old(
                    self,
                ).nodes@[m],
            final(self).nodes@[n as int].bb == old(self).nodes@[n as int].bb,
            final(self).nodes@[n as int].center == old(self).nodes@[n as int].center,
            final(self).nodes@[n as int].parent == old(self).nodes@[n as int].parent,
            final(self).nodes@[n as int].children == old(self).nodes@[n as int].children,
            final(self).nodes@[n as int].leafs@.len() == old(self).nodes@[n as int].leafs@.len() + 1,
            final(self).nodes@[n as int].leafs@ == old(self).nodes@[n as int].leafs@.push(
                Item { bb, id },
            ),
            final(self).index@ == old(self).index@.insert(id, n),
            forall|xs: Set<int>|
                no_idle_branch_except(old(self).nodes@, xs) ==> #[trigger] no_idle_branch_except(
                    final(self).nodes@,
                    xs,
                ),
    {
        let ghost old_self = *self;
        self.nodes[n].leafs.push(Item { bb, id });
        self.index.insert(id, n);
        self.items = Ghost(self.items@.insert(id, bb));
        let ghost nodes = self.nodes@;
        let ghost len = old_self.nodes@[n as int].leafs@.len();
        assert forall|m: int| 0 <= m < nodes.len() implies #[trigger] node_shape_ok(nodes, m) by {
            assert(node_shape_ok(old_self.nodes@, m));
            if let Some(b) = nodes[m].children {
                assert forall|k: int| 0 <= k < 8 implies {
                    &&& (#[trigger] nodes[b + k]).parent == Some(m as usize)
                    &&& nodes[b + k].bb == nodes[m].bb.octant(k)
                } by {
                    assert(old_self.nodes@[b + k].parent == Some(m as usize));
                }
            }
        }
        assert forall|m: int, j: int|
            0 <= m < nodes.len() && 0 <= j < nodes[m].leafs@.len() implies #[trigger] self.leaf_ok(
            m,
            j,
        ) by {
            if m == n && j == len {
            } else {
                assert(old_self.leaf_ok(m, j));
                assert(old_self.nodes@[m].leafs@[j].id != id);
            }
        }
        assert forall|m: int, j1: int, j2: int|
            0 <= m < nodes.len() && 0 <= j1 < nodes[m].leafs@.len() && 0 <= j2
                < nodes[m].leafs@.len() && (#[trigger] nodes[m].leafs@[j1]).id == (
            #[trigger] nodes[m].leafs@[j2]).id implies j1 == j2 by {
            if m == n && j1 != j2 && (j1 == len || j2 == len) {
                let j = if j1 == len { j2 } else { j1 };
                assert(old_self.leaf_ok(m, j));
                assert(nodes[m].leafs@[j] == old_self.nodes@[m].leafs@[j]);
                assert(nodes[m].leafs@[len as int].id == id);
                assert(old_self.items@.contains_key(old_self.nodes@[m].leafs@[j].id));
            } else if j1 != j2 {
                assert(nodes[m].leafs@[j1] == old_self.nodes@[m].leafs@[j1]);
                assert(nodes[m].leafs@[j2] == old_self.nodes@[m].leafs@[j2]);
            }
        }
        assert forall|m: int| 0 <= m < nodes.len() implies #[trigger] hangs(nodes, m) by {
            assert forall|q: int| 0 <= q < nodes.len() implies (#[trigger] old_self.nodes@[q]).parent
                == nodes[q].parent && old_self.nodes@[q].children == nodes[q].children by {}
            lemma_live_same_links(old_self.nodes@, nodes, nodes.len() as int, m);
            assert(hangs(old_self.nodes@, m));
        }
        assert forall|x: u64| #[trigger] self.index@.contains_key(x) implies {
            &&& (self.index@[x] as int) < nodes.len()
            &&& Self::node_holds(nodes, self.index@[x] as int, x)
        } by {
            if x == id {
                assert(nodes[n as int].leafs@[len as int].id == id);
            } else {
                let q = old_self.index@[x] as int;
                let j = choose|j: int|
                    0 <= j < old_self.nodes@[q].leafs@.len() && (
                    #[trigger] old_self.nodes@[q].leafs@[j]).id == x;
                assert(nodes[q].leafs@[j].id == x);
            }
        }
        assert(self.index@.dom() =~= self.items@.dom());
        proof {
            old_self.lemma_links_consistent();
            assert forall|xs: Set<int>|
                no_idle_branch_except(old_self.nodes@, xs) implies #[trigger] no_idle_branch_except(
                nodes,
                xs,
            ) by {
                assert forall|q: int| 0 <= q < nodes.len() implies (#[trigger] old_self.nodes@[q]).parent
                    == nodes[q].parent && old_self.nodes@[q].children == nodes[q].children by {}
                assert forall|q: int|
                    0 <= q < nodes.len() && !(#[trigger] old_self.nodes@[q]).spec_is_empty() implies !nodes[q].spec_is_empty() by {}
                lemma_busy_same_links(old_self.nodes@, nodes, xs);
            }
        }
    }

    /// Takes item `j` out of the own items of node `n`, the last item taking its place.
    fn take_leaf(&mut self, n: usize, j: usize) -> (r: Item)
        requires
            old(self).wf(),
            n < old(self).nodes@.len(),
            j < old(self).nodes@[n as int].leafs@.len(),
        ensures
            final(self).wf(),
            r == old(self).nodes@[n as int].leafs@[j as int],
            old(self).view().contains_key(r.id),
            old(self).view()[r.id] == r.bb,
            final(self).view() == old(self).view().remove(r.id),
            final(self).branch_size == old(self).branch_size,
            final(self).nodes@.len() == old(self).nodes@.len(),
            forall|m: int|
                0 <= m < old(self).nodes@.len() && m != n ==> final(self).nodes@[m] == old(
                    self,
                ).nodes@[m],
            final(self).nodes@[n as int].bb == old(self).nodes@[n as int].bb,
            final(self).nodes@[n as int].center == old(self).nodes@[n as int].center,
            final(self).nodes@[n as int].parent == old(self).nodes@[n as int].parent,
            final(self).nodes@[n as int].children == old(self).nodes@[n as int].children,
            final(self).nodes@[n as int].leafs@.len() + 1 == old(
                self,
            ).nodes@[n as int].leafs@.len(),
            final(self).nodes@[n as int].leafs@ == old(self).nodes@[n as int].leafs@.update(
                j as int,
                old(self).nodes@[n as int].leafs@.last(),
            ).drop_last(),
            final(self).index@ == old(self).index@.remove(r.id),
            forall|m: int|
                0 <= m < old(self).nodes@.len() ==> #[trigger] live(final(self).nodes@, m) == live(
                    old(self).nodes@,
                    m,
                ),
            forall|xs: Set<int>|
                no_idle_branch_except(old(self).nodes@, xs) ==> #[trigger] no_idle_branch_except(
                    final(self).nodes@,
                    xs + up(old(self).nodes@, n as int),
                ),
            forall|xs: Set<int>|
                no_idle_branch_except(old(self).nodes@, xs) && !final(self).nodes@[n as int].spec_is_empty()
                    ==> #[trigger] no_idle_branch_except(final(self).nodes@, xs),
    {
        let ghost old_self = *self;
        let ghost ol = old_self.nodes@[n as int].leafs@;
        let ghost last = ol.len() - 1;
        assert(old_self.leaf_ok(n as int, j as int));
        let item = self.nodes[n].leafs.swap_remove(j);
        self.index.remove(&item.id);
        self.items = Ghost(self.items@.remove(item.id));
        let ghost nodes = self.nodes@;
        let ghost nl = nodes[n as int].leafs@;
        assert(nl =~= ol.update(j as int, ol[last]).drop_last());
        assert forall|m: int| 0 <= m < nodes.len() implies #[trigger] node_shape_ok(nodes, m) by {
            assert(node_shape_ok(old_self.nodes@, m));
            if let Some(b) = nodes[m].children {
                assert forall|k: int| 0 <= k < 8 implies {
                    &&& (#[trigger] nodes[b + k]).parent == Some(m as usize)
                    &&& nodes[b + k].bb == nodes[m].bb.octant(k)
                } by {
                    assert(old_self.nodes@[b + k].parent == Some(m as usize));
                }
            }
        }
        // the position in the old item list of each item now in node `n`
        let ghost src = |i: int| if i == j { last } else { i };
        assert forall|m: int, i: int|
            0 <= m < nodes.len() && 0 <= i < nodes[m].leafs@.len() implies #[trigger] self.leaf_ok(
            m,
            i,
        ) by {
            let oi = if m == n { src(i) } else { i };
            assert(old_self.leaf_ok(m, oi));
            assert(nodes[m].leafs@[i] == old_self.nodes@[m].leafs@[oi]);
            if old_self.nodes@[m].leafs@[oi].id == item.id {
                assert(old_self.leaf_ok(n as int, j as int));
                assert(m == n);
                assert(oi == j);
            }
        }
        assert forall|m: int, j1: int, j2: int|
            0 <= m < nodes.len() && 0 <= j1 < nodes[m].leafs@.len() && 0 <= j2
                < nodes[m].leafs@.len() && (#[trigger] nodes[m].leafs@[j1]).id == (
            #[trigger] nodes[m].leafs@[j2]).id implies j1 == j2 by {
            if m == n {
                assert(nodes[m].leafs@[j1] == old_self.nodes@[m].leafs@[src(j1)]);
                assert(nodes[m].leafs@[j2] == old_self.nodes@[m].leafs@[src(j2)]);
            } else {
                assert(nodes[m].leafs@[j1] == old_self.nodes@[m].leafs@[j1]);
                assert(nodes[m].leafs@[j2] == old_self.nodes@[m].leafs@[j2]);
            }
        }
        assert forall|q: int| 0 <= q < nodes.len() implies (#[trigger] old_self.nodes@[q]).parent
            == nodes[q].parent && old_self.nodes@[q].children == nodes[q].children by {}
        assert forall|m: int| 0 <= m < nodes.len() implies #[trigger] live(nodes, m) == live(
            old_self.nodes@,
            m,
        ) by {
            lemma_live_same_links(old_self.nodes@, nodes, nodes.len() as int, m);
        }
        assert forall|m: int| 0 <= m < nodes.len() implies #[trigger] hangs(nodes, m) by {
            assert(hangs(old_self.nodes@, m));
            assert(live(nodes, m) == live(old_self.nodes@, m));
        }
        assert forall|x: u64| #[trigger] self.index@.contains_key(x) implies {
            &&& (self.index@[x] as int) < nodes.len()
            &&& Self::node_holds(nodes, self.index@[x] as int, x)
        } by {
            let q = old_self.index@[x] as int;
            let i = choose|i: int|
                0 <= i < old_self.nodes@[q].leafs@.len() && (
                #[trigger] old_self.nodes@[q].leafs@[i]).id == x;
            if q == n {
                assert(i != j);
                let ni = if i == last { j as int } else { i };
                assert(nodes[q].leafs@[ni].id == x);
            } else {
                assert(nodes[q].leafs@[i].id == x);
            }
        }
        assert(self.index@.dom() =~= self.items@.dom());
        proof {
            old_self.lemma_links_consistent();
            assert forall|q: int|
                0 <= q < nodes.len() && q != n && !(#[trigger] old_self.nodes@[q]).spec_is_empty() implies !nodes[q].spec_is_empty() by {}
            assert forall|xs: Set<int>|
                no_idle_branch_except(old_self.nodes@, xs) implies #[trigger] no_idle_branch_except(
                nodes,
                xs + up(old_self.nodes@, n as int),
            ) by {
                lemma_busy_emptied(old_self.nodes@, nodes, xs, n as int);
            }
            assert forall|xs: Set<int>|
                no_idle_branch_except(old_self.nodes@, xs) && !nodes[n as int].spec_is_empty() implies #[trigger] no_idle_branch_except(
                nodes,
                xs,
            ) by {
                lemma_busy_emptied(old_self.nodes@, nodes, xs, n as int);
            }
        }
        item
    }
    /// Gives the leaf node `n` its eight children, appended to the arena.
    fn subdivide(&mut self, n: usize)
        requires
            old(self).wf(),
            n < old(self).nodes@.len(),
            old(self).nodes@[n as int].children.is_none(),
            live(old(self).nodes@, n as int),
        ensures
            final(self).wf(),
            final(self).view() == old(self).view(),
            final(self).branch_size == old(self).branch_size,
            final(self).nodes@.len() == old(self).nodes@.len() + 8,
            forall|m: int|
                0 <= m < old(self).nodes@.len() && m != n ==> final(self).nodes@[m] == old(
                    self,
                ).nodes@[m],
            final(self).nodes@[n as int].children == Some(old(self).nodes@.len() as usize),
            final(self).nodes@[n as int].bb == old(self).nodes@[n as int].bb,
            final(self).nodes@[n as int].center == old(self).nodes@[n as int].center,
            final(self).nodes@[n as int].parent == old(self).nodes@[n as int].parent,
            final(self).nodes@[n as int].leafs == old(self).nodes@[n as int].leafs,
            final(self).index == old(self).index,
            forall|xs: Set<int>|
                no_idle_branch_except(old(self).nodes@, xs) ==> #[trigger] no_idle_branch_except(
                    final(self).nodes@,
                    xs.insert(n as int),
                ),
    {
        let ghost old_self = *self;
        let b = self.nodes.len();
        let ghost pbb = old_self.nodes@[n as int].bb;
        assert(node_shape_ok(old_self.nodes@, n as int));
        let mut k: usize = 0;
        while k < 8
            invariant
                k <= 8,
                n < b,
                b == old_self.nodes@.len(),
                self.nodes@.len() == b + k,
                self.branch_size == old_self.branch_size,
                self.index == old_self.index,
                self.items == old_self.items,
                pbb.wf(),
                pbb == old_self.nodes@[n as int].bb,
                forall|m: int| 0 <= m < b ==> self.nodes@[m] == old_self.nodes@[m],
                forall|i: int|
                    0 <= i < k ==> {
                        &&& (#[trigger] self.nodes@[b + i]).bb == pbb.octant(i)
                        &&& self.nodes@[b + i].center == pbb.octant(i).spec_center()
                        &&& self.nodes@[b + i].leafs@.len() == 0
                        &&& self.nodes@[b + i].children.is_none()
                        &&& self.nodes@[b + i].parent == Some(n)
                    },
            decreases 8 - k,
        {
            proof {
                lemma_octant(pbb, k as int);
            }
            let bb = self.nodes[n].bb.octant_box(k);
            self.nodes.push(Node::new(bb, Some(n)));
            k = k + 1;
        }
        let ghost pre = self.nodes@;
        self.nodes[n].children = Some(b);
        let ghost nodes = self.nodes@;
        assert forall|m: int| 0 <= m < nodes.len() implies #[trigger] node_shape_ok(nodes, m) by {
            if m == n {
                assert forall|i: int| 0 <= i < 8 implies {
                    &&& (#[trigger] nodes[b + i]).parent == Some(m as usize)
                    &&& nodes[b + i].bb == nodes[m].bb.octant(i)
                } by {
                    assert(pre[b + i] == nodes[b + i]);
                }
            } else if m < b {
                assert(node_shape_ok(old_self.nodes@, m));
                if let Some(c) = nodes[m].children {
                    assert forall|i: int| 0 <= i < 8 implies {
                        &&& (#[trigger] nodes[c + i]).parent == Some(m as usize)
                        &&& nodes[c + i].bb == nodes[m].bb.octant(i)
                    } by {
                        assert(old_self.nodes@[c + i].parent == Some(m as usize));
                    }
                }
            } else {
                lemma_octant(pbb, m - b);
                assert(pre[b + (m - b)] == nodes[m]);
            }
        }
        assert forall|q: int| 0 <= q < b implies (#[trigger] old_self.nodes@[q]).parent
            == nodes[q].parent && (q != n ==> old_self.nodes@[q].children == nodes[q].children) by {}
        assert forall|m: int| 0 <= m < nodes.len() implies #[trigger] hangs(nodes, m) by {
            if m < b {
                lemma_live_new_block(old_self.nodes@, nodes, b as int, n as int, b, m);
                assert(hangs(old_self.nodes@, m));
                if m == n {
                    lemma_live_new_block(old_self.nodes@, nodes, b as int, n as int, b, n as int);
                }
            } else {
                assert(pre[b + (m - b)] == nodes[m]);
            }
        }
        assert forall|m: int, j: int|
            0 <= m < nodes.len() && 0 <= j < nodes[m].leafs@.len() implies #[trigger] self.leaf_ok(
            m,
            j,
        ) by {
            if m >= b {
                assert(pre[b + (m - b)] == nodes[m]);
            }
            assert(old_self.leaf_ok(m, j));
        }
        assert forall|m: int, j1: int, j2: int|
            0 <= m < nodes.len() && 0 <= j1 < nodes[m].leafs@.len() && 0 <= j2
                < nodes[m].leafs@.len() && (#[trigger] nodes[m].leafs@[j1]).id == (
            #[trigger] nodes[m].leafs@[j2]).id implies j1 == j2 by {
            if m >= b {
                assert(pre[b + (m - b)] == nodes[m]);
            }
            assert(old_self.nodes@[m].leafs@[j1] == nodes[m].leafs@[j1]);
            assert(old_self.nodes@[m].leafs@[j2] == nodes[m].leafs@[j2]);
        }
        assert forall|x: u64| #[trigger] self.index@.contains_key(x) implies {
            &&& (self.index@[x] as int) < nodes.len()
            &&& Self::node_holds(nodes, self.index@[x] as int, x)
        } by {
            let q = old_self.index@[x] as int;
            let i = choose|i: int|
                0 <= i < old_self.nodes@[q].leafs@.len() && (
                #[trigger] old_self.nodes@[q].leafs@[i]).id == x;
            assert(nodes[q].leafs@[i].id == x);
        }
        proof {
            old_self.lemma_links_consistent();
            assert forall|xs: Set<int>|
                no_idle_branch_except(old_self.nodes@, xs) implies #[trigger] no_idle_branch_except(
                nodes,
                xs.insert(n as int),
            ) by {
                assert forall|q: int| 0 <= q < b implies (#[trigger] old_self.nodes@[q]).parent
                    == nodes[q].parent && (q != n ==> old_self.nodes@[q].children == nodes[q].children) by {}
                assert forall|q: int| 0 <= q < b && q != n implies (#[trigger] old_self.nodes@[q]).leafs
                    == nodes[q].leafs by {}
                assert forall|k: int| 0 <= k < 8 implies (#[trigger] nodes[b + k]).children.is_none() by {
                    assert(pre[b + k] == nodes[b + k]);
                }
                lemma_busy_new_block(old_self.nodes@, nodes, xs, n as int, b);
            }
        }
    }

    /// Inserts `(id, bb)` at node `n` or below it. When `n` already holds `branch_size` items
    /// of its own and an octant holds `bb` whole, the item goes down into that child (the node
    /// is divided first if it is a leaf); otherwise it stays with `n`.
    fn insert_into(&mut self, n: usize, id: u64, bb: Aabb, Ghost(size): Ghost<nat>)
        requires
            old(self).wf(),
            n < old(self).nodes@.len(),
            !old(self).view().contains_key(id),
            n != 0 ==> old(self).nodes@[n as int].bb.spec_contains(bb),
            size == old(self).nodes@[n as int].bb.measure(),
            live(old(self).nodes@, n as int),
        ensures
            final(self).wf(),
            final(self).view() == old(self).view().insert(id, bb),
            final(self).branch_size == old(self).branch_size,
            grows_from(old(self).nodes@, final(self).nodes@),
            forall|m: int| 0 <= m < n ==> final(self).nodes@[m] == old(self).nodes@[m],
            !final(self).nodes@[n as int].spec_is_empty(),
            forall|xs: Set<int>|
                no_idle_branch_except(old(self).nodes@, xs) ==> #[trigger] no_idle_branch_except(
                    final(self).nodes@,
                    xs,
                ),
            final(self).index@.contains_key(id),
            descends_from(final(self).nodes@, final(self).index@[id] as int, n as int),
            forall|x: u64| #[trigger]
                old(self).index@.contains_key(x) ==> final(self).index@.contains_key(x)
                    && descends_from(final(self).nodes@, final(self).index@[x] as int, old(self).index@[x] as int),
            placed_at(
                old(self).nodes@,
                final(self).nodes@,
                old(self).index@,
                final(self).index@,
                old(self).branch_size,
                n as int,
                bb,
                id,
            ),
        decreases size, 1nat,
    {
        let ghost old_self = *self;
        proof {
            assert(node_shape_ok(self.nodes@, n as int));
        }
        if self.nodes[n].leafs.len() >= self.branch_size {
            let sel = self.nodes[n].select_node_index(&bb);
            if let Some(k) = sel {
                proof {
                    lemma_select(self.nodes@[n as int].bb, bb);
                    lemma_octant(self.nodes@[n as int].bb, k as int);
                }
                let ghost was_leaf = self.nodes@[n as int].children.is_none();
                let ghost mut divided = self.nodes@;
                if self.nodes[n].children.is_none() {
                    self.subdivide(n);
                    proof {
                        divided = self.nodes@;
                    }
                    self.move_leafs_to_children(n, Ghost(size));
                }
                let ghost mid = self.nodes@;
                let ghost mid_index = self.index@;
                proof {
                    assert forall|x: u64| #[trigger] mid_index.contains_key(x) implies mid_index[x] < mid.len() by {}
                    assert forall|j: int| 0 <= j < old_self.nodes@[n as int].leafs@.len() implies old_self.index@.contains_key(
                        (#[trigger] old_self.nodes@[n as int].leafs@[j]).id) by {
                        assert(old_self.leaf_ok(n as int, j));
                    }
                    if !was_leaf {
                        assert forall|x: u64| #[trigger]
                            old_self.index@.contains_key(x) implies mid_index.contains_key(x)
                            && descends_from(mid, mid_index[x] as int, old_self.index@[x] as int) by {}
                    }
                }
                let b = self.nodes[n].children.unwrap();
                proof {
                    assert(node_shape_ok(self.nodes@, n as int));
                    assert(self.nodes.len() == self.nodes@.len());
                    assert(self.nodes@[b + k as int].bb == self.nodes@[n as int].bb.octant(
                        k as int,
                    ));
                    assert(hangs(self.nodes@, n as int));
                    assert(self.nodes@[b + k as int].parent == Some(n));
                    assert(live(self.nodes@, b + k as int));
                }
                self.insert_into(b + k, id, bb, Ghost(self.nodes@[b + k as int].bb.measure()));
                proof {
                    assert(self.nodes@[n as int] == mid[n as int]);
                    assert(!block_empty(self.nodes@, b as int)) by {
                        let kk = k as int;
                        assert(!self.nodes@[b + kk].spec_is_empty());
                    }
                    assert(busy(self.nodes@, n as int));
                    assert forall|xs: Set<int>|
                        no_idle_branch_except(old_self.nodes@, xs) implies #[trigger] no_idle_branch_except(
                        self.nodes@,
                        xs,
                    ) by {
                        if was_leaf {
                            assert(no_idle_branch_except(divided, xs.insert(n as int)));
                            assert(no_idle_branch_except(mid, xs.insert(n as int)));
                            assert(no_idle_branch_except(self.nodes@, xs.insert(n as int)));
                        } else {
                            assert(mid == old_self.nodes@);
                            assert(no_idle_branch_except(self.nodes@, xs));
                        }
                        assert forall|q: int|
                            0 <= q < self.nodes@.len() && live(self.nodes@, q) && !xs.contains(q) implies #[trigger] busy(
                            self.nodes@,
                            q,
                        ) by {
                            if q != n {
                                if was_leaf {
                                    assert(!xs.insert(n as int).contains(q));
                                }
                            }
                        }
                    }
                    let fin = self.nodes@;
                    assert(node_shape_ok(fin, n as int));
                    assert(fin[b + k as int].parent == Some(n));
                    assert(descends_from(fin, n as int, n as int));
                    assert(descends_from(fin, b + k as int, n as int));
                    lemma_descends_transitive(fin, self.index@[id] as int, b + k as int, n as int);
                    assert forall|q: int| 0 <= q < mid.len() && q < fin.len() implies (
                    #[trigger] fin[q]).parent == mid[q].parent by {}
                    assert forall|x: u64| #[trigger]
                        old_self.index@.contains_key(x) implies self.index@.contains_key(x)
                        && descends_from(fin, self.index@[x] as int, old_self.index@[x] as int) by {
                        let q0 = old_self.index@[x] as int;
                        let qm = mid_index[x] as int;
                        assert(mid_index.contains_key(x));
                        assert(descends_from(mid, qm, q0));
                        lemma_descends_keep(mid, fin, qm, q0);
                        lemma_descends_transitive(fin, self.index@[x] as int, qm, q0);
                    }
                    assert(fin[n as int] == mid[n as int]);
                    assert forall|x: u64| #[trigger] mid_index.contains_key(x) implies self.index@.contains_key(x)
                        && descends_from(fin, self.index@[x] as int, mid_index[x] as int) by {
                        assert(old_self.index@.contains_key(x));
                    }
                    if was_leaf {
                        assert(sorted_out(old_self.nodes@, mid, old_self.index@, mid_index, n as int));
                        self.lemma_sorted_kept(old_self.nodes@, old_self.index@, mid, mid_index, n as int);
                    }
                }
                assert(grows_from(old_self.nodes@, self.nodes@)) by {
                    assert forall|m: int| 0 <= m < old_self.nodes@.len() implies {
                        &&& (#[trigger] self.nodes@[m]).bb == old_self.nodes@[m].bb
                        &&& self.nodes@[m].center == old_self.nodes@[m].center
                        &&& self.nodes@[m].parent == old_self.nodes@[m].parent
                        &&& (old_self.nodes@[m].children.is_some() ==> self.nodes@[m].children
                            == old_self.nodes@[m].children)
                    } by {
                        assert(mid[m] == mid[m]);
                    }
                }
                return;
            }
        }
        self.push_leaf(n, id, bb);
        proof {
            assert(descends_from(self.nodes@, n as int, n as int));
            assert forall|x: u64| #[trigger]
                old_self.index@.contains_key(x) implies self.index@.contains_key(x)
                && descends_from(self.nodes@, self.index@[x] as int, old_self.index@[x] as int) by {
                assert(x != id);
                let q = self.index@[x] as int;
                assert(descends_from(self.nodes@, q, q));
            }
        }
    }

    /// Moves each own item of the branch `n` that fits whole in one octant down into that
    /// child; the others stay with `n`.
    fn move_leafs_to_children(&mut self, n: usize, Ghost(size): Ghost<nat>)
        requires
            old(self).wf(),
            n < old(self).nodes@.len(),
            old(self).nodes@[n as int].children.is_some(),
            size == old(self).nodes@[n as int].bb.measure(),
        ensures
            final(self).wf(),
            final(self).view() == old(self).view(),
            final(self).branch_size == old(self).branch_size,
            grows_from(old(self).nodes@, final(self).nodes@),
            forall|m: int| 0 <= m < n ==> final(self).nodes@[m] == old(self).nodes@[m],
            forall|xs: Set<int>|
                no_idle_branch_except(old(self).nodes@, xs) ==> #[trigger] no_idle_branch_except(
                    final(self).nodes@,
                    xs,
                ),
            forall|j: int|
                0 <= j < final(self).nodes@[n as int].leafs@.len()
                    ==> #[trigger] old(self).nodes@[n as int].bb.spec_select(final(self).nodes@[n as int].leafs@[j].bb)
                    is None,
            forall|j: int|
                0 <= j < old(self).nodes@[n as int].leafs@.len()
                    && (#[trigger] old(self).nodes@[n as int].bb.spec_select(old(self).nodes@[n as int].leafs@[j].bb))
                    is Some ==> descends_from(
                    final(self).nodes@,
                    final(self).index@[old(self).nodes@[n as int].leafs@[j].id] as int,
                    old(self).nodes@[n as int].children.unwrap() + old(self).nodes@[n as int].bb.spec_select(old(self).nodes@[n as int].leafs@[j].bb).unwrap(),
                ),
            forall|x: u64| #[trigger]
                old(self).index@.contains_key(x) ==> final(self).index@.contains_key(x)
                    && descends_from(final(self).nodes@, final(self).index@[x] as int, old(self).index@[x] as int),
            drawn_from(final(self).nodes@[n as int].leafs@, old(self).nodes@[n as int].leafs@),
            forall|j: int|
                0 <= j < old(self).nodes@[n as int].leafs@.len()
                    && (#[trigger] old(self).nodes@[n as int].bb.spec_select(old(self).nodes@[n as int].leafs@[j].bb))
                    is None ==> {
                    &&& final(self).index@[old(self).nodes@[n as int].leafs@[j].id] == n
                    &&& item_in(final(self).nodes@[n as int].leafs@, old(self).nodes@[n as int].leafs@[j])
                },
        decreases size, 0nat,
    {
        let ghost old_self = *self;
        let ghost ol = old_self.nodes@[n as int].leafs@;
        let ghost nbb = old_self.nodes@[n as int].bb;
        let ghost b0 = old_self.nodes@[n as int].children.unwrap() as int;
        proof {
            assert forall|j: int|
                0 <= j < ol.len() && nbb.spec_select((#[trigger] ol[j]).bb) is Some implies (
            old_self.index@[ol[j].id] == n) by {
                assert(old_self.leaf_ok(n as int, j));
            }
            assert forall|j: int|
                0 <= j < ol.len() && nbb.spec_select((#[trigger] ol[j]).bb) is None implies (
            old_self.index@[ol[j].id] == n) by {
                assert(old_self.leaf_ok(n as int, j));
            }
            assert forall|a: int| 0 <= a < ol.len() implies item_in(ol, #[trigger] ol[a]) by {}
        }
        let mut i: usize = 0;
        while i < self.nodes[n].leafs.len()
            invariant
                old_self.wf(),
                n < old_self.nodes@.len(),
                ol == old_self.nodes@[n as int].leafs@,
                nbb == old_self.nodes@[n as int].bb,
                b0 == old_self.nodes@[n as int].children.unwrap() as int,
                forall|j: int|
                    0 <= j < i ==> nbb.spec_select(
                        (#[trigger] self.nodes@[n as int].leafs@[j]).bb,
                    ) is None,
                forall|j: int|
                    0 <= j < ol.len() && nbb.spec_select((#[trigger] ol[j]).bb) is Some ==> (
                    self.index@[ol[j].id] == n || descends_from(
                        self.nodes@,
                        self.index@[ol[j].id] as int,
                        b0 + nbb.spec_select(ol[j].bb).unwrap(),
                    )),
                forall|x: u64| #[trigger]
                    old_self.index@.contains_key(x) ==> self.index@.contains_key(x)
                        && descends_from(
                        self.nodes@,
                        self.index@[x] as int,
                        old_self.index@[x] as int,
                    ),
                drawn_from(self.nodes@[n as int].leafs@, ol),
                forall|j: int|
                    0 <= j < ol.len() && nbb.spec_select((#[trigger] ol[j]).bb) is None ==> self.index@[ol[j].id]
                        == n,
                self.wf(),
                self.view() == old_self.view(),
                self.branch_size == old_self.branch_size,
                n < self.nodes@.len(),
                grows_from(old_self.nodes@, self.nodes@),
                forall|m: int| 0 <= m < n ==> self.nodes@[m] == old_self.nodes@[m],
                self.nodes@[n as int].children == old_self.nodes@[n as int].children,
                old_self.nodes@[n as int].children.is_some(),
                n < old_self.nodes@.len(),
                size == self.nodes@[n as int].bb.measure(),
                forall|xs: Set<int>|
                    no_idle_branch_except(old_self.nodes@, xs) ==> #[trigger] no_idle_branch_except(
                        self.nodes@,
                        xs,
                    ),
                i <= self.nodes@[n as int].leafs@.len(),
            decreases self.nodes@[n as int].leafs@.len() - i,
        {
            let ghost before = *self;
            proof {
                assert(node_shape_ok(self.nodes@, n as int));
            }
            let bb = self.nodes[n].leafs[i].bb;
            let sel = self.nodes[n].select_node_index(&bb);
            match sel {
                Some(k) => {
                    proof {
                        lemma_select(self.nodes@[n as int].bb, bb);
                        lemma_octant(self.nodes@[n as int].bb, k as int);
                    }
                    let item = self.take_leaf(n, i);
                    let ghost taken = self.nodes@;
                    let b = self.nodes[n].children.unwrap();
                    proof {
                        assert(node_shape_ok(self.nodes@, n as int));
                        assert(self.nodes.len() == self.nodes@.len());
                        assert(hangs(self.nodes@, n as int));
                        assert(self.nodes@[b + k as int].parent == Some(n));
                        assert(live(self.nodes@, b + k as int));
                    }
                    let ghost mid = self.nodes@;
                    self.insert_into(
                        b + k,
                        item.id,
                        item.bb,
                        Ghost(self.nodes@[b + k as int].bb.measure()),
                    );
                    assert(self.nodes@[n as int] == mid[n as int]);
                    assert(self.view() =~= old_self.view());
                    assert forall|xs: Set<int>|
                        no_idle_branch_except(old_self.nodes@, xs) implies #[trigger] no_idle_branch_except(
                        self.nodes@,
                        xs,
                    ) by {
                        assert(no_idle_branch_except(before.nodes@, xs));
                        assert(!taken[n as int].spec_is_empty());
                        assert(no_idle_branch_except(taken, xs));
                    }
                    proof {
                        let cur = before.nodes@;
                        let fin = self.nodes@;
                        assert forall|q: int| 0 <= q < cur.len() && q < fin.len() implies (
                        #[trigger] fin[q]).parent == cur[q].parent by {
                            assert(taken[q].parent == cur[q].parent);
                        }
                        assert(before.leaf_ok(n as int, i as int));
                        assert(before.index@[item.id] == n);
                        assert(fin[b + k as int].parent == Some(n));
                        assert(descends_from(fin, n as int, n as int));
                        assert(descends_from(fin, b + k as int, n as int));
                        lemma_descends_transitive(
                            fin,
                            self.index@[item.id] as int,
                            b + k as int,
                            n as int,
                        );
                        assert forall|j: int|
                            0 <= j < i implies nbb.spec_select(
                            (#[trigger] fin[n as int].leafs@[j]).bb,
                        ) is None by {
                            assert(fin[n as int].leafs@[j] == cur[n as int].leafs@[j]);
                        }
                        assert forall|x: u64| #[trigger]
                            old_self.index@.contains_key(x) implies self.index@.contains_key(x)
                            && descends_from(fin, self.index@[x] as int, old_self.index@[x] as int) by {
                            let q0 = old_self.index@[x] as int;
                            let qc = before.index@[x] as int;
                            lemma_descends_keep(cur, fin, qc, q0);
                            if x == item.id {
                                lemma_descends_transitive(fin, self.index@[x] as int, n as int, q0);
                            } else {
                                lemma_descends_transitive(fin, self.index@[x] as int, qc, q0);
                            }
                        }
                        assert forall|j: int|
                            0 <= j < ol.len() && nbb.spec_select((#[trigger] ol[j]).bb) is Some implies (
                        self.index@[ol[j].id] == n || descends_from(
                            fin,
                            self.index@[ol[j].id] as int,
                            b0 + nbb.spec_select(ol[j].bb).unwrap(),
                        )) by {
                            let x = ol[j].id;
                            assert(old_self.leaf_ok(n as int, j));
                            if x == item.id {
                                assert(item.bb == ol[j].bb);
                            } else {
                                let qc = before.index@[x] as int;
                                if qc == n {
                                    assert(taken.len() == cur.len());
                                    let tj = choose|tj: int|
                                        0 <= tj < taken[n as int].leafs@.len() && (
                                        #[trigger] taken[n as int].leafs@[tj]).id == x;
                                    assert(fin[n as int].leafs@[tj].id == x);
                                    self.lemma_index_of_holder(n as int, x);
                                } else {
                                    lemma_descends_keep(
                                        cur,
                                        fin,
                                        qc,
                                        b0 + nbb.spec_select(ol[j].bb).unwrap(),
                                    );
                                    lemma_descends_transitive(
                                        fin,
                                        self.index@[x] as int,
                                        qc,
                                        b0 + nbb.spec_select(ol[j].bb).unwrap(),
                                    );
                                }
                            }
                        }
                        let tl = taken[n as int].leafs@;
                        let cl = cur[n as int].leafs@;
                        assert(fin[n as int].leafs@ == tl);
                        assert(tl == cl.update(i as int, cl.last()).drop_last());
                        assert forall|a: int| 0 <= a < tl.len() implies item_in(ol, #[trigger] tl[a]) by {
                            if a == i {
                                assert(tl[a] == cl[cl.len() - 1]);
                                assert(item_in(ol, cl[cl.len() - 1]));
                            } else {
                                assert(tl[a] == cl[a]);
                                assert(item_in(ol, cl[a]));
                            }
                        }
                        assert forall|j: int|
                            0 <= j < ol.len() && nbb.spec_select((#[trigger] ol[j]).bb) is None implies self.index@[ol[j].id]
                            == n by {
                            let x = ol[j].id;
                            assert(old_self.leaf_ok(n as int, j));
                            assert(before.index@[x] == n);
                            if x == item.id {
                                assert(item.bb == ol[j].bb);
                            } else {
                                assert(taken.len() == cur.len());
                                let tj = choose|tj: int|
                                    0 <= tj < taken[n as int].leafs@.len() && (
                                    #[trigger] taken[n as int].leafs@[tj]).id == x;
                                assert(fin[n as int].leafs@[tj].id == x);
                                self.lemma_index_of_holder(n as int, x);
                            }
                        }
                    }
                    assert(grows_from(old_self.nodes@, self.nodes@)) by {
                        assert forall|m: int| 0 <= m < old_self.nodes@.len() implies {
                            &&& (#[trigger] self.nodes@[m]).bb == old_self.nodes@[m].bb
                            &&& self.nodes@[m].center == old_self.nodes@[m].center
                            &&& self.nodes@[m].parent == old_self.nodes@[m].parent
                            &&& (old_self.nodes@[m].children.is_some() ==> self.nodes@[m].children
                                == old_self.nodes@[m].children)
                        } by {
                            assert(mid[m] == mid[m]);
                            assert(before.nodes@[m] == before.nodes@[m]);
                        }
                    }
                },
                None => {
                    i = i + 1;
                },
            }
        }
        proof {
            let fin = self.nodes@;
            assert(fin[n as int].bb == nbb);
            assert forall|j: int|
                0 <= j < ol.len() && nbb.spec_select((#[trigger] ol[j]).bb) is Some implies descends_from(
                fin,
                self.index@[ol[j].id] as int,
                b0 + nbb.spec_select(ol[j].bb).unwrap(),
            ) by {
                let x = ol[j].id;
                if self.index@[x] == n {
                    assert(old_self.leaf_ok(n as int, j));
                    assert(self.index@.contains_key(x));
                    let jj = choose|jj: int|
                        0 <= jj < fin[n as int].leafs@.len() && (#[trigger] fin[n as int].leafs@[jj]).id
                            == x;
                    assert(self.leaf_ok(n as int, jj));
                    assert(nbb.spec_select(fin[n as int].leafs@[jj].bb) is None);
                }
            }
            assert forall|j: int|
                0 <= j < ol.len() && (#[trigger] nbb.spec_select(ol[j].bb)) is None implies {
                &&& self.index@[ol[j].id] == n
                &&& item_in(fin[n as int].leafs@, ol[j])
            } by {
                let x = ol[j].id;
                assert(old_self.leaf_ok(n as int, j));
                assert(self.index@.contains_key(x));
                let jj = choose|jj: int|
                    0 <= jj < fin[n as int].leafs@.len() && (#[trigger] fin[n as int].leafs@[jj]).id
                        == x;
                assert(self.leaf_ok(n as int, jj));
                assert(fin[n as int].leafs@[jj] == ol[j]);
            }
        }
    }

    /// The nearest proper ancestor of `n` that can take `bb`; the root takes any box.
    fn find_new_parent(&self, n: usize, bb: &Aabb) -> (a: usize)
        requires
            self.wf(),
            0 < n < self.nodes@.len(),
            live(self.nodes@, n as int),
        ensures
            a < n,
            a == 0 || self.nodes@[a as int].bb.spec_contains(*bb),
            live(self.nodes@, a as int),
            descends_from(self.nodes@, n as int, a as int),
            forall|m: int|
                #[trigger] strictly_between(self.nodes@, n as int, m, a as int) ==> m != 0
                    && !self.nodes@[m].bb.spec_contains(*bb),
    {
        proof {
            assert(node_shape_ok(self.nodes@, n as int));
        }
        let mut a = self.nodes[n].parent.unwrap();
        proof {
            let nodes = self.nodes@;
            assert(descends_from(nodes, a as int, a as int));
            assert(descends_from(nodes, n as int, a as int));
            assert forall|m: int| #[trigger] strictly_between(nodes, n as int, m, a as int) implies m
                != 0 && !nodes[m].bb.spec_contains(*bb) by {
                assert(descends_from(nodes, a as int, m));
                lemma_descends_antisymmetric(nodes, a as int, m);
            }
        }
        loop
            invariant
                self.wf(),
                a < n < self.nodes@.len(),
                live(self.nodes@, a as int),
                descends_from(self.nodes@, n as int, a as int),
                forall|m: int|
                    #[trigger] strictly_between(self.nodes@, n as int, m, a as int) ==> m != 0
                        && !self.nodes@[m].bb.spec_contains(*bb),
            decreases a,
        {
            proof {
                assert(node_shape_ok(self.nodes@, a as int));
            }
            if self.nodes[a].can_contain(bb) {
                return a;
            }
            let ghost prev = a as int;
            a = self.nodes[a].parent.unwrap();
            proof {
                let nodes = self.nodes@;
                assert(descends_from(nodes, a as int, a as int));
                assert(descends_from(nodes, prev, a as int));
                lemma_descends_transitive(nodes, n as int, prev, a as int);
                assert forall|m: int| #[trigger] strictly_between(nodes, n as int, m, a as int) implies m
                    != 0 && !nodes[m].bb.spec_contains(*bb) by {
                    if m != prev {
                        lemma_descends_chain(nodes, n as int, m, prev);
                        if descends_from(nodes, prev, m) {
                            assert(descends_from(nodes, a as int, m));
                            lemma_descends_antisymmetric(nodes, a as int, m);
                        } else {
                            assert(strictly_between(nodes, n as int, m, prev));
                        }
                    }
                }
            }
        }
    }

    /// Turns the branch `p` back into a leaf when all eight of its children are empty, and
    /// then, if `p` holds no items of its own either, checks its parent the same way.
    pub fn downgrade_to_leaf_if_children_empty(&mut self, p: usize)
        requires
            old(self).wf(),
            p < old(self).spec_nodes().len(),
            no_idle_branch_except(old(self).spec_nodes(), set![p as int]),
        ensures
            no_idle_branch_except(final(self).spec_nodes(), Set::<int>::empty()),
            only_merged(old(self).spec_nodes(), final(self).spec_nodes()),
            forall|x: u64| #[trigger] final(self).holder(x) == old(self).holder(x),
            final(self).wf(),
            final(self).view() == old(self).view(),
            final(self).spec_branch_size() == old(self).spec_branch_size(),
            final(self).spec_nodes().len() <= old(self).spec_nodes().len(),
            forall|m: int|
                p < m < final(self).spec_nodes().len() ==> #[trigger] final(self).spec_nodes()[m]
                    == old(self).spec_nodes()[m],
            !children_all_empty(old(self).spec_nodes(), p as int) ==> final(self).spec_nodes()
                == old(self).spec_nodes(),
            children_all_empty(old(self).spec_nodes(), p as int) && p < final(self).spec_nodes().len()
                ==> {
                &&& final(self).spec_nodes()[p as int].children.is_none()
                &&& final(self).spec_nodes()[p as int].leafs == old(self).spec_nodes()[p as int].leafs
            },
        decreases p, 1nat,
    {
        let b = match self.nodes[p].children {
            Some(b) => b,
            None => {
                proof {
                    assert(Set::<int>::empty().insert(p as int) =~= set![p as int]);
                    self.lemma_drop_busy_exception(p as int, Set::empty());
                }
                return ;
            },
        };
        proof {
            assert(node_shape_ok(self.nodes@, p as int));
            assert(self.nodes.len() == self.nodes@.len());
        }
        let mut k: usize = 0;
        while k < 8
            invariant
                k <= 8,
                b + 8 <= self.nodes@.len() <= usize::MAX,
                p < self.nodes@.len(),
                self.wf(),
                *self == *old(self),
                self.nodes@[p as int].children == Some(b),
                no_idle_branch_except(self.nodes@, set![p as int]),
                forall|i: int| 0 <= i < k ==> (#[trigger] self.nodes@[b + i]).spec_is_empty(),
            decreases 8 - k,
        {
            if !self.nodes[b + k].is_empty() {
                assert(!block_empty(self.nodes@, b as int)) by {
                    let kk = k as int;
                    assert(!self.nodes@[b + kk].spec_is_empty());
                }
                proof {
                    assert(busy(self.nodes@, p as int));
                    assert(Set::<int>::empty().insert(p as int) =~= set![p as int]);
                    self.lemma_drop_busy_exception(p as int, Set::empty());
                }
                return ;
            }
            k = k + 1;
        }
        let ghost old_self = *self;
        assert(block_empty(self.nodes@, b as int));
        self.nodes[p].children = None;
        let ghost nodes = self.nodes@;
        assert forall|m: int| 0 <= m < nodes.len() implies #[trigger] node_shape_ok(nodes, m) by {
            assert(node_shape_ok(old_self.nodes@, m));
            if let Some(c) = nodes[m].children {
                assert forall|i: int| 0 <= i < 8 implies {
                    &&& (#[trigger] nodes[c + i]).parent == Some(m as usize)
                    &&& nodes[c + i].bb == nodes[m].bb.octant(i)
                } by {
                    assert(old_self.nodes@[c + i].parent == Some(m as usize));
                }
            }
        }
        assert forall|m: int, j: int|
            0 <= m < nodes.len() && 0 <= j < nodes[m].leafs@.len() implies #[trigger] self.leaf_ok(
            m,
            j,
        ) by {
            assert(old_self.leaf_ok(m, j));
        }
        assert forall|m: int, j1: int, j2: int|
            0 <= m < nodes.len() && 0 <= j1 < nodes[m].leafs@.len() && 0 <= j2
                < nodes[m].leafs@.len() && (#[trigger] nodes[m].leafs@[j1]).id == (
            #[trigger] nodes[m].leafs@[j2]).id implies j1 == j2 by {
            assert(old_self.nodes@[m].leafs@[j1] == nodes[m].leafs@[j1]);
            assert(old_self.nodes@[m].leafs@[j2] == nodes[m].leafs@[j2]);
        }
        assert forall|x: u64| #[trigger] self.index@.contains_key(x) implies {
            &&& (self.index@[x] as int) < nodes.len()
            &&& Self::node_holds(nodes, self.index@[x] as int, x)
        } by {
            let q = old_self.index@[x] as int;
            let i = choose|i: int|
                0 <= i < old_self.nodes@[q].leafs@.len() && (
                #[trigger] old_self.nodes@[q].leafs@[i]).id == x;
            assert(nodes[q].leafs@[i].id == x);
        }
        assert forall|q: int| 0 <= q < nodes.len() implies (#[trigger] old_self.nodes@[q]).parent
            == nodes[q].parent && (q != p ==> old_self.nodes@[q].children == nodes[q].children) by {}
        assert forall|i: int| 0 <= i < 8 implies (#[trigger] old_self.nodes@[b + i]).children.is_none() by {
            assert(old_self.nodes@[b + i].spec_is_empty());
        }
        assert forall|m: int| 0 <= m < nodes.len() implies #[trigger] hangs(nodes, m) by {
            lemma_live_drop_block(old_self.nodes@, nodes, p as int, b, m);
            assert(hangs(old_self.nodes@, m));
            if b <= m < b + 8 {
                assert(old_self.nodes@[b + (m - b)].spec_is_empty());
                assert(nodes[m] == old_self.nodes@[m]);
            }
        }
        proof {
            old_self.lemma_links_consistent();
            assert forall|i: int| 0 <= i < 8 implies (#[trigger] old_self.nodes@[b + i]).children.is_none() by {
                assert(old_self.nodes@[b + i].spec_is_empty());
            }
            assert forall|q: int| 0 <= q < nodes.len() && q != p implies (#[trigger] old_self.nodes@[q]).leafs
                == nodes[q].leafs by {}
            lemma_busy_drop_block(old_self.nodes@, nodes, set![p as int], p as int, b);
            self.lemma_drop_busy_exception(p as int, up(old_self.nodes@, p as int));
            if nodes[p as int].leafs@.len() > 0 {
                self.lemma_drop_busy_exception(p as int, Set::empty());
            }
        }
        if b + 8 == self.nodes.len() {
            assert(old_self.nodes@[b + 0].parent == Some(p));
            assert(self.nodes@[b as int] == old_self.nodes@[b as int]);
            self.release_last_block(p, b);
        }
        if self.nodes[p].leafs.len() == 0 {
            self.try_cleanup_parent(p);
        }
    }

    /// Drops the eight empty nodes at the end of the arena, which `p` has just stopped owning.
    fn release_last_block(&mut self, p: usize, b: usize)
        requires
            old(self).wf(),
            p < b,
            b + 8 == old(self).nodes@.len(),
            old(self).nodes@[p as int].children.is_none(),
            old(self).nodes@[b as int].parent == Some(p),
            forall|i: int| 0 <= i < 8 ==> (#[trigger] old(self).nodes@[b + i]).spec_is_empty(),
        ensures
            final(self).wf(),
            final(self).view() == old(self).view(),
            final(self).branch_size == old(self).branch_size,
            final(self).nodes@ == old(self).nodes@.subrange(0, b as int),
            final(self).index == old(self).index,
            forall|xs: Set<int>|
                no_idle_branch_except(old(self).nodes@, xs) ==> #[trigger] no_idle_branch_except(
                    final(self).nodes@,
                    xs,
                ),
    {
        let ghost old_self = *self;
        self.nodes.truncate(b);
        let ghost nodes = self.nodes@;
        assert forall|m: int| 0 <= m < nodes.len() implies #[trigger] node_shape_ok(nodes, m) by {
            assert(node_shape_ok(old_self.nodes@, m));
            if let Some(c) = nodes[m].children {
                if c + 8 > b {
                    let d = b - c;
                    assert(old_self.nodes@[c + d].parent == Some(m as usize));
                    assert(old_self.nodes@[b + 0] == old_self.nodes@[b as int]);
                }
                assert forall|i: int| 0 <= i < 8 implies {
                    &&& (#[trigger] nodes[c + i]).parent == Some(m as usize)
                    &&& nodes[c + i].bb == nodes[m].bb.octant(i)
                } by {
                    assert(old_self.nodes@[c + i].parent == Some(m as usize));
                }
            }
        }
        assert forall|m: int, j: int|
            0 <= m < nodes.len() && 0 <= j < nodes[m].leafs@.len() implies #[trigger] self.leaf_ok(
            m,
            j,
        ) by {
            assert(old_self.leaf_ok(m, j));
        }
        assert forall|m: int, j1: int, j2: int|
            0 <= m < nodes.len() && 0 <= j1 < nodes[m].leafs@.len() && 0 <= j2
                < nodes[m].leafs@.len() && (#[trigger] nodes[m].leafs@[j1]).id == (
            #[trigger] nodes[m].leafs@[j2]).id implies j1 == j2 by {
            assert(old_self.nodes@[m].leafs@[j1] == nodes[m].leafs@[j1]);
            assert(old_self.nodes@[m].leafs@[j2] == nodes[m].leafs@[j2]);
        }
        assert forall|x: u64| #[trigger] self.index@.contains_key(x) implies {
            &&& (self.index@[x] as int) < nodes.len()
            &&& Self::node_holds(nodes, self.index@[x] as int, x)
        } by {
            let q = old_self.index@[x] as int;
            let i = choose|i: int|
                0 <= i < old_self.nodes@[q].leafs@.len() && (
                #[trigger] old_self.nodes@[q].leafs@[i]).id == x;
            if q >= b {
                assert(old_self.nodes@[b + (q - b)].spec_is_empty());
            }
            assert(nodes[q].leafs@[i].id == x);
        }
        assert forall|m: int| 0 <= m < nodes.len() implies #[trigger] hangs(nodes, m) by {
            assert forall|q: int| 0 <= q < nodes.len() implies (#[trigger] old_self.nodes@[q]).parent
                == nodes[q].parent && old_self.nodes@[q].children == nodes[q].children by {}
            lemma_live_same_links(old_self.nodes@, nodes, nodes.len() as int, m);
            assert(hangs(old_self.nodes@, m));
        }
        assert forall|xs: Set<int>|
            no_idle_branch_except(old_self.nodes@, xs) implies #[trigger] no_idle_branch_except(
            nodes,
            xs,
        ) by {
            assert forall|q: int| 0 <= q < nodes.len() && live(nodes, q) && !xs.contains(q) implies #[trigger] busy(
                nodes,
                q,
            ) by {
                assert forall|r: int| 0 <= r < nodes.len() implies (#[trigger] old_self.nodes@[r]).parent
                    == nodes[r].parent && old_self.nodes@[r].children == nodes[r].children by {}
                lemma_live_same_links(old_self.nodes@, nodes, nodes.len() as int, q);
                assert(busy(old_self.nodes@, q));
                assert(node_shape_ok(old_self.nodes@, q));
                if let Some(c) = nodes[q].children {
                    if c + 8 > b {
                        let d = b - c;
                        assert(old_self.nodes@[c + d].parent == Some(q as usize));
                        assert(old_self.nodes@[b + 0] == old_self.nodes@[b as int]);
                    }
                    if !block_empty(old_self.nodes@, c as int) {
                        let k = choose|k: int|
                            0 <= k < 8 && !(#[trigger] old_self.nodes@[c + k]).spec_is_empty();
                        assert(nodes[c + k] == old_self.nodes@[c + k]);
                    }
                }
            }
        }
    }

    /// Runs the collapse check on the parent of `n`, if `n` has one.
    fn try_cleanup_parent(&mut self, n: usize)
        requires
            old(self).wf(),
            n < old(self).nodes@.len(),
            no_idle_branch_except(old(self).nodes@, up(old(self).nodes@, n as int)),
        ensures
            final(self).wf(),
            final(self).view() == old(self).view(),
            final(self).branch_size == old(self).branch_size,
            final(self).nodes@.len() <= old(self).nodes@.len(),
            forall|m: int|
                n <= m < final(self).nodes@.len() ==> #[trigger] final(self).nodes@[m]
                    == old(self).nodes@[m],
            no_idle_branch_except(final(self).nodes@, Set::<int>::empty()),
            only_merged(old(self).nodes@, final(self).nodes@),
            forall|x: u64| #[trigger] final(self).holder(x) == old(self).holder(x),
        decreases n, 0nat,
    {
        proof {
            assert(node_shape_ok(self.nodes@, n as int));
        }
        if let Some(p) = self.nodes[n].parent {
            assert(up(self.nodes@, n as int) == set![p as int]);
            self.downgrade_to_leaf_if_children_empty(p);
        } else {
            assert(up(self.nodes@, n as int) =~= Set::<int>::empty());
            assert(Set::<int>::empty() + Set::<int>::empty() =~= Set::<int>::empty());
        }
    }
    /// Moves or resizes the item `id`, held by node `n`, to the box `bb`.
    ///
    /// When `bb` no longer fits `n`, the item goes up to the nearest ancestor that can take
    /// it. When it fits and `n` is a branch or full, it goes down into the octant that holds
    /// it whole, if there is one. Otherwise its box is replaced where it stands.
    fn update_at(&mut self, n: usize, id: u64, bb: Aabb)
        requires
            old(self).wf(),
            old(self).index@.contains_key(id),
            old(self).index@[id] == n,
            no_idle_branch_except(old(self).nodes@, Set::empty()),
        ensures
            final(self).wf(),
            final(self).view() == old(self).view().insert(id, bb),
            final(self).branch_size == old(self).branch_size,
            no_idle_branch_except(final(self).nodes@, Set::empty()),
            moved_by_update(
                old(self).nodes@,
                final(self).nodes@,
                old(self).index@,
                final(self).index@,
                old(self).branch_size,
                n as int,
                bb,
                id,
            ),
            outside_stays_at_root(old(self).nodes@, final(self).nodes@, bb, final(self).index@[id] as int),
            boxes_kept(old(self).nodes@, final(self).nodes@),
    {
        let ghost old_self = *self;
        proof {
            assert(node_shape_ok(self.nodes@, n as int));
            let j = choose|j: int|
                0 <= j < self.nodes@[n as int].leafs@.len() && (
                #[trigger] self.nodes@[n as int].leafs@[j]).id == id;
            assert(hangs(self.nodes@, n as int));
            lemma_live_descends_from_root(self.nodes@, n as int);
            self.lemma_box_within_ancestor(n as int, 0);
            assert(node_shape_ok(self.nodes@, 0));
        }
        if self.nodes[n].can_contain(&bb) {
            if self.nodes[n].is_branch() || self.nodes[n].leafs.len() >= self.branch_size {
                let sel = self.nodes[n].select_node_index(&bb);
                if let Some(k) = sel {
                    proof {
                        lemma_select(self.nodes@[n as int].bb, bb);
                        lemma_octant(self.nodes@[n as int].bb, k as int);
                    }
                    let j = self.nodes[n].find_leaf(id).unwrap();
                    self.take_leaf(n, j);
                    let ghost taken = self.nodes@;
                    let ghost was_leaf = self.nodes@[n as int].children.is_none();
                    let ghost mut divided = self.nodes@;
                    if self.nodes[n].children.is_none() {
                        self.subdivide(n);
                        proof {
                            divided = self.nodes@;
                        }
                        self.move_leafs_to_children(n, Ghost(self.nodes@[n as int].bb.measure()));
                    }
                    let ghost mid = self.nodes@;
                    let b = self.nodes[n].children.unwrap();
                    proof {
                        assert(node_shape_ok(self.nodes@, n as int));
                        assert(self.nodes.len() == self.nodes@.len());
                        assert(hangs(self.nodes@, n as int));
                        assert(self.nodes@[b + k as int].parent == Some(n));
                        assert(live(self.nodes@, b + k as int));
                    }
                    self.insert_into(b + k, id, bb, Ghost(self.nodes@[b + k as int].bb.measure()));
                    assert(self.view() =~= old_self.view().insert(id, bb));
                    proof {
                        let ex = Set::<int>::empty() + up(old_self.nodes@, n as int);
                        assert(no_idle_branch_except(taken, ex));
                        assert(self.nodes@[n as int] == mid[n as int]);
                        assert(!block_empty(self.nodes@, b as int)) by {
                            let kk = k as int;
                            assert(!self.nodes@[b + kk].spec_is_empty());
                        }
                        assert(busy(self.nodes@, n as int));
                        if was_leaf {
                            assert(no_idle_branch_except(divided, ex.insert(n as int)));
                            assert(no_idle_branch_except(mid, ex.insert(n as int)));
                            assert(no_idle_branch_except(self.nodes@, ex.insert(n as int)));
                            self.lemma_drop_busy_exception(n as int, ex);
                        } else {
                            assert(no_idle_branch_except(taken, Set::empty()));
                            assert(mid == taken);
                            assert(no_idle_branch_except(self.nodes@, Set::empty()));
                            assert(no_idle_branch_except(self.nodes@, ex)) by {
                                assert forall|q: int|
                                    0 <= q < self.nodes@.len() && live(self.nodes@, q) && !ex.contains(q) implies #[trigger] busy(
                                    self.nodes@,
                                    q,
                                ) by {}
                            }
                        }
                        assert(hangs(self.nodes@, n as int));
                        assert(up(self.nodes@, n as int) == up(old_self.nodes@, n as int));
                        self.lemma_parent_busy(n as int, Set::empty());
                    }
                    return ;
                }
            }
            let j = self.nodes[n].find_leaf(id).unwrap();
            self.nodes[n].leafs[j].bb = bb;
            self.items = Ghost(self.items@.insert(id, bb));
            proof {
                self.lemma_rebox_keeps_wf(old_self, n as int, j as int, bb);
                old_self.lemma_links_consistent();
                assert forall|q: int| 0 <= q < self.nodes@.len() implies (#[trigger] old_self.nodes@[q]).parent
                    == self.nodes@[q].parent && old_self.nodes@[q].children == self.nodes@[q].children by {}
                assert forall|q: int|
                    0 <= q < self.nodes@.len() && !(#[trigger] old_self.nodes@[q]).spec_is_empty() implies !self.nodes@[q].spec_is_empty() by {}
                lemma_busy_same_links(old_self.nodes@, self.nodes@, Set::empty());
            }
            return ;
        }
        let j = self.nodes[n].find_leaf(id).unwrap();
        self.take_leaf(n, j);
        let ghost taken = self.nodes@;
        let ghost ti = self.index@;
        let a = self.find_new_parent(n, &bb);
        self.insert_into(a, id, bb, Ghost(self.nodes@[a as int].bb.measure()));
        let ghost s2 = self.nodes@;
        let ghost s2i = self.index@;
        let ghost h2 = self.index@[id] as int;
        assert(self.view() =~= old_self.view().insert(id, bb));
        proof {
            let on = old_self.nodes@;
            assert forall|q: int| 0 <= q < on.len() && q < taken.len() implies (#[trigger] taken[q]).parent
                == on[q].parent && taken[q].bb == on[q].bb by {}
            assert forall|q: int| 0 <= q < on.len() && q < taken.len() implies (#[trigger] on[q]).parent
                == taken[q].parent by {}
            lemma_descends_keep(taken, on, n as int, a as int);
            assert forall|m: int| #[trigger] strictly_between(on, n as int, m, a as int) implies m != 0
                && !on[m].bb.spec_contains(bb) by {
                lemma_descends_not_below(on, n as int, m);
                lemma_descends_keep(on, taken, n as int, m);
                lemma_descends_keep(on, taken, m, a as int);
                assert(strictly_between(taken, n as int, m, a as int));
            }
            if !on[0].bb.spec_contains(bb) && a != 0 {
                lemma_live_descends_from_root(on, n as int);
                lemma_descends_chain(on, n as int, a as int, 0);
                if descends_from(on, 0, a as int) {
                    lemma_descends_not_below(on, 0, a as int);
                }
                old_self.lemma_box_within_ancestor(a as int, 0);
            }
        }
        proof {
            let ex = Set::<int>::empty() + up(old_self.nodes@, n as int);
            assert(ex =~= up(old_self.nodes@, n as int));
            assert(up(self.nodes@, n as int) == up(old_self.nodes@, n as int));
            assert(no_idle_branch_except(self.nodes@, ex));
        }
        if self.nodes[n].is_empty() {
            let ghost before_cleanup = *self;
            self.try_cleanup_parent(n);
            proof {
                assert(self.holder(id) == before_cleanup.holder(id));
                assert forall|x: u64| s2i.contains_key(x) implies self.index@[x] == s2i[x] by {
                    assert(self.holder(x) == before_cleanup.holder(x));
                }
            }
        } else {
            proof {
                assert(hangs(self.nodes@, n as int));
                assert(Set::<int>::empty() + up(self.nodes@, n as int) =~= up(self.nodes@, n as int));
                self.lemma_parent_busy(n as int, Set::empty());
            }
        }
        proof {
            let fin = self.nodes@;
            let on = old_self.nodes@;
            assert(self.index@[id] as int == h2);
            assert(self.index@.contains_key(id));
            assert forall|q: int| 0 <= q < s2.len() && q < fin.len() implies (#[trigger] fin[q]).parent
                == s2[q].parent by {}
            lemma_descends_keep(s2, fin, h2, a as int);
            lemma_descends_not_below(fin, h2, a as int);
            assert(0 <= a < fin.len());
            assert(fin[0].children is None || fin[0].children == s2[0].children);
            if !Self::goes_down(on, old_self.branch_size, a as int, bb) {
                assert(taken[a as int] == on[a as int]);
                assert(s2[a as int].leafs@ == on[a as int].leafs@.push(Item { bb, id }));
                assert(fin[a as int].leafs == s2[a as int].leafs);
                assert(fin[a as int].children is None || fin[a as int].children == s2[a as int].children);
                assert forall|x: u64| #[trigger] old_self.index@.contains_key(x) && x != id implies self.index@[x]
                    == old_self.index@[x] by {
                    assert(ti == old_self.index@.remove(id));
                    assert(s2i == ti.insert(id, a));
                    assert(s2i.contains_key(x));
                }
            }
        }
    }

    /// Replacing the box of item `j` of node `n` in place keeps the tree well formed, as long
    /// as the new box still fits the node.
    proof fn lemma_rebox_keeps_wf(&self, old_self: Octree, n: int, j: int, bb: Aabb)
        requires
            old_self.wf(),
            0 <= n < old_self.nodes@.len(),
            0 <= j < old_self.nodes@[n].leafs@.len(),
            n != 0 ==> old_self.nodes@[n].bb.spec_contains(bb),
            self.branch_size == old_self.branch_size,
            self.index == old_self.index,
            self.nodes@ == old_self.nodes@.update(
                n,
                Node {
                    leafs: self.nodes@[n].leafs,
                    ..old_self.nodes@[n]
                },
            ),
            self.nodes@[n].leafs@ == old_self.nodes@[n].leafs@.update(
                j,
                Item { bb, id: old_self.nodes@[n].leafs@[j].id },
            ),
            self.items@ == old_self.items@.insert(old_self.nodes@[n].leafs@[j].id, bb),
        ensures
            self.wf(),
    {
        let nodes = self.nodes@;
        let id = old_self.nodes@[n].leafs@[j].id;
        assert(old_self.leaf_ok(n, j));
        assert forall|m: int| 0 <= m < nodes.len() implies #[trigger] hangs(nodes, m) by {
            assert forall|q: int| 0 <= q < nodes.len() implies (#[trigger] old_self.nodes@[q]).parent
                == nodes[q].parent && old_self.nodes@[q].children == nodes[q].children by {}
            lemma_live_same_links(old_self.nodes@, nodes, nodes.len() as int, m);
            assert(hangs(old_self.nodes@, m));
        }
        assert forall|m: int| 0 <= m < nodes.len() implies #[trigger] node_shape_ok(nodes, m) by {
            assert(node_shape_ok(old_self.nodes@, m));
            if let Some(c) = nodes[m].children {
                assert forall|i: int| 0 <= i < 8 implies {
                    &&& (#[trigger] nodes[c + i]).parent == Some(m as usize)
                    &&& nodes[c + i].bb == nodes[m].bb.octant(i)
                } by {
                    assert(old_self.nodes@[c + i].parent == Some(m as usize));
                }
            }
        }
        assert forall|m: int, i: int|
            0 <= m < nodes.len() && 0 <= i < nodes[m].leafs@.len() implies #[trigger] self.leaf_ok(
            m,
            i,
        ) by {
            assert(old_self.leaf_ok(m, i));
            if !(m == n && i == j) {
                assert(nodes[m].leafs@[i] == old_self.nodes@[m].leafs@[i]);
                if old_self.nodes@[m].leafs@[i].id == id {
                    assert(m == n);
                }
            }
        }
        assert forall|m: int, j1: int, j2: int|
            0 <= m < nodes.len() && 0 <= j1 < nodes[m].leafs@.len() && 0 <= j2
                < nodes[m].leafs@.len() && (#[trigger] nodes[m].leafs@[j1]).id == (
            #[trigger] nodes[m].leafs@[j2]).id implies j1 == j2 by {
            assert(old_self.nodes@[m].leafs@[j1].id == nodes[m].leafs@[j1].id);
            assert(old_self.nodes@[m].leafs@[j2].id == nodes[m].leafs@[j2].id);
        }
        assert forall|x: u64| #[trigger] self.index@.contains_key(x) implies {
            &&& (self.index@[x] as int) < nodes.len()
            &&& Self::node_holds(nodes, self.index@[x] as int, x)
        } by {
            let q = old_self.index@[x] as int;
            let i = choose|i: int|
                0 <= i < old_self.nodes@[q].leafs@.len() && (
                #[trigger] old_self.nodes@[q].leafs@[i]).id == x;
            assert(nodes[q].leafs@[i].id == x);
        }
        assert(self.index@.dom() =~= self.items@.dom());
    }

    /// Inserts the item `id` with box `bb`, or moves it there if the tree already holds it.
    ///
    /// A box outside the world is still stored, at the root, where it is never pushed down.
    pub fn update(&mut self, id: u64, bb: Aabb)
        requires
            old(self).wf(),
            old(self).tidy(),
        ensures
            final(self).wf(),
            final(self).tidy(),
            !old(self).view().contains_key(id) ==> placed_at(
                old(self).spec_nodes(),
                final(self).spec_nodes(),
                old(self).holders(),
                final(self).holders(),
                old(self).spec_branch_size(),
                0,
                bb,
                id,
            ),
            old(self).view().contains_key(id) ==> moved_by_update(
                old(self).spec_nodes(),
                final(self).spec_nodes(),
                old(self).holders(),
                final(self).holders(),
                old(self).spec_branch_size(),
                old(self).holder(id),
                bb,
                id,
            ),
            outside_stays_at_root(old(self).spec_nodes(), final(self).spec_nodes(), bb, final(self).holder(id)),
            boxes_kept(old(self).spec_nodes(), final(self).spec_nodes()),
            final(self).view() == old(self).view().insert(id, bb),
            final(self).spec_branch_size() == old(self).spec_branch_size(),
    {
        let found = match self.index.get(&id) {
            Some(n) => Some(*n),
            None => None,
        };
        match found {
            Some(n) => self.update_at(n, id, bb),
            None => {
                proof {
                    assert(node_shape_ok(self.nodes@, 0));
                    assert(live(self.nodes@, 0));
                }
                self.insert_into(0, id, bb, Ghost(self.nodes@[0].bb.measure()))
            },
        }
    }

    /// Takes the item `id` out of the tree: the item, or `None` when the tree does not hold
    /// `id`.
    pub fn remove(&mut self, id: u64) -> (r: Option<Item>)
        requires
            old(self).wf(),
            old(self).tidy(),
        ensures
            final(self).wf(),
            final(self).tidy(),
            final(self).view() == old(self).view().remove(id),
            final(self).spec_branch_size() == old(self).spec_branch_size(),
            r == removal(old(self).view(), id),
            !old(self).view().contains_key(id) ==> *final(self) == *old(self),
            boxes_kept(old(self).spec_nodes(), final(self).spec_nodes()),
    {
        let found = match self.index.get(&id) {
            Some(n) => Some(*n),
            None => None,
        };
        match found {
            Some(n) => {
                let j = self.nodes[n].find_leaf(id).unwrap();
                let ghost before = self.nodes@;
                proof {
                    assert(no_idle_branch_except(before, Set::empty()));
                }
                let item = self.take_leaf(n, j);
                proof {
                    assert(no_idle_branch_except(self.nodes@, Set::<int>::empty() + up(before, n as int)));
                    assert(up(self.nodes@, n as int) == up(before, n as int));
                    assert(Set::<int>::empty() + up(self.nodes@, n as int) =~= up(self.nodes@, n as int));
                }
                if self.nodes[n].is_empty() {
                    self.try_cleanup_parent(n);
                }
                Some(item)
            },
            None => {
                assert(self.view() =~= self.view().remove(id));
                None
            },
        }
    }
    /// A proper descendant of `n` that hangs from the root lies below one of the children of
    /// `n`: the one at offset `k` of its block.
    proof fn lemma_descendant_in_child(&self, m: int, n: int) -> (k: int)
        requires
            self.wf(),
            0 <= n < m < self.nodes@.len(),
            live(self.nodes@, m),
            descends_from(self.nodes@, m, n),
        ensures
            self.nodes@[n].children is Some,
            0 <= k < 8,
            descends_from(self.nodes@, m, self.nodes@[n].children.unwrap() + k),
        decreases m,
    {
        let nodes = self.nodes@;
        let p = nodes[m].parent.unwrap() as int;
        if p == n {
            let b = nodes[n].children.unwrap() as int;
            m - b
        } else {
            lemma_descends_not_below(nodes, p, n);
            let k = self.lemma_descendant_in_child(p, n);
            k
        }
    }

    /// No node descends from two different children of one node.
    proof fn lemma_siblings_apart(&self, n: int, k1: int, k2: int, q: int)
        requires
            self.wf(),
            0 <= n < self.nodes@.len(),
            self.nodes@[n].children is Some,
            0 <= k1 < 8,
            0 <= k2 < 8,
            k1 != k2,
        ensures
            !(descends_from(self.nodes@, q, self.nodes@[n].children.unwrap() + k1)
                && descends_from(self.nodes@, q, self.nodes@[n].children.unwrap() + k2)),
    {
        let nodes = self.nodes@;
        let b = nodes[n].children.unwrap() as int;
        assert(node_shape_ok(nodes, n));
        if descends_from(nodes, q, b + k1) && descends_from(nodes, q, b + k2) {
            lemma_descends_chain(nodes, q, b + k1, b + k2);
            assert(nodes[b + k1].parent == Some(n as usize));
            assert(nodes[b + k2].parent == Some(n as usize));
            if descends_from(nodes, b + k1, b + k2) {
                lemma_descends_not_below(nodes, n, b + k2);
            } else {
                lemma_descends_not_below(nodes, n, b + k1);
            }
        }
    }

    /// Appends the items of node `n` and of every node below it, depth first: a node's own
    /// items, then the subtrees of its children in octant order.
    fn collect_from(&self, n: usize, out: &mut Vec<Item>)
        requires
            self.wf(),
            n < self.nodes@.len(),
        ensures
            final(out)@ == old(out)@ + preorder(self.nodes@, n as int),
            final(out)@.len() >= old(out)@.len(),
            forall|i: int| 0 <= i < old(out)@.len() ==> final(out)@[i] == old(out)@[i],
            forall|i: int|
                old(out)@.len() <= i < final(out)@.len() ==> {
                    &&& self.index@.contains_key(#[trigger] final(out)@[i].id)
                    &&& descends_from(self.nodes@, self.index@[final(out)@[i].id] as int, n as int)
                    &&& self.items@[final(out)@[i].id] == final(out)@[i].bb
                },
            forall|i: int, k: int|
                old(out)@.len() <= i < final(out)@.len() && old(out)@.len() <= k < final(out)@.len()
                    && (#[trigger] final(out)@[i]).id == (#[trigger] final(out)@[k]).id ==> i == k,
            forall|m: int, j: int|
                0 <= m < self.nodes@.len() && live(self.nodes@, m) && descends_from(
                    self.nodes@,
                    m,
                    n as int,
                ) && 0 <= j < self.nodes@[m].leafs@.len() ==> listed(
                    final(out)@,
                    (#[trigger] self.nodes@[m].leafs@[j]).id,
                ),
        decreases self.nodes@.len() - n,
    {
        let ghost start = out@.len();
        let ghost nodes = self.nodes@;
        proof {
            assert(node_shape_ok(nodes, n as int));
        }
        let leafs = &self.nodes[n].leafs;
        let mut j: usize = 0;
        while j < leafs.len()
            invariant
                self.wf(),
                n < nodes.len(),
                nodes == self.nodes@,
                *leafs == nodes[n as int].leafs,
                j <= leafs@.len(),
                out@ == old(out)@ + leafs@.subrange(0, j as int),
                out@.len() >= start,
                forall|i: int| 0 <= i < start ==> out@[i] == old(out)@[i],
                forall|i: int|
                    start <= i < out@.len() ==> {
                        &&& self.index@.contains_key(#[trigger] out@[i].id)
                        &&& self.index@[out@[i].id] == n
                        &&& exists|jj: int| 0 <= jj < j && leafs@[jj].id == out@[i].id
                        &&& self.items@[out@[i].id] == out@[i].bb
                    },
                forall|i: int, k: int|
                    start <= i < out@.len() && start <= k < out@.len() && (#[trigger] out@[i]).id
                        == (#[trigger] out@[k]).id ==> i == k,
                forall|jj: int| 0 <= jj < j ==> listed(out@, (#[trigger] leafs@[jj]).id),
            decreases leafs@.len() - j,
        {
            let it = leafs[j];
            proof {
                assert(self.leaf_ok(n as int, j as int));
                assert forall|i: int| start <= i < out@.len() implies out@[i].id != it.id by {
                    if out@[i].id == it.id {
                        let jj = choose|jj: int| 0 <= jj < j && leafs@[jj].id == out@[i].id;
                        assert(leafs@[jj].id == leafs@[j as int].id);
                    }
                }
            }
            let ghost before = out@;
            out.push(it);
            proof {
                assert(out@[before.len() as int] == it);
                assert forall|jj: int| 0 <= jj < j + 1 implies listed(
                    out@,
                    (#[trigger] leafs@[jj]).id,
                ) by {
                    if jj == j {
                        assert(out@[before.len() as int].id == leafs@[jj].id);
                    } else {
                        let i = choose|i: int|
                            0 <= i < before.len() && (#[trigger] before[i]).id == leafs@[jj].id;
                        assert(out@[i] == before[i]);
                    }
                }
                assert forall|i: int| start <= i < out@.len() implies {
                    &&& self.index@.contains_key(#[trigger] out@[i].id)
                    &&& self.index@[out@[i].id] == n
                    &&& exists|jj: int| 0 <= jj < j + 1 && leafs@[jj].id == out@[i].id
                    &&& self.items@[out@[i].id] == out@[i].bb
                } by {
                    if i < before.len() {
                        assert(out@[i] == before[i]);
                    } else {
                        assert(leafs@[j as int].id == out@[i].id);
                    }
                }
            }
            proof {
                assert(leafs@.subrange(0, j + 1) =~= leafs@.subrange(0, j as int).push(it));
                assert(out@ =~= old(out)@ + leafs@.subrange(0, j + 1));
            }
            j = j + 1;
        }
        proof {
            assert(leafs@.subrange(0, leafs@.len() as int) =~= leafs@);
        }
        let ghost own_end = out@.len();
        proof {
            assert forall|jj: int| 0 <= jj < leafs@.len() implies listed(
                out@,
                (#[trigger] nodes[n as int].leafs@[jj]).id,
            ) by {
                assert(leafs@[jj] == nodes[n as int].leafs@[jj]);
            }
        }
        if let Some(b) = self.nodes[n].children {
            proof {
                assert(self.nodes.len() == self.nodes@.len());
                assert(out@ + children_preorder(nodes, n as int, b as int, 0) =~= old(out)@
                    + preorder(nodes, n as int));
            }
            let mut k: usize = 0;
            while k < 8
                invariant
                    self.wf(),
                    nodes == self.nodes@,
                    n < b,
                    b + 8 <= nodes.len() <= usize::MAX,
                    nodes[n as int].children == Some(b),
                    k <= 8,
                    out@ + children_preorder(nodes, n as int, b as int, k as int) == old(out)@
                        + preorder(nodes, n as int),
                    start <= own_end <= out@.len(),
                    forall|i: int| 0 <= i < start ==> out@[i] == old(out)@[i],
                    forall|i: int|
                        start <= i < out@.len() ==> {
                            &&& self.index@.contains_key(#[trigger] out@[i].id)
                            &&& descends_from(nodes, self.index@[out@[i].id] as int, n as int)
                            &&& self.items@[out@[i].id] == out@[i].bb
                            &&& (i < own_end <==> self.index@[out@[i].id] == n)
                            &&& (i >= own_end ==> exists|kk: int|
                                0 <= kk < k && #[trigger] descends_from(
                                    nodes,
                                    self.index@[out@[i].id] as int,
                                    b + kk,
                                ))
                        },
                    forall|i: int, q: int|
                        start <= i < out@.len() && start <= q < out@.len() && (#[trigger] out@[i]).id
                            == (#[trigger] out@[q]).id ==> i == q,
                    forall|jj: int|
                        0 <= jj < nodes[n as int].leafs@.len() ==> listed(
                            out@,
                            (#[trigger] nodes[n as int].leafs@[jj]).id,
                        ),
                    forall|m: int, jj: int|
                        0 <= m < nodes.len() && live(nodes, m) && (exists|kk: int|
                            0 <= kk < k && #[trigger] descends_from(nodes, m, b + kk)) && 0 <= jj
                            < nodes[m].leafs@.len() ==> listed(
                            out@,
                            (#[trigger] nodes[m].leafs@[jj]).id,
                        ),
                decreases 8 - k,
            {
                let ghost before = out@;
                proof {
                    assert(node_shape_ok(self.nodes@, n as int));
                    assert(self.nodes@[n as int].children == Some(b));
                    assert(self.nodes@[b + k as int].parent == Some(n));
                    assert(descends_from(nodes, n as int, n as int));
                    assert(descends_from(nodes, b + k as int, n as int));
                }
                self.collect_from(b + k, out);
                proof {
                    assert(children_preorder(nodes, n as int, b as int, k as int) == preorder(
                        nodes,
                        b + k as int,
                    ) + children_preorder(nodes, n as int, b as int, k + 1));
                    assert(out@ + children_preorder(nodes, n as int, b as int, k + 1) =~= old(out)@
                        + preorder(nodes, n as int));
                    assert forall|i: int| 0 <= i < before.len() implies listed(out@, #[trigger] before[i].id) by {
                        assert(out@[i] == before[i]);
                    }
                    assert forall|i: int| start <= i < out@.len() implies {
                        &&& self.index@.contains_key(#[trigger] out@[i].id)
                        &&& descends_from(nodes, self.index@[out@[i].id] as int, n as int)
                        &&& self.items@[out@[i].id] == out@[i].bb
                        &&& (i < own_end <==> self.index@[out@[i].id] == n)
                        &&& (i >= own_end ==> exists|kk: int|
                            0 <= kk < k + 1 && #[trigger] descends_from(
                                nodes,
                                self.index@[out@[i].id] as int,
                                b + kk,
                            ))
                    } by {
                        if i < before.len() {
                            assert(out@[i] == before[i]);
                        } else {
                            let q = self.index@[out@[i].id] as int;
                            assert(descends_from(nodes, q, b + k as int));
                            lemma_descends_not_below(nodes, q, b + k as int);
                            assert(descends_from(nodes, b + k as int, n as int));
                            lemma_descends_transitive(nodes, q, b + k as int, n as int);
                        }
                    }
                    assert forall|i: int, q: int|
                        start <= i < out@.len() && start <= q < out@.len() && (#[trigger] out@[i]).id
                            == (#[trigger] out@[q]).id implies i == q by {
                        if i < before.len() && q >= before.len() {
                            let x = self.index@[out@[q].id] as int;
                            assert(out@[i] == before[i]);
                            lemma_descends_not_below(nodes, x, b + k as int);
                            if i >= own_end {
                                let kk = choose|kk: int|
                                    0 <= kk < k && #[trigger] descends_from(nodes, x, b + kk);
                                self.lemma_siblings_apart(n as int, kk, k as int, x);
                            }
                        } else if q < before.len() && i >= before.len() {
                            let x = self.index@[out@[i].id] as int;
                            assert(out@[q] == before[q]);
                            lemma_descends_not_below(nodes, x, b + k as int);
                            if q >= own_end {
                                let kk = choose|kk: int|
                                    0 <= kk < k && #[trigger] descends_from(nodes, x, b + kk);
                                self.lemma_siblings_apart(n as int, kk, k as int, x);
                            }
                        } else if i < before.len() && q < before.len() {
                            assert(out@[i] == before[i]);
                            assert(out@[q] == before[q]);
                        }
                    }
                    assert forall|m: int, jj: int|
                        0 <= m < nodes.len() && live(nodes, m) && (exists|kk: int|
                            0 <= kk < k + 1 && #[trigger] descends_from(nodes, m, b + kk)) && 0 <= jj
                            < nodes[m].leafs@.len() implies listed(
                        out@,
                        (#[trigger] nodes[m].leafs@[jj]).id,
                    ) by {
                        if !descends_from(nodes, m, b + k as int) {
                            assert(listed(before, nodes[m].leafs@[jj].id));
                            let i = choose|i: int|
                                0 <= i < before.len() && (#[trigger] before[i]).id
                                    == nodes[m].leafs@[jj].id;
                            assert(out@[i] == before[i]);
                        }
                    }
                    assert forall|jj: int| 0 <= jj < nodes[n as int].leafs@.len() implies listed(
                        out@,
                        (#[trigger] nodes[n as int].leafs@[jj]).id,
                    ) by {
                        let i = choose|i: int|
                            0 <= i < before.len() && (#[trigger] before[i]).id
                                == nodes[n as int].leafs@[jj].id;
                        assert(out@[i] == before[i]);
                    }
                }
                k = k + 1;
            }
            proof {
                assert forall|m: int, jj: int|
                    0 <= m < nodes.len() && live(nodes, m) && descends_from(nodes, m, n as int) && 0
                        <= jj < nodes[m].leafs@.len() implies listed(
                    out@,
                    (#[trigger] nodes[m].leafs@[jj]).id,
                ) by {
                    if m != n {
                        lemma_descends_not_below(nodes, m, n as int);
                        let kk = self.lemma_descendant_in_child(m, n as int);
                    }
                }
            }
            proof {
                assert(children_preorder(nodes, n as int, b as int, 8) =~= Seq::<Item>::empty());
                assert(out@ =~= old(out)@ + preorder(nodes, n as int));
            }
        } else {
            proof {
                assert(out@ =~= old(out)@ + preorder(nodes, n as int));
                assert forall|m: int, jj: int|
                    0 <= m < nodes.len() && live(nodes, m) && descends_from(nodes, m, n as int) && 0
                        <= jj < nodes[m].leafs@.len() implies listed(
                    out@,
                    (#[trigger] nodes[m].leafs@[jj]).id,
                ) by {
                    if m != n {
                        lemma_descends_not_below(nodes, m, n as int);
                        let kk = self.lemma_descendant_in_child(m, n as int);
                    }
                }
                assert forall|i: int| start <= i < out@.len() implies descends_from(
                    nodes,
                    self.index@[(#[trigger] out@[i]).id] as int,
                    n as int,
                ) by {}
            }
        }
    }

    /// Every stored item, each once, with its current box, depth first from the root: a
    /// node's own items come before the subtrees of its children, taken in octant order.
    pub fn iterate_all(&self) -> (r: Vec<Item>)
        requires
            self.wf(),
        ensures
            lists_exactly(r@, self.view()),
            r@ == preorder(self.spec_nodes(), 0),
    {
        let mut r: Vec<Item> = Vec::new();
        proof {
            assert(node_shape_ok(self.nodes@, 0));
        }
        self.collect_from(0, &mut r);
        proof {
            assert forall|id: u64| #[trigger] self.items@.contains_key(id) implies exists|i: int|
                0 <= i < r@.len() && (#[trigger] r@[i]).id == id by {
                assert(self.index@.contains_key(id));
                let q = self.index@[id] as int;
                let j = choose|j: int|
                    0 <= j < self.nodes@[q].leafs@.len() && (
                    #[trigger] self.nodes@[q].leafs@[j]).id == id;
                assert(hangs(self.nodes@, q));
                lemma_live_descends_from_root(self.nodes@, q);
                assert(listed(r@, self.nodes@[q].leafs@[j].id));
            }
        }
        r
    }

    /// Number of node slots in the arena.
    pub fn node_count(&self) -> (r: usize)
        ensures
            r == self.spec_nodes().len(),
    {
        self.nodes.len()
    }

    /// The node in slot `n` of the arena.
    pub fn node(&self, n: usize) -> (r: &Node)
        requires
            n < self.spec_nodes().len(),
        ensures
            *r == self.spec_nodes()[n as int],
    {
        &self.nodes[n]
    }

    proof fn lemma_links_consistent(&self)
        requires
            self.wf(),
        ensures
            links_consistent(self.nodes@),
    {
        let nodes = self.nodes@;
        assert(nodes.len() == self.nodes.len());
        assert forall|q: int| 0 <= q < nodes.len() implies ((#[trigger] nodes[q]).children matches Some(
            b,
        ) ==> b + 8 <= nodes.len()) by {
            assert(node_shape_ok(nodes, q));
        }
        assert forall|q: int, k: int|
            0 <= q < nodes.len() && 0 <= k < 8 && (#[trigger] nodes[q]).children is Some implies (
            #[trigger] nodes[nodes[q].children.unwrap() + k]).parent == Some(q as usize) by {
            assert(node_shape_ok(nodes, q));
        }
    }

    /// Below a node that hangs from the root and is not empty lies some stored item.
    pub proof fn lemma_item_below(&self, n: int)
        requires
            self.wf(),
            self.tidy(),
            0 <= n < self.spec_nodes().len(),
            live(self.spec_nodes(), n),
            !self.spec_nodes()[n].spec_is_empty(),
        ensures
            exists|id: u64| #[trigger] self.view().contains_key(id),
        decreases self.spec_nodes().len() - n,
    {
        let nodes = self.nodes@;
        assert(node_shape_ok(nodes, n));
        if nodes[n].leafs@.len() > 0 {
            assert(self.leaf_ok(n, 0));
            assert(self.view().contains_key(nodes[n].leafs@[0].id));
        } else {
            let b = nodes[n].children.unwrap() as int;
            assert(busy(nodes, n));
            let k = choose|k: int| 0 <= k < 8 && !(#[trigger] nodes[b + k]).spec_is_empty();
            assert(nodes[b + k].parent == Some(n as usize));
            assert(live(nodes, b + k));
            self.lemma_item_below(b + k);
        }
    }

    /// The sorting of a divided node's items survives an insertion below one of its children,
    /// which leaves the node itself alone and only moves items further down.
    proof fn lemma_sorted_kept(
        &self,
        on: Seq<Node>,
        oi: Map<u64, usize>,
        mn: Seq<Node>,
        mi: Map<u64, usize>,
        n: int,
    )
        requires
            self.wf(),
            0 <= n < mn.len() <= self.nodes@.len(),
            self.nodes@[n] == mn[n],
            sorted_out(on, mn, oi, mi, n),
            forall|x: u64| #[trigger]
                mi.contains_key(x) ==> self.index@.contains_key(x) && descends_from(
                    self.nodes@,
                    self.index@[x] as int,
                    mi[x] as int,
                ),
            forall|x: u64| #[trigger] oi.contains_key(x) ==> mi.contains_key(x),
            forall|x: u64| #[trigger] mi.contains_key(x) ==> mi[x] < mn.len(),
            forall|j: int| 0 <= j < on[n].leafs@.len() ==> oi.contains_key((#[trigger] on[n].leafs@[j]).id),
            forall|q: int| 0 <= q < mn.len() ==> (#[trigger] self.nodes@[q]).parent == mn[q].parent,
        ensures
            sorted_out(on, self.nodes@, oi, self.index@, n),
    {
        let fin = self.nodes@;
        let ol = on[n].leafs@;
        assert forall|j: int|
            0 <= j < ol.len() && (#[trigger] on[n].bb.spec_select(ol[j].bb)) is None implies {
            &&& self.index@[ol[j].id] == n
            &&& item_in(fin[n].leafs@, ol[j])
        } by {
            let bi = choose|bi: int| 0 <= bi < mn[n].leafs@.len() && mn[n].leafs@[bi] == ol[j];
            assert(fin[n].leafs@[bi].id == ol[j].id);
            self.lemma_index_of_holder(n, ol[j].id);
        }
        assert forall|j: int|
            0 <= j < ol.len() && (#[trigger] on[n].bb.spec_select(ol[j].bb)) is Some implies descends_from(
            fin,
            self.index@[ol[j].id] as int,
            fin[n].children.unwrap() + on[n].bb.spec_select(ol[j].bb).unwrap(),
        ) by {
            let x = ol[j].id;
            let t = fin[n].children.unwrap() + on[n].bb.spec_select(ol[j].bb).unwrap();
            assert(oi.contains_key(x));
            assert(descends_from(mn, mi[x] as int, t));
            lemma_descends_keep(mn, fin, mi[x] as int, t);
            lemma_descends_transitive(fin, self.index@[x] as int, mi[x] as int, t);
        }
    }

    /// The node that holds an item is the one the index names for it.
    proof fn lemma_index_of_holder(&self, q: int, x: u64)
        requires
            self.wf(),
            0 <= q < self.nodes@.len(),
            Self::node_holds(self.nodes@, q, x),
        ensures
            self.index@.contains_key(x),
            self.index@[x] as int == q,
    {
        let j = choose|j: int|
            0 <= j < self.nodes@[q].leafs@.len() && (#[trigger] self.nodes@[q].leafs@[j]).id == x;
        assert(self.leaf_ok(q, j));
    }

    /// A node that hangs from the root and is not empty keeps its parent busy.
    proof fn lemma_parent_busy(&self, n: int, xs: Set<int>)
        requires
            self.wf(),
            0 <= n < self.nodes@.len(),
            live(self.nodes@, n),
            !self.nodes@[n].spec_is_empty(),
            no_idle_branch_except(self.nodes@, xs + up(self.nodes@, n)),
        ensures
            no_idle_branch_except(self.nodes@, xs),
    {
        let nodes = self.nodes@;
        if n == 0 {
            assert(node_shape_ok(nodes, 0));
            assert(xs + up(nodes, n) =~= xs);
        } else {
            let q = nodes[n].parent.unwrap() as int;
            assert(up(nodes, n) =~= set![q]);
            let b = nodes[q].children.unwrap() as int;
            assert(!block_empty(nodes, b)) by {
                assert(!nodes[b + (n - b)].spec_is_empty());
            }
            assert(busy(nodes, q));
            self.lemma_drop_busy_exception(q, xs);
        }
    }

    /// A branch that is busy, or a node that is no branch, need not be excused.
    proof fn lemma_drop_busy_exception(&self, p: int, xs: Set<int>)
        requires
            0 <= p < self.nodes@.len(),
            busy(self.nodes@, p),
            no_idle_branch_except(self.nodes@, xs.insert(p)) || no_idle_branch_except(
                self.nodes@,
                xs + set![p],
            ),
        ensures
            no_idle_branch_except(self.nodes@, xs),
    {
        assert(xs.insert(p) =~= xs + set![p]);
        assert forall|q: int| 0 <= q < self.nodes@.len() && live(self.nodes@, q) && !xs.contains(q) implies #[trigger] busy(
            self.nodes@,
            q,
        ) by {
            if q != p {
                assert(!xs.insert(p).contains(q));
            }
        }
    }

    /// A tidy tree meets the precondition of `downgrade_to_leaf_if_children_empty` at any node.
    pub proof fn lemma_tidy_excusing(&self, p: int)
        requires
            self.tidy(),
        ensures
            no_idle_branch_except(self.spec_nodes(), set![p]),
    {
        assert forall|q: int|
            0 <= q < self.nodes@.len() && live(self.nodes@, q) && !set![p].contains(q) implies #[trigger] busy(
            self.nodes@,
            q,
        ) by {
            assert(!Set::<int>::empty().contains(q));
        }
    }

    /// Each stored item sits among the own items of its holder, with its box; the holders name
    /// exactly the stored items.
    pub proof fn lemma_holder_holds(&self, id: u64)
        requires
            self.wf(),
            self.view().contains_key(id),
        ensures
            self.holders().dom() == self.view().dom(),
            self.holders().contains_key(id),
            0 <= self.holder(id) < self.spec_nodes().len(),
            item_in(self.spec_nodes()[self.holder(id)].leafs@, Item { bb: self.view()[id], id }),
    {
        let q = self.index@[id] as int;
        let j = choose|j: int|
            0 <= j < self.nodes@[q].leafs@.len() && (#[trigger] self.nodes@[q].leafs@[j]).id == id;
        assert(self.leaf_ok(q, j));
        assert(self.nodes@[q].leafs@[j] == Item { bb: self.view()[id], id });
    }

    /// Every node's box lies inside the world, the box of the root.
    pub proof fn lemma_in_world(&self, n: int)
        requires
            self.wf(),
            0 <= n < self.spec_nodes().len(),
        ensures
            self.spec_nodes()[0].bb.spec_contains(self.spec_nodes()[n].bb),
        decreases n,
    {
        let nodes = self.nodes@;
        assert(node_shape_ok(nodes, n));
        if n > 0 {
            let p = nodes[n].parent.unwrap() as int;
            self.lemma_in_world(p);
        }
    }

    /// Below a node that hangs from the root and is not empty lies the holder of some stored
    /// item.
    proof fn lemma_holder_below(&self, n: int) -> (id: u64)
        requires
            self.wf(),
            self.tidy(),
            0 <= n < self.nodes@.len(),
            live(self.nodes@, n),
            !self.nodes@[n].spec_is_empty(),
        ensures
            self.view().contains_key(id),
            descends_from(self.nodes@, self.index@[id] as int, n),
        decreases self.nodes@.len() - n,
    {
        let nodes = self.nodes@;
        assert(node_shape_ok(nodes, n));
        if nodes[n].leafs@.len() > 0 {
            assert(self.leaf_ok(n, 0));
            nodes[n].leafs@[0].id
        } else {
            let b = nodes[n].children.unwrap() as int;
            assert(busy(nodes, n));
            let k = choose|k: int| 0 <= k < 8 && !(#[trigger] nodes[b + k]).spec_is_empty();
            assert(nodes[b + k].parent == Some(n as usize));
            assert(live(nodes, b + k));
            let id = self.lemma_holder_below(b + k);
            assert(descends_from(nodes, n, n));
            assert(descends_from(nodes, b + k, n));
            lemma_descends_transitive(nodes, self.index@[id] as int, b + k, n);
            id
        }
    }

    /// A tidy tree whose stored items are all held by the root has a leaf for its root.
    pub proof fn lemma_root_leaf_when_all_at_root(&self)
        requires
            self.wf(),
            self.tidy(),
            forall|x: u64| #[trigger] self.view().contains_key(x) ==> self.holder(x) == 0,
        ensures
            self.spec_nodes()[0].children is None,
    {
        let nodes = self.nodes@;
        assert(node_shape_ok(nodes, 0));
        if nodes[0].children is Some {
            assert(busy(nodes, 0));
            let b = nodes[0].children.unwrap() as int;
            let k = choose|k: int| 0 <= k < 8 && !(#[trigger] nodes[b + k]).spec_is_empty();
            assert(nodes[b + k].parent == Some(0usize));
            assert(live(nodes, 0));
            assert(live(nodes, b + k));
            let id = self.lemma_holder_below(b + k);
            assert(self.holder(id) == 0);
            lemma_descends_not_below(nodes, 0, b + k);
        }
    }

    /// A well-formed tree has its root in slot 0.
    pub proof fn lemma_has_root(&self)
        requires
            self.wf(),
        ensures
            self.spec_nodes().len() >= 1,
    {
    }

    /// The shape facts of the well-formed tree, node by node.
    pub proof fn lemma_node_shape(&self, n: int)
        requires
            self.wf(),
            0 <= n < self.spec_nodes().len(),
        ensures
            node_shape_ok(self.spec_nodes(), n),
            1 <= self.spec_nodes().len() <= usize::MAX,
    {
        assert(self.nodes@.len() == self.nodes.len());
    }

    /// The box of a node lies inside the box of each of its ancestors.
    pub proof fn lemma_box_within_ancestor(&self, m: int, a: int)
        requires
            self.wf(),
            0 <= m < self.spec_nodes().len(),
            0 <= a < self.spec_nodes().len(),
            descends_from(self.spec_nodes(), m, a),
        ensures
            self.spec_nodes()[a].bb.spec_contains(self.spec_nodes()[m].bb),
        decreases m,
    {
        let nodes = self.nodes@;
        assert(node_shape_ok(nodes, m));
        if m != a {
            let p = nodes[m].parent.unwrap() as int;
            assert(node_shape_ok(nodes, p));
            self.lemma_box_within_ancestor(p, a);
        }
    }

    /// Every own item of every node is an entry of the content, with the same box.
    pub proof fn lemma_leaf_stored(&self, n: int, j: int)
        requires
            self.wf(),
            0 <= n < self.spec_nodes().len(),
            0 <= j < self.spec_nodes()[n].leafs@.len(),
        ensures
            self.view().contains_key(self.spec_nodes()[n].leafs@[j].id),
            self.view()[self.spec_nodes()[n].leafs@[j].id] == self.spec_nodes()[n].leafs@[j].bb,
            n != 0 ==> self.spec_nodes()[n].bb.spec_contains(self.spec_nodes()[n].leafs@[j].bb),
    {
        assert(self.leaf_ok(n, j));
    }
}

} // verus!
