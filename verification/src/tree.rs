//! The tree of `tree_ds` in which processes hang under their parents, and
//! what the library reads of it.

use vstd::prelude::*;
use tree_ds::prelude::{Node, Tree};

verus! {

#[verifier::external_type_specification]
#[verifier::external_body]
#[verifier::reject_recursive_types(Q)]
#[verifier::reject_recursive_types(T)]
pub struct ExTree<Q, T>(Tree<Q, T>) where
    Q: PartialEq + Eq + Clone,
    T: PartialEq + Eq + Clone,
;

/// One node of a tree as the tree holds it: its id, the id of its parent and
/// the ids of its children in the order in which they were added.
pub type TreeNode = (u32, Option<u32>, Seq<u32>);

/// The nodes that a tree holds, in the order in which they were added.
pub uninterp spec fn tree_nodes(t: Tree<u32, ()>) -> Seq<(u32, Option<u32>, Seq<u32>)>;

/// Whether each node of the tree is a handle of its own: none stands at two
/// positions of the tree or in another tree. A node of `tree_ds` is a shared
/// handle, so a change made through one place shows at every place that holds
/// it.
pub uninterp spec fn tree_unshared(t: Tree<u32, ()>) -> bool;

/// The message of an error of `tree_ds`.
#[derive(Debug)]
pub struct TreeError {
    pub message: String,
}

/// The position at which `id` first occurs among `nodes`.
pub open spec fn first_position(nodes: Seq<TreeNode>, id: u32, i: int) -> bool {
    &&& 0 <= i < nodes.len()
    &&& nodes[i].0 == id
    &&& forall|j: int| 0 <= j < i ==> nodes[j].0 != id
}

/// Whether a node with `id` occurs among `nodes`.
pub open spec fn has_node(nodes: Seq<TreeNode>, id: u32) -> bool {
    exists|i: int| 0 <= i < nodes.len() && nodes[i].0 == id
}

/// The position of the first node with `id`, where the tree holds one.
pub open spec fn node_pos(t: Seq<TreeNode>, id: u32) -> int {
    choose|j: int| first_position(t, id, j)
}

/// An id has one first position.
pub(crate) proof fn lemma_first_position_unique(t: Seq<TreeNode>, id: u32, a: int, b: int)
    requires
        first_position(t, id, a),
        first_position(t, id, b),
    ensures
        a == b,
{
    if a < b {
        assert(t[a].0 == id);
    } else if b < a {
        assert(t[b].0 == id);
    }
}

/// The first node with an id stands at that id's position.
pub(crate) proof fn lemma_first_pos(t: Seq<TreeNode>, id: u32, i: int)
    requires
        first_position(t, id, i),
    ensures
        node_pos(t, id) == i,
{
    lemma_first_position_unique(t, id, node_pos(t, id), i);
}

/// An id that the tree holds has a first node, at the id's position.
pub broadcast proof fn lemma_node_pos_found(t: Seq<TreeNode>, id: u32)
    requires
        has_node(t, id),
    ensures
        first_position(t, id, #[trigger] node_pos(t, id)),
        0 <= node_pos(t, id) < t.len(),
        t[node_pos(t, id)].0 == id,
{
    let i = choose|i: int| 0 <= i < t.len() && t[i].0 == id;
    lemma_earliest(t, id, i);
}

/// Below any node with an id there is a first one.
proof fn lemma_earliest(t: Seq<TreeNode>, id: u32, i: int)
    requires
        0 <= i < t.len(),
        t[i].0 == id,
    ensures
        exists|j: int| first_position(t, id, j),
    decreases i,
{
    if exists|j: int| 0 <= j < i && t[j].0 == id {
        let j = choose|j: int| 0 <= j < i && t[j].0 == id;
        lemma_earliest(t, id, j);
    } else {
        assert(first_position(t, id, i));
    }
}

/// Whether some node among `nodes` has no parent.
pub open spec fn has_root(nodes: Seq<TreeNode>) -> bool {
    exists|i: int| 0 <= i < nodes.len() && nodes[i].1 is None
}

/// `Tree::new`: a tree with the given name and no nodes, which shares no
/// node.
#[verifier::external_body]
pub(crate) fn new_tree(name: Option<&str>) -> (t: Tree<u32, ()>)
    ensures
        tree_nodes(t) == Seq::<TreeNode>::empty(),
        tree_unshared(t),
{
    Tree::new(name)
}

/// `Tree::add_node`, called with a new node `Node::new(id, None)`.
///
/// With a parent id, the node is added under the first node that has that
/// id: that node's children get `id` at their end and the new node, with
/// that parent, is pushed after all nodes; where no node has that id, the
/// tree is left as it was and an error comes back. With no parent id, the
/// node is pushed as a root, unless some node of the tree already has no
/// parent, in which case the tree is left as it was and an error comes back.
/// On success the id of the new node comes back. The new node is a handle of
/// its own, so a tree that shares no node still shares none; on a tree that
/// does, the parent's children would change at every place that holds it,
/// which is why such a tree is left out.
#[verifier::external_body]
pub(crate) fn add_node(tree: &mut Tree<u32, ()>, id: u32, parent: Option<u32>) -> (r: Result<
    u32,
    TreeError,
>)
    requires
        tree_unshared(*old(tree)),
    ensures
        tree_unshared(*final(tree)),
        ({
            let before = tree_nodes(*old(tree));
            let after = tree_nodes(*final(tree));
            match parent {
                Some(p) => if has_node(before, p) {
                    r == Ok::<u32, TreeError>(id) && exists|i: int|
                        #![trigger before[i]]
                        first_position(before, p, i) && after == before.update(
                            i,
                            (before[i].0, before[i].1, before[i].2.push(id)),
                        ).push((id, Some(p), Seq::<u32>::empty()))
                } else {
                    r is Err && after == before
                },
                None => if has_root(before) {
                    r is Err && after == before
                } else {
                    r == Ok::<u32, TreeError>(id) && after == before.push(
                        (id, None, Seq::<u32>::empty()),
                    )
                },
            }
        }),
{
    tree.add_node(Node::new(id, None), parent.as_ref()).map_err(
        |e| TreeError { message: e.to_string() },
    )
}

/// `Tree::get_node_by_id` followed by `Node::get_children_ids` on the node
/// found: the ids of the children of the first node with `id`, in the order
/// in which they were added, or nothing where no node has `id`.
///
/// The node is read at once and not kept, so what comes back is the node as
/// the tree holds it at the call. `get_children_ids` always succeeds.
#[verifier::external_body]
pub(crate) fn children_of(tree: &Tree<u32, ()>, id: u32) -> (r: Option<Vec<u32>>)
    ensures
        match r {
            Some(v) => exists|i: int|
                #![trigger tree_nodes(*tree)[i]]
                first_position(tree_nodes(*tree), id, i) && v@ == tree_nodes(*tree)[i].2,
            None => !has_node(tree_nodes(*tree), id),
        },
{
    match tree.get_node_by_id(&id) {
        Some(node) => node.get_children_ids().ok(),
        None => None,
    }
}

} // verus!
