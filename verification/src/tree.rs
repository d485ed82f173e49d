//! A generic arena-backed tree: every node lives in one flat, append-only
//! vector and refers to its parent and children by index.

use vstd::prelude::*;

verus! {

/// Error returned when a requested node does not exist in the tree.
#[derive(Debug)]
pub struct NodeDoesNotExist {}

/// A tree with nodes of type `Node<T>` all stored in the same vector.
#[derive(Debug)]
pub struct ArenaTree<T>
    where T: PartialEq,
{
    pub arena: Vec<Node<T>>,
}

/// A node in an `ArenaTree<T>`.
#[derive(Debug)]
pub struct Node<T>
    where T: PartialEq,
{
    pub idx: usize,
    /// Arbitrary value of type `T` held by the node.
    pub value: T,
    pub parent: Option<usize>,
    pub children: Vec<usize>,
}

/// The mathematical model of a node: its links as plain values.
pub ghost struct NodeModel<T> {
    pub idx: usize,
    pub value: T,
    pub parent: Option<usize>,
    pub children: Seq<usize>,
}

impl<T: PartialEq> View for Node<T> {
    type V = NodeModel<T>;

    open spec fn view(&self) -> NodeModel<T> {
        NodeModel {
            idx: self.idx,
            value: self.value,
            parent: self.parent,
            children: self.children@,
        }
    }
}

/// The model of a whole arena: the models of its nodes, in order.
pub open spec fn arena_model<T: PartialEq>(nodes: Seq<Node<T>>) -> Seq<NodeModel<T>> {
    Seq::new(nodes.len(), |i: int| nodes[i]@)
}

/// What appending a fresh node does to the arena model.
pub open spec fn arena_add<T: PartialEq>(s: Seq<NodeModel<T>>, value: T) -> Seq<NodeModel<T>> {
    s.push(NodeModel {
        idx: s.len() as usize,
        value,
        parent: None,
        children: Seq::empty(),
    })
}

/// What registering `child` under `parent` does to the arena model:
/// the child's parent pointer is set, and the child is appended to the
/// parent's child list unless it is already there.
pub open spec fn arena_register<T: PartialEq>(
    s: Seq<NodeModel<T>>,
    child: usize,
    parent: usize,
) -> Seq<NodeModel<T>> {
    let s1 = s.update(child as int, (NodeModel { parent: Some(parent), ..s[child as int] }));
    if s1[parent as int].children.contains(child) {
        s1
    } else {
        s1.update(
            parent as int,
            (NodeModel { children: s1[parent as int].children.push(child), ..s1[parent as int] }),
        )
    }
}

impl<T: PartialEq> Default for ArenaTree<T> {
    /// An empty tree.
    fn default() -> (t: ArenaTree<T>)
        ensures
            t.arena@.len() == 0,
    {
        ArenaTree::new()
    }
}

impl<T: PartialEq> Node<T> {
    fn new(idx: usize, value: T) -> (n: Node<T>)
        ensures
            n@ == (NodeModel { idx, value, parent: None::<usize>, children: Seq::<usize>::empty() }),
    {
        let n = Node { idx, value, parent: None, children: Vec::new() };
        proof {
            assert(n@.children =~= Seq::<usize>::empty());
        }
        n
    }

    /// Get the index of the node.
    pub fn idx(&self) -> (r: usize)
        ensures
            r == self.idx,
    {
        self.idx
    }

    /// Get the index of the parent node, or `None` for a root.
    pub fn parent(&self) -> (r: Option<usize>)
        ensures
            r == self.parent,
    {
        self.parent
    }

    /// Get the indices of the children, in registration order.
    pub fn children(&self) -> (r: &Vec<usize>)
        ensures
            r@ == self.children@,
    {
        &self.children
    }
}

impl<T: PartialEq> ArenaTree<T> {
    /// Initialize a new tree with zero nodes.
    pub fn new() -> (t: ArenaTree<T>)
        ensures
            t.arena@.len() == 0,
    {
        ArenaTree { arena: Vec::new() }
    }

    /// Get the number of nodes in the tree.
    pub fn len(&self) -> (r: usize)
        ensures
            r == self.arena@.len(),
    {
        self.arena.len()
    }

    /// Get the node at index `idx`, or an error if no such node exists.
    pub fn get_node(&self, idx: usize) -> (r: Result<&Node<T>, NodeDoesNotExist>)
        ensures
            idx < self.arena@.len() ==> (r matches Ok(n) && *n == self.arena@[idx as int]),
            idx >= self.arena@.len() ==> r is Err,
    {
        let n_nodes = self.arena.len();
        if idx >= n_nodes {
            return Err(NodeDoesNotExist {});
        }
        Ok(&self.arena[idx])
    }

    /// Add a node holding `value` and get its index back; the index is the
    /// number of nodes the tree held before the call.
    pub fn add_node(&mut self, value: T) -> (idx: usize)
        ensures
            idx == old(self).arena@.len(),
            arena_model(final(self).arena@) == arena_add(arena_model(old(self).arena@), value),
    {
        let idx = self.arena.len();
        self.arena.push(Node::new(idx, value));
        proof {
            assert(arena_model(self.arena@) =~= arena_add(arena_model(old(self).arena@), value));
        }
        idx
    }

    /// Register the node at `child_idx` as a child of the node at `parent_idx`,
    /// and vice versa; registering an existing link again changes nothing.
    /// Fails if either index does not exist in the tree.
    pub fn register_parent_node(&mut self, child_idx: usize, parent_idx: usize) -> (r: Result<
        (),
        NodeDoesNotExist,
    >)
        ensures
            r is Ok <==> (child_idx < old(self).arena@.len() && parent_idx < old(
                self,
            ).arena@.len()),
            r is Err ==> final(self).arena@ == old(self).arena@,
            r is Ok ==> arena_model(final(self).arena@) == arena_register(
                arena_model(old(self).arena@),
                child_idx,
                parent_idx,
            ),
    {
        let n_nodes = self.arena.len();
        if child_idx >= n_nodes || parent_idx >= n_nodes {
            return Err(NodeDoesNotExist {});
        }
        let ghost s = arena_model(self.arena@);
        let child_ref = &mut self.arena[child_idx];
        child_ref.parent = Some(parent_idx);
        proof {
            assert(arena_model(self.arena@) =~= s.update(
                child_idx as int,
                (NodeModel { parent: Some(parent_idx), ..s[child_idx as int] }),
            ));
        }
        let ghost s1 = arena_model(self.arena@);
        if !contains_index(&self.arena[parent_idx].children, child_idx) {
            let parent_ref = &mut self.arena[parent_idx];
            parent_ref.children.push(child_idx);
            proof {
                assert(arena_model(self.arena@) =~= s1.update(
                    parent_idx as int,
                    (NodeModel {
                        children: s1[parent_idx as int].children.push(child_idx),
                        ..s1[parent_idx as int]
                    }),
                ));
            }
        }
        Ok(())
    }

    /// Add a node holding `value` as a child of the node at `parent_idx` and
    /// get its index back. Fails if `parent_idx` does not exist.
    pub fn add_child_node(&mut self, parent_idx: usize, value: T) -> (r: Result<
        usize,
        NodeDoesNotExist,
    >)
        ensures
            r is Ok <==> parent_idx < old(self).arena@.len(),
            r is Err ==> final(self).arena@ == old(self).arena@,
            r is Ok ==> (r matches Ok(idx) && idx == old(self).arena@.len() && arena_model(
                final(self).arena@,
            ) == arena_register(
                arena_add(arena_model(old(self).arena@), value),
                old(self).arena@.len() as usize,
                parent_idx,
            )),
    {
        let n_nodes = self.arena.len();
        if parent_idx >= n_nodes {
            return Err(NodeDoesNotExist {});
        }
        let child_idx = self.add_node(value);
        assert(self.arena@.len() == old(self).arena@.len() + 1) by {
            assert(arena_model(self.arena@).len() == self.arena@.len());
        }
        match self.register_parent_node(child_idx, parent_idx) {
            Ok(()) => Ok(child_idx),
            Err(e) => Err(e),
        }
    }
}

/// Whether `v` holds `x`, by a plain scan.
fn contains_index(v: &Vec<usize>, x: usize) -> (r: bool)
    ensures
        r == v@.contains(x),
{
    let n = v.len();
    let mut i: usize = 0;
    while i < n
        invariant
            n == v@.len(),
            0 <= i <= n,
            forall|j: int| 0 <= j < i ==> v@[j] != x,
        decreases n - i,
    {
        if v[i] == x {
            assert(v@.contains(x));
            return true;
        }
        i += 1;
    }
    assert(!v@.contains(x));
    false
}

} // verus!
