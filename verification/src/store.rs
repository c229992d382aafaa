//! The node store: value nodes held in the order they were added, each
//! naming its direct dependencies by index.

use vstd::prelude::*;

verus! {

/// The position of a node in its store.
pub type NodeIndex = usize;

/// One value of the computation graph.
#[derive(Debug, Clone, PartialEq, Eq)]
pub struct ValueNode {
    /// The node's scalar, written with four decimals.
    pub data: String,
    /// The operation that produced the value; `None` for an input.
    pub operation: Option<String>,
    /// The nodes this value was computed from, in argument order.
    pub dependencies: Vec<NodeIndex>,
}

/// What a [`ValueNode`] is in specifications.
pub ghost struct NodeModel {
    pub data: Seq<char>,
    pub operation: Option<Seq<char>>,
    pub dependencies: Seq<NodeIndex>,
}

impl View for ValueNode {
    type V = NodeModel;

    open spec fn view(&self) -> NodeModel {
        NodeModel {
            data: self.data@,
            operation: match self.operation {
                Some(label) => Some(label@),
                None => None,
            },
            dependencies: self.dependencies@,
        }
    }
}

/// Every dependency of every node is an index into `nodes`.
pub open spec fn well_formed(nodes: Seq<NodeModel>) -> bool {
    forall|i: int, j: int|
        0 <= i < nodes.len() && 0 <= j < nodes[i].dependencies.len() ==> (
        #[trigger] nodes[i].dependencies[j]) < nodes.len()
}

/// Why a node was refused.
#[derive(Debug, Clone, Copy, PartialEq, Eq, Structural)]
pub enum StoreError {
    /// A dependency names no node of the store: `index` at `position` of
    /// the dependency list of node `node`.
    InvalidDependency { node: NodeIndex, position: usize, index: NodeIndex },
}

/// Every index in `dependencies` is below `limit`.
pub open spec fn all_below(dependencies: Seq<NodeIndex>, limit: int) -> bool {
    forall|j: int| 0 <= j < dependencies.len() ==> dependencies[j] < limit
}

/// `position` is the first place of `dependencies` that holds an index of
/// `limit` or more.
pub open spec fn first_invalid_at(dependencies: Seq<NodeIndex>, limit: int, position: int) -> bool {
    &&& 0 <= position < dependencies.len()
    &&& dependencies[position] >= limit
    &&& all_below(dependencies.take(position), limit)
}

/// Checks a dependency list against a store of `limit` nodes: the first
/// position that names no node, or `None` when every index is valid.
pub fn check_dependencies(dependencies: &Vec<NodeIndex>, limit: usize) -> (found: Option<usize>)
    ensures
        match found {
            Some(position) => first_invalid_at(dependencies@, limit as int, position as int),
            None => all_below(dependencies@, limit as int),
        },
{
    let mut k: usize = 0;
    while k < dependencies.len()
        invariant
            k <= dependencies.len(),
            all_below(dependencies@.take(k as int), limit as int),
        decreases dependencies.len() - k,
    {
        if dependencies[k] >= limit {
            return Some(k);
        }
        proof {
            let shorter = dependencies@.take(k as int);
            let longer = dependencies@.take(k + 1);
            assert forall|j: int| 0 <= j < longer.len() implies longer[j] < limit by {
                if j < k {
                    assert(shorter[j] < limit);
                }
            }
        }
        k += 1;
    }
    assert(dependencies@.take(k as int) =~= dependencies@);
    None
}

/// The models of a run of nodes, in the same order.
pub open spec fn models(nodes: Seq<ValueNode>) -> Seq<NodeModel> {
    nodes.map_values(|node: ValueNode| node@)
}

/// `node` is the first of `nodes` with a dependency that names none of
/// them, and `position` the first such place in its list.
pub open spec fn first_dangling_at(nodes: Seq<NodeModel>, node: int, position: int) -> bool {
    &&& 0 <= node < nodes.len()
    &&& first_invalid_at(nodes[node].dependencies, nodes.len() as int, position)
    &&& well_formed_upto(nodes, node)
}

/// The first `count` nodes hold only indices into `nodes`.
pub open spec fn well_formed_upto(nodes: Seq<NodeModel>, count: int) -> bool {
    forall|i: int|
        0 <= i < count && i < nodes.len() ==> all_below(
            (#[trigger] nodes[i]).dependencies,
            nodes.len() as int,
        )
}

/// An append-only sequence of value nodes in which no dependency dangles.
#[derive(Debug, Clone)]
pub struct NodeStore {
    nodes: Vec<ValueNode>,
}

impl View for NodeStore {
    type V = Seq<NodeModel>;

    closed spec fn view(&self) -> Seq<NodeModel> {
        models(self.nodes@)
    }
}

impl NodeStore {
    /// No dependency dangles. Every store that this module hands out is
    /// valid, and its fields are private, so no other store exists.
    pub open spec fn is_valid(&self) -> bool {
        well_formed(self@)
    }

    /// The empty store.
    pub fn new() -> (store: NodeStore)
        ensures
            store@ == Seq::<NodeModel>::empty(),
            store.is_valid(),
    {
        let store = NodeStore { nodes: Vec::new() };
        assert(models(store.nodes@) =~= Seq::<NodeModel>::empty());
        store
    }

    /// The number of nodes.
    pub fn len(&self) -> (count: usize)
        ensures
            count == self@.len(),
    {
        self.nodes.len()
    }

    /// The node at `index`, if the store has one there.
    pub fn get(&self, index: NodeIndex) -> (found: Option<&ValueNode>)
        ensures
            match found {
                Some(node) => index < self@.len() && node@ == self@[index as int],
                None => index >= self@.len(),
            },
    {
        if index < self.nodes.len() {
            Some(&self.nodes[index])
        } else {
            None
        }
    }

    /// The node at `index`.
    pub fn node(&self, index: NodeIndex) -> (node: &ValueNode)
        requires
            index < self@.len(),
        ensures
            node@ == self@[index as int],
    {
        &self.nodes[index]
    }

    /// Appends `node` and returns its index. A node may depend on the nodes
    /// already in the store; one that names any other index is refused and
    /// the store is left as it was.
    pub fn push(&mut self, node: ValueNode) -> (outcome: Result<NodeIndex, StoreError>)
        requires
            old(self).is_valid(),
        ensures
            final(self).is_valid(),
            match outcome {
                Ok(index) => {
                    &&& all_below(node@.dependencies, old(self)@.len() as int)
                    &&& index == old(self)@.len()
                    &&& final(self)@ == old(self)@.push(node@)
                },
                Err(StoreError::InvalidDependency { node: at, position, index }) => {
                    &&& first_invalid_at(node@.dependencies, old(self)@.len() as int, position as int)
                    &&& at == old(self)@.len()
                    &&& index == node@.dependencies[position as int]
                    &&& final(self)@ == old(self)@
                },
            },
    {
        let count = self.nodes.len();
        match check_dependencies(&node.dependencies, count) {
            Some(position) => Err(
                StoreError::InvalidDependency {
                    node: count,
                    position,
                    index: node.dependencies[position],
                },
            ),
            None => {
                let ghost before = models(self.nodes@);
                let ghost added = node@;
                self.nodes.push(node);
                proof {
                    let after = models(self.nodes@);
                    assert(after =~= before.push(added));
                    assert forall|i: int, j: int|
                        0 <= i < after.len() && 0 <= j < after[i].dependencies.len() implies (
                    #[trigger] after[i].dependencies[j]) < after.len() by {
                        if i < before.len() {
                            assert(before[i].dependencies[j] < before.len());
                        }
                    }
                }
                Ok(count)
            },
        }
    }

    /// Takes a whole run of nodes, which may refer to each other in any
    /// direction, and refuses it when a dependency names none of them.
    pub fn from_nodes(nodes: Vec<ValueNode>) -> (outcome: Result<NodeStore, StoreError>)
        ensures
            match outcome {
                Ok(store) => {
                    &&& well_formed(models(nodes@))
                    &&& store@ == models(nodes@)
                    &&& store.is_valid()
                },
                Err(StoreError::InvalidDependency { node, position, index }) => {
                    &&& first_dangling_at(models(nodes@), node as int, position as int)
                    &&& index == nodes@[node as int]@.dependencies[position as int]
                },
            },
    {
        let count = nodes.len();
        let mut i: usize = 0;
        while i < count
            invariant
                count == nodes.len(),
                i <= count,
                well_formed_upto(models(nodes@), i as int),
            decreases count - i,
        {
            match check_dependencies(&nodes[i].dependencies, count) {
                Some(position) => {
                    return Err(
                        StoreError::InvalidDependency {
                            node: i,
                            position,
                            index: nodes[i].dependencies[position],
                        },
                    );
                },
                None => {},
            }
            i += 1;
        }
        proof {
            let all = models(nodes@);
            assert forall|a: int, b: int|
                0 <= a < all.len() && 0 <= b < all[a].dependencies.len() implies (
            #[trigger] all[a].dependencies[b]) < all.len() by {
                assert(all_below(all[a].dependencies, all.len() as int));
            }
        }
        Ok(NodeStore { nodes })
    }
}

} // verus!
