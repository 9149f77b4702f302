use vstd::prelude::*;

verus! {

/// One candidate term of a class: its owning class, its intrinsic cost, and
/// the nodes whose classes it is built from.
pub struct Node {
    pub class: usize,
    pub cost: u32,
    pub children: Vec<usize>,
}

/// A read-only e-graph view: classes are `0..n_classes`, nodes are the
/// indices of `nodes`.
pub struct Graph {
    pub n_classes: usize,
    pub nodes: Vec<Node>,
}

/// Why a graph cannot be extracted from.
#[derive(Debug, PartialEq, Eq, Structural, Clone, Copy)]
pub enum GraphError {
    /// There are more classes than the extractor can count costs for.
    TooManyClasses,
    /// The node with this index names a class that does not exist.
    ClassOutOfRange(usize),
    /// The node with this index has a child that names no node.
    DanglingChild(usize),
}

pub const MAX_CLASSES: usize = 0xffff_ffff;

impl Graph {
    pub open spec fn class_of(&self, n: int) -> int {
        self.nodes@[n].class as int
    }

    pub open spec fn children_of(&self, n: int) -> Seq<usize> {
        self.nodes@[n].children@
    }

    /// The class of the `j`-th child of node `n`.
    pub open spec fn child_class(&self, n: int, j: int) -> int {
        self.class_of(self.children_of(n)[j] as int)
    }

    pub open spec fn node_ok(&self, n: int) -> bool {
        &&& self.class_of(n) < self.n_classes
        &&& forall|j: int|
            0 <= j < self.children_of(n).len() ==> #[trigger] self.children_of(n)[j]
                < self.nodes@.len()
    }

    /// Every class id is in range and every child names an existing node.
    pub open spec fn wf(&self) -> bool {
        &&& self.n_classes <= MAX_CLASSES
        &&& self.nodes@.len() <= usize::MAX
        &&& forall|n: int| 0 <= n < self.nodes@.len() ==> #[trigger] self.node_ok(n)
    }

    /// Checks the graph before extraction: succeeds exactly on well-formed
    /// graphs, and otherwise names the first node at fault.
    pub fn validate(&self) -> (r: Result<(), GraphError>)
        ensures
            r is Ok <==> self.wf(),
            r == Err::<(), GraphError>(GraphError::TooManyClasses) <==> self.n_classes
                > MAX_CLASSES,
            r matches Err(GraphError::ClassOutOfRange(n)) ==> n < self.nodes@.len()
                && self.class_of(n as int) >= self.n_classes
                && forall|m: int| 0 <= m < n ==> #[trigger] self.node_ok(m),
            r matches Err(GraphError::DanglingChild(n)) ==> n < self.nodes@.len()
                && self.class_of(n as int) < self.n_classes && !self.node_ok(n as int)
                && forall|m: int| 0 <= m < n ==> #[trigger] self.node_ok(m),
    {
        if self.n_classes > MAX_CLASSES {
            return Err(GraphError::TooManyClasses);
        }
        let mut n: usize = 0;
        let count = self.nodes.len();
        while n < count
            invariant
                count == self.nodes@.len(),
                n <= self.nodes@.len(),
                self.n_classes <= MAX_CLASSES,
                forall|m: int| 0 <= m < n ==> #[trigger] self.node_ok(m),
            decreases count - n,
        {
            let node = &self.nodes[n];
            if node.class >= self.n_classes {
                assert(!self.node_ok(n as int));
                return Err(GraphError::ClassOutOfRange(n));
            }
            let mut j: usize = 0;
            while j < node.children.len()
                invariant
                    n < self.nodes@.len(),
                    self.n_classes <= MAX_CLASSES,
                    forall|m: int| 0 <= m < n ==> #[trigger] self.node_ok(m),
                    node.class < self.n_classes,
                    *node == self.nodes@[n as int],
                    j <= node.children@.len(),
                    forall|i: int| 0 <= i < j ==> #[trigger] node.children@[i] < self.nodes@.len(),
                decreases node.children@.len() - j,
            {
                if node.children[j] >= self.nodes.len() {
                    assert(self.children_of(n as int)[j as int] >= self.nodes@.len());
                    assert(!self.node_ok(n as int));
                    return Err(GraphError::DanglingChild(n));
                }
                j += 1;
            }
            assert(self.node_ok(n as int));
            n += 1;
        }
        Ok(())
    }
}

} // verus!
