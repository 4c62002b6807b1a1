//! The forest model: node shapes and the query primitives the classifier
//! traverses with.
//!
//! A parse forest is a DAG of deduplicated nodes; a node's shape says how its
//! children are structured. The forest is held as a vector of shapes indexed
//! by node id, each child given directly as a node id. Well-formedness asks
//! that every child id is in range and that a choice or split node carries at
//! least one alternative, as a completed parse always does.

use vstd::prelude::*;

verus! {

/// Signals that a node offers more than one alternative or split, i.e. that
/// the forest denotes more than one derivation at that node.
#[derive(Clone, Copy, Debug, PartialEq, Eq, Structural)]
#[verifier::ext_equal]
pub struct MoreThanOne;

/// How a node's children are structured.
#[derive(Debug)]
pub enum NodeShape {
    /// A leaf with no children to traverse.
    Opaque,
    /// A single pass-through child.
    Alias(usize),
    /// Zero or one child; absence is valid.
    Opt(Option<usize>),
    /// One or more alternative children, each one possible derivation.
    Choice(Vec<usize>),
    /// One or more (left, right) pairings of the same span.
    Split(Vec<(usize, usize)>),
}

/// The tag of a shape, without its children.
#[derive(Clone, Copy, Debug, PartialEq, Eq, Structural)]
pub enum ShapeKind {
    Opaque,
    Alias,
    Opt,
    Choice,
    Split,
}

pub open spec fn kind_of(s: NodeShape) -> ShapeKind {
    match s {
        NodeShape::Opaque => ShapeKind::Opaque,
        NodeShape::Alias(_) => ShapeKind::Alias,
        NodeShape::Opt(_) => ShapeKind::Opt,
        NodeShape::Choice(_) => ShapeKind::Choice,
        NodeShape::Split(_) => ShapeKind::Split,
    }
}

/// Every child id of `s` lies below `n`, and a choice or split is non-empty.
pub open spec fn shape_wf(s: NodeShape, n: nat) -> bool {
    match s {
        NodeShape::Opaque => true,
        NodeShape::Alias(c) => (c as nat) < n,
        NodeShape::Opt(oc) => (oc matches Some(c) ==> (c as nat) < n),
        NodeShape::Choice(alts) => alts@.len() >= 1 && (forall|i: int|
            0 <= i < alts@.len() ==> ((#[trigger] alts@[i]) as nat) < n),
        NodeShape::Split(pairs) => pairs@.len() >= 1 && (forall|i: int|
            0 <= i < pairs@.len() ==> ((#[trigger] pairs@[i]).0 as nat) < n
                && (pairs@[i].1 as nat) < n),
    }
}

#[verifier::loop_isolation(false)]
fn shape_in_bounds(s: &NodeShape, n: usize) -> (b: bool)
    ensures
        b == shape_wf(*s, n as nat),
{
    match s {
        NodeShape::Opaque => true,
        NodeShape::Alias(c) => *c < n,
        NodeShape::Opt(oc) => match oc {
            Some(c) => *c < n,
            None => true,
        },
        NodeShape::Choice(alts) => {
            if alts.len() == 0 {
                return false;
            }
            let mut i: usize = 0;
            while i < alts.len()
                invariant
                    i <= alts@.len(),
                    forall|j: int| 0 <= j < i ==> ((#[trigger] alts@[j]) as nat) < n as nat,
                decreases alts@.len() - i,
            {
                if alts[i] >= n {
                    return false;
                }
                i = i + 1;
            }
            true
        },
        NodeShape::Split(pairs) => {
            if pairs.len() == 0 {
                return false;
            }
            let mut i: usize = 0;
            while i < pairs.len()
                invariant
                    i <= pairs@.len(),
                    forall|j: int| 0 <= j < i ==> ((#[trigger] pairs@[j]).0 as nat) < n as nat
                        && (pairs@[j].1 as nat) < n as nat,
                decreases pairs@.len() - i,
            {
                let p = pairs[i];
                if p.0 >= n || p.1 >= n {
                    return false;
                }
                i = i + 1;
            }
            true
        },
    }
}

/// A shared parse forest: the shape of node `i` is `nodes[i]`.
pub struct Forest {
    pub nodes: Vec<NodeShape>,
}

impl Forest {
    pub open spec fn valid_node(self, n: int) -> bool {
        0 <= n < self.nodes@.len()
    }

    pub open spec fn wf(self) -> bool {
        forall|i: int| 0 <= i < self.nodes@.len()
            ==> shape_wf(#[trigger] self.nodes@[i], self.nodes@.len())
    }

    /// A node is locally ambiguous if it offers more than one alternative or
    /// more than one split.
    pub open spec fn ambiguous_at(self, n: int) -> bool
        recommends
            self.valid_node(n),
    {
        match self.nodes@[n] {
            NodeShape::Choice(alts) => alts@.len() > 1,
            NodeShape::Split(pairs) => pairs@.len() > 1,
            _ => false,
        }
    }

    /// `c` is a shape-defined child of `p`: the alias or optional child, any
    /// alternative of a choice, or either side of any pairing of a split.
    pub open spec fn child_edge(self, p: int, c: int) -> bool {
        self.valid_node(p) && match self.nodes@[p] {
            NodeShape::Opaque => false,
            NodeShape::Alias(x) => c == x as int,
            NodeShape::Opt(oc) => oc matches Some(x) && c == x as int,
            NodeShape::Choice(alts) => exists|i: int|
                0 <= i < alts@.len() && c == (#[trigger] alts@[i]) as int,
            NodeShape::Split(pairs) => exists|i: int|
                0 <= i < pairs@.len() && (c == (#[trigger] pairs@[i]).0 as int
                    || c == pairs@[i].1 as int),
        }
    }

    /// Check well-formedness at run time: every child id in range, every
    /// choice and split non-empty. Lets an unverified caller establish `wf`
    /// before it hands a forest to the classifier.
    pub fn is_well_formed(&self) -> (b: bool)
        ensures
            b == self.wf(),
    {
        let n = self.nodes.len();
        let mut i: usize = 0;
        while i < n
            invariant
                i <= n,
                n == self.nodes@.len(),
                forall|j: int| 0 <= j < i ==> shape_wf(#[trigger] self.nodes@[j], n as nat),
            decreases n - i,
        {
            if !shape_in_bounds(&self.nodes[i], n) {
                return false;
            }
            i = i + 1;
        }
        true
    }

    pub fn node_count(&self) -> (n: usize)
        ensures
            n == self.nodes@.len(),
    {
        self.nodes.len()
    }

    pub fn shape_kind(&self, node: usize) -> (k: ShapeKind)
        requires
            node < self.nodes@.len(),
        ensures
            k == kind_of(self.nodes@[node as int]),
    {
        match &self.nodes[node] {
            NodeShape::Opaque => ShapeKind::Opaque,
            NodeShape::Alias(_) => ShapeKind::Alias,
            NodeShape::Opt(_) => ShapeKind::Opt,
            NodeShape::Choice(_) => ShapeKind::Choice,
            NodeShape::Split(_) => ShapeKind::Split,
        }
    }

    /// The pass-through child of an alias node.
    pub fn unpack_alias(&self, node: usize) -> (c: usize)
        requires
            node < self.nodes@.len(),
            kind_of(self.nodes@[node as int]) == ShapeKind::Alias,
        ensures
            c == self.nodes@[node as int]->Alias_0,
            self.child_edge(node as int, c as int),
    {
        if let NodeShape::Alias(c) = &self.nodes[node] {
            *c
        } else {
            proof {
                assert(false);
            }
            0
        }
    }

    /// The optional child of an opt node, if present.
    pub fn unpack_opt(&self, node: usize) -> (c: Option<usize>)
        requires
            node < self.nodes@.len(),
            kind_of(self.nodes@[node as int]) == ShapeKind::Opt,
        ensures
            c == self.nodes@[node as int]->Opt_0,
            c matches Some(x) ==> self.child_edge(node as int, x as int),
    {
        if let NodeShape::Opt(oc) = &self.nodes[node] {
            *oc
        } else {
            proof {
                assert(false);
            }
            None
        }
    }

    /// The unique alternative of a choice node; fails if the node offers more
    /// than one.
    pub fn one_choice(&self, node: usize) -> (r: Result<usize, MoreThanOne>)
        requires
            self.wf(),
            node < self.nodes@.len(),
            kind_of(self.nodes@[node as int]) == ShapeKind::Choice,
        ensures
            r is Ok <==> !self.ambiguous_at(node as int),
            r matches Ok(c) ==> self.child_edge(node as int, c as int)
                && (forall|x: int| self.child_edge(node as int, x) ==> x == c as int),
    {
        if let NodeShape::Choice(alts) = &self.nodes[node] {
            if alts.len() == 1 {
                Ok(alts[0])
            } else {
                Err(MoreThanOne)
            }
        } else {
            proof {
                assert(false);
            }
            Err(MoreThanOne)
        }
    }

    /// The unique (left, right) split of a split node; fails if the same span
    /// splits in more than one way.
    pub fn one_split(&self, node: usize) -> (r: Result<(usize, usize), MoreThanOne>)
        requires
            self.wf(),
            node < self.nodes@.len(),
            kind_of(self.nodes@[node as int]) == ShapeKind::Split,
        ensures
            r is Ok <==> !self.ambiguous_at(node as int),
            r matches Ok(p) ==> self.child_edge(node as int, p.0 as int)
                && self.child_edge(node as int, p.1 as int)
                && (forall|x: int| self.child_edge(node as int, x)
                    ==> x == p.0 as int || x == p.1 as int),
    {
        if let NodeShape::Split(pairs) = &self.nodes[node] {
            if pairs.len() == 1 {
                let p = pairs[0];
                Ok(p)
            } else {
                Err(MoreThanOne)
            }
        } else {
            proof {
                assert(false);
            }
            Err(MoreThanOne)
        }
    }
}

} // verus!
