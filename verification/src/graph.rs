use vstd::prelude::*;

verus! {

pub type NodeIndex = usize;

pub type EdgeIndex = usize;

/// An index handed to the graph that does not address anything.
/// These never arise from correctly composed pipeline stages.
#[derive(Clone, Copy, Debug, PartialEq, Eq, Structural)]
pub enum GraphError {
    InvalidNodeIndex,
    InvalidEdgeIndex,
}

/// A node: its payload and the head of its singly linked list of
/// outgoing edges.
pub struct Node<T> {
    pub first_outgoing_edge: Option<EdgeIndex>,
    pub data: T,
}

/// An edge: its target, its payload, and the next edge in the source
/// node's outgoing list.
pub struct Edge<U> {
    pub target: NodeIndex,
    pub next_outgoing_edge: Option<EdgeIndex>,
    pub data: U,
}

/// A directed multigraph held in two arrays and addressed by dense
/// indices, so that cycles never form ownership cycles. Edges are
/// prepended to their source's list, so a node's outgoing edges
/// enumerate most-recently-added first.
pub struct Graph<T, U> {
    pub nodes: Vec<Node<T>>,
    pub edges: Vec<Edge<U>>,
}

impl<T, U> Graph<T, U> {
    pub open spec fn node_cnt(self) -> nat {
        self.nodes@.len()
    }

    pub open spec fn edge_cnt(self) -> nat {
        self.edges@.len()
    }

    /// Every edge targets a real node, and every outgoing list walks
    /// strictly downward through edge indices (an edge's successor was
    /// added before it), so the lists are finite and never leave the
    /// edge array.
    pub open spec fn wf(self) -> bool {
        &&& forall|e: int|
            0 <= e < self.edges@.len() ==> {
                &&& (#[trigger] self.edges@[e]).target < self.nodes@.len()
                &&& match self.edges@[e].next_outgoing_edge {
                    Some(p) => p < e,
                    None => true,
                }
            }
        &&& forall|n: int|
            0 <= n < self.nodes@.len() ==> match (#[trigger] self.nodes@[n]).first_outgoing_edge {
                Some(e) => e < self.edges@.len(),
                None => true,
            }
    }

    /// The list of edge indices reached from a list head. A malformed
    /// link (out of range, or not strictly decreasing) ends the list;
    /// under `wf` that never happens.
    pub open spec fn chain_from(self, oe: Option<EdgeIndex>) -> Seq<EdgeIndex>
        decreases
                (match oe {
                    Some(e) => e + 1,
                    None => 0,
                }),
    {
        match oe {
            None => Seq::empty(),
            Some(e) => {
                if e < self.edges@.len() && (match self.edges@[e as int].next_outgoing_edge {
                    Some(p) => p < e,
                    None => true,
                }) {
                    seq![e] + self.chain_from(self.edges@[e as int].next_outgoing_edge)
                } else {
                    seq![e]
                }
            },
        }
    }

    /// The outgoing edges of node `n`, most-recently-added first.
    pub open spec fn out_chain(self, n: int) -> Seq<EdgeIndex> {
        if 0 <= n < self.nodes@.len() {
            self.chain_from(self.nodes@[n].first_outgoing_edge)
        } else {
            Seq::empty()
        }
    }

    /// Some outgoing edge of `a` carries payload `lbl` and targets `b`.
    pub open spec fn has_labeled_edge(self, a: int, lbl: U, b: int) -> bool {
        exists|k: int|
            0 <= k < self.out_chain(a).len() && (#[trigger] self.out_chain(a)[k]) < self.edge_cnt()
                && self.edges@[self.out_chain(a)[k] as int].data == lbl
                && self.edges@[self.out_chain(a)[k] as int].target == b
    }

    /// Every index in a list is at most its head.
    pub proof fn lemma_chain_bounded(self, oe: Option<EdgeIndex>)
        ensures
            forall|k: int|
                0 <= k < self.chain_from(oe).len() ==> (#[trigger] self.chain_from(oe)[k]) as int
                    <= (match oe {
                    Some(e) => e as int,
                    None => -1,
                }),
        decreases
                (match oe {
                    Some(e) => e + 1,
                    None => 0,
                }),
    {
        match oe {
            None => {
                assert(self.chain_from(oe) =~= Seq::empty());
            },
            Some(e) => {
                if e < self.edges@.len() && (match self.edges@[e as int].next_outgoing_edge {
                    Some(p) => p < e,
                    None => true,
                }) {
                    let next = self.edges@[e as int].next_outgoing_edge;
                    self.lemma_chain_bounded(next);
                    assert(self.chain_from(oe) =~= seq![e] + self.chain_from(next));
                } else {
                    assert(self.chain_from(oe) =~= seq![e]);
                }
            },
        }
    }

    /// Appending edges or nodes to a graph does not change any list
    /// whose head already existed.
    pub proof fn lemma_chain_stable(self, other: Graph<T, U>, oe: Option<EdgeIndex>)
        requires
            self.edges@.len() <= other.edges@.len(),
            forall|i: int| 0 <= i < self.edges@.len() ==> other.edges@[i] == #[trigger] self.edges@[i],
            match oe {
                Some(e) => e < self.edges@.len(),
                None => true,
            },
        ensures
            other.chain_from(oe) == self.chain_from(oe),
        decreases
                (match oe {
                    Some(e) => e + 1,
                    None => 0,
                }),
    {
        match oe {
            None => {
                assert(self.chain_from(oe) =~= Seq::empty());
                assert(other.chain_from(oe) =~= Seq::empty());
            },
            Some(e) => {
                assert(other.edges@[e as int] == self.edges@[e as int]);
                let next = self.edges@[e as int].next_outgoing_edge;
                match next {
                    Some(p) => {
                        if p < e {
                            self.lemma_chain_stable(other, Some(p));
                            assert(self.chain_from(oe) =~= seq![e] + self.chain_from(next));
                            assert(other.chain_from(oe) =~= seq![e] + other.chain_from(next));
                        } else {
                            assert(self.chain_from(oe) =~= seq![e]);
                            assert(other.chain_from(oe) =~= seq![e]);
                        }
                    },
                    None => {
                        self.lemma_chain_stable(other, next);
                        assert(self.chain_from(oe) =~= seq![e] + self.chain_from(next));
                        assert(other.chain_from(oe) =~= seq![e] + other.chain_from(next));
                    },
                }
            },
        }
    }

    /// A node whose outgoing list did not change keeps exactly its
    /// labeled edges when the edge array only grew.
    pub proof fn lemma_has_labeled_edge_stable(self, other: Graph<T, U>, a: int)
        requires
            self.wf(),
            self.edges@.len() <= other.edges@.len(),
            forall|i: int| 0 <= i < self.edges@.len() ==> other.edges@[i] == #[trigger] self.edges@[i],
            other.out_chain(a) == self.out_chain(a),
        ensures
            forall|lbl: U, b: int|
                #![trigger other.has_labeled_edge(a, lbl, b)]
                #![trigger self.has_labeled_edge(a, lbl, b)]
                other.has_labeled_edge(a, lbl, b) == self.has_labeled_edge(a, lbl, b),
    {
        if 0 <= a < self.nodes@.len() {
            self.lemma_chain_bounded(self.nodes@[a].first_outgoing_edge);
            assert forall|k: int| 0 <= k < self.out_chain(a).len() implies (
            #[trigger] self.out_chain(a)[k]) < self.edges@.len() by {
                match self.nodes@[a].first_outgoing_edge {
                    Some(e) => {
                        assert(self.out_chain(a)[k] as int <= e as int);
                    },
                    None => {
                        assert(self.chain_from(None::<EdgeIndex>) =~= Seq::empty());
                    },
                }
            }
            assert forall|lbl: U, b: int|
                other.has_labeled_edge(a, lbl, b) == #[trigger] self.has_labeled_edge(
                    a,
                    lbl,
                    b,
                ) by {
                if self.has_labeled_edge(a, lbl, b) {
                    let k = choose|k: int|
                        0 <= k < self.out_chain(a).len() && (#[trigger] self.out_chain(a)[k])
                            < self.edge_cnt() && self.edges@[self.out_chain(a)[k] as int].data
                            == lbl && self.edges@[self.out_chain(a)[k] as int].target == b;
                    assert(other.out_chain(a)[k] == self.out_chain(a)[k]);
                    assert(other.has_labeled_edge(a, lbl, b));
                }
                if other.has_labeled_edge(a, lbl, b) {
                    let k = choose|k: int|
                        0 <= k < other.out_chain(a).len() && (#[trigger] other.out_chain(a)[k])
                            < other.edge_cnt() && other.edges@[other.out_chain(a)[k] as int].data
                            == lbl && other.edges@[other.out_chain(a)[k] as int].target == b;
                    assert(self.out_chain(a)[k] < self.edges@.len());
                    assert(self.has_labeled_edge(a, lbl, b));
                }
            }
        } else {
            assert(self.out_chain(a) =~= Seq::empty());
            assert forall|lbl: U, b: int|
                other.has_labeled_edge(a, lbl, b) == #[trigger] self.has_labeled_edge(
                    a,
                    lbl,
                    b,
                ) by {
                assert(!self.has_labeled_edge(a, lbl, b));
                assert(other.out_chain(a).len() == 0);
                assert(!other.has_labeled_edge(a, lbl, b));
            }
        }
    }

    /// After one edge is prepended to `src`, the labeled edges of `src`
    /// are the old ones plus the new one.
    pub proof fn lemma_has_labeled_edge_after_add(
        self,
        other: Graph<T, U>,
        src: int,
        lbl: U,
        tgt: int,
    )
        requires
            self.wf(),
            self.edges@.len() < usize::MAX,
            other.edges@.len() == self.edges@.len() + 1,
            forall|i: int| 0 <= i < self.edges@.len() ==> other.edges@[i] == #[trigger] self.edges@[i],
            other.edges@[self.edges@.len() as int].data == lbl,
            other.edges@[self.edges@.len() as int].target == tgt,
            other.out_chain(src) == seq![(self.edges@.len() as EdgeIndex)] + self.out_chain(src),
        ensures
            forall|l2: U, b2: int|
                #![trigger other.has_labeled_edge(src, l2, b2)]
                #![trigger self.has_labeled_edge(src, l2, b2)]
                other.has_labeled_edge(src, l2, b2) <==> ((l2 == lbl && b2 == tgt)
                    || self.has_labeled_edge(src, l2, b2)),
    {
        if 0 <= src < self.nodes@.len() {
            self.lemma_chain_bounded(self.nodes@[src].first_outgoing_edge);
            assert forall|k: int| 0 <= k < self.out_chain(src).len() implies (
            #[trigger] self.out_chain(src)[k]) < self.edges@.len() by {
                match self.nodes@[src].first_outgoing_edge {
                    Some(e) => {
                        assert(self.out_chain(src)[k] as int <= e as int);
                    },
                    None => {
                        assert(self.chain_from(None::<EdgeIndex>) =~= Seq::empty());
                    },
                }
            }
        } else {
            assert(self.out_chain(src) =~= Seq::empty());
        }
        assert forall|l2: U, b2: int| #[trigger]
            other.has_labeled_edge(src, l2, b2) <==> ((l2 == lbl && b2 == tgt)
                || self.has_labeled_edge(src, l2, b2)) by {
            if other.has_labeled_edge(src, l2, b2) {
                let k = choose|k: int|
                    0 <= k < other.out_chain(src).len() && (#[trigger] other.out_chain(src)[k])
                        < other.edge_cnt() && other.edges@[other.out_chain(src)[k] as int].data
                        == l2 && other.edges@[other.out_chain(src)[k] as int].target == b2;
                if k == 0 {
                    assert(l2 == lbl && b2 == tgt);
                } else {
                    assert(other.out_chain(src)[k] == self.out_chain(src)[k - 1]);
                    assert(self.has_labeled_edge(src, l2, b2));
                }
            }
            if l2 == lbl && b2 == tgt {
                assert(other.out_chain(src)[0] == self.edges@.len() as EdgeIndex);
                assert(other.has_labeled_edge(src, l2, b2));
            }
            if self.has_labeled_edge(src, l2, b2) {
                let k = choose|k: int|
                    0 <= k < self.out_chain(src).len() && (#[trigger] self.out_chain(src)[k])
                        < self.edge_cnt() && self.edges@[self.out_chain(src)[k] as int].data == l2
                        && self.edges@[self.out_chain(src)[k] as int].target == b2;
                assert(other.out_chain(src)[k + 1] == self.out_chain(src)[k]);
                assert(other.has_labeled_edge(src, l2, b2));
            }
        }
    }

    pub fn new() -> (g: Graph<T, U>)
        ensures
            g.node_cnt() == 0,
            g.edge_cnt() == 0,
            g.wf(),
    {
        Graph { nodes: Vec::new(), edges: Vec::new() }
    }

    pub fn num_of_nodes(&self) -> (n: usize)
        ensures
            n == self.node_cnt(),
    {
        self.nodes.len()
    }

    pub fn add_node(&mut self, data: T) -> (index: NodeIndex)
        requires
            old(self).wf(),
        ensures
            final(self).wf(),
            index == old(self).node_cnt(),
            final(self).node_cnt() == old(self).node_cnt() + 1,
            final(self).edges@ == old(self).edges@,
            final(self).nodes@ == old(self).nodes@.push(
                Node { first_outgoing_edge: None, data },
            ),
            forall|n: int| #[trigger] final(self).out_chain(n) == old(self).out_chain(n) || n == index,
            final(self).out_chain(index as int) == Seq::<EdgeIndex>::empty(),
    {
        let index = self.nodes.len();
        self.nodes.push(Node::new(None, data));
        proof {
            assert forall|n: int| #[trigger]
                self.out_chain(n) == old(self).out_chain(n) || n == index as int by {
                if 0 <= n < old(self).nodes@.len() {
                    old(self).lemma_chain_stable(*self, old(self).nodes@[n].first_outgoing_edge);
                    if !(match old(self).nodes@[n].first_outgoing_edge {
                        Some(e) => e < old(self).edges@.len(),
                        None => true,
                    }) {
                        assert(old(self).chain_from(old(self).nodes@[n].first_outgoing_edge)
                            == self.chain_from(self.nodes@[n].first_outgoing_edge));
                    }
                }
            }
        }
        index
    }

    pub fn add_edge(&mut self, source: NodeIndex, target: NodeIndex, data: U)
        requires
            old(self).wf(),
            source < old(self).node_cnt(),
            target < old(self).node_cnt(),
        ensures
            final(self).wf(),
            old(self).edge_cnt() < usize::MAX,
            final(self).node_cnt() == old(self).node_cnt(),
            final(self).edge_cnt() == old(self).edge_cnt() + 1,
            forall|i: int|
                #![trigger final(self).edges@[i]]
                #![trigger old(self).edges@[i]]
                0 <= i < old(self).edges@.len() ==> final(self).edges@[i] == old(self).edges@[i],
            final(self).edges@[old(self).edge_cnt() as int].target == target,
            final(self).edges@[old(self).edge_cnt() as int].data == data,
            forall|n: int|
                #![trigger final(self).nodes@[n]]
                #![trigger old(self).nodes@[n]]
                0 <= n < old(self).nodes@.len() ==> final(self).nodes@[n].data == old(
                    self,
                ).nodes@[n].data,
            final(self).out_chain(source as int) == seq![(old(self).edge_cnt() as EdgeIndex)] + old(
                self,
            ).out_chain(source as int),
            forall|n: int|
                n != source ==> #[trigger] final(self).out_chain(n) == old(self).out_chain(n),
    {
        let edge_index = self.edges.len();
        let old_first = self.nodes[source].first_outgoing_edge;
        self.edges.push(Edge::new(target, old_first, data));
        let new_len = self.edges.len();
        proof {
            assert(new_len == old(self).edge_cnt() + 1);
        }
        self.nodes[source].first_outgoing_edge = Some(edge_index);
        proof {
            assert(self.wf());
            old(self).lemma_chain_stable(*self, old_first);
            assert(self.chain_from(Some(edge_index)) == seq![edge_index] + self.chain_from(
                old_first,
            ));
            assert(self.out_chain(source as int) == seq![edge_index] + old(self).out_chain(
                source as int,
            ));
            assert forall|n: int|
                n != source implies #[trigger] self.out_chain(n) == old(self).out_chain(n) by {
                if 0 <= n < old(self).nodes@.len() {
                    old(self).lemma_chain_stable(*self, old(self).nodes@[n].first_outgoing_edge);
                }
            }
        }
    }

    pub fn outgoing_edges(&self, source: NodeIndex) -> (r: Result<Vec<EdgeIndex>, GraphError>)
        requires
            self.wf(),
        ensures
            (source < self.node_cnt()) <==> r is Ok,
            r is Ok ==> r->Ok_0@ == self.out_chain(source as int),
            r is Ok ==> forall|k: int|
                0 <= k < r->Ok_0@.len() ==> (#[trigger] r->Ok_0@[k]) < self.edge_cnt(),
            r is Err ==> r == Err::<Vec<EdgeIndex>, GraphError>(GraphError::InvalidNodeIndex),
    {
        let source = self.check_node_index(source)?;
        let mut edges: Vec<EdgeIndex> = Vec::new();
        let mut cur: Option<EdgeIndex> = self.nodes[source].first_outgoing_edge;
        proof {
            assert(self.out_chain(source as int) == edges@ + self.chain_from(cur));
        }
        while cur.is_some()
            invariant
                self.wf(),
                source < self.node_cnt(),
                match cur {
                    Some(e) => e < self.edge_cnt(),
                    None => true,
                },
                forall|k: int| 0 <= k < edges@.len() ==> (#[trigger] edges@[k]) < self.edge_cnt(),
                self.out_chain(source as int) == edges@ + self.chain_from(cur),
            decreases
                    (match cur {
                        Some(e) => e + 1,
                        None => 0,
                    }),
        {
            let e = cur.unwrap();
            edges.push(e);
            let next = self.edges[e].next_outgoing_edge;
            proof {
                assert(self.chain_from(Some(e)) == seq![e] + self.chain_from(next));
                assert(self.out_chain(source as int) =~= edges@ + self.chain_from(next));
            }
            cur = next;
        }
        proof {
            assert(self.chain_from(None::<EdgeIndex>) =~= Seq::empty());
            assert(self.out_chain(source as int) =~= edges@);
        }
        Ok(edges)
    }

    pub fn traverse(&self, edge: EdgeIndex) -> (r: Result<NodeIndex, GraphError>)
        ensures
            (edge < self.edge_cnt()) <==> r is Ok,
            r is Ok ==> r->Ok_0 == self.edges@[edge as int].target,
            self.wf() && r is Ok ==> r->Ok_0 < self.node_cnt(),
            r is Err ==> r == Err::<NodeIndex, GraphError>(GraphError::InvalidEdgeIndex),
    {
        let edge = self.check_edge_index(edge)?;
        Ok(self.edges[edge].target)
    }

    fn check_node_index(&self, index: NodeIndex) -> (r: Result<NodeIndex, GraphError>)
        ensures
            (index < self.node_cnt()) <==> r is Ok,
            r is Ok ==> r->Ok_0 == index,
            r is Err ==> r == Err::<NodeIndex, GraphError>(GraphError::InvalidNodeIndex),
    {
        if index >= self.nodes.len() {
            return Err(GraphError::InvalidNodeIndex);
        }
        Ok(index)
    }

    fn check_edge_index(&self, index: EdgeIndex) -> (r: Result<EdgeIndex, GraphError>)
        ensures
            (index < self.edge_cnt()) <==> r is Ok,
            r is Ok ==> r->Ok_0 == index,
            r is Err ==> r == Err::<EdgeIndex, GraphError>(GraphError::InvalidEdgeIndex),
    {
        if index >= self.edges.len() {
            return Err(GraphError::InvalidEdgeIndex);
        }
        Ok(index)
    }

    pub fn get_node_data(&self, index: NodeIndex) -> (r: &T)
        requires
            index < self.node_cnt(),
        ensures
            *r == self.nodes@[index as int].data,
    {
        &self.nodes[index].data
    }

    pub fn get_edge_data(&self, index: EdgeIndex) -> (r: &U)
        requires
            index < self.edge_cnt(),
        ensures
            *r == self.edges@[index as int].data,
    {
        &self.edges[index].data
    }

    /// Replaces a node's payload; the edge structure is untouched.
    pub fn set_node_data(&mut self, index: NodeIndex, data: T)
        requires
            index < old(self).node_cnt(),
        ensures
            final(self).nodes@ == old(self).nodes@.update(
                index as int,
                Node {
                    first_outgoing_edge: old(self).nodes@[index as int].first_outgoing_edge,
                    data,
                },
            ),
            final(self).edges@ == old(self).edges@,
            old(self).wf() ==> final(self).wf(),
            forall|n: int| #[trigger] final(self).out_chain(n) == old(self).out_chain(n),
    {
        let first = self.nodes[index].first_outgoing_edge;
        self.nodes[index] = Node { first_outgoing_edge: first, data };
        proof {
            assert(final(self).nodes@ =~= old(self).nodes@.update(
                index as int,
                Node { first_outgoing_edge: first, data },
            ));
            assert forall|n: int| #[trigger]
                self.out_chain(n) == old(self).out_chain(n) by {
                if 0 <= n < self.nodes@.len() {
                    old(self).lemma_chain_stable_general(
                        *self,
                        self.nodes@[n].first_outgoing_edge,
                    );
                }
            }
        }
    }

    /// Lists with any head are preserved when the edge array is unchanged.
    pub proof fn lemma_chain_stable_general(self, other: Graph<T, U>, oe: Option<EdgeIndex>)
        requires
            self.edges@ == other.edges@,
        ensures
            other.chain_from(oe) == self.chain_from(oe),
        decreases
                (match oe {
                    Some(e) => e + 1,
                    None => 0,
                }),
    {
        match oe {
            None => {},
            Some(e) => {
                if e < self.edges@.len() && (match self.edges@[e as int].next_outgoing_edge {
                    Some(p) => p < e,
                    None => true,
                }) {
                    self.lemma_chain_stable_general(
                        other,
                        self.edges@[e as int].next_outgoing_edge,
                    );
                }
            },
        }
    }
}

impl<T> Node<T> {
    pub fn new(first_outgoing_edge: Option<EdgeIndex>, data: T) -> (n: Node<T>)
        ensures
            n.first_outgoing_edge == first_outgoing_edge,
            n.data == data,
    {
        Node { first_outgoing_edge, data }
    }
}

impl<U> Edge<U> {
    pub fn new(target: NodeIndex, next_outgoing_edge: Option<EdgeIndex>, data: U) -> (e: Edge<U>)
        ensures
            e.target == target,
            e.next_outgoing_edge == next_outgoing_edge,
            e.data == data,
    {
        Edge { target, next_outgoing_edge, data }
    }
}

} // verus!
