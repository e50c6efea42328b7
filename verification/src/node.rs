//! Nodes of the graph and the relation records on their adjacency lists.
//!
//! A node is an identifier (an opaque byte string) plus an ordered list of
//! `Relation` records, one per edge endpoint stored on this node. The record's
//! direction tag says whether the edge leaves this node (`To`) or enters it
//! (`From`); its payload is the handle of the node at the other end.

use vstd::prelude::*;

use crate::graph::Graph;

verus! {

/// Direction code of an outgoing relation: this node is the edge's source.
pub const RELATION_DIRECTION_TO: u8 = 0;

/// Direction code of an incoming relation: this node is the edge's target.
pub const RELATION_DIRECTION_FROM: u8 = 1;

/// Direction tag of one edge endpoint, carrying the handle of the peer node.
/// `To(h)` marks an outgoing edge towards `h`; `From(h)` an incoming edge
/// from `h`. A handle is an index into the store that owns the nodes; the
/// adjacency list holds only this index, never the node itself, so a record
/// on one node does not keep its peer alive on its own.
#[derive(Clone, Copy, Debug, PartialEq, Eq, Structural)]
pub enum RelationDirection {
    To(usize),
    From(usize),
}

/// One directed, labeled edge endpoint stored on a node: a direction tag
/// (with the peer's handle) and the relation's label.
#[derive(Debug)]
pub struct Relation {
    pub direction: RelationDirection,
    pub kind: Vec<u8>,
}

/// A graph vertex: an immutable identifier and the ordered adjacency list.
/// The list order is insertion order; `Graph::add_relation` is the only
/// operation that extends it.
#[derive(Debug)]
pub struct Node {
    pub id: Vec<u8>,
    pub neighbors: Vec<Relation>,
}

/// Mathematical model of one relation record: the direction code, the peer's
/// handle, and the label.
#[verifier::ext_equal]
pub ghost struct RelationModel {
    pub dir: u8,
    pub peer: int,
    pub kind: Seq<u8>,
}

/// Mathematical model of a node: its identifier and its relation records in
/// adjacency-list order.
#[verifier::ext_equal]
pub ghost struct NodeModel {
    pub id: Seq<u8>,
    pub rels: Seq<RelationModel>,
}

/// The label filter as a mathematical value: absent, or the label's bytes.
pub open spec fn kind_filter_view(kind: Option<&Vec<u8>>) -> Option<Seq<u8>> {
    match kind {
        Some(k) => Some(k@),
        None => None,
    }
}

/// Whether one relation record passes a direction filter and a label filter.
/// An absent filter passes everything on its dimension; supplying both keeps
/// a record only when it passes both (logical AND).
pub open spec fn rel_matches(m: RelationModel, dir: Option<u8>, kind: Option<Seq<u8>>) -> bool {
    &&& match dir {
        Some(d) => m.dir == d,
        None => true,
    }
    &&& match kind {
        Some(k) => m.kind == k,
        None => true,
    }
}

/// The relation records that pass both filters, in adjacency-list order.
pub open spec fn filter_rels(
    rels: Seq<RelationModel>,
    dir: Option<u8>,
    kind: Option<Seq<u8>>,
) -> Seq<RelationModel> {
    rels.filter(|m: RelationModel| rel_matches(m, dir, kind))
}

/// Whether a relation record resolves, in store `g`, to a peer whose
/// identifier is `target`.
pub open spec fn neighbor_matches(g: Seq<NodeModel>, m: RelationModel, target: Seq<u8>) -> bool {
    0 <= m.peer < g.len() && g[m.peer].id == target
}

/// The handles of the peers among `rels` that resolve, in store `g`, to a
/// node with identifier `target`, in adjacency-list order.
pub open spec fn matching_neighbors(
    g: Seq<NodeModel>,
    rels: Seq<RelationModel>,
    target: Seq<u8>,
) -> Seq<int> {
    rels.filter(|m: RelationModel| neighbor_matches(g, m, target)).map_values(
        |m: RelationModel| m.peer,
    )
}

/// Law: a query with no direction filter and no label filter keeps every
/// relation record, so its result has exactly the node's total relation
/// count (in-degree plus out-degree).
pub proof fn lemma_filter_none_keeps_all(rels: Seq<RelationModel>)
    ensures
        filter_rels(rels, None, None) == rels,
    decreases rels.len(),
{
    broadcast use vstd::prelude::Seq::lemma_filter_push;

    if rels.len() == 0 {
        assert(filter_rels(rels, None, None) =~= rels);
    } else {
        let rest = rels.drop_last();
        lemma_filter_none_keeps_all(rest);
        assert(rest.push(rels.last()) =~= rels);
        assert(filter_rels(rest.push(rels.last()), None, None) == filter_rels(
            rest,
            None,
            None,
        ).push(rels.last()));
    }
}

/// Law: filtering by a label that no relation record carries yields the
/// empty sequence, whatever the direction filter.
pub proof fn lemma_filter_absent_label_empty(
    rels: Seq<RelationModel>,
    dir: Option<u8>,
    kind: Seq<u8>,
)
    requires
        forall|j: int| 0 <= j < rels.len() ==> rels[j].kind != kind,
    ensures
        filter_rels(rels, dir, Some(kind)) == Seq::<RelationModel>::empty(),
    decreases rels.len(),
{
    broadcast use vstd::prelude::Seq::lemma_filter_push;

    if rels.len() == 0 {
        assert(filter_rels(rels, dir, Some(kind)) =~= Seq::<RelationModel>::empty());
    } else {
        let rest = rels.drop_last();
        lemma_filter_absent_label_empty(rest, dir, kind);
        assert(rest.push(rels.last()) =~= rels);
        assert(!rel_matches(rels.last(), dir, Some(kind)));
        assert(filter_rels(rest.push(rels.last()), dir, Some(kind)) == filter_rels(
            rest,
            dir,
            Some(kind),
        ));
    }
}

/// Law: filtering by a direction and a label at once keeps exactly the
/// records of the direction-only result that also carry the label, and
/// equally the records of the label-only result that also have the
/// direction: the intersection of the two single-filter results, in
/// adjacency-list order.
pub proof fn lemma_filter_both_is_intersection(rels: Seq<RelationModel>, dir: u8, kind: Seq<u8>)
    ensures
        filter_rels(rels, Some(dir), Some(kind)) == filter_rels(rels, Some(dir), None).filter(
            |m: RelationModel| rel_matches(m, None, Some(kind)),
        ),
        filter_rels(rels, Some(dir), Some(kind)) == filter_rels(rels, None, Some(kind)).filter(
            |m: RelationModel| rel_matches(m, Some(dir), None),
        ),
    decreases rels.len(),
{
    broadcast use vstd::prelude::Seq::lemma_filter_push;

    if rels.len() == 0 {
        assert(filter_rels(rels, Some(dir), Some(kind)) =~= filter_rels(
            rels,
            Some(dir),
            None,
        ).filter(|m: RelationModel| rel_matches(m, None, Some(kind))));
        assert(filter_rels(rels, Some(dir), Some(kind)) =~= filter_rels(
            rels,
            None,
            Some(kind),
        ).filter(|m: RelationModel| rel_matches(m, Some(dir), None)));
    } else {
        let rest = rels.drop_last();
        let last = rels.last();
        lemma_filter_both_is_intersection(rest, dir, kind);
        assert(rest.push(last) =~= rels);
        assert(filter_rels(rest.push(last), Some(dir), Some(kind)) == if rel_matches(
            last,
            Some(dir),
            Some(kind),
        ) {
            (filter_rels(rest, Some(dir), Some(kind)).push(last))
        } else {
            (filter_rels(rest, Some(dir), Some(kind)))
        });
        assert(filter_rels(rest.push(last), Some(dir), None) == if rel_matches(
            last,
            Some(dir),
            None,
        ) {
            (filter_rels(rest, Some(dir), None).push(last))
        } else {
            (filter_rels(rest, Some(dir), None))
        });
        assert(filter_rels(rest.push(last), None, Some(kind)) == if rel_matches(
            last,
            None,
            Some(kind),
        ) {
            (filter_rels(rest, None, Some(kind)).push(last))
        } else {
            (filter_rels(rest, None, Some(kind)))
        });
    }
}

/// Law: a neighbor query for an identifier that no resolvable peer carries
/// yields the empty sequence; an unresolvable record is left out, never
/// reported as a failure.
pub proof fn lemma_no_matching_neighbor_empty(
    g: Seq<NodeModel>,
    rels: Seq<RelationModel>,
    target: Seq<u8>,
)
    requires
        forall|j: int| 0 <= j < rels.len() ==> !neighbor_matches(g, rels[j], target),
    ensures
        matching_neighbors(g, rels, target) == Seq::<int>::empty(),
    decreases rels.len(),
{
    broadcast use vstd::prelude::Seq::lemma_filter_push;

    if rels.len() == 0 {
        assert(matching_neighbors(g, rels, target) =~= Seq::<int>::empty());
    } else {
        let rest = rels.drop_last();
        lemma_no_matching_neighbor_empty(g, rest, target);
        assert(rest.push(rels.last()) =~= rels);
        assert(!neighbor_matches(g, rels.last(), target));
        assert(rest.push(rels.last()).filter(
            |m: RelationModel| neighbor_matches(g, m, target),
        ) == rest.filter(|m: RelationModel| neighbor_matches(g, m, target)));
        assert(matching_neighbors(g, rels, target) =~= Seq::<int>::empty());
    }
}

impl RelationDirection {
    /// The direction code of this tag.
    pub open spec fn spec_id(&self) -> u8 {
        match self {
            RelationDirection::To(_) => RELATION_DIRECTION_TO,
            RelationDirection::From(_) => RELATION_DIRECTION_FROM,
        }
    }

    /// The peer handle this tag carries.
    pub open spec fn spec_peer(&self) -> int {
        match self {
            RelationDirection::To(node) => *node as int,
            RelationDirection::From(node) => *node as int,
        }
    }

    /// Numeric code of the direction, `RELATION_DIRECTION_TO` for outgoing
    /// and `RELATION_DIRECTION_FROM` for incoming.
    pub fn id(&self) -> (result: u8)
        ensures
            result == self.spec_id(),
    {
        match self {
            RelationDirection::To(_) => RELATION_DIRECTION_TO,
            RelationDirection::From(_) => RELATION_DIRECTION_FROM,
        }
    }
}

impl View for Relation {
    type V = RelationModel;

    open spec fn view(&self) -> RelationModel {
        RelationModel {
            dir: self.direction.spec_id(),
            peer: self.direction.spec_peer(),
            kind: self.kind@,
        }
    }
}

impl View for Node {
    type V = NodeModel;

    open spec fn view(&self) -> NodeModel {
        NodeModel { id: self.id@, rels: self.neighbors@.map_values(|r: Relation| r@) }
    }
}

/// Byte-for-byte copy of an identifier or label.
pub(crate) fn copy_bytes(v: &Vec<u8>) -> (result: Vec<u8>)
    ensures
        result@ == v@,
{
    let mut out: Vec<u8> = Vec::new();
    let mut i: usize = 0;
    while i < v.len()
        invariant
            i <= v@.len(),
            out@ == v@.take(i as int),
        decreases v@.len() - i,
    {
        out.push(v[i]);
        proof {
            assert(v@.take(i + 1) =~= v@.take(i as int).push(v@[i as int]));
        }
        i += 1;
    }
    proof {
        assert(v@.take(v@.len() as int) =~= v@);
    }
    out
}

/// Equality of two byte strings, decided byte by byte.
pub(crate) fn bytes_eq(a: &Vec<u8>, b: &Vec<u8>) -> (result: bool)
    ensures
        result == (a@ == b@),
{
    if a.len() != b.len() {
        return false;
    }
    let mut i: usize = 0;
    while i < a.len()
        invariant
            i <= a@.len(),
            a@.len() == b@.len(),
            forall|j: int| 0 <= j < i ==> a@[j] == b@[j],
        decreases a@.len() - i,
    {
        if a[i] != b[i] {
            return false;
        }
        i += 1;
    }
    proof {
        assert(a@ =~= b@);
    }
    true
}

impl Relation {
    /// A fresh relation record from a direction tag and a label.
    pub fn new(direction: RelationDirection, kind: Vec<u8>) -> (result: Relation)
        ensures
            result == (Relation { direction, kind }),
    {
        Relation { direction, kind }
    }

    /// The peer's handle, regardless of the direction of the edge.
    pub fn node(&self) -> (result: usize)
        ensures
            result as int == self@.peer,
    {
        match &self.direction {
            RelationDirection::From(node) => *node,
            RelationDirection::To(node) => *node,
        }
    }
}

impl Node {
    /// A fresh node with the given identifier and an empty adjacency list.
    pub fn new(id: Vec<u8>) -> (result: Node)
        ensures
            result@.id == id@,
            result@.rels == Seq::<RelationModel>::empty(),
            result.neighbors@.len() == 0,
    {
        let result = Node { id, neighbors: Vec::new() };
        proof {
            assert(result@.rels =~= Seq::<RelationModel>::empty());
        }
        result
    }

    /// The relations of this node that pass the given filters, in
    /// adjacency-list order. An absent filter matches everything on its
    /// dimension; supplying both keeps exactly the records that pass both.
    #[verifier::loop_isolation(false)]
    pub fn get_relation(
        &self,
        relation_direction: Option<u8>,
        kind: Option<&Vec<u8>>,
    ) -> (result: Vec<Relation>)
        ensures
            result@.map_values(|r: Relation| r@) == filter_rels(
                self@.rels,
                relation_direction,
                kind_filter_view(kind),
            ),
    {
        broadcast use vstd::prelude::Seq::lemma_filter_push;

        let ghost dirf = relation_direction;
        let ghost kindf = kind_filter_view(kind);
        let mut result: Vec<Relation> = Vec::new();
        let mut i: usize = 0;
        while i < self.neighbors.len()
            invariant
                i <= self.neighbors@.len(),
                result@.map_values(|r: Relation| r@) == filter_rels(
                    self@.rels.take(i as int),
                    dirf,
                    kindf,
                ),
            decreases self.neighbors@.len() - i,
        {
            let ghost prior = result@;
            let r = &self.neighbors[i];
            let dir_ok = match relation_direction {
                Some(d) => r.direction.id() == d,
                None => true,
            };
            let kind_ok = match kind {
                Some(k) => bytes_eq(&r.kind, k),
                None => true,
            };
            proof {
                let m = self@.rels[i as int];
                assert(m == self.neighbors@[i as int]@);
                assert((dir_ok && kind_ok) == rel_matches(m, dirf, kindf));
                assert(self@.rels.take(i + 1) =~= self@.rels.take(i as int).push(m));
                assert(filter_rels(self@.rels.take(i as int).push(m), dirf, kindf)
                    == if rel_matches(m, dirf, kindf) {
                    (filter_rels(self@.rels.take(i as int), dirf, kindf).push(m))
                } else {
                    (filter_rels(self@.rels.take(i as int), dirf, kindf))
                });
            }
            if dir_ok && kind_ok {
                let picked = Relation { direction: r.direction, kind: copy_bytes(&r.kind) };
                proof {
                    assert(picked@ =~= self@.rels[i as int]);
                }
                result.push(picked);
                proof {
                    assert(result@.map_values(|x: Relation| x@) =~= prior.map_values(
                        |x: Relation| x@,
                    ).push(self@.rels[i as int]));
                }
            }
            i += 1;
        }
        proof {
            assert(self@.rels.take(self.neighbors@.len() as int) =~= self@.rels);
        }
        result
    }

    /// The outgoing relations of this node, in adjacency-list order: the
    /// direction-only special case of `get_relation`.
    pub fn get_outgoing_relations(&self) -> (result: Vec<Relation>)
        ensures
            result@.map_values(|r: Relation| r@) == filter_rels(
                self@.rels,
                Some(RELATION_DIRECTION_TO),
                None,
            ),
    {
        self.get_relation(Some(RELATION_DIRECTION_TO), None)
    }

    /// The incoming relations of this node, in adjacency-list order: the
    /// direction-only special case of `get_relation`.
    pub fn get_incoming_relations(&self) -> (result: Vec<Relation>)
        ensures
            result@.map_values(|r: Relation| r@) == filter_rels(
                self@.rels,
                Some(RELATION_DIRECTION_FROM),
                None,
            ),
    {
        self.get_relation(Some(RELATION_DIRECTION_FROM), None)
    }

    /// The handles of this node's neighbors whose identifier is `target_id`,
    /// in adjacency-list order. Each relation's peer reference is upgraded
    /// through the store; a record whose peer the store does not resolve is
    /// left out of the result rather than reported as a failure.
    #[verifier::loop_isolation(false)]
    pub fn get_neighbors_with_id(&self, graph: &Graph, target_id: &Vec<u8>) -> (result: Vec<
        usize,
    >)
        ensures
            result@.map_values(|h: usize| h as int) == matching_neighbors(
                graph@,
                self@.rels,
                target_id@,
            ),
    {
        broadcast use vstd::prelude::Seq::lemma_filter_push;

        let mut result: Vec<usize> = Vec::new();
        let mut i: usize = 0;
        while i < self.neighbors.len()
            invariant
                i <= self.neighbors@.len(),
                result@.map_values(|h: usize| h as int) == matching_neighbors(
                    graph@,
                    self@.rels.take(i as int),
                    target_id@,
                ),
            decreases self.neighbors@.len() - i,
        {
            let ghost prior = result@;
            let r = &self.neighbors[i];
            let peer = r.node();
            let matched = match graph.get_node(peer) {
                Some(neighbor) => bytes_eq(&neighbor.id, target_id),
                None => false,
            };
            proof {
                let m = self@.rels[i as int];
                assert(m == self.neighbors@[i as int]@);
                assert(matched == neighbor_matches(graph@, m, target_id@));
                assert(self@.rels.take(i + 1) =~= self@.rels.take(i as int).push(m));
                let pred = |x: RelationModel| neighbor_matches(graph@, x, target_id@);
                assert(self@.rels.take(i as int).push(m).filter(pred)
                    == if neighbor_matches(graph@, m, target_id@) {
                    (self@.rels.take(i as int).filter(pred).push(m))
                } else {
                    (self@.rels.take(i as int).filter(pred))
                });
            }
            if matched {
                result.push(peer);
                proof {
                    assert(result@.map_values(|h: usize| h as int) =~= prior.map_values(
                        |h: usize| h as int,
                    ).push(peer as int));
                    assert(matching_neighbors(graph@, self@.rels.take(i + 1), target_id@)
                        =~= matching_neighbors(graph@, self@.rels.take(i as int), target_id@).push(
                        self@.rels[i as int].peer,
                    ));
                }
            }
            i += 1;
        }
        proof {
            assert(self@.rels.take(self.neighbors@.len() as int) =~= self@.rels);
        }
        result
    }
}

} // verus!
