//! The store that owns the nodes of the graph.
//!
//! The store keeps every node it ever created in one dense, append-only
//! arena; a handle is the node's index in that arena. Keeping a single owner
//! per node means the adjacency lists can refer to peers by plain handles:
//! no record on a node keeps another node alive, and no reference cycle can
//! form. Since nothing is ever removed, a handle held by a relation record
//! of a well-formed store always resolves.

use vstd::prelude::*;

use crate::node::bytes_eq;
use crate::node::copy_bytes;
use crate::node::filter_rels;
use crate::node::neighbor_matches;
use crate::node::Node;
use crate::node::NodeModel;
use crate::node::Relation;
use crate::node::RelationDirection;
use crate::node::RelationModel;
use crate::node::RELATION_DIRECTION_FROM;
use crate::node::RELATION_DIRECTION_TO;

verus! {

/// The identifier-indexed store of owned nodes.
#[derive(Debug)]
pub struct Graph {
    nodes: Vec<Node>,
}

impl View for Graph {
    type V = Seq<NodeModel>;

    closed spec fn view(&self) -> Seq<NodeModel> {
        self.nodes@.map_values(|n: Node| n@)
    }
}

/// Well-formedness of a store model: every relation record of every node
/// names a peer that the store owns.
pub open spec fn graph_wf(g: Seq<NodeModel>) -> bool {
    forall|i: int, j: int|
        0 <= i < g.len() && 0 <= j < g[i].rels.len() ==> 0 <= (#[trigger] g[i].rels[j]).peer
            < g.len()
}

/// The record `add_relation` appends to the source node: an outgoing edge
/// towards `peer`, labeled `kind`.
pub open spec fn outgoing_model(peer: int, kind: Seq<u8>) -> RelationModel {
    RelationModel { dir: RELATION_DIRECTION_TO, peer, kind }
}

/// The record `add_relation` appends to the target node: an incoming edge
/// from `peer`, labeled `kind`.
pub open spec fn incoming_model(peer: int, kind: Seq<u8>) -> RelationModel {
    RelationModel { dir: RELATION_DIRECTION_FROM, peer, kind }
}

/// The store model after one edge is created from `from` to `to` with label
/// `kind`: the source node gains the outgoing record, then the target node
/// gains the incoming record. When `from == to` the one node gains both, in
/// that order.
pub open spec fn add_relation_model(
    g: Seq<NodeModel>,
    from: int,
    to: int,
    kind: Seq<u8>,
) -> Seq<NodeModel> {
    let with_out = g.update(
        from,
        NodeModel { id: g[from].id, rels: g[from].rels.push(outgoing_model(to, kind)) },
    );
    with_out.update(
        to,
        NodeModel {
            id: with_out[to].id,
            rels: with_out[to].rels.push(incoming_model(from, kind)),
        },
    )
}

impl Graph {
    /// Well-formedness of the store: every peer handle on file resolves.
    pub open spec fn wf(&self) -> bool {
        graph_wf(self@)
    }

    /// An empty store.
    pub fn new() -> (result: Graph)
        ensures
            result@ == Seq::<NodeModel>::empty(),
            result.wf(),
    {
        let result = Graph { nodes: Vec::new() };
        proof {
            assert(result@ =~= Seq::<NodeModel>::empty());
        }
        result
    }

    /// Takes ownership of a freshly created node, stores it, and returns its
    /// handle. The caller keeps the handle; the store keeps the node.
    pub fn add_node(&mut self, node: Node) -> (handle: usize)
        requires
            node.neighbors@.len() == 0,
        ensures
            final(self)@ == old(self)@.push(node@),
            handle == old(self)@.len(),
            old(self).wf() ==> final(self).wf(),
    {
        let handle = self.nodes.len();
        self.nodes.push(node);
        proof {
            assert(self@ =~= old(self)@.push(node@));
            if old(self).wf() {
                assert forall|i: int, j: int|
                    0 <= i < self@.len() && 0 <= j < self@[i].rels.len() implies 0 <= (
                #[trigger] self@[i].rels[j]).peer < self@.len() by {
                    if i < old(self)@.len() {
                        assert(self@[i] == old(self)@[i]);
                        assert(0 <= old(self)@[i].rels[j].peer < old(self)@.len());
                    } else {
                        assert(self@[i].rels.len() == 0);
                    }
                }
            }
        }
        handle
    }

    /// Creates one labeled edge from `from_node` to `to_node`: the source
    /// gains an outgoing record naming the target and the target gains an
    /// incoming record naming the source, both carrying a copy of `relation`.
    /// Both records are written within this one call; no reader runs between
    /// the two writes.
    pub fn add_relation(&mut self, from_node: usize, to_node: usize, relation: &Vec<u8>)
        requires
            from_node < old(self)@.len(),
            to_node < old(self)@.len(),
        ensures
            final(self)@ == add_relation_model(
                old(self)@,
                from_node as int,
                to_node as int,
                relation@,
            ),
            old(self).wf() ==> final(self).wf(),
    {
        let out_rel = Relation::new(RelationDirection::To(to_node), copy_bytes(relation));
        self.nodes[from_node].neighbors.push(out_rel);
        let ghost mid = self.nodes@;
        let in_rel = Relation::new(RelationDirection::From(from_node), copy_bytes(relation));
        self.nodes[to_node].neighbors.push(in_rel);
        proof {
            let pre = old(self)@;
            let post = add_relation_model(pre, from_node as int, to_node as int, relation@);
            assert(mid.map_values(|n: Node| n@) =~~= pre.update(
                from_node as int,
                NodeModel {
                    id: pre[from_node as int].id,
                    rels: pre[from_node as int].rels.push(
                        outgoing_model(to_node as int, relation@),
                    ),
                },
            ));
            assert(self@ =~~= post);
            if old(self).wf() {
                assert forall|i: int, j: int|
                    0 <= i < post.len() && 0 <= j < post[i].rels.len() implies 0 <= (
                #[trigger] post[i].rels[j]).peer < post.len() by {
                    if j < pre[i].rels.len() {
                        assert(post[i].rels[j] == pre[i].rels[j]);
                        assert(0 <= pre[i].rels[j].peer < pre.len());
                    }
                }
            }
        }
    }

    /// Looks an identifier up in the store: the handle of the most recently
    /// stored node carrying `id`, or nothing when no stored node carries it.
    #[verifier::loop_isolation(false)]
    pub fn get_by_id(&self, id: &Vec<u8>) -> (result: Option<usize>)
        ensures
            match result {
                Some(handle) => handle < self@.len() && self@[handle as int].id == id@
                    && forall|j: int| handle < j < self@.len() ==> self@[j].id != id@,
                None => forall|j: int| 0 <= j < self@.len() ==> self@[j].id != id@,
            },
    {
        let mut i: usize = self.nodes.len();
        while i > 0
            invariant
                i <= self.nodes@.len(),
                forall|j: int| i <= j < self@.len() ==> self@[j].id != id@,
            decreases i,
        {
            i = i - 1;
            if bytes_eq(&self.nodes[i].id, id) {
                return Some(i);
            }
        }
        None
    }

    /// Resolves a handle to the node it names: the upgrade of a non-owning
    /// peer reference into a view of the live node. Fails exactly on handles
    /// the store never handed out.
    pub fn get_node(&self, handle: usize) -> (result: Option<&Node>)
        ensures
            match result {
                Some(node) => handle < self@.len() && node@ == self@[handle as int],
                None => handle >= self@.len(),
            },
    {
        if handle < self.nodes.len() {
            Some(&self.nodes[handle])
        } else {
            None
        }
    }
}

/// Whether `m` is an outgoing record labeled `kind` whose peer resolves, in
/// store `g`, to a node with identifier `target`.
pub open spec fn is_out_rel_to_id(
    g: Seq<NodeModel>,
    m: RelationModel,
    kind: Seq<u8>,
    target: Seq<u8>,
) -> bool {
    m.dir == RELATION_DIRECTION_TO && m.kind == kind && neighbor_matches(g, m, target)
}

/// Whether `m` is an incoming record labeled `kind` whose peer resolves, in
/// store `g`, to a node with identifier `target`.
pub open spec fn is_in_rel_from_id(
    g: Seq<NodeModel>,
    m: RelationModel,
    kind: Seq<u8>,
    target: Seq<u8>,
) -> bool {
    m.dir == RELATION_DIRECTION_FROM && m.kind == kind && neighbor_matches(g, m, target)
}

/// The outgoing records of `n` labeled `kind` that resolve, in store `g`,
/// to a node with identifier `target`.
pub open spec fn out_rels_to_id(
    g: Seq<NodeModel>,
    n: NodeModel,
    kind: Seq<u8>,
    target: Seq<u8>,
) -> Seq<RelationModel> {
    n.rels.filter(|m: RelationModel| is_out_rel_to_id(g, m, kind, target))
}

/// The incoming records of `n` labeled `kind` that resolve, in store `g`,
/// to a node with identifier `target`.
pub open spec fn in_rels_from_id(
    g: Seq<NodeModel>,
    n: NodeModel,
    kind: Seq<u8>,
    target: Seq<u8>,
) -> Seq<RelationModel> {
    n.rels.filter(|m: RelationModel| is_in_rel_from_id(g, m, kind, target))
}

/// Resolved record selections read only the stores' lengths and identifiers:
/// two stores of the same length and the same identifiers select the same
/// records of any node.
proof fn lemma_rel_selection_depends_on_ids(
    g: Seq<NodeModel>,
    h: Seq<NodeModel>,
    n: NodeModel,
    kind: Seq<u8>,
    target: Seq<u8>,
)
    requires
        h.len() == g.len(),
        forall|i: int| 0 <= i < g.len() ==> h[i].id == g[i].id,
    ensures
        out_rels_to_id(h, n, kind, target) == out_rels_to_id(g, n, kind, target),
        in_rels_from_id(h, n, kind, target) == in_rels_from_id(g, n, kind, target),
    decreases n.rels.len(),
{
    broadcast use vstd::prelude::Seq::lemma_filter_push;

    if n.rels.len() == 0 {
        assert(out_rels_to_id(h, n, kind, target) =~= out_rels_to_id(g, n, kind, target));
        assert(in_rels_from_id(h, n, kind, target) =~= in_rels_from_id(g, n, kind, target));
    } else {
        let shorter = NodeModel { id: n.id, rels: n.rels.drop_last() };
        let last = n.rels.last();
        lemma_rel_selection_depends_on_ids(g, h, shorter, kind, target);
        assert(shorter.rels.push(last) =~= n.rels);
        assert(is_out_rel_to_id(h, last, kind, target) == is_out_rel_to_id(g, last, kind, target));
        assert(is_in_rel_from_id(h, last, kind, target) == is_in_rel_from_id(g, last, kind, target));
        assert(out_rels_to_id(h, n, kind, target) == if is_out_rel_to_id(h, last, kind, target) {
            (out_rels_to_id(h, shorter, kind, target).push(last))
        } else {
            (out_rels_to_id(h, shorter, kind, target))
        });
        assert(out_rels_to_id(g, n, kind, target) == if is_out_rel_to_id(g, last, kind, target) {
            (out_rels_to_id(g, shorter, kind, target).push(last))
        } else {
            (out_rels_to_id(g, shorter, kind, target))
        });
        assert(in_rels_from_id(h, n, kind, target) == if is_in_rel_from_id(h, last, kind, target) {
            (in_rels_from_id(h, shorter, kind, target).push(last))
        } else {
            (in_rels_from_id(h, shorter, kind, target))
        });
        assert(in_rels_from_id(g, n, kind, target) == if is_in_rel_from_id(g, last, kind, target) {
            (in_rels_from_id(g, shorter, kind, target).push(last))
        } else {
            (in_rels_from_id(g, shorter, kind, target))
        });
    }
}

/// Law: after one edge is created from `from` to `to` with label `kind`, the
/// source node holds exactly one outgoing record labeled `kind` resolving to
/// a node with the target's identifier — the new record, whose peer is `to`
/// itself — and the target node holds exactly one such incoming record, the
/// symmetric counterpart naming the source. Stated for nodes that held no
/// such record before the edge was created.
pub proof fn lemma_add_relation_seen_from_both_ends(
    g: Seq<NodeModel>,
    from: int,
    to: int,
    kind: Seq<u8>,
)
    requires
        0 <= from < g.len(),
        0 <= to < g.len(),
        out_rels_to_id(g, g[from], kind, g[to].id).len() == 0,
        in_rels_from_id(g, g[to], kind, g[from].id).len() == 0,
    ensures
        ({
            let g2 = add_relation_model(g, from, to, kind);
            &&& out_rels_to_id(g2, g2[from], kind, g2[to].id) == seq![outgoing_model(to, kind)]
            &&& in_rels_from_id(g2, g2[to], kind, g2[from].id) == seq![incoming_model(from, kind)]
        }),
{
    broadcast use vstd::prelude::Seq::lemma_filter_push;

    let g2 = add_relation_model(g, from, to, kind);
    let out = outgoing_model(to, kind);
    let inc = incoming_model(from, kind);
    assert(g2.len() == g.len());
    assert(forall|i: int| 0 <= i < g.len() ==> g2[i].id == g[i].id);
    lemma_rel_selection_depends_on_ids(g, g2, g[from], kind, g[to].id);
    lemma_rel_selection_depends_on_ids(g, g2, g[to], kind, g[from].id);
    assert(is_out_rel_to_id(g2, out, kind, g2[to].id));
    assert(is_in_rel_from_id(g2, inc, kind, g2[from].id));
    assert(!is_out_rel_to_id(g2, inc, kind, g2[to].id));
    assert(!is_in_rel_from_id(g2, out, kind, g2[from].id));
    if from != to {
        assert(g2[from].rels == g[from].rels.push(out));
        assert(g2[to].rels == g[to].rels.push(inc));
        assert(out_rels_to_id(g2, g2[from], kind, g2[to].id) == out_rels_to_id(
            g2,
            g[from],
            kind,
            g2[to].id,
        ).push(out)) by {
            let shorter = NodeModel { id: g2[from].id, rels: g[from].rels };
            assert(g2[from] == NodeModel { id: g2[from].id, rels: shorter.rels.push(out) });
            assert(out_rels_to_id(g2, shorter, kind, g2[to].id) == out_rels_to_id(
                g2,
                g[from],
                kind,
                g2[to].id,
            ));
        }
        assert(out_rels_to_id(g2, g[from], kind, g2[to].id).len() == 0);
        assert(out_rels_to_id(g2, g2[from], kind, g2[to].id) =~= seq![out]);
        assert(in_rels_from_id(g2, g2[to], kind, g2[from].id) == in_rels_from_id(
            g2,
            g[to],
            kind,
            g2[from].id,
        ).push(inc)) by {
            let shorter = NodeModel { id: g2[to].id, rels: g[to].rels };
            assert(g2[to] == NodeModel { id: g2[to].id, rels: shorter.rels.push(inc) });
            assert(in_rels_from_id(g2, shorter, kind, g2[from].id) == in_rels_from_id(
                g2,
                g[to],
                kind,
                g2[from].id,
            ));
        }
        assert(in_rels_from_id(g2, g[to], kind, g2[from].id).len() == 0);
        assert(in_rels_from_id(g2, g2[to], kind, g2[from].id) =~= seq![inc]);
    } else {
        // A self-loop: the one node gains the outgoing and then the incoming
        // record; each selection keeps exactly its own one of the two.
        let base = NodeModel { id: g2[from].id, rels: g[from].rels };
        let mid = NodeModel { id: g2[from].id, rels: g[from].rels.push(out) };
        assert(g2[from].rels == mid.rels.push(inc));
        assert(g2[from] == NodeModel { id: g2[from].id, rels: mid.rels.push(inc) });
        assert(out_rels_to_id(g2, g2[from], kind, g2[to].id) == out_rels_to_id(
            g2,
            mid,
            kind,
            g2[to].id,
        ));
        assert(mid == NodeModel { id: g2[from].id, rels: base.rels.push(out) });
        assert(out_rels_to_id(g2, mid, kind, g2[to].id) == out_rels_to_id(
            g2,
            base,
            kind,
            g2[to].id,
        ).push(out));
        assert(out_rels_to_id(g2, base, kind, g2[to].id) == out_rels_to_id(
            g2,
            g[from],
            kind,
            g2[to].id,
        ));
        assert(out_rels_to_id(g2, g[from], kind, g2[to].id).len() == 0);
        assert(out_rels_to_id(g2, g2[from], kind, g2[to].id) =~= seq![out]);
        assert(in_rels_from_id(g2, g2[to], kind, g2[from].id) == in_rels_from_id(
            g2,
            mid,
            kind,
            g2[from].id,
        ).push(inc));
        assert(in_rels_from_id(g2, mid, kind, g2[from].id) == in_rels_from_id(
            g2,
            base,
            kind,
            g2[from].id,
        ));
        assert(in_rels_from_id(g2, base, kind, g2[from].id) == in_rels_from_id(
            g2,
            g[to],
            kind,
            g2[from].id,
        ));
        assert(in_rels_from_id(g2, g[to], kind, g2[from].id).len() == 0);
        assert(in_rels_from_id(g2, g2[to], kind, g2[from].id) =~= seq![inc]);
    }
}

/// Whether a node has at least one outgoing relation.
pub open spec fn has_outgoing(n: NodeModel) -> bool {
    filter_rels(n.rels, Some(RELATION_DIRECTION_TO), None).len() > 0
}

/// The peer handle of a node's first outgoing relation.
pub open spec fn first_outgoing_peer(n: NodeModel) -> int {
    filter_rels(n.rels, Some(RELATION_DIRECTION_TO), None).first().peer
}

/// The handle reached from `h` after `k` hops, each hop following the first
/// outgoing relation of the node the previous hop landed on.
pub open spec fn hops(g: Seq<NodeModel>, h: int, k: nat) -> int
    decreases k,
{
    if k == 0 {
        h
    } else {
        hops(g, first_outgoing_peer(g[h]), (k - 1) as nat)
    }
}

/// Law: in a well-formed store that is not being mutated and where every
/// node has at least one outgoing relation — a cycle, for instance —
/// following the first outgoing relation for any number of hops always
/// lands on a handle the store resolves: no hop ever fails an upgrade.
pub proof fn lemma_long_traversal_stays_live(g: Seq<NodeModel>, h: int, k: nat)
    requires
        graph_wf(g),
        0 <= h < g.len(),
        forall|i: int| 0 <= i < g.len() ==> has_outgoing(#[trigger] g[i]),
    ensures
        0 <= hops(g, h, k) < g.len(),
    decreases k,
{
    broadcast use vstd::prelude::Seq::lemma_filter_contains_rev;

    if k > 0 {
        let outs = filter_rels(g[h].rels, Some(RELATION_DIRECTION_TO), None);
        assert(has_outgoing(g[h]));
        assert(outs.contains(outs.first()));
        assert(g[h].rels.contains(outs.first()));
        let j = choose|j: int| 0 <= j < g[h].rels.len() && g[h].rels[j] == outs.first();
        assert(0 <= g[h].rels[j].peer < g.len());
        lemma_long_traversal_stays_live(g, first_outgoing_peer(g[h]), (k - 1) as nat);
    }
}

} // verus!
