//! The laws of the two build passes and of serialization, stated and proved
//! over the specification model.

use vstd::prelude::*;
use crate::node::{
    Node, opt_view, seq_views, has_node, node_at, trash_id, in_trash, in_trash_fuel, owner_of,
};
use crate::node_builder::{
    NodeBuilder, OriginNode, has_origin, origin_at, node_resolves, lemma_complete_len,
};
use crate::block::{Block, lines_of};
use crate::block_builder::root_ok;

verus! {

/// Two resolved properties of the same raw record carry the same values.
pub open spec fn props_sim(a: Option<crate::node::Props>, b: Option<crate::node::Props>) -> bool {
    match (a, b) {
        (Option::None, Option::None) => true,
        (Option::Some(p), Option::Some(q)) => p.created == q.created && opt_view(p.name)
            == opt_view(q.name) && opt_view(p.description) == opt_view(q.description) && opt_view(
            p.doc_type,
        ) == opt_view(q.doc_type) && opt_view(p.owner_node) == opt_view(q.owner_node) && opt_view(
            p.meta_node,
        ) == opt_view(q.meta_node) && opt_view(p.source_node) == opt_view(q.source_node),
        _ => false,
    }
}

/// Two nodes that carry the same id, children and property values.
pub open spec fn node_sim(a: Node, b: Node) -> bool {
    a.id@ == b.id@ && seq_views(a.children@) == seq_views(b.children@) && props_sim(
        a.props,
        b.props,
    )
}

/// Resolving one raw record twice against the same raw set gives the same
/// values.
proof fn lemma_resolve_functional(origin: Seq<OriginNode>, r: OriginNode, a: Node, b: Node)
    requires
        node_resolves(origin, r, a),
        node_resolves(origin, r, b),
    ensures
        node_sim(a, b),
{
    match r.props {
        Option::None => {},
        Option::Some(op) => {
            match op.owner_id {
                Option::None => {},
                Option::Some(_) => {},
            }
        },
    }
}

/// Resolution is order-independent and idempotent: any two complete builders
/// over the same raw record set hold the same entities, id by id, and as
/// many of them as there are raw records.
pub proof fn lemma_build_order_independent(a: NodeBuilder, b: NodeBuilder)
    requires
        a.wf(),
        a.complete(),
        b.wf(),
        b.complete(),
        a.origin@ == b.origin@,
    ensures
        a.nodes@.len() == b.nodes@.len(),
        a.nodes@.len() == a.origin@.len(),
        forall|id: Seq<char>| has_node(a.nodes@, id) == has_node(b.nodes@, id),
        forall|id: Seq<char>|
            has_node(a.nodes@, id) ==> node_sim(
                #[trigger] node_at(a.nodes@, id),
                node_at(b.nodes@, id),
            ),
{
    lemma_complete_len(a.origin@, a.nodes@);
    lemma_complete_len(b.origin@, b.nodes@);
    assert forall|id: Seq<char>| has_node(a.nodes@, id) == has_node(b.nodes@, id) by {
        if has_node(a.nodes@, id) {
            let i = choose|i: int| 0 <= i < a.nodes@.len() && a.nodes@[i].id@ == id;
            assert(has_origin(a.origin@, a.nodes@[i].id@));
            let k = choose|k: int| 0 <= k < a.origin@.len() && a.origin@[k].id@ == id;
            assert(has_node(b.nodes@, b.origin@[k].id@));
        }
        if has_node(b.nodes@, id) {
            let i = choose|i: int| 0 <= i < b.nodes@.len() && b.nodes@[i].id@ == id;
            assert(has_origin(b.origin@, b.nodes@[i].id@));
            let k = choose|k: int| 0 <= k < b.origin@.len() && b.origin@[k].id@ == id;
            assert(has_node(a.nodes@, a.origin@[k].id@));
        }
    }
    assert forall|id: Seq<char>| has_node(a.nodes@, id) implies node_sim(
        #[trigger] node_at(a.nodes@, id),
        node_at(b.nodes@, id),
    ) by {
        let i = choose|i: int| 0 <= i < a.nodes@.len() && a.nodes@[i].id@ == id;
        crate::node::lemma_node_at_index(a.nodes@, i, id);
        let j = choose|j: int| 0 <= j < b.nodes@.len() && b.nodes@[j].id@ == id;
        crate::node::lemma_node_at_index(b.nodes@, j, id);
        let k = choose|k: int| 0 <= k < a.origin@.len() && a.origin@[k].id@ == id;
        crate::node_builder::lemma_origin_at_index(a.origin@, k, id);
        lemma_resolve_functional(
            a.origin@,
            origin_at(a.origin@, id),
            node_at(a.nodes@, id),
            node_at(b.nodes@, id),
        );
    }
}

/// Serialization is pure and idempotent: two serializations of the same
/// unmodified block store, at the same level and expansion, yield identical
/// line sequences.
pub proof fn lemma_serialize_idempotent(
    blocks: Seq<Block>,
    id: Seq<char>,
    level: nat,
    expand: bool,
    r1: Seq<Seq<char>>,
    r2: Seq<Seq<char>>,
)
    requires
        r1 == lines_of(blocks, id, level, expand),
        r2 == lines_of(blocks, id, level, expand),
    ensures
        r1 == r2,
{
}

/// Distinct ids that all name stored nodes are at most as many as the nodes.
proof fn lemma_id_seq_bound(ids: Seq<Seq<char>>, nodes: Seq<Node>)
    requires
        ids.no_duplicates(),
        forall|k: int| 0 <= k < ids.len() ==> has_node(nodes, #[trigger] ids[k]),
    ensures
        ids.len() <= nodes.len(),
{
    let nvs = nodes.map_values(|n: Node| n.id@);
    ids.unique_seq_to_set();
    nvs.lemma_cardinality_of_set();
    assert forall|x: Seq<char>| ids.to_set().contains(x) implies nvs.to_set().contains(x) by {
        let k = choose|k: int| 0 <= k < ids.len() && ids[k] == x;
        assert(has_node(nodes, ids[k]));
        let j = choose|j: int| 0 <= j < nodes.len() && nodes[j].id@ == x;
        assert(nvs[j] == x);
    }
    vstd::set_lib::lemma_len_subset(ids.to_set(), nvs.to_set());
}

/// Walking a concrete ownership chain that ends at a trash-suffixed id shows
/// the first entity trashed, for any fuel at least the chain's length.
proof fn lemma_chain_in_trash(nodes: Seq<Node>, chain: Seq<Seq<char>>, fuel: nat)
    requires
        chain.len() >= 1,
        forall|k: int| 0 <= k < chain.len() - 1 ==> owner_of(nodes, #[trigger] chain[k])
            == Option::Some(chain[k + 1]),
        trash_id(chain.last()),
        fuel + 1 >= chain.len(),
    ensures
        in_trash_fuel(nodes, chain[0], fuel),
    decreases chain.len(),
{
    if trash_id(chain[0]) {
    } else {
        assert(chain.len() >= 2);
        let rest = chain.drop_first();
        assert(rest.last() == chain.last());
        assert forall|k: int| 0 <= k < rest.len() - 1 implies owner_of(nodes, #[trigger] rest[k])
            == Option::Some(rest[k + 1]) by {
            assert(rest[k] == chain[k + 1]);
            assert(rest[k + 1] == chain[k + 2]);
        }
        lemma_chain_in_trash(nodes, rest, (fuel - 1) as nat);
        assert(owner_of(nodes, chain[0]) == Option::Some(chain[1]));
        assert(rest[0] == chain[1]);
    }
}

/// Trash propagates through ownership: an entity owned, directly or
/// transitively, by an id that ends in the trash suffix is in trash, even if
/// its own id does not end in that suffix, and is therefore excluded from
/// root traversal. The chain lists the ids from the entity up through its
/// owners; an acyclic chain repeats no id.
pub proof fn lemma_trash_propagation(nodes: Seq<Node>, chain: Seq<Seq<char>>)
    requires
        chain.len() >= 1,
        chain.no_duplicates(),
        forall|k: int| 0 <= k < chain.len() ==> has_node(nodes, #[trigger] chain[k]),
        forall|k: int| 0 <= k < chain.len() - 1 ==> owner_of(nodes, #[trigger] chain[k])
            == Option::Some(chain[k + 1]),
        trash_id(chain.last()),
    ensures
        in_trash(nodes, chain[0]),
        !root_ok(nodes, chain[0]),
{
    lemma_id_seq_bound(chain, nodes);
    lemma_chain_in_trash(nodes, chain, nodes.len() as nat);
}

/// Dangling references are tolerated: a child id absent from the raw record
/// set does not appear in the resolved child list.
pub proof fn lemma_dangling_child_excluded(
    origin: Seq<OriginNode>,
    r: OriginNode,
    n: Node,
    c: Seq<char>,
)
    requires
        node_resolves(origin, r, n),
        !has_origin(origin, c),
    ensures
        !seq_views(n.children@).contains(c),
{
    let raw = crate::node_builder::raw_children(r);
    let ft = raw.filter(crate::node_builder::kept_pred(origin, true));
    let ff = raw.filter(crate::node_builder::kept_pred(origin, false));
    assert forall|i: int| 0 <= i < seq_views(n.children@).len() implies seq_views(n.children@)[i]
        != c by {
        if i < ft.len() {
            raw.lemma_filter_pred(crate::node_builder::kept_pred(origin, true), i);
            assert(has_origin(origin, ft[i]));
        } else {
            raw.lemma_filter_pred(crate::node_builder::kept_pred(origin, false), i - ft.len());
            assert(has_origin(origin, ff[i - ft.len()]));
        }
    }
    if seq_views(n.children@).contains(c) {
        let i = choose|i: int|
            0 <= i < seq_views(n.children@).len() && seq_views(n.children@)[i] == c;
    }
}

} // verus!
