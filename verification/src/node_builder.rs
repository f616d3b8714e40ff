//! The graph builder: turns raw records into the resolved entity store.
//!
//! Resolution of one record is a pure function of the record and of the set
//! of raw ids: scalar properties are copied; owner / metadata / source links
//! are kept only where the referenced id exists in the raw set; listed child
//! ids absent from the raw set are silently skipped; the kept children are
//! stably partitioned so that tuple-kind children come first.

use vstd::prelude::*;
use crate::node::{
    DocType, Node, Props, kind_of, opt_view, seq_views, has_node, node_at, distinct_node_ids,
};

verus! {

/// A raw record as found in the export: the source of truth, never mutated.
pub struct OriginNode {
    pub id: String,
    pub props: Option<OriginalProps>,
    pub touch_counts: Option<Vec<u64>>,
    pub modified_ts: Option<Vec<u64>>,
    pub children: Option<Vec<String>>,
}

/// The optional property bag of a raw record.
pub struct OriginalProps {
    pub created: u64,
    pub name: Option<String>,
    pub description: Option<String>,
    pub doc_type: Option<String>,
    pub owner_id: Option<String>,
    pub meta_node_id: Option<String>,
    pub source_id: Option<String>,
}

/// Whether the raw store holds a record with this id.
pub open spec fn has_origin(origin: Seq<OriginNode>, id: Seq<char>) -> bool {
    exists|i: int| 0 <= i < origin.len() && origin[i].id@ == id
}

/// The raw record with this id (meaningful under `distinct_origin_ids`).
pub open spec fn origin_at(origin: Seq<OriginNode>, id: Seq<char>) -> OriginNode {
    origin[choose|i: int| 0 <= i < origin.len() && origin[i].id@ == id]
}

/// No two raw records share an id.
pub open spec fn distinct_origin_ids(origin: Seq<OriginNode>) -> bool {
    forall|i: int, j: int|
        0 <= i < origin.len() && 0 <= j < origin.len() && i != j ==> origin[i].id@ != origin[j].id@
}

/// A resolved link: present with the raw id exactly when that id exists in
/// the raw set, absent otherwise.
pub open spec fn link_resolved(
    origin: Seq<OriginNode>,
    raw: Option<String>,
    res: Option<String>,
) -> bool {
    match raw {
        Option::None => res is None,
        Option::Some(x) => if has_origin(origin, x@) {
            res matches Some(y) && y@ == x@
        } else {
            res is None
        },
    }
}

/// Resolved properties: scalars copied, links resolved against the raw set.
pub open spec fn props_resolved(
    origin: Seq<OriginNode>,
    raw: Option<OriginalProps>,
    res: Option<Props>,
) -> bool {
    match raw {
        Option::None => res is None,
        Option::Some(op) => res matches Some(p) && p.created == op.created && opt_view(p.name)
            == opt_view(op.name) && opt_view(p.description) == opt_view(op.description) && opt_view(
            p.doc_type,
        ) == opt_view(op.doc_type) && link_resolved(origin, op.owner_id, p.owner_node)
            && link_resolved(origin, op.meta_node_id, p.meta_node) && link_resolved(
            origin,
            op.source_id,
            p.source_node,
        ),
    }
}

/// The doc kind a raw id will resolve to; `Text` for absent records or
/// records without properties.
pub open spec fn origin_kind(origin: Seq<OriginNode>, id: Seq<char>) -> DocType {
    if has_origin(origin, id) {
        match origin_at(origin, id).props {
            Option::None => DocType::Text,
            Option::Some(p) => kind_of(opt_view(p.doc_type)),
        }
    } else {
        DocType::Text
    }
}

/// The child ids a raw record lists, an empty sequence where none are listed.
pub open spec fn raw_children(r: OriginNode) -> Seq<Seq<char>> {
    match r.children {
        Option::None => Seq::empty(),
        Option::Some(v) => seq_views(v@),
    }
}

/// Keeps a child id when it exists in the raw set and its tuple-ness matches.
pub open spec fn kept_pred(origin: Seq<OriginNode>, want_tuple: bool) -> spec_fn(Seq<char>) -> bool {
    |c: Seq<char>| has_origin(origin, c) && ((origin_kind(origin, c) == DocType::Tuple)
        == want_tuple)
}

/// The resolved child list: listed ids present in the raw set, tuple-kind
/// children first, relative order kept within each group.
pub open spec fn resolved_children(origin: Seq<OriginNode>, r: OriginNode) -> Seq<Seq<char>> {
    raw_children(r).filter(kept_pred(origin, true)) + raw_children(r).filter(
        kept_pred(origin, false),
    )
}

/// `n` is the resolution of raw record `r` against the raw set `origin`.
pub open spec fn node_resolves(origin: Seq<OriginNode>, r: OriginNode, n: Node) -> bool {
    n.id@ == r.id@ && props_resolved(origin, r.props, n.props) && seq_views(n.children@)
        == resolved_children(origin, r)
}

/// The builder: a by-id raw record store and the by-id resolved node store.
pub struct NodeBuilder {
    pub origin: Vec<OriginNode>,
    pub nodes: Vec<Node>,
}

impl NodeBuilder {
    /// Ids are unique in both stores and every resolved node is the
    /// resolution of its raw record.
    pub open spec fn wf(&self) -> bool {
        &&& distinct_origin_ids(self.origin@)
        &&& distinct_node_ids(self.nodes@)
        &&& forall|i: int|
            0 <= i < self.nodes@.len() ==> has_origin(self.origin@, #[trigger] self.nodes@[i].id@)
                && node_resolves(
                self.origin@,
                origin_at(self.origin@, self.nodes@[i].id@),
                self.nodes@[i],
            )
    }

    /// Every raw record has been resolved.
    pub open spec fn complete(&self) -> bool {
        forall|i: int|
            0 <= i < self.origin@.len() ==> has_node(self.nodes@, #[trigger] self.origin@[i].id@)
    }

    pub fn new() -> (b: NodeBuilder)
        ensures
            b.wf(),
            b.origin@.len() == 0,
            b.nodes@.len() == 0,
    {
        NodeBuilder { origin: Vec::new(), nodes: Vec::new() }
    }

    /// Registers one raw record; a record with the same id is replaced.
    /// Records may only be added before any node is resolved.
    pub fn add_origin(&mut self, rec: OriginNode)
        requires
            old(self).wf(),
            old(self).nodes@.len() == 0,
        ensures
            final(self).wf(),
            final(self).nodes@.len() == 0,
            has_origin(final(self).origin@, rec.id@),
            origin_at(final(self).origin@, rec.id@) == rec,
            forall|id: Seq<char>|
                id != rec.id@ ==> (has_origin(final(self).origin@, id) == has_origin(
                    old(self).origin@,
                    id,
                ) && (has_origin(final(self).origin@, id) ==> origin_at(final(self).origin@, id) == origin_at(
                    old(self).origin@,
                    id,
                ))),
            !has_origin(old(self).origin@, rec.id@) ==> final(self).origin@ == old(self).origin@.push(rec),
    {
        let ghost oldorigin = self.origin@;
        let ghost recid = rec.id@;
        match find_origin(&self.origin, &rec.id) {
            Option::Some(i) => {
                self.origin.set(i, rec);
                proof {
                    assert forall|id: Seq<char>| id != recid implies (has_origin(
                        self.origin@,
                        id,
                    ) == has_origin(oldorigin, id) && (has_origin(self.origin@, id) ==> origin_at(
                        self.origin@,
                        id,
                    ) == origin_at(oldorigin, id))) by {
                        if has_origin(oldorigin, id) {
                            let j = choose|j: int|
                                0 <= j < oldorigin.len() && oldorigin[j].id@ == id;
                            assert(self.origin@[j].id@ == id);
                        }
                        if has_origin(self.origin@, id) {
                            let j = choose|j: int|
                                0 <= j < self.origin@.len() && self.origin@[j].id@ == id;
                            assert(j != i);
                            assert(oldorigin[j].id@ == id);
                            lemma_origin_at_index(oldorigin, j, id);
                            lemma_origin_at_index(self.origin@, j, id);
                        }
                    }
                    lemma_origin_at_index(self.origin@, i as int, recid);
                }
            },
            Option::None => {
                self.origin.push(rec);
                proof {
                    assert forall|id: Seq<char>| id != recid implies (has_origin(
                        self.origin@,
                        id,
                    ) == has_origin(oldorigin, id) && (has_origin(self.origin@, id) ==> origin_at(
                        self.origin@,
                        id,
                    ) == origin_at(oldorigin, id))) by {
                        if has_origin(oldorigin, id) {
                            let j = choose|j: int|
                                0 <= j < oldorigin.len() && oldorigin[j].id@ == id;
                            assert(self.origin@[j].id@ == id);
                        }
                        if has_origin(self.origin@, id) {
                            let j = choose|j: int|
                                0 <= j < self.origin@.len() && self.origin@[j].id@ == id;
                            assert(j < oldorigin.len());
                            lemma_origin_at_index(oldorigin, j, id);
                            lemma_origin_at_index(self.origin@, j, id);
                        }
                    }
                    lemma_origin_at_index(self.origin@, self.origin@.len() - 1, recid);
                }
            },
        }
    }

    /// Registers a whole raw record collection, in order; on duplicate ids
    /// the later record wins.
    pub fn load_records(&mut self, recs: Vec<OriginNode>)
        requires
            old(self).wf(),
            old(self).nodes@.len() == 0,
        ensures
            final(self).wf(),
            final(self).nodes@.len() == 0,
            forall|id: Seq<char>|
                (!exists|k: int| 0 <= k < recs@.len() && recs@[k].id@ == id) ==> (has_origin(
                    final(self).origin@,
                    id,
                ) == has_origin(old(self).origin@, id) && (has_origin(final(self).origin@, id)
                    ==> origin_at(final(self).origin@, id) == origin_at(old(self).origin@, id))),
            forall|k: int|
                0 <= k < recs@.len() && (forall|l: int|
                    k < l < recs@.len() ==> recs@[l].id@ != #[trigger] recs@[k].id@) ==> (
                has_origin(final(self).origin@, recs@[k].id@) && origin_at(final(self).origin@, recs@[k].id@)
                    == recs@[k]),
    {
        let ghost oldorigin = old(self).origin@;
        let ghost rs = recs@;
        let mut recs = recs;
        let n = recs.len();
        let mut i: usize = 0;
        while i < n
            invariant
                self.wf(),
                self.nodes@.len() == 0,
                n == rs.len(),
                recs@ =~= rs.skip(i as int),
                i <= n,
                forall|id: Seq<char>|
                    (!exists|k: int| 0 <= k < i && rs[k].id@ == id) ==> (has_origin(
                        self.origin@,
                        id,
                    ) == has_origin(oldorigin, id) && (has_origin(self.origin@, id) ==> origin_at(
                        self.origin@,
                        id,
                    ) == origin_at(oldorigin, id))),
                forall|k: int|
                    0 <= k < i && (forall|l: int| k < l < i ==> rs[l].id@ != #[trigger] rs[k].id@)
                        ==> (has_origin(self.origin@, rs[k].id@) && origin_at(
                        self.origin@,
                        rs[k].id@,
                    ) == rs[k]),
            decreases n - i,
        {
            proof {
                assert(recs@[0] == rs.skip(i as int)[0]);
            }
            let rec = recs.remove(0);
            proof {
                assert(recs@ =~= rs.skip(i as int + 1));
            }
            assert(rec == rs[i as int]);
            self.add_origin(rec);
            proof {
                assert forall|k: int|
                    0 <= k < i + 1 && (forall|l: int|
                        k < l < i + 1 ==> rs[l].id@ != #[trigger] rs[k].id@) implies (has_origin(
                    self.origin@,
                    rs[k].id@,
                ) && origin_at(self.origin@, rs[k].id@) == rs[k]) by {
                    if k == i as int {
                    } else {
                        assert(rs[i as int].id@ != rs[k].id@);
                    }
                }
            }
            i += 1;
        }
    }

    /// Resolves every raw record not yet resolved; already-resolved ids are
    /// skipped, so the pass is idempotent. Afterwards the resolved store
    /// holds exactly one node per raw record.
    pub fn build_nodes(&mut self)
        requires
            old(self).wf(),
        ensures
            final(self).wf(),
            final(self).complete(),
            final(self).origin@ == old(self).origin@,
            final(self).nodes@.len() == final(self).origin@.len(),
            old(self).nodes@.is_prefix_of(final(self).nodes@),
            old(self).complete() ==> final(self).nodes@ == old(self).nodes@,
    {
        let n = self.origin.len();
        let mut i: usize = 0;
        while i < n
            invariant
                self.wf(),
                self.origin@ == old(self).origin@,
                n == self.origin@.len(),
                i <= n,
                old(self).nodes@.is_prefix_of(self.nodes@),
                forall|j: int| 0 <= j < i ==> has_node(self.nodes@, #[trigger] self.origin@[j].id@),
                old(self).complete() ==> self.nodes@ == old(self).nodes@,
            decreases n - i,
        {
            if !self.contains_origin_id(i) {
                let ghost prepush = self.nodes@;
                let node = resolve_record(&self.origin, i);
                proof {
                    if old(self).complete() {
                        assert(has_node(old(self).nodes@, self.origin@[i as int].id@));
                        assert(has_node(self.nodes@, self.origin@[i as int].id@));
                        assert(false);
                    }
                }
                self.nodes.push(node);
                proof {
                    let ghost m = self.nodes@.len() - 1;
                    assert forall|j: int|
                        0 <= j < self.nodes@.len() implies has_origin(
                        self.origin@,
                        #[trigger] self.nodes@[j].id@,
                    ) && node_resolves(
                        self.origin@,
                        origin_at(self.origin@, self.nodes@[j].id@),
                        self.nodes@[j],
                    ) by {
                        if j < m {
                        } else {
                            lemma_origin_at_index(self.origin@, i as int, self.nodes@[j].id@);
                        }
                    }
                    assert(self.nodes@[m].id@ == self.origin@[i as int].id@);
                    assert forall|j: int| 0 <= j <= i implies has_node(
                        self.nodes@,
                        #[trigger] self.origin@[j].id@,
                    ) by {
                        if j < i {
                            assert(has_node(prepush, self.origin@[j].id@));
                            let k2 = choose|k2: int|
                                0 <= k2 < prepush.len() && prepush[k2].id@ == self.origin@[j].id@;
                            assert(self.nodes@[k2].id@ == self.origin@[j].id@);
                        } else {
                            assert(self.nodes@[m].id@ == self.origin@[j].id@);
                        }
                    }
                }
            } else {
                proof {
                    assert(has_node(self.nodes@, self.origin@[i as int].id@));
                }
            }
            i += 1;
        }
        proof {
            lemma_complete_len(self.origin@, self.nodes@);
        }
    }

    /// Whether the node store already holds the id of raw record `i`.
    fn contains_origin_id(&self, i: usize) -> (r: bool)
        requires
            i < self.origin@.len(),
        ensures
            r == has_node(self.nodes@, self.origin@[i as int].id@),
    {
        match crate::node::find_node(&self.nodes, &self.origin[i].id) {
            Option::Some(_) => true,
            Option::None => false,
        }
    }

    /// All resolved nodes, in resolution order.
    pub fn get_nodes(&self) -> (r: &Vec<Node>)
        ensures
            r == self.nodes,
    {
        &self.nodes
    }

    /// The resolved node for an id known to be resolved.
    pub fn get_node(&self, id: &String) -> (r: &Node)
        requires
            distinct_node_ids(self.nodes@),
            has_node(self.nodes@, id@),
        ensures
            *r == node_at(self.nodes@, id@),
    {
        match crate::node::find_node(&self.nodes, id) {
            Option::Some(i) => {
                proof {
                    crate::node::lemma_node_at_index(self.nodes@, i as int, id@);
                }
                &self.nodes[i]
            },
            Option::None => unreached(),
        }
    }

    /// Existence check in the resolved store.
    pub fn contains_node(&self, id: &String) -> (r: bool)
        ensures
            r == has_node(self.nodes@, id@),
    {
        match crate::node::find_node(&self.nodes, id) {
            Option::Some(_) => true,
            Option::None => false,
        }
    }

    /// Resolves one raw record; a no-op where the id is already resolved.
    /// The record handed in must be the stored one.
    pub fn build_node(&mut self, origin_node: &OriginNode)
        requires
            old(self).wf(),
            has_origin(old(self).origin@, origin_node.id@),
            origin_at(old(self).origin@, origin_node.id@) == *origin_node,
        ensures
            final(self).wf(),
            final(self).origin@ == old(self).origin@,
            has_node(final(self).nodes@, origin_node.id@),
            has_node(old(self).nodes@, origin_node.id@) ==> final(self).nodes@ == old(self).nodes@,
            !has_node(old(self).nodes@, origin_node.id@) ==> final(self).nodes@.len() == old(
                self,
            ).nodes@.len() + 1 && final(self).nodes@.take(old(self).nodes@.len() as int) == old(
                self,
            ).nodes@ && node_resolves(final(self).origin@, *origin_node, final(self).nodes@.last()),
    {
        self.build_node_by_id(&origin_node.id);
        proof {
            if !has_node(old(self).nodes@, origin_node.id@) {
                let k = choose|k: int|
                    0 <= k < old(self).origin@.len() && old(self).origin@[k].id@
                        == origin_node.id@;
                lemma_origin_at_index(old(self).origin@, k, origin_node.id@);
            }
        }
    }

    /// Resolves the raw record with this id, where one exists; otherwise a
    /// no-op. A no-op too where the id is already resolved.
    pub fn build_node_by_id(&mut self, id: &String)
        requires
            old(self).wf(),
        ensures
            final(self).wf(),
            final(self).origin@ == old(self).origin@,
            has_origin(final(self).origin@, id@) ==> has_node(final(self).nodes@, id@),
            !has_origin(final(self).origin@, id@) ==> final(self).nodes@ == old(self).nodes@,
            has_node(old(self).nodes@, id@) ==> final(self).nodes@ == old(self).nodes@,
            !has_node(old(self).nodes@, id@) && has_origin(final(self).origin@, id@) ==> final(self).nodes@.len()
                == old(self).nodes@.len() + 1 && final(self).nodes@.take(old(self).nodes@.len() as int)
                == old(self).nodes@ && node_resolves(
                final(self).origin@,
                origin_at(final(self).origin@, id@),
                final(self).nodes@.last(),
            ),
    {
        match find_origin(&self.origin, id) {
            Option::None => {},
            Option::Some(k) => {
                if self.contains_node(id) {
                    return ;
                }
                let node = resolve_record(&self.origin, k);
                proof {
                    lemma_origin_at_index(self.origin@, k as int, id@);
                }
                self.nodes.push(node);
                proof {
                    let ghost m = self.nodes@.len() - 1;
                    assert forall|j: int|
                        0 <= j < self.nodes@.len() implies has_origin(
                        self.origin@,
                        #[trigger] self.nodes@[j].id@,
                    ) && node_resolves(
                        self.origin@,
                        origin_at(self.origin@, self.nodes@[j].id@),
                        self.nodes@[j],
                    ) by {
                        if j < m {
                        } else {
                            lemma_origin_at_index(self.origin@, k as int, self.nodes@[j].id@);
                        }
                    }
                    assert(self.nodes@.take(old(self).nodes@.len() as int) =~= old(self).nodes@);
                    assert(self.nodes@[m].id@ == id@);
                    assert(has_node(self.nodes@, id@));
                }
            },
        }
    }
}

/// A copy of an optional string.
pub(crate) fn clone_opt_str(o: &Option<String>) -> (r: Option<String>)
    ensures
        opt_view(r) == opt_view(*o),
{
    match o {
        Option::None => Option::None,
        Option::Some(s) => Option::Some(s.clone()),
    }
}

/// Resolves one raw link against the raw set.
fn resolve_link(origin: &Vec<OriginNode>, raw: &Option<String>) -> (r: Option<String>)
    ensures
        link_resolved(origin@, *raw, r),
{
    match raw {
        Option::None => Option::None,
        Option::Some(x) => match find_origin(origin, x) {
            Option::Some(_) => Option::Some(x.clone()),
            Option::None => Option::None,
        },
    }
}

/// Whether the raw id resolves to a tuple-kind entity.
fn origin_is_tuple(origin: &Vec<OriginNode>, id: &String) -> (r: bool)
    requires
        distinct_origin_ids(origin@),
    ensures
        r == (origin_kind(origin@, id@) == DocType::Tuple),
{
    match find_origin(origin, id) {
        Option::None => false,
        Option::Some(i) => {
            proof {
                lemma_origin_at_index(origin@, i as int, id@);
            }
            match &origin[i].props {
                Option::None => false,
                Option::Some(p) => match &p.doc_type {
                    Option::None => false,
                    Option::Some(s) => crate::text::str_equal(s.as_str(), "tuple"),
                },
            }
        },
    }
}

/// Appends to `out` the listed child ids that exist in the raw set and whose
/// tuple-ness matches `want_tuple`, in listed order.
fn push_kept_children(
    out: &mut Vec<String>,
    origin: &Vec<OriginNode>,
    cs: &Vec<String>,
    want_tuple: bool,
)
    requires
        distinct_origin_ids(origin@),
    ensures
        seq_views(final(out)@) == seq_views(old(out)@) + seq_views(cs@).filter(
            kept_pred(origin@, want_tuple),
        ),
{
    let ghost pred = kept_pred(origin@, want_tuple);
    let n = cs.len();
    let mut i: usize = 0;
    proof {
        assert(seq_views(cs@).take(0) =~= Seq::<Seq<char>>::empty());
        reveal(Seq::filter);
        assert(seq_views(out@) =~= seq_views(out@) + seq_views(cs@).take(0).filter(pred));
    }
    while i < n
        invariant
            distinct_origin_ids(origin@),
            n == cs@.len(),
            i <= n,
            pred == kept_pred(origin@, want_tuple),
            seq_views(out@) == seq_views(old(out)@) + seq_views(cs@).take(i as int).filter(pred),
        decreases n - i,
    {
        let ghost prefix = seq_views(cs@).take(i as int);
        let ghost prefix1 = seq_views(cs@).take(i as int + 1);
        proof {
            assert(prefix1.drop_last() =~= prefix);
            assert(prefix1.last() == cs@[i as int]@);
            assert(prefix1.filter(pred) == if pred(prefix1.last()) {
                prefix.filter(pred).push(prefix1.last())
            } else {
                prefix.filter(pred)
            }) by {
                reveal(Seq::filter);
                assert(prefix1.drop_last() == prefix);
            };
        }
        let keep = match find_origin(origin, &cs[i]) {
            Option::None => false,
            Option::Some(_) => origin_is_tuple(origin, &cs[i]) == want_tuple,
        };
        assert(keep == pred(cs@[i as int]@));
        if keep {
            let ghost before = out@;
            out.push(cs[i].clone());
            proof {
                assert(out@ == before.push(cs@[i as int]));
                assert(seq_views(out@) =~= seq_views(before).push(cs@[i as int]@));
                assert(prefix1.filter(pred) == prefix.filter(pred).push(cs@[i as int]@));
                assert(seq_views(before).push(cs@[i as int]@) =~= seq_views(old(out)@) + prefix.filter(
                    pred,
                ).push(cs@[i as int]@));
                assert(seq_views(out@) =~= seq_views(old(out)@) + prefix1.filter(pred));
            }
        } else {
            assert(seq_views(out@) =~= seq_views(old(out)@) + prefix1.filter(pred));
        }
        i += 1;
    }
    proof {
        assert(seq_views(cs@).take(n as int) =~= seq_views(cs@));
    }
}

/// Resolves the raw record at index `i` into a node: the pure resolution
/// function behind the builder.
fn resolve_record(origin: &Vec<OriginNode>, i: usize) -> (n: Node)
    requires
        distinct_origin_ids(origin@),
        i < origin@.len(),
    ensures
        n.id@ == origin@[i as int].id@,
        node_resolves(origin@, origin@[i as int], n),
{
    let r = &origin[i];
    let props: Option<Props> = match &r.props {
        Option::None => Option::None,
        Option::Some(op) => Option::Some(
            Props {
                created: op.created,
                name: clone_opt_str(&op.name),
                description: clone_opt_str(&op.description),
                doc_type: clone_opt_str(&op.doc_type),
                owner_node: resolve_link(origin, &op.owner_id),
                meta_node: resolve_link(origin, &op.meta_node_id),
                source_node: resolve_link(origin, &op.source_id),
            },
        ),
    };
    let mut kids: Vec<String> = Vec::new();
    match &r.children {
        Option::None => {
            proof {
                reveal(Seq::filter);
                assert(seq_views(kids@) =~= resolved_children(origin@, origin@[i as int]));
            }
        },
        Option::Some(cs) => {
            push_kept_children(&mut kids, origin, cs, true);
            push_kept_children(&mut kids, origin, cs, false);
        },
    }
    Node { id: r.id.clone(), children: kids, props }
}

/// Index of the raw record with this id, by linear search.
pub fn find_origin(origin: &Vec<OriginNode>, id: &String) -> (r: Option<usize>)
    ensures
        match r {
            Option::Some(i) => i < origin@.len() && origin@[i as int].id@ == id@,
            Option::None => !has_origin(origin@, id@),
        },
{
    let mut i: usize = 0;
    while i < origin.len()
        invariant
            i <= origin@.len(),
            forall|j: int| 0 <= j < i ==> origin@[j].id@ != id@,
        decreases origin@.len() - i,
    {
        if origin[i].id.eq(id) {
            return Option::Some(i);
        }
        i += 1;
    }
    Option::None
}

/// Under distinct ids, the record found by search is the record the spec names.
pub proof fn lemma_origin_at_index(origin: Seq<OriginNode>, i: int, id: Seq<char>)
    requires
        distinct_origin_ids(origin),
        0 <= i < origin.len(),
        origin[i].id@ == id,
    ensures
        has_origin(origin, id),
        origin_at(origin, id) == origin[i],
{
    assert(has_origin(origin, id));
    let j = choose|j: int| 0 <= j < origin.len() && origin[j].id@ == id;
    assert(j == i);
}

/// Mutually complete stores with unique ids have equally many entries.
pub proof fn lemma_complete_len(origin: Seq<OriginNode>, nodes: Seq<Node>)
    requires
        distinct_origin_ids(origin),
        distinct_node_ids(nodes),
        forall|i: int|
            0 <= i < nodes.len() ==> has_origin(origin, #[trigger] nodes[i].id@),
        forall|i: int|
            0 <= i < origin.len() ==> has_node(nodes, #[trigger] origin[i].id@),
    ensures
        nodes.len() == origin.len(),
{
    let nids = nodes.map_values(|n: Node| n.id@);
    let oids = origin.map_values(|r: OriginNode| r.id@);
    assert(nids.no_duplicates());
    assert(oids.no_duplicates());
    nids.unique_seq_to_set();
    oids.unique_seq_to_set();
    assert forall|id: Seq<char>| nids.to_set().contains(id) implies oids.to_set().contains(
        id,
    ) by {
        let i = choose|i: int| 0 <= i < nids.len() && nids[i] == id;
        assert(has_origin(origin, nodes[i].id@));
        let j = choose|j: int| 0 <= j < origin.len() && origin[j].id@ == id;
        assert(oids[j] == id);
    }
    assert forall|id: Seq<char>| oids.to_set().contains(id) implies nids.to_set().contains(
        id,
    ) by {
        let i = choose|i: int| 0 <= i < oids.len() && oids[i] == id;
        assert(has_node(nodes, origin[i].id@));
        let j = choose|j: int| 0 <= j < nodes.len() && nodes[j].id@ == id;
        assert(nids[j] == id);
    }
    assert(nids.to_set() =~= oids.to_set());
}

} // verus!
