//! The entity graph model: typed nodes, resolved properties, the doc-kind
//! enumeration, the trash/system predicates and the supertag convention.
//!
//! Cross-entity links (owner, metadata, source, children) are stored as ids
//! into a by-id node store; the store itself lives in `node_builder`.

use vstd::prelude::*;
use crate::text::{spec_ends_with, spec_starts_with, str_ends_with, str_starts_with};
use crate::node_builder::NodeBuilder;

verus! {

/// Closed enumeration of document kinds. Unrecognized or absent raw kind
/// strings map to `Text`.
#[derive(Clone, Copy, Debug, PartialEq, Eq, Structural)]
pub enum DocType {
    Text,
    Codeblock,
    Search,
    Tuple,
}

/// Resolved properties of an entity. The owner / metadata / source links
/// hold the id of the referenced entity, and are set only where that id
/// existed in the raw record set.
pub struct Props {
    pub created: u64,
    pub name: Option<String>,
    pub description: Option<String>,
    pub doc_type: Option<String>,
    pub owner_node: Option<String>,
    pub meta_node: Option<String>,
    pub source_node: Option<String>,
}

/// A resolved entity: id, ordered child ids (tuple-kind children first),
/// and properties (`None` for a record that carried none).
pub struct Node {
    pub id: String,
    pub children: Vec<String>,
    pub props: Option<Props>,
}

/// Metadata read from an entity's metadata sub-graph. Only the supertag
/// declaration is populated by extraction; `SearchExpression` is part of
/// the closed convention but never produced.
pub enum Meta {
    SuperTags(Vec<String>),
    SearchExpression,
}

/// The view of an optional string.
pub open spec fn opt_view(o: Option<String>) -> Option<Seq<char>> {
    match o {
        Option::None => Option::None,
        Option::Some(s) => Option::Some(s@),
    }
}

/// The views of a sequence of strings.
pub open spec fn seq_views(s: Seq<String>) -> Seq<Seq<char>> {
    s.map_values(|x: String| x@)
}

/// Views distribute over push.
pub proof fn lemma_seq_views_push(s: Seq<String>, x: String)
    ensures
        seq_views(s.push(x)) == seq_views(s).push(x@),
{
    assert(seq_views(s.push(x)) =~= seq_views(s).push(x@));
}

/// The doc kind denoted by a raw kind string.
pub open spec fn kind_of(dt: Option<Seq<char>>) -> DocType {
    match dt {
        Option::None => DocType::Text,
        Option::Some(s) => if s == "tuple"@ {
            DocType::Tuple
        } else if s == "codeblock"@ {
            DocType::Codeblock
        } else if s == "search"@ {
            DocType::Search
        } else {
            DocType::Text
        },
    }
}

/// The doc kind of a node: read from its properties, `Text` when absent.
pub open spec fn node_kind(n: Node) -> DocType {
    match n.props {
        Option::None => DocType::Text,
        Option::Some(p) => kind_of(opt_view(p.doc_type)),
    }
}

/// An id marked as trashed by the reserved suffix.
pub open spec fn trash_id(id: Seq<char>) -> bool {
    spec_ends_with(id, "_TRASH"@)
}

/// An id marked as a system node by the reserved prefix.
pub open spec fn sys_id(id: Seq<char>) -> bool {
    spec_starts_with(id, "SYS"@)
}

/// Whether the node store holds a node with this id.
pub open spec fn has_node(nodes: Seq<Node>, id: Seq<char>) -> bool {
    exists|i: int| 0 <= i < nodes.len() && nodes[i].id@ == id
}

/// The node with this id (meaningful under `distinct_node_ids`).
pub open spec fn node_at(nodes: Seq<Node>, id: Seq<char>) -> Node {
    nodes[choose|i: int| 0 <= i < nodes.len() && nodes[i].id@ == id]
}

/// No two nodes share an id.
pub open spec fn distinct_node_ids(nodes: Seq<Node>) -> bool {
    forall|i: int, j: int|
        0 <= i < nodes.len() && 0 <= j < nodes.len() && i != j ==> nodes[i].id@ != nodes[j].id@
}

/// The owner link of the node with this id, where one is resolvable.
pub open spec fn owner_of(nodes: Seq<Node>, id: Seq<char>) -> Option<Seq<char>> {
    if has_node(nodes, id) {
        match node_at(nodes, id).props {
            Option::None => Option::None,
            Option::Some(p) => opt_view(p.owner_node),
        }
    } else {
        Option::None
    }
}

/// Trash status by a bounded walk up the owner chain: the id itself carries
/// the trash suffix, or some ancestor within `fuel` owner steps does.
pub open spec fn in_trash_fuel(nodes: Seq<Node>, id: Seq<char>, fuel: nat) -> bool
    decreases fuel,
{
    if trash_id(id) {
        true
    } else if fuel == 0 {
        false
    } else {
        match owner_of(nodes, id) {
            Option::None => false,
            Option::Some(o) => in_trash_fuel(nodes, o, (fuel - 1) as nat),
        }
    }
}

/// Trash status of an id. Owner chains are acyclic by the data contract;
/// a chain longer than the store must repeat an id, so walking one step per
/// stored node decides every in-contract input.
pub open spec fn in_trash(nodes: Seq<Node>, id: Seq<char>) -> bool {
    in_trash_fuel(nodes, id, nodes.len())
}

impl Node {
    pub fn new(id: String, props: Option<Props>, children: Vec<String>) -> (n: Node)
        ensures
            n.id@ == id@,
            n.props == props,
            n.children == children,
    {
        Node { id, props, children }
    }

    /// The display name, `None` for a node without properties or name.
    pub fn get_name(&self) -> (r: Option<String>)
        ensures
            opt_view(r) == match self.props {
                Option::None => Option::<Seq<char>>::None,
                Option::Some(p) => opt_view(p.name),
            },
    {
        match &self.props {
            Option::None => Option::None,
            Option::Some(p) => match &p.name {
                Option::None => Option::None,
                Option::Some(n) => Option::Some(n.clone()),
            },
        }
    }

    /// The resolved properties of a populated node.
    pub fn get_props(&self) -> (r: &Props)
        requires
            self.props is Some,
        ensures
            *r == self.props->Some_0,
    {
        match &self.props {
            Option::Some(p) => p,
            Option::None => unreached(),
        }
    }

    /// The ordered child ids.
    pub fn get_children(&self) -> (r: &Vec<String>)
        ensures
            r == self.children,
    {
        &self.children
    }

    /// The doc kind; missing properties or an unrecognized kind string give `Text`.
    pub fn get_doc_type(&self) -> (r: DocType)
        ensures
            r == node_kind(*self),
    {
        match &self.props {
            Option::None => DocType::Text,
            Option::Some(p) => match &p.doc_type {
                Option::None => DocType::Text,
                Option::Some(s) => {
                    if crate::text::str_equal(s.as_str(), "tuple") {
                        DocType::Tuple
                    } else if crate::text::str_equal(s.as_str(), "codeblock") {
                        DocType::Codeblock
                    } else if crate::text::str_equal(s.as_str(), "search") {
                        DocType::Search
                    } else {
                        DocType::Text
                    }
                },
            },
        }
    }

    /// The owner link, as the owning entity's id.
    pub fn get_owner_node(&self) -> (r: Option<&String>)
        ensures
            match self.props {
                Option::None => r is None,
                Option::Some(p) => match p.owner_node {
                    Option::None => r is None,
                    Option::Some(o) => r matches Some(x) && x@ == o@,
                },
            },
    {
        match &self.props {
            Option::None => Option::None,
            Option::Some(p) => p.owner_node.as_ref(),
        }
    }

    /// The metadata link, as the metadata entity's id.
    pub fn get_meta_node(&self) -> (r: Option<&String>)
        ensures
            match self.props {
                Option::None => r is None,
                Option::Some(p) => match p.meta_node {
                    Option::None => r is None,
                    Option::Some(o) => r matches Some(x) && x@ == o@,
                },
            },
    {
        match &self.props {
            Option::None => Option::None,
            Option::Some(p) => p.meta_node.as_ref(),
        }
    }

    /// All metadata entries read from this node's metadata entity, in order.
    pub fn get_meta(&self, store: &NodeBuilder) -> (r: Vec<Meta>)
        requires
            distinct_node_ids(store.nodes@),
            node_meta_ok(store.nodes@, *self),
        ensures
            metas_views(r@) == metas_of(store.nodes@, meta_kids(store.nodes@, *self)),
            forall|j: int| 0 <= j < r@.len() ==> r@[j] is SuperTags,
    {
        let ghost nodes = store.nodes@;
        let mut out: Vec<Meta> = Vec::new();
        let mid = match &self.props {
            Option::None => {
                proof {
                    assert(metas_views(out@) =~= metas_of(nodes, meta_kids(nodes, *self)));
                }
                return out;
            },
            Option::Some(p) => match &p.meta_node {
                Option::None => {
                    proof {
                        assert(metas_views(out@) =~= metas_of(nodes, meta_kids(nodes, *self)));
                    }
                    return out;
                },
                Option::Some(mid) => mid,
            },
        };
        let m = store.get_node(mid);
        let ghost kids = meta_kids(nodes, *self);
        assert(kids == m.children@);
        let n = m.children.len();
        let mut i: usize = 0;
        proof {
            assert(kids.skip(0) =~= kids);
            assert(metas_views(out@) =~= Seq::<Seq<Seq<char>>>::empty());
            assert(metas_views(out@) + metas_of(nodes, kids.skip(0)) =~= metas_of(nodes, kids));
        }
        while i < n
            invariant
                distinct_node_ids(nodes),
                store.nodes@ == nodes,
                node_meta_ok(nodes, *self),
                kids == m.children@,
                kids == meta_kids(nodes, *self),
                n == kids.len(),
                i <= n,
                metas_views(out@) + metas_of(nodes, kids.skip(i as int)) == metas_of(nodes, kids),
                forall|j: int| 0 <= j < out@.len() ==> out@[j] is SuperTags,
            decreases n - i,
        {
            proof {
                assert(kids.skip(i as int).drop_first() =~= kids.skip(i as int + 1));
                assert(kids.skip(i as int)[0] == kids[i as int]);
            }
            let cnode = store.get_node(&m.children[i]);
            match Meta::from_node(cnode, store) {
                Option::Some(me) => {
                    out.push(me);
                    proof {
                        assert(metas_views(out@) =~= metas_views(out@.drop_last()).push(
                            metas_views(out@)[out@.len() - 1],
                        ));
                    }
                },
                Option::None => {},
            }
            i += 1;
        }
        proof {
            assert(kids.skip(n as int) =~= Seq::<String>::empty());
            assert(metas_of(nodes, kids.skip(n as int)) =~= Seq::<Seq<Seq<char>>>::empty());
            assert(metas_views(out@) =~= metas_views(out@) + metas_of(nodes, kids.skip(n as int)));
        }
        out
    }

    /// The supertag set: the tags of the first supertag declaration under
    /// this node's metadata entity, empty where there is none.
    pub fn get_tag_list(&self, store: &NodeBuilder) -> (r: Vec<String>)
        requires
            distinct_node_ids(store.nodes@),
            node_meta_ok(store.nodes@, *self),
        ensures
            seq_views(r@) == tag_list_of(store.nodes@, *self),
    {
        let ghost nodes = store.nodes@;
        let mid = match &self.props {
            Option::None => {
                return Vec::new();
            },
            Option::Some(p) => match &p.meta_node {
                Option::None => {
                    return Vec::new();
                },
                Option::Some(mid) => mid,
            },
        };
        let m = store.get_node(mid);
        let ghost kids = meta_kids(nodes, *self);
        assert(kids == m.children@);
        let n = m.children.len();
        let mut i: usize = 0;
        proof {
            assert(kids.skip(0) =~= kids);
        }
        while i < n
            invariant
                distinct_node_ids(nodes),
                store.nodes@ == nodes,
                node_meta_ok(nodes, *self),
                kids == m.children@,
                kids == meta_kids(nodes, *self),
                n == kids.len(),
                i <= n,
                first_decl_tags(nodes, kids.skip(i as int)) == tag_list_of(nodes, *self),
            decreases n - i,
        {
            proof {
                assert(kids.skip(i as int).drop_first() =~= kids.skip(i as int + 1));
                assert(kids.skip(i as int)[0] == kids[i as int]);
            }
            let cnode = store.get_node(&m.children[i]);
            match Meta::from_node(cnode, store) {
                Option::Some(me) => {
                    match me {
                        Meta::SuperTags(v) => {
                            return v;
                        },
                        Meta::SearchExpression => {
                            return unreached();
                        },
                    }
                },
                Option::None => {},
            }
            i += 1;
        }
        proof {
            assert(kids.skip(n as int) =~= Seq::<String>::empty());
        }
        Vec::new()
    }

    /// Trash status: the id itself ends in the trash suffix, or an entity
    /// reached by repeatedly following owner links does. The walk takes at
    /// most one step per stored node; a longer chain would repeat an id and
    /// is out of the data contract (owner cycles are not defended against).
    pub fn is_in_trash(&self, store: &NodeBuilder) -> (r: bool)
        requires
            distinct_node_ids(store.nodes@),
        ensures
            r == in_trash(store.nodes@, self.id@),
    {
        node_id_in_trash(&store.nodes, &self.id)
    }

    /// System status: the id starts with the reserved system prefix.
    pub fn is_sys_node(&self) -> (r: bool)
        ensures
            r == sys_id(self.id@),
    {
        str_starts_with(self.id.as_str(), "SYS")
    }
}

/// The name of the node with this id, the empty sequence where the node or
/// its name is absent.
pub open spec fn name_of(nodes: Seq<Node>, id: Seq<char>) -> Seq<char> {
    if has_node(nodes, id) {
        match node_at(nodes, id).props {
            Option::None => Seq::empty(),
            Option::Some(p) => match opt_view(p.name) {
                Option::None => Seq::empty(),
                Option::Some(nm) => nm,
            },
        }
    } else {
        Seq::empty()
    }
}

/// A supertag declaration: a tuple-kind metadata child whose first child is
/// the reserved supertag marker.
pub open spec fn is_supertag_decl(c: Node) -> bool {
    &&& c.props matches Some(p) && opt_view(p.doc_type) == Option::Some("tuple"@)
    &&& c.children@.len() >= 1
    &&& c.children@[0]@ == "SYS_A13"@
}

/// The tag strings a supertag declaration carries: the names of the marker's
/// sibling entities.
pub open spec fn decl_tags(nodes: Seq<Node>, c: Node) -> Seq<Seq<char>> {
    c.children@.skip(1).map_values(|k: String| name_of(nodes, k@))
}

/// The conditions under which metadata extraction is defined for one
/// metadata child: it has properties; a tuple-kind one has a first child;
/// and in a supertag declaration every sibling is a named, stored entity.
/// A sibling without a name is a fatal input-contract violation.
pub open spec fn meta_child_ok(nodes: Seq<Node>, c: Node) -> bool {
    &&& c.props is Some
    &&& (opt_view(c.props->Some_0.doc_type) == Option::Some("tuple"@) ==> c.children@.len() >= 1)
    &&& (is_supertag_decl(c) ==> forall|k: int|
        1 <= k < c.children@.len() ==> has_node(nodes, #[trigger] c.children@[k]@) && (node_at(
            nodes,
            c.children@[k]@,
        ).props matches Some(p) && p.name is Some))
}

/// Metadata extraction is defined for this node: its metadata entity, where
/// it has one, is stored, and each metadata child admits extraction.
pub open spec fn node_meta_ok(nodes: Seq<Node>, n: Node) -> bool {
    match n.props {
        Option::None => true,
        Option::Some(p) => match opt_view(p.meta_node) {
            Option::None => true,
            Option::Some(mid) => has_node(nodes, mid) && {
                let m = node_at(nodes, mid);
                forall|k: int|
                    0 <= k < m.children@.len() ==> has_node(nodes, #[trigger] m.children@[k]@)
                        && meta_child_ok(nodes, node_at(nodes, m.children@[k]@))
            },
        },
    }
}

/// Metadata extraction is defined for every stored node.
pub open spec fn meta_wf(nodes: Seq<Node>) -> bool {
    forall|i: int| 0 <= i < nodes.len() ==> node_meta_ok(nodes, #[trigger] nodes[i])
}

/// The metadata entries of a sequence of metadata children: one supertag
/// list per supertag declaration, in order.
pub open spec fn metas_of(nodes: Seq<Node>, kids: Seq<String>) -> Seq<Seq<Seq<char>>>
    decreases kids.len(),
{
    if kids.len() == 0 {
        Seq::empty()
    } else {
        let head: Seq<Seq<Seq<char>>> = if has_node(nodes, kids[0]@) && is_supertag_decl(
            node_at(nodes, kids[0]@),
        ) {
            seq![decl_tags(nodes, node_at(nodes, kids[0]@))]
        } else {
            Seq::empty()
        };
        head + metas_of(nodes, kids.drop_first())
    }
}

/// The first supertag list among a sequence of metadata children, the empty
/// sequence where there is none.
pub open spec fn first_decl_tags(nodes: Seq<Node>, kids: Seq<String>) -> Seq<Seq<char>>
    decreases kids.len(),
{
    if kids.len() == 0 {
        Seq::empty()
    } else if has_node(nodes, kids[0]@) && is_supertag_decl(node_at(nodes, kids[0]@)) {
        decl_tags(nodes, node_at(nodes, kids[0]@))
    } else {
        first_decl_tags(nodes, kids.drop_first())
    }
}

/// The metadata children of a node: its metadata entity's children, the
/// empty sequence where it has no metadata link.
pub open spec fn meta_kids(nodes: Seq<Node>, n: Node) -> Seq<String> {
    match n.props {
        Option::None => Seq::empty(),
        Option::Some(p) => match opt_view(p.meta_node) {
            Option::None => Seq::empty(),
            Option::Some(mid) => if has_node(nodes, mid) {
                node_at(nodes, mid).children@
            } else {
                Seq::empty()
            },
        },
    }
}

/// The supertag set of a node: the tags of the first supertag declaration
/// under its metadata entity, empty where there is none.
pub open spec fn tag_list_of(nodes: Seq<Node>, n: Node) -> Seq<Seq<char>> {
    first_decl_tags(nodes, meta_kids(nodes, n))
}

/// The views of extracted metadata entries.
pub open spec fn metas_views(ms: Seq<Meta>) -> Seq<Seq<Seq<char>>> {
    ms.map_values(
        |m: Meta|
            match m {
                Meta::SuperTags(v) => seq_views(v@),
                Meta::SearchExpression => Seq::<Seq<char>>::empty(),
            },
    )
}

impl Meta {
    /// Reads one metadata child: a supertag declaration yields its tag list,
    /// anything else yields nothing.
    pub fn from_node(node: &Node, store: &NodeBuilder) -> (r: Option<Meta>)
        requires
            distinct_node_ids(store.nodes@),
            meta_child_ok(store.nodes@, *node),
        ensures
            is_supertag_decl(*node) ==> (r matches Some(m) && (m matches Meta::SuperTags(v)
                && seq_views(v@) == decl_tags(store.nodes@, *node))),
            !is_supertag_decl(*node) ==> r is None,
    {
        let p = node.get_props();
        let is_tuple = match &p.doc_type {
            Option::None => false,
            Option::Some(s) => crate::text::str_equal(s.as_str(), "tuple"),
        };
        if !is_tuple {
            return Option::None;
        }
        if !crate::text::str_equal(node.children[0].as_str(), "SYS_A13") {
            return Option::None;
        }
        let n = node.children.len();
        let mut tags: Vec<String> = Vec::new();
        let mut k: usize = 1;
        let ghost nodes = store.nodes@;
        let ghost namef = |c: String| name_of(nodes, c@);
        proof {
            assert(seq_views(tags@) =~= node.children@.subrange(1, 1).map_values(namef));
        }
        while k < n
            invariant
                distinct_node_ids(store.nodes@),
                nodes == store.nodes@,
                namef == (|c: String| name_of(nodes, c@)),
                is_supertag_decl(*node),
                meta_child_ok(store.nodes@, *node),
                n == node.children@.len(),
                1 <= k <= n,
                seq_views(tags@) == node.children@.subrange(1, k as int).map_values(namef),
            decreases n - k,
        {
            let kid = store.get_node(&node.children[k]);
            proof {
                assert(*kid == node_at(store.nodes@, node.children@[k as int]@));
            }
            let name = match kid.get_name() {
                Option::Some(nm) => nm,
                Option::None => unreached(),
            };
            proof {
                assert(name@ == name_of(store.nodes@, node.children@[k as int]@));
            }
            let ghost pre = tags@;
            tags.push(name);
            proof {
                assert(namef(node.children@[k as int]) == name_of(nodes, node.children@[k as int]@));
                let ghost lhs = seq_views(tags@);
                let ghost rhs = node.children@.subrange(1, k as int + 1).map_values(namef);
                assert(tags@ == pre.push(name));
                assert(tags@.len() == pre.len() + 1);
                assert(seq_views(pre).len() == pre.len());
                assert(seq_views(pre).len() == k - 1);
                assert(lhs.len() == tags@.len());
                assert(rhs.len() == k as int);
                assert(lhs.len() == rhs.len());
                assert forall|j: int| 0 <= j < lhs.len() implies lhs[j] == rhs[j] by {
                    assert(lhs[j] == tags@[j]@);
                    assert(rhs[j] == namef(node.children@.subrange(1, k as int + 1)[j]));
                    assert(node.children@.subrange(1, k as int + 1)[j] == node.children@[1 + j]);
                    if j < k as int - 1 {
                        assert(tags@[j] == pre[j]);
                        assert(seq_views(pre)[j] == pre[j]@);
                        assert(seq_views(pre)[j] == node.children@.subrange(1, k as int).map_values(
                            namef,
                        )[j]);
                        assert(node.children@.subrange(1, k as int).map_values(namef)[j] == namef(
                            node.children@[1 + j],
                        ));
                    } else {
                        assert(tags@[j] == name);
                    }
                }
                assert(lhs =~= rhs);
            }
            k += 1;
        }
        proof {
            assert(node.children@.subrange(1, n as int) =~= node.children@.skip(1));
            assert(decl_tags(nodes, *node) =~= node.children@.subrange(1, n as int).map_values(namef));
        }
        Option::Some(Meta::SuperTags(tags))
    }
}

/// Whether one metadata child admits extraction, as `meta_child_ok` states.
pub fn check_meta_child(nodes: &Vec<Node>, c: &Node) -> (r: bool)
    requires
        distinct_node_ids(nodes@),
    ensures
        r == meta_child_ok(nodes@, *c),
{
    let p = match &c.props {
        Option::None => {
            return false;
        },
        Option::Some(p) => p,
    };
    let is_tuple = match &p.doc_type {
        Option::None => false,
        Option::Some(s) => crate::text::str_equal(s.as_str(), "tuple"),
    };
    if !is_tuple {
        return true;
    }
    if c.children.len() == 0 {
        return false;
    }
    if !crate::text::str_equal(c.children[0].as_str(), "SYS_A13") {
        return true;
    }
    assert(is_supertag_decl(*c));
    let n = c.children.len();
    let mut k: usize = 1;
    while k < n
        invariant
            distinct_node_ids(nodes@),
            is_supertag_decl(*c),
            c.props is Some,
            n == c.children@.len(),
            1 <= k <= n,
            forall|j: int|
                1 <= j < k ==> has_node(nodes@, #[trigger] c.children@[j]@) && (node_at(
                    nodes@,
                    c.children@[j]@,
                ).props matches Some(p) && p.name is Some),
        decreases n - k,
    {
        match find_node(nodes, &c.children[k]) {
            Option::None => {
                proof {
                    assert(!has_node(nodes@, c.children@[k as int]@));
                    assert(!meta_child_ok(nodes@, *c)) by {
                        if meta_child_ok(nodes@, *c) {
                            assert(has_node(nodes@, c.children@[k as int]@) && (node_at(
                                nodes@,
                                c.children@[k as int]@,
                            ).props matches Some(p) && p.name is Some));
                        }
                    }
                }
                return false;
            },
            Option::Some(i) => {
                proof {
                    lemma_node_at_index(nodes@, i as int, c.children@[k as int]@);
                }
                match &nodes[i].props {
                    Option::None => {
                        proof {
                            assert(node_at(nodes@, c.children@[k as int]@).props is None);
                            assert(!meta_child_ok(nodes@, *c)) by {
                                if meta_child_ok(nodes@, *c) {
                                    assert(has_node(nodes@, c.children@[k as int]@) && (node_at(
                                        nodes@,
                                        c.children@[k as int]@,
                                    ).props matches Some(p) && p.name is Some));
                                }
                            }
                        }
                        return false;
                    },
                    Option::Some(p2) => {
                        if p2.name.is_none() {
                            proof {
                                assert(!meta_child_ok(nodes@, *c)) by {
                                    if meta_child_ok(nodes@, *c) {
                                        assert(has_node(nodes@, c.children@[k as int]@) && (
                                        node_at(
                                            nodes@,
                                            c.children@[k as int]@,
                                        ).props matches Some(p) && p.name is Some));
                                    }
                                }
                            }
                            return false;
                        }
                    },
                }
            },
        }
        k += 1;
    }
    true
}

/// Whether metadata extraction is defined for one node, as `node_meta_ok`
/// states.
pub fn check_node_meta(nodes: &Vec<Node>, n: &Node) -> (r: bool)
    requires
        distinct_node_ids(nodes@),
    ensures
        r == node_meta_ok(nodes@, *n),
{
    let mid = match &n.props {
        Option::None => {
            return true;
        },
        Option::Some(p) => match &p.meta_node {
            Option::None => {
                return true;
            },
            Option::Some(mid) => mid,
        },
    };
    let m = match find_node(nodes, mid) {
        Option::None => {
            return false;
        },
        Option::Some(i) => {
            proof {
                lemma_node_at_index(nodes@, i as int, mid@);
            }
            &nodes[i]
        },
    };
    let kn = m.children.len();
    let mut k: usize = 0;
    while k < kn
        invariant
            distinct_node_ids(nodes@),
            *m == node_at(nodes@, mid@),
            has_node(nodes@, mid@),
            n.props matches Some(p) && opt_view(p.meta_node) == Option::Some(mid@),
            kn == m.children@.len(),
            k <= kn,
            forall|j: int|
                0 <= j < k ==> has_node(nodes@, #[trigger] m.children@[j]@) && meta_child_ok(
                    nodes@,
                    node_at(nodes@, m.children@[j]@),
                ),
        decreases kn - k,
    {
        match find_node(nodes, &m.children[k]) {
            Option::None => {
                proof {
                    assert(!has_node(nodes@, m.children@[k as int]@));
                    assert(!node_meta_ok(nodes@, *n)) by {
                        if node_meta_ok(nodes@, *n) {
                            assert(has_node(nodes@, m.children@[k as int]@) && meta_child_ok(
                                nodes@,
                                node_at(nodes@, m.children@[k as int]@),
                            ));
                        }
                    }
                }
                return false;
            },
            Option::Some(i) => {
                proof {
                    lemma_node_at_index(nodes@, i as int, m.children@[k as int]@);
                }
                if !check_meta_child(nodes, &nodes[i]) {
                    proof {
                        assert(!meta_child_ok(nodes@, node_at(nodes@, m.children@[k as int]@)));
                        assert(!node_meta_ok(nodes@, *n)) by {
                            if node_meta_ok(nodes@, *n) {
                                assert(has_node(nodes@, m.children@[k as int]@) && meta_child_ok(
                                    nodes@,
                                    node_at(nodes@, m.children@[k as int]@),
                                ));
                            }
                        }
                    }
                    return false;
                }
            },
        }
        k += 1;
    }
    true
}

/// Whether metadata extraction is defined for every stored node, as
/// `meta_wf` states. A store that fails this check carries a supertag
/// declaration in violation of the input contract.
pub fn check_meta(nodes: &Vec<Node>) -> (r: bool)
    requires
        distinct_node_ids(nodes@),
    ensures
        r == meta_wf(nodes@),
{
    let n = nodes.len();
    let mut i: usize = 0;
    while i < n
        invariant
            distinct_node_ids(nodes@),
            n == nodes@.len(),
            i <= n,
            forall|j: int| 0 <= j < i ==> node_meta_ok(nodes@, #[trigger] nodes@[j]),
        decreases n - i,
    {
        if !check_node_meta(nodes, &nodes[i]) {
            return false;
        }
        i += 1;
    }
    true
}

/// Trash status of `id` against the node store, by the bounded owner walk.
pub fn node_id_in_trash(nodes: &Vec<Node>, id: &String) -> (r: bool)
    requires
        distinct_node_ids(nodes@),
    ensures
        r == in_trash(nodes@, id@),
{
    let ghost whole: Seq<Node> = nodes@;
    let mut cur: String = id.clone();
    let mut fuel: usize = nodes.len();
    loop
        invariant
            distinct_node_ids(whole),
            nodes@ == whole,
            in_trash(whole, id@) == in_trash_fuel(whole, cur@, fuel as nat),
            fuel <= nodes.len(),
        decreases fuel,
    {
        if str_ends_with(cur.as_str(), "_TRASH") {
            return true;
        }
        if fuel == 0 {
            return false;
        }
        let next = match find_node(nodes, &cur) {
            Option::None => Option::None,
            Option::Some(i) => match &{
                proof {
                    lemma_node_at_index(nodes@, i as int, cur@);
                }
                &nodes[i]
            }.props {
                Option::None => Option::None,
                Option::Some(p) => match &p.owner_node {
                    Option::None => Option::None,
                    Option::Some(o) => Option::Some(o.clone()),
                },
            },
        };
        match next {
            Option::None => {
                assert(owner_of(whole, cur@) is None);
                return false;
            },
            Option::Some(o) => {
                assert(owner_of(whole, cur@) == Option::Some(o@));
                cur = o;
                fuel = fuel - 1;
            },
        }
    }
}

/// Index of the node with this id, by linear search.
pub fn find_node(nodes: &Vec<Node>, id: &String) -> (r: Option<usize>)
    ensures
        match r {
            Option::Some(i) => i < nodes@.len() && nodes@[i as int].id@ == id@,
            Option::None => !has_node(nodes@, id@),
        },
{
    let mut i: usize = 0;
    while i < nodes.len()
        invariant
            i <= nodes@.len(),
            forall|j: int| 0 <= j < i ==> nodes@[j].id@ != id@,
        decreases nodes@.len() - i,
    {
        if nodes[i].id.eq(id) {
            return Option::Some(i);
        }
        i += 1;
    }
    Option::None
}

/// Under distinct ids, the node found by search is the node the spec names.
pub proof fn lemma_node_at_index(nodes: Seq<Node>, i: int, id: Seq<char>)
    requires
        distinct_node_ids(nodes),
        0 <= i < nodes.len(),
        nodes[i].id@ == id,
    ensures
        has_node(nodes, id),
        node_at(nodes, id) == nodes[i],
{
    assert(has_node(nodes, id));
    let j = choose|j: int| 0 <= j < nodes.len() && nodes[j].id@ == id;
    assert(j == i);
}

} // verus!
