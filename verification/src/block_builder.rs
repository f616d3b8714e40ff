//! The page builder: turns the resolved entity graph into the block store.
//!
//! A block's title is the entity's name with every inline cross-reference
//! marker replaced by the link markup of the referenced entity's resolved
//! title. Children are classified by kind: text-kind children become child
//! blocks, tuple-kind children become field metadata (first kept text child
//! is the key, the rest are the values), other kinds are built but attached
//! nowhere. Blocks are built for every non-trash, non-system entity with
//! properties, and for every entity a built block's title refers to.

use vstd::prelude::*;
use crate::node::{
    Node, DocType, opt_view, seq_views, has_node, node_at, distinct_node_ids, node_kind, name_of,
    in_trash, sys_id, meta_wf, tag_list_of, lemma_seq_views_push,
};
use crate::node_builder::NodeBuilder;
use crate::block::{Block, has_block, block_at, distinct_block_ids};
use crate::text::{spec_find, find_pat, link_of, is_match_at};

verus! {

/// The marker that opens an inline cross-reference.
pub open spec fn open_pat() -> Seq<char> {
    "<span data-inlineref-node="@
}

/// The marker that closes an inline cross-reference.
pub open spec fn close_pat() -> Seq<char> {
    "></span>"@
}

/// A found occurrence lies at or after the start of the search.
pub proof fn lemma_spec_find(s: Seq<char>, pat: Seq<char>, from: int)
    ensures
        match spec_find(s, pat, from) {
            Option::Some(i) => from <= i && is_match_at(s, pat, i),
            Option::None => true,
        },
    decreases s.len() - from + 1,
{
    if from < 0 || from + pat.len() > s.len() {
    } else if is_match_at(s, pat, from) {
    } else {
        lemma_spec_find(s, pat, from + 1);
    }
}

/// The referenced id inside one matched marker: the quoted value with its
/// first and last character stripped.
pub open spec fn rid_of(s: Seq<char>, o: int, c: int) -> Seq<char> {
    let v = s.subrange(o + open_pat().len(), c);
    if v.len() >= 2 {
        v.subrange(1, v.len() - 1)
    } else {
        Seq::empty()
    }
}

/// The resolved title of the entity with this id: its name with every inline
/// cross-reference marker substituted. The fuel bounds reference nesting;
/// the canonical fuel of `block_title` reaches every acyclic reference chain.
pub open spec fn title_of(nodes: Seq<Node>, id: Seq<char>, fuel: nat) -> Seq<char>
    decreases fuel, 0nat, 0nat,
{
    if fuel == 0 {
        Seq::empty()
    } else {
        subst_refs(nodes, name_of(nodes, id), 0, (fuel - 1) as nat)
    }
}

/// The tail of `s` from `from` with every inline cross-reference marker
/// replaced by the link markup of the referenced entity's title. A marker
/// without a closing sequence is left verbatim.
pub open spec fn subst_refs(nodes: Seq<Node>, s: Seq<char>, from: int, fuel: nat) -> Seq<char>
    decreases fuel, 1nat, s.len() - from + 1,
    via subst_refs_decreases
{
    if from < 0 || from > s.len() {
        Seq::empty()
    } else {
        match spec_find(s, open_pat(), from) {
            Option::None => s.subrange(from, s.len() as int),
            Option::Some(o) => match spec_find(s, close_pat(), o + open_pat().len()) {
                Option::None => s.subrange(from, s.len() as int),
                Option::Some(c) => s.subrange(from, o) + link_of(
                    title_of(nodes, rid_of(s, o, c), fuel),
                ) + subst_refs(nodes, s, c + close_pat().len(), fuel),
            },
        }
    }
}

#[via_fn]
proof fn subst_refs_decreases(nodes: Seq<Node>, s: Seq<char>, from: int, fuel: nat) {
    reveal_strlit("<span data-inlineref-node=");
    reveal_strlit("></span>");
    if 0 <= from <= s.len() {
        lemma_spec_find(s, open_pat(), from);
        match spec_find(s, open_pat(), from) {
            Option::None => {},
            Option::Some(o) => {
                lemma_spec_find(s, close_pat(), o + open_pat().len());
            },
        }
    }
}

/// The referenced ids that occur in `s` from `from` on, in marker order.
pub open spec fn ref_ids_from(s: Seq<char>, from: int) -> Seq<Seq<char>>
    decreases s.len() - from + 1,
    via ref_ids_from_decreases
{
    if from < 0 || from > s.len() {
        Seq::empty()
    } else {
        match spec_find(s, open_pat(), from) {
            Option::None => Seq::empty(),
            Option::Some(o) => match spec_find(s, close_pat(), o + open_pat().len()) {
                Option::None => Seq::empty(),
                Option::Some(c) => seq![rid_of(s, o, c)] + ref_ids_from(
                    s,
                    c + close_pat().len(),
                ),
            },
        }
    }
}

#[via_fn]
proof fn ref_ids_from_decreases(s: Seq<char>, from: int) {
    reveal_strlit("<span data-inlineref-node=");
    reveal_strlit("></span>");
    if 0 <= from <= s.len() {
        lemma_spec_find(s, open_pat(), from);
        match spec_find(s, open_pat(), from) {
            Option::None => {},
            Option::Some(o) => {
                lemma_spec_find(s, close_pat(), o + open_pat().len());
            },
        }
    }
}

/// The canonical resolved title: fuel enough for any acyclic reference chain
/// in the store.
pub open spec fn block_title(nodes: Seq<Node>, id: Seq<char>) -> Seq<char> {
    title_of(nodes, id, (nodes.len() + 1) as nat)
}

/// The ids an entity's name refers to.
pub open spec fn refs_of(nodes: Seq<Node>, id: Seq<char>) -> Seq<Seq<char>> {
    ref_ids_from(name_of(nodes, id), 0)
}

/// An entity that can carry a block: stored, with properties.
pub open spec fn buildable(nodes: Seq<Node>, id: Seq<char>) -> bool {
    has_node(nodes, id) && node_at(nodes, id).props is Some
}

/// An entity built from root traversal: buildable, not trashed, not a
/// system node.
pub open spec fn root_ok(nodes: Seq<Node>, id: Seq<char>) -> bool {
    buildable(nodes, id) && !in_trash(nodes, id) && !sys_id(id)
}

/// A child entity kept during classification: buildable, not trashed, not a
/// system node.
pub open spec fn child_kept(nodes: Seq<Node>, id: Seq<char>) -> bool {
    buildable(nodes, id) && !in_trash(nodes, id) && !sys_id(id)
}

/// The kind a child id resolves to.
pub open spec fn kid_kind(nodes: Seq<Node>, id: Seq<char>) -> DocType {
    node_kind(node_at(nodes, id))
}

/// The kept text-kind children among `cs` from index `i` on: the ids that
/// become child blocks, in order.
pub open spec fn kids_from(nodes: Seq<Node>, cs: Seq<String>, i: int) -> Seq<Seq<char>>
    decreases cs.len() - i + 1,
{
    if i < 0 || i >= cs.len() {
        Seq::empty()
    } else if child_kept(nodes, cs[i]@) && kid_kind(nodes, cs[i]@) == DocType::Text {
        seq![cs[i]@] + kids_from(nodes, cs, i + 1)
    } else {
        kids_from(nodes, cs, i + 1)
    }
}

/// The views of a field-metadata association list.
pub open spec fn md_views(md: Seq<(String, Vec<String>)>) -> Seq<(Seq<char>, Seq<Seq<char>>)> {
    md.map_values(|e: (String, Vec<String>)| (e.0@, seq_views(e.1@)))
}

/// Insertion into an association list: an existing key keeps its place and
/// takes the new values, a new key is appended.
pub open spec fn md_put(
    md: Seq<(Seq<char>, Seq<Seq<char>>)>,
    key: Seq<char>,
    vals: Seq<Seq<char>>,
) -> Seq<(Seq<char>, Seq<Seq<char>>)>
    decreases md.len(),
{
    if md.len() == 0 {
        seq![(key, vals)]
    } else if md[0].0 == key {
        seq![(key, vals)] + md.drop_first()
    } else {
        seq![md[0]] + md_put(md.drop_first(), key, vals)
    }
}

/// The field metadata extracted from children `cs[i..]` on top of `acc`:
/// every kept tuple-kind child with at least two kept text children
/// contributes its first kept text child's resolved title as the key and
/// the remaining ones as the values.
pub open spec fn md_from(
    nodes: Seq<Node>,
    cs: Seq<String>,
    i: int,
    acc: Seq<(Seq<char>, Seq<Seq<char>>)>,
) -> Seq<(Seq<char>, Seq<Seq<char>>)>
    decreases cs.len() - i + 1,
{
    if i < 0 || i >= cs.len() {
        acc
    } else if child_kept(nodes, cs[i]@) && kid_kind(nodes, cs[i]@) == DocType::Tuple {
        let tkids = kids_from(nodes, node_at(nodes, cs[i]@).children@, 0);
        if tkids.len() < 2 {
            md_from(nodes, cs, i + 1, acc)
        } else {
            md_from(nodes, cs, i + 1, md_put(acc, block_title(nodes, tkids[0]), tkids.skip(1)))
        }
    } else {
        md_from(nodes, cs, i + 1, acc)
    }
}

/// The number of occurrences of `id` among one block's child ids.
pub open spec fn occ(s: Seq<String>, id: Seq<char>) -> nat
    decreases s.len(),
{
    if s.len() == 0 {
        0
    } else {
        occ(s.drop_last(), id) + if s.last()@ == id {
            1nat
        } else {
            0nat
        }
    }
}

/// The number of places `id` is attached as a child across the block store.
pub open spec fn total_kid_refs(blocks: Seq<Block>, id: Seq<char>) -> nat
    decreases blocks.len(),
{
    if blocks.len() == 0 {
        0
    } else {
        total_kid_refs(blocks.drop_last(), id) + occ(blocks.last().children@, id)
    }
}

/// A count clamped to the machine limit.
pub open spec fn sat_usize(n: nat) -> nat {
    if n <= usize::MAX as nat {
        n
    } else {
        usize::MAX as nat
    }
}

/// `b` is the block the entity graph determines for its id, against the
/// finished block store (the reference count is counted over the store).
pub open spec fn block_matches(nodes: Seq<Node>, blocks: Seq<Block>, b: Block) -> bool {
    let n = node_at(nodes, b.id@);
    &&& buildable(nodes, b.id@)
    &&& b.title@ == block_title(nodes, b.id@)
    &&& opt_view(b.description) == opt_view(n.props->Some_0.description)
    &&& seq_views(b.tags@) == tag_list_of(nodes, n)
    &&& b.doc_type == node_kind(n)
    &&& seq_views(b.children@) == kids_from(nodes, n.children@, 0)
    &&& md_views(b.metadata@) == md_from(nodes, n.children@, 0, Seq::empty())
    &&& b.ref_count as nat == sat_usize(total_kid_refs(blocks, b.id@))
}

/// The resolved title of the entity with this id, at the given fuel.
pub fn compute_title(nodes: &Vec<Node>, id: &String, fuel: usize) -> (r: String)
    requires
        distinct_node_ids(nodes@),
    ensures
        r@ == title_of(nodes@, id@, fuel as nat),
    decreases fuel, 0int, 0int,
{
    if fuel == 0 {
        return String::new();
    }
    let name: Option<&String> = match crate::node::find_node(nodes, id) {
        Option::None => Option::None,
        Option::Some(i) => {
            proof {
                crate::node::lemma_node_at_index(nodes@, i as int, id@);
            }
            match &nodes[i].props {
                Option::None => Option::None,
                Option::Some(p) => p.name.as_ref(),
            }
        },
    };
    match name {
        Option::None => {
            proof {
                reveal_strlit("<span data-inlineref-node=");
                assert(name_of(nodes@, id@) =~= Seq::<char>::empty());
                assert(subst_refs(nodes@, name_of(nodes@, id@), 0, (fuel - 1) as nat)
                    =~= Seq::<char>::empty());
            }
            String::new()
        },
        Option::Some(nm) => {
            assert(nm@ == name_of(nodes@, id@));
            subst_exec(nodes, nm.as_str(), 0, fuel - 1)
        },
    }
}

/// The marker substitution behind `compute_title`.
pub fn subst_exec(nodes: &Vec<Node>, s: &str, from: usize, fuel: usize) -> (r: String)
    requires
        distinct_node_ids(nodes@),
        from <= s@.len(),
    ensures
        r@ == subst_refs(nodes@, s@, from as int, fuel as nat),
    decreases fuel, 1int, s@.len() - from,
{
    proof {
        reveal_strlit("<span data-inlineref-node=");
        reveal_strlit("></span>");
    }
    let n = s.unicode_len();
    let o = match find_pat(s, "<span data-inlineref-node=", from) {
        Option::None => {
            return s.substring_char(from, n).to_owned();
        },
        Option::Some(o) => o,
    };
    let ol = "<span data-inlineref-node=".unicode_len();
    assert(o + ol <= n);
    let c = match find_pat(s, "></span>", o + ol) {
        Option::None => {
            return s.substring_char(from, n).to_owned();
        },
        Option::Some(c) => c,
    };
    let cl = "></span>".unicode_len();
    assert(o + ol <= c && c + cl <= n);
    let rid: String = if c - (o + ol) >= 2 {
        let r = s.substring_char(o + ol + 1, c - 1).to_owned();
        proof {
            assert(s@.subrange(o + ol + 1, c - 1) =~= rid_of(s@, o as int, c as int));
        }
        r
    } else {
        proof {
            assert(rid_of(s@, o as int, c as int) =~= Seq::<char>::empty());
        }
        String::new()
    };
    let title = compute_title(nodes, &rid, fuel);
    let mut out = s.substring_char(from, o).to_owned();
    out.append("[[");
    out.append(title.as_str());
    out.append("]]");
    let rest = subst_exec(nodes, s, c + cl, fuel);
    out.append(rest.as_str());
    proof {
        assert(out@ =~= s@.subrange(from as int, o as int) + link_of(
            title_of(nodes@, rid_of(s@, o as int, c as int), fuel as nat),
        ) + subst_refs(nodes@, s@, c + cl, fuel as nat));
    }
    out
}

/// The referenced ids in `s` from `from` on, in marker order.
pub fn collect_refs(s: &str, from: usize) -> (r: Vec<String>)
    requires
        from <= s@.len(),
    ensures
        seq_views(r@) == ref_ids_from(s@, from as int),
    decreases s@.len() - from,
{
    proof {
        reveal_strlit("<span data-inlineref-node=");
        reveal_strlit("></span>");
    }
    let n = s.unicode_len();
    let o = match find_pat(s, "<span data-inlineref-node=", from) {
        Option::None => {
            let r: Vec<String> = Vec::new();
            proof {
                assert(seq_views(r@) =~= ref_ids_from(s@, from as int));
            }
            return r;
        },
        Option::Some(o) => o,
    };
    let ol = "<span data-inlineref-node=".unicode_len();
    assert(o + ol <= n);
    let c = match find_pat(s, "></span>", o + ol) {
        Option::None => {
            let r: Vec<String> = Vec::new();
            proof {
                assert(seq_views(r@) =~= ref_ids_from(s@, from as int));
            }
            return r;
        },
        Option::Some(c) => c,
    };
    let cl = "></span>".unicode_len();
    let rid: String = if c - (o + ol) >= 2 {
        let r = s.substring_char(o + ol + 1, c - 1).to_owned();
        proof {
            assert(s@.subrange(o + ol + 1, c - 1) =~= rid_of(s@, o as int, c as int));
        }
        r
    } else {
        proof {
            assert(rid_of(s@, o as int, c as int) =~= Seq::<char>::empty());
        }
        String::new()
    };
    let mut out: Vec<String> = Vec::new();
    out.push(rid);
    let mut rest = collect_refs(s, c + cl);
    let ghost restspec = seq_views(rest@);
    let rest_n = rest.len();
    let mut i: usize = 0;
    while i < rest_n
        invariant
            rest_n == rest@.len(),
            i <= rest_n,
            seq_views(rest@) == restspec,
            out@.len() == i + 1,
            seq_views(out@) == seq![rid_of(s@, o as int, c as int)] + restspec.take(i as int),
        decreases rest_n - i,
    {
        let x = rest[i].clone();
        let ghost pl = out@;
        out.push(x);
        proof {
            lemma_seq_views_push(pl, x);
            assert(seq_views(out@) =~= seq![rid_of(s@, o as int, c as int)] + restspec.take(
                i as int + 1,
            ));
        }
        i += 1;
    }
    proof {
        assert(restspec.take(rest_n as int) =~= restspec);
        assert(seq_views(out@) =~= ref_ids_from(s@, from as int));
    }
    out
}

/// Whether a sequence of strings holds `x`.
pub open spec fn has_str(s: Seq<String>, x: Seq<char>) -> bool {
    exists|k: int| 0 <= k < s.len() && s[k]@ == x
}

/// Membership survives appending.
pub proof fn lemma_has_str_extend(pre: Seq<String>, now: Seq<String>, id: Seq<char>)
    requires
        pre.len() <= now.len(),
        forall|k: int| 0 <= k < pre.len() ==> now[k] == pre[k],
        has_str(pre, id),
    ensures
        has_str(now, id),
{
    let k = choose|k: int| 0 <= k < pre.len() && pre[k]@ == id;
    assert(now[k]@ == id);
}

/// Index of `x` in a vector of strings, by linear search.
pub fn find_str(v: &Vec<String>, x: &String) -> (r: Option<usize>)
    ensures
        match r {
            Option::Some(i) => i < v@.len() && v@[i as int]@ == x@,
            Option::None => !has_str(v@, x@),
        },
{
    let mut i: usize = 0;
    while i < v.len()
        invariant
            i <= v@.len(),
            forall|j: int| 0 <= j < i ==> v@[j]@ != x@,
        decreases v@.len() - i,
    {
        if v[i].eq(x) {
            return Option::Some(i);
        }
        i += 1;
    }
    Option::None
}

/// Whether an entity is stored with properties.
pub fn is_buildable(nodes: &Vec<Node>, id: &String) -> (r: bool)
    requires
        distinct_node_ids(nodes@),
    ensures
        r == buildable(nodes@, id@),
{
    match crate::node::find_node(nodes, id) {
        Option::None => false,
        Option::Some(i) => {
            proof {
                crate::node::lemma_node_at_index(nodes@, i as int, id@);
            }
            match &nodes[i].props {
                Option::None => false,
                Option::Some(_) => true,
            }
        },
    }
}

/// Distinct ids that all name stored nodes are at most as many as the nodes.
pub proof fn lemma_ids_bound(ids: Seq<String>, nodes: Seq<Node>)
    requires
        forall|k: int, l: int|
            0 <= k < ids.len() && 0 <= l < ids.len() && k != l ==> ids[k]@ != ids[l]@,
        forall|k: int| 0 <= k < ids.len() ==> has_node(nodes, #[trigger] ids[k]@),
    ensures
        ids.len() <= nodes.len(),
{
    let ivs = ids.map_values(|x: String| x@);
    let nvs = nodes.map_values(|n: Node| n.id@);
    assert(ivs.no_duplicates());
    ivs.unique_seq_to_set();
    nvs.lemma_cardinality_of_set();
    assert forall|x: Seq<char>| ivs.to_set().contains(x) implies nvs.to_set().contains(x) by {
        let k = choose|k: int| 0 <= k < ivs.len() && ivs[k] == x;
        assert(has_node(nodes, ids[k]@));
        let j = choose|j: int| 0 <= j < nodes.len() && nodes[j].id@ == x;
        assert(nvs[j] == x);
    }
    vstd::set_lib::lemma_len_subset(ivs.to_set(), nvs.to_set());
}

/// Whether a child id is kept during classification.
pub fn is_child_kept(nodes: &Vec<Node>, id: &String) -> (r: bool)
    requires
        distinct_node_ids(nodes@),
    ensures
        r == child_kept(nodes@, id@),
{
    if !is_buildable(nodes, id) {
        return false;
    }
    if crate::node::node_id_in_trash(nodes, id) {
        return false;
    }
    if crate::text::str_starts_with(id.as_str(), "SYS") {
        return false;
    }
    true
}

/// The kept text-kind children of a child list, in order.
pub fn kept_text_children(nodes: &Vec<Node>, cs: &Vec<String>) -> (r: Vec<String>)
    requires
        distinct_node_ids(nodes@),
    ensures
        seq_views(r@) == kids_from(nodes@, cs@, 0),
{
    let mut out: Vec<String> = Vec::new();
    let n = cs.len();
    let mut i: usize = 0;
    proof {
        assert(seq_views(out@) =~= Seq::<Seq<char>>::empty());
        assert(Seq::<Seq<char>>::empty() + kids_from(nodes@, cs@, 0) =~= kids_from(
            nodes@,
            cs@,
            0,
        ));
    }
    while i < n
        invariant
            distinct_node_ids(nodes@),
            n == cs@.len(),
            i <= n,
            seq_views(out@) + kids_from(nodes@, cs@, i as int) == kids_from(nodes@, cs@, 0),
        decreases n - i,
    {
        let keep = if is_child_kept(nodes, &cs[i]) {
            match crate::node::find_node(nodes, &cs[i]) {
                Option::None => false,
                Option::Some(j) => {
                    proof {
                        crate::node::lemma_node_at_index(nodes@, j as int, cs@[i as int]@);
                    }
                    match nodes[j].get_doc_type() {
                        DocType::Text => true,
                        _ => false,
                    }
                },
            }
        } else {
            false
        };
        assert(keep == (child_kept(nodes@, cs@[i as int]@) && kid_kind(nodes@, cs@[i as int]@)
            == DocType::Text));
        if keep {
            let ghost pl = out@;
            let x = cs[i].clone();
            out.push(x);
            proof {
                lemma_seq_views_push(pl, x);
                assert(seq_views(out@) + kids_from(nodes@, cs@, i as int + 1) =~= seq_views(pl)
                    + kids_from(nodes@, cs@, i as int));
            }
        }
        i += 1;
    }
    out
}

/// An existing key is updated in place.
proof fn lemma_md_put_found(
    md: Seq<(Seq<char>, Seq<Seq<char>>)>,
    key: Seq<char>,
    vals: Seq<Seq<char>>,
    i: int,
)
    requires
        0 <= i < md.len(),
        md[i].0 == key,
        forall|j: int| 0 <= j < i ==> md[j].0 != key,
    ensures
        md_put(md, key, vals) == md.update(i, (key, vals)),
    decreases i,
{
    if i == 0 {
        assert(md_put(md, key, vals) =~= md.update(0, (key, vals)));
    } else {
        assert(md[0].0 != key);
        assert forall|j: int| 0 <= j < i - 1 ==> md.drop_first()[j].0 != key by {}
        assert(md.drop_first()[i - 1] == md[i]);
        lemma_md_put_found(md.drop_first(), key, vals, i - 1);
        assert(md_put(md, key, vals) =~= md.update(i, (key, vals)));
    }
}

/// A new key is appended.
proof fn lemma_md_put_missing(
    md: Seq<(Seq<char>, Seq<Seq<char>>)>,
    key: Seq<char>,
    vals: Seq<Seq<char>>,
)
    requires
        forall|j: int| 0 <= j < md.len() ==> md[j].0 != key,
    ensures
        md_put(md, key, vals) == md.push((key, vals)),
    decreases md.len(),
{
    if md.len() == 0 {
        assert(md_put(md, key, vals) =~= md.push((key, vals)));
    } else {
        lemma_md_put_missing(md.drop_first(), key, vals);
        assert(md_put(md, key, vals) =~= md.push((key, vals)));
    }
}

/// Inserts one field, replacing the values of an existing key.
fn md_upsert(md: &mut Vec<(String, Vec<String>)>, key: String, vals: Vec<String>)
    ensures
        md_views(final(md)@) == md_put(md_views(old(md)@), key@, seq_views(vals@)),
{
    let mut i: usize = 0;
    let n = md.len();
    while i < n
        invariant
            md@ == old(md)@,
            n == md@.len(),
            i <= n,
            forall|j: int| 0 <= j < i ==> md@[j].0@ != key@,
        decreases n - i,
    {
        if md[i].0.eq(&key) {
            let ghost pre = md@;
            md.set(i, (key, vals));
            proof {
                assert forall|j: int| 0 <= j < i ==> md_views(pre)[j].0 != key@ by {}
                lemma_md_put_found(md_views(pre), key@, seq_views(vals@), i as int);
                assert(md_views(md@) =~= md_views(pre).update(
                    i as int,
                    (key@, seq_views(vals@)),
                ));
            }
            return ;
        }
        i += 1;
    }
    let ghost pre = md@;
    md.push((key, vals));
    proof {
        assert forall|j: int| 0 <= j < pre.len() ==> md_views(pre)[j].0 != key@ by {}
        lemma_md_put_missing(md_views(pre), key@, seq_views(vals@));
        assert(md_views(md@) =~= md_views(pre).push((key@, seq_views(vals@))));
    }
}

/// The ids an entity's name refers to, in marker order; empty for an entity
/// without a name.
pub fn member_refs(nodes: &Vec<Node>, id: &String) -> (r: Vec<String>)
    requires
        distinct_node_ids(nodes@),
    ensures
        seq_views(r@) == refs_of(nodes@, id@),
{
    let name: Option<&String> = match crate::node::find_node(nodes, id) {
        Option::None => Option::None,
        Option::Some(i) => {
            proof {
                crate::node::lemma_node_at_index(nodes@, i as int, id@);
            }
            match &nodes[i].props {
                Option::None => Option::None,
                Option::Some(p) => p.name.as_ref(),
            }
        },
    };
    match name {
        Option::None => {
            let r: Vec<String> = Vec::new();
            proof {
                reveal_strlit("<span data-inlineref-node=");
                assert(name_of(nodes@, id@) =~= Seq::<char>::empty());
                assert(seq_views(r@) =~= ref_ids_from(name_of(nodes@, id@), 0));
            }
            r
        },
        Option::Some(nm) => {
            assert(nm@ == name_of(nodes@, id@));
            collect_refs(nm.as_str(), 0)
        },
    }
}

/// Builds the block for one buildable entity; the reference count is filled
/// in afterwards, over the finished store.
fn build_one(nb: &NodeBuilder, id: &String, fuel: usize) -> (b: Block)
    requires
        distinct_node_ids(nb.nodes@),
        meta_wf(nb.nodes@),
        buildable(nb.nodes@, id@),
    ensures
        b.id@ == id@,
        b.title@ == title_of(nb.nodes@, id@, fuel as nat),
        opt_view(b.description) == opt_view(
            node_at(nb.nodes@, id@).props->Some_0.description,
        ),
        seq_views(b.tags@) == tag_list_of(nb.nodes@, node_at(nb.nodes@, id@)),
        b.doc_type == node_kind(node_at(nb.nodes@, id@)),
        seq_views(b.children@) == kids_from(nb.nodes@, node_at(nb.nodes@, id@).children@, 0),
        fuel == nb.nodes@.len() + 1 ==> md_views(b.metadata@) == md_from(
            nb.nodes@,
            node_at(nb.nodes@, id@).children@,
            0,
            Seq::empty(),
        ),
        b.ref_count == 0,
    decreases 0int,
{
    let ghost nodes = nb.nodes@;
    let i = match crate::node::find_node(&nb.nodes, id) {
        Option::Some(i) => i,
        Option::None => unreached(),
    };
    proof {
        crate::node::lemma_node_at_index(nodes, i as int, id@);
    }
    let node = &nb.nodes[i];
    let p = node.get_props();
    let title = compute_title(&nb.nodes, id, fuel);
    proof {
        assert(crate::node::node_meta_ok(nodes, nodes[i as int]));
    }
    let tags = node.get_tag_list(nb);
    let description = crate::node_builder::clone_opt_str(&p.description);
    let doc_type = node.get_doc_type();
    let children = kept_text_children(&nb.nodes, &node.children);
    let mut metadata: Vec<(String, Vec<String>)> = Vec::new();
    let cs = &node.children;
    let n = cs.len();
    let mut k: usize = 0;
    proof {
        assert(md_views(metadata@) =~= Seq::<(Seq<char>, Seq<Seq<char>>)>::empty());
    }
    while k < n
        invariant
            distinct_node_ids(nodes),
            nb.nodes@ == nodes,
            cs == node_at(nodes, id@).children,
            n == cs@.len(),
            k <= n,
            fuel == nodes.len() + 1 ==> md_from(nodes, cs@, k as int, md_views(metadata@))
                == md_from(nodes, cs@, 0, Seq::empty()),
        decreases n - k,
    {
        if is_child_kept(&nb.nodes, &cs[k]) {
            let tj = match crate::node::find_node(&nb.nodes, &cs[k]) {
                Option::Some(tj) => tj,
                Option::None => unreached(),
            };
            proof {
                crate::node::lemma_node_at_index(nodes, tj as int, cs@[k as int]@);
            }
            let is_tuple = match nb.nodes[tj].get_doc_type() {
                DocType::Tuple => true,
                _ => false,
            };
            if is_tuple {
                let tkids = kept_text_children(&nb.nodes, &nb.nodes[tj].children);
                if tkids.len() >= 2 {
                    let key = compute_title(&nb.nodes, &tkids[0], fuel);
                    let mut vals: Vec<String> = Vec::new();
                    let tn = tkids.len();
                    let mut v: usize = 1;
                    proof {
                        assert(seq_views(vals@) =~= seq_views(tkids@).subrange(1, 1));
                    }
                    while v < tn
                        invariant
                            tn == tkids@.len(),
                            1 <= v <= tn,
                            seq_views(vals@) == seq_views(tkids@).subrange(1, v as int),
                        decreases tn - v,
                    {
                        let ghost pl = vals@;
                        let x = tkids[v].clone();
                        vals.push(x);
                        proof {
                            lemma_seq_views_push(pl, x);
                            assert(seq_views(vals@) =~= seq_views(tkids@).subrange(
                                1,
                                v as int + 1,
                            ));
                        }
                        v += 1;
                    }
                    proof {
                        assert(seq_views(tkids@).subrange(1, tn as int) =~= seq_views(
                            tkids@,
                        ).skip(1));
                    }
                    md_upsert(&mut metadata, key, vals);
                }
            }
        }
        k += 1;
    }
    proof {
        if fuel == nodes.len() + 1 {
            assert(md_from(nodes, cs@, n as int, md_views(metadata@)) == md_views(metadata@));
        }
    }
    Block {
        id: id.clone(),
        title,
        description,
        tags,
        metadata,
        children,
        doc_type,
        ref_count: 0,
    }
}

/// The page builder: the entity store it reads and the by-id block store it
/// fills.
pub struct BlockBuilder {
    pub node_builder: NodeBuilder,
    pub blocks: Vec<Block>,
}

impl BlockBuilder {
    pub fn new(node_builder: NodeBuilder) -> (b: BlockBuilder)
        ensures
            b.node_builder == node_builder,
            b.blocks@.len() == 0,
    {
        BlockBuilder { node_builder, blocks: Vec::new() }
    }

    /// All built blocks, in build order.
    pub fn get_blocks(&self) -> (r: &Vec<Block>)
        ensures
            r == self.blocks,
    {
        &self.blocks
    }

    /// Builds the block graph: one block for every non-trash, non-system
    /// entity with properties, and one for every entity a built block's
    /// title refers to, transitively. Every block carries the title, tags,
    /// description, kind, children, field metadata and reference count the
    /// entity graph determines for it.
    pub fn build_blocks(&mut self)
        requires
            old(self).blocks@.len() == 0,
            distinct_node_ids(old(self).node_builder.nodes@),
            meta_wf(old(self).node_builder.nodes@),
            old(self).node_builder.nodes@.len() + 1 <= usize::MAX,
        ensures
            final(self).node_builder == old(self).node_builder,
            distinct_block_ids(final(self).blocks@),
            forall|j: int|
                0 <= j < final(self).blocks@.len() ==> block_matches(
                    old(self).node_builder.nodes@,
                    final(self).blocks@,
                    #[trigger] final(self).blocks@[j],
                ),
            forall|i: int|
                0 <= i < old(self).node_builder.nodes@.len() && root_ok(
                    old(self).node_builder.nodes@,
                    #[trigger] old(self).node_builder.nodes@[i].id@,
                ) ==> has_block(final(self).blocks@, old(self).node_builder.nodes@[i].id@),
            forall|j: int|
                0 <= j < final(self).blocks@.len() ==> root_ok(
                    old(self).node_builder.nodes@,
                    #[trigger] final(self).blocks@[j].id@,
                ) || exists|k: int|
                    0 <= k < final(self).blocks@.len() && refs_of(
                        old(self).node_builder.nodes@,
                        final(self).blocks@[k].id@,
                    ).contains(final(self).blocks@[j].id@),
            forall|j: int, t: int|
                0 <= j < final(self).blocks@.len() && 0 <= t < refs_of(
                    old(self).node_builder.nodes@,
                    final(self).blocks@[j].id@,
                ).len() && buildable(
                    old(self).node_builder.nodes@,
                    #[trigger] refs_of(
                        old(self).node_builder.nodes@,
                        #[trigger] final(self).blocks@[j].id@,
                    )[t],
                ) ==> has_block(
                    final(self).blocks@,
                    refs_of(old(self).node_builder.nodes@, final(self).blocks@[j].id@)[t],
                ),
    {
        let ghost nodes = self.node_builder.nodes@;
        let nn = self.node_builder.nodes.len();
        let mut ids: Vec<String> = Vec::new();

        // Root traversal: every non-trash, non-system entity with properties.
        let mut i: usize = 0;
        while i < nn
            invariant
                nodes == self.node_builder.nodes@,
                distinct_node_ids(nodes),
                nn == nodes.len(),
                i <= nn,
                forall|k: int, l: int|
                    0 <= k < ids@.len() && 0 <= l < ids@.len() && k != l ==> ids@[k]@ != ids@[l]@,
                forall|k: int| 0 <= k < ids@.len() ==> root_ok(nodes, #[trigger] ids@[k]@),
                forall|k: int|
                    0 <= k < ids@.len() ==> exists|j: int|
                        0 <= j < i && nodes[j].id@ == #[trigger] ids@[k]@,
                forall|j: int|
                    0 <= j < i && root_ok(nodes, #[trigger] nodes[j].id@) ==> has_str(
                        ids@,
                        nodes[j].id@,
                    ),
            decreases nn - i,
        {
            let nd = &self.node_builder.nodes[i];
            let keep = match &nd.props {
                Option::None => false,
                Option::Some(_) => {
                    if crate::node::node_id_in_trash(&self.node_builder.nodes, &nd.id) {
                        false
                    } else {
                        !nd.is_sys_node()
                    }
                },
            };
            proof {
                crate::node::lemma_node_at_index(nodes, i as int, nodes[i as int].id@);
                assert(keep == root_ok(nodes, nodes[i as int].id@));
            }
            if keep {
                let ghost pre = ids@;
                let x = nd.id.clone();
                ids.push(x);
                proof {
                    assert(ids@.last()@ == nodes[i as int].id@);
                    assert(has_str(ids@, nodes[i as int].id@));
                    assert forall|j: int|
                        0 <= j < i + 1 && root_ok(nodes, #[trigger] nodes[j].id@) implies has_str(
                        ids@,
                        nodes[j].id@,
                    ) by {
                        if j < i {
                            lemma_has_str_extend(pre, ids@, nodes[j].id@);
                        }
                    }
                }
            }
            i += 1;
        }

        // Reference closure: build the targets of built titles too.
        let mut p: usize = 0;
        while p < ids.len()
            invariant
                nodes == self.node_builder.nodes@,
                distinct_node_ids(nodes),
                meta_wf(nodes),
                nn == nodes.len(),
                nn + 1 <= usize::MAX,
                p <= ids@.len(),
                forall|k: int, l: int|
                    0 <= k < ids@.len() && 0 <= l < ids@.len() && k != l ==> ids@[k]@ != ids@[l]@,
                forall|k: int| 0 <= k < ids@.len() ==> buildable(nodes, #[trigger] ids@[k]@),
                forall|j: int|
                    0 <= j < nn && root_ok(nodes, #[trigger] nodes[j].id@) ==> has_str(
                        ids@,
                        nodes[j].id@,
                    ),
                forall|k: int|
                    0 <= k < ids@.len() ==> root_ok(nodes, #[trigger] ids@[k]@) || exists|q: int|
                        0 <= q < ids@.len() && refs_of(nodes, ids@[q]@).contains(
                            ids@[k]@,
                        ),
                forall|q: int, t: int|
                    0 <= q < p && 0 <= t < refs_of(nodes, ids@[q]@).len()
                        && buildable(
                        nodes,
                        #[trigger] refs_of(nodes, #[trigger] ids@[q]@)[t],
                    ) ==> has_str(ids@, refs_of(nodes, ids@[q]@)[t]),
            decreases nn + 1 - p,
        {
            let refs = member_refs(&self.node_builder.nodes, &ids[p]);
            let ghost refspec = refs_of(nodes, ids@[p as int]@);
            let rn = refs.len();
            let mut t: usize = 0;
            while t < rn
                invariant
                    nodes == self.node_builder.nodes@,
                    distinct_node_ids(nodes),
                    nn == nodes.len(),
                    p < ids@.len(),
                    rn == refs@.len(),
                    t <= rn,
                    seq_views(refs@) == refspec,
                    refspec == refs_of(nodes, ids@[p as int]@),
                    forall|k: int, l: int|
                        0 <= k < ids@.len() && 0 <= l < ids@.len() && k != l ==> ids@[k]@
                            != ids@[l]@,
                    forall|k: int| 0 <= k < ids@.len() ==> buildable(nodes, #[trigger] ids@[k]@),
                    forall|j: int|
                        0 <= j < nn && root_ok(nodes, #[trigger] nodes[j].id@) ==> has_str(
                            ids@,
                            nodes[j].id@,
                        ),
                    forall|k: int|
                        0 <= k < ids@.len() ==> root_ok(nodes, #[trigger] ids@[k]@) || exists|
                            q: int,
                        |
                            0 <= q < ids@.len() && refs_of(nodes, ids@[q]@).contains(ids@[k]@),
                    forall|q: int, t2: int|
                        0 <= q < p && 0 <= t2 < refs_of(nodes, ids@[q]@).len()
                            && buildable(
                            nodes,
                            #[trigger] refs_of(nodes, #[trigger] ids@[q]@)[t2],
                        ) ==> has_str(ids@, refs_of(nodes, ids@[q]@)[t2]),
                    forall|t2: int|
                        0 <= t2 < t && buildable(nodes, #[trigger] refspec[t2]) ==> has_str(
                            ids@,
                            refspec[t2],
                        ),
                decreases rn - t,
            {
                let rid = &refs[t];
                proof {
                    assert(rid@ == refspec[t as int]);
                }
                if is_buildable(&self.node_builder.nodes, rid) {
                    match find_str(&ids, rid) {
                        Option::Some(_) => {},
                        Option::None => {
                            let x = rid.clone();
                            let ghost pre = ids@;
                            ids.push(x);
                            proof {
                                assert(ids@.last()@ == refspec[t as int]);
                                assert(has_str(ids@, refspec[t as int]));
                                assert forall|j: int|
                                    0 <= j < nn && root_ok(
                                        nodes,
                                        #[trigger] nodes[j].id@,
                                    ) implies has_str(ids@, nodes[j].id@) by {
                                    lemma_has_str_extend(pre, ids@, nodes[j].id@);
                                }
                                assert forall|q: int, t2: int|
                                    0 <= q < p && 0 <= t2 < refs_of(nodes, ids@[q]@).len()
                                        && buildable(
                                        nodes,
                                        #[trigger] refs_of(nodes, #[trigger] ids@[q]@)[t2],
                                    ) implies has_str(ids@, refs_of(nodes, ids@[q]@)[t2]) by {
                                    assert(ids@[q] == pre[q]);
                                    lemma_has_str_extend(pre, ids@, refs_of(nodes, pre[q]@)[t2]);
                                }
                                assert forall|t2: int|
                                    0 <= t2 < t + 1 && buildable(
                                        nodes,
                                        #[trigger] refspec[t2],
                                    ) implies has_str(ids@, refspec[t2]) by {
                                    if t2 < t {
                                        lemma_has_str_extend(pre, ids@, refspec[t2]);
                                    }
                                }
                                assert forall|k: int|
                                    0 <= k < ids@.len() implies root_ok(
                                    nodes,
                                    #[trigger] ids@[k]@,
                                ) || exists|q: int|
                                    0 <= q < ids@.len() && refs_of(nodes, ids@[q]@).contains(ids@[k]@) by {
                                    if k < pre.len() {
                                        if !root_ok(nodes, ids@[k]@) {
                                            let q = choose|q: int|
                                                0 <= q < pre.len() && refs_of(nodes, pre[q]@).contains(pre[k]@);
                                            assert(ids@[q] == pre[q]);
                                            assert(refs_of(nodes, ids@[q]@).contains(ids@[k]@));
                                        }
                                    } else {
                                        assert(refspec.contains(ids@[k]@));
                                        assert(ids@[p as int] == pre[p as int]);
                                        assert(refs_of(nodes, ids@[p as int]@).contains(ids@[k]@));
                                    }
                                }
                            }
                        },
                    }
                }
                t += 1;
            }
            proof {
                lemma_ids_bound(ids@, nodes);
            }
            p += 1;
        }

        // Build every member's block; the reference count comes last.
        let fuel = nn + 1;
        let mut built: Vec<Block> = Vec::new();
        let mut k: usize = 0;
        while k < ids.len()
            invariant
                nodes == self.node_builder.nodes@,
                distinct_node_ids(nodes),
                meta_wf(nodes),
                fuel == nodes.len() + 1,
                k <= ids@.len(),
                built@.len() == k,
                forall|k2: int| 0 <= k2 < ids@.len() ==> buildable(nodes, #[trigger] ids@[k2]@),
                forall|j: int| 0 <= j < k ==> #[trigger] built@[j].id@ == ids@[j]@,
                forall|j: int|
                    0 <= j < k ==> block_core_matches(nodes, #[trigger] built@[j]) && built@[j].ref_count
                        == 0,
            decreases ids@.len() - k,
        {
            let b = build_one(&self.node_builder, &ids[k], fuel);
            built.push(b);
            k += 1;
        }

        // Count, for every block, its attachments as a child anywhere.
        let mut counts: Vec<usize> = Vec::new();
        let mut k2: usize = 0;
        while k2 < built.len()
            invariant
                k2 <= built@.len(),
                counts@.len() == k2,
                forall|j: int|
                    0 <= j < k2 ==> #[trigger] counts@[j] as nat == sat_usize(
                        total_kid_refs(built@, built@[j].id@),
                    ),
            decreases built@.len() - k2,
        {
            let c = count_refs(&built, &built[k2].id);
            counts.push(c);
            k2 += 1;
        }
        let ghost prebuilt = built@;
        let mut done: Vec<Block> = Vec::new();
        let mut k3: usize = 0;
        while k3 < counts.len()
            invariant
                counts@.len() == prebuilt.len(),
                k3 <= counts@.len(),
                built@ == prebuilt.skip(k3 as int),
                done@.len() == k3,
                forall|j: int|
                    0 <= j < k3 ==> same_but_count(#[trigger] done@[j], prebuilt[j], counts@[j]),
            decreases counts@.len() - k3,
        {
            proof {
                assert(built@[0] == prebuilt[k3 as int]);
            }
            let b = built.remove(0);
            let c = counts[k3];
            let nb = Block {
                id: b.id,
                title: b.title,
                description: b.description,
                tags: b.tags,
                metadata: b.metadata,
                children: b.children,
                doc_type: b.doc_type,
                ref_count: c,
            };
            done.push(nb);
            proof {
                assert(built@ =~= prebuilt.skip(k3 as int + 1));
            }
            k3 += 1;
        }
        self.blocks = done;
        proof {
            assert forall|j: int|
                0 <= j < self.blocks@.len() implies block_matches(
                nodes,
                self.blocks@,
                #[trigger] self.blocks@[j],
            ) by {
                assert(same_but_count(self.blocks@[j], prebuilt[j], counts@[j]));
                assert(block_core_matches(nodes, prebuilt[j]));
                lemma_total_refs_same(prebuilt, self.blocks@, self.blocks@[j].id@);
            }
            assert forall|i2: int|
                0 <= i2 < nodes.len() && root_ok(nodes, #[trigger] nodes[i2].id@) implies has_block(
                self.blocks@,
                nodes[i2].id@,
            ) by {
                assert(has_str(ids@, nodes[i2].id@));
                let k4 = choose|k4: int| 0 <= k4 < ids@.len() && ids@[k4]@ == nodes[i2].id@;
                assert(self.blocks@[k4].id@ == nodes[i2].id@);
            }
            assert forall|j: int, t: int|
                0 <= j < self.blocks@.len() && 0 <= t < refs_of(nodes, self.blocks@[j].id@).len() && buildable(
                    nodes,
                    #[trigger] refs_of(nodes, #[trigger] self.blocks@[j].id@)[t],
                ) implies has_block(
                self.blocks@,
                refs_of(nodes, self.blocks@[j].id@)[t],
            ) by {
                assert(self.blocks@[j].id@ == ids@[j]@);
                assert(has_str(ids@, refs_of(nodes, ids@[j]@)[t]));
                let k4 = choose|k4: int|
                    0 <= k4 < ids@.len() && ids@[k4]@ == refs_of(nodes, ids@[j]@)[t];
                assert(self.blocks@[k4].id@ == ids@[k4]@);
            }
            assert forall|j: int|
                0 <= j < self.blocks@.len() implies root_ok(
                nodes,
                #[trigger] self.blocks@[j].id@,
            ) || exists|k4: int|
                0 <= k4 < self.blocks@.len() && refs_of(nodes, self.blocks@[k4].id@).contains(self.blocks@[j].id@) by {
                assert(self.blocks@[j].id@ == ids@[j]@);
                if !root_ok(nodes, ids@[j]@) {
                    let q = choose|q: int|
                        0 <= q < ids@.len() && refs_of(nodes, ids@[q]@).contains(
                            ids@[j]@,
                        );
                    assert(self.blocks@[q].id@ == ids@[q]@);
                    assert(refs_of(nodes, self.blocks@[q].id@).contains(
                        self.blocks@[j].id@,
                    ));
                }
            }
        }
    }
}

/// Everything of a block but the reference count, as the entity graph
/// determines it.
pub open spec fn block_core_matches(nodes: Seq<Node>, b: Block) -> bool {
    let n = node_at(nodes, b.id@);
    &&& buildable(nodes, b.id@)
    &&& b.title@ == block_title(nodes, b.id@)
    &&& opt_view(b.description) == opt_view(n.props->Some_0.description)
    &&& seq_views(b.tags@) == tag_list_of(nodes, n)
    &&& b.doc_type == node_kind(n)
    &&& seq_views(b.children@) == kids_from(nodes, n.children@, 0)
    &&& md_views(b.metadata@) == md_from(nodes, n.children@, 0, Seq::empty())
}

/// `a` equals `b` in every field except the reference count, which is `c`.
pub open spec fn same_but_count(a: Block, b: Block, c: usize) -> bool {
    &&& a.id == b.id
    &&& a.title == b.title
    &&& a.description == b.description
    &&& a.tags == b.tags
    &&& a.metadata == b.metadata
    &&& a.children == b.children
    &&& a.doc_type == b.doc_type
    &&& a.ref_count == c
}

/// Stores that agree on every child list give every id the same count.
proof fn lemma_total_refs_same(a: Seq<Block>, b: Seq<Block>, id: Seq<char>)
    requires
        a.len() == b.len(),
        forall|j: int| 0 <= j < a.len() ==> #[trigger] a[j].children == b[j].children,
    ensures
        total_kid_refs(a, id) == total_kid_refs(b, id),
    decreases a.len(),
{
    if a.len() == 0 {
    } else {
        lemma_total_refs_same(a.drop_last(), b.drop_last(), id);
    }
}

/// The number of places `id` stands in a child list across the store,
/// clamped at the machine limit.
fn count_refs(blocks: &Vec<Block>, id: &String) -> (r: usize)
    ensures
        r as nat == sat_usize(total_kid_refs(blocks@, id@)),
{
    let mut cnt: usize = 0;
    let n = blocks.len();
    let mut j: usize = 0;
    proof {
        assert(blocks@.take(0) =~= Seq::<Block>::empty());
    }
    while j < n
        invariant
            n == blocks@.len(),
            j <= n,
            cnt as nat == sat_usize(total_kid_refs(blocks@.take(j as int), id@)),
        decreases n - j,
    {
        let cs = &blocks[j].children;
        let cn = cs.len();
        let mut l: usize = 0;
        proof {
            assert(cs@.take(0) =~= Seq::<String>::empty());
        }
        while l < cn
            invariant
                n == blocks@.len(),
                j < n,
                cs == blocks@[j as int].children,
                cn == cs@.len(),
                l <= cn,
                cnt as nat == sat_usize(
                    total_kid_refs(blocks@.take(j as int), id@) + occ(cs@.take(l as int), id@),
                ),
            decreases cn - l,
        {
            proof {
                assert(cs@.take(l as int + 1).drop_last() =~= cs@.take(l as int));
                assert(cs@.take(l as int + 1).last() == cs@[l as int]);
            }
            if cs[l].eq(id) {
                if cnt < usize::MAX {
                    cnt = cnt + 1;
                }
            }
            l += 1;
        }
        proof {
            assert(cs@.take(cn as int) =~= cs@);
            assert(blocks@.take(j as int + 1).drop_last() =~= blocks@.take(j as int));
            assert(blocks@.take(j as int + 1).last() == blocks@[j as int]);
        }
        j += 1;
    }
    proof {
        assert(blocks@.take(n as int) =~= blocks@);
    }
    cnt
}

} // verus!
