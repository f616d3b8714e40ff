//! The page graph model: blocks, page classification and the recursive
//! outline serializer.
//!
//! A block's children and metadata values are ids into a by-id block store;
//! serialization is a pure function of that store.

use vstd::prelude::*;
use crate::node::{DocType, opt_view, seq_views, lemma_seq_views_push};
use crate::text::link_of;
use crate::block_builder::BlockBuilder;

verus! {

/// A page-graph node derived from an entity: same id, resolved title, tags,
/// optional description, field metadata (key to ordered value block ids),
/// ordered child block ids, doc kind, and the number of places the block is
/// attached as a child elsewhere (informational; never consumed by
/// serialization; saturating at the machine limit).
pub struct Block {
    pub id: String,
    pub title: String,
    pub description: Option<String>,
    pub tags: Vec<String>,
    pub metadata: Vec<(String, Vec<String>)>,
    pub children: Vec<String>,
    pub doc_type: DocType,
    pub ref_count: usize,
}

/// Whether the block store holds a block with this id.
pub open spec fn has_block(blocks: Seq<Block>, id: Seq<char>) -> bool {
    exists|i: int| 0 <= i < blocks.len() && blocks[i].id@ == id
}

/// The block with this id (meaningful under `distinct_block_ids`).
pub open spec fn block_at(blocks: Seq<Block>, id: Seq<char>) -> Block {
    blocks[choose|i: int| 0 <= i < blocks.len() && blocks[i].id@ == id]
}

/// No two blocks share an id.
pub open spec fn distinct_block_ids(blocks: Seq<Block>) -> bool {
    forall|i: int, j: int|
        0 <= i < blocks.len() && 0 <= j < blocks.len() && i != j ==> blocks[i].id@ != blocks[j].id@
}

/// Page classification: a block with the reserved field-definition or
/// supertag marker tag, or without a title, is never a page; otherwise it is
/// a page exactly when it is text-kind and carries a tag other than the
/// reserved todo tag or at least one field-metadata entry.
pub open spec fn spec_is_page(b: Block) -> bool {
    let tags = seq_views(b.tags@);
    if tags.contains("field-definition"@) || tags.contains("supertag"@) || b.title@.len() == 0 {
        false
    } else {
        b.doc_type == DocType::Text && ((exists|i: int|
            0 <= i < tags.len() && tags[i] != "todo"@) || b.metadata@.len() > 0)
    }
}

/// Two spaces for every level.
pub open spec fn indent(level: nat) -> Seq<char>
    decreases level,
{
    if level == 0 {
        Seq::empty()
    } else {
        indent((level - 1) as nat) + "  "@
    }
}

/// Tags as a `#`-prefixed, space-separated run.
pub open spec fn hash_tags(tags: Seq<Seq<char>>) -> Seq<char>
    decreases tags.len(),
{
    if tags.len() == 0 {
        Seq::empty()
    } else if tags.len() == 1 {
        "#"@ + tags[0]
    } else {
        hash_tags(tags.drop_last()) + " #"@ + tags.last()
    }
}

/// The serialized lines of the block with this id. A missing id or
/// exhausted fuel yields no lines; the canonical fuel of `lines_of` reaches
/// every block of an acyclic store.
pub open spec fn content_of(
    blocks: Seq<Block>,
    id: Seq<char>,
    level: nat,
    expand: bool,
    fuel: nat,
) -> Seq<Seq<char>>
    decreases fuel, 2nat, 0nat,
{
    if !has_block(blocks, id) || fuel == 0 {
        Seq::empty()
    } else {
        let b = block_at(blocks, id);
        let pg = spec_is_page(b);
        let pre = indent(level);
        let nl: nat = if pg {
            level
        } else {
            level + 1
        };
        if pg && !expand {
            seq![pre + "- "@ + link_of(b.title@)]
        } else {
            let head: Seq<Seq<char>> = if pg {
                seq![pre + "title:: "@ + b.title@]
            } else {
                Seq::empty()
            };
            let tagline: Seq<Seq<char>> = if b.tags@.len() > 0 {
                if pg {
                    seq![pre + "tags:: "@ + hash_tags(seq_views(b.tags@))]
                } else {
                    seq![pre + "- "@ + hash_tags(seq_views(b.tags@)) + " "@ + b.title@]
                }
            } else if !pg {
                seq![pre + "- "@ + b.title@]
            } else {
                Seq::empty()
            };
            let metapart: Seq<Seq<char>> = if b.metadata@.len() > 0 || b.description is Some {
                let mi = if pg {
                    pre
                } else {
                    indent(nl)
                };
                let desc: Seq<Seq<char>> = match opt_view(b.description) {
                    Option::Some(d) => seq![mi + "  - Description: "@ + d],
                    Option::None => Seq::empty(),
                };
                seq![mi + "- Metadata"@] + desc + meta_lines(blocks, b.metadata@, mi, nl, fuel)
            } else {
                Seq::empty()
            };
            head + tagline + metapart + kids_lines(blocks, b.children@, nl, fuel)
        }
    }
}

/// The lines of the field-metadata entries, in stored order: a key line,
/// then each value block serialized unexpanded and shifted right by four
/// spaces.
pub open spec fn meta_lines(
    blocks: Seq<Block>,
    md: Seq<(String, Vec<String>)>,
    mi: Seq<char>,
    nl: nat,
    fuel: nat,
) -> Seq<Seq<char>>
    decreases fuel, 1nat, md.len(),
{
    if md.len() == 0 {
        Seq::empty()
    } else {
        seq![mi + "  - "@ + md[0].0@] + vals_lines(blocks, md[0].1@, nl, fuel) + meta_lines(
            blocks,
            md.drop_first(),
            mi,
            nl,
            fuel,
        )
    }
}

/// Lines shifted right by four literal spaces.
pub open spec fn shift_lines(ls: Seq<Seq<char>>) -> Seq<Seq<char>>
    decreases ls.len(),
{
    if ls.len() == 0 {
        Seq::empty()
    } else {
        shift_lines(ls.drop_last()).push("    "@ + ls.last())
    }
}

/// The shifted lines of one field's value blocks.
pub open spec fn vals_lines(
    blocks: Seq<Block>,
    vals: Seq<String>,
    nl: nat,
    fuel: nat,
) -> Seq<Seq<char>>
    decreases fuel, 0nat, vals.len(),
{
    if vals.len() == 0 || fuel == 0 {
        Seq::empty()
    } else {
        shift_lines(content_of(blocks, vals[0]@, nl, false, (fuel - 1) as nat)) + vals_lines(
            blocks,
            vals.drop_first(),
            nl,
            fuel,
        )
    }
}

/// The lines of the child blocks, serialized unexpanded, in order.
pub open spec fn kids_lines(blocks: Seq<Block>, kids: Seq<String>, nl: nat, fuel: nat) -> Seq<
    Seq<char>,
>
    decreases fuel, 0nat, kids.len(),
{
    if kids.len() == 0 || fuel == 0 {
        Seq::empty()
    } else {
        content_of(blocks, kids[0]@, nl, false, (fuel - 1) as nat) + kids_lines(
            blocks,
            kids.drop_first(),
            nl,
            fuel,
        )
    }
}

/// The serialized lines of the block with this id, with fuel enough for any
/// acyclic store: serialization is a pure function of the frozen store.
pub open spec fn lines_of(blocks: Seq<Block>, id: Seq<char>, level: nat, expand: bool) -> Seq<
    Seq<char>,
> {
    content_of(blocks, id, level, expand, (blocks.len() + 1) as nat)
}

/// Index of the block with this id, by linear search.
pub fn find_block(blocks: &Vec<Block>, id: &String) -> (r: Option<usize>)
    ensures
        match r {
            Option::Some(i) => i < blocks@.len() && blocks@[i as int].id@ == id@,
            Option::None => !has_block(blocks@, id@),
        },
{
    let mut i: usize = 0;
    while i < blocks.len()
        invariant
            i <= blocks@.len(),
            forall|j: int| 0 <= j < i ==> blocks@[j].id@ != id@,
        decreases blocks@.len() - i,
    {
        if blocks[i].id.eq(id) {
            return Option::Some(i);
        }
        i += 1;
    }
    Option::None
}

/// Under distinct ids, the block found by search is the block the spec names.
pub proof fn lemma_block_at_index(blocks: Seq<Block>, i: int, id: Seq<char>)
    requires
        distinct_block_ids(blocks),
        0 <= i < blocks.len(),
        blocks[i].id@ == id,
    ensures
        has_block(blocks, id),
        block_at(blocks, id) == blocks[i],
{
    assert(has_block(blocks, id));
    let j = choose|j: int| 0 <= j < blocks.len() && blocks[j].id@ == id;
    assert(j == i);
}

/// Whether some tag equals `t`.
fn tags_contain(tags: &Vec<String>, t: &str) -> (r: bool)
    ensures
        r == seq_views(tags@).contains(t@),
{
    let mut i: usize = 0;
    while i < tags.len()
        invariant
            i <= tags@.len(),
            forall|j: int| 0 <= j < i ==> seq_views(tags@)[j] != t@,
        decreases tags@.len() - i,
    {
        if crate::text::str_equal(tags[i].as_str(), t) {
            assert(seq_views(tags@)[i as int] == t@);
            return true;
        }
        i += 1;
    }
    assert forall|j: int| 0 <= j < seq_views(tags@).len() implies seq_views(tags@)[j] != t@ by {}
    false
}

/// Whether some tag differs from `t`.
fn tags_contain_other(tags: &Vec<String>, t: &str) -> (r: bool)
    ensures
        r == exists|i: int| 0 <= i < seq_views(tags@).len() && seq_views(tags@)[i] != t@,
{
    let mut i: usize = 0;
    while i < tags.len()
        invariant
            i <= tags@.len(),
            forall|j: int| 0 <= j < i ==> seq_views(tags@)[j] == t@,
        decreases tags@.len() - i,
    {
        if !crate::text::str_equal(tags[i].as_str(), t) {
            assert(seq_views(tags@)[i as int] != t@);
            return true;
        }
        i += 1;
    }
    false
}

/// Two spaces for every level, as a string.
pub fn make_indent(level: usize) -> (r: String)
    ensures
        r@ == indent(level as nat),
{
    let mut out = String::new();
    let mut i: usize = 0;
    while i < level
        invariant
            i <= level,
            out@ == indent(i as nat),
        decreases level - i,
    {
        out.append("  ");
        i += 1;
    }
    out
}

/// Tags as a `#`-prefixed, space-separated run, as a string.
fn make_hash_tags(tags: &Vec<String>) -> (r: String)
    ensures
        r@ == hash_tags(seq_views(tags@)),
{
    let mut out = String::new();
    let n = tags.len();
    let mut i: usize = 0;
    proof {
        assert(seq_views(tags@).take(0) =~= Seq::<Seq<char>>::empty());
    }
    while i < n
        invariant
            n == tags@.len(),
            i <= n,
            out@ == hash_tags(seq_views(tags@).take(i as int)),
        decreases n - i,
    {
        let ghost pfx = seq_views(tags@).take(i as int);
        let ghost pfx1 = seq_views(tags@).take(i as int + 1);
        proof {
            assert(pfx1.drop_last() =~= pfx);
            assert(pfx1.last() == tags@[i as int]@);
        }
        if i == 0 {
            out.append("#");
        } else {
            out.append(" #");
        }
        out.append(tags[i].as_str());
        proof {
            if i == 0 {
                assert(pfx1.len() == 1);
                assert(out@ == "#"@ + tags@[0]@);
                assert(hash_tags(pfx1) == "#"@ + pfx1[0]);
            }
        }
        i += 1;
    }
    proof {
        assert(seq_views(tags@).take(n as int) =~= seq_views(tags@));
    }
    out
}

impl Block {
    /// The link markup for this block's title.
    pub fn get_link(&self) -> (r: String)
        ensures
            r@ == link_of(self.title@),
    {
        let mut out = String::new();
        out.append("[[");
        out.append(self.title.as_str());
        out.append("]]");
        out
    }

    /// The ordered child block ids.
    pub fn get_children(&self) -> (r: &Vec<String>)
        ensures
            r == self.children,
    {
        &self.children
    }

    /// Page classification, as `spec_is_page` states it.
    pub fn is_page(&self) -> (r: bool)
        ensures
            r == spec_is_page(*self),
    {
        let is_field = tags_contain(&self.tags, "field-definition");
        let is_supertag = tags_contain(&self.tags, "supertag");
        let title_less = self.title.unicode_len() == 0;
        if is_field || is_supertag || title_less {
            return false;
        }
        let has_tag = tags_contain_other(&self.tags, "todo");
        let has_field = self.metadata.len() > 0;
        match self.doc_type {
            DocType::Text => has_tag || has_field,
            _ => false,
        }
    }

    /// The serialized lines of this block against its store: a single link
    /// line for an unexpanded page, otherwise the title/tags/metadata lines
    /// followed by every child serialized one level deeper (pages keep their
    /// own level). A pure function of the store, so repeated calls yield
    /// identical lines.
    pub fn get_content(&self, store: &BlockBuilder, level: usize, extend: bool) -> (r: Vec<String>)
        requires
            distinct_block_ids(store.blocks@),
            has_block(store.blocks@, self.id@),
            block_at(store.blocks@, self.id@) == *self,
            level + store.blocks@.len() + 1 <= usize::MAX,
        ensures
            seq_views(r@) == lines_of(store.blocks@, self.id@, level as nat, extend),
    {
        let fuel = store.blocks.len() + 1;
        content_exec(&store.blocks, &self.id, level, extend, fuel)
    }
}

/// The serializer: emits the lines `content_of` states, by structural
/// recursion on the fuel.
pub fn content_exec(
    blocks: &Vec<Block>,
    id: &String,
    level: usize,
    expand: bool,
    fuel: usize,
) -> (r: Vec<String>)
    requires
        distinct_block_ids(blocks@),
        level + fuel <= usize::MAX,
    ensures
        seq_views(r@) == content_of(blocks@, id@, level as nat, expand, fuel as nat),
    decreases fuel,
{
    let mut out: Vec<String> = Vec::new();
    proof {
        assert(seq_views(out@) =~= Seq::<Seq<char>>::empty());
    }
    let bi = match find_block(blocks, id) {
        Option::None => {
            return out;
        },
        Option::Some(i) => i,
    };
    if fuel == 0 {
        return out;
    }
    let b = &blocks[bi];
    proof {
        lemma_block_at_index(blocks@, bi as int, id@);
    }
    let pg = b.is_page();
    let pre = make_indent(level);
    let nl: usize = if pg {
        level
    } else {
        level + 1
    };
    if pg && !expand {
        let mut line = pre;
        line.append("- ");
        let link = b.get_link();
        line.append(link.as_str());
        out.push(line);
        proof {
            assert(seq_views(out@) =~= content_of(blocks@, id@, level as nat, expand, fuel as nat));
        }
        return out;
    }
    if pg {
        let mut line = pre.clone();
        line.append("title:: ");
        line.append(b.title.as_str());
        out.push(line);
    }
    let ghost spec_b = block_at(blocks@, id@);
    let ghost head: Seq<Seq<char>> = if pg {
        seq![indent(level as nat) + "title:: "@ + spec_b.title@]
    } else {
        Seq::<Seq<char>>::empty()
    };
    proof {
        assert(seq_views(out@) =~= head);
    }
    if b.tags.len() > 0 {
        let ts = make_hash_tags(&b.tags);
        let mut line = pre.clone();
        if pg {
            line.append("tags:: ");
            line.append(ts.as_str());
        } else {
            line.append("- ");
            line.append(ts.as_str());
            line.append(" ");
            line.append(b.title.as_str());
        }
        out.push(line);
    } else if !pg {
        let mut line = pre.clone();
        line.append("- ");
        line.append(b.title.as_str());
        out.push(line);
    }
    let ghost tagline: Seq<Seq<char>> = if spec_b.tags@.len() > 0 {
        if pg {
            seq![indent(level as nat) + "tags:: "@ + hash_tags(seq_views(spec_b.tags@))]
        } else {
            seq![
                indent(level as nat) + "- "@ + hash_tags(seq_views(spec_b.tags@)) + " "@
                    + spec_b.title@,
            ]
        }
    } else if !pg {
        seq![indent(level as nat) + "- "@ + spec_b.title@]
    } else {
        Seq::<Seq<char>>::empty()
    };
    proof {
        assert(seq_views(out@) =~= head + tagline);
    }
    let ghost mi_spec = if pg {
        indent(level as nat)
    } else {
        indent(nl as nat)
    };
    let ghost desc: Seq<Seq<char>> = match opt_view(spec_b.description) {
        Option::Some(d) => seq![mi_spec + "  - Description: "@ + d],
        Option::None => Seq::<Seq<char>>::empty(),
    };
    if b.metadata.len() > 0 || b.description.is_some() {
        let mi = if pg {
            pre.clone()
        } else {
            make_indent(nl)
        };
        let mut line = mi.clone();
        line.append("- Metadata");
        out.push(line);
        match &b.description {
            Option::Some(d) => {
                let mut dl = mi.clone();
                dl.append("  - Description: ");
                dl.append(d.as_str());
                out.push(dl);
            },
            Option::None => {},
        }
        proof {
            assert(seq_views(out@) =~= head + tagline + seq![mi_spec + "- Metadata"@] + desc);
        }
        let ghost base = seq_views(out@);
        let md_n = b.metadata.len();
        let mut mk: usize = 0;
        proof {
            assert(spec_b.metadata@.skip(0) =~= spec_b.metadata@);
        }
        while mk < md_n
            invariant
                distinct_block_ids(blocks@),
                has_block(blocks@, id@),
                block_at(blocks@, id@) == spec_b,
                blocks@[bi as int] == spec_b,
                bi < blocks@.len(),
                fuel >= 1,
                level + fuel <= usize::MAX,
                nl <= level + 1,
                md_n == spec_b.metadata@.len(),
                mk <= md_n,
                mi@ == mi_spec,
                seq_views(out@) + meta_lines(
                    blocks@,
                    spec_b.metadata@.skip(mk as int),
                    mi_spec,
                    nl as nat,
                    fuel as nat,
                ) == base + meta_lines(
                    blocks@,
                    spec_b.metadata@,
                    mi_spec,
                    nl as nat,
                    fuel as nat,
                ),
            decreases md_n - mk,
        {
            proof {
                assert(spec_b.metadata@.skip(mk as int).drop_first() =~= spec_b.metadata@.skip(
                    mk as int + 1,
                ));
                assert(spec_b.metadata@.skip(mk as int)[0] == spec_b.metadata@[mk as int]);
            }
            let entry = &blocks[bi].metadata[mk];
            let mut line = mi.clone();
            line.append("  - ");
            line.append(entry.0.as_str());
            out.push(line);
            let ghost vbase = seq_views(out@);
            let vals_n = entry.1.len();
            let mut vk: usize = 0;
            proof {
                assert(entry.1@.skip(0) =~= entry.1@);
            }
            while vk < vals_n
                invariant
                    distinct_block_ids(blocks@),
                    fuel >= 1,
                    level + fuel <= usize::MAX,
                    nl <= level + 1,
                    entry == blocks@[bi as int].metadata@[mk as int],
                    bi < blocks@.len(),
                    mk < blocks@[bi as int].metadata@.len(),
                    vals_n == entry.1@.len(),
                    vk <= vals_n,
                    seq_views(out@) + vals_lines(
                        blocks@,
                        entry.1@.skip(vk as int),
                        nl as nat,
                        fuel as nat,
                    ) == vbase + vals_lines(blocks@, entry.1@, nl as nat, fuel as nat),
                decreases vals_n - vk,
            {
                proof {
                    assert(entry.1@.skip(vk as int).drop_first() =~= entry.1@.skip(vk as int + 1));
                    assert(entry.1@.skip(vk as int)[0] == entry.1@[vk as int]);
                }
                let sub = content_exec(blocks, &entry.1[vk], nl, false, fuel - 1);
                let ghost subspec = content_of(
                    blocks@,
                    entry.1@[vk as int]@,
                    nl as nat,
                    false,
                    (fuel - 1) as nat,
                );
                let ghost before_push = seq_views(out@);
                let sub_n = sub.len();
                let mut sk: usize = 0;
                proof {
                    assert(subspec.take(0) =~= Seq::<Seq<char>>::empty());
                }
                while sk < sub_n
                    invariant
                        sub_n == sub@.len(),
                        sk <= sub_n,
                        seq_views(sub@) == subspec,
                        seq_views(out@) == before_push + shift_lines(subspec.take(sk as int)),
                    decreases sub_n - sk,
                {
                    let mut sl = String::new();
                    sl.append("    ");
                    sl.append(sub[sk].as_str());
                    let ghost pl = out@;
                    out.push(sl);
                    proof {
                        assert(out@ == pl.push(sl));
                        lemma_seq_views_push(pl, sl);
                        assert(sl@ == "    "@ + subspec[sk as int]);
                        assert(subspec.take(sk as int + 1).drop_last() =~= subspec.take(sk as int));
                        assert(subspec.take(sk as int + 1).last() == subspec[sk as int]);
                        assert(shift_lines(subspec.take(sk as int + 1)) == shift_lines(
                            subspec.take(sk as int),
                        ).push("    "@ + subspec[sk as int]));
                        assert((before_push + shift_lines(subspec.take(sk as int))).push(sl@) =~= before_push
                            + shift_lines(subspec.take(sk as int + 1)));
                        assert(seq_views(out@) == before_push + shift_lines(
                            subspec.take(sk as int + 1),
                        ));
                    }
                    sk += 1;
                }
                proof {
                    assert(subspec.take(sub_n as int) =~= subspec);
                }
                vk += 1;
            }
            proof {
                assert(entry.1@.skip(vals_n as int) =~= Seq::<String>::empty());
            }
            mk += 1;
        }
        proof {
            assert(spec_b.metadata@.skip(md_n as int) =~= Seq::<(String, Vec<String>)>::empty());
        }
    }
    proof {
        let ghost metapart: Seq<Seq<char>> = if spec_b.metadata@.len() > 0
            || spec_b.description is Some {
            seq![mi_spec + "- Metadata"@] + desc + meta_lines(
                blocks@,
                spec_b.metadata@,
                mi_spec,
                nl as nat,
                fuel as nat,
            )
        } else {
            Seq::<Seq<char>>::empty()
        };
        assert(seq_views(out@) =~= head + tagline + metapart);
    }
    let ghost kbase = seq_views(out@);
    let kid_n = blocks[bi].children.len();
    let mut kk: usize = 0;
    proof {
        assert(spec_b.children@.skip(0) =~= spec_b.children@);
    }
    while kk < kid_n
        invariant
            distinct_block_ids(blocks@),
            fuel >= 1,
            level + fuel <= usize::MAX,
            nl <= level + 1,
            bi < blocks@.len(),
            blocks@[bi as int] == spec_b,
            kid_n == spec_b.children@.len(),
            kk <= kid_n,
            seq_views(out@) + kids_lines(
                blocks@,
                spec_b.children@.skip(kk as int),
                nl as nat,
                fuel as nat,
            ) == kbase + kids_lines(blocks@, spec_b.children@, nl as nat, fuel as nat),
        decreases kid_n - kk,
    {
        proof {
            assert(spec_b.children@.skip(kk as int).drop_first() =~= spec_b.children@.skip(
                kk as int + 1,
            ));
            assert(spec_b.children@.skip(kk as int)[0] == spec_b.children@[kk as int]);
        }
        let mut sub = content_exec(blocks, &blocks[bi].children[kk], nl, false, fuel - 1);
        let ghost presub = seq_views(out@);
        let ghost subspec = seq_views(sub@);
        let sub_n = sub.len();
        let mut sk: usize = 0;
        while sk < sub_n
            invariant
                sub_n == sub@.len(),
                sk <= sub_n,
                seq_views(out@) == presub + seq_views(sub@).take(sk as int),
                seq_views(sub@) == subspec,
            decreases sub_n - sk,
        {
            let line = sub[sk].clone();
            let ghost pl = out@;
            out.push(line);
            proof {
                assert(out@ == pl.push(line));
                lemma_seq_views_push(pl, line);
                assert(line@ == sub@[sk as int]@);
                assert((presub + seq_views(sub@).take(sk as int)).push(line@) =~= presub
                    + seq_views(sub@).take(sk as int + 1));
                assert(seq_views(out@) == presub + seq_views(sub@).take(sk as int + 1));
            }
            sk += 1;
        }
        proof {
            assert(seq_views(sub@).take(sub_n as int) =~= seq_views(sub@));
        }
        kk += 1;
    }
    proof {
        assert(spec_b.children@.skip(kid_n as int) =~= Seq::<String>::empty());
        assert(seq_views(out@) =~= content_of(blocks@, id@, level as nat, expand, fuel as nat));
    }
    out
}

} // verus!
