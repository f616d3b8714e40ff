use outline_pages::block::Block;
use outline_pages::block_builder::BlockBuilder;
use outline_pages::config::Config;
use outline_pages::node_builder::{NodeBuilder, OriginNode, OriginalProps};
use outline_pages::text::join_lines;

fn props(
    name: Option<&str>,
    doc_type: Option<&str>,
    owner: Option<&str>,
    meta: Option<&str>,
) -> OriginalProps {
    OriginalProps {
        created: 1,
        name: name.map(|s| s.to_string()),
        description: None,
        doc_type: doc_type.map(|s| s.to_string()),
        owner_id: owner.map(|s| s.to_string()),
        meta_node_id: meta.map(|s| s.to_string()),
        source_id: None,
    }
}

fn rec(id: &str, p: Option<OriginalProps>, children: &[&str]) -> OriginNode {
    OriginNode {
        id: id.to_string(),
        props: p,
        touch_counts: None,
        modified_ts: None,
        children: if children.is_empty() {
            None
        } else {
            Some(children.iter().map(|s| s.to_string()).collect())
        },
    }
}

/// The metadata sub-graph that attaches `tag` to an entity through the
/// supertag convention, rooted at metadata entity `mid`.
fn tag_graph(mid: &str, decl: &str, tag_id: &str, tag: &str) -> Vec<OriginNode> {
    vec![
        rec(mid, None, &[decl]),
        rec(decl, Some(props(None, Some("tuple"), None, None)), &["SYS_A13", tag_id]),
        rec(tag_id, Some(props(Some(tag), None, None, None)), &[]),
    ]
}

fn sys_marker() -> OriginNode {
    rec("SYS_A13", None, &[])
}

fn build(records: Vec<OriginNode>) -> BlockBuilder {
    let mut nb = NodeBuilder::new();
    nb.load_records(records);
    nb.build_nodes();
    let mut bb = BlockBuilder::new(nb);
    bb.build_blocks();
    bb
}

fn find<'a>(bb: &'a BlockBuilder, id: &str) -> &'a Block {
    bb.get_blocks().iter().find(|b| b.id == id).expect("block not built")
}

fn has(bb: &BlockBuilder, id: &str) -> bool {
    bb.get_blocks().iter().any(|b| b.id == id)
}

#[test]
fn plain_page_serializes_title_and_tags() {
    let mut records = vec![rec("P1", Some(props(Some("Page1"), None, None, Some("M1"))), &[])];
    records.extend(tag_graph("M1", "T1", "G1", "important"));
    records.push(sys_marker());
    let bb = build(records);
    let p = find(&bb, "P1");
    assert!(p.is_page());
    let lines = p.get_content(&bb, 0, true);
    assert_eq!(lines, vec!["title:: Page1".to_string(), "tags:: #important".to_string()]);
}

#[test]
fn untagged_block_nests_its_fragment_child() {
    let bb = build(vec![
        rec("P1", Some(props(Some("Page1"), None, None, None)), &["N1"]),
        rec("N1", Some(props(Some("Note A"), None, None, None)), &[]),
    ]);
    let p = find(&bb, "P1");
    assert!(!p.is_page());
    let lines = p.get_content(&bb, 0, true);
    assert_eq!(lines, vec!["- Page1".to_string(), "  - Note A".to_string()]);
}

#[test]
fn field_metadata_from_tuple_child() {
    let bb = build(vec![
        rec("P", Some(props(Some("P"), None, None, None)), &["T"]),
        rec("T", Some(props(None, Some("tuple"), None, None)), &["K", "V"]),
        rec("K", Some(props(Some("Status"), None, None, None)), &[]),
        rec("V", Some(props(Some("Done"), None, None, None)), &[]),
    ]);
    let p = find(&bb, "P");
    assert_eq!(p.metadata.len(), 1);
    assert_eq!(p.metadata[0].0, "Status");
    assert_eq!(p.metadata[0].1, vec!["V".to_string()]);
    assert!(p.children.is_empty());
    assert!(p.is_page());
    let lines = p.get_content(&bb, 0, true);
    assert_eq!(
        lines,
        vec![
            "title:: P".to_string(),
            "- Metadata".to_string(),
            "  - Status".to_string(),
            "    - Done".to_string(),
        ],
    );
}

#[test]
fn incomplete_field_declaration_is_skipped() {
    let bb = build(vec![
        rec("P", Some(props(Some("P"), None, None, None)), &["T"]),
        rec("T", Some(props(None, Some("tuple"), None, None)), &["K"]),
        rec("K", Some(props(Some("Status"), None, None, None)), &[]),
    ]);
    let p = find(&bb, "P");
    assert!(p.metadata.is_empty());
    assert!(!p.is_page());
}

#[test]
fn inline_reference_resolves_to_link() {
    let bb = build(vec![
        rec(
            "E",
            Some(props(
                Some("See <span data-inlineref-node=\"X1\"></span> for details"),
                None,
                None,
                None,
            )),
            &[],
        ),
        rec("X1", Some(props(Some("Target"), None, None, None)), &[]),
    ]);
    let e = find(&bb, "E");
    assert_eq!(e.title, "See [[Target]] for details");
}

#[test]
fn nested_inline_references_resolve_through() {
    let bb = build(vec![
        rec(
            "A",
            Some(props(Some("a <span data-inlineref-node=\"B\"></span>"), None, None, None)),
            &[],
        ),
        rec(
            "B",
            Some(props(Some("b <span data-inlineref-node=\"C\"></span>"), None, None, None)),
            &[],
        ),
        rec("C", Some(props(Some("c"), None, None, None)), &[]),
    ]);
    assert_eq!(find(&bb, "A").title, "a [[b [[c]]]]");
}

#[test]
fn referenced_page_renders_as_link_not_content() {
    let mut records = vec![
        rec("P1", Some(props(Some("Page1"), None, None, Some("M1"))), &["P2"]),
        rec("P2", Some(props(Some("Page2"), None, None, Some("M2"))), &[]),
        sys_marker(),
    ];
    records.extend(tag_graph("M1", "T1", "G1", "one"));
    records.extend(tag_graph("M2", "T2", "G2", "two"));
    let bb = build(records);
    let p1 = find(&bb, "P1");
    let p2 = find(&bb, "P2");
    assert!(p1.is_page() && p2.is_page());
    let lines = p1.get_content(&bb, 0, true);
    assert_eq!(
        lines,
        vec!["title:: Page1".to_string(), "tags:: #one".to_string(), "- [[Page2]]".to_string()],
    );
}

#[test]
fn system_and_trash_entities_are_not_built() {
    let bb = build(vec![
        rec("SYS_FOO", Some(props(Some("sys"), None, None, None)), &[]),
        rec("X_TRASH", Some(props(Some("bin"), None, None, None)), &[]),
        rec("C", Some(props(Some("c"), None, Some("X_TRASH"), None)), &[]),
        rec("D", Some(props(Some("d"), None, Some("C"), None)), &[]),
        rec("A", Some(props(Some("a"), None, None, None)), &[]),
    ]);
    assert!(!has(&bb, "SYS_FOO"));
    assert!(!has(&bb, "X_TRASH"));
    assert!(!has(&bb, "C"));
    assert!(!has(&bb, "D"));
    assert!(has(&bb, "A"));
}

#[test]
fn inline_reference_builds_trashed_target() {
    let bb = build(vec![
        rec(
            "A",
            Some(props(Some("see <span data-inlineref-node=\"B_TRASH\"></span>"), None, None, None)),
            &[],
        ),
        rec("B_TRASH", Some(props(Some("Gone"), None, None, None)), &[]),
    ]);
    assert_eq!(find(&bb, "A").title, "see [[Gone]]");
    assert!(has(&bb, "B_TRASH"));
}

#[test]
fn serialization_is_idempotent() {
    let bb = build(vec![
        rec("P1", Some(props(Some("Page1"), None, None, None)), &["N1"]),
        rec("N1", Some(props(Some("Note A"), None, None, None)), &[]),
    ]);
    let p = find(&bb, "P1");
    let first = p.get_content(&bb, 0, true);
    let second = p.get_content(&bb, 0, true);
    assert_eq!(first, second);
}

#[test]
fn metadata_key_is_overwritten_by_later_tuple() {
    let bb = build(vec![
        rec("P", Some(props(Some("P"), None, None, None)), &["T1", "T2"]),
        rec("T1", Some(props(None, Some("tuple"), None, None)), &["K1", "V1"]),
        rec("T2", Some(props(None, Some("tuple"), None, None)), &["K2", "V2"]),
        rec("K1", Some(props(Some("Status"), None, None, None)), &[]),
        rec("K2", Some(props(Some("Status"), None, None, None)), &[]),
        rec("V1", Some(props(Some("Open"), None, None, None)), &[]),
        rec("V2", Some(props(Some("Done"), None, None, None)), &[]),
    ]);
    let p = find(&bb, "P");
    assert_eq!(p.metadata.len(), 1);
    assert_eq!(p.metadata[0].0, "Status");
    assert_eq!(p.metadata[0].1, vec!["V2".to_string()]);
}

#[test]
fn ref_count_counts_attachments() {
    let bb = build(vec![
        rec("A", Some(props(Some("a"), None, None, None)), &["N"]),
        rec("B", Some(props(Some("b"), None, None, None)), &["N"]),
        rec("N", Some(props(Some("n"), None, None, None)), &[]),
    ]);
    assert_eq!(find(&bb, "N").ref_count, 2);
    assert_eq!(find(&bb, "A").ref_count, 0);
}

#[test]
fn description_appears_under_metadata() {
    let mut p = props(Some("P"), None, None, None);
    p.description = Some("about".to_string());
    let bb = build(vec![rec("P", Some(p), &[])]);
    let b = find(&bb, "P");
    let lines = b.get_content(&bb, 0, true);
    assert_eq!(
        lines,
        vec!["- P".to_string(), "  - Metadata".to_string(), "    - Description: about".to_string()],
    );
}

#[test]
fn todo_tag_alone_does_not_make_a_page() {
    let mut records = vec![rec("P1", Some(props(Some("Page1"), None, None, Some("M1"))), &[])];
    records.extend(tag_graph("M1", "T1", "G1", "todo"));
    records.push(sys_marker());
    let bb = build(records);
    assert!(!find(&bb, "P1").is_page());
}

#[test]
fn reserved_marker_tags_never_make_a_page() {
    let mut records = vec![
        rec("P1", Some(props(Some("Page1"), None, None, Some("M1"))), &[]),
        rec("P2", Some(props(Some("Page2"), None, None, Some("M2"))), &[]),
        sys_marker(),
    ];
    records.extend(tag_graph("M1", "T1", "G1", "field-definition"));
    records.extend(tag_graph("M2", "T2", "G2", "supertag"));
    let bb = build(records);
    assert!(!find(&bb, "P1").is_page());
    assert!(!find(&bb, "P2").is_page());
}

#[test]
fn get_link_wraps_the_title() {
    let bb = build(vec![rec("A", Some(props(Some("Hello"), None, None, None)), &[])]);
    assert_eq!(find(&bb, "A").get_link(), "[[Hello]]");
}

#[test]
fn join_lines_builds_the_document() {
    let lines = vec!["title:: P".to_string(), "tags:: #x".to_string()];
    assert_eq!(join_lines(&lines), "title:: P\ntags:: #x");
    let one = vec!["only".to_string()];
    assert_eq!(join_lines(&one), "only");
    let none: Vec<String> = Vec::new();
    assert_eq!(join_lines(&none), "");
}

#[test]
fn config_requires_three_arguments() {
    let args = vec!["prog".to_string(), "in.json".to_string()];
    match Config::new(&args) {
        Err(m) => assert_eq!(m, "Missing arguments"),
        Ok(_) => panic!("expected an error"),
    }
}

#[test]
fn config_requires_json_extension() {
    let args = vec!["prog".to_string(), "in.txt".to_string(), "out".to_string()];
    match Config::new(&args) {
        Err(m) => assert_eq!(m, "Input file must be '.json'"),
        Ok(_) => panic!("expected an error"),
    }
}

#[test]
fn config_accepts_json_input() {
    let args = vec!["prog".to_string(), "in.json".to_string(), "out".to_string()];
    let c = Config::new(&args).expect("config");
    assert_eq!(c.input, "in.json");
    assert_eq!(c.output, "out");
}
