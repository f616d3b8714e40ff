use outline_pages::node::{check_meta, DocType, Meta, Node};
use outline_pages::node_builder::{NodeBuilder, OriginNode, OriginalProps};

fn props(
    name: Option<&str>,
    doc_type: Option<&str>,
    owner: Option<&str>,
    meta: Option<&str>,
) -> OriginalProps {
    OriginalProps {
        created: 1,
        name: name.map(|s| s.to_string()),
        description: None,
        doc_type: doc_type.map(|s| s.to_string()),
        owner_id: owner.map(|s| s.to_string()),
        meta_node_id: meta.map(|s| s.to_string()),
        source_id: None,
    }
}

fn rec(id: &str, p: Option<OriginalProps>, children: &[&str]) -> OriginNode {
    OriginNode {
        id: id.to_string(),
        props: p,
        touch_counts: None,
        modified_ts: None,
        children: if children.is_empty() {
            None
        } else {
            Some(children.iter().map(|s| s.to_string()).collect())
        },
    }
}

fn built(records: Vec<OriginNode>) -> NodeBuilder {
    let mut nb = NodeBuilder::new();
    nb.load_records(records);
    nb.build_nodes();
    nb
}

#[test]
fn resolved_count_equals_record_count() {
    let nb = built(vec![
        rec("A", Some(props(Some("a"), None, None, None)), &["B", "C"]),
        rec("B", Some(props(Some("b"), None, Some("A"), None)), &[]),
        rec("C", None, &[]),
    ]);
    assert_eq!(nb.get_nodes().len(), 3);
}

#[test]
fn build_nodes_is_idempotent() {
    let mut nb = NodeBuilder::new();
    nb.load_records(vec![
        rec("A", Some(props(Some("a"), None, None, None)), &["B"]),
        rec("B", None, &[]),
    ]);
    nb.build_nodes();
    let ids1: Vec<String> = nb.get_nodes().iter().map(|n| n.id.clone()).collect();
    nb.build_nodes();
    let ids2: Vec<String> = nb.get_nodes().iter().map(|n| n.id.clone()).collect();
    assert_eq!(ids1, ids2);
}

#[test]
fn resolution_is_order_independent() {
    let make = |forward: bool| {
        let mut rs = vec![
            rec("A", Some(props(Some("a"), None, Some("B"), None)), &["B", "C"]),
            rec("B", Some(props(Some("b"), Some("tuple"), None, None)), &[]),
            rec("C", Some(props(Some("c"), None, None, None)), &[]),
        ];
        if !forward {
            rs.reverse();
        }
        rs
    };
    let nb1 = built(make(true));
    let nb2 = built(make(false));
    assert_eq!(nb1.get_nodes().len(), nb2.get_nodes().len());
    for id in ["A", "B", "C"] {
        let key = id.to_string();
        let a = nb1.get_node(&key);
        let b = nb2.get_node(&key);
        assert_eq!(a.children, b.children);
        assert_eq!(a.get_name(), b.get_name());
    }
}

#[test]
fn dangling_children_are_skipped() {
    let nb = built(vec![rec(
        "A",
        Some(props(Some("a"), None, Some("nowhere"), None)),
        &["ghost", "B"],
    ), rec("B", Some(props(Some("b"), None, None, None)), &[])]);
    let key = "A".to_string();
    let a = nb.get_node(&key);
    assert_eq!(a.children, vec!["B".to_string()]);
    assert!(a.get_owner_node().is_none());
}

#[test]
fn tuple_children_come_first() {
    let nb = built(vec![
        rec("P", Some(props(Some("p"), None, None, None)), &["X", "T1", "Y", "T2"]),
        rec("X", Some(props(Some("x"), None, None, None)), &[]),
        rec("Y", Some(props(Some("y"), None, None, None)), &[]),
        rec("T1", Some(props(Some("t1"), Some("tuple"), None, None)), &[]),
        rec("T2", Some(props(Some("t2"), Some("tuple"), None, None)), &[]),
    ]);
    let key = "P".to_string();
    let p = nb.get_node(&key);
    let kids: Vec<&str> = p.get_children().iter().map(|s| s.as_str()).collect();
    assert_eq!(kids, vec!["T1", "T2", "X", "Y"]);
}

#[test]
fn doc_type_mapping() {
    let nb = built(vec![
        rec("T", Some(props(None, Some("tuple"), None, None)), &[]),
        rec("C", Some(props(None, Some("codeblock"), None, None)), &[]),
        rec("S", Some(props(None, Some("search"), None, None)), &[]),
        rec("W", Some(props(None, Some("weird"), None, None)), &[]),
        rec("N", Some(props(None, None, None, None)), &[]),
        rec("E", None, &[]),
    ]);
    assert!(matches!(nb.get_node(&"T".to_string()).get_doc_type(), DocType::Tuple));
    assert!(matches!(nb.get_node(&"C".to_string()).get_doc_type(), DocType::Codeblock));
    assert!(matches!(nb.get_node(&"S".to_string()).get_doc_type(), DocType::Search));
    assert!(matches!(nb.get_node(&"W".to_string()).get_doc_type(), DocType::Text));
    assert!(matches!(nb.get_node(&"N".to_string()).get_doc_type(), DocType::Text));
    assert!(matches!(nb.get_node(&"E".to_string()).get_doc_type(), DocType::Text));
}

#[test]
fn trash_by_suffix_and_ownership() {
    let nb = built(vec![
        rec("X_TRASH", Some(props(Some("bin"), None, None, None)), &[]),
        rec("C", Some(props(Some("c"), None, Some("X_TRASH"), None)), &[]),
        rec("D", Some(props(Some("d"), None, Some("C"), None)), &[]),
        rec("E", Some(props(Some("e"), None, None, None)), &[]),
    ]);
    assert!(nb.get_node(&"X_TRASH".to_string()).is_in_trash(&nb));
    assert!(nb.get_node(&"C".to_string()).is_in_trash(&nb));
    assert!(nb.get_node(&"D".to_string()).is_in_trash(&nb));
    assert!(!nb.get_node(&"E".to_string()).is_in_trash(&nb));
}

#[test]
fn system_nodes_by_prefix() {
    let nb = built(vec![
        rec("SYS_FOO", Some(props(Some("s"), None, None, None)), &[]),
        rec("A", Some(props(Some("a"), None, None, None)), &[]),
    ]);
    assert!(nb.get_node(&"SYS_FOO".to_string()).is_sys_node());
    assert!(!nb.get_node(&"A".to_string()).is_sys_node());
}

#[test]
fn supertags_are_extracted() {
    let nb = built(vec![
        rec("P", Some(props(Some("p"), None, None, Some("M"))), &[]),
        rec("M", None, &["T"]),
        rec("T", Some(props(None, Some("tuple"), None, None)), &["SYS_A13", "G1", "G2"]),
        rec("SYS_A13", None, &[]),
        rec("G1", Some(props(Some("alpha"), None, None, None)), &[]),
        rec("G2", Some(props(Some("beta"), None, None, None)), &[]),
    ]);
    let key = "P".to_string();
    let tags = nb.get_node(&key).get_tag_list(&nb);
    assert_eq!(tags, vec!["alpha".to_string(), "beta".to_string()]);
    let metas = nb.get_node(&key).get_meta(&nb);
    assert_eq!(metas.len(), 1);
    match &metas[0] {
        Meta::SuperTags(v) => assert_eq!(v, &vec!["alpha".to_string(), "beta".to_string()]),
        Meta::SearchExpression => panic!("unexpected meta"),
    }
}

#[test]
fn no_meta_link_gives_no_tags() {
    let nb = built(vec![rec("P", Some(props(Some("p"), None, None, None)), &[])]);
    let key = "P".to_string();
    assert!(nb.get_node(&key).get_tag_list(&nb).is_empty());
    assert!(nb.get_node(&key).get_meta(&nb).is_empty());
}

#[test]
fn meta_check_flags_unnamed_sibling() {
    let good = built(vec![
        rec("P", Some(props(Some("p"), None, None, Some("M"))), &[]),
        rec("M", None, &["T"]),
        rec("T", Some(props(None, Some("tuple"), None, None)), &["SYS_A13", "G1"]),
        rec("SYS_A13", None, &[]),
        rec("G1", Some(props(Some("alpha"), None, None, None)), &[]),
    ]);
    assert!(check_meta(good.get_nodes()));
    let bad = built(vec![
        rec("P", Some(props(Some("p"), None, None, Some("M"))), &[]),
        rec("M", None, &["T"]),
        rec("T", Some(props(None, Some("tuple"), None, None)), &["SYS_A13", "G1"]),
        rec("SYS_A13", None, &[]),
        rec("G1", Some(props(None, None, None, None)), &[]),
    ]);
    assert!(!check_meta(bad.get_nodes()));
}

#[test]
fn duplicate_record_ids_keep_the_later_record() {
    let nb = built(vec![
        rec("A", Some(props(Some("first"), None, None, None)), &[]),
        rec("A", Some(props(Some("second"), None, None, None)), &[]),
    ]);
    assert_eq!(nb.get_nodes().len(), 1);
    let key = "A".to_string();
    assert_eq!(nb.get_node(&key).get_name(), Some("second".to_string()));
}

#[test]
fn contains_and_incremental_build() {
    let mut nb = NodeBuilder::new();
    nb.load_records(vec![
        rec("A", Some(props(Some("a"), None, None, None)), &["B"]),
        rec("B", Some(props(Some("b"), None, None, None)), &[]),
    ]);
    let a = "A".to_string();
    let b = "B".to_string();
    let zz = "ZZ".to_string();
    assert!(!nb.contains_node(&a));
    nb.build_node_by_id(&a);
    assert!(nb.contains_node(&a));
    nb.build_node_by_id(&zz);
    assert!(!nb.contains_node(&zz));
    nb.build_node_by_id(&b);
    assert!(nb.contains_node(&b));
    assert_eq!(nb.get_node(&a).get_children(), &vec!["B".to_string()]);
}

#[test]
fn empty_record_set_builds_nothing() {
    let nb = built(vec![]);
    assert!(nb.get_nodes().is_empty());
}

#[test]
fn links_are_resolved_only_into_the_raw_set() {
    let nb = built(vec![
        rec("A", Some(props(Some("a"), None, Some("B"), Some("M"))), &[]),
        rec("B", Some(props(Some("b"), None, None, None)), &[]),
    ]);
    let a = nb.get_node(&"A".to_string());
    assert_eq!(a.get_owner_node(), Some(&"B".to_string()));
    assert!(a.get_meta_node().is_none());
    let p = a.get_props();
    assert_eq!(p.created, 1);
    assert!(p.source_node.is_none());
}

#[test]
fn node_new_carries_its_parts() {
    let n = Node::new("N1".to_string(), None, vec!["C1".to_string()]);
    assert_eq!(n.id, "N1");
    assert!(n.get_name().is_none());
    assert_eq!(n.get_children(), &vec!["C1".to_string()]);
}

