use osm_ingest::member::Member;
use osm_ingest::node::Node;
use osm_ingest::node::NodeTag;
use osm_ingest::relation::Relation;
use osm_ingest::tag::Tag;
use osm_ingest::utils::MapsTag;
use osm_ingest::utils::MapsType;
use osm_ingest::utils::ParseError;
use osm_ingest::way::Way;
use osm_ingest::way_node::WayNode;

fn tag(key: &str, value: &str) -> Tag {
    Tag::new(key.to_string(), value.to_string())
}

fn way(id: i64, node_refs: Vec<i64>, tags: Vec<Tag>) -> Way {
    Way::new(id, 1, "t".to_string(), 2, 3, "u".to_string(), node_refs, tags)
}

#[test]
fn tag_holds_key_and_value() {
    let t = tag("name", "A");
    assert_eq!(t.key, "name");
    assert_eq!(t.value, "A");
    let d = Tag::default();
    assert_eq!(d.key, "");
    assert_eq!(d.value, "");
    let c = t.clone();
    assert_eq!(c.key, "name");
    assert_eq!(c.value, "A");
}

#[test]
fn kinds_have_their_names() {
    assert_eq!(MapsType::Node.as_str(), "node");
    assert_eq!(MapsType::Way.as_str(), "way");
    assert_eq!(MapsType::Relation.as_str(), "relation");
    assert_eq!(MapsType::Other("area".to_string()).as_str(), "area");
}

#[test]
fn names_give_their_kinds() {
    assert!(matches!(MapsType::from_str("node"), Ok(MapsType::Node)));
    assert!(matches!(MapsType::from_str("way"), Ok(MapsType::Way)));
    assert!(matches!(MapsType::from_str("relation"), Ok(MapsType::Relation)));
    match MapsType::from_str("Node") {
        Ok(MapsType::Other(name)) => assert_eq!(name, "Node"),
        _ => panic!("another kind is kept under its name"),
    }
    match MapsType::from_str("") {
        Ok(MapsType::Other(name)) => assert_eq!(name, ""),
        _ => panic!("another kind is kept under its name"),
    }
}

#[test]
fn errors_are_told_apart() {
    assert_eq!(ParseError::IntError, ParseError::IntError);
    assert_ne!(ParseError::IntError, ParseError::FloatError);
    assert_ne!(ParseError::NoDataError, ParseError::InvalidMapsTypeError);
    assert_ne!(ParseError::Utf8Error, ParseError::XmlError);
}

#[test]
fn way_node_holds_both_ids() {
    let row = WayNode::new(4, 7);
    assert_eq!(row.way_id, 4);
    assert_eq!(row.ref_id, 7);
}

#[test]
fn way_gives_a_row_for_each_node_ref() {
    let ways = vec![way(1, vec![7, 3, 9], vec![]), way(2, vec![], vec![]), way(3, vec![3], vec![])];
    assert_eq!(Way::extract_way_node_refs(&ways), vec![(1, 7), (1, 3), (1, 9), (3, 3)]);
    assert_eq!(Way::extract_way_node_refs(&[]), vec![]);
}

#[test]
fn way_gives_a_row_for_each_tag() {
    let ways = vec![way(1, vec![], vec![tag("a", "b"), tag("c", "d")]), way(2, vec![], vec![tag("e", "f")])];
    let rows = Way::extract_way_tags(&ways);
    let flat: Vec<(i64, &str, &str)> = rows.iter().map(|r| (r.id, r.tag.key.as_str(), r.tag.value.as_str())).collect();
    assert_eq!(flat, vec![(1, "a", "b"), (1, "c", "d"), (2, "e", "f")]);
}

#[test]
fn extract_picks_a_field_of_each_way() {
    let ways = vec![way(1, vec![7], vec![]), way(2, vec![8, 9], vec![])];
    let ids: Vec<&i64> = Way::extract(&ways, |w| &w.id);
    assert_eq!(ids, vec![&1, &2]);
    let refs: Vec<&Vec<i64>> = Way::extract_node_ref(&ways, |w| &w.node_refs);
    assert_eq!(refs, vec![&vec![7], &vec![8, 9]]);
}

#[test]
fn node_gives_a_row_for_each_tag() {
    let nodes = vec![
        Node::new(1, "1".to_string(), "2".to_string(), 1, String::new(), 0, 0, String::new(), vec![tag("a", "b")]),
        Node::new(2, "3".to_string(), "4".to_string(), 1, String::new(), 0, 0, String::new(), vec![]),
        Node::new(3, "5".to_string(), "6".to_string(), 1, String::new(), 0, 0, String::new(), vec![tag("c", "d"), tag("e", "")]),
    ];
    let rows = Node::extract_node_tags(&nodes);
    let flat: Vec<(i64, &str, &str)> = rows.iter().map(|r| (r.id, r.tag.key.as_str(), r.tag.value.as_str())).collect();
    assert_eq!(flat, vec![(1, "a", "b"), (3, "c", "d"), (3, "e", "")]);
    let lats: Vec<&String> = Node::extract(&nodes, |n| &n.lat);
    assert_eq!(lats, vec!["1", "3", "5"]);
}

#[test]
fn relation_gives_a_row_for_each_member_and_tag() {
    let relations = vec![
        Relation::new(1, 1, String::new(), 0, 0, String::new(), vec![Member::new(1, 5, MapsType::Node, "outer".to_string()), Member::new(1, 9, MapsType::Way, String::new())], vec![tag("a", "b")]),
        Relation::new(2, 1, String::new(), 0, 0, String::new(), vec![Member::new(2, 1, MapsType::Relation, "sub".to_string())], vec![]),
    ];
    let rows = Relation::extract_members(&relations);
    let flat: Vec<(i64, i64, &str)> = rows.iter().map(|(id, m)| (*id, m.ref_id, m.role.as_str())).collect();
    assert_eq!(flat, vec![(1, 5, "outer"), (1, 9, ""), (2, 1, "sub")]);
    assert_eq!(rows[0].1.id, 6878482986353707099);
    let tags = Relation::extract_relation_tags(&relations);
    assert_eq!(tags.len(), 1);
    assert_eq!(tags[0].id, 1);
    assert_eq!(tags[0].tag.key, "a");
    let ids: Vec<&i64> = Relation::extract(&relations, |r| &r.id);
    assert_eq!(ids, vec![&1, &2]);
}

#[test]
fn tag_rows_split_into_columns() {
    let rows = vec![MapsTag { id: 1, tag: tag("a", "b") }, MapsTag { id: 2, tag: tag("c", "d") }];
    let (ids, keys, values) = MapsTag::collect_tag_data(&rows);
    assert_eq!(ids, vec![1, 2]);
    assert_eq!(keys, vec!["a", "c"]);
    assert_eq!(values, vec!["b", "d"]);
    let rows = vec![NodeTag { node_id: 7, tag: tag("x", "y") }];
    let (ids, keys, values) = NodeTag::collect_tag_data(&rows);
    assert_eq!(ids, vec![7]);
    assert_eq!(keys, vec!["x"]);
    assert_eq!(values, vec!["y"]);
    let (ids, keys, values) = MapsTag::collect_tag_data(&[]);
    assert!(ids.is_empty() && keys.is_empty() && values.is_empty());
}

#[test]
fn kinds_are_compared_by_what_they_name() {
    assert!(MapsType::Node == MapsType::Node);
    assert!(MapsType::Node != MapsType::Way);
    assert!(MapsType::Relation != MapsType::Other("relation".to_string()));
    assert!(MapsType::Other("area".to_string()) == MapsType::Other("area".to_string()));
    assert!(MapsType::Other("area".to_string()) != MapsType::Other("Unknown".to_string()));
    assert!(MapsType::Way.clone() == MapsType::Way);
}

#[test]
fn copies_hold_what_the_entities_hold() {
    let w = way(1, vec![7, 3], vec![tag("a", "b")]);
    let c = w.clone();
    assert_eq!(c.id, 1);
    assert_eq!(c.node_refs, vec![7, 3]);
    assert_eq!(c.tags[0].key, "a");
    assert_eq!(c.user, "u");
    let r = Relation::new(2, 1, "t".to_string(), 0, 0, "u".to_string(), vec![Member::new(2, 5, MapsType::Node, "x".to_string())], vec![tag("k", "v")]);
    let c = r.clone();
    assert_eq!(c.members.len(), 1);
    assert_eq!(c.members[0].id, r.members[0].id);
    assert_eq!(c.members[0].role, "x");
    assert_eq!(c.tags[0].value, "v");
    let n = Node::new(3, "1.5".to_string(), "2.5".to_string(), 4, "t".to_string(), 5, 6, "u".to_string(), vec![tag("k", "v")]);
    let c = n.clone();
    assert_eq!((c.id, c.lat.as_str(), c.lon.as_str(), c.version, c.changeset, c.uid), (3, "1.5", "2.5", 4, 5, 6));
    assert_eq!(c.tags.len(), 1);
    let row = NodeTag { node_id: 9, tag: tag("k", "v") }.clone();
    assert_eq!(row.node_id, 9);
    assert_eq!(row.tag.value, "v");
}

#[test]
fn member_of_another_kind_gives_no_row() {
    let relations = vec![
        Relation::new(
            1,
            1,
            String::new(),
            0,
            0,
            String::new(),
            vec![
                Member::new(1, 5, MapsType::Other("area".to_string()), "a".to_string()),
                Member::new(1, 6, MapsType::Node, "b".to_string()),
                Member::new(1, 7, MapsType::Other(String::new()), "c".to_string()),
            ],
            vec![],
        ),
        Relation::new(2, 1, String::new(), 0, 0, String::new(), vec![Member::new(2, 8, MapsType::Other("x".to_string()), String::new())], vec![]),
    ];
    let rows = Relation::extract_members(&relations);
    assert_eq!(rows.len(), 1);
    assert_eq!(rows[0].0, 1);
    assert_eq!(rows[0].1.ref_id, 6);
    assert!(MapsType::Node.is_known() && MapsType::Way.is_known() && MapsType::Relation.is_known());
    assert!(!MapsType::Other("node ".to_string()).is_known());
}
