use osm_ingest::decode::decode_member;
use osm_ingest::decode::decode_members;
use osm_ingest::decode::decode_node_refs;
use osm_ingest::decode::decode_tag;
use osm_ingest::decode::decode_tags;
use osm_ingest::node::Node;
use osm_ingest::node::NodeRow;
use osm_ingest::relation::Relation;
use osm_ingest::relation::RelationRow;
use osm_ingest::utils::MapsType;
use osm_ingest::utils::ParseError;
use osm_ingest::way::Way;
use osm_ingest::way::WayRow;

fn chars(text: &str) -> Vec<char> {
    text.chars().collect()
}

fn text(value: &str) -> Option<String> {
    Some(value.to_string())
}

fn way_row() -> WayRow {
    WayRow {
        id: Some(4),
        version: Some(2),
        timestamp: text("2021"),
        changeset: Some(5),
        uid: Some(6),
        user: text("ann"),
        node_refs: text("7,3,9"),
        tags: text("highway:track,name:A:B"),
    }
}

fn node_row() -> NodeRow {
    NodeRow {
        id: Some(1),
        lat: text("55.5"),
        lon: text("-12"),
        version: Some(2),
        timestamp: text("t"),
        changeset: Some(3),
        uid: Some(4),
        user: text("u"),
        tags: text("a:b"),
    }
}

fn relation_row() -> RelationRow {
    RelationRow {
        id: Some(10),
        version: Some(1),
        timestamp: text("t"),
        changeset: Some(2),
        uid: Some(3),
        user: text("u"),
        tags: text("type:route"),
        members: text("111:5:::node:outer,222::9::way:"),
    }
}

#[test]
fn tag_value_keeps_its_colons() {
    let tags = decode_tags("name:A:B,url:http://x");
    assert_eq!(tags.len(), 2);
    assert_eq!(tags[0].key, "name");
    assert_eq!(tags[0].value, "A:B");
    assert_eq!(tags[1].key, "url");
    assert_eq!(tags[1].value, "http://x");
}

#[test]
fn empty_tag_column_holds_no_tag() {
    assert!(decode_tags("").is_empty());
    assert!(decode_tags(",").is_empty());
    assert!(decode_tags("novalue").is_empty());
}

#[test]
fn tag_may_have_an_empty_key_or_value() {
    let tags = decode_tags("k:,:v,:");
    assert_eq!(tags.len(), 3);
    assert_eq!((tags[0].key.as_str(), tags[0].value.as_str()), ("k", ""));
    assert_eq!((tags[1].key.as_str(), tags[1].value.as_str()), ("", "v"));
    assert_eq!((tags[2].key.as_str(), tags[2].value.as_str()), ("", ""));
}

#[test]
fn tag_piece_without_colon_is_no_tag() {
    assert!(decode_tag(&chars("plain")).is_none());
    assert!(decode_tag(&chars("")).is_none());
    let tag = decode_tag(&chars("é:ü")).unwrap();
    assert_eq!(tag.key, "é");
    assert_eq!(tag.value, "ü");
}

#[test]
fn node_refs_keep_their_order() {
    assert_eq!(decode_node_refs("7,3,9"), Ok(vec![7, 3, 9]));
    assert_eq!(decode_node_refs("-5"), Ok(vec![-5]));
    assert_eq!(decode_node_refs("7,3,7"), Ok(vec![7, 3, 7]));
    assert_eq!(decode_node_refs("+4,007"), Ok(vec![4, 7]));
    assert_eq!(decode_node_refs(""), Ok(Vec::<i64>::new()));
    assert_eq!(decode_node_refs("9223372036854775807"), Ok(vec![i64::MAX]));
}

#[test]
fn node_ref_that_is_no_integer_fails_the_column() {
    assert_eq!(decode_node_refs("7,x,9"), Err(ParseError::IntError));
    assert_eq!(decode_node_refs("x"), Err(ParseError::IntError));
    assert_eq!(decode_node_refs("1,,2"), Err(ParseError::IntError));
    assert_eq!(decode_node_refs(","), Err(ParseError::IntError));
    assert_eq!(decode_node_refs("1,"), Err(ParseError::IntError));
    assert_eq!(decode_node_refs("1, 2"), Err(ParseError::IntError));
    assert_eq!(decode_node_refs(" "), Err(ParseError::IntError));
    assert_eq!(
        decode_node_refs("9223372036854775807,9223372036854775808"),
        Err(ParseError::IntError)
    );
}

#[test]
fn members_keep_their_roles_exactly() {
    let members = decode_members("111:5:::node:outer,222::9::way:").unwrap();
    assert_eq!(members.len(), 2);
    assert_eq!(members[0].id, 111);
    assert_eq!(members[0].ref_id, 5);
    assert!(matches!(members[0].maps_type, MapsType::Node));
    assert_eq!(members[0].role, "outer");
    assert_eq!(members[1].id, 222);
    assert_eq!(members[1].ref_id, 9);
    assert!(matches!(members[1].maps_type, MapsType::Way));
    assert_eq!(members[1].role, "");
}

#[test]
fn member_kind_selects_the_column_of_the_target() {
    let member = decode_member(&chars("1:10:20:30:node:r")).unwrap().unwrap();
    assert_eq!(member.ref_id, 10);
    let member = decode_member(&chars("1:10:20:30:way:r")).unwrap().unwrap();
    assert_eq!(member.ref_id, 20);
    let member = decode_member(&chars("1:10:20:30:relation:r")).unwrap().unwrap();
    assert_eq!(member.ref_id, 30);
    assert!(matches!(member.maps_type, MapsType::Relation));
    let member = decode_member(&chars("1:x:20:y:way:r")).unwrap().unwrap();
    assert_eq!(member.ref_id, 20);
    let member = decode_member(&chars("-1:::-30:relation:a:b:c")).unwrap().unwrap();
    assert_eq!(member.id, -1);
    assert_eq!(member.ref_id, -30);
    assert_eq!(member.role, "a:b:c");
}

#[test]
fn member_of_no_known_kind_is_skipped() {
    assert!(matches!(decode_member(&chars("1:10:20:30:area:r")), Ok(None)));
    assert!(matches!(decode_member(&chars("x:10:20:30:area:r")), Ok(None)));
    assert!(matches!(decode_member(&chars("1:10:20:30::r")), Ok(None)));
    assert!(matches!(decode_member(&chars("1:10:20:30:node")), Ok(None)));
    assert!(matches!(decode_member(&chars("1:10")), Ok(None)));
    assert!(matches!(decode_member(&chars("")), Ok(None)));
    let members = decode_members("1:10:::node:a,2:::9:area:b,3::7::way:c").unwrap();
    assert_eq!(members.len(), 2);
    assert_eq!(members[0].id, 1);
    assert_eq!(members[1].id, 3);
    assert!(decode_members("").unwrap().is_empty());
}

#[test]
fn member_with_a_malformed_number_fails_the_column() {
    assert!(matches!(decode_member(&chars("x:10:20:30:node:r")), Err(ParseError::IntError)));
    assert!(matches!(decode_member(&chars(":10:20:30:node:r")), Err(ParseError::IntError)));
    assert!(matches!(decode_member(&chars("1::20:30:node:r")), Err(ParseError::IntError)));
    assert!(matches!(decode_member(&chars("1:10:y:30:way:r")), Err(ParseError::IntError)));
    assert!(matches!(decode_member(&chars("1:10:20:1.5:relation:r")), Err(ParseError::IntError)));
    assert!(matches!(
        decode_members("1:10:::node:a,x::7::way:c,3::7::way:c"),
        Err(ParseError::IntError)
    ));
}

#[test]
fn malformed_number_in_a_folded_column_fails_the_fetch() {
    let mut row = way_row();
    row.node_refs = text("7,x,9");
    assert!(matches!(Way::from_row(row), Err(ParseError::IntError)));
    let mut row = way_row();
    row.node_refs = text("7,x,9");
    assert!(matches!(Way::from_rows(vec![way_row(), row]), Err(ParseError::IntError)));
    let mut row = way_row();
    row.node_refs = text("");
    assert!(Way::from_row(row).unwrap().node_refs.is_empty());
    let mut row = way_row();
    row.node_refs = text("7,x,9");
    row.id = None;
    assert!(matches!(Way::from_row(row), Err(ParseError::NoDataError)));
    let mut row = relation_row();
    row.members = text("111:5:::node:outer,22x::9::way:");
    assert!(matches!(Relation::from_row(row), Err(ParseError::IntError)));
    let mut row = relation_row();
    row.members = text("111:5:::node:outer,222:::9:area:x");
    assert_eq!(Relation::from_row(row).unwrap().members.len(), 1);
    let mut row = relation_row();
    row.members = text("");
    assert!(Relation::from_row(row).unwrap().members.is_empty());
}

#[test]
fn way_is_rebuilt_from_its_row() {
    let way: Way = Way::from_row(way_row()).unwrap();
    assert_eq!(way.id, 4);
    assert_eq!(way.version, 2);
    assert_eq!(way.timestamp, "2021");
    assert_eq!(way.changeset, 5);
    assert_eq!(way.uid, 6);
    assert_eq!(way.user, "ann");
    assert_eq!(way.node_refs, vec![7, 3, 9]);
    assert_eq!(way.tags.len(), 2);
    assert_eq!(way.tags[1].value, "A:B");
}

#[test]
fn absent_folded_columns_hold_nothing() {
    let mut row = way_row();
    row.node_refs = None;
    row.tags = None;
    let way = Way::from_row(row).unwrap();
    assert!(way.node_refs.is_empty());
    assert!(way.tags.is_empty());
    let mut row = relation_row();
    row.members = None;
    row.tags = None;
    let relation = Relation::from_row(row).unwrap();
    assert!(relation.members.is_empty());
    assert!(relation.tags.is_empty());
    let mut row = node_row();
    row.tags = None;
    assert!(Node::from_row(row).unwrap().tags.is_empty());
}

#[test]
fn row_without_a_mandatory_column_is_rejected() {
    let mut row = way_row();
    row.id = None;
    assert!(matches!(Way::from_row(row), Err(ParseError::NoDataError)));
    let mut row = way_row();
    row.user = None;
    assert!(matches!(Way::from_row(row), Err(ParseError::NoDataError)));
    let mut row = relation_row();
    row.version = None;
    assert!(matches!(Relation::from_row(row), Err(ParseError::NoDataError)));
    let mut row = node_row();
    row.lat = None;
    assert!(matches!(Node::from_row(row), Err(ParseError::NoDataError)));
    let mut row = node_row();
    row.lat = text("x");
    row.uid = None;
    assert!(matches!(Node::from_row(row), Err(ParseError::NoDataError)));
}

#[test]
fn node_is_rebuilt_from_its_row() {
    let node = Node::from_row(node_row()).unwrap();
    assert_eq!(node.id, 1);
    assert_eq!(node.lat, "55.5");
    assert_eq!(node.lon, "-12");
    assert_eq!(node.version, 2);
    assert_eq!(node.tags.len(), 1);
    assert_eq!(node.tags[0].key, "a");
    let mut row = node_row();
    row.lon = text("east");
    assert!(matches!(Node::from_row(row), Err(ParseError::FloatError)));
}

#[test]
fn relation_is_rebuilt_from_its_row() {
    let relation = Relation::from_row(relation_row()).unwrap();
    assert_eq!(relation.id, 10);
    assert_eq!(relation.tags.len(), 1);
    assert_eq!(relation.members.len(), 2);
    assert_eq!(relation.members[0].role, "outer");
    assert_eq!(relation.members[1].role, "");
    let keys = relation.members[1].foreign_keys();
    assert_eq!((keys.node_id, keys.way_id, keys.relation_ref_id), (None, Some(9), None));
}

#[test]
fn one_bad_row_fails_the_whole_fetch() {
    let ways = Way::from_rows(vec![way_row(), way_row()]).unwrap();
    assert_eq!(ways.len(), 2);
    assert_eq!(ways[1].node_refs, vec![7, 3, 9]);
    let mut bad = way_row();
    bad.changeset = None;
    assert!(matches!(Way::from_rows(vec![way_row(), bad, way_row()]), Err(ParseError::NoDataError)));
    assert!(Way::from_rows(vec![]).unwrap().is_empty());

    let nodes = Node::from_rows(vec![node_row()]).unwrap();
    assert_eq!(nodes[0].lat, "55.5");
    let mut bad = node_row();
    bad.lat = text("up");
    let mut worse = node_row();
    worse.id = None;
    assert!(matches!(Node::from_rows(vec![node_row(), bad, worse]), Err(ParseError::FloatError)));

    let relations = Relation::from_rows(vec![relation_row(), relation_row()]).unwrap();
    assert_eq!(relations.len(), 2);
    assert_eq!(relations[0].members.len(), 2);
    let mut bad = relation_row();
    bad.user = None;
    assert!(matches!(Relation::from_rows(vec![bad]), Err(ParseError::NoDataError)));
}
