use osm_ingest::member::Member;
use osm_ingest::utils::MapsType;

#[test]
fn member_id_is_the_start_of_the_digest() {
    let member = Member::new(1, 5, MapsType::Node, "outer".to_string());
    assert_eq!(member.id, 6878482986353707099);
    assert_eq!(member.ref_id, 5);
    assert_eq!(member.role, "outer");
    let member = Member::new(1, 9, MapsType::Way, String::new());
    assert_eq!(member.id, -3050645289351620535);
    let member = Member::new(42, -7, MapsType::Relation, "inner".to_string());
    assert_eq!(member.id, -9195107340117342370);
}

#[test]
fn same_member_has_the_same_id() {
    let first = Member::new(7, 100, MapsType::Node, "stop".to_string());
    let second = Member::new(7, 100, MapsType::Node, "stop".to_string());
    assert_eq!(first.id, second.id);
    assert_eq!(first.id, 2008467603852992838);
    let other = Member::new(7, 100, MapsType::Way, "stop".to_string());
    assert_ne!(first.id, other.id);
}

#[test]
fn hash_input_lists_ids_kind_and_role() {
    let input = Member::hash_input(1, 5, "node", "outer");
    let expected: Vec<u8> = vec![
        0, 0, 0, 0, 0, 0, 0, 1, 0, 0, 0, 0, 0, 0, 0, 5, 0x6e, 0x6f, 0x64, 0x65, 0x6f, 0x75, 0x74,
        0x65, 0x72,
    ];
    assert_eq!(input, expected);
    let input = Member::hash_input(-1, i64::MIN, "", "");
    let expected: Vec<u8> = vec![
        0xff, 0xff, 0xff, 0xff, 0xff, 0xff, 0xff, 0xff, 0x80, 0, 0, 0, 0, 0, 0, 0,
    ];
    assert_eq!(input, expected);
}

#[test]
fn id_from_digest_reads_eight_bytes() {
    assert_eq!(Member::id_from_digest(&[0, 0, 0, 0, 0, 0, 1, 2, 99, 99]), 258);
    assert_eq!(Member::id_from_digest(&[0xff; 8]), -1);
    assert_eq!(Member::id_from_digest(&[0x80, 0, 0, 0, 0, 0, 0, 0]), i64::MIN);
    assert_eq!(Member::id_from_digest(&[1, 2, 3]), 0);
    assert_eq!(Member::id_from_digest(&[]), 0);
}

#[test]
fn kind_selects_the_foreign_key() {
    let keys = Member::new(1, 5, MapsType::Node, String::new()).foreign_keys();
    assert_eq!((keys.node_id, keys.way_id, keys.relation_ref_id), (Some(5), None, None));
    let keys = Member::new(1, 6, MapsType::Way, String::new()).foreign_keys();
    assert_eq!((keys.node_id, keys.way_id, keys.relation_ref_id), (None, Some(6), None));
    let keys = Member::new(1, 7, MapsType::Relation, String::new()).foreign_keys();
    assert_eq!((keys.node_id, keys.way_id, keys.relation_ref_id), (None, None, Some(7)));
    let keys = Member::new(1, 8, MapsType::Other("area".to_string()), String::new()).foreign_keys();
    assert_eq!((keys.node_id, keys.way_id, keys.relation_ref_id), (None, None, None));
}

#[test]
fn extract_picks_a_field_of_each_member() {
    let members = vec![
        Member::new(1, 5, MapsType::Node, "a".to_string()),
        Member::new(1, 6, MapsType::Way, "b".to_string()),
    ];
    let refs: Vec<&i64> = Member::extract(&members, |m| &m.ref_id);
    assert_eq!(refs, vec![&5, &6]);
    let roles: Vec<&String> = Member::extract(&members, |m| &m.role);
    assert_eq!(roles, vec!["a", "b"]);
}
