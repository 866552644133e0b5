use osm_ingest::parser::parse_document;
use osm_ingest::parser::parse_events;
use osm_ingest::parser::EntityKind;
use osm_ingest::parser::Parser;
use osm_ingest::utils::MapsType;
use osm_ingest::utils::ParseError;
use osm_ingest::xml::read_events;
use osm_ingest::xml::Attribute;
use osm_ingest::xml::Element;
use osm_ingest::xml::XmlEvent;

fn attribute(key: &str, value: &str) -> Option<Attribute> {
    Some(Attribute { key: key.as_bytes().to_vec(), value: value.as_bytes().to_vec() })
}

fn element(name: &str, attributes: Vec<Option<Attribute>>, empty: bool) -> XmlEvent {
    XmlEvent::Element(Element { name: name.as_bytes().to_vec(), attributes, empty })
}

#[test]
fn way_keeps_node_refs_in_document_order() {
    let document = br#"<osm>
      <way id="4" version="1" timestamp="2020-01-01T00:00:00Z" changeset="2" uid="3" user="ann">
        <nd ref="7"/>
        <nd ref="3"/>
        <nd ref="9"/>
      </way>
    </osm>"#;
    let data = parse_document(document).unwrap();
    assert_eq!(data.ways.len(), 1);
    assert_eq!(data.ways[0].id, 4);
    assert_eq!(data.ways[0].node_refs, vec![7, 3, 9]);
    assert_eq!(data.ways[0].user, "ann");
    assert!(data.nodes.is_empty());
    assert!(data.relations.is_empty());
}

#[test]
fn node_attributes_are_read_in_any_order() {
    let document = br#"<osm><node user="bob" lon="12.5" uid="8" changeset="77" lat="-55.25" version="3" id="-12" timestamp="t" visible="true"/></osm>"#;
    let data = parse_document(document).unwrap();
    assert_eq!(data.nodes.len(), 1);
    let node = &data.nodes[0];
    assert_eq!(node.id, -12);
    assert_eq!(node.lat, "-55.25");
    assert_eq!(node.lon, "12.5");
    assert_eq!(node.version, 3);
    assert_eq!(node.timestamp, "t");
    assert_eq!(node.changeset, 77);
    assert_eq!(node.uid, 8);
    assert_eq!(node.user, "bob");
    assert!(node.tags.is_empty());
}

#[test]
fn node_without_attributes_has_zeros() {
    let data = parse_document(b"<node/>").unwrap();
    assert_eq!(data.nodes.len(), 1);
    assert_eq!(data.nodes[0].id, 0);
    assert_eq!(data.nodes[0].lat, "0");
    assert_eq!(data.nodes[0].lon, "0");
    assert_eq!(data.nodes[0].timestamp, "");
}

#[test]
fn tags_go_to_the_entity_opened_last() {
    let document = br#"<osm>
      <node id="1" lat="1" lon="2"><tag k="name" v="A"/></node>
      <way id="2"><nd ref="1"/><tag k="highway" v="track"/><tag k="surface" v=""/></way>
      <relation id="3"><tag k="type" v="route"/></relation>
      <node id="4" lat="3" lon="4"/>
    </osm>"#;
    let data = parse_document(document).unwrap();
    assert_eq!(data.nodes.len(), 2);
    assert_eq!(data.nodes[0].tags.len(), 1);
    assert_eq!(data.nodes[0].tags[0].key, "name");
    assert_eq!(data.nodes[0].tags[0].value, "A");
    assert!(data.nodes[1].tags.is_empty());
    assert_eq!(data.ways[0].tags.len(), 2);
    assert_eq!(data.ways[0].tags[0].key, "highway");
    assert_eq!(data.ways[0].tags[1].key, "surface");
    assert_eq!(data.ways[0].tags[1].value, "");
    assert_eq!(data.relations[0].tags.len(), 1);
    assert_eq!(data.relations[0].tags[0].value, "route");
}

#[test]
fn tag_after_a_closed_entity_is_dropped() {
    let document = br#"<osm>
      <way id="2"><tag k="a" v="b"/></way>
      <tag k="c" v="d"/>
      <node id="1"/>
      <tag k="e" v="f"/>
      <bounds/>
      <tag k="g" v="h"/>
    </osm>"#;
    let data = parse_document(document).unwrap();
    assert_eq!(data.ways[0].tags.len(), 1);
    assert_eq!(data.ways[0].tags[0].key, "a");
    assert_eq!(data.nodes[0].tags.len(), 2);
    assert_eq!(data.nodes[0].tags[0].key, "e");
    assert_eq!(data.nodes[0].tags[1].key, "g");
}

#[test]
fn node_ref_goes_to_the_way_opened_last() {
    let document = br#"<osm><way id="1"></way><way id="2"></way><nd ref="5"/><relation id="3"></relation><member type="way" ref="2" role="x"/></osm>"#;
    let data = parse_document(document).unwrap();
    assert!(data.ways[0].node_refs.is_empty());
    assert_eq!(data.ways[1].node_refs, vec![5]);
    assert_eq!(data.relations[0].members.len(), 1);
}

#[test]
fn tag_before_any_entity_is_dropped() {
    let data = parse_document(br#"<osm><tag k="a" v="b"/><nd ref="1"/><member type="node" ref="1" role=""/></osm>"#).unwrap();
    assert!(data.nodes.is_empty());
    assert!(data.ways.is_empty());
    assert!(data.relations.is_empty());
}

#[test]
fn member_of_unknown_kind_is_absent() {
    let document = br#"<osm>
      <relation id="10">
        <member type="node" ref="5" role="outer"/>
        <member type="area" ref="6" role="x"/>
        <member ref="8" role="y"/>
        <member type="way" ref="9" role=""/>
      </relation>
    </osm>"#;
    let data = parse_document(document).unwrap();
    let members = &data.relations[0].members;
    assert_eq!(members.len(), 2);
    assert!(matches!(members[0].maps_type, MapsType::Node));
    assert_eq!(members[0].ref_id, 5);
    assert_eq!(members[0].role, "outer");
    assert_eq!(members[0].id, -7269206499729131098);
    assert!(matches!(members[1].maps_type, MapsType::Way));
    assert_eq!(members[1].ref_id, 9);
    assert_eq!(members[1].role, "");
}

#[test]
fn node_ref_that_is_no_integer_is_skipped() {
    let data = parse_document(br#"<way id="1"><nd ref="7"/><nd ref="x"/><nd/><nd ref="-1"/></way>"#).unwrap();
    assert_eq!(data.ways[0].node_refs, vec![7, -1]);
}

#[test]
fn way_closed_in_its_own_tag_is_an_entity() {
    let data = parse_document(br#"<osm><way id="5"/><relation id="6"/></osm>"#).unwrap();
    assert_eq!(data.ways.len(), 1);
    assert_eq!(data.ways[0].id, 5);
    assert_eq!(data.relations.len(), 1);
    assert_eq!(data.relations[0].id, 6);
}

#[test]
fn malformed_integer_fails_the_document() {
    let outcome = parse_document(br#"<osm><node id="1"/><node id="one"/></osm>"#);
    assert!(matches!(outcome, Err(ParseError::IntError)));
    let outcome = parse_document(br#"<way id="1" version="2147483648"/>"#);
    assert!(matches!(outcome, Err(ParseError::IntError)));
    let outcome = parse_document(br#"<relation id="1"><member type="node" ref="r" role=""/></relation>"#);
    assert!(matches!(outcome, Err(ParseError::IntError)));
}

#[test]
fn malformed_coordinate_fails_the_document() {
    let outcome = parse_document(br#"<node id="1" lat="north" lon="1"/>"#);
    assert!(matches!(outcome, Err(ParseError::FloatError)));
    let data = parse_document(br#"<way id="1" lat="north"/>"#).unwrap();
    assert_eq!(data.ways.len(), 1);
}

#[test]
fn text_that_is_not_utf8_fails_the_document() {
    let mut document = b"<node id=\"1\" user=\"".to_vec();
    document.push(0xff);
    document.extend_from_slice(b"\"/>");
    let outcome = parse_document(&document);
    assert!(matches!(outcome, Err(ParseError::Utf8Error)));
}

#[test]
fn malformed_markup_fails_the_document() {
    let outcome = parse_document(br#"<osm><node id="1"></way></osm>"#);
    assert!(matches!(outcome, Err(ParseError::XmlError)));
    let outcome = parse_document(br#"<node id="1" lat=5/>"#);
    assert!(matches!(outcome, Err(ParseError::XmlError)));
}

#[test]
fn document_may_end_with_entities_open() {
    let data = parse_document(br#"<osm><way id="3"><nd ref="1"/>"#).unwrap();
    assert_eq!(data.ways.len(), 1);
    assert_eq!(data.ways[0].node_refs, vec![1]);
}

#[test]
fn empty_document_holds_nothing() {
    let data = parse_document(b"").unwrap();
    assert!(data.nodes.is_empty() && data.ways.is_empty() && data.relations.is_empty());
}

#[test]
fn reader_gives_elements_with_their_attributes() {
    let events = read_events(br#"<a x="1" y='two'><b/>text</a>"#);
    assert_eq!(events.len(), 5);
    match &events[0] {
        XmlEvent::Element(e) => {
            assert_eq!(e.name, b"a".to_vec());
            assert!(!e.empty);
            assert_eq!(e.attributes.len(), 2);
            let first = e.attributes[0].as_ref().unwrap();
            assert_eq!(first.key, b"x".to_vec());
            assert_eq!(first.value, b"1".to_vec());
            let second = e.attributes[1].as_ref().unwrap();
            assert_eq!(second.key, b"y".to_vec());
            assert_eq!(second.value, b"two".to_vec());
        }
        _ => panic!("an element comes first"),
    }
    match &events[1] {
        XmlEvent::Element(e) => {
            assert_eq!(e.name, b"b".to_vec());
            assert!(e.empty);
        }
        _ => panic!("an element comes second"),
    }
    assert!(matches!(events[2], XmlEvent::Other));
    match &events[3] {
        XmlEvent::End(name) => assert_eq!(name, &b"a".to_vec()),
        _ => panic!("a closing tag comes fourth"),
    }
    assert!(matches!(events[4], XmlEvent::Eof));
}

#[test]
fn reader_stops_at_malformed_markup() {
    let events = read_events(b"<a></b><c/>");
    assert_eq!(events.len(), 2);
    assert!(matches!(events[1], XmlEvent::Malformed));
}

#[test]
fn reader_marks_an_attribute_that_is_not_well_formed() {
    let events = read_events(br#"<a x="1" y=2/>"#);
    match &events[0] {
        XmlEvent::Element(e) => {
            assert!(e.attributes[0].is_some());
            assert!(e.attributes[1].is_none());
        }
        _ => panic!("an element comes first"),
    }
}

#[test]
fn events_and_document_agree() {
    let document = br#"<osm><node id="1" lat="1.5" lon="2"><tag k="a" v="b"/></node><way id="2"><nd ref="1"/></way></osm>"#;
    let from_events = parse_events(&read_events(document)).unwrap();
    let from_document = parse_document(document).unwrap();
    assert_eq!(from_events.nodes.len(), from_document.nodes.len());
    assert_eq!(from_events.nodes[0].lat, from_document.nodes[0].lat);
    assert_eq!(from_events.nodes[0].tags[0].key, from_document.nodes[0].tags[0].key);
    assert_eq!(from_events.ways[0].node_refs, from_document.ways[0].node_refs);
}

#[test]
fn events_given_by_hand_are_read() {
    let events = vec![
        element("relation", vec![attribute("id", "10")], false),
        element("member", vec![attribute("type", "relation"), attribute("ref", "11"), attribute("role", "sub")], true),
        element("member", vec![attribute("type", "node"), None], true),
        XmlEvent::Eof,
    ];
    assert!(matches!(parse_events(&events), Err(ParseError::XmlError)));
    let events = vec![
        element("relation", vec![attribute("id", "10")], false),
        element("member", vec![attribute("type", "relation"), attribute("ref", "11"), attribute("role", "sub")], true),
        XmlEvent::Other,
        element("tag", vec![attribute("k", "a"), attribute("v", "b")], false),
        XmlEvent::Eof,
    ];
    let data = parse_events(&events).unwrap();
    assert_eq!(data.relations[0].members.len(), 1);
    assert!(matches!(data.relations[0].members[0].maps_type, MapsType::Relation));
    assert!(data.relations[0].tags.is_empty());
}

#[test]
fn parser_takes_events_one_by_one() {
    let mut parser = Parser::new();
    assert!(parser.current.is_none());
    parser.feed(&element("node", vec![attribute("id", "1")], true)).unwrap();
    assert_eq!(parser.current, Some(EntityKind::Node));
    parser.feed(&element("way", vec![attribute("id", "2")], false)).unwrap();
    assert_eq!(parser.current, Some(EntityKind::Way));
    parser.feed(&element("tag", vec![attribute("k", "k"), attribute("v", "v")], true)).unwrap();
    parser.feed(&XmlEvent::End(b"tag".to_vec())).unwrap();
    assert_eq!(parser.current, Some(EntityKind::Way));
    parser.feed(&XmlEvent::End(b"way".to_vec())).unwrap();
    assert!(parser.current.is_none());
    parser.feed(&element("tag", vec![attribute("k", "late"), attribute("v", "v")], true)).unwrap();
    assert!(matches!(parser.feed(&XmlEvent::Malformed), Err(ParseError::XmlError)));
    let data = parser.finish();
    assert!(data.nodes[0].tags.is_empty());
    assert_eq!(data.ways[0].tags.len(), 1);
}

#[test]
fn extract_as_editors_write_it_is_read() {
    let document = br#"<?xml version="1.0" encoding="UTF-8"?>
<osm version="0.6" generator="CGImap 0.8.3">
 <!-- a small extract -->
 <bounds minlat="55.6760000" minlon="12.5680000" maxlat="55.6770000" maxlon="12.5690000"/>
 <node id="8078528" visible="true" version="5" changeset="93587875" timestamp="2020-11-04T18:00:11Z" user="NKA" uid="245161" lat="55.6761111" lon="12.5683333">
  <tag k="name" v="K&#248;benhavn"/>
  <tag k="place" v="city"/>
 </node>
 <node id="8078529" visible="true" version="1" changeset="1" timestamp="2009-01-01T00:00:00Z" user="x" uid="1" lat="55.6762" lon="12.5684"/>
 <way id="4965712" visible="true" version="7" changeset="74866028" timestamp="2019-09-24T12:51:34Z" user="Hjart" uid="207581">
  <nd ref="8078528"/>
  <nd ref="8078529"/>
  <nd ref="8078528"/>
  <tag k="highway" v="residential"/>
 </way>
 <relation id="2186646" visible="true" version="2" changeset="12" timestamp="2012-05-29T21:06:38Z" user="z" uid="3">
  <member type="way" ref="4965712" role="outer"/>
  <member type="node" ref="8078528" role=""/>
  <member type="relation" ref="2186646" role="self"/>
  <tag k="type" v="multipolygon"/>
 </relation>
</osm>
"#;
    let data = parse_document(document).unwrap();
    assert_eq!(data.nodes.len(), 2);
    assert_eq!(data.nodes[0].id, 8078528);
    assert_eq!(data.nodes[0].lat, "55.6761111");
    assert_eq!(data.nodes[0].lon, "12.5683333");
    assert_eq!(data.nodes[0].version, 5);
    assert_eq!(data.nodes[0].changeset, 93587875);
    assert_eq!(data.nodes[0].timestamp, "2020-11-04T18:00:11Z");
    assert_eq!(data.nodes[0].user, "NKA");
    assert_eq!(data.nodes[0].uid, 245161);
    assert_eq!(data.nodes[0].tags.len(), 2);
    assert_eq!(data.nodes[0].tags[0].value, "K&#248;benhavn");
    assert!(data.nodes[1].tags.is_empty());
    assert_eq!(data.ways.len(), 1);
    assert_eq!(data.ways[0].node_refs, vec![8078528, 8078529, 8078528]);
    assert_eq!(data.ways[0].tags.len(), 1);
    assert_eq!(data.relations.len(), 1);
    let members = &data.relations[0].members;
    assert_eq!(members.len(), 3);
    assert_eq!(members[0].role, "outer");
    assert_eq!(members[1].role, "");
    assert!(matches!(members[2].maps_type, MapsType::Relation));
    assert_eq!(members[2].ref_id, 2186646);
    assert_eq!(data.relations[0].tags[0].key, "type");
}

#[test]
fn odd_documents_end_without_a_crash() {
    let documents: Vec<&[u8]> = vec![
        b"<", b">", b"<>", b"</>", b"<!", b"<!-", b"<!--", b"<!-->", b"<!---->", b"<?", b"<??>",
        b"< a>", b"<a", b"<a b", b"<a b=", b"<a b=\"", b"<a b=\"c", b"<a b='c' d", b"<a/", b"</a",
        b"<a></a></a>", b"<![CDATA[", b"<![CDATA[x]]>", b"<!DOCTYPE", b"<!DOCTYPE a [<!ENTITY b 'c'>]>",
        b"\xef\xbb\xbf<a/>", b"\xff\xfe<\x00a\x00", b"<a b=\"1\" b=\"2\"/>", b"<a =\"1\"/>", b"<a b>",
        b"<node id/>", b"<node id=/>", b"<node =/>", b"<node/ id=\"1\">", b"<tag/><nd/><member/>",
        b"&", b"&amp;", b"a<b>c</b>d", b"<a><b></a></b>", b"\0", b"<\0>", b"<a\0b=\"c\"/>",
    ];
    for document in documents {
        let events = read_events(document);
        assert!(!events.is_empty());
        assert!(matches!(events[events.len() - 1], XmlEvent::Eof | XmlEvent::Malformed));
        for event in &events[..events.len() - 1] {
            assert!(!matches!(event, XmlEvent::Eof | XmlEvent::Malformed));
        }
        let _ = parse_document(document);
    }
}

#[test]
fn member_without_kind_target_or_role_is_absent() {
    let document = br#"<osm><relation id='1' version='1' timestamp='t' changeset='1' uid='1' user='u'>
      <member ref='5' role='x'/>
      <member type='node' role='x'/>
      <member type='node' ref='5'/>
      <member/>
      <member type='way' ref='0' role=''/>
    </relation></osm>"#;
    let data = parse_document(document).unwrap();
    let members = &data.relations[0].members;
    assert_eq!(members.len(), 1);
    assert!(matches!(members[0].maps_type, MapsType::Way));
    assert_eq!(members[0].ref_id, 0);
    assert_eq!(members[0].role, "");
    let events = vec![
        element("relation", vec![attribute("id", "1")], false),
        element("member", vec![attribute("type", "node"), attribute("role", "x")], true),
        element("member", vec![attribute("ref", "5"), attribute("role", "x")], true),
        XmlEvent::Eof,
    ];
    let data = parse_events(&events).unwrap();
    assert!(data.relations[0].members.is_empty());
}
