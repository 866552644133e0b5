use osm_ingest::batch::batch_size;
use osm_ingest::batch::next_step;
use osm_ingest::batch::Step;
use osm_ingest::chunk::chunk;
use osm_ingest::batch::node_batches;
use osm_ingest::batch::relation_batches;
use osm_ingest::batch::way_batches;
use osm_ingest::batch::Batch;
use osm_ingest::batch::Table;
use osm_ingest::batch::MAX_BATCH_ROWS;
use osm_ingest::batch::SQLITE_MAX_VARIABLE_NUMBER;
use osm_ingest::member::Member;
use osm_ingest::node::Node;
use osm_ingest::relation::Relation;
use osm_ingest::span::Span;
use osm_ingest::tag::Tag;
use osm_ingest::utils::MapsType;
use osm_ingest::way::Way;

fn tags(count: usize) -> Vec<Tag> {
    (0..count).map(|i| Tag::new(format!("k{}", i), format!("v{}", i))).collect()
}

fn node(id: i64, tag_count: usize) -> Node {
    Node::new(id, "1.0".to_string(), "2.0".to_string(), 1, String::new(), 0, 0, String::new(), tags(tag_count))
}

fn way(id: i64, refs: usize, tag_count: usize) -> Way {
    Way::new(id, 1, String::new(), 0, 0, String::new(), (0..refs as i64).collect(), tags(tag_count))
}

fn relation(id: i64, members: usize, tag_count: usize) -> Relation {
    let members = (0..members as i64).map(|i| Member::new(id, i, MapsType::Node, String::new())).collect();
    Relation::new(id, 1, String::new(), 0, 0, String::new(), members, tags(tag_count))
}

fn span(start: usize, end: usize) -> Span {
    Span { start, end }
}

#[test]
fn batch_size_is_the_ceiling_over_the_fields() {
    assert_eq!(SQLITE_MAX_VARIABLE_NUMBER, 999);
    assert_eq!(MAX_BATCH_ROWS, 4000);
    assert_eq!(batch_size(999, 8), 124);
    assert_eq!(batch_size(999, 6), 166);
    assert_eq!(batch_size(999, 4), 249);
    assert_eq!(batch_size(999, 3), 333);
    assert_eq!(batch_size(999, 2), 499);
    assert_eq!(batch_size(7, 8), 0);
    assert_eq!(batch_size(8, 8), 1);
}

#[test]
fn batch_size_is_capped() {
    assert_eq!(batch_size(32_766, 2), 4000);
    assert_eq!(batch_size(8000, 2), 4000);
    assert_eq!(batch_size(7999, 2), 3999);
    assert_eq!(batch_size(usize::MAX, 1), 4000);
}

#[test]
fn field_counts_are_those_of_the_tables() {
    assert_eq!(Table::Node.field_count(), 8);
    assert_eq!(Table::NodeTags.field_count(), 3);
    assert_eq!(Table::Way.field_count(), 6);
    assert_eq!(Table::WayNodes.field_count(), 2);
    assert_eq!(Table::WayTags.field_count(), 3);
    assert_eq!(Table::Relation.field_count(), 6);
    assert_eq!(Table::Member.field_count(), 4);
    assert_eq!(Table::RelationTags.field_count(), 3);
}

#[test]
fn chunk_cuts_into_full_spans_and_a_rest() {
    assert_eq!(chunk(0, 5), vec![]);
    assert_eq!(chunk(5, 5), vec![span(0, 5)]);
    assert_eq!(chunk(6, 5), vec![span(0, 5), span(5, 6)]);
    assert_eq!(chunk(3, 1), vec![span(0, 1), span(1, 2), span(2, 3)]);
    assert_eq!(chunk(2, usize::MAX), vec![span(0, 2)]);
}

#[test]
fn twelve_hundred_nodes_take_ten_statements() {
    let nodes: Vec<Node> = (0..1200).map(|id| node(id, 0)).collect();
    let plan = node_batches(&nodes, SQLITE_MAX_VARIABLE_NUMBER);
    assert_eq!(plan.len(), 10);
    for (i, batch) in plan.iter().enumerate() {
        assert_eq!(batch.table, Table::Node);
        assert_eq!(batch.parents.start, i * 124);
        assert_eq!(batch.rows.start, 0);
    }
    assert_eq!(plan[8].parents, span(992, 1116));
    assert_eq!(plan[8].rows, span(0, 124));
    assert_eq!(plan[9].parents, span(1116, 1200));
    assert_eq!(plan[9].rows, span(0, 84));
}

#[test]
fn node_tags_are_cut_anew_within_each_span_of_nodes() {
    let nodes: Vec<Node> = (0..200).map(|id| node(id, 3)).collect();
    let plan = node_batches(&nodes, 999);
    let expected = vec![
        Batch { table: Table::Node, parents: span(0, 124), rows: span(0, 124) },
        Batch { table: Table::Node, parents: span(124, 200), rows: span(0, 76) },
        Batch { table: Table::NodeTags, parents: span(0, 124), rows: span(0, 333) },
        Batch { table: Table::NodeTags, parents: span(0, 124), rows: span(333, 372) },
        Batch { table: Table::NodeTags, parents: span(124, 200), rows: span(0, 228) },
    ];
    assert_eq!(plan, expected);
}

#[test]
fn no_entities_need_no_statement() {
    assert!(node_batches(&[], 999).is_empty());
    assert!(way_batches(&[], 999).is_empty());
    assert!(relation_batches(&[], 999).is_empty());
}

#[test]
fn ways_come_before_their_node_refs_and_tags() {
    let ways = vec![way(1, 3, 1), way(2, 0, 0), way(3, 2, 2)];
    let plan = way_batches(&ways, 8);
    let expected = vec![
        Batch { table: Table::Way, parents: span(0, 1), rows: span(0, 1) },
        Batch { table: Table::Way, parents: span(1, 2), rows: span(0, 1) },
        Batch { table: Table::Way, parents: span(2, 3), rows: span(0, 1) },
        Batch { table: Table::WayNodes, parents: span(0, 1), rows: span(0, 3) },
        Batch { table: Table::WayNodes, parents: span(2, 3), rows: span(0, 2) },
        Batch { table: Table::WayTags, parents: span(0, 1), rows: span(0, 1) },
        Batch { table: Table::WayTags, parents: span(2, 3), rows: span(0, 2) },
    ];
    assert_eq!(plan, expected);
}

#[test]
fn relations_come_before_their_members_and_tags() {
    let relations = vec![relation(1, 5, 1), relation(2, 1, 4)];
    let plan = relation_batches(&relations, 12);
    let expected = vec![
        Batch { table: Table::Relation, parents: span(0, 2), rows: span(0, 2) },
        Batch { table: Table::Member, parents: span(0, 2), rows: span(0, 3) },
        Batch { table: Table::Member, parents: span(0, 2), rows: span(3, 6) },
        Batch { table: Table::RelationTags, parents: span(0, 2), rows: span(0, 4) },
        Batch { table: Table::RelationTags, parents: span(0, 2), rows: span(4, 5) },
    ];
    assert_eq!(plan, expected);
}

#[test]
fn statements_stay_under_the_ceiling() {
    let nodes: Vec<Node> = (0..1000).map(|id| node(id, (id % 7) as usize)).collect();
    for max_params in [8usize, 9, 100, 999, 32_766, 1_000_000] {
        let plan = node_batches(&nodes, max_params);
        let mut seen_child = false;
        for batch in &plan {
            let rows = batch.rows.end - batch.rows.start;
            assert!(rows > 0);
            assert!(rows <= max_params / batch.table.field_count());
            assert!(rows <= 4000);
            if batch.table == Table::Node {
                assert!(!seen_child);
            } else {
                seen_child = true;
            }
        }
        let inserted: usize = plan.iter().filter(|b| b.table == Table::Node).map(|b| b.rows.end - b.rows.start).sum();
        assert_eq!(inserted, 1000);
        let tags: usize = plan.iter().filter(|b| b.table == Table::NodeTags).map(|b| b.rows.end - b.rows.start).sum();
        assert_eq!(tags, nodes.iter().map(|n| n.tags.len()).sum::<usize>());
    }
}

#[test]
fn whole_document_loads_nodes_then_ways_then_relations() {
    let data = osm_ingest::parser::parse_document(
        br#"<osm>
          <relation id="3"><member type="way" ref="2" role="outer"/><tag k="type" v="multipolygon"/></relation>
          <way id="2"><nd ref="1"/><tag k="highway" v="track"/></way>
          <node id="1" lat="1" lon="2"><tag k="name" v="A"/></node>
        </osm>"#,
    )
    .unwrap();
    let plan = osm_ingest::batch::load_batches(&data, 999);
    let tables: Vec<Table> = plan.iter().map(|b| b.table).collect();
    assert_eq!(
        tables,
        vec![
            Table::Node,
            Table::NodeTags,
            Table::Way,
            Table::WayNodes,
            Table::WayTags,
            Table::Relation,
            Table::Member,
            Table::RelationTags,
        ]
    );
    for batch in &plan {
        assert_eq!(batch.parents, span(0, 1));
        assert_eq!(batch.rows, span(0, 1));
    }
}

#[test]
fn members_of_another_kind_take_no_statement() {
    let members = vec![
        Member::new(1, 5, MapsType::Other("area".to_string()), String::new()),
        Member::new(1, 6, MapsType::Other("zone".to_string()), String::new()),
    ];
    let relations = vec![Relation::new(1, 1, String::new(), 0, 0, String::new(), members, vec![])];
    let plan = relation_batches(&relations, 999);
    assert_eq!(plan, vec![Batch { table: Table::Relation, parents: span(0, 1), rows: span(0, 1) }]);
    let members = vec![
        Member::new(1, 5, MapsType::Other("area".to_string()), String::new()),
        Member::new(1, 6, MapsType::Way, String::new()),
    ];
    let relations = vec![Relation::new(1, 1, String::new(), 0, 0, String::new(), members, vec![])];
    let plan = relation_batches(&relations, 999);
    assert_eq!(
        plan,
        vec![
            Batch { table: Table::Relation, parents: span(0, 1), rows: span(0, 1) },
            Batch { table: Table::Member, parents: span(0, 1), rows: span(0, 1) },
        ]
    );
}

#[test]
fn ways_and_relations_are_planned_from_a_ceiling_of_six() {
    let ways = vec![way(1, 2, 1), way(2, 1, 0)];
    let plan = way_batches(&ways, 6);
    let expected = vec![
        Batch { table: Table::Way, parents: span(0, 1), rows: span(0, 1) },
        Batch { table: Table::Way, parents: span(1, 2), rows: span(0, 1) },
        Batch { table: Table::WayNodes, parents: span(0, 1), rows: span(0, 2) },
        Batch { table: Table::WayNodes, parents: span(1, 2), rows: span(0, 1) },
        Batch { table: Table::WayTags, parents: span(0, 1), rows: span(0, 1) },
    ];
    assert_eq!(plan, expected);
    let relations = vec![relation(1, 2, 3)];
    let plan = relation_batches(&relations, 7);
    let expected = vec![
        Batch { table: Table::Relation, parents: span(0, 1), rows: span(0, 1) },
        Batch { table: Table::Member, parents: span(0, 1), rows: span(0, 1) },
        Batch { table: Table::Member, parents: span(0, 1), rows: span(1, 2) },
        Batch { table: Table::RelationTags, parents: span(0, 1), rows: span(0, 2) },
        Batch { table: Table::RelationTags, parents: span(0, 1), rows: span(2, 3) },
    ];
    assert_eq!(plan, expected);
}

#[test]
fn load_goes_on_until_done_or_failed() {
    assert_eq!(next_step(3, 0, true), Step::Run(0));
    assert_eq!(next_step(3, 1, true), Step::Run(1));
    assert_eq!(next_step(3, 2, true), Step::Run(2));
    assert_eq!(next_step(3, 3, true), Step::Done);
    assert_eq!(next_step(0, 0, true), Step::Done);
    assert_eq!(next_step(3, 1, false), Step::Failed);
    assert_eq!(next_step(3, 3, false), Step::Failed);
    assert_eq!(next_step(0, 0, false), Step::Failed);
}
