use vstd::prelude::*;
use vstd::slice::slice_subrange;
use crate::chunk::chunk;
use crate::chunk::chunk_spans;
use crate::chunk::lemma_chunk_spans;
use crate::chunk::lemma_chunk_spans_fit;
use crate::node::Node;
use crate::node::NodeView;
use crate::node;
use crate::parser::OsmData;
use crate::parser::OsmDataView;
use crate::relation::Relation;
use crate::relation::RelationView;
use crate::relation;
use crate::span::Span;
use crate::utils::flat_rows;
use crate::utils::views;
use crate::way::Way;
use crate::way::WayView;
use crate::way;

verus! {

/// How many values a statement may bind where the store is SQLite.
pub const SQLITE_MAX_VARIABLE_NUMBER: usize = 999;

/// How many rows a statement holds at most, whatever the store allows.
pub const MAX_BATCH_ROWS: usize = 4000;

/// The tables of the store.
#[derive(Debug, Clone, Copy, PartialEq, Eq, Structural)]
pub enum Table {
    /// Nodes, a row of eight fields.
    Node,
    /// Tags of nodes: node, key, value.
    NodeTags,
    /// Ways, a row of six fields.
    Way,
    /// Node references of ways: way, node.
    WayNodes,
    /// Tags of ways: way, key, value.
    WayTags,
    /// Relations, a row of six fields.
    Relation,
    /// Members of relations. A row counts for four fields, those of a
    /// member: its id, its target, its kind and its role. This is the
    /// figure by which statements for the table are sized. It is not the
    /// number of values that a statement binds for a row: with the
    /// relation and the three columns for the target, that is seven.
    Member,
    /// Tags of relations: relation, key, value.
    RelationTags,
}

impl Table {
    /// How many fields a row of the table counts for.
    pub open spec fn fields(self) -> nat {
        match self {
            Table::Node => 8,
            Table::NodeTags => 3,
            Table::Way => 6,
            Table::WayNodes => 2,
            Table::WayTags => 3,
            Table::Relation => 6,
            Table::Member => 4,
            Table::RelationTags => 3,
        }
    }

    /// Whether the table holds entities, to which the rows of the other
    /// tables refer.
    pub open spec fn is_parent(self) -> bool {
        self == Table::Node || self == Table::Way || self == Table::Relation
    }

    /// Whether the rows of the table refer to rows of the other table, which
    /// the store may want to hold first.
    pub open spec fn refers_to(self, other: Table) -> bool {
        match self {
            Table::NodeTags => other == Table::Node,
            Table::WayNodes => other == Table::Way || other == Table::Node,
            Table::WayTags => other == Table::Way,
            Table::Member => other == Table::Relation,
            Table::RelationTags => other == Table::Relation,
            _ => false,
        }
    }

    /// How many fields a row of the table counts for.
    pub fn field_count(self) -> (count: usize)
        ensures
            count == self.fields(),
            0 < count <= 8,
    {
        match self {
            Table::Node => 8,
            Table::NodeTags => 3,
            Table::Way => 6,
            Table::WayNodes => 2,
            Table::WayTags => 3,
            Table::Relation => 6,
            Table::Member => 4,
            Table::RelationTags => 3,
        }
    }
}

/// How many rows of `fields` fields one statement holds where it may bind
/// `max_params` values: as many as fit, and never more than `MAX_BATCH_ROWS`.
pub open spec fn rows_per_batch(max_params: nat, fields: nat) -> nat {
    if max_params / fields < MAX_BATCH_ROWS {
        max_params / fields
    } else {
        MAX_BATCH_ROWS as nat
    }
}

/// How many rows of `fields` fields one statement holds.
pub fn batch_size(max_params: usize, fields: usize) -> (rows: usize)
    requires
        fields > 0,
    ensures
        rows == rows_per_batch(max_params as nat, fields as nat),
{
    let fit = max_params / fields;
    if fit < MAX_BATCH_ROWS {
        fit
    } else {
        MAX_BATCH_ROWS
    }
}

/// One statement of a load: the table, the entities whose rows it draws
/// on, and which of the rows that those entities give for the table it holds.
#[derive(Debug, Clone, Copy, PartialEq, Eq, Structural)]
pub struct Batch {
    pub table: Table,
    pub parents: Span,
    pub rows: Span,
}

/// The statement that inserts the entities of a span into their table.
pub open spec fn parent_batch(table: Table) -> spec_fn(Span) -> Batch {
    |parents: Span|
        Batch { table, parents, rows: Span { start: 0, end: (parents.end - parents.start) as usize } }
}

/// The statement that inserts a span of the rows that the entities of
/// `parents` give for a table.
pub open spec fn child_batch(table: Table, parents: Span) -> spec_fn(Span) -> Batch {
    |rows: Span| Batch { table, parents, rows }
}

/// The statements that insert `len` entities into their table: one for each
/// span of entities, holding them all.
pub open spec fn parent_plan(table: Table, len: nat, size: nat) -> Seq<Batch> {
    chunk_spans(0, len, size).map_values(parent_batch(table))
}

/// The statements that insert the `count` rows that one span of entities
/// gives for a table.
pub open spec fn child_batches(table: Table, parents: Span, count: nat, size: nat) -> Seq<Batch> {
    chunk_spans(0, count, size).map_values(child_batch(table, parents))
}

/// The statements that insert the rows that spans of entities give for a
/// table, span after span; `count` says how many rows a span gives.
pub open spec fn child_plan(
    table: Table,
    spans: Seq<Span>,
    count: spec_fn(Span) -> nat,
    size: nat,
) -> Seq<Batch>
    decreases spans.len(),
{
    if spans.len() == 0 {
        Seq::empty()
    } else {
        child_plan(table, spans.drop_last(), count, size) + child_batches(
            table,
            spans.last(),
            count(spans.last()),
            size,
        )
    }
}

/// Adds the statements that insert the entities of each span.
fn push_parent_batches(plan: &mut Vec<Batch>, table: Table, spans: &Vec<Span>)
    requires
        forall|i: int| 0 <= i < spans@.len() ==> (#[trigger] spans@[i]).start <= spans@[i].end,
    ensures
        final(plan)@ == old(plan)@ + spans@.map_values(parent_batch(table)),
{
    let mut i: usize = 0;
    assert(plan@ =~= old(plan)@ + spans@.take(0).map_values(parent_batch(table)));
    while i < spans.len()
        invariant
            i <= spans.len(),
            forall|k: int| 0 <= k < spans@.len() ==> (#[trigger] spans@[k]).start <= spans@[k].end,
            plan@ == old(plan)@ + spans@.take(i as int).map_values(parent_batch(table)),
        decreases spans.len() - i,
    {
        let parents = spans[i];
        let ghost before = plan@;
        plan.push(Batch { table, parents, rows: Span { start: 0, end: parents.end - parents.start } });
        proof {
            assert(spans@.take(i + 1).map_values(parent_batch(table)) =~= spans@.take(
                i as int,
            ).map_values(parent_batch(table)).push(parent_batch(table)(parents)));
            assert(plan@ =~= old(plan)@ + spans@.take(i + 1).map_values(parent_batch(table)));
        }
        i += 1;
    }
    assert(spans@.take(i as int) =~= spans@);
}

/// Adds the statements that insert the `count` rows of one span of entities.
fn push_child_batches(plan: &mut Vec<Batch>, table: Table, parents: Span, count: usize, size: usize)
    requires
        size > 0,
    ensures
        final(plan)@ == old(plan)@ + child_batches(table, parents, count as nat, size as nat),
{
    let spans = chunk(count, size);
    let mut i: usize = 0;
    assert(plan@ =~= old(plan)@ + spans@.take(0).map_values(child_batch(table, parents)));
    while i < spans.len()
        invariant
            i <= spans.len(),
            plan@ == old(plan)@ + spans@.take(i as int).map_values(child_batch(table, parents)),
        decreases spans.len() - i,
    {
        plan.push(Batch { table, parents, rows: spans[i] });
        proof {
            assert(spans@.take(i + 1).map_values(child_batch(table, parents)) =~= spans@.take(
                i as int,
            ).map_values(child_batch(table, parents)).push(
                child_batch(table, parents)(spans@[i as int]),
            ));
            assert(plan@ =~= old(plan)@ + spans@.take(i + 1).map_values(
                child_batch(table, parents),
            ));
        }
        i += 1;
    }
    assert(spans@.take(i as int) =~= spans@);
}

/// How many rows the entities of a span give, where `rows` gives those of one entity.
pub open spec fn row_count<T, R>(items: Seq<T>, rows: spec_fn(T) -> Seq<R>) -> spec_fn(Span) -> nat {
    |parents: Span| flat_rows(parents.of(items), rows).len()
}

/// How many tag rows the nodes of a span give.
pub open spec fn node_tag_count(nodes: Seq<NodeView>) -> spec_fn(Span) -> nat {
    row_count(nodes, node::tag_rows_of())
}

/// How many node-reference rows the ways of a span give.
pub open spec fn way_node_count(ways: Seq<WayView>) -> spec_fn(Span) -> nat {
    row_count(ways, way::node_rows_of())
}

/// How many tag rows the ways of a span give.
pub open spec fn way_tag_count(ways: Seq<WayView>) -> spec_fn(Span) -> nat {
    row_count(ways, way::tag_rows_of())
}

/// How many member rows the relations of a span give.
pub open spec fn member_count(relations: Seq<RelationView>) -> spec_fn(Span) -> nat {
    row_count(relations, relation::member_rows_of())
}

/// How many tag rows the relations of a span give.
pub open spec fn relation_tag_count(relations: Seq<RelationView>) -> spec_fn(Span) -> nat {
    row_count(relations, relation::tag_rows_of())
}

/// How many rows there are for a statement of a node load: the nodes of
/// its span, or the tags that they give.
pub open spec fn node_rows(nodes: Seq<NodeView>) -> spec_fn(Batch) -> nat {
    |batch: Batch|
        if batch.table == Table::Node {
            batch.parents.size() as nat
        } else {
            node_tag_count(nodes)(batch.parents)
        }
}

/// How many rows there are for a statement of a way load: the ways of its
/// span, or the node references or the tags that they give.
pub open spec fn way_rows(ways: Seq<WayView>) -> spec_fn(Batch) -> nat {
    |batch: Batch|
        if batch.table == Table::Way {
            batch.parents.size() as nat
        } else if batch.table == Table::WayNodes {
            way_node_count(ways)(batch.parents)
        } else {
            way_tag_count(ways)(batch.parents)
        }
}

/// How many rows there are for a statement of a relation load: the
/// relations of its span, or the members or the tags that they give.
pub open spec fn relation_rows(relations: Seq<RelationView>) -> spec_fn(Batch) -> nat {
    |batch: Batch|
        if batch.table == Table::Relation {
            batch.parents.size() as nat
        } else if batch.table == Table::Member {
            member_count(relations)(batch.parents)
        } else {
            relation_tag_count(relations)(batch.parents)
        }
}

/// The statements that load nodes, in the order in which they are issued:
/// first the nodes themselves, span after span; then, for each span of
/// nodes in turn, the tags of its nodes, cut anew by the width of a tag row.
pub open spec fn node_plan(nodes: Seq<NodeView>, max_params: nat) -> Seq<Batch> {
    let size = rows_per_batch(max_params, Table::Node.fields());
    let spans = chunk_spans(0, nodes.len(), size);
    parent_plan(Table::Node, nodes.len(), size) + child_plan(
        Table::NodeTags,
        spans,
        node_tag_count(nodes),
        rows_per_batch(max_params, Table::NodeTags.fields()),
    )
}

/// The statements that load ways: the ways themselves, then their node
/// references, then their tags.
pub open spec fn way_plan(ways: Seq<WayView>, max_params: nat) -> Seq<Batch> {
    let size = rows_per_batch(max_params, Table::Way.fields());
    let spans = chunk_spans(0, ways.len(), size);
    parent_plan(Table::Way, ways.len(), size) + child_plan(
        Table::WayNodes,
        spans,
        way_node_count(ways),
        rows_per_batch(max_params, Table::WayNodes.fields()),
    ) + child_plan(
        Table::WayTags,
        spans,
        way_tag_count(ways),
        rows_per_batch(max_params, Table::WayTags.fields()),
    )
}

/// The statements that load relations: the relations themselves, then
/// their members, then their tags.
pub open spec fn relation_plan(relations: Seq<RelationView>, max_params: nat) -> Seq<Batch> {
    let size = rows_per_batch(max_params, Table::Relation.fields());
    let spans = chunk_spans(0, relations.len(), size);
    parent_plan(Table::Relation, relations.len(), size) + child_plan(
        Table::Member,
        spans,
        member_count(relations),
        rows_per_batch(max_params, Table::Member.fields()),
    ) + child_plan(
        Table::RelationTags,
        spans,
        relation_tag_count(relations),
        rows_per_batch(max_params, Table::RelationTags.fields()),
    )
}

/// Whether no statement of a plan is empty or holds more rows than fit
/// under the ceiling: a statement holds at most as many rows as `max_params`
/// divided by the field count of its table gives, and never more than
/// `MAX_BATCH_ROWS`. The field count is the table's figure in
/// `Table::fields`, which for members is lower than the number of values
/// that a row binds.
pub open spec fn within_ceiling(plan: Seq<Batch>, max_params: nat) -> bool {
    forall|i: int|
        0 <= i < plan.len() ==> 0 < (#[trigger] plan[i]).rows.size() <= max_params
            / plan[i].table.fields() && plan[i].rows.size() <= MAX_BATCH_ROWS
}

/// Whether every statement that inserts entities stands before every
/// statement that inserts rows that refer to entities.
pub open spec fn parents_first(plan: Seq<Batch>) -> bool {
    forall|i: int, j: int|
        0 <= i < j < plan.len() && (#[trigger] plan[j]).table.is_parent() ==> (
        #[trigger] plan[i]).table.is_parent()
}

/// Whether no statement stands before a statement for a table that its
/// rows refer to.
pub open spec fn references_follow(plan: Seq<Batch>) -> bool {
    forall|i: int, j: int|
        0 <= i < j < plan.len() ==> !(#[trigger] plan[i]).table.refers_to((#[trigger] plan[j]).table)
}

/// Whether every statement of a plan is for one of three tables.
pub open spec fn only_tables(plan: Seq<Batch>, first: Table, second: Table, third: Table) -> bool {
    forall|i: int|
        0 <= i < plan.len() ==> (#[trigger] plan[i]).table == first || plan[i].table == second
            || plan[i].table == third
}

/// Whether every statement of a plan is for the given table and holds at
/// least one row and at most `size`.
pub open spec fn all_for(plan: Seq<Batch>, table: Table, size: nat) -> bool {
    forall|i: int|
        0 <= i < plan.len() ==> (#[trigger] plan[i]).table == table && 0 < plan[i].rows.size()
            <= size
}

/// The statements that insert entities are for their table and of the right size.
pub proof fn lemma_parent_plan_sizes(table: Table, len: nat, size: nat)
    requires
        size > 0,
        len <= usize::MAX,
    ensures
        all_for(parent_plan(table, len, size), table, size),
{
    lemma_chunk_spans(0, len, size);
}

/// The statements that insert rows that refer to entities are for their
/// table and of the right size.
pub proof fn lemma_child_plan_sizes(
    table: Table,
    spans: Seq<Span>,
    count: spec_fn(Span) -> nat,
    size: nat,
)
    requires
        size > 0,
        forall|k: int| 0 <= k < spans.len() ==> count(#[trigger] spans[k]) <= usize::MAX,
    ensures
        all_for(child_plan(table, spans, count, size), table, size),
    decreases spans.len(),
{
    if spans.len() > 0 {
        let before = child_plan(table, spans.drop_last(), count, size);
        let last = child_batches(table, spans.last(), count(spans.last()), size);
        assert forall|k: int| 0 <= k < spans.drop_last().len() implies count(
            #[trigger] spans.drop_last()[k],
        ) <= usize::MAX by {
            assert(spans.drop_last()[k] == spans[k]);
        }
        lemma_child_plan_sizes(table, spans.drop_last(), count, size);
        lemma_chunk_spans(0, count(spans.last()), size);
        let plan = child_plan(table, spans, count, size);
        assert forall|i: int| 0 <= i < plan.len() implies (#[trigger] plan[i]).table == table && 0
            < plan[i].rows.size() <= size by {
            if i < before.len() {
                assert(plan[i] == before[i]);
            } else {
                assert(plan[i] == last[i - before.len()]);
            }
        }
    }
}

/// A statement holds at least one row where the ceiling admits a row of the table.
pub proof fn lemma_sizes_positive(max_params: nat, fields: nat)
    requires
        0 < fields <= max_params,
    ensures
        rows_per_batch(max_params, fields) > 0,
{
    assert(max_params / fields > 0) by (nonlinear_arith)
        requires
            0 < fields <= max_params,
    ;
}

/// Whether every statement of a plan draws on entities that are there, and
/// holds rows that those entities give: its span of entities lies within
/// the `len` entities, and its span of rows within the rows that `available`
/// says there are for it.
pub open spec fn within_rows(plan: Seq<Batch>, len: nat, available: spec_fn(Batch) -> nat) -> bool {
    forall|i: int|
        0 <= i < plan.len() ==> (#[trigger] plan[i]).parents.fits(len) && plan[i].rows.fits(
            available(plan[i]),
        )
}

/// The statements that insert entities draw on entities that are there.
pub proof fn lemma_parent_plan_within_rows(
    table: Table,
    len: nat,
    size: nat,
    available: spec_fn(Batch) -> nat,
)
    requires
        size > 0,
        len <= usize::MAX,
        forall|batch: Batch|
            batch.table == table && batch.parents.start <= batch.parents.end ==> #[trigger] available(
                batch,
            ) == batch.parents.size(),
    ensures
        within_rows(parent_plan(table, len, size), len, available),
{
    lemma_chunk_spans(0, len, size);
    let plan = parent_plan(table, len, size);
    assert forall|i: int| 0 <= i < plan.len() implies (#[trigger] plan[i]).parents.fits(len)
        && plan[i].rows.fits(available(plan[i])) by {
        assert(plan[i].table == table);
    }
}

/// The statements that insert rows that refer to entities draw on
/// entities that are there and hold rows that they give.
pub proof fn lemma_child_plan_within_rows(
    table: Table,
    spans: Seq<Span>,
    count: spec_fn(Span) -> nat,
    size: nat,
    len: nat,
    available: spec_fn(Batch) -> nat,
)
    requires
        size > 0,
        countable(spans, count),
        forall|k: int| 0 <= k < spans.len() ==> (#[trigger] spans[k]).fits(len),
        forall|batch: Batch|
            batch.table == table ==> #[trigger] available(batch) == count(batch.parents),
    ensures
        within_rows(child_plan(table, spans, count, size), len, available),
    decreases spans.len(),
{
    if spans.len() > 0 {
        let before = child_plan(table, spans.drop_last(), count, size);
        let last = child_batches(table, spans.last(), count(spans.last()), size);
        assert forall|k: int| 0 <= k < spans.drop_last().len() implies count(
            #[trigger] spans.drop_last()[k],
        ) <= usize::MAX && spans.drop_last()[k].fits(len) by {
            assert(spans.drop_last()[k] == spans[k]);
        }
        lemma_child_plan_within_rows(table, spans.drop_last(), count, size, len, available);
        lemma_chunk_spans(0, count(spans.last()), size);
        let plan = child_plan(table, spans, count, size);
        assert forall|i: int| 0 <= i < plan.len() implies (#[trigger] plan[i]).parents.fits(len)
            && plan[i].rows.fits(available(plan[i])) by {
            if i < before.len() {
                assert(plan[i] == before[i]);
            } else {
                assert(plan[i] == last[i - before.len()]);
                assert(plan[i].table == table);
            }
        }
    }
}

/// Statements that are all for one of three tables are for one of the three.
pub proof fn lemma_all_for_one_of(
    plan: Seq<Batch>,
    table: Table,
    size: nat,
    first: Table,
    second: Table,
    third: Table,
)
    requires
        all_for(plan, table, size),
        table == first || table == second || table == third,
    ensures
        only_tables(plan, first, second, third),
{
}

/// Two plans for the same three tables are for them one after the other too.
pub proof fn lemma_only_tables_concat(
    head: Seq<Batch>,
    tail: Seq<Batch>,
    first: Table,
    second: Table,
    third: Table,
)
    requires
        only_tables(head, first, second, third),
        only_tables(tail, first, second, third),
    ensures
        only_tables(head + tail, first, second, third),
{
    let plan = head + tail;
    assert forall|i: int| 0 <= i < plan.len() implies (#[trigger] plan[i]).table == first
        || plan[i].table == second || plan[i].table == third by {
        if i < head.len() {
            assert(plan[i] == head[i]);
        } else {
            assert(plan[i] == tail[i - head.len()]);
        }
    }
}

/// Two plans that draw on what is there do so one after the other too.
pub proof fn lemma_within_rows_concat(
    first: Seq<Batch>,
    second: Seq<Batch>,
    len: nat,
    available: spec_fn(Batch) -> nat,
)
    requires
        within_rows(first, len, available),
        within_rows(second, len, available),
    ensures
        within_rows(first + second, len, available),
{
    let plan = first + second;
    assert forall|i: int| 0 <= i < plan.len() implies (#[trigger] plan[i]).parents.fits(len)
        && plan[i].rows.fits(available(plan[i])) by {
        if i < first.len() {
            assert(plan[i] == first[i]);
        } else {
            assert(plan[i] == second[i - first.len()]);
        }
    }
}

/// Whether every span of entities gives few enough rows to count them in a
/// machine word.
pub open spec fn countable(spans: Seq<Span>, count: spec_fn(Span) -> nat) -> bool {
    forall|k: int| 0 <= k < spans.len() ==> count(#[trigger] spans[k]) <= usize::MAX
}

/// A load of one kind of entity, with the rows of one table that refer to
/// them, stays under the ceiling and inserts the entities first.
pub proof fn lemma_parents_then_children(
    parent: Table,
    len: nat,
    child: Table,
    count: spec_fn(Span) -> nat,
    max_params: nat,
)
    requires
        max_params >= parent.fields(),
        max_params >= child.fields(),
        len <= usize::MAX,
        parent.is_parent(),
        !child.is_parent(),
        countable(chunk_spans(0, len, rows_per_batch(max_params, parent.fields())), count),
    ensures
        within_ceiling(
            parent_plan(parent, len, rows_per_batch(max_params, parent.fields())) + child_plan(
                child,
                chunk_spans(0, len, rows_per_batch(max_params, parent.fields())),
                count,
                rows_per_batch(max_params, child.fields()),
            ),
            max_params,
        ),
        parents_first(
            parent_plan(parent, len, rows_per_batch(max_params, parent.fields())) + child_plan(
                child,
                chunk_spans(0, len, rows_per_batch(max_params, parent.fields())),
                count,
                rows_per_batch(max_params, child.fields()),
            ),
        ),
{
    let size = rows_per_batch(max_params, parent.fields());
    let child_size = rows_per_batch(max_params, child.fields());
    lemma_sizes_positive(max_params, parent.fields());
    lemma_sizes_positive(max_params, child.fields());
    lemma_parent_plan_sizes(parent, len, size);
    lemma_child_plan_sizes(child, chunk_spans(0, len, size), count, child_size);
}

/// Adding the rows of one more table that refer to the entities keeps a
/// load under the ceiling and the entities first.
pub proof fn lemma_more_children(
    plan: Seq<Batch>,
    child: Table,
    spans: Seq<Span>,
    count: spec_fn(Span) -> nat,
    max_params: nat,
)
    requires
        max_params >= child.fields(),
        !child.is_parent(),
        countable(spans, count),
        within_ceiling(plan, max_params),
        parents_first(plan),
    ensures
        within_ceiling(
            plan + child_plan(child, spans, count, rows_per_batch(max_params, child.fields())),
            max_params,
        ),
        parents_first(
            plan + child_plan(child, spans, count, rows_per_batch(max_params, child.fields())),
        ),
{
    let child_size = rows_per_batch(max_params, child.fields());
    lemma_sizes_positive(max_params, child.fields());
    lemma_child_plan_sizes(child, spans, count, child_size);
}

/// The statements that load nodes hold no more rows than the ceiling
/// allows, every statement that inserts nodes stands before every
/// statement that inserts tags of nodes, and every statement draws on
/// nodes and rows that are there.
pub proof fn lemma_node_plan_lawful(nodes: Seq<NodeView>, max_params: nat)
    requires
        max_params >= 8,
        nodes.len() <= usize::MAX,
        countable(
            chunk_spans(0, nodes.len(), rows_per_batch(max_params, Table::Node.fields())),
            node_tag_count(nodes),
        ),
    ensures
        within_ceiling(node_plan(nodes, max_params), max_params),
        parents_first(node_plan(nodes, max_params)),
        within_rows(node_plan(nodes, max_params), nodes.len(), node_rows(nodes)),
        only_tables(node_plan(nodes, max_params), Table::Node, Table::NodeTags, Table::NodeTags),
{
    let size = rows_per_batch(max_params, Table::Node.fields());
    let tag_size = rows_per_batch(max_params, Table::NodeTags.fields());
    let spans = chunk_spans(0, nodes.len(), size);
    lemma_parents_then_children(
        Table::Node,
        nodes.len(),
        Table::NodeTags,
        node_tag_count(nodes),
        max_params,
    );
    lemma_sizes_positive(max_params, Table::Node.fields());
    lemma_sizes_positive(max_params, Table::NodeTags.fields());
    lemma_chunk_spans_fit(nodes.len(), size);
    lemma_parent_plan_within_rows(Table::Node, nodes.len(), size, node_rows(nodes));
    lemma_child_plan_within_rows(
        Table::NodeTags,
        spans,
        node_tag_count(nodes),
        tag_size,
        nodes.len(),
        node_rows(nodes),
    );
    lemma_within_rows_concat(
        parent_plan(Table::Node, nodes.len(), size),
        child_plan(Table::NodeTags, spans, node_tag_count(nodes), tag_size),
        nodes.len(),
        node_rows(nodes),
    );
    let parents = parent_plan(Table::Node, nodes.len(), size);
    let tags = child_plan(Table::NodeTags, spans, node_tag_count(nodes), tag_size);
    lemma_parent_plan_sizes(Table::Node, nodes.len(), size);
    lemma_child_plan_sizes(Table::NodeTags, spans, node_tag_count(nodes), tag_size);
    lemma_all_for_one_of(parents, Table::Node, size, Table::Node, Table::NodeTags, Table::NodeTags);
    lemma_all_for_one_of(
        tags,
        Table::NodeTags,
        tag_size,
        Table::Node,
        Table::NodeTags,
        Table::NodeTags,
    );
    lemma_only_tables_concat(parents, tags, Table::Node, Table::NodeTags, Table::NodeTags);
}

/// The statements that load ways hold no more rows than the ceiling
/// allows, every statement that inserts ways stands before every
/// statement that inserts their node references or their tags, and every
/// statement draws on ways and rows that are there.
pub proof fn lemma_way_plan_lawful(ways: Seq<WayView>, max_params: nat)
    requires
        max_params >= 6,
        ways.len() <= usize::MAX,
        countable(
            chunk_spans(0, ways.len(), rows_per_batch(max_params, Table::Way.fields())),
            way_node_count(ways),
        ),
        countable(
            chunk_spans(0, ways.len(), rows_per_batch(max_params, Table::Way.fields())),
            way_tag_count(ways),
        ),
    ensures
        within_ceiling(way_plan(ways, max_params), max_params),
        parents_first(way_plan(ways, max_params)),
        within_rows(way_plan(ways, max_params), ways.len(), way_rows(ways)),
        only_tables(way_plan(ways, max_params), Table::Way, Table::WayNodes, Table::WayTags),
{
    let size = rows_per_batch(max_params, Table::Way.fields());
    let node_size = rows_per_batch(max_params, Table::WayNodes.fields());
    let tag_size = rows_per_batch(max_params, Table::WayTags.fields());
    let spans = chunk_spans(0, ways.len(), size);
    lemma_sizes_positive(max_params, Table::Way.fields());
    lemma_sizes_positive(max_params, Table::WayNodes.fields());
    lemma_sizes_positive(max_params, Table::WayTags.fields());
    lemma_chunk_spans_fit(ways.len(), size);
    lemma_parent_plan_within_rows(Table::Way, ways.len(), size, way_rows(ways));
    lemma_child_plan_within_rows(
        Table::WayNodes,
        spans,
        way_node_count(ways),
        node_size,
        ways.len(),
        way_rows(ways),
    );
    lemma_child_plan_within_rows(
        Table::WayTags,
        spans,
        way_tag_count(ways),
        tag_size,
        ways.len(),
        way_rows(ways),
    );
    lemma_within_rows_concat(
        parent_plan(Table::Way, ways.len(), size),
        child_plan(Table::WayNodes, spans, way_node_count(ways), node_size),
        ways.len(),
        way_rows(ways),
    );
    lemma_within_rows_concat(
        parent_plan(Table::Way, ways.len(), size) + child_plan(
            Table::WayNodes,
            spans,
            way_node_count(ways),
            node_size,
        ),
        child_plan(Table::WayTags, spans, way_tag_count(ways), tag_size),
        ways.len(),
        way_rows(ways),
    );
    let parents = parent_plan(Table::Way, ways.len(), size);
    let nodes = child_plan(Table::WayNodes, spans, way_node_count(ways), node_size);
    let tags = child_plan(Table::WayTags, spans, way_tag_count(ways), tag_size);
    lemma_parent_plan_sizes(Table::Way, ways.len(), size);
    lemma_child_plan_sizes(Table::WayNodes, spans, way_node_count(ways), node_size);
    lemma_child_plan_sizes(Table::WayTags, spans, way_tag_count(ways), tag_size);
    lemma_all_for_one_of(parents, Table::Way, size, Table::Way, Table::WayNodes, Table::WayTags);
    lemma_all_for_one_of(
        nodes,
        Table::WayNodes,
        node_size,
        Table::Way,
        Table::WayNodes,
        Table::WayTags,
    );
    lemma_all_for_one_of(tags, Table::WayTags, tag_size, Table::Way, Table::WayNodes, Table::WayTags);
    lemma_only_tables_concat(parents, nodes, Table::Way, Table::WayNodes, Table::WayTags);
    lemma_only_tables_concat(parents + nodes, tags, Table::Way, Table::WayNodes, Table::WayTags);
    lemma_parents_then_children(
        Table::Way,
        ways.len(),
        Table::WayNodes,
        way_node_count(ways),
        max_params,
    );
    let so_far = parent_plan(Table::Way, ways.len(), size) + child_plan(
        Table::WayNodes,
        spans,
        way_node_count(ways),
        rows_per_batch(max_params, Table::WayNodes.fields()),
    );
    lemma_more_children(so_far, Table::WayTags, spans, way_tag_count(ways), max_params);
}

/// The statements that load relations hold no more rows than the ceiling
/// allows, a member row counted with the four fields of its table, every
/// statement that inserts relations stands before every statement that
/// inserts their members or their tags, and every statement draws on
/// relations and rows that are there.
pub proof fn lemma_relation_plan_lawful(relations: Seq<RelationView>, max_params: nat)
    requires
        max_params >= 6,
        relations.len() <= usize::MAX,
        countable(
            chunk_spans(0, relations.len(), rows_per_batch(max_params, Table::Relation.fields())),
            member_count(relations),
        ),
        countable(
            chunk_spans(0, relations.len(), rows_per_batch(max_params, Table::Relation.fields())),
            relation_tag_count(relations),
        ),
    ensures
        within_ceiling(relation_plan(relations, max_params), max_params),
        parents_first(relation_plan(relations, max_params)),
        within_rows(
            relation_plan(relations, max_params),
            relations.len(),
            relation_rows(relations),
        ),
        only_tables(
            relation_plan(relations, max_params),
            Table::Relation,
            Table::Member,
            Table::RelationTags,
        ),
{
    let size = rows_per_batch(max_params, Table::Relation.fields());
    let member_size = rows_per_batch(max_params, Table::Member.fields());
    let tag_size = rows_per_batch(max_params, Table::RelationTags.fields());
    let spans = chunk_spans(0, relations.len(), size);
    lemma_sizes_positive(max_params, Table::Relation.fields());
    lemma_sizes_positive(max_params, Table::Member.fields());
    lemma_sizes_positive(max_params, Table::RelationTags.fields());
    lemma_chunk_spans_fit(relations.len(), size);
    lemma_parent_plan_within_rows(
        Table::Relation,
        relations.len(),
        size,
        relation_rows(relations),
    );
    lemma_child_plan_within_rows(
        Table::Member,
        spans,
        member_count(relations),
        member_size,
        relations.len(),
        relation_rows(relations),
    );
    lemma_child_plan_within_rows(
        Table::RelationTags,
        spans,
        relation_tag_count(relations),
        tag_size,
        relations.len(),
        relation_rows(relations),
    );
    lemma_within_rows_concat(
        parent_plan(Table::Relation, relations.len(), size),
        child_plan(Table::Member, spans, member_count(relations), member_size),
        relations.len(),
        relation_rows(relations),
    );
    lemma_within_rows_concat(
        parent_plan(Table::Relation, relations.len(), size) + child_plan(
            Table::Member,
            spans,
            member_count(relations),
            member_size,
        ),
        child_plan(Table::RelationTags, spans, relation_tag_count(relations), tag_size),
        relations.len(),
        relation_rows(relations),
    );
    let parents = parent_plan(Table::Relation, relations.len(), size);
    let members = child_plan(Table::Member, spans, member_count(relations), member_size);
    let tags = child_plan(Table::RelationTags, spans, relation_tag_count(relations), tag_size);
    lemma_parent_plan_sizes(Table::Relation, relations.len(), size);
    lemma_child_plan_sizes(Table::Member, spans, member_count(relations), member_size);
    lemma_child_plan_sizes(Table::RelationTags, spans, relation_tag_count(relations), tag_size);
    lemma_all_for_one_of(
        parents,
        Table::Relation,
        size,
        Table::Relation,
        Table::Member,
        Table::RelationTags,
    );
    lemma_all_for_one_of(
        members,
        Table::Member,
        member_size,
        Table::Relation,
        Table::Member,
        Table::RelationTags,
    );
    lemma_all_for_one_of(
        tags,
        Table::RelationTags,
        tag_size,
        Table::Relation,
        Table::Member,
        Table::RelationTags,
    );
    lemma_only_tables_concat(
        parents,
        members,
        Table::Relation,
        Table::Member,
        Table::RelationTags,
    );
    lemma_only_tables_concat(
        parents + members,
        tags,
        Table::Relation,
        Table::Member,
        Table::RelationTags,
    );
    lemma_parents_then_children(
        Table::Relation,
        relations.len(),
        Table::Member,
        member_count(relations),
        max_params,
    );
    let so_far = parent_plan(Table::Relation, relations.len(), size) + child_plan(
        Table::Member,
        spans,
        member_count(relations),
        rows_per_batch(max_params, Table::Member.fields()),
    );
    lemma_more_children(
        so_far,
        Table::RelationTags,
        spans,
        relation_tag_count(relations),
        max_params,
    );
}

/// Adds the statements that insert the rows that each span of entities
/// gives for a table, span after span; `counts` holds how many rows each gives.
fn push_child_plan(
    plan: &mut Vec<Batch>,
    table: Table,
    spans: &Vec<Span>,
    counts: &Vec<usize>,
    size: usize,
    Ghost(count): Ghost<spec_fn(Span) -> nat>,
)
    requires
        size > 0,
        counts@.len() == spans@.len(),
        forall|i: int| 0 <= i < spans@.len() ==> counts@[i] == count(#[trigger] spans@[i]),
    ensures
        final(plan)@ == old(plan)@ + child_plan(table, spans@, count, size as nat),
{
    let mut i: usize = 0;
    assert(plan@ =~= old(plan)@ + child_plan(table, spans@.take(0), count, size as nat));
    while i < spans.len()
        invariant
            i <= spans.len(),
            size > 0,
            counts@.len() == spans@.len(),
            forall|k: int| 0 <= k < spans@.len() ==> counts@[k] == count(#[trigger] spans@[k]),
            plan@ == old(plan)@ + child_plan(table, spans@.take(i as int), count, size as nat),
        decreases spans.len() - i,
    {
        push_child_batches(plan, table, spans[i], counts[i], size);
        proof {
            assert(spans@.take(i + 1).drop_last() =~= spans@.take(i as int));
            assert(plan@ =~= old(plan)@ + child_plan(
                table,
                spans@.take(i + 1),
                count,
                size as nat,
            ));
        }
        i += 1;
    }
    assert(spans@.take(i as int) =~= spans@);
}

/// Plans the statements that load nodes and their tags.
pub fn node_batches(nodes: &[Node], max_params: usize) -> (plan: Vec<Batch>)
    requires
        max_params >= 8,
    ensures
        plan@ == node_plan(views(nodes@), max_params as nat),
        within_ceiling(plan@, max_params as nat),
        parents_first(plan@),
        within_rows(plan@, nodes@.len(), node_rows(views(nodes@))),
        only_tables(plan@, Table::Node, Table::NodeTags, Table::NodeTags),
        countable(
            chunk_spans(
                0,
                nodes@.len(),
                rows_per_batch(max_params as nat, Table::Node.fields()),
            ),
            node_tag_count(views(nodes@)),
        ),
{
    let size = batch_size(max_params, Table::Node.field_count());
    let tag_size = batch_size(max_params, Table::NodeTags.field_count());
    proof {
        lemma_sizes_positive(max_params as nat, Table::Node.fields());
        lemma_sizes_positive(max_params as nat, Table::NodeTags.fields());
        lemma_chunk_spans(0, nodes.len() as nat, size as nat);
    }
    let spans = chunk(nodes.len(), size);
    let ghost all = views(nodes@);
    let mut tag_counts: Vec<usize> = Vec::new();
    let mut i: usize = 0;
    while i < spans.len()
        invariant
            i <= spans.len(),
            all == views(nodes@),
            tag_counts@.len() == i,
            forall|k: int|
                0 <= k < spans@.len() ==> (#[trigger] spans@[k]).start < spans@[k].end
                    <= nodes@.len(),
            forall|k: int| 0 <= k < i ==> tag_counts@[k] == node_tag_count(all)(#[trigger] spans@[k]),
        decreases spans.len() - i,
    {
        let part = slice_subrange(nodes, spans[i].start, spans[i].end);
        let tags = Node::extract_node_tags(part);
        proof {
            assert(views(part@) =~= spans@[i as int].of(all));
            assert(views(tags@).len() == tags@.len());
        }
        tag_counts.push(tags.len());
        i += 1;
    }
    proof {
        lemma_node_plan_lawful(all, max_params as nat);
    }
    let mut plan: Vec<Batch> = Vec::new();
    push_parent_batches(&mut plan, Table::Node, &spans);
    push_child_plan(
        &mut plan,
        Table::NodeTags,
        &spans,
        &tag_counts,
        tag_size,
        Ghost(node_tag_count(all)),
    );
    plan
}

/// Plans the statements that load ways, their node references and their tags.
pub fn way_batches(ways: &[Way], max_params: usize) -> (plan: Vec<Batch>)
    requires
        max_params >= 6,
    ensures
        plan@ == way_plan(views(ways@), max_params as nat),
        within_ceiling(plan@, max_params as nat),
        parents_first(plan@),
        within_rows(plan@, ways@.len(), way_rows(views(ways@))),
        only_tables(plan@, Table::Way, Table::WayNodes, Table::WayTags),
        countable(
            chunk_spans(0, ways@.len(), rows_per_batch(max_params as nat, Table::Way.fields())),
            way_node_count(views(ways@)),
        ),
        countable(
            chunk_spans(0, ways@.len(), rows_per_batch(max_params as nat, Table::Way.fields())),
            way_tag_count(views(ways@)),
        ),
{
    let size = batch_size(max_params, Table::Way.field_count());
    let node_size = batch_size(max_params, Table::WayNodes.field_count());
    let tag_size = batch_size(max_params, Table::WayTags.field_count());
    proof {
        lemma_sizes_positive(max_params as nat, Table::Way.fields());
        lemma_sizes_positive(max_params as nat, Table::WayNodes.fields());
        lemma_sizes_positive(max_params as nat, Table::WayTags.fields());
        lemma_chunk_spans(0, ways.len() as nat, size as nat);
    }
    let spans = chunk(ways.len(), size);
    let ghost all = views(ways@);
    let mut node_counts: Vec<usize> = Vec::new();
    let mut tag_counts: Vec<usize> = Vec::new();
    let mut i: usize = 0;
    while i < spans.len()
        invariant
            i <= spans.len(),
            all == views(ways@),
            node_counts@.len() == i,
            tag_counts@.len() == i,
            forall|k: int|
                0 <= k < spans@.len() ==> (#[trigger] spans@[k]).start < spans@[k].end
                    <= ways@.len(),
            forall|k: int| 0 <= k < i ==> node_counts@[k] == way_node_count(all)(#[trigger] spans@[k]),
            forall|k: int| 0 <= k < i ==> tag_counts@[k] == way_tag_count(all)(#[trigger] spans@[k]),
        decreases spans.len() - i,
    {
        let part = slice_subrange(ways, spans[i].start, spans[i].end);
        let node_refs = Way::extract_way_node_refs(part);
        let tags = Way::extract_way_tags(part);
        proof {
            assert(views(part@) =~= spans@[i as int].of(all));
            assert(views(tags@).len() == tags@.len());
        }
        node_counts.push(node_refs.len());
        tag_counts.push(tags.len());
        i += 1;
    }
    proof {
        lemma_way_plan_lawful(all, max_params as nat);
    }
    let mut plan: Vec<Batch> = Vec::new();
    push_parent_batches(&mut plan, Table::Way, &spans);
    push_child_plan(
        &mut plan,
        Table::WayNodes,
        &spans,
        &node_counts,
        node_size,
        Ghost(way_node_count(all)),
    );
    push_child_plan(&mut plan, Table::WayTags, &spans, &tag_counts, tag_size, Ghost(way_tag_count(all)));
    plan
}

/// Plans the statements that load relations, their members and their tags.
pub fn relation_batches(relations: &[Relation], max_params: usize) -> (plan: Vec<Batch>)
    requires
        max_params >= 6,
    ensures
        plan@ == relation_plan(views(relations@), max_params as nat),
        within_ceiling(plan@, max_params as nat),
        parents_first(plan@),
        within_rows(plan@, relations@.len(), relation_rows(views(relations@))),
        only_tables(plan@, Table::Relation, Table::Member, Table::RelationTags),
        countable(
            chunk_spans(
                0,
                relations@.len(),
                rows_per_batch(max_params as nat, Table::Relation.fields()),
            ),
            member_count(views(relations@)),
        ),
        countable(
            chunk_spans(
                0,
                relations@.len(),
                rows_per_batch(max_params as nat, Table::Relation.fields()),
            ),
            relation_tag_count(views(relations@)),
        ),
{
    let size = batch_size(max_params, Table::Relation.field_count());
    let member_size = batch_size(max_params, Table::Member.field_count());
    let tag_size = batch_size(max_params, Table::RelationTags.field_count());
    proof {
        lemma_sizes_positive(max_params as nat, Table::Relation.fields());
        lemma_sizes_positive(max_params as nat, Table::Member.fields());
        lemma_sizes_positive(max_params as nat, Table::RelationTags.fields());
        lemma_chunk_spans(0, relations.len() as nat, size as nat);
    }
    let spans = chunk(relations.len(), size);
    let ghost all = views(relations@);
    let mut member_counts: Vec<usize> = Vec::new();
    let mut tag_counts: Vec<usize> = Vec::new();
    let mut i: usize = 0;
    while i < spans.len()
        invariant
            i <= spans.len(),
            all == views(relations@),
            member_counts@.len() == i,
            tag_counts@.len() == i,
            forall|k: int|
                0 <= k < spans@.len() ==> (#[trigger] spans@[k]).start < spans@[k].end
                    <= relations@.len(),
            forall|k: int|
                0 <= k < i ==> member_counts@[k] == member_count(all)(#[trigger] spans@[k]),
            forall|k: int|
                0 <= k < i ==> tag_counts@[k] == relation_tag_count(all)(#[trigger] spans@[k]),
        decreases spans.len() - i,
    {
        let part = slice_subrange(relations, spans[i].start, spans[i].end);
        let members = Relation::extract_members(part);
        let tags = Relation::extract_relation_tags(part);
        proof {
            assert(views(part@) =~= spans@[i as int].of(all));
            assert(views(tags@).len() == tags@.len());
            assert(views(members@).len() == members@.len());
        }
        member_counts.push(members.len());
        tag_counts.push(tags.len());
        i += 1;
    }
    proof {
        lemma_relation_plan_lawful(all, max_params as nat);
    }
    let mut plan: Vec<Batch> = Vec::new();
    push_parent_batches(&mut plan, Table::Relation, &spans);
    push_child_plan(
        &mut plan,
        Table::Member,
        &spans,
        &member_counts,
        member_size,
        Ghost(member_count(all)),
    );
    push_child_plan(
        &mut plan,
        Table::RelationTags,
        &spans,
        &tag_counts,
        tag_size,
        Ghost(relation_tag_count(all)),
    );
    plan
}

/// The statements that load a whole document, in the order in which they
/// are issued: those for its nodes, then those for its ways, then those for
/// its relations.
pub open spec fn load_plan(data: OsmDataView, max_params: nat) -> Seq<Batch> {
    node_plan(data.nodes, max_params) + way_plan(data.ways, max_params) + relation_plan(
        data.relations,
        max_params,
    )
}

/// Three loads, one after the other, stay under the ceiling and leave no
/// statement before one for a table that its rows refer to, where each of
/// them does and they are for nodes, for ways and for relations in turn.
pub proof fn lemma_loads_in_turn(
    nodes: Seq<Batch>,
    ways: Seq<Batch>,
    relations: Seq<Batch>,
    max_params: nat,
)
    requires
        within_ceiling(nodes, max_params),
        within_ceiling(ways, max_params),
        within_ceiling(relations, max_params),
        parents_first(nodes),
        parents_first(ways),
        parents_first(relations),
        only_tables(nodes, Table::Node, Table::NodeTags, Table::NodeTags),
        only_tables(ways, Table::Way, Table::WayNodes, Table::WayTags),
        only_tables(relations, Table::Relation, Table::Member, Table::RelationTags),
    ensures
        within_ceiling(nodes + ways + relations, max_params),
        references_follow(nodes + ways + relations),
{
    let plan = nodes + ways + relations;
    assert forall|i: int| 0 <= i < plan.len() implies 0 < (#[trigger] plan[i]).rows.size()
        <= max_params / plan[i].table.fields() && plan[i].rows.size() <= MAX_BATCH_ROWS by {
        if i < nodes.len() {
            assert(plan[i] == nodes[i]);
        } else if i < nodes.len() + ways.len() {
            assert(plan[i] == ways[i - nodes.len()]);
        } else {
            assert(plan[i] == relations[i - nodes.len() - ways.len()]);
        }
    }
    assert forall|i: int, j: int| 0 <= i < j < plan.len() implies !(#[trigger] plan[i]).table.refers_to(
        (#[trigger] plan[j]).table,
    ) by {
        if j < nodes.len() {
            assert(plan[i] == nodes[i] && plan[j] == nodes[j]);
        } else if j < nodes.len() + ways.len() {
            assert(plan[j] == ways[j - nodes.len()]);
            if i < nodes.len() {
                assert(plan[i] == nodes[i]);
            } else {
                assert(plan[i] == ways[i - nodes.len()]);
            }
        } else {
            assert(plan[j] == relations[j - nodes.len() - ways.len()]);
            if i < nodes.len() {
                assert(plan[i] == nodes[i]);
            } else if i < nodes.len() + ways.len() {
                assert(plan[i] == ways[i - nodes.len()]);
            } else {
                assert(plan[i] == relations[i - nodes.len() - ways.len()]);
            }
        }
    }
}

/// Plans the statements that load a whole document: its nodes, then its
/// ways, then its relations, each with the rows that refer to them.
pub fn load_batches(data: &OsmData, max_params: usize) -> (plan: Vec<Batch>)
    requires
        max_params >= 8,
    ensures
        plan@ == load_plan(data@, max_params as nat),
        within_ceiling(plan@, max_params as nat),
        references_follow(plan@),
        countable(
            chunk_spans(
                0,
                data@.nodes.len(),
                rows_per_batch(max_params as nat, Table::Node.fields()),
            ),
            node_tag_count(data@.nodes),
        ),
        countable(
            chunk_spans(
                0,
                data@.ways.len(),
                rows_per_batch(max_params as nat, Table::Way.fields()),
            ),
            way_node_count(data@.ways),
        ),
        countable(
            chunk_spans(
                0,
                data@.ways.len(),
                rows_per_batch(max_params as nat, Table::Way.fields()),
            ),
            way_tag_count(data@.ways),
        ),
        countable(
            chunk_spans(
                0,
                data@.relations.len(),
                rows_per_batch(max_params as nat, Table::Relation.fields()),
            ),
            member_count(data@.relations),
        ),
        countable(
            chunk_spans(
                0,
                data@.relations.len(),
                rows_per_batch(max_params as nat, Table::Relation.fields()),
            ),
            relation_tag_count(data@.relations),
        ),
{
    let mut plan = node_batches(data.nodes.as_slice(), max_params);
    let mut ways = way_batches(data.ways.as_slice(), max_params);
    let mut relations = relation_batches(data.relations.as_slice(), max_params);
    proof {
        lemma_loads_in_turn(plan@, ways@, relations@, max_params as nat);
    }
    plan.append(&mut ways);
    plan.append(&mut relations);
    plan
}

/// What a load does next.
#[derive(Debug, Clone, Copy, PartialEq, Eq, Structural)]
pub enum Step {
    /// Send the statement at this place of the plan.
    Run(usize),
    /// Every statement ran: the load is complete.
    Done,
    /// A statement failed: the load ends with that failure, and the
    /// statements after it are not sent. Those that ran before stay as
    /// they are.
    Failed,
}

/// What a load does next, after `ran` statements of a plan of `plan_len`
/// ran and the last of them, if there is one, ended as `ok` says.
/// Statements are sent one at a time, in the order of the plan, each after
/// the one before it has ended. The first failure ends the load.
pub fn next_step(plan_len: usize, ran: usize, ok: bool) -> (step: Step)
    requires
        ran <= plan_len,
    ensures
        step == (if !ok {
            Step::Failed
        } else if ran < plan_len {
            Step::Run(ran)
        } else {
            Step::Done
        }),
{
    if !ok {
        Step::Failed
    } else if ran < plan_len {
        Step::Run(ran)
    } else {
        Step::Done
    }
}

} // verus!
