use vstd::prelude::*;
use crate::batch::Batch;
use crate::batch::Table;
use crate::batch::child_batch;
use crate::batch::child_batches;
use crate::batch::child_plan;
use crate::batch::countable;
use crate::batch::parent_batch;
use crate::batch::parent_plan;
use crate::batch::row_count;
use crate::chunk::chunk_spans;
use crate::chunk::lemma_chunk_spans;
use crate::chunk::lemma_spans_cover;
use crate::chunk::span_of;
use crate::span::Span;
use crate::utils::flat_rows;
use crate::utils::lemma_flat_rows_concat;
use crate::utils::lemma_flat_rows_one;

verus! {

/// The function that gives the rows of the entities that a span covers.
pub open spec fn rows_in_span<T, R>(items: Seq<T>, rows: spec_fn(T) -> Seq<R>) -> spec_fn(Span) -> Seq<
    R,
> {
    |span: Span| flat_rows(span.of(items), rows)
}

/// The function that gives each entity as its own row.
pub open spec fn own_row<T>() -> spec_fn(T) -> Seq<T> {
    |item: T| seq![item]
}

/// The function that gives the rows that a statement holds: of the rows
/// that the entities of its span give, those that its span of rows covers.
pub open spec fn batch_rows<T, R>(items: Seq<T>, rows: spec_fn(T) -> Seq<R>) -> spec_fn(Batch) -> Seq<
    R,
> {
    |batch: Batch| batch.rows.of(flat_rows(batch.parents.of(items), rows))
}

/// The rows of the entities, taken span by span, are the rows of the
/// entities.
pub proof fn lemma_rows_by_span<T, R>(
    items: Seq<T>,
    rows: spec_fn(T) -> Seq<R>,
    from: nat,
    size: nat,
)
    requires
        size > 0,
        from <= items.len() <= usize::MAX,
    ensures
        flat_rows(chunk_spans(from, items.len(), size), rows_in_span(items, rows)) == flat_rows(
            items.skip(from as int),
            rows,
        ),
    decreases items.len() - from,
{
    let len = items.len();
    if from < len {
        let end = if len - from <= size {
            len
        } else {
            (from + size) as nat
        };
        let first = Span { start: from as usize, end: end as usize };
        let rest = chunk_spans(end, len, size);
        lemma_rows_by_span(items, rows, end, size);
        lemma_flat_rows_concat(seq![first], rest, rows_in_span(items, rows));
        lemma_flat_rows_one(first, rows_in_span(items, rows));
        lemma_flat_rows_concat(
            items.subrange(from as int, end as int),
            items.skip(end as int),
            rows,
        );
        assert(items.subrange(from as int, end as int) + items.skip(end as int) =~= items.skip(
            from as int,
        ));
    } else {
        assert(chunk_spans(from, len, size).map_values(rows_in_span(items, rows)) =~= Seq::<
            Seq<R>,
        >::empty());
        assert(items.skip(from as int).map_values(rows) =~= Seq::<Seq<R>>::empty());
    }
}

/// The statements for the rows of one span of entities hold those rows,
/// each once, in order.
pub proof fn lemma_child_batches_cover<T, R>(
    table: Table,
    parents: Span,
    items: Seq<T>,
    rows: spec_fn(T) -> Seq<R>,
    size: nat,
)
    requires
        size > 0,
        row_count(items, rows)(parents) <= usize::MAX,
    ensures
        flat_rows(
            child_batches(table, parents, row_count(items, rows)(parents), size),
            batch_rows(items, rows),
        ) == flat_rows(parents.of(items), rows),
{
    let all = flat_rows(parents.of(items), rows);
    let spans = chunk_spans(0, all.len(), size);
    lemma_spans_cover(all, 0, size);
    assert(spans.map_values(child_batch(table, parents)).map_values(batch_rows(items, rows))
        =~= spans.map_values(span_of(all)));
    assert(all.skip(0) =~= all);
}

/// The statements for the rows of spans of entities hold the rows of the
/// first span, then those of the second, and so on.
pub proof fn lemma_child_plan_cover<T, R>(
    table: Table,
    spans: Seq<Span>,
    items: Seq<T>,
    rows: spec_fn(T) -> Seq<R>,
    size: nat,
)
    requires
        size > 0,
        countable(spans, row_count(items, rows)),
    ensures
        flat_rows(
            child_plan(table, spans, row_count(items, rows), size),
            batch_rows(items, rows),
        ) == flat_rows(spans, rows_in_span(items, rows)),
    decreases spans.len(),
{
    let count = row_count(items, rows);
    if spans.len() == 0 {
        assert(child_plan(table, spans, count, size).map_values(batch_rows(items, rows))
            =~= Seq::<Seq<R>>::empty());
        assert(spans.map_values(rows_in_span(items, rows)) =~= Seq::<Seq<R>>::empty());
    } else {
        let before = spans.drop_last();
        let last = spans.last();
        assert forall|k: int| 0 <= k < before.len() implies count(#[trigger] before[k])
            <= usize::MAX by {
            assert(before[k] == spans[k]);
        }
        lemma_child_plan_cover(table, before, items, rows, size);
        lemma_child_batches_cover(table, last, items, rows, size);
        lemma_flat_rows_concat(
            child_plan(table, before, count, size),
            child_batches(table, last, count(last), size),
            batch_rows(items, rows),
        );
        lemma_flat_rows_concat(before, seq![last], rows_in_span(items, rows));
        lemma_flat_rows_one(last, rows_in_span(items, rows));
        assert(before + seq![last] =~= spans);
    }
}

/// The statements that insert rows that refer to entities hold, between
/// them, every row that the entities give for the table, each once and in
/// the order of the entities.
pub proof fn lemma_children_loaded<T, R>(
    table: Table,
    items: Seq<T>,
    rows: spec_fn(T) -> Seq<R>,
    parent_size: nat,
    size: nat,
)
    requires
        parent_size > 0,
        size > 0,
        items.len() <= usize::MAX,
        countable(chunk_spans(0, items.len(), parent_size), row_count(items, rows)),
    ensures
        flat_rows(
            child_plan(
                table,
                chunk_spans(0, items.len(), parent_size),
                row_count(items, rows),
                size,
            ),
            batch_rows(items, rows),
        ) == flat_rows(items, rows),
{
    let spans = chunk_spans(0, items.len(), parent_size);
    lemma_child_plan_cover(table, spans, items, rows, size);
    lemma_rows_by_span(items, rows, 0, parent_size);
    assert(items.skip(0) =~= items);
}

/// Entities taken each as its own row are the entities.
pub proof fn lemma_own_rows<T>(items: Seq<T>)
    ensures
        flat_rows(items, own_row()) == items,
    decreases items.len(),
{
    if items.len() == 0 {
        assert(items.map_values(own_row::<T>()) =~= Seq::<Seq<T>>::empty());
        assert(flat_rows(items, own_row::<T>()) =~= items);
    } else {
        lemma_own_rows(items.drop_last());
        lemma_flat_rows_concat(items.drop_last(), seq![items.last()], own_row());
        lemma_flat_rows_one(items.last(), own_row());
        assert(items.drop_last() + seq![items.last()] =~= items);
    }
}

/// The statements that insert entities hold, between them, every entity,
/// each once and in order.
pub proof fn lemma_parents_loaded<T>(table: Table, items: Seq<T>, size: nat)
    requires
        size > 0,
        items.len() <= usize::MAX,
    ensures
        flat_rows(parent_plan(table, items.len(), size), batch_rows(items, own_row())) == items,
{
    let spans = chunk_spans(0, items.len(), size);
    lemma_chunk_spans(0, items.len(), size);
    lemma_spans_cover(items, 0, size);
    assert(spans.map_values(parent_batch(table)).map_values(batch_rows(items, own_row::<T>()))
        =~= spans.map_values(span_of(items))) by {
        assert forall|i: int| 0 <= i < spans.len() implies batch_rows(items, own_row::<T>())(
            parent_batch(table)(spans[i]),
        ) == span_of(items)(spans[i]) by {
            let span = spans[i];
            lemma_own_rows(span.of(items));
            assert(span.of(items).subrange(0, span.end - span.start) =~= span.of(items));
        }
    }
    assert(items.skip(0) =~= items);
}

} // verus!
