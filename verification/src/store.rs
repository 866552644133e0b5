use vstd::prelude::*;
use crate::coverage::batch_rows;
use crate::batch::child_plan;
use crate::chunk::chunk_spans;
use crate::batch::countable;
use crate::coverage::lemma_children_loaded;
use crate::coverage::lemma_parents_loaded;
use crate::coverage::own_row;
use crate::batch::parent_plan;
use crate::batch::row_count;
use crate::batch::Batch;
use crate::batch::Table;
use crate::utils::flat_rows;

verus! {

/// A table of the store as the loader takes it to be: the rows that it
/// holds, each under its primary key. The statements of a load insert a row
/// unless the table holds one under the same key already.
pub open spec fn insert_or_ignore<K, R>(table: Map<K, R>, key: spec_fn(R) -> K, row: R) -> Map<K, R> {
    if table.contains_key(key(row)) {
        table
    } else {
        table.insert(key(row), row)
    }
}

/// The table after a statement that inserts the rows, first to last.
pub open spec fn insert_rows<K, R>(table: Map<K, R>, key: spec_fn(R) -> K, rows: Seq<R>) -> Map<K, R>
    decreases rows.len(),
{
    if rows.len() == 0 {
        table
    } else {
        insert_rows(insert_or_ignore(table, key, rows[0]), key, rows.drop_first())
    }
}

/// The table after the statements ran one after the other.
pub open spec fn run<K, R>(table: Map<K, R>, key: spec_fn(R) -> K, statements: Seq<Seq<R>>) -> Map<
    K,
    R,
>
    decreases statements.len(),
{
    if statements.len() == 0 {
        table
    } else {
        run(insert_rows(table, key, statements[0]), key, statements.drop_first())
    }
}

/// Inserting two runs of rows one after the other is inserting them all.
pub proof fn lemma_insert_rows_concat<K, R>(
    table: Map<K, R>,
    key: spec_fn(R) -> K,
    first: Seq<R>,
    second: Seq<R>,
)
    ensures
        insert_rows(table, key, first + second) == insert_rows(
            insert_rows(table, key, first),
            key,
            second,
        ),
    decreases first.len(),
{
    if first.len() == 0 {
        assert(first + second =~= second);
    } else {
        assert((first + second).drop_first() =~= first.drop_first() + second);
        lemma_insert_rows_concat(
            insert_or_ignore(table, key, first[0]),
            key,
            first.drop_first(),
            second,
        );
    }
}

/// How rows are cut into statements does not change what the table holds
/// in the end: it holds what one statement with all the rows would leave.
pub proof fn lemma_run_is_insert<K, R>(table: Map<K, R>, key: spec_fn(R) -> K, statements: Seq<Seq<R>>)
    ensures
        run(table, key, statements) == insert_rows(table, key, statements.flatten()),
    decreases statements.len(),
{
    if statements.len() > 0 {
        lemma_run_is_insert(insert_rows(table, key, statements[0]), key, statements.drop_first());
        lemma_insert_rows_concat(table, key, statements[0], statements.drop_first().flatten());
    }
}

/// Inserting rows keeps what the table held, and leaves a row under the key
/// of each row that was inserted.
pub proof fn lemma_insert_rows_holds<K, R>(table: Map<K, R>, key: spec_fn(R) -> K, rows: Seq<R>)
    ensures
        forall|k: K| #[trigger]
            table.contains_key(k) ==> insert_rows(table, key, rows).contains_key(k) && insert_rows(
                table,
                key,
                rows,
            )[k] == table[k],
        forall|i: int|
            0 <= i < rows.len() ==> insert_rows(table, key, rows).contains_key(
                key(#[trigger] rows[i]),
            ),
    decreases rows.len(),
{
    if rows.len() > 0 {
        let next = insert_or_ignore(table, key, rows[0]);
        lemma_insert_rows_holds(next, key, rows.drop_first());
        assert forall|k: K| #[trigger] table.contains_key(k) implies insert_rows(
            table,
            key,
            rows,
        ).contains_key(k) && insert_rows(table, key, rows)[k] == table[k] by {
            assert(next.contains_key(k) && next[k] == table[k]);
        }
        assert forall|i: int| 0 <= i < rows.len() implies insert_rows(table, key, rows).contains_key(
            key(#[trigger] rows[i]),
        ) by {
            if i > 0 {
                assert(rows[i] == rows.drop_first()[i - 1]);
            } else {
                assert(next.contains_key(key(rows[0])));
            }
        }
    }
}

/// Inserting rows whose keys the table holds already changes nothing.
pub proof fn lemma_insert_known_rows<K, R>(table: Map<K, R>, key: spec_fn(R) -> K, rows: Seq<R>)
    requires
        forall|i: int| 0 <= i < rows.len() ==> table.contains_key(key(#[trigger] rows[i])),
    ensures
        insert_rows(table, key, rows) == table,
    decreases rows.len(),
{
    if rows.len() > 0 {
        assert forall|i: int| 0 <= i < rows.drop_first().len() implies table.contains_key(
            key(#[trigger] rows.drop_first()[i]),
        ) by {
            assert(rows.drop_first()[i] == rows[i + 1]);
        }
        lemma_insert_known_rows(table, key, rows.drop_first());
    }
}

/// Running the same statements a second time leaves the table as the first
/// run left it: no row is added, none is changed.
pub proof fn lemma_second_run_changes_nothing<K, R>(
    table: Map<K, R>,
    key: spec_fn(R) -> K,
    statements: Seq<Seq<R>>,
)
    ensures
        run(run(table, key, statements), key, statements) == run(table, key, statements),
{
    let rows = statements.flatten();
    let once = insert_rows(table, key, rows);
    lemma_run_is_insert(table, key, statements);
    lemma_run_is_insert(once, key, statements);
    lemma_insert_rows_holds(table, key, rows);
    lemma_insert_known_rows(once, key, rows);
}

/// The statements of a plan, each as the rows that it holds.
pub open spec fn statements_of<T, R>(plan: Seq<Batch>, items: Seq<T>, rows: spec_fn(T) -> Seq<R>) -> Seq<
    Seq<R>,
> {
    plan.map_values(batch_rows(items, rows))
}

/// After the statements that insert entities ran, their table holds what
/// inserting the entities one by one would leave, however the ceiling cut
/// them into statements.
pub proof fn lemma_parents_stored<K, T>(
    stored: Map<K, T>,
    key: spec_fn(T) -> K,
    table: Table,
    items: Seq<T>,
    size: nat,
)
    requires
        size > 0,
        items.len() <= usize::MAX,
    ensures
        run(stored, key, statements_of(parent_plan(table, items.len(), size), items, own_row()))
            == insert_rows(stored, key, items),
{
    lemma_run_is_insert(
        stored,
        key,
        statements_of(parent_plan(table, items.len(), size), items, own_row()),
    );
    lemma_parents_loaded(table, items, size);
}

/// After the statements that insert rows that refer to entities ran, their
/// table holds what inserting those rows one by one, in the order of the
/// entities, would leave, however the ceiling cut them into statements.
pub proof fn lemma_children_stored<K, T, R>(
    stored: Map<K, R>,
    key: spec_fn(R) -> K,
    table: Table,
    items: Seq<T>,
    rows: spec_fn(T) -> Seq<R>,
    parent_size: nat,
    size: nat,
)
    requires
        parent_size > 0,
        size > 0,
        items.len() <= usize::MAX,
        countable(chunk_spans(0, items.len(), parent_size), row_count(items, rows)),
    ensures
        run(
            stored,
            key,
            statements_of(
                child_plan(
                    table,
                    chunk_spans(0, items.len(), parent_size),
                    row_count(items, rows),
                    size,
                ),
                items,
                rows,
            ),
        ) == insert_rows(stored, key, flat_rows(items, rows)),
{
    let plan = child_plan(
        table,
        chunk_spans(0, items.len(), parent_size),
        row_count(items, rows),
        size,
    );
    lemma_run_is_insert(stored, key, statements_of(plan, items, rows));
    lemma_children_loaded(table, items, rows, parent_size, size);
}

} // verus!
