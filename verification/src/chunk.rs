use vstd::prelude::*;
use crate::span::Span;
use crate::utils::flat_rows;
use crate::utils::lemma_flat_rows_concat;
use crate::utils::lemma_flat_rows_one;

verus! {

/// The spans of at most `size` positions that cover the positions from
/// `from` to `len` in order: each but the last has `size` positions.
pub open spec fn chunk_spans(from: nat, len: nat, size: nat) -> Seq<Span>
    decreases len - from,
{
    if from >= len || size == 0 {
        Seq::empty()
    } else {
        let end = if len - from <= size {
            len
        } else {
            from + size
        };
        seq![Span { start: from as usize, end: end as usize }] + chunk_spans(end, len, size)
    }
}

/// Cuts `len` positions into spans of at most `size`.
pub fn chunk(len: usize, size: usize) -> (spans: Vec<Span>)
    requires
        size > 0,
    ensures
        spans@ == chunk_spans(0, len as nat, size as nat),
{
    let mut spans: Vec<Span> = Vec::new();
    let mut from: usize = 0;
    while from < len
        invariant
            from <= len,
            size > 0,
            chunk_spans(0, len as nat, size as nat) == spans@ + chunk_spans(
                from as nat,
                len as nat,
                size as nat,
            ),
        decreases len - from,
    {
        let end = if len - from <= size {
            len
        } else {
            from + size
        };
        let ghost before = spans@;
        spans.push(Span { start: from, end });
        proof {
            assert(before + (seq![Span { start: from, end }] + chunk_spans(
                end as nat,
                len as nat,
                size as nat,
            )) =~= spans@ + chunk_spans(end as nat, len as nat, size as nat));
        }
        from = end;
    }
    assert(spans@ + chunk_spans(from as nat, len as nat, size as nat) =~= spans@);
    spans
}

/// What holds of the spans into which positions are cut: each lies within
/// the positions, holds at least one and at most `size`, and starts where
/// the one before it ends; the first starts at `from` and the last ends at `len`.
pub proof fn lemma_chunk_spans(from: nat, len: nat, size: nat)
    requires
        size > 0,
        from <= len <= usize::MAX,
    ensures
        forall|i: int|
            0 <= i < chunk_spans(from, len, size).len() ==> {
                let span = #[trigger] chunk_spans(from, len, size)[i];
                from <= span.start < span.end <= len && span.end - span.start <= size
            },
        forall|i: int|
            0 <= i < chunk_spans(from, len, size).len() - 1 ==> (#[trigger] chunk_spans(
                from,
                len,
                size,
            )[i]).end == chunk_spans(from, len, size)[i + 1].start,
        from < len ==> chunk_spans(from, len, size).len() > 0 && chunk_spans(from, len, size)[0].start
            == from && chunk_spans(from, len, size).last().end == len,
        from == len ==> chunk_spans(from, len, size).len() == 0,
    decreases len - from,
{
    if from < len {
        let end = if len - from <= size {
            len
        } else {
            (from + size) as nat
        };
        let first = Span { start: from as usize, end: end as usize };
        let rest = chunk_spans(end, len, size);
        let all = chunk_spans(from, len, size);
        lemma_chunk_spans(end, len, size);
        assert(all =~= seq![first] + rest);
        assert forall|i: int| 0 <= i < all.len() implies {
            let span = #[trigger] all[i];
            from <= span.start < span.end <= len && span.end - span.start <= size
        } by {
            if i > 0 {
                assert(all[i] == rest[i - 1]);
            }
        }
        assert forall|i: int| 0 <= i < all.len() - 1 implies (#[trigger] all[i]).end == all[i
            + 1].start by {
            assert(all[i + 1] == rest[i]);
            if i > 0 {
                assert(all[i] == rest[i - 1]);
            }
        }
        if rest.len() > 0 {
            assert(all.last() == rest.last());
        }
    }
}

/// How many spans positions are cut into: as many as hold them all, the last
/// one perhaps not full.
pub proof fn lemma_chunk_count(from: nat, len: nat, size: nat)
    requires
        size > 0,
        from <= len,
    ensures
        chunk_spans(from, len, size).len() == (len - from + size - 1) / (size as int),
    decreases len - from,
{
    let n = len - from;
    if from < len {
        if n <= size {
            assert(chunk_spans(len, len, size).len() == 0);
            assert((n + size - 1) / (size as int) == 1) by (nonlinear_arith)
                requires
                    0 < n <= size,
            ;
        } else {
            lemma_chunk_count((from + size) as nat, len, size);
            assert((n + size - 1) / (size as int) == (n - size + size - 1) / (size as int) + 1)
                by (nonlinear_arith)
                requires
                    size > 0,
            ;
        }
    } else {
        assert((size - 1) / (size as int) == 0) by (nonlinear_arith)
            requires
                size > 0,
        ;
    }
}

/// The spans into which `len` positions are cut lie within them.
pub proof fn lemma_chunk_spans_fit(len: nat, size: nat)
    requires
        size > 0,
        len <= usize::MAX,
    ensures
        forall|k: int|
            0 <= k < chunk_spans(0, len, size).len() ==> (#[trigger] chunk_spans(
                0,
                len,
                size,
            )[k]).fits(len),
{
    lemma_chunk_spans(0, len, size);
}

/// The function that gives the items of a sequence that a span covers.
pub open spec fn span_of<T>(items: Seq<T>) -> spec_fn(Span) -> Seq<T> {
    |span: Span| span.of(items)
}

/// The spans into which positions are cut cover the items at those
/// positions, each once, in order.
pub proof fn lemma_spans_cover<T>(items: Seq<T>, from: nat, size: nat)
    requires
        size > 0,
        from <= items.len() <= usize::MAX,
    ensures
        flat_rows(chunk_spans(from, items.len(), size), span_of(items)) == items.skip(from as int),
    decreases items.len() - from,
{
    let len = items.len();
    if from < len {
        let end = if len - from <= size {
            len
        } else {
            (from + size) as nat
        };
        let first = Span { start: from as usize, end: end as usize };
        let rest = chunk_spans(end, len, size);
        lemma_spans_cover(items, end, size);
        lemma_flat_rows_concat(seq![first], rest, span_of(items));
        lemma_flat_rows_one(first, span_of(items));
        assert(items.subrange(from as int, end as int) + items.skip(end as int) =~= items.skip(
            from as int,
        ));
    } else {
        assert(chunk_spans(from, len, size).map_values(span_of(items)) =~= Seq::<Seq<T>>::empty());
        assert(items.skip(from as int) =~= Seq::<T>::empty());
    }
}

} // verus!
