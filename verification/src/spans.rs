//! Runs of consecutive items, each given by its first item and its length.

use vstd::prelude::*;

verus! {

/// The spans of machine integers as pairs of mathematical ones.
pub open spec fn span_ints(spans: Seq<(usize, usize)>) -> Seq<(int, int)> {
    spans.map_values(|span: (usize, usize)| (span.0 as int, span.1 as int))
}

/// The item after the last one of a span.
pub open spec fn span_end(span: (int, int)) -> int {
    span.0 + span.1
}

/// The item at which span `i` has to begin, if there is no gap before it.
pub open spec fn begin_of(spans: Seq<(int, int)>, i: int) -> int {
    if i == 0 {
        0
    } else {
        span_end(spans[i - 1])
    }
}

/// Whether the spans are the items from 0 up to `total` cut into runs: none is empty, the first
/// begins at 0, each begins where the one before it ends, and the last ends at `total`.
pub open spec fn is_partition(spans: Seq<(int, int)>, total: int) -> bool {
    &&& forall|i: int|
        #![trigger spans[i]]
        0 <= i < spans.len() ==> spans[i].0 == begin_of(spans, i) && spans[i].1 > 0
    &&& total == begin_of(spans, spans.len() as int)
}

/// The number of items in all spans together.
pub open spec fn total_length(spans: Seq<(int, int)>) -> int
    decreases spans.len(),
{
    if spans.len() == 0 {
        0
    } else {
        total_length(spans.drop_last()) + spans.last().1
    }
}

/// How far the cuts reach.
pub open spec fn reach(cuts: Seq<int>) -> int
    decreases cuts.len(),
{
    if cuts.len() == 0 {
        0
    } else if cuts.last() > reach(cuts.drop_last()) {
        cuts.last()
    } else {
        reach(cuts.drop_last())
    }
}

/// The spans into which the cuts divide the items from 0 on. A cut that lies no further than
/// one before it divides nothing.
pub open spec fn spans_of_cuts(cuts: Seq<int>) -> Seq<(int, int)>
    decreases cuts.len(),
{
    if cuts.len() == 0 {
        Seq::empty()
    } else {
        let before = cuts.drop_last();
        if cuts.last() > reach(before) {
            spans_of_cuts(before).push((reach(before), cuts.last() - reach(before)))
        } else {
            spans_of_cuts(before)
        }
    }
}

/// Cutting loses nothing: the spans are the items up to the furthest cut.
pub proof fn law_cuts_partition(cuts: Seq<int>)
    ensures
        is_partition(spans_of_cuts(cuts), reach(cuts)),
        reach(cuts) >= 0,
    decreases cuts.len(),
{
    if cuts.len() > 0 {
        law_cuts_partition(cuts.drop_last());
    }
}

/// Cuts that stay within `total` reach no further, and reach it once the last one does.
pub proof fn lemma_reach(cuts: Seq<int>, total: int)
    requires
        total >= 0,
        forall|i: int| 0 <= i < cuts.len() ==> #[trigger] cuts[i] <= total,
    ensures
        reach(cuts) <= total,
        cuts.len() > 0 && cuts.last() == total ==> reach(cuts) == total,
    decreases cuts.len(),
{
    if cuts.len() > 0 {
        lemma_reach(cuts.drop_last(), total);
    }
}

/// The lengths of a partition add up to what is divided.
pub proof fn law_partition_covers(spans: Seq<(int, int)>, total: int)
    requires
        is_partition(spans, total),
    ensures
        total_length(spans) == total,
        total >= 0,
    decreases spans.len(),
{
    if spans.len() > 0 {
        let before = spans.drop_last();
        assert forall|i: int| #![trigger before[i]] 0 <= i < before.len() implies before[i].0
            == begin_of(before, i) && before[i].1 > 0 by {
            assert(spans[i] == before[i]);
        }
        assert(spans[spans.len() - 1].0 == begin_of(spans, spans.len() - 1));
        law_partition_covers(before, begin_of(before, before.len() as int));
    }
}

/// Each item of what is divided lies in exactly one span of a partition.
pub proof fn law_partition_places_each_item_once(spans: Seq<(int, int)>, total: int, item: int)
    requires
        is_partition(spans, total),
        0 <= item < total,
    ensures
        exists|i: int|
            #![trigger spans[i]]
            0 <= i < spans.len() && spans[i].0 <= item < span_end(spans[i]),
        forall|i: int, j: int|
            #![trigger spans[i], spans[j]]
            0 <= i < spans.len() && 0 <= j < spans.len() && spans[i].0 <= item < span_end(spans[i])
                && spans[j].0 <= item < span_end(spans[j]) ==> i == j,
    decreases spans.len(),
{
    let n = spans.len() as int;
    assert(spans[n - 1].0 == begin_of(spans, n - 1));
    lemma_partition_ordered(spans, total);
    if item < spans[n - 1].0 {
        let before = spans.drop_last();
        assert forall|i: int| #![trigger before[i]] 0 <= i < before.len() implies before[i].0
            == begin_of(before, i) && before[i].1 > 0 by {
            assert(spans[i] == before[i]);
        }
        law_partition_places_each_item_once(before, begin_of(spans, n - 1), item);
        let i = choose|i: int|
            #![trigger before[i]]
            0 <= i < before.len() && before[i].0 <= item < span_end(before[i]);
        assert(spans[i].0 <= item < span_end(spans[i]));
    } else {
        assert(spans[n - 1].0 <= item < span_end(spans[n - 1]));
    }
}

/// Of two spans of a partition the earlier one ends before the later one begins.
proof fn lemma_partition_ordered(spans: Seq<(int, int)>, total: int)
    requires
        is_partition(spans, total),
    ensures
        forall|i: int, j: int|
            #![trigger spans[i], spans[j]]
            0 <= i < j < spans.len() ==> span_end(spans[i]) <= spans[j].0,
{
    assert forall|i: int, j: int| #![trigger spans[i], spans[j]] 0 <= i < j < spans.len() implies
        span_end(spans[i]) <= spans[j].0 by {
        lemma_partition_ordered_at(spans, total, i, j);
    }
}

proof fn lemma_partition_ordered_at(spans: Seq<(int, int)>, total: int, i: int, j: int)
    requires
        is_partition(spans, total),
        0 <= i < j < spans.len(),
    ensures
        span_end(spans[i]) <= spans[j].0,
    decreases j - i,
{
    assert(spans[j].0 == begin_of(spans, j));
    if i < j - 1 {
        lemma_partition_ordered_at(spans, total, i, j - 1);
        assert(spans[j - 1].1 > 0);
    }
}

/// The bounds of each span of a partition.
pub proof fn lemma_partition_bounds(spans: Seq<(int, int)>, total: int, i: int)
    requires
        is_partition(spans, total),
        0 <= i < spans.len(),
    ensures
        0 <= spans[i].0 < span_end(spans[i]) <= total,
    decreases i,
{
    assert(spans[i].0 == begin_of(spans, i));
    if i > 0 {
        lemma_partition_bounds(spans, total, i - 1);
    }
    if i < spans.len() - 1 {
        lemma_partition_ordered_at(spans, total, i, spans.len() - 1);
        assert(spans[spans.len() - 1].1 > 0);
    }
}

/// Items divided into pages of `per_page` each, the last one taking what is left.
pub open spec fn even_spans(total: int, per_page: int) -> Seq<(int, int)> {
    Seq::new(
        ((total + per_page - 1) / per_page) as nat,
        |i: int|
            (
                i * per_page,
                if i * per_page + per_page > total {
                    total - i * per_page
                } else {
                    per_page
                },
            ),
    )
}

/// Dividing into even pages loses nothing.
pub proof fn law_even_spans_partition(total: int, per_page: int)
    requires
        total >= 0,
        per_page > 0,
    ensures
        is_partition(even_spans(total, per_page), total),
{
    let spans = even_spans(total, per_page);
    let n = (total + per_page - 1) / per_page;
    vstd::arithmetic::div_mod::lemma_fundamental_div_mod(total + per_page - 1, per_page);
    assert(n * per_page == per_page * n) by (nonlinear_arith);
    assert(n >= 0) by (nonlinear_arith)
        requires
            n == (total + per_page - 1) / per_page,
            total >= 0,
            per_page > 0,
    ;
    assert((n - 1) * per_page == n * per_page - per_page) by (nonlinear_arith);
    assert(total <= n * per_page < total + per_page);
    assert forall|i: int| #![trigger spans[i]] 0 <= i < spans.len() implies spans[i].0 == begin_of(
        spans,
        i,
    ) && spans[i].1 > 0 by {
        assert((i - 1) * per_page == i * per_page - per_page) by (nonlinear_arith);
        assert(i * per_page <= (n - 1) * per_page) by (nonlinear_arith)
            requires
                i <= n - 1,
                per_page > 0,
        ;
        assert(i * per_page < total);
        if i > 0 {
            assert(spans[i - 1] == ((i - 1) * per_page, per_page));
        }
    }
    if n > 0 {
        assert(spans[n - 1].0 == (n - 1) * per_page);
    } else {
        assert(n * per_page == 0) by (nonlinear_arith)
            requires
                n == 0,
        ;
    }
}

/// Whether one of the spans ends before `item`.
pub open spec fn ends_at(spans: Seq<(int, int)>, item: int) -> bool {
    exists|i: int| 0 <= i < spans.len() && #[trigger] span_end(spans[i]) == item
}

/// Whether cut `k` lies at `item` and every cut before it lies nearer.
pub open spec fn cuts_first(cuts: Seq<int>, k: int, item: int) -> bool {
    &&& 0 <= k < cuts.len()
    &&& cuts[k] == item
    &&& forall|j: int| 0 <= j < k ==> #[trigger] cuts[j] < item
}

/// Cuts reach less far than `item` if and only if each of them does.
proof fn lemma_reach_before(cuts: Seq<int>, item: int)
    requires
        item > 0,
    ensures
        reach(cuts) < item <==> forall|j: int| 0 <= j < cuts.len() ==> #[trigger] cuts[j] < item,
    decreases cuts.len(),
{
    if cuts.len() > 0 {
        let before = cuts.drop_last();
        let last = cuts.len() - 1;
        lemma_reach_before(before, item);
        assert(forall|j: int| 0 <= j < before.len() ==> before[j] == #[trigger] cuts[j]);
        assert(cuts[last] == cuts.last());
        if reach(before) < item && cuts.last() < item {
            assert forall|j: int| 0 <= j < cuts.len() implies #[trigger] cuts[j] < item by {
                if j < last {
                    assert(before[j] < item);
                }
            }
        }
        if !(reach(before) < item) {
            let j = choose|j: int| 0 <= j < before.len() && !(#[trigger] before[j] < item);
            assert(!(cuts[j] < item));
        }
    }
}

/// Spans end where something is cut, and nowhere else: an item is the end of a span if and only
/// if a cut lies there that lies further than all cuts before it.
pub proof fn law_spans_end_at_cuts(cuts: Seq<int>, item: int)
    requires
        item > 0,
    ensures
        ends_at(spans_of_cuts(cuts), item) <==> exists|k: int| #[trigger] cuts_first(cuts, k, item),
    decreases cuts.len(),
{
    if cuts.len() > 0 {
        let before = cuts.drop_last();
        let last = cuts.len() - 1;
        let spans = spans_of_cuts(cuts);
        let earlier = spans_of_cuts(before);
        law_spans_end_at_cuts(before, item);
        assert(forall|j: int| 0 <= j < before.len() ==> before[j] == #[trigger] cuts[j]);
        if ends_at(spans, item) {
            let i = choose|i: int| 0 <= i < spans.len() && #[trigger] span_end(spans[i]) == item;
            if i < earlier.len() {
                assert(span_end(earlier[i]) == item);
                let k = choose|k: int| #[trigger] cuts_first(before, k, item);
                assert(cuts_first(cuts, k, item));
            } else {
                assert(cuts.last() == item);
                assert(cuts_first(cuts, last, item)) by {
                    lemma_reach_before(before, item);
                    assert forall|j: int| 0 <= j < last implies #[trigger] cuts[j] < item by {
                        assert(before[j] < item);
                    }
                }
            }
        }
        if exists|k: int| #[trigger] cuts_first(cuts, k, item) {
            let k = choose|k: int| #[trigger] cuts_first(cuts, k, item);
            if k < last {
                assert(cuts_first(before, k, item)) by {
                    assert forall|j: int| 0 <= j < k implies #[trigger] before[j] < item by {
                        assert(cuts[j] < item);
                    }
                }
                let i = choose|i: int|
                    0 <= i < earlier.len() && #[trigger] span_end(earlier[i]) == item;
                assert(span_end(spans[i]) == item);
            } else {
                lemma_reach_before(before, item);
                assert forall|j: int| 0 <= j < before.len() implies #[trigger] before[j] < item by {
                    assert(cuts[j] < item);
                }
                assert(span_end(spans[spans.len() - 1]) == item);
            }
        }
    } else {
        assert(spans_of_cuts(cuts).len() == 0);
    }
}

/// Whether each span ends before the next one does, and the last one begins where the one before
/// it ends and ends at `total`.
pub open spec fn ends_ascend(spans: Seq<(int, int)>, total: int) -> bool {
    let n = spans.len() as int;
    &&& n > 0
    &&& spans[n - 1].1 > 0
    &&& span_end(spans[n - 1]) == total
    &&& n == 1 ==> spans[0].0 == 0
    &&& n > 1 ==> spans[n - 1].0 == span_end(spans[n - 2])
    &&& forall|i: int, j: int|
        0 <= i < j < n ==> #[trigger] span_end(spans[i]) < #[trigger] span_end(spans[j])
}

/// The spans of a partition end one after the other.
pub proof fn lemma_ends_ascend(spans: Seq<(int, int)>, total: int)
    requires
        is_partition(spans, total),
        total > 0,
    ensures
        ends_ascend(spans, total),
{
    let n = spans.len() as int;
    assert(n > 0);
    assert(spans[n - 1].0 == begin_of(spans, n - 1));
    assert forall|i: int, j: int| 0 <= i < j < n implies #[trigger] span_end(spans[i])
        < #[trigger] span_end(spans[j]) by {
        lemma_end_order(spans, total, i, j);
    }
}

/// Of two spans of a partition the earlier one ends first.
pub proof fn lemma_end_order(spans: Seq<(int, int)>, total: int, i: int, j: int)
    requires
        is_partition(spans, total),
        0 <= i < j < spans.len(),
    ensures
        span_end(spans[i]) < span_end(spans[j]),
    decreases j - i,
{
    assert(spans[j].0 == begin_of(spans, j) && spans[j].1 > 0);
    if i < j - 1 {
        lemma_end_order(spans, total, i, j - 1);
    }
}

/// Dividing into even pages gives every page but the last one the same number of items, and the
/// last one no more.
pub proof fn law_even_spans_are_even(total: int, per_page: int, i: int)
    requires
        total >= 0,
        per_page > 0,
        0 <= i < even_spans(total, per_page).len(),
    ensures
        i < even_spans(total, per_page).len() - 1 ==> even_spans(total, per_page)[i].1 == per_page,
        0 < even_spans(total, per_page)[i].1 <= per_page,
{
    let spans = even_spans(total, per_page);
    law_even_spans_partition(total, per_page);
    lemma_partition_bounds(spans, total, i);
    if i < spans.len() - 1 {
        lemma_partition_bounds(spans, total, i + 1);
        assert(spans[i + 1].0 == begin_of(spans, i + 1));
        assert((i + 1) * per_page == i * per_page + per_page) by (nonlinear_arith);
    }
}

/// Of cuts of which one lies at `item` there is a first one.
pub proof fn lemma_first_cut(cuts: Seq<int>, item: int, k: int)
    requires
        0 <= k < cuts.len(),
        cuts[k] == item,
    ensures
        exists|first: int|
            0 <= first <= k && #[trigger] cuts[first] == item && forall|j: int|
                0 <= j < first ==> #[trigger] cuts[j] != item,
    decreases k,
{
    if exists|j: int| 0 <= j < k && #[trigger] cuts[j] == item {
        let j = choose|j: int| 0 <= j < k && #[trigger] cuts[j] == item;
        lemma_first_cut(cuts, item, j);
        let first = choose|first: int|
            0 <= first <= j && #[trigger] cuts[first] == item && forall|i: int|
                0 <= i < first ==> #[trigger] cuts[i] != item;
        assert(cuts[first] == item);
    } else {
        assert(cuts[k] == item);
    }
}

} // verus!
