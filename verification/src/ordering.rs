//! The slots of a workload, one for each query to come, and the orders in
//! which they can be put.

use crate::filtering::{
    lemma_filter_insert_behind, lemma_filter_insert_other, lemma_filter_none, lemma_filter_push,
};
use crate::random::shuffle_slots;
use crate::sizes::{lemma_sorted_form_elements, sort_sizes, sorted_form};
use crate::sparql::{OutputOrder, QueryError, QuerySlot, QuerySpec, QueryType};
use vstd::prelude::*;

verus! {

/// The slots of one query spec: as many as it has queries, all alike.
pub open spec fn repeated(spec: QuerySpec) -> Seq<QuerySlot> {
    Seq::new(spec.n_queries as nat, |i: int| (spec.n_triples_per_query, spec.query_type))
}

/// The slots of a list of query specs, in the order of the list.
pub open spec fn expanded(specs: Seq<QuerySpec>) -> Seq<QuerySlot>
    decreases specs.len(),
{
    if specs.len() == 0 {
        Seq::empty()
    } else {
        expanded(specs.drop_last()) + repeated(specs.last())
    }
}

/// The condition of having a given size.
pub open spec fn has_size(size: usize) -> spec_fn(QuerySlot) -> bool {
    |slot: QuerySlot| slot.0 == size
}

/// The condition of being of a given kind.
pub open spec fn has_type(query_type: QueryType) -> spec_fn(QuerySlot) -> bool {
    |slot: QuerySlot| slot.1 == query_type
}

/// The sizes of the slots of one kind, in the order of the slots.
pub open spec fn sizes_of_type(slots: Seq<QuerySlot>, query_type: QueryType) -> Seq<usize> {
    slots.filter(has_type(query_type)).map_values(|slot: QuerySlot| slot.0)
}

/// The sizes do not fall from one slot to the next; with `descending`, they do not rise.
pub open spec fn sizes_in_order(slots: Seq<QuerySlot>, descending: bool) -> bool {
    forall|i: int, j: int|
        0 <= i <= j < slots.len() ==> if descending {
            slots[i].0 >= slots[j].0
        } else {
            slots[i].0 <= slots[j].0
        }
}

/// `output` holds the slots of `input` ordered by size, and slots of one size
/// stand as they stood in `input`.
pub open spec fn is_stable_sort_of(
    input: Seq<QuerySlot>,
    output: Seq<QuerySlot>,
    descending: bool,
) -> bool {
    &&& sizes_in_order(output, descending)
    &&& output.len() == input.len()
    &&& forall|size: usize| #[trigger]
        output.filter(has_size(size)) == input.filter(has_size(size))
}

/// Insertions and deletions in turn, an insertion first: pair `k` has the
/// `k`-th size of each list. The longer list's surplus is left out.
pub open spec fn alternated(insert_sizes: Seq<usize>, delete_sizes: Seq<usize>) -> Seq<QuerySlot> {
    Seq::new(
        2 * if insert_sizes.len() <= delete_sizes.len() {
            insert_sizes.len()
        } else {
            delete_sizes.len()
        },
        |k: int|
            if k % 2 == 0 {
                (insert_sizes[k / 2], QueryType::InsertData)
            } else {
                (delete_sizes[k / 2], QueryType::DeleteData)
            },
    )
}

/// `output` is `input` in the given order.
pub open spec fn is_order_of(
    input: Seq<QuerySlot>,
    order: OutputOrder,
    output: Seq<QuerySlot>,
) -> bool {
    match order {
        OutputOrder::AsSpecified => output == input,
        OutputOrder::Randomized => output.to_multiset() == input.to_multiset(),
        OutputOrder::SortedSizeAsc => is_stable_sort_of(input, output, false),
        OutputOrder::SortedSizeDesc => is_stable_sort_of(input, output, true),
        OutputOrder::SortedSizeAscAlternateInsertDelete => output == alternated(
            sorted_form(sizes_of_type(input, QueryType::InsertData)),
            sorted_form(sizes_of_type(input, QueryType::DeleteData)),
        ),
    }
}

/// Lists the slots of the query specs: for each query spec, in turn, one
/// slot for each of its queries.
pub fn expand_query_specs(specs: &[QuerySpec]) -> (slots: Vec<QuerySlot>)
    ensures
        slots@ == expanded(specs@),
{
    let mut slots: Vec<QuerySlot> = Vec::new();
    let n = specs.len();
    let mut i: usize = 0;
    while i < n
        invariant
            i <= n,
            n == specs@.len(),
            slots@ == expanded(specs@.subrange(0, i as int)),
        decreases n - i,
    {
        let spec = specs[i];
        let ghost before = slots@;
        let mut k: usize = 0;
        while k < spec.n_queries
            invariant
                k <= spec.n_queries,
                slots@ == before + repeated(spec).subrange(0, k as int),
            decreases spec.n_queries - k,
        {
            slots.push((spec.n_triples_per_query, spec.query_type));
            k += 1;
            assert(slots@ =~= before + repeated(spec).subrange(0, k as int));
        }
        assert(repeated(spec).subrange(0, spec.n_queries as int) =~= repeated(spec));
        i += 1;
        assert(specs@.subrange(0, i as int).drop_last() =~= specs@.subrange(0, i - 1));
    }
    assert(specs@.subrange(0, n as int) =~= specs@);
    slots
}

/// Tells whether a slot of size `a` has to stand behind a slot of size `b`.
fn belongs_behind(a: usize, b: usize, descending: bool) -> (r: bool)
    ensures
        r == if descending {
            a < b
        } else {
            a > b
        },
{
    if descending {
        a < b
    } else {
        a > b
    }
}

/// Orders slots by size. Slots of one size keep their order.
pub fn stable_sort_by_size(slots: &[QuerySlot], descending: bool) -> (out: Vec<QuerySlot>)
    ensures
        is_stable_sort_of(slots@, out@, descending),
        out@.len() == slots@.len(),
{
    let mut out: Vec<QuerySlot> = Vec::new();
    let n = slots.len();
    let mut i: usize = 0;
    proof {
        assert forall|size: usize| #[trigger]
            out@.filter(has_size(size)) == slots@.subrange(0, 0).filter(has_size(size)) by {
            assert(slots@.subrange(0, 0) =~= out@);
        }
    }
    while i < n
        invariant
            i <= n,
            n == slots@.len(),
            out@.len() == i,
            is_stable_sort_of(slots@.subrange(0, i as int), out@, descending),
        decreases n - i,
    {
        let slot = slots[i];
        let mut at: usize = out.len();
        while at > 0 && belongs_behind(out[at - 1].0, slot.0, descending)
            invariant
                at <= out@.len(),
                sizes_in_order(out@, descending),
                forall|j: int|
                    at <= j < out@.len() ==> if descending {
                        out@[j].0 < slot.0
                    } else {
                        out@[j].0 > slot.0
                    },
            decreases at,
        {
            at -= 1;
        }
        let ghost before = out@;
        out.insert(at, slot);
        proof {
            let part = slots@.subrange(0, i as int);
            let more = slots@.subrange(0, i + 1);
            assert(more =~= part.push(slot));
            assert(out@ =~= before.insert(at as int, slot));
            assert(sizes_in_order(out@, descending)) by {
                assert forall|a: int, b: int| 0 <= a <= b < out@.len() implies if descending {
                    out@[a].0 >= out@[b].0
                } else {
                    out@[a].0 <= out@[b].0
                } by {
                    let a0 = if a < at { a } else { a - 1 };
                    let b0 = if b < at { b } else { b - 1 };
                    if a == at {
                        if b > at {
                            assert(out@[b] == before[b - 1]);
                        }
                    } else if b == at {
                        assert(out@[a] == before[a]);
                        if at > 0 {
                            assert(if descending {
                                before[a].0 >= before[at - 1].0
                            } else {
                                before[a].0 <= before[at - 1].0
                            });
                        }
                    } else {
                        assert(out@[a] == before[a0]);
                        assert(out@[b] == before[b0]);
                        assert(if descending {
                            before[a0].0 >= before[b0].0
                        } else {
                            before[a0].0 <= before[b0].0
                        });
                    }
                }
            }
            assert forall|size: usize| #[trigger]
                out@.filter(has_size(size)) == more.filter(has_size(size)) by {
                assert(before.filter(has_size(size)) == part.filter(has_size(size)));
                lemma_filter_push(part, slot, has_size(size));
                if slot.0 == size {
                    lemma_filter_insert_behind(before, at as int, slot, has_size(size));
                } else {
                    lemma_filter_insert_other(before, at as int, slot, has_size(size));
                }
            }
        }
        i += 1;
    }
    assert(slots@.subrange(0, n as int) =~= slots@);
    out
}

/// Collects the sizes of the slots of one kind, in the order of the slots.
pub fn collect_sizes(slots: &[QuerySlot], query_type: QueryType) -> (sizes: Vec<usize>)
    ensures
        sizes@ == sizes_of_type(slots@, query_type),
{
    let mut sizes: Vec<usize> = Vec::new();
    let n = slots.len();
    let mut i: usize = 0;
    proof {
        lemma_filter_none(slots@.subrange(0, 0), has_type(query_type));
    }
    while i < n
        invariant
            i <= n,
            n == slots@.len(),
            sizes@ == sizes_of_type(slots@.subrange(0, i as int), query_type),
        decreases n - i,
    {
        let slot = slots[i];
        proof {
            let part = slots@.subrange(0, i as int);
            assert(slots@.subrange(0, i + 1) =~= part.push(slot));
            lemma_filter_push(part, slot, has_type(query_type));
        }
        if slot.1 == query_type {
            sizes.push(slot.0);
            assert(sizes@ =~= sizes_of_type(slots@.subrange(0, i + 1), query_type));
        }
        i += 1;
    }
    assert(slots@.subrange(0, n as int) =~= slots@);
    sizes
}

/// Puts insertions and deletions in turn, each kind by size, smallest first.
pub fn alternate_insert_delete(slots: &[QuerySlot]) -> (out: Vec<QuerySlot>)
    ensures
        out@ == alternated(
            sorted_form(sizes_of_type(slots@, QueryType::InsertData)),
            sorted_form(sizes_of_type(slots@, QueryType::DeleteData)),
        ),
{
    let mut insert_sizes = collect_sizes(slots, QueryType::InsertData);
    let mut delete_sizes = collect_sizes(slots, QueryType::DeleteData);
    sort_sizes(&mut insert_sizes);
    sort_sizes(&mut delete_sizes);
    let pairs = if insert_sizes.len() <= delete_sizes.len() {
        insert_sizes.len()
    } else {
        delete_sizes.len()
    };
    let mut out: Vec<QuerySlot> = Vec::new();
    let mut k: usize = 0;
    while k < pairs
        invariant
            k <= pairs,
            pairs <= insert_sizes@.len(),
            pairs <= delete_sizes@.len(),
            out@ == alternated(insert_sizes@, delete_sizes@).subrange(0, 2 * k),
            alternated(insert_sizes@, delete_sizes@).len() == 2 * pairs,
        decreases pairs - k,
    {
        out.push((insert_sizes[k], QueryType::InsertData));
        out.push((delete_sizes[k], QueryType::DeleteData));
        k += 1;
        assert(out@ =~= alternated(insert_sizes@, delete_sizes@).subrange(0, 2 * k));
    }
    assert(out@ =~= alternated(insert_sizes@, delete_sizes@));
    out
}

/// Puts the slots of a workload into the order asked for.
///
/// Insertions and deletions can take turns only in an even number of slots.
pub fn order_slots(slots: Vec<QuerySlot>, order: OutputOrder) -> (r: Result<
    Vec<QuerySlot>,
    QueryError,
>)
    ensures
        r is Err <==> order == OutputOrder::SortedSizeAscAlternateInsertDelete && slots@.len() % 2
            != 0,
        r matches Ok(ordered) ==> is_order_of(slots@, order, ordered@),
        r matches Err(e) ==> e == QueryError::OddNumberOfQueries,
{
    match order {
        OutputOrder::AsSpecified => Ok(slots),
        OutputOrder::Randomized => {
            let mut slots = slots;
            shuffle_slots(&mut slots);
            Ok(slots)
        },
        OutputOrder::SortedSizeAsc => Ok(stable_sort_by_size(slots.as_slice(), false)),
        OutputOrder::SortedSizeDesc => Ok(stable_sort_by_size(slots.as_slice(), true)),
        OutputOrder::SortedSizeAscAlternateInsertDelete => {
            if slots.len() % 2 != 0 {
                Err(QueryError::OddNumberOfQueries)
            } else {
                Ok(alternate_insert_delete(slots.as_slice()))
            }
        },
    }
}

/// The largest size among slots; 0 where there is no slot.
pub open spec fn max_slot_size(slots: Seq<QuerySlot>) -> nat
    decreases slots.len(),
{
    if slots.len() == 0 {
        0
    } else if slots.last().0 > max_slot_size(slots.drop_last()) {
        slots.last().0 as nat
    } else {
        max_slot_size(slots.drop_last())
    }
}

/// Finds the largest size among slots.
pub fn largest_slot_size(slots: &[QuerySlot]) -> (max: usize)
    ensures
        max == max_slot_size(slots@),
{
    let mut max: usize = 0;
    let n = slots.len();
    let mut i: usize = 0;
    while i < n
        invariant
            i <= n,
            n == slots@.len(),
            max == max_slot_size(slots@.subrange(0, i as int)),
        decreases n - i,
    {
        assert(slots@.subrange(0, i + 1).drop_last() =~= slots@.subrange(0, i as int));
        if slots[i].0 > max {
            max = slots[i].0;
        }
        i += 1;
    }
    assert(slots@.subrange(0, n as int) =~= slots@);
    max
}

/// No slot is larger than the largest size.
pub proof fn lemma_max_slot_size(slots: Seq<QuerySlot>, i: int)
    requires
        0 <= i < slots.len(),
    ensures
        slots[i].0 <= max_slot_size(slots),
    decreases slots.len(),
{
    if i < slots.len() - 1 {
        lemma_max_slot_size(slots.drop_last(), i);
    }
}

/// A bound on all sizes bounds the largest size.
pub proof fn lemma_max_slot_size_bound(slots: Seq<QuerySlot>, bound: nat)
    requires
        forall|i: int| 0 <= i < slots.len() ==> slots[i].0 <= bound,
    ensures
        max_slot_size(slots) <= bound,
    decreases slots.len(),
{
    if slots.len() > 0 {
        assert(slots[slots.len() - 1].0 <= bound);
        lemma_max_slot_size_bound(slots.drop_last(), bound);
    }
}

/// Every slot is an insertion or a deletion, so the slots of the two kinds
/// are all the slots.
pub proof fn lemma_kinds_cover(slots: Seq<QuerySlot>)
    ensures
        sizes_of_type(slots, QueryType::InsertData).len() + sizes_of_type(
            slots,
            QueryType::DeleteData,
        ).len() == slots.len(),
    decreases slots.len(),
{
    if slots.len() == 0 {
        lemma_filter_none(slots, has_type(QueryType::InsertData));
        lemma_filter_none(slots, has_type(QueryType::DeleteData));
    } else {
        let front = slots.drop_last();
        lemma_kinds_cover(front);
        assert(slots =~= front.push(slots.last()));
        lemma_filter_push(front, slots.last(), has_type(QueryType::InsertData));
        lemma_filter_push(front, slots.last(), has_type(QueryType::DeleteData));
    }
}

/// A size of the slots of one kind is the size of a slot.
pub proof fn lemma_size_of_type_is_slot_size(slots: Seq<QuerySlot>, query_type: QueryType, i: int)
    requires
        0 <= i < sizes_of_type(slots, query_type).len(),
    ensures
        exists|k: int| 0 <= k < slots.len() && (#[trigger] slots[k]).0 == sizes_of_type(
            slots,
            query_type,
        )[i],
{
    let kept = slots.filter(has_type(query_type));
    assert(kept.contains(kept[i]));
    slots.lemma_filter_contains_rev(has_type(query_type), kept[i]);
    let k = choose|k: int| 0 <= k < slots.len() && slots[k] == kept[i];
    assert(slots[k].0 == sizes_of_type(slots, query_type)[i]);
}

/// Ordering adds no slot and no size: the ordered slots are no more than
/// there were, and none is larger than the largest before.
pub proof fn lemma_order_keeps_bounds(
    input: Seq<QuerySlot>,
    order: OutputOrder,
    output: Seq<QuerySlot>,
)
    requires
        is_order_of(input, order, output),
    ensures
        output.len() <= input.len(),
        max_slot_size(output) <= max_slot_size(input),
{
    let bound = max_slot_size(input);
    match order {
        OutputOrder::AsSpecified => {},
        OutputOrder::Randomized => {
            input.to_multiset_ensures();
            output.to_multiset_ensures();
            assert forall|i: int| 0 <= i < output.len() implies output[i].0 <= bound by {
                assert(output.contains(output[i]));
                assert(output.to_multiset().count(output[i]) > 0);
                assert(input.to_multiset().count(output[i]) > 0);
                assert(input.contains(output[i]));
                let k = choose|k: int| 0 <= k < input.len() && input[k] == output[i];
                lemma_max_slot_size(input, k);
            }
            lemma_max_slot_size_bound(output, bound);
        },
        OutputOrder::SortedSizeAsc | OutputOrder::SortedSizeDesc => {
            assert forall|i: int| 0 <= i < output.len() implies output[i].0 <= bound by {
                let size = output[i].0;
                output.lemma_filter_contains(has_size(size), i);
                assert(output.filter(has_size(size)) == input.filter(has_size(size)));
                input.lemma_filter_contains_rev(has_size(size), output[i]);
                let k = choose|k: int| 0 <= k < input.len() && input[k] == output[i];
                lemma_max_slot_size(input, k);
            }
            lemma_max_slot_size_bound(output, bound);
        },
        OutputOrder::SortedSizeAscAlternateInsertDelete => {
            let inserts = sizes_of_type(input, QueryType::InsertData);
            let deletes = sizes_of_type(input, QueryType::DeleteData);
            lemma_kinds_cover(input);
            lemma_sorted_form_elements(inserts);
            lemma_sorted_form_elements(deletes);
            assert forall|i: int| 0 <= i < output.len() implies output[i].0 <= bound by {
                if i % 2 == 0 {
                    let size = sorted_form(inserts)[i / 2];
                    assert(inserts.contains(size));
                    let at = choose|at: int| 0 <= at < inserts.len() && inserts[at] == size;
                    lemma_size_of_type_is_slot_size(input, QueryType::InsertData, at);
                    let k = choose|k: int|
                        0 <= k < input.len() && (#[trigger] input[k]).0 == inserts[at];
                    lemma_max_slot_size(input, k);
                } else {
                    let size = sorted_form(deletes)[i / 2];
                    assert(deletes.contains(size));
                    let at = choose|at: int| 0 <= at < deletes.len() && deletes[at] == size;
                    lemma_size_of_type_is_slot_size(input, QueryType::DeleteData, at);
                    let k = choose|k: int|
                        0 <= k < input.len() && (#[trigger] input[k]).0 == deletes[at];
                    lemma_max_slot_size(input, k);
                }
            }
            lemma_max_slot_size_bound(output, bound);
        },
    }
}

} // verus!
