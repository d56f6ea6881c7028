//! How a layout ranks against the best layouts found so far: by its bounding
//! box, and by whether it is one of them under another insertion sequence.

use crate::layout::{all_placed, box_max, box_min, placed_count, Placement, Slot};
use crate::options::Comparison;
use crate::rules::{consistent, lemma_insert_grows_box, with_placement};
use vstd::prelude::*;

verus! {

/// Slot `i` holds a placement in both layouts.
pub open spec fn both_placed(x: Seq<Slot>, y: Seq<Slot>, i: int) -> bool {
    &&& 0 <= i < x.len()
    &&& i < y.len()
    &&& x[i].placement is Some
    &&& y[i].placement is Some
}

/// Wherever both layouts place a word, they place it at the same cells.
pub open spec fn same_places(x: Seq<Slot>, y: Seq<Slot>) -> bool {
    forall|i: int| #[trigger]
        both_placed(x, y, i) ==> x[i].placement->0.same_place(y[i].placement->0)
}

/// Tag `order` is used by `x` in a slot that both layouts place.
pub open spec fn uses_order(x: Seq<Slot>, y: Seq<Slot>, order: nat) -> bool {
    exists|i: int| #[trigger] both_placed(x, y, i) && x[i].placement->0.order == order
}

/// Tag `order` is used by `x` in one of the first `n` slots, in a slot that
/// both layouts place.
pub open spec fn uses_order_before(x: Seq<Slot>, y: Seq<Slot>, order: nat, n: int) -> bool {
    exists|i: int| i < n && #[trigger] both_placed(x, y, i) && x[i].placement->0.order == order
}

/// The insertion tags that `x` uses in the slots that both layouts place.
pub open spec fn shared_orders(x: Seq<Slot>, y: Seq<Slot>) -> Set<nat> {
    Set::new(|order: nat| uses_order(x, y, order))
}

/// `x` and `y` are the same layout, whatever the sequence of insertions was:
/// the words that both place lie at the same cells, and both use the same
/// insertion tags for them. A slot that only one of them places is not held
/// against them.
pub open spec fn duplicate_of(x: Seq<Slot>, y: Seq<Slot>) -> bool {
    same_places(x, y) && shared_orders(x, y) == shared_orders(y, x)
}

/// `x` is a duplicate of a member of `best`.
pub open spec fn duplicate_in(x: Seq<Slot>, best: Seq<Seq<Slot>>) -> bool {
    exists|k: int| 0 <= k < best.len() && duplicate_of(x, #[trigger] best[k])
}

/// The rank of `candidate` against `best`, whose members all have the
/// bounding box of the first one: the longer side decides, then the shorter.
pub open spec fn classify(candidate: Seq<Slot>, best: Seq<Seq<Slot>>) -> Comparison {
    if best.len() == 0 {
        Comparison::First
    } else if box_max(candidate) > box_max(best[0]) || (box_max(candidate) == box_max(best[0])
        && box_min(candidate) > box_min(best[0])) {
        Comparison::Worse
    } else if duplicate_in(candidate, best) {
        Comparison::SeedDuplicate
    } else if box_max(candidate) == box_max(best[0]) && box_min(candidate) == box_min(best[0]) {
        Comparison::AsGood
    } else {
        Comparison::Better
    }
}

/// The best layouts after `candidate`, ranked `comparison`, was offered: a
/// better one replaces them all, a first or an equally good one joins them,
/// any other is dropped.
pub open spec fn offered(comparison: Comparison, candidate: Seq<Slot>, best: Seq<Seq<Slot>>) -> Seq<
    Seq<Slot>,
> {
    match comparison {
        Comparison::Better => seq![candidate],
        Comparison::First | Comparison::AsGood => best.push(candidate),
        Comparison::Worse | Comparison::SeedDuplicate => best,
    }
}

/// Every member is a complete layout.
pub open spec fn all_complete(best: Seq<Seq<Slot>>) -> bool {
    forall|k: int| 0 <= k < best.len() ==> all_placed(#[trigger] best[k])
}

/// Every member has the bounding box of the first one.
pub open spec fn same_box(best: Seq<Seq<Slot>>) -> bool {
    forall|k: int|
        0 <= k < best.len() ==> box_max(#[trigger] best[k]) == box_max(best[0]) && box_min(best[k])
            == box_min(best[0])
}

/// No member is a duplicate of another.
pub open spec fn no_duplicates(best: Seq<Seq<Slot>>) -> bool {
    forall|i: int, j: int|
        #![trigger best[i], best[j]]
        0 <= i < best.len() && 0 <= j < best.len() && i != j ==> !duplicate_of(best[i], best[j])
}

/// The best layouts are in order: complete, equally compact, each there once.
pub open spec fn orderly(best: Seq<Seq<Slot>>) -> bool {
    all_complete(best) && same_box(best) && no_duplicates(best)
}

/// Every member can be read as a crossword.
pub open spec fn all_consistent(best: Seq<Seq<Slot>>) -> bool {
    forall|k: int| 0 <= k < best.len() ==> consistent(#[trigger] best[k])
}

/// The bounding box of `x` is at most as large as that of `y`: its longer
/// side is shorter, or as long and its shorter side at most as long.
pub open spec fn at_most_as_large(x: Seq<Slot>, y: Seq<Slot>) -> bool {
    box_max(x) < box_max(y) || (box_max(x) == box_max(y) && box_min(x) <= box_min(y))
}

/// Going from the best layouts `before` to `after` lost nothing: where there
/// were some, there still are, and they are at most as large.
pub open spec fn never_worse(before: Seq<Seq<Slot>>, after: Seq<Seq<Slot>>) -> bool {
    before.len() > 0 ==> after.len() > 0 && at_most_as_large(after[0], before[0])
}

/// `found` holds the words of `slots` and every placement of `slots`.
pub open spec fn extends_layout(slots: Seq<Slot>, found: Seq<Slot>) -> bool {
    &&& found.len() == slots.len()
    &&& forall|i: int|
        0 <= i < slots.len() ==> (#[trigger] found[i]).word == slots[i].word && (
        slots[i].placement is Some ==> found[i].placement == slots[i].placement)
}

/// Every member of `after` is a member of `before` or extends `slots`.
pub open spec fn found_from(
    slots: Seq<Slot>,
    before: Seq<Seq<Slot>>,
    after: Seq<Seq<Slot>>,
) -> bool {
    forall|k: int|
        0 <= k < after.len() ==> before.contains(#[trigger] after[k]) || extends_layout(
            slots,
            after[k],
        )
}

/// A layout whose bounding box has a longer side than that of the best
/// layouts ranks worse than they.
pub proof fn lemma_larger_is_worse(candidate: Seq<Slot>, best: Seq<Seq<Slot>>)
    requires
        best.len() > 0,
        box_max(candidate) > box_max(best[0]),
    ensures
        classify(candidate, best) == Comparison::Worse,
{
}

/// What is found from a layout with one more word is found from the layout
/// without it.
pub proof fn lemma_found_from_extension(
    slots: Seq<Slot>,
    index: int,
    placement: Placement,
    first: Seq<Seq<Slot>>,
    before: Seq<Seq<Slot>>,
    after: Seq<Seq<Slot>>,
)
    requires
        0 <= index < slots.len(),
        slots[index].placement is None,
        found_from(slots, first, before),
        found_from(with_placement(slots, index, Some(placement)), before, after),
    ensures
        found_from(slots, first, after),
{
}

/// Offering a layout that extends `slots` keeps the best layouts found from
/// `slots`.
pub proof fn lemma_offered_found_from(
    slots: Seq<Slot>,
    rank: Comparison,
    candidate: Seq<Slot>,
    first: Seq<Seq<Slot>>,
    before: Seq<Seq<Slot>>,
)
    requires
        found_from(slots, first, before),
        extends_layout(slots, candidate),
    ensures
        found_from(slots, first, offered(rank, candidate, before)),
{
}

/// What the search keeps true of the best layouts from one step to the next,
/// `slots` being the layout it works on: they get no worse, whatever joins
/// them extends `slots`, they stay in order if they were, and they stay
/// consistent if they and `slots` were.
pub open spec fn progress(slots: Seq<Slot>, before: Seq<Seq<Slot>>, after: Seq<Seq<Slot>>) -> bool {
    &&& never_worse(before, after)
    &&& found_from(slots, before, after)
    &&& orderly(before) ==> orderly(after)
    &&& consistent(slots) && all_consistent(before) ==> all_consistent(after)
}

/// Leaving the best layouts alone is progress.
pub proof fn lemma_progress_none(slots: Seq<Slot>, best: Seq<Seq<Slot>>)
    ensures
        progress(slots, best, best),
{
}

/// Offering a complete layout under its rank is progress.
pub proof fn lemma_progress_offered(slots: Seq<Slot>, best: Seq<Seq<Slot>>)
    requires
        all_placed(slots),
    ensures
        progress(slots, best, offered(classify(slots, best), slots, best)),
{
    let rank = classify(slots, best);
    lemma_progress_none(slots, best);
    lemma_offered_never_worse(slots, best);
    lemma_offered_found_from(slots, rank, slots, best, best);
    if orderly(best) {
        lemma_offered_orderly(slots, best);
    }
    if consistent(slots) && all_consistent(best) {
        lemma_offered_consistent(rank, slots, best);
    }
}

/// Progress from a layout with one more word, after progress from the layout
/// without it, is progress from the latter.
pub proof fn lemma_progress_step(
    slots: Seq<Slot>,
    index: int,
    placement: Placement,
    first: Seq<Seq<Slot>>,
    before: Seq<Seq<Slot>>,
    after: Seq<Seq<Slot>>,
)
    requires
        0 <= index < slots.len(),
        slots[index].placement is None,
        consistent(slots) ==> consistent(with_placement(slots, index, Some(placement))),
        progress(slots, first, before),
        progress(with_placement(slots, index, Some(placement)), before, after),
    ensures
        progress(slots, first, after),
{
    lemma_never_worse_transitive(first, before, after);
    lemma_found_from_extension(slots, index, placement, first, before, after);
}

/// Being a duplicate is symmetric.
pub proof fn lemma_duplicate_symmetric(x: Seq<Slot>, y: Seq<Slot>)
    ensures
        duplicate_of(x, y) == duplicate_of(y, x),
{
    assert forall|i: int| both_placed(x, y, i) == both_placed(y, x, i) by {}
}

/// Looking at one more slot adds the tag of that slot, if both layouts place
/// it, to the tags in use.
pub proof fn lemma_uses_order_step(x: Seq<Slot>, y: Seq<Slot>, order: nat, n: int)
    ensures
        uses_order_before(x, y, order, n + 1) == (uses_order_before(x, y, order, n) || (
        both_placed(x, y, n) && x[n].placement->0.order == order)),
{
}

/// A layout that ranks worse than the best stays worse whatever word is
/// written into it next: the search loses nothing by giving it up.
pub proof fn lemma_worse_stays_worse(
    slots: Seq<Slot>,
    index: int,
    placement: Placement,
    best: Seq<Seq<Slot>>,
)
    requires
        0 <= index < slots.len(),
        slots[index].placement is None,
        placed_count(slots) > 0,
        classify(slots, best) == Comparison::Worse,
    ensures
        classify(with_placement(slots, index, Some(placement)), best) == Comparison::Worse,
{
    lemma_insert_grows_box(slots, index, placement);
}

/// Offering a complete layout under its rank keeps the best layouts in order.
pub proof fn lemma_offered_orderly(candidate: Seq<Slot>, best: Seq<Seq<Slot>>)
    requires
        orderly(best),
        all_placed(candidate),
    ensures
        orderly(offered(classify(candidate, best), candidate, best)),
{
    let rank = classify(candidate, best);
    let after = offered(rank, candidate, best);
    if rank == Comparison::First || rank == Comparison::AsGood {
        assert forall|i: int, j: int|
            #![trigger after[i], after[j]]
            0 <= i < after.len() && 0 <= j < after.len() && i != j implies !duplicate_of(
            after[i],
            after[j],
        ) by {
            if i < best.len() && j < best.len() {
            } else if i < best.len() {
                lemma_duplicate_symmetric(candidate, best[i]);
            }
        }
    }
}

/// Offering a consistent layout leaves every member consistent.
pub proof fn lemma_offered_consistent(
    rank: Comparison,
    candidate: Seq<Slot>,
    best: Seq<Seq<Slot>>,
)
    requires
        all_consistent(best),
        consistent(candidate),
    ensures
        all_consistent(offered(rank, candidate, best)),
{
}

/// Offering a layout under its rank never makes the best layouts worse.
pub proof fn lemma_offered_never_worse(candidate: Seq<Slot>, best: Seq<Seq<Slot>>)
    ensures
        never_worse(best, offered(classify(candidate, best), candidate, best)),
{
}

/// Losing nothing twice in a row is losing nothing.
pub proof fn lemma_never_worse_transitive(
    first: Seq<Seq<Slot>>,
    second: Seq<Seq<Slot>>,
    third: Seq<Seq<Slot>>,
)
    requires
        never_worse(first, second),
        never_worse(second, third),
    ensures
        never_worse(first, third),
{
}

} // verus!
