//! The multi-start search: which passes to run for an order, how two
//! outcomes compare, and the search that keeps the best pass.

use vstd::prelude::*;

use crate::container::{box_wf, placement_sound, OpenBox, PlacementPolicy, StockBox};
use crate::geometry::{edges_bounded, volume_of, wide_volume, Dimensions};
use crate::packer::{
    all_items_ok, box_items, boxes_items, item_views, lemma_boxes_items_len, lemma_cap_mul,
    lemma_item_cap, lemma_volume_sum_bound, pack_once, packing_valid, pass_run, unplaced_items,
    volume_cap, BoxPolicy, ItemOrder, PackingSolution, PassState,
};
use crate::placement::{is_weak_item, Item, ITEM_LIMIT};
use crate::sorting::{
    distinct_keys, lemma_rearranged_keys_distinct, lemma_sorted_without_ties_is_determined, no_ties,
    sort_by, sorted_by, total_preorder,
};
use crate::text::{lemma_text_order_all, text_before, text_less};

verus! {

broadcast use vstd::seq_lib::group_to_multiset_ensures;

/// The number of configured passes.
pub const ATTEMPT_COUNT: usize = 10;

/// The pass that sorts weak items last.
pub const WEAK_LAST_ATTEMPT: usize = 4;

/// The pass that interleaves heavy and light items.
pub const WEIGHT_INTERLEAVE_ATTEMPT: usize = 5;

/// Orders up to this many items run every pass.
pub const SMALL_ORDER_ITEMS: usize = 1000;

/// Orders up to this many items run the four volume-driven passes.
pub const MEDIUM_ORDER_ITEMS: usize = 5000;

/// The configured passes, in the order they are tried.
pub open spec fn attempt_spec(index: int) -> (ItemOrder, BoxPolicy, PlacementPolicy) {
    if index == 0 {
        (ItemOrder::Volume, BoxPolicy::TargetRemaining, PlacementPolicy::GridCapacity)
    } else if index == 1 {
        (ItemOrder::Volume, BoxPolicy::TargetRemaining, PlacementPolicy::BestFit)
    } else if index == 2 {
        (ItemOrder::MostConstrained, BoxPolicy::TargetRemaining, PlacementPolicy::GridCapacity)
    } else if index == 3 {
        (ItemOrder::Volume, BoxPolicy::MaxGridCapacity, PlacementPolicy::GridCapacity)
    } else if index == 4 {
        (ItemOrder::WeakLast, BoxPolicy::TargetRemaining, PlacementPolicy::GridCapacity)
    } else if index == 5 {
        (ItemOrder::WeightInterleave, BoxPolicy::TargetRemaining, PlacementPolicy::BestFit)
    } else if index == 6 {
        (ItemOrder::MaxEdge, BoxPolicy::TargetRemaining, PlacementPolicy::BestFit)
    } else if index == 7 {
        (ItemOrder::Weight, BoxPolicy::TargetRemaining, PlacementPolicy::BestFit)
    } else if index == 8 {
        (ItemOrder::Volume, BoxPolicy::Largest, PlacementPolicy::BestFit)
    } else {
        (ItemOrder::Volume, BoxPolicy::Smallest, PlacementPolicy::BestFit)
    }
}

/// The item order, box policy and placement policy of a configured pass.
pub fn attempt_plan(index: usize) -> (r: (ItemOrder, BoxPolicy, PlacementPolicy))
    requires
        index < ATTEMPT_COUNT,
    ensures
        r == attempt_spec(index as int),
{
    match index {
        0 => (ItemOrder::Volume, BoxPolicy::TargetRemaining, PlacementPolicy::GridCapacity),
        1 => (ItemOrder::Volume, BoxPolicy::TargetRemaining, PlacementPolicy::BestFit),
        2 => (ItemOrder::MostConstrained, BoxPolicy::TargetRemaining, PlacementPolicy::GridCapacity),
        3 => (ItemOrder::Volume, BoxPolicy::MaxGridCapacity, PlacementPolicy::GridCapacity),
        4 => (ItemOrder::WeakLast, BoxPolicy::TargetRemaining, PlacementPolicy::GridCapacity),
        5 => (ItemOrder::WeightInterleave, BoxPolicy::TargetRemaining, PlacementPolicy::BestFit),
        6 => (ItemOrder::MaxEdge, BoxPolicy::TargetRemaining, PlacementPolicy::BestFit),
        7 => (ItemOrder::Weight, BoxPolicy::TargetRemaining, PlacementPolicy::BestFit),
        8 => (ItemOrder::Volume, BoxPolicy::Largest, PlacementPolicy::BestFit),
        _ => (ItemOrder::Volume, BoxPolicy::Smallest, PlacementPolicy::BestFit),
    }
}

/// Same size, same weight and both weak or both not.
pub open spec fn same_kind(a: Item, b: Item) -> bool {
    &&& a.size == b.size
    &&& a.weight == b.weight
    &&& is_weak_item(a) == is_weak_item(b)
}

/// Every item is of the first item's kind.
pub open spec fn homogeneous(items: Seq<Item>) -> bool {
    forall|k: int| 0 <= k < items.len() ==> #[trigger] same_kind(items[k], items[0])
}

pub open spec fn has_weak(items: Seq<Item>) -> bool {
    exists|k: int| 0 <= k < items.len() && #[trigger] is_weak_item(items[k])
}

pub open spec fn has_strong(items: Seq<Item>) -> bool {
    exists|k: int| 0 <= k < items.len() && !#[trigger] is_weak_item(items[k])
}

/// Some item weighs other than the first one.
pub open spec fn mixed_weights(items: Seq<Item>) -> bool {
    exists|k: int| 0 <= k < items.len() && #[trigger] items[k].weight != items[0].weight
}

/// The total weight of the items, saturating at `u64::MAX` along the way.
pub open spec fn weight_total(items: Seq<Item>) -> int
    decreases items.len(),
{
    if items.len() == 0 {
        0
    } else {
        let t = weight_total(items.drop_last()) + items.last().weight;
        if t > u64::MAX {
            u64::MAX as int
        } else {
            t
        }
    }
}

/// Some stock kind with boxes left holds less than the items' total weight.
pub open spec fn weight_can_constrain(items: Seq<Item>, stock: Seq<StockBox>) -> bool {
    exists|j: int| 0 <= j < stock.len() && #[trigger] stock[j].count > 0 && stock[j].max_weight < weight_total(items)
}

/// The passes run for an order: all of them for small orders; for larger
/// ones the volume-driven passes (only the first or the second one for the
/// largest, by whether the items are all alike), plus the weak-last pass
/// when weak and other items mix, plus the interleaving pass when weights
/// differ and some box could be overloaded.
pub open spec fn attempt_selection(items: Seq<Item>, stock: Seq<StockBox>, attempt_count: nat) -> Seq<usize> {
    if items.len() <= SMALL_ORDER_ITEMS {
        Seq::new(attempt_count, |i: int| i as usize)
    } else {
        let base: Seq<usize> = if items.len() <= MEDIUM_ORDER_ITEMS {
            seq![0usize, 1usize, 2usize, 3usize]
        } else if homogeneous(items) {
            seq![0usize]
        } else {
            seq![1usize]
        };
        let with_weak = if has_weak(items) && has_strong(items) {
            base.push(WEAK_LAST_ATTEMPT)
        } else {
            base
        };
        if mixed_weights(items) && weight_can_constrain(items, stock) {
            with_weak.push(WEIGHT_INTERLEAVE_ATTEMPT)
        } else {
            with_weak
        }
    }
}

fn is_homogeneous(items: &[Item]) -> (r: bool)
    ensures
        r == homogeneous(items@),
{
    if items.len() == 0 {
        return true;
    }
    let first = &items[0];
    let first_weak = first.is_weak();
    let mut k: usize = 0;
    while k < items.len()
        invariant
            k <= items@.len(),
            items@.len() > 0,
            *first == items@[0],
            first_weak == is_weak_item(items@[0]),
            forall|q: int| 0 <= q < k ==> #[trigger] same_kind(items@[q], items@[0]),
        decreases items@.len() - k,
    {
        let item = &items[k];
        if item.size != first.size || item.weight != first.weight || item.is_weak() != first_weak {
            proof {
                assert(!same_kind(items@[k as int], items@[0]));
            }
            return false;
        }
        proof {
            assert(same_kind(items@[k as int], items@[0]));
        }
        k = k + 1;
    }
    true
}

/// Whether some item is weak and whether some item is not.
fn weak_mix(items: &[Item]) -> (r: (bool, bool))
    ensures
        r.0 == has_weak(items@),
        r.1 == has_strong(items@),
{
    let mut weak = false;
    let mut strong = false;
    let mut k: usize = 0;
    while k < items.len()
        invariant
            k <= items@.len(),
            weak == (exists|q: int| 0 <= q < k && #[trigger] is_weak_item(items@[q])),
            strong == (exists|q: int| 0 <= q < k && !#[trigger] is_weak_item(items@[q])),
        decreases items@.len() - k,
    {
        if items[k].is_weak() {
            weak = true;
        } else {
            strong = true;
        }
        k = k + 1;
    }
    (weak, strong)
}

fn has_mixed_weights(items: &[Item]) -> (r: bool)
    ensures
        r == mixed_weights(items@),
{
    if items.len() == 0 {
        return false;
    }
    let first_weight = items[0].weight;
    let mut k: usize = 0;
    while k < items.len()
        invariant
            k <= items@.len(),
            items@.len() > 0,
            first_weight == items@[0].weight,
            forall|q: int| 0 <= q < k ==> #[trigger] items@[q].weight == items@[0].weight,
        decreases items@.len() - k,
    {
        if items[k].weight != first_weight {
            return true;
        }
        k = k + 1;
    }
    false
}

fn total_weight(items: &[Item]) -> (r: u64)
    ensures
        r == weight_total(items@),
{
    let mut total: u64 = 0;
    let mut k: usize = 0;
    while k < items.len()
        invariant
            k <= items@.len(),
            total == weight_total(items@.take(k as int)),
        decreases items@.len() - k,
    {
        proof {
            assert(items@.take(k + 1).drop_last() =~= items@.take(k as int));
        }
        total = total.saturating_add(items[k].weight);
        k = k + 1;
    }
    proof {
        assert(items@.take(items@.len() as int) =~= items@);
    }
    total
}

fn can_constrain(stock: &[StockBox], total: u64) -> (r: bool)
    ensures
        r == (exists|j: int| 0 <= j < stock@.len() && #[trigger] stock@[j].count > 0 && stock@[j].max_weight < total),
{
    let mut j: usize = 0;
    while j < stock.len()
        invariant
            j <= stock@.len(),
            forall|q: int| 0 <= q < j ==> !(#[trigger] stock@[q].count > 0 && stock@[q].max_weight < total),
        decreases stock@.len() - j,
    {
        if stock[j].count > 0 && stock[j].max_weight < total {
            return true;
        }
        j = j + 1;
    }
    false
}

/// The passes to run for these items and this stock.
pub fn selected_attempt_indices(
    items: &[Item],
    stock: &[StockBox],
    attempt_count: usize,
) -> (r: Vec<usize>)
    requires
        attempt_count > WEIGHT_INTERLEAVE_ATTEMPT,
    ensures
        r@ == attempt_selection(items@, stock@, attempt_count as nat),
{
    if items.len() <= SMALL_ORDER_ITEMS {
        let mut all: Vec<usize> = Vec::with_capacity(attempt_count);
        let mut i: usize = 0;
        while i < attempt_count
            invariant
                i <= attempt_count,
                all@.len() == i,
                forall|q: int| 0 <= q < i ==> #[trigger] all@[q] == q as usize,
            decreases attempt_count - i,
        {
            all.push(i);
            i = i + 1;
        }
        proof {
            assert(all@ =~= Seq::new(attempt_count as nat, |i: int| i as usize));
        }
        return all;
    }
    let mut selected: Vec<usize> = if items.len() <= MEDIUM_ORDER_ITEMS {
        vec![0, 1, 2, 3]
    } else if is_homogeneous(items) {
        vec![0]
    } else {
        vec![1]
    };
    let (weak, strong) = weak_mix(items);
    if weak && strong {
        selected.push(WEAK_LAST_ATTEMPT);
    }
    let mixed = has_mixed_weights(items);
    let total = total_weight(items);
    let constrained = can_constrain(stock, total);
    if mixed && constrained {
        selected.push(WEIGHT_INTERLEAVE_ATTEMPT);
    }
    proof {
        assert(selected@ =~= attempt_selection(items@, stock@, attempt_count as nat));
    }
    selected
}

/// At least one pass runs, and each names a configured pass.
pub proof fn lemma_selection_in_range(items: Seq<Item>, stock: Seq<StockBox>, attempt_count: nat)
    requires
        WEIGHT_INTERLEAVE_ATTEMPT < attempt_count,
    ensures
        attempt_selection(items, stock, attempt_count).len() > 0,
        forall|k: int| 0 <= k < attempt_selection(items, stock, attempt_count).len()
            ==> #[trigger] attempt_selection(items, stock, attempt_count)[k] < attempt_count,
{
}

/// Total volume of the products in the boxes.
pub open spec fn used_total(boxes: Seq<OpenBox>) -> int
    decreases boxes.len(),
{
    if boxes.len() == 0 {
        0
    } else {
        used_total(boxes.drop_last()) + boxes.last().used_volume
    }
}

/// Total volume of the boxes.
pub open spec fn capacity_total(boxes: Seq<OpenBox>) -> int
    decreases boxes.len(),
{
    if boxes.len() == 0 {
        0
    } else {
        capacity_total(boxes.drop_last()) + volume_of(boxes.last().size)
    }
}

/// The filled share of a box, as numerator and denominator.
pub open spec fn fill_ratio(b: OpenBox) -> (int, int) {
    (b.used_volume as int, volume_of(b.size))
}

/// `a` is a smaller fraction than `b` (both denominators positive).
pub open spec fn ratio_less(a: (int, int), b: (int, int)) -> bool {
    a.0 * b.1 < b.0 * a.1
}

/// The least filled share over the boxes; one whole for no boxes.
pub open spec fn min_fill(boxes: Seq<OpenBox>) -> (int, int)
    decreases boxes.len(),
{
    if boxes.len() == 0 {
        (1, 1)
    } else if boxes.len() == 1 {
        fill_ratio(boxes[0])
    } else {
        let m = min_fill(boxes.drop_last());
        let r = fill_ratio(boxes.last());
        if ratio_less(r, m) {
            r
        } else {
            m
        }
    }
}

/// Every box has a volume that is positive and fits in 64 bits.
pub open spec fn boxes_measured(boxes: Seq<OpenBox>) -> bool {
    forall|k: int| 0 <= k < boxes.len() ==> 0 < #[trigger] volume_of(boxes[k].size) <= u64::MAX
}

pub open spec fn placed_count(s: PackingSolution) -> int {
    s.requested - s.unplaced@.len()
}

/// `c` beats `k`: complete over partial; then more products placed; then
/// more product volume; then less box volume; then fewer boxes; then a
/// higher least-filled share.
pub open spec fn solution_better(c: PackingSolution, k: PackingSolution) -> bool {
    let c_complete = c.unplaced@.len() == 0;
    let k_complete = k.unplaced@.len() == 0;
    if c_complete != k_complete {
        c_complete
    } else if placed_count(c) != placed_count(k) {
        placed_count(c) > placed_count(k)
    } else if used_total(c.boxes@) != used_total(k.boxes@) {
        used_total(c.boxes@) > used_total(k.boxes@)
    } else if capacity_total(c.boxes@) != capacity_total(k.boxes@) {
        capacity_total(c.boxes@) < capacity_total(k.boxes@)
    } else if c.boxes@.len() != k.boxes@.len() {
        c.boxes@.len() < k.boxes@.len()
    } else {
        ratio_less(min_fill(k.boxes@), min_fill(c.boxes@))
    }
}

/// No outcome beats itself, and of two outcomes at most one beats the other.
pub proof fn lemma_better_is_strict(a: PackingSolution, b: PackingSolution)
    ensures
        !solution_better(a, a),
        !(solution_better(a, b) && solution_better(b, a)),
{
    let ma = min_fill(a.boxes@);
    let mb = min_fill(b.boxes@);
    assert(!ratio_less(ma, ma));
    assert(!(ratio_less(ma, mb) && ratio_less(mb, ma)));
}

/// A complete outcome (nothing left over) beats an incomplete one; of two
/// outcomes that are both complete or both incomplete, the one that places
/// more products is the better one.
pub proof fn lemma_more_placed_is_better(c: PackingSolution, k: PackingSolution)
    ensures
        c.unplaced@.len() == 0 && k.unplaced@.len() != 0 ==> solution_better(c, k),
        c.unplaced@.len() != 0 && k.unplaced@.len() == 0 ==> !solution_better(c, k),
        (c.unplaced@.len() == 0) == (k.unplaced@.len() == 0)
            && c.requested - c.unplaced@.len() > k.requested - k.unplaced@.len() ==> solution_better(c, k),
        (c.unplaced@.len() == 0) == (k.unplaced@.len() == 0)
            && c.requested - c.unplaced@.len() < k.requested - k.unplaced@.len() ==> !solution_better(c, k),
{
}

/// `a` is at least as good as `b` by completeness, then by products placed.
pub open spec fn places_no_fewer(a: PackingSolution, b: PackingSolution) -> bool {
    &&& b.unplaced@.len() == 0 ==> a.unplaced@.len() == 0
    &&& (a.unplaced@.len() == 0) == (b.unplaced@.len() == 0)
        ==> b.requested - b.unplaced@.len() <= a.requested - a.unplaced@.len()
}

/// The search keeps a complete outcome whenever some pass gives one, and no
/// pass's outcome that is as complete as the kept one places more
/// products than it.
pub proof fn lemma_search_keeps_most_placed(
    items: Seq<Item>,
    ordered: Seq<StockBox>,
    outcomes: Seq<PackingSolution>,
    sol: PackingSolution,
)
    requires
        search_run(items, ordered, outcomes, sol),
    ensures
        forall|i: int| 0 <= i < outcomes.len() ==> (#[trigger] outcomes[i]).unplaced@.len() == 0
            ==> sol.unplaced@.len() == 0,
        forall|i: int| 0 <= i < outcomes.len() && ((#[trigger] outcomes[i]).unplaced@.len() == 0) == (sol.unplaced@.len() == 0)
            ==> outcomes[i].requested - outcomes[i].unplaced@.len() <= sol.requested - sol.unplaced@.len(),
{
    if outcomes.len() > 0 {
        lemma_kept_dominates(outcomes, outcomes.len() - 1);
        assert forall|i: int| 0 <= i < outcomes.len() implies places_no_fewer(sol, #[trigger] outcomes[i]) by {}
    }
}

proof fn lemma_kept_dominates(outcomes: Seq<PackingSolution>, i: int)
    requires
        0 <= i < outcomes.len(),
    ensures
        0 <= kept_index(outcomes, i) <= i,
        forall|j: int| 0 <= j <= i ==> places_no_fewer(outcomes[kept_index(outcomes, i)], #[trigger] outcomes[j]),
    decreases i,
{
    if i > 0 {
        lemma_kept_dominates(outcomes, i - 1);
        let k = kept_index(outcomes, i - 1);
        lemma_more_placed_is_better(outcomes[i], outcomes[k]);
        if solution_better(outcomes[i], outcomes[k]) {
            assert forall|j: int| 0 <= j <= i implies places_no_fewer(outcomes[i], #[trigger] outcomes[j]) by {
                if j < i {
                    assert(places_no_fewer(outcomes[k], outcomes[j]));
                }
            }
        } else {
            assert forall|j: int| 0 <= j <= i implies places_no_fewer(outcomes[k], #[trigger] outcomes[j]) by {}
        }
    }
}

pub(crate) fn used_sum(boxes: &Vec<OpenBox>) -> (r: u128)
    ensures
        r == used_total(boxes@),
{
    let mut total: u128 = 0;
    let mut k: usize = 0;
    while k < boxes.len()
        invariant
            k <= boxes@.len(),
            total == used_total(boxes@.take(k as int)),
            total <= k * 18446744073709551615,
        decreases boxes@.len() - k,
    {
        proof {
            assert(boxes@.take(k + 1).drop_last() =~= boxes@.take(k as int));
        }
        total = total + boxes[k].used_volume as u128;
        k = k + 1;
    }
    proof {
        assert(boxes@.take(boxes@.len() as int) =~= boxes@);
    }
    total
}

pub(crate) fn capacity_sum(boxes: &Vec<OpenBox>) -> (r: u128)
    requires
        boxes_measured(boxes@),
    ensures
        r == capacity_total(boxes@),
{
    let mut total: u128 = 0;
    let mut k: usize = 0;
    while k < boxes.len()
        invariant
            k <= boxes@.len(),
            boxes_measured(boxes@),
            total == capacity_total(boxes@.take(k as int)),
            total <= k * 18446744073709551615,
        decreases boxes@.len() - k,
    {
        proof {
            assert(boxes@.take(k + 1).drop_last() =~= boxes@.take(k as int));
            assert(0 < volume_of(boxes@[k as int].size) <= u64::MAX);
        }
        let v = boxes[k].size.volume();
        total = total + v as u128;
        k = k + 1;
    }
    proof {
        assert(boxes@.take(boxes@.len() as int) =~= boxes@);
    }
    total
}

/// `a.0 / a.1 < b.0 / b.1`, by cross-multiplying in 128 bits.
fn fraction_less(a: (u64, u64), b: (u64, u64)) -> (r: bool)
    ensures
        r == ratio_less((a.0 as int, a.1 as int), (b.0 as int, b.1 as int)),
{
    let (a0, a1, b0, b1) = (a.0 as u128, a.1 as u128, b.0 as u128, b.1 as u128);
    proof {
        assert(a0 * b1 <= u64::MAX * u64::MAX) by (nonlinear_arith)
            requires a0 <= u64::MAX, b1 <= u64::MAX, 0 <= a0, 0 <= b1;
        assert(b0 * a1 <= u64::MAX * u64::MAX) by (nonlinear_arith)
            requires b0 <= u64::MAX, a1 <= u64::MAX, 0 <= b0, 0 <= a1;
    }
    let left = a0 * b1;
    let right = b0 * a1;
    left < right
}

fn least_fill(boxes: &Vec<OpenBox>) -> (r: (u64, u64))
    requires
        boxes_measured(boxes@),
    ensures
        (r.0 as int, r.1 as int) == min_fill(boxes@),
{
    if boxes.len() == 0 {
        return (1, 1);
    }
    proof {
        assert(0 < volume_of(boxes@[0].size) <= u64::MAX);
    }
    let mut best: (u64, u64) = (boxes[0].used_volume, boxes[0].size.volume());
    proof {
        assert(boxes@.take(1).len() == 1);
        assert(boxes@.take(1)[0] == boxes@[0]);
    }
    let mut k: usize = 1;
    while k < boxes.len()
        invariant
            1 <= k <= boxes@.len(),
            boxes_measured(boxes@),
            (best.0 as int, best.1 as int) == min_fill(boxes@.take(k as int)),
        decreases boxes@.len() - k,
    {
        proof {
            assert(boxes@.take(k + 1).drop_last() =~= boxes@.take(k as int));
            assert(0 < volume_of(boxes@[k as int].size) <= u64::MAX);
        }
        let r = (boxes[k].used_volume, boxes[k].size.volume());
        if fraction_less(r, best) {
            best = r;
        }
        k = k + 1;
    }
    proof {
        assert(boxes@.take(boxes@.len() as int) =~= boxes@);
    }
    best
}

/// Whether the outcome `candidate` beats `current`.
pub fn solution_is_better(candidate: &PackingSolution, current: &PackingSolution) -> (r: bool)
    requires
        boxes_measured(candidate.boxes@),
        boxes_measured(current.boxes@),
    ensures
        r == solution_better(*candidate, *current),
{
    let candidate_complete = candidate.unplaced.len() == 0;
    let current_complete = current.unplaced.len() == 0;
    if candidate_complete != current_complete {
        return candidate_complete;
    }
    let candidate_placed = candidate.requested as i128 - candidate.unplaced.len() as i128;
    let current_placed = current.requested as i128 - current.unplaced.len() as i128;
    if candidate_placed != current_placed {
        return candidate_placed > current_placed;
    }
    let candidate_product_volume = used_sum(&candidate.boxes);
    let current_product_volume = used_sum(&current.boxes);
    if candidate_product_volume != current_product_volume {
        return candidate_product_volume > current_product_volume;
    }
    let candidate_box_volume = capacity_sum(&candidate.boxes);
    let current_box_volume = capacity_sum(&current.boxes);
    if candidate_box_volume != current_box_volume {
        return candidate_box_volume < current_box_volume;
    }
    if candidate.boxes.len() != current.boxes.len() {
        return candidate.boxes.len() < current.boxes.len();
    }
    let candidate_min = least_fill(&candidate.boxes);
    let current_min = least_fill(&current.boxes);
    fraction_less(current_min, candidate_min)
}

/// `a` comes before `b` edge by edge: width, then height, then depth.
pub open spec fn dims_before(a: Dimensions, b: Dimensions) -> bool {
    if a.width != b.width {
        a.width < b.width
    } else if a.height != b.height {
        a.height < b.height
    } else {
        a.depth < b.depth
    }
}

/// Stock comes smallest first: by volume, then by edges, then by weight
/// limit, then by kind id.
pub open spec fn stock_before(a: StockBox, b: StockBox) -> bool {
    if volume_of(a.size) != volume_of(b.size) {
        volume_of(a.size) < volume_of(b.size)
    } else if a.size != b.size {
        dims_before(a.size, b.size)
    } else if a.max_weight != b.max_weight {
        a.max_weight < b.max_weight
    } else {
        text_before(a.box_type_id@, b.box_type_id@)
    }
}

pub open spec fn stock_le(a: StockBox, b: StockBox) -> bool {
    !stock_before(b, a)
}

/// `ordered` holds the stock entries, smallest first.
pub open spec fn stock_in_order(ordered: Seq<StockBox>, stock: Seq<StockBox>) -> bool {
    &&& ordered.to_multiset() == stock.to_multiset()
    &&& sorted_by(ordered, |a: StockBox, b: StockBox| stock_le(a, b))
}

/// The id of a stock entry, taken by value.
pub open spec fn stock_id(s: StockBox) -> Seq<char> {
    s.box_type_id@
}

/// Ordering the stock leaves nothing open when no two entries share an id:
/// any orderings of the same entries, however they came in, are the same
/// sequence. So what `solve` promises for a stock it promises for every
/// rearrangement of it.
pub proof fn lemma_stock_order_is_determined(
    stock: Seq<StockBox>,
    other: Seq<StockBox>,
    ordered: Seq<StockBox>,
    other_ordered: Seq<StockBox>,
)
    requires
        distinct_keys(stock, |s: StockBox| stock_id(s)),
        other.to_multiset() == stock.to_multiset(),
        stock_in_order(ordered, stock),
        stock_in_order(other_ordered, other),
    ensures
        ordered == other_ordered,
{
    lemma_stock_order();
    lemma_text_order_all();
    let key = |s: StockBox| stock_id(s);
    let leq = |a: StockBox, b: StockBox| stock_le(a, b);
    lemma_rearranged_keys_distinct(stock, ordered, key);
    lemma_rearranged_keys_distinct(stock, other_ordered, key);
    assert(no_ties(ordered, leq));
    assert(no_ties(other_ordered, leq));
    assert(ordered.len() == other_ordered.len()) by {
        assert(ordered.to_multiset().len() == other_ordered.to_multiset().len());
    }
    assert forall|x: StockBox| ordered.contains(x) <==> other_ordered.contains(x) by {
        assert(ordered.contains(x) <==> ordered.to_multiset().count(x) > 0);
        assert(other_ordered.contains(x) <==> other_ordered.to_multiset().count(x) > 0);
    }
    lemma_sorted_without_ties_is_determined(ordered, other_ordered, leq);
}

proof fn lemma_stock_order()
    ensures
        total_preorder(|a: StockBox, b: StockBox| stock_le(a, b)),
{
    lemma_text_order_all();
    let leq = |a: StockBox, b: StockBox| stock_le(a, b);
    assert forall|a: StockBox, b: StockBox| #[trigger] leq(a, b) || leq(b, a) by {
        if stock_before(b, a) && stock_before(a, b) {
            assert(false);
        }
    }
    assert forall|a: StockBox, b: StockBox, c: StockBox| #[trigger] leq(a, b) && #[trigger] leq(b, c) implies leq(a, c) by {
        if stock_before(c, a) {
            assert(stock_before(c, b) || stock_before(b, a));
        }
    }
}

/// Whether stock entry `a` comes strictly before `b`.
pub fn stock_less(a: &StockBox, b: &StockBox) -> (r: bool)
    ensures
        r == stock_before(*a, *b),
{
    let va = wide_volume(a.size);
    let vb = wide_volume(b.size);
    if va != vb {
        return va < vb;
    }
    if a.size != b.size {
        if a.size.width != b.size.width {
            return a.size.width < b.size.width;
        }
        if a.size.height != b.size.height {
            return a.size.height < b.size.height;
        }
        return a.size.depth < b.size.depth;
    }
    if a.max_weight != b.max_weight {
        return a.max_weight < b.max_weight;
    }
    text_less(a.box_type_id.as_str(), b.box_type_id.as_str())
}

/// A copy of each item, in order.
pub fn duplicate_items(items: &Vec<Item>) -> (r: Vec<Item>)
    ensures
        item_views(r@) == item_views(items@),
        r@.len() == items@.len(),
{
    let mut r: Vec<Item> = Vec::with_capacity(items.len());
    let mut k: usize = 0;
    while k < items.len()
        invariant
            k <= items@.len(),
            r@.len() == k,
            forall|q: int| 0 <= q < k ==> #[trigger] r@[q]@ == items@[q]@,
        decreases items@.len() - k,
    {
        r.push(items[k].duplicate());
        k = k + 1;
    }
    proof {
        assert(item_views(r@) =~= item_views(items@));
    }
    r
}

/// Every box of a valid packing has a positive volume that fits in 64 bits.
pub proof fn lemma_valid_boxes_measured(sol: PackingSolution, items: Seq<Item>, stock: Seq<StockBox>)
    requires
        packing_valid(sol, items, stock),
    ensures
        boxes_measured(sol.boxes@),
{
    assert forall|k: int| 0 <= k < sol.boxes@.len() implies 0 < #[trigger] volume_of(sol.boxes@[k].size) <= u64::MAX by {
        let b = sol.boxes@[k];
        assert(box_wf(b) && b.placements@.len() > 0);
        assert(placement_sound(b.placements@[0], b.size, b.placements@.take(0)));
        let w = b.size.width as int;
        let h = b.size.height as int;
        let d = b.size.depth as int;
        assert(w >= 1 && h >= 1 && d >= 1);
        assert(w * h * d > 0) by (nonlinear_arith)
            requires w >= 1, h >= 1, d >= 1;
        crate::geometry::lemma_bounded_volume(b.size);
    }
}

/// `sol` is what one pass with `plan` gives on (a copy of) the items.
pub open spec fn pass_outcome(
    items: Seq<Item>,
    stock: Seq<StockBox>,
    plan: (ItemOrder, BoxPolicy, PlacementPolicy),
    sol: PackingSolution,
) -> bool {
    exists|copy: Seq<Item>, sorted: Seq<Item>, trace: Seq<PassState>|
        item_views(copy) == item_views(items)
        && #[trigger] pass_run(copy, sorted, trace, stock, plan.0, plan.1, plan.2, sol)
}

/// Which of the outcomes `0..=i` the search holds after outcome `i`: a
/// later one takes the place of the one held only when it is better.
pub open spec fn kept_index(outcomes: Seq<PackingSolution>, i: int) -> int
    decreases i,
{
    if i <= 0 {
        0
    } else {
        let k = kept_index(outcomes, i - 1);
        if solution_better(outcomes[i], outcomes[k]) {
            i
        } else {
            k
        }
    }
}

/// The search ran the selected passes in turn, they gave `outcomes`, and
/// `sol` is the one it held at the end.
pub open spec fn search_run(
    items: Seq<Item>,
    ordered: Seq<StockBox>,
    outcomes: Seq<PackingSolution>,
    sol: PackingSolution,
) -> bool {
    let selected = attempt_selection(items, ordered, ATTEMPT_COUNT as nat);
    &&& outcomes.len() == selected.len()
    &&& forall|i: int| 0 <= i < outcomes.len() ==> pass_outcome(items, ordered, attempt_spec(selected[i] as int), #[trigger] outcomes[i])
    &&& sol == outcomes[kept_index(outcomes, outcomes.len() - 1)]
}

/// Runs the selected passes over the stock, smallest kinds first, and keeps
/// the best outcome: a valid packing of the items with boxes from the stock.
pub fn solve(items: Vec<Item>, stock: Vec<StockBox>) -> (solution: PackingSolution)
    requires
        items@.len() <= ITEM_LIMIT,
        all_items_ok(items@),
        forall|j: int| 0 <= j < stock@.len() ==> #[trigger] edges_bounded(stock@[j].size),
    ensures
        exists|ordered: Seq<StockBox>, outcomes: Seq<PackingSolution>|
            stock_in_order(ordered, stock@) && packing_valid(solution, items@, ordered)
            && #[trigger] search_run(items@, ordered, outcomes, solution),
{
    proof {
        lemma_stock_order();
    }
    let ghost original = stock@;
    let ordered = sort_by(stock, stock_less, Ghost(|a: StockBox, b: StockBox| stock_le(a, b)));
    proof {
        assert forall|k: int| 0 <= k < ordered@.len() implies #[trigger] edges_bounded(ordered@[k].size) by {
            assert(ordered@.contains(ordered@[k]));
            assert(ordered@.to_multiset().count(ordered@[k]) > 0);
            assert(original.contains(ordered@[k]));
            let j = choose|j: int| 0 <= j < original.len() && original[j] == ordered@[k];
            assert(edges_bounded(original[j].size));
        }
        assert(stock_in_order(ordered@, original));
    }
    let selected = selected_attempt_indices(items.as_slice(), ordered.as_slice(), ATTEMPT_COUNT);
    proof {
        lemma_selection_in_range(items@, ordered@, ATTEMPT_COUNT as nat);
    }
    let mut best: Option<PackingSolution> = None;
    let ghost mut outcomes: Seq<PackingSolution> = Seq::empty();
    let mut i: usize = 0;
    while i < selected.len()
        invariant
            selected@ == attempt_selection(items@, ordered@, ATTEMPT_COUNT as nat),
            selected@.len() > 0,
            forall|k: int| 0 <= k < selected@.len() ==> #[trigger] selected@[k] < ATTEMPT_COUNT,
            i <= selected@.len(),
            best is Some <==> i > 0,
            best matches Some(b) ==> packing_valid(b, items@, ordered@),
            outcomes.len() == i,
            forall|k: int| 0 <= k < i ==> pass_outcome(items@, ordered@, attempt_spec(selected@[k] as int), #[trigger] outcomes[k]),
            i > 0 ==> best == Some(outcomes[kept_index(outcomes, i - 1)]),
            items@.len() <= ITEM_LIMIT,
            all_items_ok(items@),
            forall|k: int| 0 <= k < ordered@.len() ==> #[trigger] edges_bounded(ordered@[k].size),
        decreases selected@.len() - i,
    {
        proof {
            assert(selected@[i as int] < ATTEMPT_COUNT);
        }
        let (item_order, box_policy, placement_policy) = attempt_plan(selected[i]);
        let copy = duplicate_items(&items);
        let ghost copy_view = copy@;
        proof {
            assert forall|k: int| 0 <= k < copy@.len() implies #[trigger] crate::container::item_shape_ok(copy@[k].size) by {
                assert(item_views(copy@)[k] == item_views(items@)[k]);
                assert(crate::container::item_shape_ok(items@[k].size));
            }
        }
        let candidate = pack_once(copy, ordered.as_slice(), item_order, box_policy, placement_policy);
        let ghost old_outcomes = outcomes;
        let ghost cand_g = candidate;
        proof {
            assert(packing_valid(candidate, items@, ordered@));
            lemma_valid_boxes_measured(candidate, items@, ordered@);
            let (s, t) = choose|s: Seq<Item>, t: Seq<PassState>|
                pass_run(copy_view, s, t, ordered@, item_order, box_policy, placement_policy, candidate);
            assert(pass_run(copy_view, s, t, ordered@, item_order, box_policy, placement_policy, candidate));
            assert((item_order, box_policy, placement_policy) == attempt_spec(selected@[i as int] as int));
            assert(pass_outcome(items@, ordered@, attempt_spec(selected@[i as int] as int), candidate));
            outcomes = outcomes.push(candidate);
            assert forall|k: int| 0 <= k < i + 1 implies pass_outcome(items@, ordered@, attempt_spec(selected@[k] as int), #[trigger] outcomes[k]) by {
                if k < i {
                    assert(outcomes[k] == old_outcomes[k]);
                }
            }
            if i > 0 {
                assert(kept_index(outcomes, i - 1) == kept_index(old_outcomes, i - 1)) by {
                    lemma_kept_index_prefix(old_outcomes, outcomes, i - 1);
                }
            }
        }
        let replace = match &best {
            Some(current) => {
                proof {
                    lemma_valid_boxes_measured(*current, items@, ordered@);
                }
                solution_is_better(&candidate, current)
            },
            None => true,
        };
        if replace {
            best = Some(candidate);
        }
        proof {
            assert(outcomes[i as int] == cand_g);
            if i > 0 {
                lemma_kept_index_prefix(old_outcomes, outcomes, i - 1);
                let k = kept_index(outcomes, i - 1);
                assert(outcomes[k] == old_outcomes[k]);
                assert(replace == solution_better(cand_g, outcomes[k]));
                assert(kept_index(outcomes, i as int) == (if solution_better(cand_g, outcomes[k]) { i as int } else { k }));
            } else {
                assert(kept_index(outcomes, 0) == 0);
            }
            assert(best == Some(outcomes[kept_index(outcomes, i as int)]));
        }
        i = i + 1;
    }
    let solution = best.unwrap();
    proof {
        assert(stock_in_order(ordered@, original));
        assert(search_run(items@, ordered@, outcomes, solution));
    }
    solution
}

proof fn lemma_kept_index_prefix(a: Seq<PackingSolution>, b: Seq<PackingSolution>, i: int)
    requires
        0 <= i < a.len() <= b.len(),
        forall|k: int| 0 <= k < a.len() ==> #[trigger] a[k] == b[k],
    ensures
        kept_index(a, i) == kept_index(b, i),
        0 <= kept_index(a, i) <= i,
    decreases i,
{
    if i > 0 {
        lemma_kept_index_prefix(a, b, i - 1);
    }
}

proof fn lemma_totals_bound(boxes: Seq<OpenBox>)
    requires
        forall|k: int| 0 <= k < boxes.len() ==> box_wf(#[trigger] boxes[k]),
    ensures
        0 <= used_total(boxes) <= boxes_items(boxes).len() * volume_cap(),
        0 <= capacity_total(boxes) <= boxes.len() * volume_cap(),
    decreases boxes.len(),
{
    if boxes.len() > 0 {
        let init = boxes.drop_last();
        let last = boxes.last();
        assert forall|k: int| 0 <= k < init.len() implies box_wf(#[trigger] init[k]) by {
            assert(init[k] == boxes[k]);
        }
        lemma_totals_bound(init);
        assert(box_wf(boxes[boxes.len() - 1]));
        lemma_volume_sum_bound(last);
        crate::geometry::lemma_bounded_volume(last.size);
        let a = boxes_items(init).len() as int;
        let b = last.placements@.len() as int;
        assert(box_items(last).len() == b) by {
            assert(last.placements@.map_values(|p: crate::placement::PlacedItem| p.item@).len() == b);
        }
        assert(boxes_items(boxes).len() == a + b);
        assert((a + b) * volume_cap() == a * volume_cap() + b * volume_cap()) by (nonlinear_arith);
        assert((init.len() + 1) * volume_cap() == init.len() * volume_cap() + volume_cap()) by (nonlinear_arith);
    }
}

/// A valid packing of at most `ITEM_LIMIT` items can be turned into a plan.
pub proof fn lemma_valid_plan_ready(sol: PackingSolution, items: Seq<Item>, stock: Seq<StockBox>)
    requires
        packing_valid(sol, items, stock),
        items.len() <= ITEM_LIMIT,
    ensures
        crate::plan::plan_ready(sol),
{
    lemma_valid_boxes_measured(sol, items, stock);
    let boxes = sol.boxes@;
    assert forall|k: int| 0 <= k < boxes.len() implies box_wf(#[trigger] boxes[k]) by {
        assert(box_wf(boxes[k]) && boxes[k].placements@.len() > 0);
    }
    lemma_totals_bound(boxes);
    assert forall|k: int| 0 <= k < boxes.len() implies #[trigger] boxes[k].placements@.len() > 0 by {
        assert(box_wf(boxes[k]) && boxes[k].placements@.len() > 0);
    }
    lemma_boxes_items_len(boxes);
    let placed = boxes_items(boxes).len() as int;
    let left = unplaced_items(sol.unplaced@).len() as int;
    assert(left == sol.unplaced@.len()) by {
        assert(sol.unplaced@.map_values(|x: crate::packer::UnplacedItem| x.item@).len() == sol.unplaced@.len());
    }
    assert(item_views(items).len() == items.len());
    assert(boxes_items(boxes).add(unplaced_items(sol.unplaced@)).len() == placed + left);
    assert(placed + left == items.len());
    lemma_item_cap();
    lemma_cap_mul(placed, ITEM_LIMIT as int);
    lemma_cap_mul(boxes.len() as int, ITEM_LIMIT as int);
}

} // verus!
