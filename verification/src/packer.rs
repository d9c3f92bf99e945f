//! The packing heuristic: item orders, box choice, one greedy pass, and the
//! multi-start search that keeps the best pass.

use vstd::multiset::Multiset;
use vstd::prelude::*;

use crate::container::{
    box_bounded, box_wf, can_place, candidate_at, candidate_sound, contact_spec, first_best,
    fits_at, find_placement, item_shape_ok, lemma_first_best_unique, lemma_lex_order,
    lemma_wf_bounded, lex_less, option_before, option_ok, option_score, score_view, support_matches,
    placed_into, OpenBox, PlacementCandidate, PlacementPolicy, StockBox,
};
use crate::geometry::{
    distinct_orientations, edges_bounded, fits_rotated, fits_with_rotation, grid_capacity, grid_capacity_spec,
    max_edge_of, oriented, volume_of, wide_volume, Dimensions, FreeSpace, Position, MAX_EDGE,
};
use crate::placement::{is_weak_item, Item, ItemView, PlacedItem, ITEM_LIMIT};
use crate::sorting::{
    distinct_keys, lemma_rearranged_keys_distinct, lemma_sorted_without_ties_is_determined,
    lemma_stable_sort_elements, no_ties, sort_by, sort_by_in, sorted_by, stably_sorted, total_preorder,
};
use crate::text::{decimal, lemma_text_order_all, text_before, text_less};

verus! {

broadcast use vstd::seq_lib::group_to_multiset_ensures;

/// The order in which one pass considers the items.
#[derive(Clone, Copy, Debug, PartialEq, Eq, Structural)]
pub enum ItemOrder {
    /// Largest volume first.
    Volume,
    /// Longest edge first.
    MaxEdge,
    /// Heaviest first.
    Weight,
    /// Heaviest first, then alternating heavy and light items.
    WeightInterleave,
    /// Items that fit the fewest available boxes first.
    MostConstrained,
    /// Items without the `Weak` marker first.
    WeakLast,
}

/// How a new box is picked from stock.
#[derive(Clone, Copy, Debug, PartialEq, Eq, Structural)]
pub enum BoxPolicy {
    /// The smallest box that holds everything still to pack, else the largest.
    TargetRemaining,
    /// The box whose grid holds the most copies of the item.
    MaxGridCapacity,
    /// The largest box.
    Largest,
    /// The smallest box.
    Smallest,
}

/// Saturating sum of the counts of the stock kinds that can take the item:
/// kinds with boxes left, a weight limit at least the item's weight, and
/// room for the item turned some way.
pub open spec fn compatible_count_spec(item: Item, stock: Seq<StockBox>) -> int
    decreases stock.len(),
{
    if stock.len() == 0 {
        0
    } else {
        let prev = compatible_count_spec(item, stock.drop_last());
        let s = stock.last();
        if s.count > 0 && s.max_weight >= item.weight && fits_rotated(item.size, s.size) {
            if prev + s.count > usize::MAX {
                usize::MAX as int
            } else {
                prev + s.count
            }
        } else {
            prev
        }
    }
}

pub fn compatible_stock_count(item: &Item, stock: &[StockBox]) -> (c: usize)
    ensures
        c == compatible_count_spec(*item, stock@),
{
    let mut count: usize = 0;
    let mut i: usize = 0;
    while i < stock.len()
        invariant
            i <= stock@.len(),
            count == compatible_count_spec(*item, stock@.take(i as int)),
        decreases stock@.len() - i,
    {
        proof {
            assert(stock@.take(i + 1).drop_last() =~= stock@.take(i as int));
        }
        let s = &stock[i];
        if s.count > 0 && s.max_weight >= item.weight && fits_with_rotation(item.size, s.size) {
            count = count.saturating_add(s.count);
        }
        i = i + 1;
    }
    proof {
        assert(stock@.take(stock@.len() as int) =~= stock@);
    }
    count
}

pub open spec fn weak_rank(item: Item) -> int {
    if is_weak_item(item) {
        1
    } else {
        0
    }
}

/// The key of the chosen order; smaller keys come first.
pub open spec fn primary_key(order: ItemOrder, stock: Seq<StockBox>, item: Item) -> int {
    match order {
        ItemOrder::Volume => -volume_of(item.size),
        ItemOrder::MaxEdge => -max_edge_of(item.size),
        ItemOrder::Weight => -(item.weight as int),
        ItemOrder::WeightInterleave => -(item.weight as int),
        ItemOrder::MostConstrained => compatible_count_spec(item, stock),
        ItemOrder::WeakLast => weak_rank(item),
    }
}

/// `a` comes strictly before `b`: by the order's key, then larger volume,
/// longer longest edge, heavier, not weak, smaller product id, smaller
/// instance number.
pub open spec fn item_before(order: ItemOrder, stock: Seq<StockBox>, a: Item, b: Item) -> bool {
    let pa = primary_key(order, stock, a);
    let pb = primary_key(order, stock, b);
    if pa != pb {
        pa < pb
    } else if volume_of(a.size) != volume_of(b.size) {
        volume_of(a.size) > volume_of(b.size)
    } else if max_edge_of(a.size) != max_edge_of(b.size) {
        max_edge_of(a.size) > max_edge_of(b.size)
    } else if a.weight != b.weight {
        a.weight > b.weight
    } else if weak_rank(a) != weak_rank(b) {
        weak_rank(a) < weak_rank(b)
    } else if a.product_id@ != b.product_id@ {
        text_before(a.product_id@, b.product_id@)
    } else {
        a.instance_index < b.instance_index
    }
}

pub open spec fn item_le(order: ItemOrder, stock: Seq<StockBox>, a: Item, b: Item) -> bool {
    !item_before(order, stock, b, a)
}

proof fn lemma_item_order(order: ItemOrder, stock: Seq<StockBox>)
    ensures
        total_preorder(|a: Item, b: Item| item_le(order, stock, a, b)),
{
    lemma_text_order_all();
    let leq = |a: Item, b: Item| item_le(order, stock, a, b);
    assert forall|a: Item, b: Item| #[trigger] leq(a, b) || leq(b, a) by {
        if item_before(order, stock, b, a) && item_before(order, stock, a, b) {
            assert(false);
        }
    }
    assert forall|a: Item, b: Item, c: Item| #[trigger] leq(a, b) && #[trigger] leq(b, c) implies leq(a, c) by {
        if item_before(order, stock, c, a) {
            assert(item_before(order, stock, c, b) || item_before(order, stock, b, a));
        }
    }
}

/// Whether `a` comes strictly before `b` in the order.
pub fn item_less(order: ItemOrder, stock: &[StockBox], a: &Item, b: &Item) -> (r: bool)
    ensures
        r == item_before(order, stock@, *a, *b),
{
    let va = wide_volume(a.size);
    let vb = wide_volume(b.size);
    let (pa, pb): (i128, i128) = match order {
        ItemOrder::Volume => (-(va as i128), -(vb as i128)),
        ItemOrder::MaxEdge => (-(a.size.max_edge() as i128), -(b.size.max_edge() as i128)),
        ItemOrder::Weight => (-(a.weight as i128), -(b.weight as i128)),
        ItemOrder::WeightInterleave => (-(a.weight as i128), -(b.weight as i128)),
        ItemOrder::MostConstrained => (
            compatible_stock_count(a, stock) as i128,
            compatible_stock_count(b, stock) as i128,
        ),
        ItemOrder::WeakLast => (
            if a.is_weak() { 1 } else { 0 },
            if b.is_weak() { 1 } else { 0 },
        ),
    };
    if pa != pb {
        return pa < pb;
    }
    if va != vb {
        return va > vb;
    }
    let ea = a.size.max_edge();
    let eb = b.size.max_edge();
    if ea != eb {
        return ea > eb;
    }
    if a.weight != b.weight {
        return a.weight > b.weight;
    }
    let wa = a.is_weak();
    let wb = b.is_weak();
    if wa != wb {
        return !wa;
    }
    if a.product_id != b.product_id {
        return text_less(a.product_id.as_str(), b.product_id.as_str());
    }
    a.instance_index < b.instance_index
}

fn item_less_in(ctx: &(ItemOrder, &[StockBox]), a: &Item, b: &Item) -> (r: bool)
    ensures
        r == item_before(ctx.0, ctx.1@, *a, *b),
{
    item_less(ctx.0, ctx.1, a, b)
}

pub open spec fn item_views(items: Seq<Item>) -> Seq<ItemView> {
    items.map_values(|i: Item| i@)
}

pub open spec fn all_items_ok(items: Seq<Item>) -> bool {
    forall|k: int| 0 <= k < items.len() ==> #[trigger] item_shape_ok(items[k].size)
}

/// The position in sorted order that interleaving puts at `k`, among the
/// first `p` (positive-weight) items: heaviest, lightest, second heaviest,
/// second lightest, and so on.
pub open spec fn interleave_source(k: int, p: int) -> int {
    if k % 2 == 0 {
        k / 2
    } else {
        p - 1 - k / 2
    }
}

/// `out` is `sorted` with its first `p` items interleaved.
pub open spec fn is_interleaving(out: Seq<ItemView>, sorted: Seq<ItemView>, p: int) -> bool {
    &&& out.len() == sorted.len()
    &&& 0 <= p <= sorted.len()
    &&& forall|k: int| 0 <= k < p ==> #[trigger] out[k] == sorted[interleave_source(k, p)]
    &&& forall|k: int| p <= k < out.len() ==> #[trigger] out[k] == sorted[k]
}


/// Items by order, keeping the first `p` ones that weigh something.
pub open spec fn positive_prefix(s: Seq<Item>, p: int) -> bool {
    &&& 0 <= p <= s.len()
    &&& forall|k: int| 0 <= k < p ==> #[trigger] s[k].weight > 0
    &&& forall|k: int| p <= k < s.len() ==> #[trigger] s[k].weight == 0
}

/// `out` is `input` in the order `item_order` asks for: stably sorted, and
/// for `WeightInterleave` the items that weigh something then dealt
/// heaviest, lightest, second heaviest, second lightest, and so on.
pub open spec fn items_ordered(input: Seq<Item>, out: Seq<Item>, item_order: ItemOrder, stock: Seq<StockBox>) -> bool {
    let leq = |a: Item, b: Item| item_le(item_order, stock, a, b);
    &&& item_views(out).to_multiset() == item_views(input).to_multiset()
    &&& item_order != ItemOrder::WeightInterleave ==> sorted_by(out, leq) && stably_sorted(out, input, leq)
    &&& item_order == ItemOrder::WeightInterleave ==> exists|sorted: Seq<Item>, p: int|
        sorted_by(sorted, leq)
        && stably_sorted(sorted, input, leq)
        && item_views(sorted).to_multiset() == item_views(input).to_multiset()
        && positive_prefix(sorted, p)
        && is_interleaving(item_views(out), item_views(sorted), p)
}

/// The product id and instance number of an item, taken by value.
pub open spec fn instance_key(item: Item) -> (Seq<char>, usize) {
    (item.product_id@, item.instance_index)
}

/// Along a sequence sorted by the item order, the order's own key never
/// decreases: under `Volume` the volumes never grow, under `WeakLast` no
/// weak item comes before one that is not weak, and so on.
pub proof fn lemma_sorted_items_follow_key(order: ItemOrder, stock: Seq<StockBox>, s: Seq<Item>)
    requires
        sorted_by(s, |a: Item, b: Item| item_le(order, stock, a, b)),
    ensures
        forall|i: int, j: int| 0 <= i < j < s.len() ==> primary_key(order, stock, #[trigger] s[i]) <= primary_key(order, stock, #[trigger] s[j]),
{
    let leq = |a: Item, b: Item| item_le(order, stock, a, b);
    assert forall|i: int, j: int| 0 <= i < j < s.len() implies primary_key(order, stock, #[trigger] s[i]) <= primary_key(order, stock, #[trigger] s[j]) by {
        assert(leq(s[i], s[j]));
    }
}

/// What each item order means along a sequence it sorts: `Volume` puts
/// larger volumes first, `MaxEdge` longer longest edges first, `Weight` and
/// `WeightInterleave` heavier items first, `WeakLast` weak items after the
/// others, and `MostConstrained` items fewer stock boxes can take first.
pub proof fn lemma_item_orders_mean(order: ItemOrder, stock: Seq<StockBox>, s: Seq<Item>)
    requires
        sorted_by(s, |a: Item, b: Item| item_le(order, stock, a, b)),
    ensures
        forall|i: int, j: int| 0 <= i < j < s.len() ==> {
            &&& order == ItemOrder::Volume ==> volume_of((#[trigger] s[i]).size) >= volume_of((#[trigger] s[j]).size)
            &&& order == ItemOrder::MaxEdge ==> max_edge_of(s[i].size) >= max_edge_of(s[j].size)
            &&& (order == ItemOrder::Weight || order == ItemOrder::WeightInterleave) ==> s[i].weight >= s[j].weight
            &&& order == ItemOrder::WeakLast ==> (is_weak_item(s[i]) ==> is_weak_item(s[j]))
            &&& order == ItemOrder::MostConstrained ==> compatible_count_spec(s[i], stock) <= compatible_count_spec(s[j], stock)
        },
{
    let leq = |a: Item, b: Item| item_le(order, stock, a, b);
    assert forall|i: int, j: int| 0 <= i < j < s.len() implies {
        &&& order == ItemOrder::Volume ==> volume_of((#[trigger] s[i]).size) >= volume_of((#[trigger] s[j]).size)
        &&& order == ItemOrder::MaxEdge ==> max_edge_of(s[i].size) >= max_edge_of(s[j].size)
        &&& (order == ItemOrder::Weight || order == ItemOrder::WeightInterleave) ==> s[i].weight >= s[j].weight
        &&& order == ItemOrder::WeakLast ==> (is_weak_item(s[i]) ==> is_weak_item(s[j]))
        &&& order == ItemOrder::MostConstrained ==> compatible_count_spec(s[i], stock) <= compatible_count_spec(s[j], stock)
    } by {
        assert(leq(s[i], s[j]));
    }
}

/// What sorting the items for a pass gives: under every order but
/// `WeightInterleave`, the sequence follows the order's meaning (see
/// `lemma_item_orders_mean`); under `WeightInterleave`, the first item is
/// the heaviest.
pub proof fn lemma_sorted_items_follow_order(input: Seq<Item>, out: Seq<Item>, order: ItemOrder, stock: Seq<StockBox>)
    requires
        items_ordered(input, out, order, stock),
    ensures
        order != ItemOrder::WeightInterleave ==> forall|i: int, j: int| 0 <= i < j < out.len() ==> {
            &&& order == ItemOrder::Volume ==> volume_of((#[trigger] out[i]).size) >= volume_of((#[trigger] out[j]).size)
            &&& order == ItemOrder::MaxEdge ==> max_edge_of(out[i].size) >= max_edge_of(out[j].size)
            &&& order == ItemOrder::Weight ==> out[i].weight >= out[j].weight
            &&& order == ItemOrder::WeakLast ==> (is_weak_item(out[i]) ==> is_weak_item(out[j]))
            &&& order == ItemOrder::MostConstrained ==> compatible_count_spec(out[i], stock) <= compatible_count_spec(out[j], stock)
        },
        order == ItemOrder::WeightInterleave ==> forall|k: int| 0 <= k < out.len() ==> out[0].weight >= (#[trigger] out[k]).weight,
{
    let leq = |a: Item, b: Item| item_le(order, stock, a, b);
    if order != ItemOrder::WeightInterleave {
        lemma_item_orders_mean(order, stock, out);
    } else {
        let (sorted, p) = choose|sorted: Seq<Item>, p: int|
            sorted_by(sorted, leq)
            && stably_sorted(sorted, input, leq)
            && item_views(sorted).to_multiset() == item_views(input).to_multiset()
            && positive_prefix(sorted, p)
            && is_interleaving(item_views(out), item_views(sorted), p);
        lemma_item_orders_mean(order, stock, sorted);
        assert forall|k: int| 0 <= k < out.len() implies out[0].weight >= (#[trigger] out[k]).weight by {
            assert(item_views(out)[0] == item_views(sorted)[0]) by {
                if p > 0 {
                    assert(interleave_source(0, p) == 0);
                }
            }
            let m = if k < p { interleave_source(k, p) } else { k };
            assert(0 <= m < sorted.len());
            assert(item_views(out)[k] == item_views(sorted)[m]);
            assert(out[0]@.weight == out[0].weight);
            assert(out[k]@.weight == out[k].weight);
            if m > 0 {
                assert(sorted[0].weight >= sorted[m].weight);
            }
        }
    }
}

proof fn lemma_item_ties_share_key(order: ItemOrder, stock: Seq<StockBox>)
    ensures
        forall|a: Item, b: Item| #[trigger] item_le(order, stock, a, b) && #[trigger] item_le(order, stock, b, a)
            ==> instance_key(a) == instance_key(b),
{
    lemma_text_order_all();
}

/// Sorting the items leaves nothing open when no two of them share a
/// product id and instance number: any two arrangements of the same items
/// come out in the same order (item for item; for `WeightInterleave`, the
/// dealt order holds the same items by value at each place).
pub proof fn lemma_item_order_is_determined(
    order: ItemOrder,
    stock: Seq<StockBox>,
    input: Seq<Item>,
    other: Seq<Item>,
    out: Seq<Item>,
    other_out: Seq<Item>,
)
    requires
        distinct_keys(input, |i: Item| instance_key(i)),
        other.to_multiset() == input.to_multiset(),
        items_ordered(input, out, order, stock),
        items_ordered(other, other_out, order, stock),
    ensures
        item_views(out) == item_views(other_out),
        order != ItemOrder::WeightInterleave ==> out == other_out,
{
    let key = |i: Item| instance_key(i);
    let leq = |a: Item, b: Item| item_le(order, stock, a, b);
    lemma_item_order(order, stock);
    lemma_item_ties_share_key(order, stock);
    lemma_rearranged_keys_distinct(input, other, key);
    assert forall|x: Item| input.contains(x) <==> other.contains(x) by {
        assert(input.contains(x) <==> input.to_multiset().count(x) > 0);
        assert(other.contains(x) <==> other.to_multiset().count(x) > 0);
    }
    input.to_multiset_ensures();
    other.to_multiset_ensures();
    assert(input.len() == other.len());
    if order != ItemOrder::WeightInterleave {
        lemma_sorted_items_agree(order, stock, input, other, out, other_out);
    } else {
        let (sorted, p) = choose|sorted: Seq<Item>, p: int|
            sorted_by(sorted, leq)
            && stably_sorted(sorted, input, leq)
            && item_views(sorted).to_multiset() == item_views(input).to_multiset()
            && positive_prefix(sorted, p)
            && is_interleaving(item_views(out), item_views(sorted), p);
        let (sorted2, p2) = choose|sorted: Seq<Item>, p: int|
            sorted_by(sorted, leq)
            && stably_sorted(sorted, other, leq)
            && item_views(sorted).to_multiset() == item_views(other).to_multiset()
            && positive_prefix(sorted, p)
            && is_interleaving(item_views(other_out), item_views(sorted), p);
        lemma_sorted_items_agree(order, stock, input, other, sorted, sorted2);
        assert(sorted == sorted2);
        if p < p2 {
            assert(sorted2[p].weight > 0);
            assert(sorted[p].weight == 0);
        } else if p2 < p {
            assert(sorted[p2].weight > 0);
            assert(sorted2[p2].weight == 0);
        }
        assert(p == p2);
        assert(item_views(out).len() == item_views(other_out).len());
        assert(item_views(out) =~= item_views(other_out)) by {
            assert forall|k: int| 0 <= k < item_views(out).len() implies item_views(out)[k] == item_views(other_out)[k] by {
                if k < p {
                    assert(item_views(out)[k] == item_views(sorted)[interleave_source(k, p)]);
                    assert(item_views(other_out)[k] == item_views(sorted2)[interleave_source(k, p)]);
                } else {
                    assert(item_views(out)[k] == item_views(sorted)[k]);
                    assert(item_views(other_out)[k] == item_views(sorted2)[k]);
                }
            }
        }
    }
}

proof fn lemma_sorted_items_agree(
    order: ItemOrder,
    stock: Seq<StockBox>,
    input: Seq<Item>,
    other: Seq<Item>,
    out: Seq<Item>,
    other_out: Seq<Item>,
)
    requires
        total_preorder(|a: Item, b: Item| item_le(order, stock, a, b)),
        forall|a: Item, b: Item| #[trigger] item_le(order, stock, a, b) && #[trigger] item_le(order, stock, b, a)
            ==> instance_key(a) == instance_key(b),
        distinct_keys(input, |i: Item| instance_key(i)),
        distinct_keys(other, |i: Item| instance_key(i)),
        forall|x: Item| input.contains(x) <==> other.contains(x),
        input.len() == other.len(),
        sorted_by(out, |a: Item, b: Item| item_le(order, stock, a, b)),
        sorted_by(other_out, |a: Item, b: Item| item_le(order, stock, a, b)),
        stably_sorted(out, input, |a: Item, b: Item| item_le(order, stock, a, b)),
        stably_sorted(other_out, other, |a: Item, b: Item| item_le(order, stock, a, b)),
    ensures
        out == other_out,
{
    let key = |i: Item| instance_key(i);
    let leq = |a: Item, b: Item| item_le(order, stock, a, b);
    lemma_stable_sort_elements(out, input, leq, key);
    lemma_stable_sort_elements(other_out, other, leq, key);
    assert(no_ties(out, leq));
    assert(no_ties(other_out, leq));
    lemma_sorted_without_ties_is_determined(out, other_out, leq);
}

/// Sorts the items by the order. For `WeightInterleave`, the items that weigh
/// something are then dealt heaviest, lightest, second heaviest, second
/// lightest, and so on, and the weightless ones follow.
pub fn sort_items(items: &mut Vec<Item>, item_order: ItemOrder, stock: &[StockBox])
    ensures
        items_ordered(old(items)@, final(items)@, item_order, stock@),
{
    proof {
        lemma_item_order(item_order, stock@);
    }
    let ghost original = items@;
    let mut taken: Vec<Item> = Vec::new();
    std::mem::swap(&mut taken, items);
    let ctx = (item_order, stock);
    let sorted = sort_by_in(
        taken,
        &ctx,
        item_less_in,
        Ghost(|a: Item, b: Item| item_le(item_order, stock@, a, b)),
    );
    proof {
        crate::placement::lemma_map_multiset(sorted@, original, |i: Item| i@);
    }
    if item_order != ItemOrder::WeightInterleave {
        *items = sorted;
        return;
    }
    let ghost sv = item_views(sorted@);
    let n = sorted.len();
    let mut p: usize = 0;
    while p < n && sorted[p].weight > 0
        invariant
            p <= n,
            n == sorted@.len(),
            forall|k: int| 0 <= k < p ==> #[trigger] sorted@[k].weight > 0,
        decreases n - p,
    {
        p = p + 1;
    }
    proof {
        let leq = |a: Item, b: Item| item_le(item_order, stock@, a, b);
        assert forall|k: int| p <= k < n implies #[trigger] sorted@[k].weight == 0 by {
            if k > p {
                assert(leq(sorted@[p as int], sorted@[k]));
            }
        }
        assert(sv.subrange(0, 0).to_multiset() =~= Multiset::empty());
        assert(sv.subrange(p as int, p as int).to_multiset() =~= Multiset::empty());
    }
    let mut out: Vec<Item> = Vec::with_capacity(n);
    let mut high: usize = 0;
    let mut low: usize = p;
    let mut index: usize = 0;
    while index < p
        invariant
            n == sorted@.len(),
            sv == item_views(sorted@),
            p <= n,
            index <= p,
            high == (index + 1) / 2,
            low == p - index / 2,
            high <= low,
            out@.len() == index,
            forall|k: int| 0 <= k < index ==> #[trigger] item_views(out@)[k] == sv[interleave_source(k, p as int)],
            item_views(out@).to_multiset() == sv.subrange(0, high as int).to_multiset().add(sv.subrange(low as int, p as int).to_multiset()),
        decreases p - index,
    {
        let ghost prev = out@;
        if index % 2 == 0 {
            let copy = sorted[high].duplicate();
            proof {
                assert(sv.subrange(0, high + 1) =~= sv.subrange(0, high as int).push(sv[high as int]));
                assert(item_views(prev.push(copy)) =~= item_views(prev).push(copy@));
                assert(interleave_source(index as int, p as int) == high);
            }
            out.push(copy);
            high = high + 1;
        } else {
            low = low - 1;
            let copy = sorted[low].duplicate();
            proof {
                assert(sv.subrange(low as int, p as int) =~= seq![sv[low as int]] + sv.subrange(low + 1, p as int));
                vstd::seq_lib::lemma_multiset_commutative(seq![sv[low as int]], sv.subrange(low + 1, p as int));
                assert(seq![sv[low as int]].to_multiset() =~= Multiset::empty().insert(sv[low as int])) by {
                    assert(seq![sv[low as int]] =~= Seq::<ItemView>::empty().push(sv[low as int]));
                }
                assert(item_views(prev.push(copy)) =~= item_views(prev).push(copy@));
                assert(interleave_source(index as int, p as int) == low);
            }
            out.push(copy);
        }
        index = index + 1;
    }
    proof {
        assert(high == low);
        assert(sv.subrange(0, p as int) =~= sv.subrange(0, high as int) + sv.subrange(low as int, p as int));
        vstd::seq_lib::lemma_multiset_commutative(sv.subrange(0, high as int), sv.subrange(low as int, p as int));
    }
    while index < n
        invariant
            n == sorted@.len(),
            sv == item_views(sorted@),
            p <= index <= n,
            out@.len() == index,
            forall|k: int| 0 <= k < p ==> #[trigger] item_views(out@)[k] == sv[interleave_source(k, p as int)],
            forall|k: int| p <= k < index ==> #[trigger] item_views(out@)[k] == sv[k],
            item_views(out@).to_multiset() == sv.subrange(0, index as int).to_multiset(),
        decreases n - index,
    {
        let copy = sorted[index].duplicate();
        proof {
            assert(sv.subrange(0, index + 1) =~= sv.subrange(0, index as int).push(sv[index as int]));
            assert(item_views(out@.push(copy)) =~= item_views(out@).push(copy@));
        }
        out.push(copy);
        index = index + 1;
    }
    proof {
        assert(sv.subrange(0, n as int) =~= sv);
        assert(positive_prefix(sorted@, p as int));
        assert(is_interleaving(item_views(out@), sv, p as int));
    }
    *items = out;
}

/// The whole-box free space of an empty box of the given size.
pub open spec fn whole_space(size: Dimensions) -> FreeSpace {
    FreeSpace { position: Position { x: 0, y: 0, z: 0 }, size }
}

/// A candidate that is sound for an empty box of the stock kind.
pub open spec fn fresh_candidate(s: StockBox, item: Item, c: PlacementCandidate) -> bool {
    &&& item.weight <= s.max_weight
    &&& item_shape_ok(item.size)
    &&& fits_at(whole_space(s.size), c.position, c.size)
    &&& c.size == oriented(c.orientation, item.size)
    &&& support_matches(c.position, c.size, Seq::empty(), c.supported_by@)
}

/// An empty box of the stock kind, as `OpenBox::new` makes it.
pub open spec fn is_fresh_box(b: OpenBox, s: StockBox) -> bool {
    &&& b.box_type_id@ == s.box_type_id@
    &&& b.size == s.size
    &&& b.max_weight == s.max_weight
    &&& b.total_weight == 0
    &&& b.used_volume == 0
    &&& b.occupied_size == Dimensions { width: 0, height: 0, depth: 0 }
    &&& b.free_spaces@ == seq![whole_space(s.size)]
    &&& b.placements@.len() == 0
    &&& b.preferred_orientations@.len() == 0
}

proof fn lemma_fresh_candidate(b: OpenBox, s: StockBox, item: Item, c: PlacementCandidate)
    requires
        is_fresh_box(b, s),
    ensures
        candidate_sound(b, item, c) <==> fresh_candidate(s, item, c),
{
    assert(b.placements@ =~= Seq::<PlacedItem>::empty());
    if fresh_candidate(s, item, c) {
        assert(fits_at(b.free_spaces@[0], c.position, c.size));
    }
}

/// Two empty boxes of one stock kind offer the same places with the same scores.
proof fn lemma_fresh_agree(b1: OpenBox, b2: OpenBox, s: StockBox, item: Item, policy: PlacementPolicy)
    requires
        is_fresh_box(b1, s),
        is_fresh_box(b2, s),
    ensures
        forall|fi: int, oi: int| #[trigger] option_ok(b1, item, fi, oi) == option_ok(b2, item, fi, oi),
        forall|fi: int, oi: int| #[trigger] option_score(b1, item, policy, fi, oi) == option_score(b2, item, policy, fi, oi),
        forall|fi: int, oi: int| #[trigger] first_best(b1, item, policy, fi, oi) == first_best(b2, item, policy, fi, oi),
        forall|fi: int, oi: int, c: PlacementCandidate| #[trigger] candidate_at(b1, item, fi, oi, c) == candidate_at(b2, item, fi, oi, c),
        can_place(b1, item) == can_place(b2, item),
{
    assert(b1.placements@ =~= b2.placements@);
    assert(b1.preferred_orientations@ =~= b2.preferred_orientations@);
    assert forall|fi: int, oi: int| #[trigger] option_ok(b1, item, fi, oi) == option_ok(b2, item, fi, oi) by {}
    assert forall|fi: int, oi: int| #[trigger] option_score(b1, item, policy, fi, oi) == option_score(b2, item, policy, fi, oi) by {}
    assert forall|fi: int, oi: int| #[trigger] first_best(b1, item, policy, fi, oi) == first_best(b2, item, policy, fi, oi) by {
        if first_best(b1, item, policy, fi, oi) {
            assert forall|gf: int, go: int| #[trigger] option_ok(b2, item, gf, go)
                implies !lex_less(option_score(b2, item, policy, gf, go), option_score(b2, item, policy, fi, oi)) by {
                assert(option_ok(b1, item, gf, go));
            }
            assert forall|gf: int, go: int| #[trigger] option_ok(b2, item, gf, go) && option_before(gf, go, fi, oi)
                implies lex_less(option_score(b2, item, policy, fi, oi), option_score(b2, item, policy, gf, go)) by {
                assert(option_ok(b1, item, gf, go));
            }
        }
        if first_best(b2, item, policy, fi, oi) {
            assert forall|gf: int, go: int| #[trigger] option_ok(b1, item, gf, go)
                implies !lex_less(option_score(b1, item, policy, gf, go), option_score(b1, item, policy, fi, oi)) by {
                assert(option_ok(b2, item, gf, go));
            }
            assert forall|gf: int, go: int| #[trigger] option_ok(b1, item, gf, go) && option_before(gf, go, fi, oi)
                implies lex_less(option_score(b1, item, policy, fi, oi), option_score(b1, item, policy, gf, go)) by {
                assert(option_ok(b2, item, gf, go));
            }
        }
    }
    assert forall|fi: int, oi: int, c: PlacementCandidate| #[trigger] candidate_at(b1, item, fi, oi, c) == candidate_at(b2, item, fi, oi, c) by {}
    if can_place(b1, item) {
        let w = choose|fi: int, oi: int| #[trigger] option_ok(b1, item, fi, oi);
        assert(option_ok(b2, item, w.0, w.1));
    }
    if can_place(b2, item) {
        let w = choose|fi: int, oi: int| #[trigger] option_ok(b2, item, fi, oi);
        assert(option_ok(b1, item, w.0, w.1));
    }
}

/// An empty box of the stock kind.
pub open spec fn canonical_fresh(s: StockBox) -> OpenBox {
    choose|b: OpenBox| is_fresh_box(b, s)
}

/// Stock entry `j` can take the item: boxes left, a weight limit at least
/// the item's weight, and a place for it in an empty box.
pub open spec fn stock_can_take(stock: Seq<StockBox>, remaining: Seq<usize>, item: Item, policy: PlacementPolicy, j: int) -> bool {
    &&& 0 <= j < stock.len()
    &&& remaining[j] > 0
    &&& item.weight <= stock[j].max_weight
    &&& can_place(canonical_fresh(stock[j]), item)
}

/// How good a new box of kind `s` is for the item under the box policy:
/// for `TargetRemaining`, a box that holds everything still to pack comes
/// first, the tightest such; otherwise the one covering most of it.
pub open spec fn stock_score(
    s: StockBox,
    item: Item,
    remaining_volume: u64,
    remaining_weight: u64,
    policy: BoxPolicy,
    placement_policy: PlacementPolicy,
) -> Seq<int> {
    let b = canonical_fresh(s);
    let at = chosen_option(b, item, placement_policy);
    let f = b.free_spaces@[at.0];
    let size = distinct_orientations(item.size)[at.1].1;
    let umax = u64::MAX as int;
    let grid = match placement_policy {
        PlacementPolicy::BestFit => 0,
        PlacementPolicy::GridCapacity => umax - grid_capacity_spec(s.size, size, is_weak_item(item)),
    };
    let waste = volume_of(f.size) - volume_of(size);
    let volume = volume_of(s.size);
    let weight = s.max_weight as int;
    match policy {
        BoxPolicy::TargetRemaining => if volume >= remaining_volume && weight >= remaining_weight {
            seq![0, volume - remaining_volume, weight - remaining_weight, grid, waste]
        } else {
            let covered_volume = if volume <= remaining_volume { volume } else { remaining_volume as int };
            let covered_weight = if weight <= remaining_weight { weight } else { remaining_weight as int };
            seq![1, umax - covered_volume, umax - covered_weight, grid, waste]
        },
        BoxPolicy::MaxGridCapacity => seq![0, grid, volume, weight, waste],
        BoxPolicy::Largest => seq![0, umax - volume, umax - weight, grid, waste],
        BoxPolicy::Smallest => seq![0, volume, weight, grid, waste],
    }
}

/// Stock entry `j` is the first of smallest score among those that can take the item.
pub open spec fn first_best_stock(
    stock: Seq<StockBox>,
    remaining: Seq<usize>,
    item: Item,
    remaining_volume: u64,
    remaining_weight: u64,
    policy: BoxPolicy,
    placement_policy: PlacementPolicy,
    j: int,
) -> bool {
    &&& stock_can_take(stock, remaining, item, placement_policy, j)
    &&& forall|k: int| #[trigger] stock_can_take(stock, remaining, item, placement_policy, k)
        ==> !lex_less(
            stock_score(stock[k], item, remaining_volume, remaining_weight, policy, placement_policy),
            stock_score(stock[j], item, remaining_volume, remaining_weight, policy, placement_policy),
        )
    &&& forall|k: int| #[trigger] stock_can_take(stock, remaining, item, placement_policy, k) && k < j
        ==> lex_less(
            stock_score(stock[j], item, remaining_volume, remaining_weight, policy, placement_policy),
            stock_score(stock[k], item, remaining_volume, remaining_weight, policy, placement_policy),
        )
}

/// A box of kind `s` holds everything still to pack: at least the
/// remaining volume and weight.
pub open spec fn holds_rest(s: StockBox, remaining_volume: u64, remaining_weight: u64) -> bool {
    volume_of(s.size) >= remaining_volume && s.max_weight >= remaining_weight
}

/// How much of the remaining volume a box of kind `s` covers.
pub open spec fn covered_volume(s: StockBox, remaining_volume: u64) -> int {
    if volume_of(s.size) <= remaining_volume {
        volume_of(s.size)
    } else {
        remaining_volume as int
    }
}

/// Under `TargetRemaining`, the chosen kind holds everything still to pack
/// whenever some kind that can take the item does, and is then the one of
/// least volume among those; when none does, it covers at least as much
/// of the remaining volume as every kind that can take the item.
pub proof fn lemma_target_remaining_choice(
    stock: Seq<StockBox>,
    remaining: Seq<usize>,
    item: Item,
    remaining_volume: u64,
    remaining_weight: u64,
    placement_policy: PlacementPolicy,
    j: int,
)
    requires
        first_best_stock(stock, remaining, item, remaining_volume, remaining_weight, BoxPolicy::TargetRemaining, placement_policy, j),
    ensures
        forall|k: int| #[trigger] stock_can_take(stock, remaining, item, placement_policy, k)
            && holds_rest(stock[k], remaining_volume, remaining_weight) ==> holds_rest(stock[j], remaining_volume, remaining_weight)
            && volume_of(stock[j].size) <= volume_of(stock[k].size),
        !holds_rest(stock[j], remaining_volume, remaining_weight) ==> forall|k: int| #[trigger] stock_can_take(stock, remaining, item, placement_policy, k)
            ==> covered_volume(stock[k], remaining_volume) <= covered_volume(stock[j], remaining_volume),
{
    let score = |s: StockBox| stock_score(s, item, remaining_volume, remaining_weight, BoxPolicy::TargetRemaining, placement_policy);
    assert forall|k: int| #[trigger] stock_can_take(stock, remaining, item, placement_policy, k) implies
        (holds_rest(stock[k], remaining_volume, remaining_weight) ==> holds_rest(stock[j], remaining_volume, remaining_weight)
            && volume_of(stock[j].size) <= volume_of(stock[k].size))
        && (!holds_rest(stock[j], remaining_volume, remaining_weight)
            ==> covered_volume(stock[k], remaining_volume) <= covered_volume(stock[j], remaining_volume)) by {
        let sk = score(stock[k]);
        let sj = score(stock[j]);
        assert(!lex_less(sk, sj));
        assert(sk.drop_first()[0] == sk[1]);
        assert(sj.drop_first()[0] == sj[1]);
        if sk[0] < sj[0] {
            assert(lex_less(sk, sj));
        }
        if sk[0] == sj[0] && sk[1] < sj[1] {
            assert(lex_less(sk.drop_first(), sj.drop_first()));
            assert(lex_less(sk, sj));
        }
    }
}

/// Chooses a new box from stock for the item: among kinds with boxes left,
/// a weight limit at least the item's weight and a place for the item in an
/// empty box, the first one with the smallest score under the policy, and
/// the place `find_placement` picks in it. `None` when no kind can take it.
pub fn choose_stock_box(
    stock: &[StockBox],
    stock_remaining: &[usize],
    item: &Item,
    remaining_volume: u64,
    remaining_weight: u64,
    policy: BoxPolicy,
    placement_policy: PlacementPolicy,
) -> (r: Option<(usize, PlacementCandidate)>)
    requires
        stock_remaining@.len() == stock@.len(),
        forall|j: int| 0 <= j < stock@.len() ==> #[trigger] edges_bounded(stock@[j].size),
        item_shape_ok(item.size),
    ensures
        r is None <==> forall|j: int| !#[trigger] stock_can_take(stock@, stock_remaining@, *item, placement_policy, j),
        r matches Some(found) ==> found.0 < stock@.len() && stock_remaining@[found.0 as int] > 0
            && fresh_candidate(stock@[found.0 as int], *item, found.1),
        r matches Some(found) ==> first_best_stock(stock@, stock_remaining@, *item, remaining_volume,
            remaining_weight, policy, placement_policy, found.0 as int),
        r matches Some(found) ==> {
            let b = canonical_fresh(stock@[found.0 as int]);
            let at = chosen_option(b, *item, placement_policy);
            candidate_at(b, *item, at.0, at.1, found.1)
        },
        r matches Some(found) ==> (policy == BoxPolicy::TargetRemaining ==> forall|k: int|
            #[trigger] stock_can_take(stock@, stock_remaining@, *item, placement_policy, k) ==> {
                &&& holds_rest(stock@[k], remaining_volume, remaining_weight)
                    ==> holds_rest(stock@[found.0 as int], remaining_volume, remaining_weight)
                    && volume_of(stock@[found.0 as int].size) <= volume_of(stock@[k].size)
                &&& !holds_rest(stock@[found.0 as int], remaining_volume, remaining_weight)
                    ==> covered_volume(stock@[k], remaining_volume) <= covered_volume(stock@[found.0 as int], remaining_volume)
            }),
{
    let ghost sv = stock@;
    let ghost rv = stock_remaining@;
    let mut best: Option<(usize, PlacementCandidate, Vec<u64>)> = None;
    let weak = item.is_weak();
    let mut j: usize = 0;
    while j < stock.len()
        invariant
            j <= stock@.len(),
            sv == stock@,
            rv == stock_remaining@,
            stock_remaining@.len() == stock@.len(),
            forall|k: int| 0 <= k < stock@.len() ==> #[trigger] edges_bounded(stock@[k].size),
            item_shape_ok(item.size),
            weak == is_weak_item(*item),
            best is None ==> forall|k: int| #[trigger] stock_can_take(sv, rv, *item, placement_policy, k) ==> k >= j,
            best matches Some(found) ==> {
                &&& found.0 < j
                &&& stock_remaining@[found.0 as int] > 0
                &&& fresh_candidate(stock@[found.0 as int], *item, found.1)
                &&& stock_can_take(sv, rv, *item, placement_policy, found.0 as int)
                &&& candidate_at(canonical_fresh(sv[found.0 as int]), *item,
                    chosen_option(canonical_fresh(sv[found.0 as int]), *item, placement_policy).0,
                    chosen_option(canonical_fresh(sv[found.0 as int]), *item, placement_policy).1, found.1)
                &&& score_view(found.2@) == stock_score(sv[found.0 as int], *item, remaining_volume, remaining_weight, policy, placement_policy)
                &&& forall|k: int| #[trigger] stock_can_take(sv, rv, *item, placement_policy, k) && k < j
                    ==> !lex_less(
                        stock_score(sv[k], *item, remaining_volume, remaining_weight, policy, placement_policy),
                        stock_score(sv[found.0 as int], *item, remaining_volume, remaining_weight, policy, placement_policy),
                    )
                &&& forall|k: int| #[trigger] stock_can_take(sv, rv, *item, placement_policy, k) && k < found.0
                    ==> lex_less(
                        stock_score(sv[found.0 as int], *item, remaining_volume, remaining_weight, policy, placement_policy),
                        stock_score(sv[k], *item, remaining_volume, remaining_weight, policy, placement_policy),
                    )
            },
        decreases stock@.len() - j,
    {
        let stock_box = &stock[j];
        let ghost here = j as int;
        proof {
            assert(edges_bounded(stock@[j as int].size));
        }
        if stock_remaining[j] == 0 || stock_box.max_weight < item.weight {
            proof {
                assert(!stock_can_take(sv, rv, *item, placement_policy, here));
            }
            j = j + 1;
            continue;
        }
        let empty_box = OpenBox::new(String::new(), stock_box);
        proof {
            assert(empty_box.free_spaces@ =~= seq![whole_space(stock_box.size)]);
            assert(is_fresh_box(empty_box, *stock_box));
            assert(crate::geometry::inside(empty_box.free_spaces@[0].position, empty_box.free_spaces@[0].size, empty_box.size));
            assert(box_bounded(empty_box));
            let canon = canonical_fresh(*stock_box);
            assert(is_fresh_box(canon, *stock_box));
            lemma_fresh_agree(empty_box, canon, *stock_box, *item, placement_policy);
        }
        let candidate = match find_placement(&empty_box, item, placement_policy) {
            Some(c) => c,
            None => {
                proof {
                    assert(!stock_can_take(sv, rv, *item, placement_policy, here));
                }
                j = j + 1;
                continue;
            },
        };
        proof {
            lemma_fresh_candidate(empty_box, *stock_box, *item, candidate);
            crate::geometry::lemma_bounded_volume(stock_box.size);
            let canon = canonical_fresh(*stock_box);
            let w = choose|fi: int, oi: int| #[trigger] first_best(empty_box, *item, placement_policy, fi, oi)
                && candidate_at(empty_box, *item, fi, oi, candidate);
            assert(first_best(canon, *item, placement_policy, w.0, w.1));
            lemma_chosen_option(canon, *item, placement_policy, w.0, w.1);
            assert(candidate_at(canon, *item, w.0, w.1, candidate));
            assert(stock_can_take(sv, rv, *item, placement_policy, here));
            assert(w.0 == 0);
        }
        let box_volume = stock_box.size.volume();
        let grid_capacity_penalty: u64 = match placement_policy {
            PlacementPolicy::BestFit => 0,
            PlacementPolicy::GridCapacity => u64::MAX - grid_capacity(stock_box.size, candidate.size, weak),
        };
        let waste = candidate.free_space_waste;
        let score: Vec<u64> = match policy {
            BoxPolicy::TargetRemaining => {
                if box_volume >= remaining_volume && stock_box.max_weight >= remaining_weight {
                    let spare_volume = box_volume - remaining_volume;
                    let spare_weight = stock_box.max_weight - remaining_weight;
                    vec![0, spare_volume, spare_weight, grid_capacity_penalty, waste]
                } else {
                    let covered_volume = if box_volume <= remaining_volume { box_volume } else { remaining_volume };
                    let covered_weight = if stock_box.max_weight <= remaining_weight { stock_box.max_weight } else { remaining_weight };
                    let short_volume = u64::MAX - covered_volume;
                    let short_weight = u64::MAX - covered_weight;
                    vec![1, short_volume, short_weight, grid_capacity_penalty, waste]
                }
            },
            BoxPolicy::MaxGridCapacity => vec![0, grid_capacity_penalty, box_volume, stock_box.max_weight, waste],
            BoxPolicy::Largest => {
                let small_volume = u64::MAX - box_volume;
                let small_weight = u64::MAX - stock_box.max_weight;
                vec![0, small_volume, small_weight, grid_capacity_penalty, waste]
            },
            BoxPolicy::Smallest => vec![0, box_volume, stock_box.max_weight, grid_capacity_penalty, waste],
        };
        proof {
            assert(score_view(score@) =~= stock_score(sv[here], *item, remaining_volume, remaining_weight, policy, placement_policy));
        }
        let better = match &best {
            Some(current) => crate::container::score_less(&score, &current.2),
            None => true,
        };
        let ghost prior = best;
        proof {
            let s_here = stock_score(sv[here], *item, remaining_volume, remaining_weight, policy, placement_policy);
            assert forall|k: int| #[trigger] stock_can_take(sv, rv, *item, placement_policy, k)
                implies stock_score(sv[k], *item, remaining_volume, remaining_weight, policy, placement_policy).len() == 5 by {}
            match prior {
                Some(found) => {
                    let s_at = stock_score(sv[found.0 as int], *item, remaining_volume, remaining_weight, policy, placement_policy);
                    if better {
                        assert forall|k: int| #[trigger] stock_can_take(sv, rv, *item, placement_policy, k) && k < here + 1
                            implies !lex_less(stock_score(sv[k], *item, remaining_volume, remaining_weight, policy, placement_policy), s_here)
                                && (k < here ==> lex_less(s_here, stock_score(sv[k], *item, remaining_volume, remaining_weight, policy, placement_policy))) by {
                            let s_k = stock_score(sv[k], *item, remaining_volume, remaining_weight, policy, placement_policy);
                            if k == here {
                                lemma_lex_order(s_here, s_here, s_here);
                            } else {
                                lemma_lex_order(s_k, s_here, s_at);
                                lemma_lex_order(s_here, s_k, s_at);
                            }
                        }
                    } else {
                        lemma_lex_order(s_here, s_at, s_at);
                    }
                },
                None => {
                    lemma_lex_order(s_here, s_here, s_here);
                },
            }
        }
        if better {
            best = Some((j, candidate, score));
        }
        j = j + 1;
    }
    match best {
        Some(found) => {
            proof {
                if policy == BoxPolicy::TargetRemaining {
                    lemma_target_remaining_choice(sv, rv, *item, remaining_volume, remaining_weight, placement_policy, found.0 as int);
                }
            }
            Some((found.0, found.1))
        },
        None => None,
    }
}

/// The option `find_placement` takes in the box: the first of smallest score.
pub open spec fn chosen_option(b: OpenBox, item: Item, policy: PlacementPolicy) -> (int, int) {
    choose|fi: int, oi: int| first_best(b, item, policy, fi, oi)
}

/// How good putting the item into open box `b` is: least volume left over,
/// then least free-space waste, lowest y, most contact, lowest z, lowest x.
pub open spec fn existing_score(b: OpenBox, item: Item, policy: PlacementPolicy) -> Seq<int> {
    let at = chosen_option(b, item, policy);
    let f = b.free_spaces@[at.0];
    let size = distinct_orientations(item.size)[at.1].1;
    let filled = b.used_volume + volume_of(item.size);
    let remaining = if volume_of(b.size) >= filled {
        volume_of(b.size) - filled
    } else {
        0
    };
    seq![
        remaining,
        volume_of(f.size) - volume_of(size),
        f.position.y as int,
        (u64::MAX as int) - contact_spec(f.position, size, b),
        f.position.z as int,
        f.position.x as int,
    ]
}

/// Box `k` is the first of smallest score among the boxes that can take the item.
pub open spec fn first_best_box(boxes: Seq<OpenBox>, item: Item, policy: PlacementPolicy, k: int) -> bool {
    &&& 0 <= k < boxes.len()
    &&& can_place(boxes[k], item)
    &&& forall|j: int| 0 <= j < boxes.len() && #[trigger] can_place(boxes[j], item)
        ==> !lex_less(existing_score(boxes[j], item, policy), existing_score(boxes[k], item, policy))
    &&& forall|j: int| 0 <= j < k && #[trigger] can_place(boxes[j], item)
        ==> lex_less(existing_score(boxes[k], item, policy), existing_score(boxes[j], item, policy))
}

proof fn lemma_chosen_option(b: OpenBox, item: Item, policy: PlacementPolicy, fi: int, oi: int)
    requires
        first_best(b, item, policy, fi, oi),
    ensures
        chosen_option(b, item, policy) == (fi, oi),
{
    let at = chosen_option(b, item, policy);
    assert(first_best(b, item, policy, at.0, at.1));
    lemma_first_best_unique(b, item, policy, fi, oi, at.0, at.1);
}

/// Looks for a place in a box already open: among the boxes that can take
/// the item, the first one with the smallest score, and the place that
/// `find_placement` picks there. `None` when no open box can take it.
pub fn find_existing_box(
    boxes: &[OpenBox],
    item: &Item,
    placement_policy: PlacementPolicy,
) -> (r: Option<(usize, PlacementCandidate)>)
    requires
        item_shape_ok(item.size),
        forall|b: int| 0 <= b < boxes@.len() ==> #[trigger] box_bounded(boxes@[b]),
        forall|b: int| 0 <= b < boxes@.len() ==> #[trigger] boxes@[b].used_volume + volume_of(item.size) <= u64::MAX,
    ensures
        r is None <==> forall|k: int| 0 <= k < boxes@.len() ==> !#[trigger] can_place(boxes@[k], *item),
        r matches Some(found) ==> found.0 < boxes@.len() && candidate_sound(boxes@[found.0 as int], *item, found.1),
        r matches Some(found) ==> first_best_box(boxes@, *item, placement_policy, found.0 as int),
        r matches Some(found) ==> {
            let at = chosen_option(boxes@[found.0 as int], *item, placement_policy);
            candidate_at(boxes@[found.0 as int], *item, at.0, at.1, found.1)
        },
{
    proof {
        crate::geometry::lemma_bounded_volume(item.size);
    }
    let item_volume = item.volume();
    let mut best: Option<(usize, PlacementCandidate, Vec<u64>)> = None;
    let mut b: usize = 0;
    while b < boxes.len()
        invariant
            b <= boxes@.len(),
            item_shape_ok(item.size),
            item_volume == volume_of(item.size),
            forall|k: int| 0 <= k < boxes@.len() ==> #[trigger] box_bounded(boxes@[k]),
            forall|k: int| 0 <= k < boxes@.len() ==> #[trigger] boxes@[k].used_volume + volume_of(item.size) <= u64::MAX,
            best is None ==> forall|k: int| 0 <= k < b ==> !#[trigger] can_place(boxes@[k], *item),
            best matches Some(found) ==> {
                &&& found.0 < b
                &&& can_place(boxes@[found.0 as int], *item)
                &&& candidate_sound(boxes@[found.0 as int], *item, found.1)
                &&& candidate_at(boxes@[found.0 as int], *item,
                    chosen_option(boxes@[found.0 as int], *item, placement_policy).0,
                    chosen_option(boxes@[found.0 as int], *item, placement_policy).1, found.1)
                &&& score_view(found.2@) == existing_score(boxes@[found.0 as int], *item, placement_policy)
                &&& forall|j: int| 0 <= j < b && #[trigger] can_place(boxes@[j], *item)
                    ==> !lex_less(existing_score(boxes@[j], *item, placement_policy), existing_score(boxes@[found.0 as int], *item, placement_policy))
                &&& forall|j: int| 0 <= j < found.0 && #[trigger] can_place(boxes@[j], *item)
                    ==> lex_less(existing_score(boxes@[found.0 as int], *item, placement_policy), existing_score(boxes@[j], *item, placement_policy))
            },
        decreases boxes@.len() - b,
    {
        let open_box = &boxes[b];
        proof {
            assert(box_bounded(boxes@[b as int]));
            assert(boxes@[b as int].used_volume + volume_of(item.size) <= u64::MAX);
            crate::geometry::lemma_bounded_volume(open_box.size);
        }
        let candidate = match find_placement(open_box, item, placement_policy) {
            Some(c) => c,
            None => {
                b = b + 1;
                continue;
            },
        };
        let ghost here = b as int;
        proof {
            let w = choose|fi: int, oi: int| #[trigger] first_best(*open_box, *item, placement_policy, fi, oi)
                && candidate_at(*open_box, *item, fi, oi, candidate);
            lemma_chosen_option(*open_box, *item, placement_policy, w.0, w.1);
        }
        let box_volume = open_box.size.volume();
        let filled = open_box.used_volume + item_volume;
        let remaining = box_volume.saturating_sub(filled);
        let closeness = u64::MAX - candidate.contact_area;
        let score: Vec<u64> = vec![
            remaining,
            candidate.free_space_waste,
            candidate.position.y as u64,
            closeness,
            candidate.position.z as u64,
            candidate.position.x as u64,
        ];
        proof {
            assert(score_view(score@) =~= existing_score(boxes@[here], *item, placement_policy));
        }
        let better = match &best {
            Some(current) => crate::container::score_less(&score, &current.2),
            None => true,
        };
        let ghost prior = best;
        proof {
            let s_here = existing_score(boxes@[here], *item, placement_policy);
            assert forall|j: int| 0 <= j < boxes@.len() implies #[trigger] existing_score(boxes@[j], *item, placement_policy).len() == 6 by {}
            match prior {
                Some(found) => {
                    let s_at = existing_score(boxes@[found.0 as int], *item, placement_policy);
                    if better {
                        assert forall|j: int| 0 <= j < b + 1 && #[trigger] can_place(boxes@[j], *item)
                            implies !lex_less(existing_score(boxes@[j], *item, placement_policy), s_here)
                                && (j < here ==> lex_less(s_here, existing_score(boxes@[j], *item, placement_policy))) by {
                            let s_j = existing_score(boxes@[j], *item, placement_policy);
                            if j == here {
                                lemma_lex_order(s_here, s_here, s_here);
                            } else {
                                lemma_lex_order(s_j, s_here, s_at);
                                lemma_lex_order(s_here, s_j, s_at);
                            }
                        }
                    } else {
                        lemma_lex_order(s_here, s_at, s_at);
                    }
                },
                None => {
                    lemma_lex_order(s_here, s_here, s_here);
                },
            }
        }
        if better {
            best = Some((b, candidate, score));
        }
        b = b + 1;
    }
    match best {
        Some(found) => Some((found.0, found.1)),
        None => None,
    }
}

/// An item no available box could take.
#[derive(Debug)]
pub struct UnplacedItem {
    pub item: Item,
    pub reason: &'static str,
}

/// The outcome of packing: the boxes used, the items left over and how
/// many items were asked for.
#[derive(Debug)]
pub struct PackingSolution {
    pub boxes: Vec<OpenBox>,
    pub unplaced: Vec<UnplacedItem>,
    pub requested: usize,
}

pub open spec fn box_items(b: OpenBox) -> Multiset<ItemView> {
    b.placements@.map_values(|p: PlacedItem| p.item@).to_multiset()
}

pub open spec fn box_sequences(b: OpenBox) -> Multiset<usize> {
    b.placements@.map_values(|p: PlacedItem| p.sequence).to_multiset()
}

/// The items in all the boxes.
pub open spec fn boxes_items(boxes: Seq<OpenBox>) -> Multiset<ItemView>
    decreases boxes.len(),
{
    if boxes.len() == 0 {
        Multiset::empty()
    } else {
        boxes_items(boxes.drop_last()).add(box_items(boxes.last()))
    }
}

/// The step numbers of all placements in all the boxes.
pub open spec fn boxes_sequences(boxes: Seq<OpenBox>) -> Multiset<usize>
    decreases boxes.len(),
{
    if boxes.len() == 0 {
        Multiset::empty()
    } else {
        boxes_sequences(boxes.drop_last()).add(box_sequences(boxes.last()))
    }
}

pub open spec fn unplaced_items(u: Seq<UnplacedItem>) -> Multiset<ItemView> {
    u.map_values(|x: UnplacedItem| x.item@).to_multiset()
}

/// The numbers `1..=n`, each once.
pub open spec fn sequence_range(n: nat) -> Multiset<usize>
    decreases n,
{
    if n == 0 {
        Multiset::empty()
    } else {
        sequence_range((n - 1) as nat).insert(n as usize)
    }
}

/// The box was taken from the stock kind.
pub open spec fn from_stock(b: OpenBox, s: StockBox) -> bool {
    &&& b.box_type_id@ == s.box_type_id@
    &&& b.size == s.size
    &&& b.max_weight == s.max_weight
}

/// Box `k` came from stock entry `origins[k]`, and no entry gave more boxes
/// than it holds.
pub open spec fn respects_stock(boxes: Seq<OpenBox>, stock: Seq<StockBox>, origins: Seq<int>) -> bool {
    &&& origins.len() == boxes.len()
    &&& forall|k: int| 0 <= k < boxes.len() ==> 0 <= #[trigger] origins[k] < stock.len() && from_stock(boxes[k], stock[origins[k]])
    &&& forall|j: int| 0 <= j < stock.len() ==> origins.to_multiset().count(j) <= #[trigger] stock[j].count
}

/// A valid packing of `items` with boxes from `stock`: every box is
/// well-formed (its placements sound, its weight within the limit, its
/// totals right) and holds something; every requested item is either in
/// exactly one box or left over; the steps are numbered `1..=n` over the
/// `n` placed items; and no stock entry gave more boxes than it holds.
pub open spec fn packing_valid(sol: PackingSolution, items: Seq<Item>, stock: Seq<StockBox>) -> bool {
    &&& sol.requested == items.len()
    &&& forall|k: int| 0 <= k < sol.boxes@.len() ==> box_wf(#[trigger] sol.boxes@[k]) && sol.boxes@[k].placements@.len() > 0
    &&& boxes_items(sol.boxes@).add(unplaced_items(sol.unplaced@)) == item_views(items).to_multiset()
    &&& boxes_sequences(sol.boxes@) == sequence_range(boxes_items(sol.boxes@).len())
    &&& exists|origins: Seq<int>| respects_stock(sol.boxes@, stock, origins)
}

proof fn lemma_boxes_items_update(boxes: Seq<OpenBox>, i: int, nb: OpenBox, v: ItemView)
    requires
        0 <= i < boxes.len(),
        box_items(nb) == box_items(boxes[i]).insert(v),
    ensures
        boxes_items(boxes.update(i, nb)) == boxes_items(boxes).insert(v),
    decreases boxes.len(),
{
    let u = boxes.update(i, nb);
    if i == boxes.len() - 1 {
        assert(u.drop_last() =~= boxes.drop_last());
    } else {
        lemma_boxes_items_update(boxes.drop_last(), i, nb, v);
        assert(u.drop_last() =~= boxes.drop_last().update(i, nb));
    }
    assert(boxes_items(u) =~= boxes_items(boxes).insert(v));
}

proof fn lemma_boxes_sequences_update(boxes: Seq<OpenBox>, i: int, nb: OpenBox, v: usize)
    requires
        0 <= i < boxes.len(),
        box_sequences(nb) == box_sequences(boxes[i]).insert(v),
    ensures
        boxes_sequences(boxes.update(i, nb)) == boxes_sequences(boxes).insert(v),
    decreases boxes.len(),
{
    let u = boxes.update(i, nb);
    if i == boxes.len() - 1 {
        assert(u.drop_last() =~= boxes.drop_last());
    } else {
        lemma_boxes_sequences_update(boxes.drop_last(), i, nb, v);
        assert(u.drop_last() =~= boxes.drop_last().update(i, nb));
    }
    assert(boxes_sequences(u) =~= boxes_sequences(boxes).insert(v));
}

/// Each box holds no more items than all boxes together, and nonempty boxes
/// are no more than the items they hold.
pub(crate) proof fn lemma_boxes_items_len(boxes: Seq<OpenBox>)
    ensures
        forall|i: int| 0 <= i < boxes.len() ==> #[trigger] boxes[i].placements@.len() <= boxes_items(boxes).len(),
        (forall|i: int| 0 <= i < boxes.len() ==> #[trigger] boxes[i].placements@.len() > 0) ==> boxes.len() <= boxes_items(boxes).len(),
    decreases boxes.len(),
{
    if boxes.len() > 0 {
        let init = boxes.drop_last();
        lemma_boxes_items_len(init);
        assert forall|i: int| 0 <= i < boxes.len() implies #[trigger] boxes[i].placements@.len() <= boxes_items(boxes).len() by {
            if i < boxes.len() - 1 {
                assert(boxes[i] == init[i]);
            }
        }
        if forall|i: int| 0 <= i < boxes.len() ==> #[trigger] boxes[i].placements@.len() > 0 {
            assert forall|i: int| 0 <= i < init.len() implies #[trigger] init[i].placements@.len() > 0 by {
                assert(boxes[i] == init[i]);
            }
            assert(boxes[boxes.len() - 1].placements@.len() > 0);
        }
    }
}

pub open spec fn volume_cap() -> int {
    (MAX_EDGE as int) * (MAX_EDGE as int) * (MAX_EDGE as int)
}

pub(crate) proof fn lemma_volume_sum_bound(b: OpenBox)
    requires
        box_wf(b),
    ensures
        0 <= crate::container::volume_sum(b.placements@) <= b.placements@.len() * volume_cap(),
{
    lemma_volume_sum_bound_seq(b.placements@, b.size);
}

proof fn lemma_volume_sum_bound_seq(placed: Seq<PlacedItem>, size: Dimensions)
    requires
        forall|k: int| 0 <= k < placed.len() ==> #[trigger] crate::container::placement_sound(placed[k], size, placed.take(k)),
    ensures
        0 <= crate::container::volume_sum(placed) <= placed.len() * volume_cap(),
    decreases placed.len(),
{
    if placed.len() > 0 {
        let init = placed.drop_last();
        assert forall|k: int| 0 <= k < init.len() implies #[trigger] crate::container::placement_sound(init[k], size, init.take(k)) by {
            assert(init.take(k) =~= placed.take(k));
            assert(crate::container::placement_sound(placed[k], size, placed.take(k)));
        }
        lemma_volume_sum_bound_seq(init, size);
        assert(crate::container::placement_sound(placed[placed.len() - 1], size, placed.take(placed.len() - 1)));
        crate::geometry::lemma_bounded_volume(placed.last().item.size);
        assert((init.len() as int) * volume_cap() + volume_cap() == (placed.len() as int) * volume_cap()) by (nonlinear_arith)
            requires placed.len() == init.len() + 1;
    }
}

pub(crate) proof fn lemma_item_cap()
    ensures
        (ITEM_LIMIT as int) * volume_cap() <= u64::MAX,
{
}

pub(crate) proof fn lemma_cap_mul(a: int, b: int)
    requires
        0 <= a <= b,
    ensures
        a * volume_cap() <= b * volume_cap(),
{
    assert(a * volume_cap() <= b * volume_cap()) by (nonlinear_arith)
        requires 0 <= a <= b, volume_cap() >= 0;
}

/// The reason recorded for an item that no box could take.
pub const NO_BOX_FITS: &'static str = "no_available_box_fits_dimensions_and_weight";

/// `a + b`, or `u64::MAX` where that does not fit.
pub open spec fn saturated(a: int, b: int) -> u64 {
    if a + b > u64::MAX {
        u64::MAX
    } else {
        (a + b) as u64
    }
}

/// The volume of the items from `i` on, added from the back and held at
/// `u64::MAX`.
pub open spec fn rest_volume(items: Seq<Item>, i: int) -> u64
    decreases items.len() - i,
{
    if i < 0 || i >= items.len() {
        0
    } else {
        saturated(rest_volume(items, i + 1) as int, volume_of(items[i].size))
    }
}

/// The weight of the items from `i` on, added from the back and held at
/// `u64::MAX`.
pub open spec fn rest_weight(items: Seq<Item>, i: int) -> u64
    decreases items.len() - i,
{
    if i < 0 || i >= items.len() {
        0
    } else {
        saturated(rest_weight(items, i + 1) as int, items[i].weight as int)
    }
}

/// Where a pass stands between two items: the boxes opened so far, the
/// boxes left of each stock kind, the items left over and the next step
/// number.
pub struct PassState {
    pub boxes: Seq<OpenBox>,
    pub remaining: Seq<usize>,
    pub unplaced: Seq<UnplacedItem>,
    pub next: usize,
}

/// The state before the first item: no box, all of the stock.
pub open spec fn pass_start(stock: Seq<StockBox>) -> PassState {
    PassState {
        boxes: Seq::empty(),
        remaining: stock.map_values(|s: StockBox| s.count),
        unplaced: Seq::empty(),
        next: 1,
    }
}

/// The name of the `n`th box opened.
pub open spec fn box_label(n: nat) -> Seq<char> {
    "box-"@ + decimal(n)
}

/// The place `find_placement` picks for the item in box `b`.
pub open spec fn picked(b: OpenBox, item: Item, policy: PlacementPolicy, c: PlacementCandidate) -> bool {
    let at = chosen_option(b, item, policy);
    candidate_at(b, item, at.0, at.1, c)
}

/// What one item does to the pass: it goes to the best open box that can
/// take it; failing that, into a new box from the best stock kind that can
/// take it; failing that, it is left over.
pub open spec fn pass_step(
    s: PassState,
    item: Item,
    rest_vol: u64,
    rest_wt: u64,
    stock: Seq<StockBox>,
    box_policy: BoxPolicy,
    placement_policy: PlacementPolicy,
    t: PassState,
) -> bool {
    if exists|k: int| 0 <= k < s.boxes.len() && #[trigger] can_place(s.boxes[k], item) {
        exists|k: int, c: PlacementCandidate|
            #![trigger first_best_box(s.boxes, item, placement_policy, k), picked(s.boxes[k], item, placement_policy, c)]
            {
            &&& first_best_box(s.boxes, item, placement_policy, k)
            &&& picked(s.boxes[k], item, placement_policy, c)
            &&& t.boxes.len() == s.boxes.len()
            &&& placed_into(s.boxes[k], item, c, s.next, t.boxes[k])
            &&& forall|q: int| 0 <= q < s.boxes.len() && q != k ==> #[trigger] t.boxes[q] == s.boxes[q]
            &&& t.remaining == s.remaining
            &&& t.unplaced == s.unplaced
            &&& t.next == s.next + 1
        }
    } else if exists|j: int| #[trigger] stock_can_take(stock, s.remaining, item, placement_policy, j) {
        exists|j: int, c: PlacementCandidate, fresh: OpenBox|
            #![trigger first_best_stock(stock, s.remaining, item, rest_vol, rest_wt, box_policy, placement_policy, j), picked(canonical_fresh(stock[j]), item, placement_policy, c), is_fresh_box(fresh, stock[j])]
            {
            &&& first_best_stock(stock, s.remaining, item, rest_vol, rest_wt, box_policy, placement_policy, j)
            &&& picked(canonical_fresh(stock[j]), item, placement_policy, c)
            &&& is_fresh_box(fresh, stock[j])
            &&& fresh.instance_id@ == box_label((s.boxes.len() + 1) as nat)
            &&& t.boxes.len() == s.boxes.len() + 1
            &&& t.boxes.drop_last() == s.boxes
            &&& placed_into(fresh, item, c, s.next, t.boxes.last())
            &&& t.remaining == s.remaining.update(j, (s.remaining[j] - 1) as usize)
            &&& t.unplaced == s.unplaced
            &&& t.next == s.next + 1
        }
    } else {
        &&& t.boxes == s.boxes
        &&& t.remaining == s.remaining
        &&& t.unplaced == s.unplaced.push(UnplacedItem { item, reason: NO_BOX_FITS })
        &&& t.next == s.next
    }
}

/// The pass over `input` went through the states `trace`: the items taken
/// in the order `sorted` that `item_order` gives, one step each, and the
/// solution is the last state.
pub open spec fn pass_run(
    input: Seq<Item>,
    sorted: Seq<Item>,
    trace: Seq<PassState>,
    stock: Seq<StockBox>,
    item_order: ItemOrder,
    box_policy: BoxPolicy,
    placement_policy: PlacementPolicy,
    solution: PackingSolution,
) -> bool {
    &&& items_ordered(input, sorted, item_order, stock)
    &&& trace.len() == sorted.len() + 1
    &&& trace[0] == pass_start(stock)
    &&& forall|i: int| 0 <= i < sorted.len() ==> pass_step(trace[i], #[trigger] sorted[i], rest_volume(sorted, i),
        rest_weight(sorted, i), stock, box_policy, placement_policy, trace[i + 1])
    &&& solution.boxes@ == trace.last().boxes
    &&& solution.unplaced@ == trace.last().unplaced
    &&& solution.requested == input.len()
}

fn saturating_volume_add(total: u64, item: &Item) -> (r: u64)
    requires
        item_shape_ok(item.size),
    ensures
        r == saturated(total as int, volume_of(item.size)),
{
    proof {
        crate::geometry::lemma_bounded_volume(item.size);
    }
    total.saturating_add(item.volume())
}

/// One greedy pass: the items are sorted by `item_order`; each goes into the
/// best place among the boxes already open, else into a new box chosen from
/// stock by `box_policy`, else it is left over. The result is a valid
/// packing of the items with boxes from the stock, and it is what those
/// steps give, item by item.
#[verifier::spinoff_prover]
pub fn pack_once(
    items: Vec<Item>,
    stock: &[StockBox],
    item_order: ItemOrder,
    box_policy: BoxPolicy,
    placement_policy: PlacementPolicy,
) -> (solution: PackingSolution)
    requires
        items@.len() <= ITEM_LIMIT,
        all_items_ok(items@),
        forall|j: int| 0 <= j < stock@.len() ==> #[trigger] edges_bounded(stock@[j].size),
    ensures
        packing_valid(solution, items@, stock@),
        exists|sorted: Seq<Item>, trace: Seq<PassState>|
            pass_run(items@, sorted, trace, stock@, item_order, box_policy, placement_policy, solution),
{
    let ghost input = items@;
    let mut items = items;
    sort_items(&mut items, item_order, stock);
    let ghost sorted = items@;
    proof {
        assert(item_views(sorted).len() == sorted.len());
        assert(item_views(input).len() == input.len());
        assert(sorted.len() == input.len()) by {
            assert(item_views(sorted).to_multiset().len() == item_views(sorted).len());
            assert(item_views(input).to_multiset().len() == item_views(input).len());
        }
        assert forall|k: int| 0 <= k < sorted.len() implies #[trigger] item_shape_ok(sorted[k].size) by {
            assert(item_views(sorted)[k] == sorted[k]@);
            assert(item_views(sorted).contains(sorted[k]@));
            assert(item_views(input).to_multiset().count(sorted[k]@) > 0);
            assert(item_views(input).contains(sorted[k]@));
            let j = choose|j: int| 0 <= j < item_views(input).len() && item_views(input)[j] == sorted[k]@;
            assert(item_shape_ok(input[j].size));
        }
    }
    let n = items.len();
    let mut stock_remaining: Vec<usize> = Vec::with_capacity(stock.len());
    let mut j: usize = 0;
    while j < stock.len()
        invariant
            j <= stock@.len(),
            stock_remaining@.len() == j,
            forall|k: int| 0 <= k < j ==> #[trigger] stock_remaining@[k] == stock@[k].count,
        decreases stock@.len() - j,
    {
        stock_remaining.push(stock[j].count);
        j = j + 1;
    }
    proof {
        assert(stock_remaining@ =~= stock@.map_values(|s: StockBox| s.count));
    }
    // Suffix totals, stored back to front: entry `n - i` covers items `i..n`.
    let mut suffix_volume_rev: Vec<u64> = Vec::with_capacity(n + 1);
    let mut suffix_weight_rev: Vec<u64> = Vec::with_capacity(n + 1);
    suffix_volume_rev.push(0);
    suffix_weight_rev.push(0);
    let mut k: usize = n;
    while k > 0
        invariant
            k <= n,
            n == items@.len(),
            items@ == sorted,
            forall|q: int| 0 <= q < sorted.len() ==> #[trigger] item_shape_ok(sorted[q].size),
            suffix_volume_rev@.len() == n - k + 1,
            suffix_weight_rev@.len() == n - k + 1,
            forall|r: int| 0 <= r <= n - k ==> #[trigger] suffix_volume_rev@[r] == rest_volume(sorted, n - r),
            forall|r: int| 0 <= r <= n - k ==> #[trigger] suffix_weight_rev@[r] == rest_weight(sorted, n - r),
        decreases k,
    {
        k = k - 1;
        let last_volume = suffix_volume_rev[n - k - 1];
        let last_weight = suffix_weight_rev[n - k - 1];
        proof {
            assert(item_shape_ok(sorted[k as int].size));
            assert(last_volume == rest_volume(sorted, k + 1));
            assert(last_weight == rest_weight(sorted, k + 1));
        }
        suffix_volume_rev.push(saturating_volume_add(last_volume, &items[k]));
        suffix_weight_rev.push(last_weight.saturating_add(items[k].weight));
        proof {
            assert(suffix_volume_rev@[n - k] == rest_volume(sorted, k as int));
            assert(suffix_weight_rev@[n - k] == rest_weight(sorted, k as int));
        }
    }
    // Hand the items out front to back.
    let mut pending: Vec<Item> = Vec::with_capacity(n);
    while items.len() > 0
        invariant
            items@ == sorted.take(items@.len() as int),
            pending@.len() + items@.len() == n,
            n == sorted.len(),
            forall|q: int| 0 <= q < pending@.len() ==> #[trigger] pending@[q] == sorted[n - 1 - q],
        decreases items@.len(),
    {
        let ghost before = items@;
        let x = items.pop().unwrap();
        proof {
            assert(items@ =~= sorted.take(items@.len() as int));
        }
        pending.push(x);
    }
    let mut open_boxes: Vec<OpenBox> = Vec::new();
    let mut unplaced: Vec<UnplacedItem> = Vec::new();
    let mut next_sequence: usize = 1;
    let mut item_index: usize = 0;
    let ghost mut origins: Seq<int> = Seq::empty();
    let ghost mut trace: Seq<PassState> = seq![PassState {
        boxes: open_boxes@,
        remaining: stock_remaining@,
        unplaced: unplaced@,
        next: next_sequence,
    }];
    proof {
        assert(trace[0] == pass_start(stock@)) by {
            assert(open_boxes@ =~= Seq::<OpenBox>::empty());
            assert(unplaced@ =~= Seq::<UnplacedItem>::empty());
        }
        assert(sorted.take(0) =~= Seq::<Item>::empty());
        assert(item_views(sorted.take(0)).to_multiset() =~= Multiset::empty());
        assert(unplaced_items(unplaced@) =~= Multiset::empty());
        assert(origins.to_multiset() =~= Multiset::empty());
    }
    while pending.len() > 0
        invariant
            n == sorted.len(),
            n <= ITEM_LIMIT,
            item_index + pending@.len() == n,
            forall|q: int| 0 <= q < pending@.len() ==> #[trigger] pending@[q] == sorted[n - 1 - q],
            forall|q: int| 0 <= q < sorted.len() ==> #[trigger] item_shape_ok(sorted[q].size),
            forall|q: int| 0 <= q < stock@.len() ==> #[trigger] edges_bounded(stock@[q].size),
            suffix_volume_rev@.len() == n + 1,
            suffix_weight_rev@.len() == n + 1,
            stock_remaining@.len() == stock@.len(),
            forall|q: int| 0 <= q < open_boxes@.len() ==> box_wf(#[trigger] open_boxes@[q]) && open_boxes@[q].placements@.len() > 0,
            boxes_items(open_boxes@).add(unplaced_items(unplaced@)) == item_views(sorted.take(item_index as int)).to_multiset(),
            next_sequence == boxes_items(open_boxes@).len() + 1,
            boxes_sequences(open_boxes@) == sequence_range(boxes_items(open_boxes@).len()),
            respects_stock(open_boxes@, stock@, origins),
            forall|q: int| 0 <= q < stock@.len() ==> #[trigger] stock_remaining@[q] + origins.to_multiset().count(q) == stock@[q].count,
            forall|r: int| 0 <= r <= n ==> #[trigger] suffix_volume_rev@[r] == rest_volume(sorted, n - r),
            forall|r: int| 0 <= r <= n ==> #[trigger] suffix_weight_rev@[r] == rest_weight(sorted, n - r),
            trace.len() == item_index + 1,
            trace[0] == pass_start(stock@),
            forall|i: int| 0 <= i < item_index ==> pass_step(trace[i], #[trigger] sorted[i], rest_volume(sorted, i),
                rest_weight(sorted, i), stock@, box_policy, placement_policy, trace[i + 1]),
            trace.last() == (PassState {
                boxes: open_boxes@,
                remaining: stock_remaining@,
                unplaced: unplaced@,
                next: next_sequence,
            }),
        decreases pending@.len(),
    {
        let ghost state = trace.last();
        let ghost old_trace = trace;
        let ghost rv = rest_volume(sorted, item_index as int);
        let ghost rw = rest_weight(sorted, item_index as int);
        let item = pending.pop().unwrap();
        let ghost current = item;
        proof {
            assert(item == sorted[item_index as int]);
            assert(item_shape_ok(item.size));
            crate::geometry::lemma_bounded_volume(item.size);
            let placed_total = boxes_items(open_boxes@).len();
            assert(boxes_items(open_boxes@).add(unplaced_items(unplaced@)).len() == item_index);
            lemma_boxes_items_len(open_boxes@);
            lemma_item_cap();
            assert forall|q: int| 0 <= q < open_boxes@.len() implies #[trigger] box_bounded(open_boxes@[q]) by {
                assert(box_wf(open_boxes@[q]));
                lemma_wf_bounded(open_boxes@[q]);
            }
            assert forall|q: int| 0 <= q < open_boxes@.len() implies #[trigger] open_boxes@[q].used_volume + volume_of(item.size) <= u64::MAX by {
                assert(box_wf(open_boxes@[q]));
                lemma_volume_sum_bound(open_boxes@[q]);
                lemma_cap_mul(open_boxes@[q].placements@.len() as int, (ITEM_LIMIT - 1) as int);
                lemma_cap_mul(1, 1);
                assert((ITEM_LIMIT - 1) as int * volume_cap() + volume_cap() == (ITEM_LIMIT as int) * volume_cap());
            }
        }
        let ghost prefix_views = item_views(sorted.take(item_index as int));
        proof {
            assert(item_views(sorted.take(item_index + 1)) =~= prefix_views.push(item@));
        }
        match find_existing_box(open_boxes.as_slice(), &item, placement_policy) {
            Some((box_index, candidate)) => {
                let ghost old_boxes = open_boxes@;
                let ghost item_view = item@;
                let ghost item_g = item;
                let ghost seq_no = next_sequence;
                let mut target = open_boxes.remove(box_index);
                proof {
                    assert(target == old_boxes[box_index as int]);
                    assert(box_wf(target));
                    assert(candidate_sound(target, item_g, candidate));
                    lemma_wf_bounded(target);
                    lemma_volume_sum_bound(target);
                    lemma_boxes_items_len(old_boxes);
                    lemma_cap_mul(target.placements@.len() as int, (ITEM_LIMIT - 1) as int);
                    let f = choose|f: int| 0 <= f < target.free_spaces@.len() && #[trigger] fits_at(target.free_spaces@[f], candidate.position, candidate.size);
                    assert(crate::geometry::inside(target.free_spaces@[f].position, target.free_spaces@[f].size, target.size));
                }
                target.place(item, candidate, next_sequence);
                proof {
                    assert(box_wf(target));
                    assert(target.placements@.len() > 0);
                    let old_target = old_boxes[box_index as int];
                    assert(target.placements@.map_values(|p: PlacedItem| p.item@) =~= old_target.placements@.map_values(|p: PlacedItem| p.item@).push(item_view));
                    assert(target.placements@.map_values(|p: PlacedItem| p.sequence) =~= old_target.placements@.map_values(|p: PlacedItem| p.sequence).push(seq_no));
                    lemma_boxes_items_update(old_boxes, box_index as int, target, item_view);
                    lemma_boxes_sequences_update(old_boxes, box_index as int, target, seq_no);
                }
                open_boxes.insert(box_index, target);
                proof {
                    assert(open_boxes@ =~= old_boxes.update(box_index as int, target));
                    assert(boxes_items(open_boxes@).len() == boxes_items(old_boxes).len() + 1);
                    assert(sequence_range(boxes_items(open_boxes@).len()) =~= sequence_range(boxes_items(old_boxes).len()).insert(seq_no));
                    assert(boxes_items(open_boxes@).add(unplaced_items(unplaced@)) =~= prefix_views.to_multiset().insert(item_view));
                    assert forall|q: int| 0 <= q < open_boxes@.len() implies box_wf(#[trigger] open_boxes@[q]) && open_boxes@[q].placements@.len() > 0 by {
                        if q != box_index {
                            assert(open_boxes@[q] == old_boxes[q]);
                        }
                    }
                    assert forall|q: int| 0 <= q < open_boxes@.len() implies 0 <= #[trigger] origins[q] < stock@.len() && from_stock(open_boxes@[q], stock@[origins[q]]) by {
                        assert(from_stock(old_boxes[q], stock@[origins[q]]));
                    }
                }
                next_sequence = next_sequence + 1;
                proof {
                    let t = PassState {
                        boxes: open_boxes@,
                        remaining: stock_remaining@,
                        unplaced: unplaced@,
                        next: next_sequence,
                    };
                    let bi = box_index as int;
                    assert(can_place(state.boxes[bi], current));
                    assert(picked(state.boxes[bi], current, placement_policy, candidate));
                    assert(placed_into(state.boxes[bi], current, candidate, state.next, t.boxes[bi]));
                    assert(forall|q: int| 0 <= q < state.boxes.len() && q != bi ==> #[trigger] t.boxes[q] == state.boxes[q]);
                    assert(pass_step(state, current, rv, rw, stock@, box_policy, placement_policy, t));
                    trace = trace.push(t);
                }
            },
            None => {
                let remaining_volume = suffix_volume_rev[n - item_index];
                let remaining_weight = suffix_weight_rev[n - item_index];
                match choose_stock_box(
                    stock,
                    stock_remaining.as_slice(),
                    &item,
                    remaining_volume,
                    remaining_weight,
                    box_policy,
                    placement_policy,
                ) {
                    Some((stock_index, candidate)) => {
                        let ghost old_boxes = open_boxes@;
                        let ghost item_view = item@;
                        let ghost seq_no = next_sequence;
                        let ghost old_origins = origins;
                        proof {
                            assert(forall|q: int| 0 <= q < old_boxes.len() ==> #[trigger] old_boxes[q].placements@.len() > 0);
                            lemma_boxes_items_len(old_boxes);
                            assert(old_boxes.len() <= boxes_items(old_boxes).len());
                        }
                        let left = stock_remaining[stock_index] - 1;
                        stock_remaining.set(stock_index, left);
                        let id = crate::text::with_number("box-", open_boxes.len() + 1);
                        let mut new_box = OpenBox::new(id, &stock[stock_index]);
                        proof {
                            assert(new_box.free_spaces@ =~= seq![whole_space(stock@[stock_index as int].size)]);
                            assert(is_fresh_box(new_box, stock@[stock_index as int]));
                            lemma_fresh_candidate(new_box, stock@[stock_index as int], item, candidate);
                            assert(edges_bounded(stock@[stock_index as int].size));
                            assert(crate::geometry::inside(new_box.free_spaces@[0].position, new_box.free_spaces@[0].size, new_box.size));
                            assert(fits_at(new_box.free_spaces@[0], candidate.position, candidate.size));
                        }
                        let ghost fresh = new_box;
                        new_box.place(item, candidate, next_sequence);
                        proof {
                            assert(new_box.placements@.map_values(|p: PlacedItem| p.item@) =~= seq![item_view]);
                            assert(new_box.placements@.map_values(|p: PlacedItem| p.sequence) =~= seq![seq_no]);
                            assert(box_items(new_box) =~= Multiset::empty().insert(item_view)) by {
                                assert(seq![item_view] =~= Seq::<ItemView>::empty().push(item_view));
                            }
                            assert(box_sequences(new_box) =~= Multiset::empty().insert(seq_no)) by {
                                assert(seq![seq_no] =~= Seq::<usize>::empty().push(seq_no));
                            }
                        }
                        open_boxes.push(new_box);
                        proof {
                            origins = origins.push(stock_index as int);
                            assert(open_boxes@.drop_last() =~= old_boxes);
                            assert(boxes_items(open_boxes@) =~= boxes_items(old_boxes).insert(item_view));
                            assert(boxes_sequences(open_boxes@) =~= boxes_sequences(old_boxes).insert(seq_no));
                            assert(sequence_range(boxes_items(open_boxes@).len()) =~= sequence_range(boxes_items(old_boxes).len()).insert(seq_no));
                            assert(boxes_items(open_boxes@).add(unplaced_items(unplaced@)) =~= prefix_views.to_multiset().insert(item_view));
                            assert(origins.to_multiset() =~= old_origins.to_multiset().insert(stock_index as int));
                            assert forall|q: int| 0 <= q < open_boxes@.len() implies box_wf(#[trigger] open_boxes@[q]) && open_boxes@[q].placements@.len() > 0 by {
                                if q < old_boxes.len() {
                                    assert(open_boxes@[q] == old_boxes[q]);
                                }
                            }
                            assert forall|q: int| 0 <= q < open_boxes@.len() implies 0 <= #[trigger] origins[q] < stock@.len() && from_stock(open_boxes@[q], stock@[origins[q]]) by {
                                if q < old_boxes.len() {
                                    assert(open_boxes@[q] == old_boxes[q]);
                                    assert(origins[q] == old_origins[q]);
                                }
                            }
                            assert forall|q: int| 0 <= q < stock@.len() implies #[trigger] stock_remaining@[q] + origins.to_multiset().count(q) == stock@[q].count by {
                            }
                            assert forall|q: int| 0 <= q < stock@.len() implies origins.to_multiset().count(q) <= #[trigger] stock@[q].count by {
                                assert(stock_remaining@[q] + origins.to_multiset().count(q) == stock@[q].count);
                            }
                        }
                        next_sequence = next_sequence + 1;
                        proof {
                            let t = PassState {
                                boxes: open_boxes@,
                                remaining: stock_remaining@,
                                unplaced: unplaced@,
                                next: next_sequence,
                            };
                            let j = stock_index as int;
                            assert(remaining_volume == rv);
                            assert(remaining_weight == rw);
                            assert(stock_can_take(stock@, state.remaining, current, placement_policy, j));
                            assert(picked(canonical_fresh(stock@[j]), current, placement_policy, candidate));
                            assert(is_fresh_box(fresh, stock@[j]));
                            assert(fresh.instance_id@ == box_label((state.boxes.len() + 1) as nat));
                            assert(t.boxes.drop_last() =~= state.boxes);
                            assert(t.remaining =~= state.remaining.update(j, (state.remaining[j] - 1) as usize));
                            assert(pass_step(state, current, rv, rw, stock@, box_policy, placement_policy, t));
                            trace = trace.push(t);
                        }
                    },
                    None => {
                        let ghost item_view = item@;
                        let ghost old_unplaced = unplaced@;
                        unplaced.push(UnplacedItem { item, reason: NO_BOX_FITS });
                        proof {
                            assert(unplaced@.map_values(|x: UnplacedItem| x.item@) =~= old_unplaced.map_values(|x: UnplacedItem| x.item@).push(item_view));
                            assert(unplaced_items(unplaced@) =~= unplaced_items(old_unplaced).insert(item_view));
                            assert(boxes_items(open_boxes@).add(unplaced_items(unplaced@)) =~= prefix_views.to_multiset().insert(item_view));
                            let t = PassState {
                                boxes: open_boxes@,
                                remaining: stock_remaining@,
                                unplaced: unplaced@,
                                next: next_sequence,
                            };
                            assert(pass_step(state, current, rv, rw, stock@, box_policy, placement_policy, t));
                            trace = trace.push(t);
                        }
                    },
                }
            },
        }
        proof {
            assert(trace.len() == old_trace.len() + 1);
            assert(pass_step(state, current, rv, rw, stock@, box_policy, placement_policy, trace.last()));
            assert forall|i: int| 0 <= i < item_index + 1 implies pass_step(trace[i], #[trigger] sorted[i], rest_volume(sorted, i),
                rest_weight(sorted, i), stock@, box_policy, placement_policy, trace[i + 1]) by {
                if i < item_index {
                    assert(trace[i] == old_trace[i]);
                    assert(trace[i + 1] == old_trace[i + 1]);
                } else {
                    assert(trace[i] == state);
                }
            }
        }
        item_index = item_index + 1;
    }
    proof {
        assert(sorted.take(n as int) =~= sorted);
        assert(item_views(sorted).to_multiset() == item_views(input).to_multiset());
        assert(boxes_items(open_boxes@).add(unplaced_items(unplaced@)) == item_views(input).to_multiset());
        assert(respects_stock(open_boxes@, stock@, origins));
    }
    let solution = PackingSolution { boxes: open_boxes, unplaced, requested: n };
    proof {
        assert(pass_run(input, sorted, trace, stock@, item_order, box_policy, placement_policy, solution));
        assert(solution.requested == input.len());
        assert(forall|k: int| 0 <= k < solution.boxes@.len() ==> box_wf(#[trigger] solution.boxes@[k]) && solution.boxes@[k].placements@.len() > 0);
        assert(boxes_items(solution.boxes@).add(unplaced_items(solution.unplaced@)) == item_views(input).to_multiset());
        assert(boxes_sequences(solution.boxes@) == sequence_range(boxes_items(solution.boxes@).len()));
        assert(respects_stock(solution.boxes@, stock@, origins));
    }
    solution
}
} // verus!
