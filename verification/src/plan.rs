//! The packing plan handed to clients: a summary, the boxes used, the
//! placement steps in order and the products that could not be packed.
//! Shares are kept as exact volumes; a client divides them.

use vstd::multiset::Multiset;
use vstd::prelude::*;

use crate::catalog::ProductMarker;
use crate::container::OpenBox;
use crate::geometry::{inside, oriented, volume_of, Dimensions, Orientation, Position};
use crate::container::StockBox;
use crate::packer::{
    boxes_items, boxes_sequences, item_views, packing_valid, sequence_range, unplaced_items,
    PackingSolution, UnplacedItem,
};
use crate::container::{box_wf, placement_sound};
use crate::placement::{
    copy_markers, lemma_map_multiset, string_views, Item, ItemView, PlacedItem, ITEM_LIMIT,
};
use crate::search::{boxes_measured, capacity_sum, capacity_total, used_sum, used_total};
use crate::sorting::{sort_by, sorted_by, total_preorder};

verus! {

broadcast use vstd::seq_lib::group_to_multiset_ensures;

/// Whether every requested product was placed.
#[derive(Clone, Copy, Debug, PartialEq, Eq, Structural)]
pub enum PackingStatus {
    Complete,
    Partial,
}

/// Names of the axes and of the origin corner.
#[derive(Clone, Copy, Debug)]
pub struct CoordinateSystem {
    pub origin: &'static str,
    pub x: &'static str,
    pub y: &'static str,
    pub z: &'static str,
}

/// Totals over the plan. The volume share is `product_volume` over
/// `selected_box_volume`, or zero when no box is used.
#[derive(Clone, Copy, Debug, PartialEq, Eq, Structural)]
pub struct PackingSummary {
    pub products_requested: usize,
    pub products_placed: usize,
    pub boxes_used: usize,
    pub product_volume: u64,
    pub selected_box_volume: u64,
}

/// One box of the plan. Its volume share is `used_volume` over `box_volume`.
#[derive(Clone, Debug)]
pub struct PackedBox {
    pub instance_id: String,
    pub box_type_id: String,
    pub size: Dimensions,
    pub max_weight: u64,
    pub total_weight: u64,
    pub used_volume: u64,
    pub box_volume: u64,
    pub placed_products: usize,
}

/// One placement of a product, numbered in the order the products went in.
#[derive(Clone, Debug)]
pub struct PackingStep {
    pub step: usize,
    pub action: &'static str,
    pub box_instance_id: String,
    pub product_instance_id: String,
    pub product_id: String,
    pub name: String,
    pub markers: Vec<ProductMarker>,
    pub position: Position,
    pub original_size: Dimensions,
    pub oriented_size: Dimensions,
    pub orientation: Orientation,
    pub supported_by: Vec<String>,
}

/// A product instance that no box could take, and why.
#[derive(Clone, Debug)]
pub struct UnplacedProduct {
    pub product_instance_id: String,
    pub product_id: String,
    pub name: String,
    pub reason: &'static str,
}

/// The plan for one order.
#[derive(Clone, Debug)]
pub struct PackingPlan {
    pub order_id: String,
    pub status: PackingStatus,
    pub algorithm: &'static str,
    pub units: &'static str,
    pub coordinate_system: CoordinateSystem,
    pub summary: PackingSummary,
    pub boxes: Vec<PackedBox>,
    pub steps: Vec<PackingStep>,
    pub unplaced_products: Vec<UnplacedProduct>,
}

/// The name of the packing method, as reported in plans.
pub const ALGORITHM_NAME: &'static str = "multi_start_maximal_spaces_v3";

/// The unit of all lengths and volumes in a plan.
pub const UNITS: &'static str = "model_units";

/// The action of every step.
pub const PLACE_ACTION: &'static str = "place";

pub const ORIGIN_CORNER: &'static str = "bottom-left-back";

pub const X_AXIS: &'static str = "width";

pub const Y_AXIS: &'static str = "height";

pub const Z_AXIS: &'static str = "depth";

/// The coordinate system of every plan.
pub open spec fn coordinate_system_spec() -> CoordinateSystem {
    CoordinateSystem { origin: ORIGIN_CORNER, x: X_AXIS, y: Y_AXIS, z: Z_AXIS }
}

/// A step with its strings and lists taken by value.
pub struct StepView {
    pub step: usize,
    pub box_instance_id: Seq<char>,
    pub product_instance_id: Seq<char>,
    pub product_id: Seq<char>,
    pub name: Seq<char>,
    pub markers: Seq<ProductMarker>,
    pub position: Position,
    pub original_size: Dimensions,
    pub oriented_size: Dimensions,
    pub orientation: Orientation,
    pub supported_by: Seq<Seq<char>>,
}

impl View for PackingStep {
    type V = StepView;

    open spec fn view(&self) -> StepView {
        StepView {
            step: self.step,
            box_instance_id: self.box_instance_id@,
            product_instance_id: self.product_instance_id@,
            product_id: self.product_id@,
            name: self.name@,
            markers: self.markers@,
            position: self.position,
            original_size: self.original_size,
            oriented_size: self.oriented_size,
            orientation: self.orientation,
            supported_by: string_views(self.supported_by@),
        }
    }
}

/// The step that records placement `p` in box `b`.
pub open spec fn step_spec(b: OpenBox, p: PlacedItem) -> StepView {
    StepView {
        step: p.sequence,
        box_instance_id: b.instance_id@,
        product_instance_id: p.item.product_instance_id@,
        product_id: p.item.product_id@,
        name: p.item.name@,
        markers: p.item.markers@,
        position: p.position,
        original_size: p.item.size,
        oriented_size: p.size,
        orientation: p.orientation,
        supported_by: string_views(p.supported_by@),
    }
}

/// The steps of one box, in placement order.
pub open spec fn box_steps(b: OpenBox) -> Seq<StepView> {
    b.placements@.map_values(|p: PlacedItem| step_spec(b, p))
}

/// The steps of all boxes, box by box.
pub open spec fn all_steps(boxes: Seq<OpenBox>) -> Seq<StepView>
    decreases boxes.len(),
{
    if boxes.len() == 0 {
        Seq::empty()
    } else {
        all_steps(boxes.drop_last()) + box_steps(boxes.last())
    }
}

/// `p` reports box `b`.
pub open spec fn packed_from(p: PackedBox, b: OpenBox) -> bool {
    &&& p.instance_id@ == b.instance_id@
    &&& p.box_type_id@ == b.box_type_id@
    &&& p.size == b.size
    &&& p.max_weight == b.max_weight
    &&& p.total_weight == b.total_weight
    &&& p.used_volume == b.used_volume
    &&& p.box_volume == volume_of(b.size)
    &&& p.placed_products == b.placements@.len()
}

/// `u` reports the left-over item `x`.
pub open spec fn unplaced_from(u: UnplacedProduct, x: UnplacedItem) -> bool {
    &&& u.product_instance_id@ == x.item.product_instance_id@
    &&& u.product_id@ == x.item.product_id@
    &&& u.name@ == x.item.name@
    &&& u.reason == x.reason
}

pub open spec fn step_views(steps: Seq<PackingStep>) -> Seq<StepView> {
    steps.map_values(|s: PackingStep| s@)
}

/// What `into_plan` needs: no more items left over than asked for, and the
/// volume totals and each box volume within 64 bits.
pub open spec fn plan_ready(sol: PackingSolution) -> bool {
    &&& sol.unplaced@.len() <= sol.requested
    &&& used_total(sol.boxes@) <= u64::MAX
    &&& capacity_total(sol.boxes@) <= u64::MAX
    &&& boxes_measured(sol.boxes@)
}

/// Copies the strings one by one.
pub fn copy_strings(v: &Vec<String>) -> (r: Vec<String>)
    ensures
        string_views(r@) == string_views(v@),
{
    let mut r: Vec<String> = Vec::with_capacity(v.len());
    let mut i: usize = 0;
    while i < v.len()
        invariant
            i <= v@.len(),
            r@.len() == i,
            forall|k: int| 0 <= k < i ==> #[trigger] r@[k]@ == v@[k]@,
        decreases v@.len() - i,
    {
        r.push(v[i].clone());
        i = i + 1;
    }
    proof {
        assert(string_views(r@) =~= string_views(v@));
    }
    r
}

fn step_for(b: &OpenBox, p: &PlacedItem) -> (s: PackingStep)
    ensures
        s@ == step_spec(*b, *p),
        s.action == PLACE_ACTION,
{
    let markers = copy_markers(&p.item.markers);
    let supported_by = copy_strings(&p.supported_by);
    PackingStep {
        step: p.sequence,
        action: PLACE_ACTION,
        box_instance_id: b.instance_id.clone(),
        product_instance_id: p.item.product_instance_id.clone(),
        product_id: p.item.product_id.clone(),
        name: p.item.name.clone(),
        markers,
        position: p.position,
        original_size: p.item.size,
        oriented_size: p.size,
        orientation: p.orientation,
        supported_by,
    }
}

fn step_less(a: &PackingStep, b: &PackingStep) -> (r: bool)
    ensures
        r == (a.step < b.step),
{
    a.step < b.step
}

/// The steps of all boxes, box by box, in placement order.
fn collect_steps(boxes: &Vec<OpenBox>) -> (steps: Vec<PackingStep>)
    ensures
        step_views(steps@) == all_steps(boxes@),
        forall|k: int| 0 <= k < steps@.len() ==> #[trigger] steps@[k].action == PLACE_ACTION,
{
    let mut steps: Vec<PackingStep> = Vec::new();
    let mut b: usize = 0;
    while b < boxes.len()
        invariant
            b <= boxes@.len(),
            step_views(steps@) == all_steps(boxes@.take(b as int)),
            forall|k: int| 0 <= k < steps@.len() ==> #[trigger] steps@[k].action == PLACE_ACTION,
        decreases boxes@.len() - b,
    {
        let open_box = &boxes[b];
        let ghost start = step_views(steps@);
        let mut i: usize = 0;
        while i < open_box.placements.len()
            invariant
                i <= open_box.placements@.len(),
                *open_box == boxes@[b as int],
                step_views(steps@) == start + box_steps(*open_box).take(i as int),
                forall|k: int| 0 <= k < steps@.len() ==> #[trigger] steps@[k].action == PLACE_ACTION,
            decreases open_box.placements@.len() - i,
        {
            let s = step_for(open_box, &open_box.placements[i]);
            proof {
                assert(step_views(steps@.push(s)) =~= step_views(steps@).push(s@));
                assert(box_steps(*open_box).take(i + 1) =~= box_steps(*open_box).take(i as int).push(s@));
            }
            steps.push(s);
            i = i + 1;
        }
        proof {
            assert(box_steps(*open_box).take(open_box.placements@.len() as int) =~= box_steps(*open_box));
            assert(boxes@.take(b + 1).drop_last() =~= boxes@.take(b as int));
            assert(step_views(steps@) =~= all_steps(boxes@.take(b + 1)));
        }
        b = b + 1;
    }
    proof {
        assert(boxes@.take(boxes@.len() as int) =~= boxes@);
    }
    steps
}

fn packed_box_for(b: &OpenBox) -> (p: PackedBox)
    requires
        volume_of(b.size) <= u64::MAX,
    ensures
        packed_from(p, *b),
{
    PackedBox {
        instance_id: b.instance_id.clone(),
        box_type_id: b.box_type_id.clone(),
        size: b.size,
        max_weight: b.max_weight,
        total_weight: b.total_weight,
        used_volume: b.used_volume,
        box_volume: b.size.volume(),
        placed_products: b.placements.len(),
    }
}

/// `plan` reports the outcome `sol`: its status and totals, each box, the
/// steps of all boxes sorted by step number, and the items left over.
pub open spec fn plan_describes(plan: PackingPlan, sol: PackingSolution) -> bool {
    &&& plan.status == (if sol.unplaced@.len() == 0 {
        PackingStatus::Complete
    } else {
        PackingStatus::Partial
    })
    &&& plan.algorithm == ALGORITHM_NAME
    &&& plan.units == UNITS
    &&& plan.coordinate_system == coordinate_system_spec()
    &&& plan.summary == (PackingSummary {
        products_requested: sol.requested,
        products_placed: (sol.requested - sol.unplaced@.len()) as usize,
        boxes_used: sol.boxes@.len() as usize,
        product_volume: used_total(sol.boxes@) as u64,
        selected_box_volume: capacity_total(sol.boxes@) as u64,
    })
    &&& plan.boxes@.len() == sol.boxes@.len()
    &&& forall|k: int| 0 <= k < sol.boxes@.len() ==> #[trigger] packed_from(plan.boxes@[k], sol.boxes@[k])
    &&& step_views(plan.steps@).to_multiset() == all_steps(sol.boxes@).to_multiset()
    &&& forall|i: int, j: int| 0 <= i < j < plan.steps@.len() ==> #[trigger] plan.steps@[i].step <= #[trigger] plan.steps@[j].step
    &&& forall|k: int| 0 <= k < plan.steps@.len() ==> #[trigger] plan.steps@[k].action == PLACE_ACTION
    &&& plan.unplaced_products@.len() == sol.unplaced@.len()
    &&& forall|k: int| 0 <= k < sol.unplaced@.len() ==> #[trigger] unplaced_from(plan.unplaced_products@[k], sol.unplaced@[k])
}

impl PackingSolution {
    /// The plan for order `order_id`: the summary, each box, the steps
    /// sorted by step number and the products left over.
    pub fn into_plan(self, order_id: String) -> (plan: PackingPlan)
        requires
            plan_ready(self),
        ensures
            plan.order_id@ == order_id@,
            plan_describes(plan, self),
    {
        let products_placed = self.requested - self.unplaced.len();
        let product_volume = used_sum(&self.boxes) as u64;
        let selected_box_volume = capacity_sum(&self.boxes) as u64;
        let unsorted = collect_steps(&self.boxes);
        let ghost leq = |a: PackingStep, b: PackingStep| a.step <= b.step;
        proof {
            assert(total_preorder(leq));
        }
        let steps = sort_by(unsorted, step_less, Ghost(leq));
        proof {
            lemma_map_multiset(steps@, unsorted@, |s: PackingStep| s@);
            assert forall|k: int| 0 <= k < steps@.len() implies #[trigger] steps@[k].action == PLACE_ACTION by {
                assert(steps@.contains(steps@[k]));
                assert(unsorted@.to_multiset().count(steps@[k]) > 0);
                assert(unsorted@.contains(steps@[k]));
            }
            assert forall|i: int, j: int| 0 <= i < j < steps@.len() implies #[trigger] steps@[i].step <= #[trigger] steps@[j].step by {
                assert(leq(steps@[i], steps@[j]));
            }
        }
        let mut boxes: Vec<PackedBox> = Vec::with_capacity(self.boxes.len());
        let mut b: usize = 0;
        while b < self.boxes.len()
            invariant
                b <= self.boxes@.len(),
                boxes_measured(self.boxes@),
                boxes@.len() == b,
                forall|k: int| 0 <= k < b ==> #[trigger] packed_from(boxes@[k], self.boxes@[k]),
            decreases self.boxes@.len() - b,
        {
            proof {
                assert(0 < volume_of(self.boxes@[b as int].size) <= u64::MAX);
            }
            boxes.push(packed_box_for(&self.boxes[b]));
            b = b + 1;
        }
        let mut unplaced_products: Vec<UnplacedProduct> = Vec::with_capacity(self.unplaced.len());
        let mut u: usize = 0;
        while u < self.unplaced.len()
            invariant
                u <= self.unplaced@.len(),
                unplaced_products@.len() == u,
                forall|k: int| 0 <= k < u ==> #[trigger] unplaced_from(unplaced_products@[k], self.unplaced@[k]),
            decreases self.unplaced@.len() - u,
        {
            let x = &self.unplaced[u];
            unplaced_products.push(UnplacedProduct {
                product_instance_id: x.item.product_instance_id.clone(),
                product_id: x.item.product_id.clone(),
                name: x.item.name.clone(),
                reason: x.reason,
            });
            u = u + 1;
        }
        let status = if self.unplaced.len() == 0 {
            PackingStatus::Complete
        } else {
            PackingStatus::Partial
        };
        PackingPlan {
            order_id,
            status,
            algorithm: ALGORITHM_NAME,
            units: UNITS,
            coordinate_system: CoordinateSystem { origin: ORIGIN_CORNER, x: X_AXIS, y: Y_AXIS, z: Z_AXIS },
            summary: PackingSummary {
                products_requested: self.requested,
                products_placed,
                boxes_used: self.boxes.len(),
                product_volume,
                selected_box_volume,
            },
            boxes,
            steps,
            unplaced_products,
        }
    }
}

/// The instance ids of the plan's steps.
pub open spec fn step_instance_ids(plan: PackingPlan) -> Multiset<Seq<char>> {
    step_views(plan.steps@).map_values(|s: StepView| s.product_instance_id).to_multiset()
}

/// The instance ids of the plan's unplaced products.
pub open spec fn unplaced_instance_ids(plan: PackingPlan) -> Multiset<Seq<char>> {
    plan.unplaced_products@.map_values(|u: UnplacedProduct| u.product_instance_id@).to_multiset()
}

/// The instance ids of the items.
pub open spec fn item_instance_ids(items: Seq<Item>) -> Multiset<Seq<char>> {
    items.map_values(|i: Item| i.product_instance_id@).to_multiset()
}

/// The items in the boxes, box by box, in placement order.
pub open spec fn boxes_item_seq(boxes: Seq<OpenBox>) -> Seq<ItemView>
    decreases boxes.len(),
{
    if boxes.len() == 0 {
        Seq::empty()
    } else {
        boxes_item_seq(boxes.drop_last()) + boxes.last().placements@.map_values(|p: PlacedItem| p.item@)
    }
}

proof fn lemma_boxes_item_seq(boxes: Seq<OpenBox>)
    ensures
        boxes_item_seq(boxes).to_multiset() == boxes_items(boxes),
        all_steps(boxes).map_values(|s: StepView| s.product_instance_id)
            == boxes_item_seq(boxes).map_values(|v: ItemView| v.product_instance_id),
        all_steps(boxes).map_values(|s: StepView| s.step).to_multiset() == boxes_sequences(boxes),
        all_steps(boxes).len() == boxes_item_seq(boxes).len(),
    decreases boxes.len(),
{
    if boxes.len() > 0 {
        let init = boxes.drop_last();
        let last = boxes.last();
        lemma_boxes_item_seq(init);
        let tail = last.placements@.map_values(|p: PlacedItem| p.item@);
        vstd::seq_lib::lemma_multiset_commutative(boxes_item_seq(init), tail);
        let f = |s: StepView| s.product_instance_id;
        let g = |v: ItemView| v.product_instance_id;
        assert((all_steps(init) + box_steps(last)).map_values(f) =~= all_steps(init).map_values(f) + box_steps(last).map_values(f));
        assert((boxes_item_seq(init) + tail).map_values(g) =~= boxes_item_seq(init).map_values(g) + tail.map_values(g));
        assert(box_steps(last).map_values(f) =~= tail.map_values(g));
        let n = |s: StepView| s.step;
        assert((all_steps(init) + box_steps(last)).map_values(n) =~= all_steps(init).map_values(n) + box_steps(last).map_values(n));
        vstd::seq_lib::lemma_multiset_commutative(all_steps(init).map_values(n), box_steps(last).map_values(n));
        assert(box_steps(last).map_values(n) =~= last.placements@.map_values(|p: PlacedItem| p.sequence));
    }
}

/// A step of all the boxes' steps comes from some placement of some box,
/// and that placement's item is among the items the boxes hold.
proof fn lemma_step_source(boxes: Seq<OpenBox>, v: StepView)
    requires
        all_steps(boxes).contains(v),
    ensures
        exists|b: int, q: int| 0 <= b < boxes.len() && 0 <= q < boxes[b].placements@.len()
            && v == step_spec(boxes[b], boxes[b].placements@[q])
            && boxes_item_seq(boxes).contains(#[trigger] boxes[b].placements@[q].item@),
    decreases boxes.len(),
{
    let init = boxes.drop_last();
    let last = boxes.last();
    let i = choose|i: int| 0 <= i < all_steps(boxes).len() && all_steps(boxes)[i] == v;
    let tail = last.placements@.map_values(|p: PlacedItem| p.item@);
    if i < all_steps(init).len() {
        assert(all_steps(init)[i] == v);
        lemma_step_source(init, v);
        let (b, q) = choose|b: int, q: int| 0 <= b < init.len() && 0 <= q < init[b].placements@.len()
            && v == step_spec(init[b], init[b].placements@[q])
            && boxes_item_seq(init).contains(#[trigger] init[b].placements@[q].item@);
        assert(init[b] == boxes[b]);
        let x = init[b].placements@[q].item@;
        let n = choose|n: int| 0 <= n < boxes_item_seq(init).len() && boxes_item_seq(init)[n] == x;
        assert((boxes_item_seq(init) + tail)[n] == x);
        assert(boxes_item_seq(boxes).contains(boxes[b].placements@[q].item@));
    } else {
        let q = i - all_steps(init).len();
        assert(box_steps(last)[q] == v);
        let b = boxes.len() - 1;
        assert(v == step_spec(boxes[b], boxes[b].placements@[q]));
        let n = boxes_item_seq(init).len() + q;
        assert((boxes_item_seq(init) + tail)[n] == boxes[b].placements@[q].item@);
        assert(boxes_item_seq(boxes).contains(boxes[b].placements@[q].item@));
    }
}

/// Every step of the plan of a valid packing reports the product instance
/// it places as ordered and as turned: `original_size` is the size of an
/// ordered item of that instance, `oriented_size` is that size turned by
/// the step's `orientation`, and the turned product lies inside the box the
/// step names, at the step's position.
pub proof fn lemma_plan_steps_report_turned_sizes(
    plan: PackingPlan,
    sol: PackingSolution,
    items: Seq<Item>,
    stock: Seq<StockBox>,
)
    requires
        packing_valid(sol, items, stock),
        plan_describes(plan, sol),
    ensures
        forall|k: int| 0 <= k < plan.steps@.len() ==> {
            let st = #[trigger] plan.steps@[k];
            &&& st.oriented_size == oriented(st.orientation, st.original_size)
            &&& exists|b: int| 0 <= b < plan.boxes@.len() && plan.boxes@[b].instance_id@ == st.box_instance_id@
                && inside(st.position, st.oriented_size, plan.boxes@[b].size)
            &&& exists|i: int| 0 <= i < items.len() && items[i].product_instance_id@ == st.product_instance_id@
                && items[i].size == st.original_size
        },
{
    let boxes = sol.boxes@;
    lemma_boxes_item_seq(boxes);
    assert forall|k: int| 0 <= k < plan.steps@.len() implies {
        let st = #[trigger] plan.steps@[k];
        &&& st.oriented_size == oriented(st.orientation, st.original_size)
        &&& exists|b: int| 0 <= b < plan.boxes@.len() && plan.boxes@[b].instance_id@ == st.box_instance_id@
            && inside(st.position, st.oriented_size, plan.boxes@[b].size)
        &&& exists|i: int| 0 <= i < items.len() && items[i].product_instance_id@ == st.product_instance_id@
            && items[i].size == st.original_size
    } by {
        let st = plan.steps@[k];
        let v = st@;
        assert(step_views(plan.steps@)[k] == v);
        assert(step_views(plan.steps@).to_multiset().count(v) > 0);
        assert(all_steps(boxes).to_multiset().count(v) > 0);
        assert(all_steps(boxes).contains(v));
        lemma_step_source(boxes, v);
        let (b, q) = choose|b: int, q: int| 0 <= b < boxes.len() && 0 <= q < boxes[b].placements@.len()
            && v == step_spec(boxes[b], boxes[b].placements@[q])
            && boxes_item_seq(boxes).contains(#[trigger] boxes[b].placements@[q].item@);
        let bx = boxes[b];
        let p = bx.placements@[q];
        assert(box_wf(bx));
        assert(placement_sound(p, bx.size, bx.placements@.take(q)));
        assert(packed_from(plan.boxes@[b], bx));
        let x = p.item@;
        assert(boxes_items(boxes).count(x) > 0);
        assert(boxes_items(boxes).add(unplaced_items(sol.unplaced@)).count(x) > 0);
        assert(item_views(items).to_multiset().count(x) > 0);
        assert(item_views(items).contains(x));
        let i = choose|i: int| 0 <= i < item_views(items).len() && item_views(items)[i] == x;
        assert(items[i]@ == x);
    }
}

/// A plan of a valid packing accounts for every requested product instance
/// exactly once: each instance id of the items occurs once among the steps
/// or the unplaced products, and nothing else occurs there.
pub proof fn lemma_plan_accounts_for_every_instance(
    plan: PackingPlan,
    sol: PackingSolution,
    items: Seq<Item>,
    stock: Seq<StockBox>,
)
    requires
        packing_valid(sol, items, stock),
        plan_describes(plan, sol),
    ensures
        step_instance_ids(plan).add(unplaced_instance_ids(plan)) == item_instance_ids(items),
{
    let f = |s: StepView| s.product_instance_id;
    let g = |v: ItemView| v.product_instance_id;
    let boxes = sol.boxes@;
    let placed = boxes_item_seq(boxes);
    let left = sol.unplaced@.map_values(|x: UnplacedItem| x.item@);
    lemma_boxes_item_seq(boxes);
    lemma_map_multiset(step_views(plan.steps@), all_steps(boxes), f);
    vstd::seq_lib::lemma_multiset_commutative(placed, left);
    lemma_map_multiset(placed + left, item_views(items), g);
    assert((placed + left).map_values(g) =~= placed.map_values(g) + left.map_values(g));
    vstd::seq_lib::lemma_multiset_commutative(placed.map_values(g), left.map_values(g));
    assert(plan.unplaced_products@.map_values(|u: UnplacedProduct| u.product_instance_id@) =~= left.map_values(g)) by {
        assert forall|k: int| 0 <= k < sol.unplaced@.len() implies #[trigger] plan.unplaced_products@[k].product_instance_id@ == left.map_values(g)[k] by {
            assert(unplaced_from(plan.unplaced_products@[k], sol.unplaced@[k]));
        }
    }
    assert(item_views(items).map_values(g) =~= items.map_values(|i: Item| i.product_instance_id@));
}

proof fn lemma_sequence_range(n: nat)
    requires
        n <= usize::MAX,
    ensures
        forall|x: usize| #[trigger] sequence_range(n).count(x) == if 1 <= x <= n {
            1nat
        } else {
            0nat
        },
    decreases n,
{
    if n > 0 {
        lemma_sequence_range((n - 1) as nat);
        assert forall|x: usize| #[trigger] sequence_range(n).count(x) == if 1 <= x <= n {
            1nat
        } else {
            0nat
        } by {
            assert(sequence_range(n) == sequence_range((n - 1) as nat).insert(n as usize));
        }
    }
}

/// A nondecreasing sequence holding each of `1..=n` once is `1, 2, ..., n`.
proof fn lemma_sorted_range(t: Seq<usize>, n: nat)
    requires
        t.len() == n,
        n <= usize::MAX,
        forall|i: int, j: int| 0 <= i < j < t.len() ==> #[trigger] t[i] <= #[trigger] t[j],
        t.to_multiset() == sequence_range(n),
    ensures
        forall|k: int| 0 <= k < t.len() ==> #[trigger] t[k] == k + 1,
    decreases n,
{
    if n > 0 {
        lemma_sequence_range(n);
        lemma_sequence_range((n - 1) as nat);
        let top = n as usize;
        assert(t.to_multiset().count(top) == 1);
        assert(t.contains(top));
        let j = choose|j: int| 0 <= j < t.len() && t[j] == top;
        let last = t[n - 1];
        assert(t.to_multiset().count(last) > 0) by {
            assert(t.contains(last));
        }
        assert(last <= n);
        if j < n - 1 {
            assert(t[j] <= t[n - 1]);
        }
        assert(last == top);
        let init = t.drop_last();
        assert(t =~= init.push(last));
        assert(init.to_multiset() =~= sequence_range((n - 1) as nat)) by {
            assert(t.to_multiset() == init.to_multiset().insert(last));
            assert forall|x: usize| #[trigger] init.to_multiset().count(x) == sequence_range((n - 1) as nat).count(x) by {
                assert(t.to_multiset().count(x) == init.to_multiset().count(x) + if x == last { 1nat } else { 0nat });
            }
        }
        lemma_sorted_range(init, (n - 1) as nat);
        assert forall|k: int| 0 <= k < t.len() implies #[trigger] t[k] == k + 1 by {
            if k < n - 1 {
                assert(t[k] == init[k]);
            }
        }
    }
}

/// In the plan of a valid packing, the steps are numbered `1, 2, ..., n` in
/// order, one per placed product.
pub proof fn lemma_plan_steps_numbered(plan: PackingPlan, sol: PackingSolution, items: Seq<Item>, stock: Seq<StockBox>)
    requires
        packing_valid(sol, items, stock),
        plan_describes(plan, sol),
        items.len() <= ITEM_LIMIT,
    ensures
        plan.steps@.len() == boxes_items(sol.boxes@).len(),
        forall|k: int| 0 <= k < plan.steps@.len() ==> #[trigger] plan.steps@[k].step == k + 1,
{
    let boxes = sol.boxes@;
    let n = |st: StepView| st.step;
    lemma_boxes_item_seq(boxes);
    lemma_map_multiset(step_views(plan.steps@), all_steps(boxes), n);
    let numbers = step_views(plan.steps@).map_values(n);
    assert(step_views(plan.steps@).to_multiset().len() == all_steps(boxes).to_multiset().len());
    assert(boxes_items(boxes).len() == boxes_item_seq(boxes).len());
    let total = boxes_items(boxes).len();
    assert(boxes_items(boxes).add(crate::packer::unplaced_items(sol.unplaced@)).len() == items.len()) by {
        assert(item_views(items).len() == items.len());
    }
    assert(total <= items.len());
    assert forall|i: int, j: int| 0 <= i < j < numbers.len() implies #[trigger] numbers[i] <= #[trigger] numbers[j] by {
        assert(plan.steps@[i].step <= plan.steps@[j].step);
    }
    assert forall|k: int| 0 <= k < numbers.len() implies #[trigger] numbers[k] == plan.steps@[k].step by {}
    lemma_sorted_range(numbers, total);
    assert forall|k: int| 0 <= k < plan.steps@.len() implies #[trigger] plan.steps@[k].step == k + 1 by {
        assert(numbers[k] == k + 1);
    }
}

} // verus!
