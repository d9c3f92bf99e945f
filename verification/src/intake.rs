//! From catalogue records to packing input: one item per ordered product
//! instance, one stock entry per box kind in stock, and the whole plan.

use vstd::prelude::*;

use crate::catalog::{Boxes, Order, Product, ProductMarker};
use crate::container::{item_shape_ok, StockBox};
use crate::geometry::{edges_bounded, is_empty_dims, Dimensions};
use crate::packer::{item_views, packing_valid, PackingSolution};
use crate::placement::{Item, ItemView};
use crate::plan::{
    lemma_plan_accounts_for_every_instance, plan_describes, step_instance_ids,
    unplaced_instance_ids, PackingPlan,
};
use crate::search::{lemma_valid_plan_ready, search_run, solve, stock_in_order};
use crate::text::{decimal, with_number};

verus! {

/// The most product instances one order may ask for.
pub const MAX_ITEM_INSTANCES: usize = 10000;

/// Why an order cannot be planned.
#[derive(Debug)]
pub enum PackingError {
    /// An ordered product is not in the catalogue.
    MissingProduct(String),
    /// The order asks for more instances than allowed.
    TooManyItems(usize),
    /// An ordered product has a zero edge.
    InvalidProductDimensions(String),
    /// A box kind in stock has a zero edge.
    InvalidBoxDimensions(String),
}

/// The text of an error, as reported to clients.
pub open spec fn error_message(e: PackingError) -> Seq<char> {
    match e {
        PackingError::MissingProduct(id) => "product "@ + id@ + " was not found"@,
        PackingError::TooManyItems(count) => "order contains "@ + decimal(count as nat)
            + " product instances; maximum is "@ + decimal(MAX_ITEM_INSTANCES as nat),
        PackingError::InvalidProductDimensions(id) => "product "@ + id@ + " has a zero-sized dimension"@,
        PackingError::InvalidBoxDimensions(id) => "box "@ + id@ + " has a zero-sized dimension"@,
    }
}

impl PackingError {
    /// The text of the error.
    pub fn message(&self) -> (s: String)
        ensures
            s@ == error_message(*self),
    {
        match self {
            PackingError::MissingProduct(id) => {
                let mut s = "product ".to_owned();
                s.append(id.as_str());
                s.append(" was not found");
                s
            },
            PackingError::TooManyItems(count) => {
                let mut s = with_number("order contains ", *count);
                s.append(" product instances; maximum is ");
                let limit = with_number("", MAX_ITEM_INSTANCES);
                proof {
                    reveal_strlit("");
                    assert(""@ + decimal(MAX_ITEM_INSTANCES as nat) =~= decimal(MAX_ITEM_INSTANCES as nat));
                }
                s.append(limit.as_str());
                s
            },
            PackingError::InvalidProductDimensions(id) => {
                let mut s = "product ".to_owned();
                s.append(id.as_str());
                s.append(" has a zero-sized dimension");
                s
            },
            PackingError::InvalidBoxDimensions(id) => {
                let mut s = "box ".to_owned();
                s.append(id.as_str());
                s.append(" has a zero-sized dimension");
                s
            },
        }
    }
}

/// The sum of the ordered quantities.
pub open spec fn count_total(entries: Seq<(String, usize)>) -> int
    decreases entries.len(),
{
    if entries.len() == 0 {
        0
    } else {
        count_total(entries.drop_last()) + entries.last().1
    }
}

/// The number of instances asked for, capped at `usize::MAX`.
pub open spec fn requested_spec(entries: Seq<(String, usize)>) -> int {
    if count_total(entries) > usize::MAX {
        usize::MAX as int
    } else {
        count_total(entries)
    }
}

/// How many instances of product `id` the entries ask for.
pub open spec fn id_count(entries: Seq<(String, usize)>, id: Seq<char>) -> int
    decreases entries.len(),
{
    if entries.len() == 0 {
        0
    } else {
        id_count(entries.drop_last(), id) + if entries.last().0@ == id {
            entries.last().1 as int
        } else {
            0
        }
    }
}

/// The last product with the id, as a lookup by id keeps the last one.
pub open spec fn find_product(products: Seq<Product>, id: Seq<char>) -> Option<int>
    decreases products.len(),
{
    if products.len() == 0 {
        None
    } else if products.last().spec_id() == id {
        Some(products.len() - 1)
    } else {
        find_product(products.drop_last(), id)
    }
}

/// The product's bounds as item dimensions.
pub open spec fn product_dims(p: Product) -> Dimensions {
    Dimensions {
        width: p.spec_bounds().spec_width() as u32,
        height: p.spec_bounds().spec_height() as u32,
        depth: p.spec_bounds().spec_depth() as u32,
    }
}

pub open spec fn product_markers(p: Product) -> Seq<ProductMarker> {
    match p.spec_marker() {
        Some(m) => m,
        None => Seq::empty(),
    }
}

/// Instance number `occurrence` of product `id`, whose record is `p`.
pub open spec fn instance_view(id: Seq<char>, occurrence: int, p: Product) -> ItemView {
    ItemView {
        product_instance_id: id + "#"@ + decimal(occurrence as nat),
        instance_index: occurrence as usize,
        product_id: id,
        name: p.spec_name(),
        markers: product_markers(p),
        size: product_dims(p),
        weight: p.spec_weight() as u64,
    }
}

/// The instances of one entry, numbered on from `start`.
pub open spec fn entry_items(id: Seq<char>, start: int, count: int, p: Product) -> Seq<ItemView> {
    Seq::new(count as nat, |j: int| instance_view(id, start + j + 1, p))
}

/// The entry asks for something that cannot be packed: a product missing
/// from the catalogue, or one with a zero edge.
pub open spec fn entry_bad(e: (String, usize), products: Seq<Product>) -> bool {
    &&& e.1 > 0
    &&& match find_product(products, e.0@) {
        None => true,
        Some(k) => is_empty_dims(product_dims(products[k])),
    }
}

/// The items of the entries, entry by entry; instances of a product are
/// numbered from 1 across all entries for it.
pub open spec fn expand(entries: Seq<(String, usize)>, products: Seq<Product>) -> Seq<ItemView>
    decreases entries.len(),
{
    if entries.len() == 0 {
        Seq::empty()
    } else {
        let init = entries.drop_last();
        let e = entries.last();
        match find_product(products, e.0@) {
            Some(k) => expand(init, products) + entry_items(e.0@, id_count(init, e.0@), e.1 as int, products[k]),
            None => expand(init, products),
        }
    }
}

/// The error for bad entry `e`.
pub open spec fn entry_error_is(r: PackingError, e: (String, usize), products: Seq<Product>) -> bool {
    match find_product(products, e.0@) {
        None => r matches PackingError::MissingProduct(id) && id@ == e.0@,
        Some(_) => r matches PackingError::InvalidProductDimensions(id) && id@ == e.0@,
    }
}

/// Entry `i` is the first bad one.
pub open spec fn first_bad_entry(entries: Seq<(String, usize)>, products: Seq<Product>, i: int) -> bool {
    &&& 0 <= i < entries.len()
    &&& entry_bad(entries[i], products)
    &&& forall|k: int| 0 <= k < i ==> !#[trigger] entry_bad(entries[k], products)
}

/// `build_items` fails: too many instances, or some bad entry.
pub open spec fn items_fail(entries: Seq<(String, usize)>, products: Seq<Product>) -> bool {
    requested_spec(entries) > MAX_ITEM_INSTANCES || exists|i: int| first_bad_entry(entries, products, i)
}

/// The error `build_items` gives: too many instances first, else the error
/// of the first bad entry.
pub open spec fn items_error_is(e: PackingError, entries: Seq<(String, usize)>, products: Seq<Product>) -> bool {
    if requested_spec(entries) > MAX_ITEM_INSTANCES {
        e matches PackingError::TooManyItems(n) && n == requested_spec(entries)
    } else {
        forall|i: int| #[trigger] first_bad_entry(entries, products, i) ==> entry_error_is(e, entries[i], products)
    }
}

/// What `build_items` gives: its error when it fails, else the items.
pub open spec fn items_outcome(r: Result<Vec<Item>, PackingError>, entries: Seq<(String, usize)>, products: Seq<Product>) -> bool {
    if items_fail(entries, products) {
        r matches Err(e) && items_error_is(e, entries, products)
    } else {
        r matches Ok(items) && item_views(items@) == expand(entries, products)
    }
}

fn requested_count(entries: &[(String, usize)]) -> (r: usize)
    ensures
        r == requested_spec(entries@),
{
    let mut total: usize = 0;
    let mut overflow = false;
    let mut i: usize = 0;
    while i < entries.len()
        invariant
            i <= entries@.len(),
            !overflow ==> total == count_total(entries@.take(i as int)),
            overflow ==> count_total(entries@.take(i as int)) > usize::MAX,
        decreases entries@.len() - i,
    {
        proof {
            assert(entries@.take(i + 1).drop_last() =~= entries@.take(i as int));
        }
        if !overflow {
            match total.checked_add(entries[i].1) {
                Some(t) => total = t,
                None => overflow = true,
            }
        }
        i = i + 1;
    }
    proof {
        assert(entries@.take(entries@.len() as int) =~= entries@);
    }
    if overflow {
        usize::MAX
    } else {
        total
    }
}

proof fn lemma_find_product(products: Seq<Product>, id: Seq<char>)
    ensures
        find_product(products, id) matches Some(k) ==> 0 <= k < products.len() && products[k].spec_id() == id,
    decreases products.len(),
{
    if products.len() > 0 {
        lemma_find_product(products.drop_last(), id);
    }
}

fn lookup_product(products: &[Product], id: &String) -> (r: Option<usize>)
    ensures
        match find_product(products@, id@) {
            None => r is None,
            Some(k) => r == Some(k as usize) && 0 <= k < products@.len(),
        },
{
    proof {
        assert(products@.take(products@.len() as int) =~= products@);
        lemma_find_product(products@, id@);
    }
    let mut k: usize = products.len();
    while k > 0
        invariant
            k <= products@.len(),
            find_product(products@, id@) == find_product(products@.take(k as int), id@),
        decreases k,
    {
        proof {
            assert(products@.take(k as int).drop_last() =~= products@.take(k - 1));
            assert(products@.take(k as int).last() == products@[k - 1]);
        }
        let candidate: &String = products[k - 1].get_id();
        if candidate.eq(id) {
            return Some(k - 1);
        }
        k = k - 1;
    }
    None
}

proof fn lemma_id_count_le(entries: Seq<(String, usize)>, id: Seq<char>)
    ensures
        0 <= id_count(entries, id) <= count_total(entries),
    decreases entries.len(),
{
    if entries.len() > 0 {
        lemma_id_count_le(entries.drop_last(), id);
    }
}

proof fn lemma_total_prefix(entries: Seq<(String, usize)>, i: int)
    requires
        0 <= i <= entries.len(),
    ensures
        count_total(entries.take(i)) <= count_total(entries),
    decreases entries.len() - i,
{
    if i < entries.len() {
        lemma_total_prefix(entries, i + 1);
        assert(entries.take(i + 1).drop_last() =~= entries.take(i));
    } else {
        assert(entries.take(i) =~= entries);
    }
}

/// How many instances of `id` the first `i` entries ask for.
fn count_before(entries: &[(String, usize)], i: usize, id: &String) -> (r: usize)
    requires
        i <= entries@.len(),
        count_total(entries@) <= MAX_ITEM_INSTANCES,
    ensures
        r == id_count(entries@.take(i as int), id@),
{
    let mut total: usize = 0;
    let mut k: usize = 0;
    while k < i
        invariant
            k <= i <= entries@.len(),
            count_total(entries@) <= MAX_ITEM_INSTANCES,
            total == id_count(entries@.take(k as int), id@),
        decreases i - k,
    {
        proof {
            assert(entries@.take(k + 1).drop_last() =~= entries@.take(k as int));
            lemma_id_count_le(entries@.take(k + 1), id@);
            lemma_total_prefix(entries@, k + 1);
        }
        if entries[k].0 == *id {
            total = total + entries[k].1;
        }
        k = k + 1;
    }
    total
}

fn instance_id(product_id: &String, occurrence: usize) -> (s: String)
    ensures
        s@ == product_id@ + "#"@ + decimal(occurrence as nat),
{
    let mut prefix = product_id.clone();
    prefix.append("#");
    with_number(prefix.as_str(), occurrence)
}

fn markers_of(p: &Product) -> (r: Vec<ProductMarker>)
    ensures
        r@ == product_markers(*p),
{
    match p.get_marker() {
        Some(m) => {
            let mut r: Vec<ProductMarker> = Vec::with_capacity(m.len());
            let mut i: usize = 0;
            while i < m.len()
                invariant
                    i <= m@.len(),
                    r@ == m@.take(i as int),
                decreases m@.len() - i,
            {
                proof {
                    assert(m@.take(i + 1) =~= m@.take(i as int).push(m@[i as int]));
                }
                r.push(m[i]);
                i = i + 1;
            }
            proof {
                assert(m@.take(m@.len() as int) =~= m@);
            }
            r
        },
        None => Vec::new(),
    }
}

/// One item per ordered product instance. Fails when the order asks for more
/// than `MAX_ITEM_INSTANCES` instances, and otherwise at the first entry with
/// a positive quantity whose product is missing or has a zero edge.
pub fn build_items(order: &Order, products: &[Product]) -> (r: Result<Vec<Item>, PackingError>)
    ensures
        items_outcome(r, order.spec_products(), products@),
{
    let entries = order.get_products();
    let requested = requested_count(entries);
    if requested > MAX_ITEM_INSTANCES {
        return Err(PackingError::TooManyItems(requested));
    }
    let ghost es = entries@;
    let ghost ps = products@;
    let mut items: Vec<Item> = Vec::with_capacity(requested);
    let mut i: usize = 0;
    while i < entries.len()
        invariant
            es == entries@,
            es == order.spec_products(),
            requested_spec(es) <= MAX_ITEM_INSTANCES,
            ps == products@,
            i <= es.len(),
            count_total(es) <= MAX_ITEM_INSTANCES,
            forall|k: int| 0 <= k < i ==> !#[trigger] entry_bad(es[k], ps),
            item_views(items@) == expand(es.take(i as int), ps),
        decreases es.len() - i,
    {
        proof {
            assert(es.take(i + 1).drop_last() =~= es.take(i as int));
            assert(es.take(i + 1).last() == es[i as int]);
        }
        let product_id = &entries[i].0;
        let count = entries[i].1;
        if count == 0 {
            proof {
                let ex = expand(es.take(i + 1), ps);
                assert(ex =~= expand(es.take(i as int), ps));
            }
            i = i + 1;
            continue;
        }
        let k = match lookup_product(products, product_id) {
            Some(k) => k,
            None => {
                proof {
                    assert(first_bad_entry(es, ps, i as int));
                    assert forall|j: int| #[trigger] first_bad_entry(es, ps, j) implies j == i by {
                        if j < i {
                            assert(!entry_bad(es[j], ps));
                        }
                        if j > i {
                            assert(!entry_bad(es[i as int], ps));
                        }
                    }
                }
                let e = PackingError::MissingProduct(product_id.clone());
                proof {
                    assert(find_product(ps, es[i as int].0@) is None);
                    assert(entry_error_is(e, es[i as int], ps));
                }
                return Err(e);
            },
        };
        let product = &products[k];
        let bounds = product.get_bounds();
        let size = Dimensions {
            width: bounds.get_width() as u32,
            height: bounds.get_height() as u32,
            depth: bounds.get_depth() as u32,
        };
        if size.is_empty() {
            proof {
                assert(first_bad_entry(es, ps, i as int));
                assert forall|j: int| #[trigger] first_bad_entry(es, ps, j) implies j == i by {
                    if j < i {
                        assert(!entry_bad(es[j], ps));
                    }
                    if j > i {
                        assert(!entry_bad(es[i as int], ps));
                    }
                }
            }
            return Err(PackingError::InvalidProductDimensions(product_id.clone()));
        }
        let start = count_before(entries, i, product_id);
        proof {
            lemma_id_count_le(es.take(i as int), product_id@);
            lemma_total_prefix(es, i + 1);
            assert(count_total(es.take(i + 1)) == count_total(es.take(i as int)) + count);
        }
        let ghost before = item_views(items@);
        let ghost target = entry_items(product_id@, start as int, count as int, ps[k as int]);
        let mut j: usize = 0;
        while j < count
            invariant
                j <= count,
                start + count <= MAX_ITEM_INSTANCES,
                *product == ps[k as int],
                size == product_dims(ps[k as int]),
                target == entry_items(product_id@, start as int, count as int, ps[k as int]),
                item_views(items@) == before + target.take(j as int),
            decreases count - j,
        {
            let occurrence = start + j + 1;
            let item = Item {
                product_instance_id: instance_id(product_id, occurrence),
                instance_index: occurrence,
                product_id: product_id.clone(),
                name: product.get_name().to_owned(),
                markers: markers_of(product),
                size,
                weight: product.get_weight() as u64,
            };
            proof {
                assert(item@ == instance_view(product_id@, start + j + 1, ps[k as int]));
                assert(target.take(j + 1) =~= target.take(j as int).push(item@));
                assert(item_views(items@.push(item)) =~= item_views(items@).push(item@));
            }
            items.push(item);
            j = j + 1;
        }
        proof {
            assert(target.take(count as int) =~= target);
            assert(expand(es.take(i + 1), ps) =~= expand(es.take(i as int), ps) + target);
        }
        i = i + 1;
    }
    proof {
        assert(es.take(es.len() as int) =~= es);
        assert(!exists|b: int| first_bad_entry(es, ps, b));
    }
    Ok(items)
}

/// The stock entry for a box kind.
pub open spec fn stock_from(s: StockBox, b: Boxes) -> bool {
    &&& s.box_type_id@ == b.spec_id()
    &&& s.size == (Dimensions {
        width: b.spec_bounds().spec_width() as u32,
        height: b.spec_bounds().spec_height() as u32,
        depth: b.spec_bounds().spec_depth() as u32,
    })
    &&& s.max_weight == b.spec_max_weight() as u64
    &&& s.count == b.spec_count() as usize
}

/// A box kind with boxes in stock and a zero edge.
pub open spec fn box_bad(b: Boxes) -> bool {
    &&& b.spec_count() > 0
    &&& (b.spec_bounds().spec_width() == 0 || b.spec_bounds().spec_height() == 0
        || b.spec_bounds().spec_depth() == 0)
}

/// The kinds with boxes in stock, in order.
pub open spec fn in_stock(boxes: Seq<Boxes>) -> Seq<Boxes>
    decreases boxes.len(),
{
    if boxes.len() == 0 {
        Seq::empty()
    } else if boxes.last().spec_count() > 0 {
        in_stock(boxes.drop_last()).push(boxes.last())
    } else {
        in_stock(boxes.drop_last())
    }
}

/// Some kind in stock has a zero edge.
pub open spec fn stock_fail(boxes: Seq<Boxes>) -> bool {
    exists|i: int| 0 <= i < boxes.len() && #[trigger] box_bad(boxes[i])
}

/// The error for the first kind in stock with a zero edge.
pub open spec fn stock_error_is(e: PackingError, boxes: Seq<Boxes>) -> bool {
    e matches PackingError::InvalidBoxDimensions(id) && exists|i: int| 0 <= i < boxes.len()
        && #[trigger] box_bad(boxes[i]) && id@ == boxes[i].spec_id()
        && forall|k: int| 0 <= k < i ==> !#[trigger] box_bad(boxes[k])
}

/// `stock` has one entry per kind in stock, in order.
pub open spec fn stock_matches(stock: Seq<StockBox>, boxes: Seq<Boxes>) -> bool {
    &&& stock.len() == in_stock(boxes).len()
    &&& forall|k: int| 0 <= k < stock.len() ==> #[trigger] stock_from(stock[k], in_stock(boxes)[k])
}

/// What `build_stock` gives: its error when it fails, else the stock.
pub open spec fn stock_outcome(r: Result<Vec<StockBox>, PackingError>, boxes: Seq<Boxes>) -> bool {
    if stock_fail(boxes) {
        r matches Err(e) && stock_error_is(e, boxes)
    } else {
        r matches Ok(stock) && stock_matches(stock@, boxes)
    }
}

/// One stock entry per box kind with boxes in stock; fails at the first such
/// kind with a zero edge.
pub fn build_stock(boxes: &[Boxes]) -> (r: Result<Vec<StockBox>, PackingError>)
    ensures
        stock_outcome(r, boxes@),
{
    let mut stock: Vec<StockBox> = Vec::new();
    let mut i: usize = 0;
    while i < boxes.len()
        invariant
            i <= boxes@.len(),
            forall|k: int| 0 <= k < i ==> !#[trigger] box_bad(boxes@[k]),
            stock@.len() == in_stock(boxes@.take(i as int)).len(),
            forall|k: int| 0 <= k < stock@.len() ==> #[trigger] stock_from(stock@[k], in_stock(boxes@.take(i as int))[k]),
        decreases boxes@.len() - i,
    {
        let b = &boxes[i];
        let ghost prefix = boxes@.take(i as int);
        proof {
            assert(boxes@.take(i + 1).drop_last() =~= prefix);
        }
        if b.get_count() > 0 {
            let bounds = b.get_bounds();
            let size = Dimensions {
                width: bounds.get_width() as u32,
                height: bounds.get_height() as u32,
                depth: bounds.get_depth() as u32,
            };
            if size.is_empty() {
                proof {
                    assert(box_bad(boxes@[i as int]));
                }
                return Err(PackingError::InvalidBoxDimensions(b.get_id().clone()));
            }
            stock.push(StockBox {
                box_type_id: b.get_id().clone(),
                size,
                max_weight: b.get_max_weight() as u64,
                count: b.get_count() as usize,
            });
        }
        i = i + 1;
    }
    proof {
        assert(boxes@.take(boxes@.len() as int) =~= boxes@);
    }
    Ok(stock)
}

proof fn lemma_expand_shapes(entries: Seq<(String, usize)>, products: Seq<Product>)
    requires
        forall|k: int| 0 <= k < entries.len() ==> !#[trigger] entry_bad(entries[k], products),
    ensures
        expand(entries, products).len() == count_total(entries),
        forall|k: int| 0 <= k < expand(entries, products).len() ==> #[trigger] item_shape_ok(expand(entries, products)[k].size),
    decreases entries.len(),
{
    if entries.len() > 0 {
        let init = entries.drop_last();
        let e = entries.last();
        assert forall|k: int| 0 <= k < init.len() implies !#[trigger] entry_bad(init[k], products) by {
            assert(init[k] == entries[k]);
        }
        lemma_expand_shapes(init, products);
        assert(!entry_bad(entries[entries.len() - 1], products));
        lemma_find_product(products, e.0@);
        match find_product(products, e.0@) {
            Some(p) => {
                let tail = entry_items(e.0@, id_count(init, e.0@), e.1 as int, products[p]);
                let all = expand(entries, products);
                assert(all == expand(init, products) + tail);
                assert forall|k: int| 0 <= k < all.len() implies #[trigger] item_shape_ok(all[k].size) by {
                    if k >= expand(init, products).len() {
                        let pd = products[p].spec_bounds();
                        assert(all[k].size == product_dims(products[p]));
                        assert(pd.spec_width() <= 65535 && pd.spec_height() <= 65535 && pd.spec_depth() <= 65535);
                    } else {
                        assert(all[k] == expand(init, products)[k]);
                    }
                }
            },
            None => {},
        }
    }
}

/// What `build_packing_plan` gives when the input is sound: a plan for the
/// order that reports a valid packing of the ordered instances with the
/// boxes in stock, taken smallest kind first.
pub open spec fn planned_from(plan: PackingPlan, views: Seq<ItemView>, boxes: Seq<Boxes>) -> bool {
    exists|items: Seq<Item>, stock: Seq<StockBox>, ordered: Seq<StockBox>, outcomes: Seq<PackingSolution>, sol: PackingSolution|
        #![trigger search_run(items, ordered, outcomes, sol), stock_in_order(ordered, stock)]
        item_views(items) == views && stock_matches(stock, boxes) && stock_in_order(ordered, stock)
            && packing_valid(sol, items, ordered) && search_run(items, ordered, outcomes, sol)
            && plan_describes(plan, sol)
}

/// What `build_packing_plan` gives: the error of the items, else the error of
/// the stock, else the plan.
pub open spec fn plan_outcome(r: Result<PackingPlan, PackingError>, order: Order, products: Seq<Product>, boxes: Seq<Boxes>) -> bool {
    if items_fail(order.spec_products(), products) {
        r matches Err(e) && items_error_is(e, order.spec_products(), products)
    } else if stock_fail(boxes) {
        r matches Err(e) && stock_error_is(e, boxes)
    } else {
        r matches Ok(plan) && plan.order_id@ == order.spec_id()
            && planned_from(plan, expand(order.spec_products(), products), boxes)
            && step_instance_ids(plan).add(unplaced_instance_ids(plan))
                == expand(order.spec_products(), products).map_values(|v: ItemView| v.product_instance_id).to_multiset()
    }
}

/// The packing plan for an order from the catalogue and the stock.
pub fn build_packing_plan(order: &Order, products: &[Product], boxes: &[Boxes]) -> (r: Result<PackingPlan, PackingError>)
    ensures
        plan_outcome(r, *order, products@, boxes@),
{
    let items = match build_items(order, products) {
        Ok(items) => items,
        Err(e) => return Err(e),
    };
    let stock = match build_stock(boxes) {
        Ok(stock) => stock,
        Err(e) => return Err(e),
    };
    let ghost entries = order.spec_products();
    proof {
        assert(!items_fail(entries, products@));
        assert forall|k: int| 0 <= k < entries.len() implies !#[trigger] entry_bad(entries[k], products@) by {
            if entry_bad(entries[k], products@) {
                let first = choose_first_bad(entries, products@, k);
                assert(first_bad_entry(entries, products@, first));
            }
        }
        lemma_expand_shapes(entries, products@);
        assert(item_views(items@).len() == items@.len());
        assert(items@.len() <= MAX_ITEM_INSTANCES);
        assert forall|k: int| 0 <= k < items@.len() implies #[trigger] item_shape_ok(items@[k].size) by {
            assert(item_views(items@)[k] == items@[k]@);
            assert(item_shape_ok(expand(entries, products@)[k].size));
        }
        assert forall|j: int| 0 <= j < stock@.len() implies #[trigger] edges_bounded(stock@[j].size) by {
            assert(stock_from(stock@[j], in_stock(boxes@)[j]));
        }
    }
    let ghost item_seq = items@;
    let ghost stock_seq = stock@;
    let order_id = order.get_id().clone();
    let solution = solve(items, stock);
    let ghost (ordered, outcomes) = choose|ordered: Seq<StockBox>, outcomes: Seq<PackingSolution>|
        stock_in_order(ordered, stock_seq) && packing_valid(solution, item_seq, ordered)
        && #[trigger] search_run(item_seq, ordered, outcomes, solution);
    proof {
        lemma_valid_plan_ready(solution, item_seq, ordered);
    }
    let ghost sol = solution;
    let plan = solution.into_plan(order_id);
    proof {
        assert(packing_valid(sol, item_seq, ordered) && stock_in_order(ordered, stock_seq));
        assert(search_run(item_seq, ordered, outcomes, sol));
        assert(planned_from(plan, expand(entries, products@), boxes@));
        lemma_plan_accounts_for_every_instance(plan, sol, item_seq, ordered);
        assert(item_seq.map_values(|i: Item| i.product_instance_id@)
            =~= expand(entries, products@).map_values(|v: ItemView| v.product_instance_id)) by {
            assert(item_views(item_seq).len() == item_seq.len());
            assert forall|k: int| 0 <= k < item_seq.len() implies #[trigger] item_seq[k].product_instance_id@ == expand(entries, products@)[k].product_instance_id by {
                assert(item_views(item_seq)[k] == item_seq[k]@);
            }
        }
    }
    Ok(plan)
}

/// Some bad entry at or before `k` is the first one.
proof fn choose_first_bad(entries: Seq<(String, usize)>, products: Seq<Product>, k: int) -> (first: int)
    requires
        0 <= k < entries.len(),
        entry_bad(entries[k], products),
    ensures
        first_bad_entry(entries, products, first),
    decreases k,
{
    if exists|j: int| 0 <= j < k && #[trigger] entry_bad(entries[j], products) {
        let j = choose|j: int| 0 <= j < k && #[trigger] entry_bad(entries[j], products);
        choose_first_bad(entries, products, j)
    } else {
        k
    }
}

} // verus!
