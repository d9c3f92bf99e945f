use box_packing::account::{
    check_email, check_password, registration_errors, same_text, trim_text, validate_email,
    validate_password, EmailError, ParsableError, PasswordError, RegistrationType, User,
    UserRole, UserRoles,
};
use box_packing::catalog::{
    order_line_problem, BoxBounds, Boxes, Order, OrderStatus, Product, ProductBounds,
    ProductMarker,
};
use box_packing::container::{
    contact_area, find_placement, prune_free_spaces, OpenBox, PlacementPolicy, StockBox,
};
use box_packing::credentials::{
    check_sign_in, hash_password, password_decision, sign_up, SignInDecision, SignUpRefusal,
};
use box_packing::geometry::{
    fits_with_rotation, grid_capacity, orientations, overlap_length, Dimensions, FreeSpace,
    Position,
};
use box_packing::intake::{build_items, build_packing_plan, build_stock, PackingError, MAX_ITEM_INSTANCES};
use box_packing::packer::{
    compatible_stock_count, find_existing_box, sort_items, BoxPolicy, ItemOrder, PackingSolution,
};
use box_packing::placement::{rectangle_union_area, support_for, Item, SupportRectangle};
use box_packing::plan::{PackingStatus, ALGORITHM_NAME, PLACE_ACTION};
use box_packing::search::{attempt_plan, selected_attempt_indices, solution_is_better, solve};
use box_packing::text::{decimal_string, text_less, with_number};

fn dims(width: u32, height: u32, depth: u32) -> Dimensions {
    Dimensions { width, height, depth }
}

fn unit_item(id: &str, size: Dimensions, weight: u64) -> Item {
    Item {
        product_instance_id: format!("{id}#1"),
        instance_index: 1,
        product_id: id.to_owned(),
        name: id.to_owned(),
        markers: Vec::new(),
        size,
        weight,
    }
}

fn stock_entry(id: &str, size: Dimensions, max_weight: u64, count: usize) -> StockBox {
    StockBox { box_type_id: id.to_owned(), size, max_weight, count }
}

fn product(id: &str, w: u16, h: u16, d: u16, weight: u16) -> Product {
    Product::from_data(id.to_owned(), format!("name of {id}"), None, ProductBounds::new(w, h, d), weight, 5)
}

fn rect(x0: u32, x1: u32, z0: u32, z1: u32) -> SupportRectangle {
    SupportRectangle { x0, x1, z0, z1, product_instance_id: String::new() }
}

#[test]
fn union_area_counts_overlaps_once() {
    assert_eq!(rectangle_union_area(&[]), 0);
    assert_eq!(rectangle_union_area(&[rect(0, 2, 0, 2)]), 4);
    assert_eq!(rectangle_union_area(&[rect(0, 2, 0, 2), rect(1, 3, 1, 3)]), 7);
    assert_eq!(rectangle_union_area(&[rect(0, 5, 0, 1), rect(0, 5, 3, 4)]), 10);
    assert_eq!(rectangle_union_area(&[rect(0, 4, 0, 4), rect(1, 2, 1, 2)]), 16);
}

#[test]
fn build_items_numbers_instances_across_lines() {
    let order = Order::from_data(
        "orders:o".to_owned(),
        vec![("p".to_owned(), 2), ("q".to_owned(), 0), ("p".to_owned(), 1)],
        Vec::new(),
        OrderStatus::NotPacked,
    );
    let items = build_items(&order, &[product("p", 1, 2, 3, 4)]).unwrap();
    let ids: Vec<&str> = items.iter().map(|item| item.product_instance_id.as_str()).collect();
    assert_eq!(ids, vec!["p#1", "p#2", "p#3"]);
    assert_eq!(items[2].instance_index, 3);
    assert_eq!(items[0].size, dims(1, 2, 3));
    assert_eq!(items[0].weight, 4);
}

#[test]
fn build_items_reports_each_error() {
    let too_many = Order::from_data(
        "orders:o".to_owned(),
        vec![("p".to_owned(), MAX_ITEM_INSTANCES), ("p".to_owned(), 1)],
        Vec::new(),
        OrderStatus::NotPacked,
    );
    match build_items(&too_many, &[]) {
        Err(PackingError::TooManyItems(n)) => assert_eq!(n, MAX_ITEM_INSTANCES + 1),
        other => panic!("unexpected {other:?}"),
    }
    let missing = Order::from_data("orders:o".to_owned(), vec![("x".to_owned(), 1)], Vec::new(), OrderStatus::NotPacked);
    match build_items(&missing, &[]) {
        Err(PackingError::MissingProduct(id)) => assert_eq!(id, "x"),
        other => panic!("unexpected {other:?}"),
    }
    let flat = Order::from_data("orders:o".to_owned(), vec![("f".to_owned(), 1)], Vec::new(), OrderStatus::NotPacked);
    match build_items(&flat, &[product("f", 0, 2, 3, 1)]) {
        Err(PackingError::InvalidProductDimensions(id)) => assert_eq!(id, "f"),
        other => panic!("unexpected {other:?}"),
    }
}

#[test]
fn error_messages_match_the_service_texts() {
    assert_eq!(PackingError::MissingProduct("p".to_owned()).message(), "product p was not found");
    assert_eq!(
        PackingError::TooManyItems(10001).message(),
        "order contains 10001 product instances; maximum is 10000"
    );
    assert_eq!(
        PackingError::InvalidProductDimensions("p".to_owned()).message(),
        "product p has a zero-sized dimension"
    );
    assert_eq!(PackingError::InvalidBoxDimensions("b".to_owned()).message(), "box b has a zero-sized dimension");
}

#[test]
fn build_stock_skips_empty_kinds_and_rejects_flat_boxes() {
    let boxes = vec![
        Boxes::from_data("boxes:a".to_owned(), BoxBounds::new(1, 2, 3), 7, 0),
        Boxes::from_data("boxes:b".to_owned(), BoxBounds::new(4, 5, 6), 8, 2),
    ];
    let stock = build_stock(&boxes).unwrap();
    assert_eq!(stock.len(), 1);
    assert_eq!(stock[0].box_type_id, "boxes:b");
    assert_eq!(stock[0].size, dims(4, 5, 6));
    assert_eq!(stock[0].max_weight, 8);
    assert_eq!(stock[0].count, 2);
    let flat = vec![Boxes::from_data("boxes:f".to_owned(), BoxBounds::new(4, 0, 6), 8, 1)];
    match build_stock(&flat) {
        Err(PackingError::InvalidBoxDimensions(id)) => assert_eq!(id, "boxes:f"),
        other => panic!("unexpected {other:?}"),
    }
}

#[test]
fn packing_plan_numbers_steps_and_accounts_for_every_instance() {
    let order = Order::from_data(
        "orders:plan".to_owned(),
        vec![("small".to_owned(), 3), ("huge".to_owned(), 1)],
        Vec::new(),
        OrderStatus::NotPacked,
    );
    let products = vec![product("small", 1, 1, 1, 1), product("huge", 9, 9, 9, 1)];
    let boxes = vec![Boxes::from_data("boxes:cube".to_owned(), BoxBounds::new(2, 2, 2), 10, 1)];
    let plan = build_packing_plan(&order, &products, &boxes).unwrap();
    assert_eq!(plan.order_id, "orders:plan");
    assert_eq!(plan.status, PackingStatus::Partial);
    assert_eq!(plan.algorithm, ALGORITHM_NAME);
    assert_eq!(plan.summary.products_requested, 4);
    assert_eq!(plan.summary.products_placed, 3);
    assert_eq!(plan.summary.boxes_used, 1);
    assert_eq!(plan.summary.product_volume, 3);
    assert_eq!(plan.summary.selected_box_volume, 8);
    assert_eq!(plan.boxes[0].box_volume, 8);
    let steps: Vec<usize> = plan.steps.iter().map(|step| step.step).collect();
    assert_eq!(steps, vec![1, 2, 3]);
    assert!(plan.steps.iter().all(|step| step.action == PLACE_ACTION));
    let mut ids: Vec<String> = plan.steps.iter().map(|step| step.product_instance_id.clone()).collect();
    ids.extend(plan.unplaced_products.iter().map(|product| product.product_instance_id.clone()));
    ids.sort();
    assert_eq!(ids, vec!["huge#1", "small#1", "small#2", "small#3"]);
}

#[test]
fn attempt_table_and_selection() {
    assert_eq!(attempt_plan(0), (ItemOrder::Volume, BoxPolicy::TargetRemaining, PlacementPolicy::GridCapacity));
    assert_eq!(attempt_plan(5), (ItemOrder::WeightInterleave, BoxPolicy::TargetRemaining, PlacementPolicy::BestFit));
    assert_eq!(attempt_plan(9), (ItemOrder::Volume, BoxPolicy::Smallest, PlacementPolicy::BestFit));
    let few = vec![unit_item("a", dims(1, 1, 1), 1)];
    assert_eq!(selected_attempt_indices(&few, &[], 10), (0..10).collect::<Vec<_>>());
    let many: Vec<Item> = (0..6000).map(|i| unit_item(&format!("i{i}"), dims(1, 1, 1), 1)).collect();
    assert_eq!(selected_attempt_indices(&many, &[], 10), vec![0]);
    let mut mixed = many.clone();
    mixed[3].size = dims(2, 1, 1);
    assert_eq!(selected_attempt_indices(&mixed, &[], 10), vec![1]);
}

#[test]
fn better_solution_prefers_completeness_then_tighter_boxes() {
    let empty = PackingSolution { boxes: Vec::new(), unplaced: Vec::new(), requested: 0 };
    let also_empty = PackingSolution { boxes: Vec::new(), unplaced: Vec::new(), requested: 0 };
    assert!(!solution_is_better(&empty, &also_empty));
    let items = vec![unit_item("a", dims(1, 1, 1), 1)];
    let small = solve(items.clone(), vec![stock_entry("small", dims(1, 1, 1), 5, 1)]);
    let large = solve(items, vec![stock_entry("large", dims(2, 2, 2), 5, 1)]);
    assert!(solution_is_better(&small, &large));
    assert!(!solution_is_better(&large, &small));
    let left_over = solve(vec![unit_item("b", dims(3, 3, 3), 1)], vec![stock_entry("tiny", dims(1, 1, 1), 5, 1)]);
    assert_eq!(left_over.unplaced.len(), 1);
    assert!(solution_is_better(&small, &left_over));
}

#[test]
fn existing_box_with_least_room_left_wins() {
    let mut roomy = OpenBox::new("box-1".to_owned(), &stock_entry("roomy", dims(4, 4, 4), 100, 1));
    let tight = OpenBox::new("box-2".to_owned(), &stock_entry("tight", dims(2, 2, 2), 100, 1));
    let item = unit_item("a", dims(2, 2, 2), 1);
    let found = find_existing_box(&[roomy, tight], &item, PlacementPolicy::BestFit).unwrap();
    assert_eq!(found.0, 1);
    roomy = OpenBox::new("box-1".to_owned(), &stock_entry("roomy", dims(4, 4, 4), 0, 1));
    assert!(find_existing_box(&[roomy], &item, PlacementPolicy::BestFit).is_none());
}

#[test]
fn placement_helpers_give_exact_values() {
    assert_eq!(overlap_length(0, 5, 3, 9), 2);
    assert_eq!(overlap_length(0, 2, 3, 9), 0);
    assert_eq!(grid_capacity(dims(10, 10, 10), dims(3, 4, 5), false), 3 * 2 * 2);
    assert_eq!(grid_capacity(dims(10, 10, 10), dims(3, 4, 5), true), 3 * 2);
    assert!(fits_with_rotation(dims(3, 1, 2), dims(1, 2, 3)));
    assert!(!fits_with_rotation(dims(3, 3, 2), dims(1, 2, 3)));
    assert_eq!(orientations(dims(1, 1, 2)).len(), 3);
    assert_eq!(orientations(dims(1, 2, 3)).len(), 6);
    let open = OpenBox::new("box-1".to_owned(), &stock_entry("s", dims(4, 4, 4), 10, 1));
    assert_eq!(contact_area(Position { x: 0, y: 0, z: 0 }, dims(1, 2, 3), &open), 6 + 3 + 2);
    let item = unit_item("a", dims(2, 4, 4), 1);
    let c = find_placement(&open, &item, PlacementPolicy::BestFit).unwrap();
    assert_eq!(c.position, Position { x: 0, y: 0, z: 0 });
    assert_eq!(c.free_space_waste, 64 - 32);
    assert_eq!(support_for(Position { x: 0, y: 0, z: 0 }, dims(1, 1, 1), &[]), Some(vec!["box-floor".to_owned()]));
    assert_eq!(support_for(Position { x: 0, y: 1, z: 0 }, dims(1, 1, 1), &[]), None);
    let space = FreeSpace { position: Position { x: 0, y: 0, z: 0 }, size: dims(2, 2, 2) };
    assert_eq!(space.volume(), 8);
}

#[test]
fn compatible_count_adds_kinds_that_fit() {
    let item = unit_item("a", dims(2, 1, 1), 3);
    let stock = vec![
        stock_entry("fits", dims(1, 1, 2), 5, 2),
        stock_entry("light", dims(2, 2, 2), 2, 4),
        stock_entry("empty", dims(2, 2, 2), 5, 0),
        stock_entry("roomy", dims(3, 3, 3), 9, 3),
    ];
    assert_eq!(compatible_stock_count(&item, &stock), 5);
}

#[test]
fn text_helpers() {
    assert!(text_less("a", "b"));
    assert!(!text_less("b", "a"));
    assert!(text_less("ab", "abc"));
    assert_eq!(with_number("box-", 12), "box-12");
    assert_eq!(trim_text("  mail\t\n"), "mail");
    assert!(same_text("x", "x"));
    assert!(!same_text("x", "y"));
}

#[test]
fn email_checks_trim_and_provider() {
    assert_eq!(check_email("temp@gmail.com"), Some(Ok(())));
    assert_eq!(check_email("a.b@vk.com"), Some(Ok(())));
    assert_eq!(check_email("temp@example.com"), Some(Err(EmailError::NotSupportedEmail)));
    assert_eq!(check_email("no-at-sign"), Some(Err(EmailError::NotEmail)));
    assert_eq!(validate_email("x@mail.ru".to_owned()), Ok(()));
    assert_eq!(EmailError::NotEmail.into_string(), "provided email is not an actual email");
}

#[test]
fn password_checks_report_the_first_problem() {
    assert_eq!(check_password("abc1!"), Some(Err(PasswordError::Length)));
    assert_eq!(check_password("abcdefgh1"), Some(Err(PasswordError::SpecialCharacter)));
    assert_eq!(validate_password("Password1!".to_owned()), Ok(()));
    assert_eq!(PasswordError::Length.into_string(), "password is less then 8 characters");
}

#[test]
fn registration_messages_in_order() {
    assert!(registration_errors(true, Ok(()), Ok(())).is_empty());
    assert_eq!(
        registration_errors(false, Err(PasswordError::Numbers), Err(EmailError::NotSupportedEmail)),
        vec![
            "passwords do not match",
            "password does not contain any numbers",
            "email provider is not yet supported",
        ]
    );
}

#[test]
fn users_setters_and_readiness() {
    let user = User::default();
    assert!(!user.ready_for_register());
    assert_eq!(*user.get_role(), UserRoles::Employer);
    assert_eq!(*user.get_registration_type(), RegistrationType::Default);
    let hashed = User::default().set_hash("h").set_email("a@gmail.com");
    assert!(hashed.ready_for_register());
    assert_eq!(hashed.get_email(), "a@gmail.com");
    let yandex = User::default().set_registration_type(RegistrationType::YandexID).set_psuid("p");
    assert!(yandex.ready_for_register());
    let admin = User::default().set_role(UserRoles::SuperAdmin);
    assert!(UserRole.admits(Some(&admin)));
    assert!(!UserRole.admits(Some(&user)));
    assert!(!UserRole.admits(None));
}

#[test]
fn hashed_password_signs_in() {
    let hash = hash_password("Secret1!").unwrap();
    assert_ne!(hash, "Secret1!");
    let user = User::default().set_hash(&hash).set_email("a@gmail.com");
    assert_eq!(check_sign_in(&user, Some("Secret1!"), None), SignInDecision::Accepted);
    assert_eq!(check_sign_in(&user, Some("wrong"), None), SignInDecision::PasswordMismatch);
    assert_eq!(check_sign_in(&user, None, None), SignInDecision::PasswordMissing);
    let broken = User::default().set_hash("not a hash");
    assert_eq!(check_sign_in(&broken, Some("x"), None), SignInDecision::StoredHashInvalid);
    let yandex = User::default().set_registration_type(RegistrationType::YandexID).set_psuid("id-1");
    assert_eq!(check_sign_in(&yandex, None, Some("id-1")), SignInDecision::Accepted);
    assert_eq!(check_sign_in(&yandex, None, Some("id-2")), SignInDecision::PsuidMismatch);
    assert_eq!(password_decision(None), SignInDecision::StoredHashInvalid);
}

#[test]
fn catalogue_records() {
    let boxes = Boxes::from_data("boxes:a".to_owned(), BoxBounds::new(2, 3, 4), 9, 250);
    assert_eq!(boxes.get_volume(), 24);
    assert_eq!(boxes.increase_count(5).unwrap().get_count(), 255);
    assert!(boxes.increase_count(6).is_none());
    let p = Product::from_data("p".to_owned(), "vase".to_owned(), Some(vec![ProductMarker::Weak]), ProductBounds::new(1, 2, 3), 4, 2);
    assert_eq!(p.get_volume(), 6);
    assert_eq!(order_line_problem(None, 3), None);
    assert_eq!(order_line_problem(Some(&p), 3), Some("not enough vase on stock".to_owned()));
    assert_eq!(order_line_problem(Some(&p), 2), None);
}

#[test]
fn plan_for_an_order_from_catalogue_records() {
    let product_id = "products:00000000-0000-0000-0000-000000000101".to_owned();
    let products = vec![Product::from_data(
        product_id.clone(),
        "test product".to_owned(),
        None,
        ProductBounds::new(5, 5, 5),
        2,
        10,
    )];
    let boxes = vec![Boxes::from_data(
        "boxes:00000000-0000-0000-0000-000000000102".to_owned(),
        BoxBounds::new(10, 5, 5),
        10,
        1,
    )];
    let order = Order::from_data(
        "orders:00000000-0000-0000-0000-000000000103".to_owned(),
        vec![(product_id, 2)],
        Vec::new(),
        OrderStatus::NotPacked,
    );
    let plan = build_packing_plan(&order, &products, &boxes).unwrap();
    assert_eq!(plan.status, PackingStatus::Complete);
    assert_eq!(plan.algorithm, "multi_start_maximal_spaces_v3");
    assert_eq!(plan.summary.boxes_used, 1);
    assert_eq!(plan.summary.products_placed, 2);
    assert_eq!(plan.steps.len(), 2);
    assert_eq!(plan.coordinate_system.y, "height");

    let partial = build_packing_plan(&order, &products, &[]).unwrap();
    assert_eq!(partial.status, PackingStatus::Partial);
    assert_eq!(partial.unplaced_products.len(), 2);
}

#[test]
fn sorting_keeps_the_input_order_among_equal_items() {
    let mut first = unit_item("same", dims(2, 2, 2), 3);
    first.product_instance_id = "first".to_owned();
    let mut second = unit_item("same", dims(2, 2, 2), 3);
    second.product_instance_id = "second".to_owned();
    let bigger = unit_item("big", dims(3, 3, 3), 1);

    let mut items = vec![first.clone(), second.clone(), bigger.clone()];
    sort_items(&mut items, ItemOrder::Volume, &[]);
    let ids: Vec<&str> = items.iter().map(|i| i.product_instance_id.as_str()).collect();
    assert_eq!(ids, vec!["big#1", "first", "second"]);

    let mut items = vec![second, bigger, first];
    sort_items(&mut items, ItemOrder::Volume, &[]);
    let ids: Vec<&str> = items.iter().map(|i| i.product_instance_id.as_str()).collect();
    assert_eq!(ids, vec!["big#1", "second", "first"]);
}

fn space(x: u32, y: u32, z: u32, w: u32, h: u32, d: u32) -> FreeSpace {
    FreeSpace { position: Position { x, y, z }, size: dims(w, h, d) }
}

#[test]
fn pruning_orders_spaces_and_drops_those_inside_kept_ones() {
    let mut spaces = vec![
        space(1, 1, 1, 2, 2, 2),
        space(20, 0, 0, 3, 3, 3),
        space(0, 0, 0, 10, 10, 10),
        space(20, 0, 0, 3, 3, 3),
        space(0, 5, 0, 4, 4, 4),
    ];
    prune_free_spaces(&mut spaces);
    assert_eq!(spaces, vec![space(0, 0, 0, 10, 10, 10), space(20, 0, 0, 3, 3, 3)]);
}

#[test]
fn sign_up_forms_give_accounts_or_refusals() {
    let user = sign_up(RegistrationType::Default, "a@gmail.com", Some("Secret1!"), Some("Secret1!"), None).unwrap();
    assert_eq!(user.get_email(), "a@gmail.com");
    assert_eq!(*user.get_registration_type(), RegistrationType::Default);
    assert!(user.ready_for_register());
    assert_eq!(check_sign_in(&user, Some("Secret1!"), None), SignInDecision::Accepted);

    assert!(matches!(
        sign_up(RegistrationType::Default, "a@gmail.com", Some("Secret1!"), None, None),
        Err(SignUpRefusal::PasswordMissing)
    ));
    match sign_up(RegistrationType::Default, "a@example.org", Some("Secret1!"), Some("Secret2!"), None) {
        Err(SignUpRefusal::Invalid(messages)) => assert_eq!(
            messages,
            vec!["passwords do not match", "email provider is not yet supported"]
        ),
        other => panic!("unexpected outcome: {other:?}"),
    }
    match sign_up(RegistrationType::Default, "a@gmail.com", Some("short"), Some("short"), None) {
        Err(SignUpRefusal::Invalid(messages)) => assert_eq!(messages, vec!["password is less then 8 characters"]),
        other => panic!("unexpected outcome: {other:?}"),
    }

    assert!(matches!(
        sign_up(RegistrationType::YandexID, "y@yandex.ru", None, None, None),
        Err(SignUpRefusal::PsuidMissing)
    ));
    let yandex = sign_up(RegistrationType::YandexID, "y@yandex.ru", None, None, Some("id-9")).unwrap();
    assert_eq!(yandex.get_psuid(), &Some("id-9".to_owned()));
    assert_eq!(*yandex.get_registration_type(), RegistrationType::YandexID);
    assert!(yandex.ready_for_register());
}

#[test]
fn decimal_text_of_numbers() {
    assert_eq!(decimal_string(0), "0");
    assert_eq!(decimal_string(7), "7");
    assert_eq!(decimal_string(10), "10");
    assert_eq!(decimal_string(90210), "90210");
    assert_eq!(decimal_string(usize::MAX), usize::MAX.to_string());
}
