use std::collections::HashMap;

use box_packing::catalog::{Order, OrderStatus, ProductMarker};
use box_packing::container::{
    find_placement, prune_free_spaces, OpenBox, PlacementPolicy, StockBox,
};
use box_packing::geometry::{orientations, Dimensions, FreeSpace, Orientation, Position};
use box_packing::intake::{build_items, MAX_ITEM_INSTANCES};
use box_packing::packer::{pack_once, sort_items, BoxPolicy, ItemOrder, PackingSolution};
use box_packing::placement::{collides, is_below_existing_product, support_for, Item};
use box_packing::plan::PackingStatus;
use box_packing::search::{
    selected_attempt_indices, solve, WEAK_LAST_ATTEMPT, WEIGHT_INTERLEAVE_ATTEMPT,
};

fn item(id: &str, size: Dimensions, weight: u64) -> Item {
    Item {
        product_instance_id: format!("products:{id}#1"),
        instance_index: 1,
        product_id: format!("products:{id}"),
        name: id.to_owned(),
        markers: Vec::new(),
        size,
        weight,
    }
}

fn stock(id: &str, size: Dimensions, max_weight: u64, count: usize) -> StockBox {
    StockBox {
        box_type_id: format!("boxes:{id}"),
        size,
        max_weight,
        count,
    }
}

fn repeated_items(id: &str, size: Dimensions, weight: u64, count: usize) -> Vec<Item> {
    (1..=count)
        .map(|instance| {
            let mut item = item(id, size, weight);
            item.product_instance_id = format!("products:{id}#{instance}");
            item.instance_index = instance;
            item
        })
        .collect()
}

fn assert_solution_invariants(
    requested_items: &[Item],
    stock: &[StockBox],
    solution: &PackingSolution,
) {
    assert_eq!(solution.requested, requested_items.len());

    let mut expected_instances = HashMap::<String, usize>::new();
    for item in requested_items {
        *expected_instances
            .entry(item.product_instance_id.clone())
            .or_default() += 1;
    }
    assert!(
        expected_instances.values().all(|count| *count == 1),
        "test input must contain unique product instance ids"
    );

    let mut available_stock = HashMap::<String, usize>::new();
    for stock_box in stock {
        *available_stock
            .entry(stock_box.box_type_id.clone())
            .or_default() += stock_box.count;
    }

    let mut used_stock = HashMap::<String, usize>::new();
    let mut observed_instances = HashMap::<String, usize>::new();
    let mut sequences = Vec::new();
    for packed_box in &solution.boxes {
        assert!(
            stock.iter().any(|stock_box| {
                stock_box.box_type_id == packed_box.box_type_id
                    && stock_box.size == packed_box.size
                    && stock_box.max_weight == packed_box.max_weight
            }),
            "packed box must originate from stock"
        );
        *used_stock
            .entry(packed_box.box_type_id.clone())
            .or_default() += 1;
        assert!(!packed_box.placements.is_empty());
        assert!(packed_box.total_weight <= packed_box.max_weight);
        assert_eq!(
            packed_box.total_weight,
            packed_box
                .placements
                .iter()
                .map(|placement| placement.item.weight)
                .sum::<u64>()
        );
        assert_eq!(
            packed_box.used_volume,
            packed_box
                .placements
                .iter()
                .map(|placement| placement.item.volume())
                .sum::<u64>()
        );
        let occupied_size = packed_box.placements.iter().fold(
            Dimensions {
                width: 0,
                height: 0,
                depth: 0,
            },
            |occupied, placement| Dimensions {
                width: occupied
                    .width
                    .max(placement.position.x + placement.size.width),
                height: occupied
                    .height
                    .max(placement.position.y + placement.size.height),
                depth: occupied
                    .depth
                    .max(placement.position.z + placement.size.depth),
            },
        );
        assert_eq!(packed_box.occupied_size, occupied_size);

        for (placement_index, placement) in packed_box.placements.iter().enumerate() {
            assert!(
                u64::from(placement.position.x) + u64::from(placement.size.width)
                    <= u64::from(packed_box.size.width)
            );
            assert!(
                u64::from(placement.position.y) + u64::from(placement.size.height)
                    <= u64::from(packed_box.size.height)
            );
            assert!(
                u64::from(placement.position.z) + u64::from(placement.size.depth)
                    <= u64::from(packed_box.size.depth)
            );
            assert_eq!(placement.size.volume(), placement.item.volume());
            assert!(
                orientations(placement.item.size)
                    .contains(&(placement.orientation, placement.size,))
            );

            let earlier = &packed_box.placements[..placement_index];
            assert!(!collides(placement.position, placement.size, earlier));
            assert!(!is_below_existing_product(
                placement.position,
                placement.size,
                earlier,
            ));
            assert_eq!(
                support_for(placement.position, placement.size, earlier),
                Some(placement.supported_by.clone())
            );

            *observed_instances
                .entry(placement.item.product_instance_id.clone())
                .or_default() += 1;
            sequences.push(placement.sequence);
        }
    }

    for unplaced in &solution.unplaced {
        *observed_instances
            .entry(unplaced.item.product_instance_id.clone())
            .or_default() += 1;
    }
    assert_eq!(observed_instances, expected_instances);

    for (box_type_id, used) in used_stock {
        assert!(
            used <= available_stock
                .get(&box_type_id)
                .copied()
                .unwrap_or_default(),
            "used more {box_type_id} boxes than available"
        );
    }

    sequences.sort_unstable();
    assert_eq!(sequences, (1..=sequences.len()).collect::<Vec<_>>());
}

fn next_random(seed: &mut u64, upper_bound: u32) -> u32 {
    *seed = seed
        .wrapping_mul(6_364_136_223_846_793_005)
        .wrapping_add(1_442_695_040_888_963_407);
    ((*seed >> 32) as u32) % upper_bound
}

#[test]
fn packs_adjacent_products_into_one_box() {
    let size = Dimensions {
        width: 5,
        height: 10,
        depth: 10,
    };
    let mut second = item("second", size, 1);
    second.product_instance_id = "products:second#1".to_owned();
    let solution = solve(
        vec![item("first", size, 1), second],
        vec![stock(
            "large",
            Dimensions {
                width: 10,
                height: 10,
                depth: 10,
            },
            10,
            1,
        )],
    );

    assert!(solution.unplaced.is_empty());
    assert_eq!(solution.boxes.len(), 1);
    assert_eq!(solution.boxes[0].placements.len(), 2);
    assert!(!collides(
        solution.boxes[0].placements[1].position,
        solution.boxes[0].placements[1].size,
        &solution.boxes[0].placements[..1]
    ));
}

#[test]
fn rotates_product_to_fit() {
    let solution = solve(
        vec![item(
            "rotated",
            Dimensions {
                width: 2,
                height: 3,
                depth: 4,
            },
            1,
        )],
        vec![stock(
            "tight",
            Dimensions {
                width: 3,
                height: 2,
                depth: 4,
            },
            1,
            1,
        )],
    );

    assert!(solution.unplaced.is_empty());
    assert_eq!(solution.boxes[0].placements[0].size.width, 3);
    assert_eq!(solution.boxes[0].placements[0].size.height, 2);
    assert_eq!(
        solution.boxes[0].placements[0].orientation,
        Orientation::Hwd
    );
}

#[test]
fn respects_box_weight_limit() {
    let size = Dimensions {
        width: 5,
        height: 5,
        depth: 5,
    };
    let solution = solve(
        vec![item("heavy-1", size, 6), item("heavy-2", size, 6)],
        vec![stock(
            "weight-limited",
            Dimensions {
                width: 10,
                height: 5,
                depth: 5,
            },
            10,
            2,
        )],
    );

    assert!(solution.unplaced.is_empty());
    assert_eq!(solution.boxes.len(), 2);
    assert!(solution.boxes.iter().all(|item| item.total_weight <= 10));
}

#[test]
fn prefers_one_large_box_over_two_small_boxes() {
    let item_size = Dimensions {
        width: 5,
        height: 10,
        depth: 10,
    };
    let solution = solve(
        vec![item("one", item_size, 1), item("two", item_size, 1)],
        vec![
            stock("small", item_size, 10, 2),
            stock(
                "large",
                Dimensions {
                    width: 10,
                    height: 10,
                    depth: 10,
                },
                10,
                1,
            ),
        ],
    );

    assert!(solution.unplaced.is_empty());
    assert_eq!(solution.boxes.len(), 1);
    assert_eq!(solution.boxes[0].box_type_id, "boxes:large");
}

#[test]
fn packs_twenty_thin_identical_items_in_one_medium_box() {
    for book in orientations(Dimensions {
        width: 21,
        height: 29,
        depth: 4,
    })
    .into_iter()
    .map(|(_, size)| size)
    {
        let items = repeated_items("book", book, 700, 20);
        let stock = vec![
            stock(
                "medium",
                Dimensions {
                    width: 50,
                    height: 40,
                    depth: 30,
                },
                15_000,
                10,
            ),
            stock(
                "large",
                Dimensions {
                    width: 80,
                    height: 60,
                    depth: 50,
                },
                30_000,
                5,
            ),
        ];
        let solution = solve(items.clone(), stock.clone());

        assert!(solution.unplaced.is_empty());
        assert_eq!(solution.boxes.len(), 1);
        assert_eq!(solution.boxes[0].box_type_id, "boxes:medium");
        assert_eq!(solution.boxes[0].placements.len(), 20);
        assert!(solution.boxes[0].placements.iter().all(|placement| {
            placement.size
                == (Dimensions {
                    width: 21,
                    height: 4,
                    depth: 29,
                })
        }));
        let mut x_positions = solution.boxes[0]
            .placements
            .iter()
            .map(|placement| placement.position.x)
            .collect::<Vec<_>>();
        x_positions.sort_unstable();
        x_positions.dedup();
        let mut y_positions = solution.boxes[0]
            .placements
            .iter()
            .map(|placement| placement.position.y)
            .collect::<Vec<_>>();
        y_positions.sort_unstable();
        y_positions.dedup();
        assert_eq!(x_positions, vec![0, 21]);
        assert_eq!(
            y_positions,
            (0..10).map(|layer| layer * 4).collect::<Vec<_>>()
        );
        assert!(
            solution.boxes[0]
                .placements
                .iter()
                .all(|placement| placement.position.z == 0)
        );
        assert_solution_invariants(&items, &stock, &solution);
    }
}

#[test]
fn packs_twenty_two_books_using_less_total_box_volume() {
    let book_size = Dimensions {
        width: 21,
        height: 29,
        depth: 4,
    };
    let items = repeated_items("book", book_size, 700, 22);
    let stock = vec![
        stock(
            "medium",
            Dimensions {
                width: 50,
                height: 40,
                depth: 30,
            },
            15_000,
            10,
        ),
        stock(
            "large",
            Dimensions {
                width: 80,
                height: 60,
                depth: 50,
            },
            30_000,
            5,
        ),
    ];

    let solution = solve(items.clone(), stock.clone());

    assert!(solution.unplaced.is_empty());
    assert_eq!(solution.boxes.len(), 2);
    assert!(
        solution
            .boxes
            .iter()
            .all(|packed_box| packed_box.box_type_id == "boxes:medium")
    );
    assert_eq!(
        solution
            .boxes
            .iter()
            .map(|packed_box| packed_box.size.volume())
            .sum::<u64>(),
        120_000
    );
    assert_eq!(
        solution
            .boxes
            .iter()
            .map(|packed_box| packed_box.total_weight)
            .sum::<u64>(),
        15_400
    );
    assert_solution_invariants(&items, &stock, &solution);
}

#[test]
fn packs_twenty_five_books_into_two_medium_boxes_instead_of_one_large() {
    let book_size = Dimensions {
        width: 21,
        height: 29,
        depth: 4,
    };
    let items = repeated_items("book", book_size, 700, 25);
    let stock = vec![
        stock(
            "medium",
            Dimensions {
                width: 50,
                height: 40,
                depth: 30,
            },
            15_000,
            10,
        ),
        stock(
            "large",
            Dimensions {
                width: 80,
                height: 60,
                depth: 50,
            },
            30_000,
            5,
        ),
    ];

    let solution = solve(items.clone(), stock.clone());

    assert!(solution.unplaced.is_empty());
    assert_eq!(solution.boxes.len(), 2);
    assert!(
        solution
            .boxes
            .iter()
            .all(|packed_box| packed_box.box_type_id == "boxes:medium")
    );
    assert_eq!(
        solution
            .boxes
            .iter()
            .map(|packed_box| packed_box.size.volume())
            .sum::<u64>(),
        120_000
    );
    assert_eq!(
        solution
            .boxes
            .iter()
            .map(|packed_box| packed_box.placements.len())
            .sum::<usize>(),
        25
    );
    assert_solution_invariants(&items, &stock, &solution);
}

#[test]
fn keeps_one_grid_orientation_when_capacities_tie() {
    let solution = solve(
        repeated_items(
            "thin",
            Dimensions {
                width: 1,
                height: 3,
                depth: 5,
            },
            1,
            12,
        ),
        vec![stock(
            "grid",
            Dimensions {
                width: 12,
                height: 3,
                depth: 6,
            },
            12,
            1,
        )],
    );

    assert!(solution.unplaced.is_empty());
    assert_eq!(solution.boxes.len(), 1);
    assert_eq!(solution.boxes[0].placements.len(), 12);
    assert!(
        solution.boxes[0]
            .placements
            .windows(2)
            .all(|items| items[0].size == items[1].size)
    );
}

#[test]
fn chooses_box_shape_by_grid_capacity_independent_of_stock_order() {
    let cube = stock(
        "cube",
        Dimensions {
            width: 10,
            height: 10,
            depth: 10,
        },
        100,
        2,
    );
    let flat = stock(
        "flat",
        Dimensions {
            width: 20,
            height: 10,
            depth: 5,
        },
        100,
        1,
    );
    let item_size = Dimensions {
        width: 6,
        height: 6,
        depth: 4,
    };

    for stock_order in [
        vec![cube.clone(), flat.clone()],
        vec![flat.clone(), cube.clone()],
    ] {
        let solution = solve(repeated_items("shaped", item_size, 1, 3), stock_order);
        assert!(solution.unplaced.is_empty());
        assert_eq!(solution.boxes.len(), 1);
        assert_eq!(solution.boxes[0].box_type_id, "boxes:flat");
    }
}

#[test]
fn equivalent_stock_is_selected_deterministically() {
    let box_size = Dimensions {
        width: 5,
        height: 5,
        depth: 5,
    };
    let alpha = stock("alpha", box_size, 10, 1);
    let zeta = stock("zeta", box_size, 10, 1);

    for stock_order in [
        vec![zeta.clone(), alpha.clone()],
        vec![alpha.clone(), zeta.clone()],
    ] {
        let solution = solve(vec![item("cube", box_size, 1)], stock_order);
        assert!(solution.unplaced.is_empty());
        assert_eq!(solution.boxes[0].box_type_id, "boxes:alpha");
    }
}

#[test]
fn tries_intermediate_box_shape_instead_of_only_smallest_or_largest() {
    let boxes = vec![
        stock(
            "small-capacity",
            Dimensions {
                width: 3,
                height: 3,
                depth: 4,
            },
            100,
            10,
        ),
        stock(
            "right-shape",
            Dimensions {
                width: 4,
                height: 4,
                depth: 3,
            },
            100,
            1,
        ),
        stock(
            "large-capacity",
            Dimensions {
                width: 3,
                height: 3,
                depth: 6,
            },
            100,
            10,
        ),
    ];
    let solution = solve(
        repeated_items(
            "cube",
            Dimensions {
                width: 2,
                height: 2,
                depth: 2,
            },
            1,
            4,
        ),
        boxes,
    );

    assert!(solution.unplaced.is_empty());
    assert_eq!(solution.boxes.len(), 1);
    assert_eq!(solution.boxes[0].box_type_id, "boxes:right-shape");
}

#[test]
fn places_items_with_fewer_compatible_boxes_first() {
    let flexible = item(
        "a-flexible",
        Dimensions {
            width: 4,
            height: 4,
            depth: 2,
        },
        2,
    );
    let constrained = item(
        "b-constrained",
        Dimensions {
            width: 3,
            height: 3,
            depth: 3,
        },
        1,
    );
    let square = stock(
        "square",
        Dimensions {
            width: 4,
            height: 4,
            depth: 4,
        },
        10,
        1,
    );
    let flat = stock(
        "flat",
        Dimensions {
            width: 8,
            height: 4,
            depth: 2,
        },
        10,
        1,
    );

    for stock_order in [
        vec![square.clone(), flat.clone()],
        vec![flat.clone(), square.clone()],
    ] {
        let solution = solve(vec![flexible.clone(), constrained.clone()], stock_order);
        assert!(solution.unplaced.is_empty());
        assert_eq!(solution.boxes.len(), 2);
    }
}

#[test]
fn interleaves_weights_to_avoid_a_greedy_dead_end() {
    let size = Dimensions {
        width: 1,
        height: 1,
        depth: 1,
    };
    let items = [6, 5, 3, 2, 2, 2]
        .into_iter()
        .enumerate()
        .map(|(index, weight)| item(&format!("weight-{index}"), size, weight))
        .collect();
    let solution = solve(
        items,
        vec![stock(
            "weight-bins",
            Dimensions {
                width: 3,
                height: 1,
                depth: 1,
            },
            10,
            2,
        )],
    );

    assert!(solution.unplaced.is_empty());
    assert_eq!(solution.boxes.len(), 2);
    assert!(solution.boxes.iter().all(|item| item.total_weight == 10));
}

#[test]
fn large_orders_keep_only_the_extra_strategies_their_constraints_need() {
    let unit = Dimensions {
        width: 1,
        height: 1,
        depth: 1,
    };
    let weak_stock = vec![stock(
        "weak-large-order",
        Dimensions {
            width: 1_000,
            height: 2,
            depth: 1,
        },
        1_001,
        1,
    )];

    let mut weak_order = repeated_items("strong", unit, 1, 1_000);
    let mut weak = item(
        "weak",
        Dimensions {
            width: 1_000,
            height: 1,
            depth: 1,
        },
        1,
    );
    weak.markers.push(ProductMarker::Weak);
    weak_order.push(weak);
    let weak_attempts = selected_attempt_indices(&weak_order, &weak_stock, 10);
    assert!(weak_attempts.contains(&WEAK_LAST_ATTEMPT));
    assert!(!weak_attempts.contains(&WEIGHT_INTERLEAVE_ATTEMPT));
    let weak_solution = solve(weak_order.clone(), weak_stock.clone());
    assert!(weak_solution.unplaced.is_empty());
    assert_eq!(weak_solution.boxes.len(), 1);
    assert_solution_invariants(&weak_order, &weak_stock, &weak_solution);

    let mut weighted_order = [6, 5, 3, 2, 2, 2]
        .into_iter()
        .enumerate()
        .map(|(index, weight)| item(&format!("weighted-{index}"), unit, weight))
        .collect::<Vec<_>>();
    weighted_order.extend(repeated_items("zero-weight", unit, 0, 995));
    let weight_stock = vec![stock(
        "weighted-large-order",
        Dimensions {
            width: 1_000,
            height: 1,
            depth: 1,
        },
        10,
        2,
    )];
    let weight_attempts = selected_attempt_indices(&weighted_order, &weight_stock, 10);
    assert!(weight_attempts.contains(&WEIGHT_INTERLEAVE_ATTEMPT));
    assert!(!weight_attempts.contains(&WEAK_LAST_ATTEMPT));
    let weight_solution = solve(weighted_order.clone(), weight_stock.clone());
    assert!(weight_solution.unplaced.is_empty());
    assert_eq!(weight_solution.boxes.len(), 2);
    assert_solution_invariants(&weighted_order, &weight_stock, &weight_solution);
}

#[test]
fn packs_strong_items_before_weak_items_of_the_same_size() {
    let size = Dimensions {
        width: 5,
        height: 5,
        depth: 5,
    };
    let mut weak = item("a-weak", size, 1);
    weak.markers.push(ProductMarker::Weak);
    let strong = item("z-strong", size, 1);
    let solution = solve(
        vec![weak, strong],
        vec![stock(
            "vertical",
            Dimensions {
                width: 5,
                height: 10,
                depth: 5,
            },
            10,
            1,
        )],
    );

    assert!(solution.unplaced.is_empty());
    assert_eq!(solution.boxes.len(), 1);
    assert!(!solution.boxes[0].placements[0].item.is_weak());
    assert!(solution.boxes[0].placements[1].item.is_weak());
}

#[test]
fn weak_last_strategy_keeps_load_bearing_items_below_fragile_items() {
    let mut weak = item(
        "weak-slab",
        Dimensions {
            width: 4,
            height: 1,
            depth: 4,
        },
        5,
    );
    weak.markers.push(ProductMarker::Weak);
    let cube_size = Dimensions {
        width: 2,
        height: 2,
        depth: 2,
    };
    let mut items = repeated_items("strong-cube", cube_size, 1, 4);
    items.push(weak);
    let solution = solve(
        items,
        vec![stock(
            "exact",
            Dimensions {
                width: 4,
                height: 3,
                depth: 4,
            },
            9,
            1,
        )],
    );

    assert!(solution.unplaced.is_empty());
    assert_eq!(solution.boxes.len(), 1);
    assert!(solution.boxes[0].placements.last().unwrap().item.is_weak());
    assert_eq!(solution.boxes[0].placements.last().unwrap().position.y, 2);
}

#[test]
fn weak_items_use_floor_capacity_without_sharing_preferences_with_strong_items() {
    let size = Dimensions {
        width: 1,
        height: 1,
        depth: 2,
    };
    let strong = item("strong", size, 1);
    let mut weak_items = repeated_items("weak", size, 1, 3);
    for item in &mut weak_items {
        item.markers.push(ProductMarker::Weak);
    }
    let mut items = vec![strong];
    items.append(&mut weak_items);
    let solution = solve(
        items,
        vec![stock(
            "floor",
            Dimensions {
                width: 2,
                height: 2,
                depth: 2,
            },
            10,
            1,
        )],
    );

    assert!(solution.unplaced.is_empty());
    assert_eq!(solution.boxes.len(), 1);
    let weak_count = solution.boxes[0]
        .placements
        .iter()
        .filter(|item| item.item.is_weak())
        .count();
    assert_eq!(weak_count, 3);
}

#[test]
fn sorts_instance_numbers_numerically() {
    let mut items = repeated_items(
        "ordered",
        Dimensions {
            width: 1,
            height: 1,
            depth: 1,
        },
        1,
        12,
    );
    items.reverse();
    sort_items(&mut items, ItemOrder::Volume, &[]);

    assert_eq!(
        items
            .iter()
            .map(|item| item.instance_index)
            .collect::<Vec<_>>(),
        (1..=12).collect::<Vec<_>>()
    );
}

#[test]
fn grid_capacity_strategy_handles_small_repeated_item_tilings() {
    for item_width in 1..=4 {
        for item_height in 1..=4 {
            for item_depth in 1..=4 {
                let item_size = Dimensions {
                    width: item_width,
                    height: item_height,
                    depth: item_depth,
                };
                for box_width in 2..=6 {
                    for box_height in 2..=6 {
                        for box_depth in 2..=6 {
                            let box_size = Dimensions {
                                width: box_width,
                                height: box_height,
                                depth: box_depth,
                            };
                            let capacity = orientations(item_size)
                                .into_iter()
                                .map(|(_, size)| {
                                    usize::try_from(
                                        u64::from(box_width / size.width)
                                            * u64::from(box_height / size.height)
                                            * u64::from(box_depth / size.depth),
                                    )
                                    .expect("small capacity should fit usize")
                                })
                                .max()
                                .unwrap_or_default()
                                .min(12);
                            if capacity < 2 {
                                continue;
                            }

                            let stock = [stock("grid", box_size, u64::MAX, 1)];
                            let solution = pack_once(
                                repeated_items("tile", item_size, 1, capacity),
                                &stock,
                                ItemOrder::Volume,
                                BoxPolicy::TargetRemaining,
                                PlacementPolicy::GridCapacity,
                            );
                            assert!(
                                solution.unplaced.is_empty(),
                                "failed to place {capacity} items {item_size:?} in {box_size:?}"
                            );
                            assert_eq!(solution.boxes.len(), 1);
                        }
                    }
                }
            }
        }
    }
}

#[test]
fn reports_product_that_cannot_fit() {
    let solution = solve(
        vec![item(
            "oversized",
            Dimensions {
                width: 11,
                height: 10,
                depth: 10,
            },
            1,
        )],
        vec![stock(
            "small",
            Dimensions {
                width: 10,
                height: 10,
                depth: 10,
            },
            10,
            1,
        )],
    );

    assert_eq!(solution.unplaced.len(), 1);
    assert!(solution.boxes.is_empty());
}

#[test]
fn respects_available_box_count() {
    let size = Dimensions {
        width: 10,
        height: 10,
        depth: 10,
    };
    let solution = solve(
        vec![item("first", size, 1), item("second", size, 1)],
        vec![stock("single", size, 10, 1)],
    );

    assert_eq!(solution.boxes.len(), 1);
    assert_eq!(solution.boxes[0].placements.len(), 1);
    assert_eq!(solution.unplaced.len(), 1);
}

#[test]
fn empty_order_produces_complete_empty_plan() {
    let plan = solve(Vec::new(), Vec::new()).into_plan("orders:empty".to_owned());

    assert!(matches!(plan.status, PackingStatus::Complete));
    assert_eq!(plan.summary.products_requested, 0);
    assert_eq!(plan.summary.boxes_used, 0);
    assert!(plan.steps.is_empty());
}

#[test]
fn zero_quantity_does_not_require_a_product_record() {
    let missing_product = "products:00000000-0000-0000-0000-000000000201".to_owned();
    let order = Order::from_data(
        "orders:00000000-0000-0000-0000-000000000202".to_owned(),
        vec![(missing_product, 0)],
        Vec::new(),
        OrderStatus::NotPacked,
    );

    assert!(build_items(&order, &[]).unwrap().is_empty());
}

#[test]
fn does_not_stack_on_weak_product() {
    let size = Dimensions {
        width: 5,
        height: 5,
        depth: 5,
    };
    let mut weak = item("weak", size, 1);
    weak.markers.push(ProductMarker::Weak);
    let stock = stock(
        "vertical",
        Dimensions {
            width: 5,
            height: 10,
            depth: 5,
        },
        10,
        1,
    );
    let mut open_box = OpenBox::new("box-1".to_owned(), &stock);
    let placement = find_placement(&open_box, &weak, PlacementPolicy::BestFit)
        .expect("weak product should fit");
    open_box.place(weak, placement, 1);

    assert!(
        find_placement(&open_box, &item("top", size, 1), PlacementPolicy::BestFit).is_none()
    );
}

#[test]
fn can_place_product_across_multiple_supports() {
    let bottom_size = Dimensions {
        width: 5,
        height: 5,
        depth: 5,
    };
    let stock = stock(
        "bridge",
        Dimensions {
            width: 10,
            height: 10,
            depth: 5,
        },
        10,
        1,
    );
    let mut open_box = OpenBox::new("box-1".to_owned(), &stock);
    for (sequence, id) in ["left", "right"].into_iter().enumerate() {
        let product = item(id, bottom_size, 1);
        let placement = find_placement(&open_box, &product, PlacementPolicy::BestFit)
            .expect("bottom product should fit");
        open_box.place(product, placement, sequence + 1);
    }

    let bridge = item(
        "bridge",
        Dimensions {
            width: 10,
            height: 5,
            depth: 5,
        },
        1,
    );
    let placement = find_placement(&open_box, &bridge, PlacementPolicy::BestFit)
        .expect("bridge should fit");

    assert_eq!(placement.position.y, 5);
    assert_eq!(placement.supported_by.len(), 2);
}

#[test]
fn prunes_duplicate_and_contained_free_spaces() {
    let container = FreeSpace {
        position: Position { x: 0, y: 0, z: 0 },
        size: Dimensions {
            width: 10,
            height: 10,
            depth: 10,
        },
    };
    let contained = FreeSpace {
        position: Position { x: 1, y: 1, z: 1 },
        size: Dimensions {
            width: 2,
            height: 2,
            depth: 2,
        },
    };
    let separate = FreeSpace {
        position: Position { x: 20, y: 0, z: 0 },
        size: Dimensions {
            width: 2,
            height: 2,
            depth: 2,
        },
    };
    let mut spaces = vec![contained, separate, container, container];

    prune_free_spaces(&mut spaces);

    assert_eq!(spaces, vec![container, separate]);
}

#[test]
fn seeded_mixed_orders_preserve_all_solution_invariants() {
    let mut seed = 0x5eed_cafe_f00d_beefu64;

    for case_index in 0..48 {
        let product_type_count = 1 + next_random(&mut seed, 4) as usize;
        let product_specs = (0..product_type_count)
            .map(|_| {
                (
                    Dimensions {
                        width: 1 + next_random(&mut seed, 6),
                        height: 1 + next_random(&mut seed, 6),
                        depth: 1 + next_random(&mut seed, 6),
                    },
                    u64::from(next_random(&mut seed, 10)),
                    next_random(&mut seed, 7) == 0,
                )
            })
            .collect::<Vec<_>>();
        let mut occurrences = vec![0usize; product_type_count];
        let item_count = 1 + next_random(&mut seed, 12) as usize;
        let mut items = Vec::with_capacity(item_count);
        for _ in 0..item_count {
            let product_index = next_random(&mut seed, product_type_count as u32) as usize;
            let (size, weight, weak) = product_specs[product_index];
            occurrences[product_index] += 1;
            let mut product = item(
                &format!("case-{case_index}-product-{product_index}"),
                size,
                weight,
            );
            product.instance_index = occurrences[product_index];
            product.product_instance_id =
                format!("{}#{}", product.product_id, product.instance_index);
            if weak {
                product.markers.push(ProductMarker::Weak);
            }
            items.push(product);
        }

        let stock_type_count = 1 + next_random(&mut seed, 3) as usize;
        let stock = (0..stock_type_count)
            .map(|stock_index| {
                stock(
                    &format!("case-{case_index}-box-{stock_index}"),
                    Dimensions {
                        width: 2 + next_random(&mut seed, 6),
                        height: 2 + next_random(&mut seed, 6),
                        depth: 2 + next_random(&mut seed, 6),
                    },
                    u64::from(1 + next_random(&mut seed, 20)),
                    (1 + next_random(&mut seed, 3)) as usize,
                )
            })
            .collect::<Vec<_>>();

        let solution = solve(items.clone(), stock.clone());
        assert_solution_invariants(&items, &stock, &solution);
    }
}

#[test]
fn packs_hundreds_of_items() {
    let item_size = Dimensions {
        width: 1,
        height: 1,
        depth: 1,
    };
    let items = (0..216)
        .map(|index| item(&format!("cube-{index}"), item_size, 1))
        .collect();
    let solution = solve(
        items,
        vec![stock(
            "cube",
            Dimensions {
                width: 6,
                height: 6,
                depth: 6,
            },
            216,
            1,
        )],
    );

    assert!(solution.unplaced.is_empty());
    assert_eq!(solution.boxes.len(), 1);
    assert_eq!(solution.boxes[0].placements.len(), 216);
}

#[test]
fn packs_the_maximum_homogeneous_order_with_the_bounded_strategy_set() {
    let item_size = Dimensions {
        width: 1,
        height: 1,
        depth: 1,
    };
    let items = repeated_items("maximum", item_size, 1, MAX_ITEM_INSTANCES);
    let stock = vec![stock(
        "maximum-grid",
        Dimensions {
            width: 100,
            height: 1,
            depth: 100,
        },
        MAX_ITEM_INSTANCES as u64,
        1,
    )];

    let solution = solve(items.clone(), stock.clone());

    assert!(solution.unplaced.is_empty());
    assert_eq!(solution.boxes.len(), 1);
    assert_eq!(solution.boxes[0].placements.len(), MAX_ITEM_INSTANCES);
    assert_solution_invariants(&items, &stock, &solution);
}

#[test]
fn packs_large_mixed_order() {
    let items = (0..500)
        .map(|index| {
            item(
                &format!("mixed-{index}"),
                Dimensions {
                    width: 1 + index % 5,
                    height: 1 + (index * 3) % 5,
                    depth: 1 + (index * 7) % 5,
                },
                1,
            )
        })
        .collect();
    let solution = solve(
        items,
        vec![stock(
            "mixed",
            Dimensions {
                width: 20,
                height: 20,
                depth: 20,
            },
            10_000,
            20,
        )],
    );

    assert!(solution.unplaced.is_empty());
    assert_eq!(
        solution
            .boxes
            .iter()
            .map(|packed_box| packed_box.placements.len())
            .sum::<usize>(),
        500
    );
}
