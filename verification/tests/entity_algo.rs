use bin_pack_wasm::entity::{Algo, Axis, Container, ContainerSpec, Item, ItemSpec, Rotation, Vector3};

// The arithmetic of the packing program, on f64.

fn volume(v: &Vector3<f64>) -> f64 {
    v.length * v.width * v.height
}

fn smaller(a: &Vector3<f64>, b: &Vector3<f64>) -> bool {
    volume(a) < volume(b)
}

fn exceeds(c: &Vector3<f64>, pivot: &Vector3<f64>, d: &Vector3<f64>) -> bool {
    c.length < pivot.length + d.length || c.width < pivot.width + d.width || c.height < pivot.height + d.height
}

fn collision(item_a: &Item<f64>, item_b: &Item<f64>, ax: Axis, ay: Axis) -> bool {
    let dim1 = item_a.dimensions();
    let dim2 = item_b.dimensions();
    let center_x1 = item_a.pos.get_by_axis(&ax) + dim1.get_by_axis(&ax) * 0.5;
    let center_y1 = item_a.pos.get_by_axis(&ay) + dim1.get_by_axis(&ay) * 0.5;
    let center_x2 = item_b.pos.get_by_axis(&ax) + dim2.get_by_axis(&ax) * 0.5;
    let center_y2 = item_b.pos.get_by_axis(&ay) + dim2.get_by_axis(&ay) * 0.5;
    let x = center_x1.max(center_x2) - center_x1.min(center_x2);
    let y = center_y1.max(center_y2) - center_y1.min(center_y2);
    x < (dim1.get_by_axis(&ax) + dim2.get_by_axis(&ax)) * 0.5
        && y < (dim1.get_by_axis(&ay) + dim2.get_by_axis(&ay)) * 0.5
}

fn collides(a: &Item<f64>, b: &Item<f64>) -> bool {
    collision(a, b, Axis::X, Axis::Y) && collision(a, b, Axis::Y, Axis::Z) && collision(a, b, Axis::X, Axis::Z)
}

fn pivot(axis: &Axis, pos: &Vector3<f64>, dims: &Vector3<f64>) -> Vector3<f64> {
    match axis {
        Axis::X => Vector3::new((pos.length + dims.length, pos.width, pos.height)),
        Axis::Y => Vector3::new((pos.length, pos.width + dims.width, pos.height)),
        Axis::Z => Vector3::new((pos.length, pos.width, pos.height + dims.height)),
    }
}

fn pack(algo: &mut Algo<f64>) -> bin_pack_wasm::entity::AlgoResult<f64> {
    algo.pack(&smaller, &exceeds, &collides, &pivot)
}

#[test]
fn packing_test() {
    let mut algo = Algo {
        containers: vec![
            ContainerSpec {
                qty: 1,
                spec: Container::new("Box A".into(), Vector3::new((30.0, 30.0, 30.0))),
            },
            ContainerSpec {
                qty: 1,
                spec: Container::new("Box B".into(), Vector3::new((5.0, 5.0, 40.0))),
            },
            ContainerSpec {
                qty: 1,
                spec: Container::new("Box C".into(), Vector3::new((20.0, 20.0, 30.0))),
            },
        ],
        items: vec![
            ItemSpec {
                qty: 17,
                spec: Item::new("Item A1".into(), 10.0, 10.0, 30.0),
            },
            ItemSpec {
                qty: 1,
                spec: Item::new("Item A2".into(), 10.0, 10.0, 30.0),
            },
            ItemSpec {
                qty: 1,
                spec: Item::new("Tall Item".into(), 5.0, 39.5, 5.0),
            },
            ItemSpec {
                qty: 1,
                spec: Item::new("Large Item".into(), 50.0, 50.0, 100.0),
            },
        ],
    };

    let result = pack(&mut algo);
    assert_eq!(result.containers.len(), 3);
    assert_eq!(result.containers[0].items.len(), 1);
    assert_eq!(result.containers[1].items.len(), 4);
    assert_eq!(result.containers[2].items.len(), 9);
    assert_eq!(result.unpacked_items.len(), 6);
}

#[test]
fn packing_accounts_for_every_item_and_uses_up_quantities() {
    let mut algo = Algo {
        containers: vec![ContainerSpec {
            qty: 2,
            spec: Container::new("cube".into(), Vector3::new((10.0, 10.0, 10.0))),
        }],
        items: vec![ItemSpec {
            qty: 3,
            spec: Item::new("slab".into(), 10.0, 10.0, 6.0),
        }],
    };
    let result = pack(&mut algo);
    // One slab per cube: two cubes, one slab left over.
    assert_eq!(result.containers.len(), 2);
    assert_eq!(result.containers[0].items.len(), 1);
    assert_eq!(result.containers[1].items.len(), 1);
    assert_eq!(result.unpacked_items.len(), 1);
    assert_eq!(result.unpacked_items[0].id, "slab");
    assert_eq!(algo.containers[0].qty, 0);
}

#[test]
fn packing_sorts_kinds_by_volume() {
    let mut algo = Algo {
        containers: vec![
            ContainerSpec { qty: 1, spec: Container::new("big".into(), Vector3::new((9.0, 9.0, 9.0))) },
            ContainerSpec { qty: 1, spec: Container::new("small".into(), Vector3::new((2.0, 2.0, 2.0))) },
        ],
        items: vec![
            ItemSpec { qty: 1, spec: Item::new("b".into(), 3.0, 3.0, 3.0) },
            ItemSpec { qty: 1, spec: Item::new("a".into(), 1.0, 1.0, 1.0) },
        ],
    };
    let result = pack(&mut algo);
    assert_eq!(algo.containers[0].spec.id, "small");
    assert_eq!(algo.containers[1].spec.id, "big");
    assert_eq!(algo.items[0].spec.id, "a");
    assert_eq!(algo.items[1].spec.id, "b");
    // The small item opens the small container; the big one does not fit there.
    assert_eq!(result.containers.len(), 2);
    assert_eq!(result.containers[0].id, "small");
    assert_eq!(result.containers[1].id, "big");
    assert_eq!(algo.containers[0].qty, 0);
    assert_eq!(algo.containers[1].qty, 0);
    assert!(result.unpacked_items.is_empty());
}

#[test]
fn items_go_next_to_each_other() {
    let mut algo = Algo {
        containers: vec![ContainerSpec {
            qty: 1,
            spec: Container::new("row".into(), Vector3::new((30.0, 10.0, 10.0))),
        }],
        items: vec![ItemSpec { qty: 3, spec: Item::new("cube".into(), 10.0, 10.0, 10.0) }],
    };
    let result = pack(&mut algo);
    assert_eq!(result.containers.len(), 1);
    let c = &result.containers[0];
    assert_eq!(c.items.len(), 3);
    assert_eq!(c.items[0].pos, Vector3::new((0.0, 0.0, 0.0)));
    assert_eq!(c.items[1].pos, Vector3::new((10.0, 0.0, 0.0)));
    assert_eq!(c.items[2].pos, Vector3::new((20.0, 0.0, 0.0)));
}

#[test]
fn nothing_to_pack_opens_nothing() {
    let mut algo: Algo<f64> = Algo {
        containers: vec![ContainerSpec { qty: 5, spec: Container::new("c".into(), Vector3::new((1.0, 1.0, 1.0))) }],
        items: vec![],
    };
    let result = pack(&mut algo);
    assert!(result.containers.is_empty());
    assert!(result.unpacked_items.is_empty());
    assert_eq!(algo.containers[0].qty, 5);
}

#[test]
fn kinds_of_equal_size_keep_their_order() {
    let mut algo = Algo {
        containers: vec![
            ContainerSpec { qty: 1, spec: Container::new("p".into(), Vector3::new((5.0, 5.0, 5.0))) },
            ContainerSpec { qty: 1, spec: Container::new("q".into(), Vector3::new((5.0, 5.0, 5.0))) },
        ],
        items: vec![
            ItemSpec { qty: 1, spec: Item::new("x".into(), 2.0, 3.0, 4.0) },
            ItemSpec { qty: 1, spec: Item::new("y".into(), 4.0, 3.0, 2.0) },
            ItemSpec { qty: 1, spec: Item::new("z".into(), 1.0, 1.0, 1.0) },
        ],
    };
    let result = pack(&mut algo);
    assert_eq!(algo.containers[0].spec.id, "p");
    assert_eq!(algo.containers[1].spec.id, "q");
    assert_eq!(algo.items[0].spec.id, "z");
    assert_eq!(algo.items[1].spec.id, "x");
    assert_eq!(algo.items[2].spec.id, "y");
    // Everything goes into the first container of the first kind.
    assert_eq!(result.containers.len(), 1);
    assert_eq!(result.containers[0].id, "p");
    let ids: Vec<&str> = result.containers[0].items.iter().map(|i| i.id.as_str()).collect();
    assert_eq!(ids, vec!["z", "x", "y"]);
    assert_eq!(algo.containers[0].qty, 0);
    assert_eq!(algo.containers[1].qty, 1);
}

#[test]
fn copies_go_first_fit_kind_by_kind() {
    let mut algo = Algo {
        containers: vec![ContainerSpec {
            qty: 3,
            spec: Container::new("box".into(), Vector3::new((10.0, 10.0, 10.0))),
        }],
        items: vec![
            ItemSpec { qty: 2, spec: Item::new("half".into(), 5.0, 10.0, 10.0) },
            ItemSpec { qty: 2, spec: Item::new("whole".into(), 10.0, 10.0, 10.0) },
        ],
    };
    let result = pack(&mut algo);
    // The two halves share the first box; each whole one opens a box.
    assert_eq!(result.containers.len(), 3);
    let ids: Vec<Vec<&str>> = result
        .containers
        .iter()
        .map(|c| c.items.iter().map(|i| i.id.as_str()).collect())
        .collect();
    assert_eq!(ids, vec![vec!["half", "half"], vec!["whole"], vec!["whole"]]);
    assert!(result.unpacked_items.is_empty());
    assert_eq!(algo.containers[0].qty, 0);
}

#[test]
fn first_rotation_inside_is_taken() {
    let mut algo = Algo {
        containers: vec![ContainerSpec {
            qty: 1,
            spec: Container::new("thin".into(), Vector3::new((5.0, 10.0, 10.0))),
        }],
        items: vec![ItemSpec { qty: 1, spec: Item::new("slab".into(), 10.0, 5.0, 10.0) }],
    };
    let result = pack(&mut algo);
    let it = &result.containers[0].items[0];
    assert_eq!(it.rot, Rotation::WHL);
    assert_eq!(it.pos, Vector3::new((0.0, 0.0, 0.0)));
    assert_eq!(it.dimensions(), Vector3::new((5.0, 10.0, 10.0)));
}

#[test]
fn next_axis_is_tried_when_the_first_corner_fails() {
    let mut algo = Algo {
        containers: vec![ContainerSpec {
            qty: 1,
            spec: Container::new("tower".into(), Vector3::new((10.0, 20.0, 10.0))),
        }],
        items: vec![ItemSpec { qty: 2, spec: Item::new("cube".into(), 10.0, 10.0, 10.0) }],
    };
    let result = pack(&mut algo);
    let c = &result.containers[0];
    assert_eq!(c.items.len(), 2);
    assert_eq!(c.items[0].pos, Vector3::new((0.0, 0.0, 0.0)));
    assert_eq!(c.items[1].pos, Vector3::new((0.0, 10.0, 0.0)));
}
