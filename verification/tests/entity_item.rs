use bin_pack_wasm::entity::{Axis, Container, Item, Rotation, Vector3};

#[test]
fn test_rotate_lwh() {
    let mut item_1 = Item::new("item_1".into(), 10.0, 20.0, 30.0);
    item_1.rot = Rotation::LWH;
    let dim = item_1.dimensions();
    let expected_lwh = Vector3::new((10.0, 20.0, 30.0));
    assert_eq!(dim, expected_lwh);
}

#[test]
fn test_rotate_whl() {
    let mut item_1 = Item::new("item_1".into(), 10.0, 20.0, 30.0);
    item_1.rot = Rotation::WHL;
    let dim = item_1.dimensions();
    let expected_whl = Vector3::new((20.0, 30.0, 10.0));
    assert_eq!(dim, expected_whl);
}

#[test]
fn test_rotate_wlh() {
    let mut item_1 = Item::new("item_1".into(), 10.0, 20.0, 30.0);
    item_1.rot = Rotation::WLH;
    let dim = item_1.dimensions();
    let expected_wlh = Vector3::new((20.0, 10.0, 30.0));
    assert_eq!(dim, expected_wlh);
}

#[test]
fn test_rotate_hlw() {
    let mut item_1 = Item::new("item_1".into(), 10.0, 20.0, 30.0);
    item_1.rot = Rotation::HLW;
    let dim = item_1.dimensions();
    let expected_hlw = Vector3::new((30.0, 10.0, 20.0));
    assert_eq!(dim, expected_hlw);
}

#[test]
fn test_rotate_hwl() {
    let mut item_1 = Item::new("item_1".into(), 10.0, 20.0, 30.0);
    item_1.rot = Rotation::HWL;
    let dim = item_1.dimensions();
    let expected_hwl = Vector3::new((30.0, 20.0, 10.0));
    assert_eq!(dim, expected_hwl);
}

#[test]
fn test_rotate_lhw() {
    let mut item_1 = Item::new("item_1".into(), 10.0, 20.0, 30.0);
    item_1.rot = Rotation::LHW;
    let dim = item_1.dimensions();
    let expected_lhw = Vector3::new((10.0, 30.0, 20.0));
    assert_eq!(dim, expected_lhw);
}

#[test]
fn new_item_lies_unrotated_at_the_origin() {
    let item = Item::new("box".into(), 3u64, 4u64, 5u64);
    assert_eq!(item.id, "box");
    assert_eq!(item.rot, Rotation::LWH);
    assert_eq!(item.pos, Vector3::new((0, 0, 0)));
    assert_eq!(item.dimensions(), item.dim);
}

#[test]
fn every_rotation_keeps_the_three_sides() {
    let rotations = [
        Rotation::LWH,
        Rotation::WLH,
        Rotation::WHL,
        Rotation::HLW,
        Rotation::HWL,
        Rotation::LHW,
    ];
    for rot in rotations {
        let mut item = Item::new("i".into(), 1u32, 2u32, 3u32);
        item.rot = rot;
        let d = item.dimensions();
        let mut sides = vec![d.length, d.width, d.height];
        sides.sort();
        assert_eq!(sides, vec![1, 2, 3]);
    }
}

#[test]
fn get_by_axis_picks_the_component() {
    let v = Vector3::new((7, 8, 9));
    assert_eq!(v.get_by_axis(&Axis::X), 7);
    assert_eq!(v.get_by_axis(&Axis::Y), 8);
    assert_eq!(v.get_by_axis(&Axis::Z), 9);
}

#[test]
fn vector_default_is_the_origin() {
    let v: Vector3<f64> = Vector3::default();
    assert_eq!(v, Vector3::new((0.0, 0.0, 0.0)));
}

#[test]
fn new_container_is_empty() {
    let c = Container::new("Box A".into(), Vector3::new((30.0, 30.0, 30.0)));
    assert_eq!(c.id, "Box A");
    assert_eq!(c.dim, Vector3::new((30.0, 30.0, 30.0)));
    assert!(c.items.is_empty());
}

#[test]
fn clones_are_equal() {
    let mut item = Item::new("i".into(), 1.5, 2.5, 3.5);
    item.rot = Rotation::HWL;
    item.pos = Vector3::new((1.0, 2.0, 3.0));
    let copy = item.clone();
    assert_eq!(copy.id, item.id);
    assert_eq!(copy.dim, item.dim);
    assert_eq!(copy.pos, item.pos);
    assert_eq!(copy.rot, item.rot);
    let mut c = Container::new("c".into(), Vector3::new((9.0, 9.0, 9.0)));
    c.items.push(item);
    let c2 = c.clone();
    assert_eq!(c2.items.len(), 1);
    assert_eq!(c2.items[0].id, "i");
}
