use bin_pack_wasm::algo::compute;
use bin_pack_wasm::packing::algo::{flatten_items, get_current_item};
use bin_pack_wasm::packing::{
    Bin, BinItem, BinPacking, Container, Item, ItemCoordinate, ItemDimension, Orientation, OrientationVariant,
};

fn fits(w: &f64, h: &f64, d: &f64, item: &BinItem<f64>) -> bool {
    let _ = d;
    item.width <= *w && item.height <= *h && item.depth <= item.depth
}

fn bin(name: &str, w: f64, h: f64, d: f64) -> Bin<f64> {
    Bin { name: name.into(), width: w, height: h, depth: d, items: Vec::new() }
}

#[test]
fn new_packing_item_is_unpacked() {
    let item = Item::new(1.0, 2.0, 3.0, 4);
    assert_eq!(item.dim, ItemDimension(1.0, 2.0, 3.0));
    assert_eq!(item.quantity, 4);
    assert_eq!(item.pack_dim, ItemDimension(0.0, 0.0, 0.0));
    assert_eq!(item.coord, ItemCoordinate { x: 0.0, y: 0.0, z: 0.0 });
}

#[test]
fn new_packing_container() {
    let c = Container::new(1.0, 2.0, 3.0);
    assert_eq!((c.length, c.width, c.height), (1.0, 2.0, 3.0));
}

#[test]
fn flatten_repeats_each_kind_and_drops_empty_ones() {
    let list = vec![Item::new(1u32, 1, 1, 2), Item::new(2, 2, 2, 0), Item::new(3, 3, 3, 3)];
    let flat = flatten_items(&list);
    assert_eq!(flat.len(), 5);
    let firsts: Vec<u32> = flat.iter().map(|i| i.dim.0).collect();
    assert_eq!(firsts, vec![1, 1, 3, 3, 3]);
}

#[test]
fn orientations_of_a_container() {
    let c = Container::new(1u8, 2u8, 3u8);
    let mut v = OrientationVariant::from_container(&c);
    assert_eq!(v.current_variant, 0);
    let expected = [(2, 3, 1), (1, 3, 2), (1, 2, 3), (3, 2, 1), (2, 1, 3), (3, 1, 2)];
    for (k, (x, y, z)) in expected.iter().enumerate() {
        assert_eq!(v.current_variant, k);
        assert_eq!(v.next(), Some(Orientation { x: *x, y: *y, z: *z }));
    }
    assert_eq!(v.current_variant, 6);
    assert_eq!(v.next(), None);
    assert_eq!(v.next(), None);
    assert_eq!(v.current_variant, 6);
}

#[test]
fn orientation_walk_restarts_where_set() {
    let c = Container::new(1u8, 2u8, 3u8);
    let mut v = OrientationVariant::from_container(&c);
    v.current_variant = 4;
    assert_eq!(v.next(), Some(Orientation { x: 2, y: 1, z: 3 }));
    assert_eq!(v.next(), Some(Orientation { x: 3, y: 1, z: 2 }));
    assert_eq!(v.next(), None);
}

#[test]
fn add_item_only_when_it_fits() {
    let mut b = bin("b", 10.0, 10.0, 10.0);
    assert!(b.add_item(BinItem { width: 5.0, height: 5.0, depth: 5.0 }, &fits));
    assert!(!b.add_item(BinItem { width: 11.0, height: 5.0, depth: 5.0 }, &fits));
    assert_eq!(b.items.len(), 1);
}

#[test]
fn pack_items_first_fit() {
    let mut p = BinPacking { bins: vec![bin("small", 2.0, 2.0, 2.0), bin("large", 8.0, 8.0, 8.0)] };
    let items = vec![
        BinItem { width: 1.0, height: 1.0, depth: 1.0 },
        BinItem { width: 5.0, height: 5.0, depth: 5.0 },
        BinItem { width: 9.0, height: 1.0, depth: 1.0 },
        BinItem { width: 2.0, height: 2.0, depth: 9.0 },
    ];
    p.pack_items(items, &fits);
    assert_eq!(p.bins[0].items.len(), 2);
    assert_eq!(p.bins[1].items.len(), 1);
    assert_eq!(p.bins[1].items[0].width, 5.0);
}

#[test]
fn compute_leaves_bins_alone() {
    let mut bins = vec![bin("a", 1.0, 1.0, 1.0)];
    compute(&mut bins, &vec![BinItem { width: 1.0, height: 1.0, depth: 1.0 }]);
    assert_eq!(bins.len(), 1);
    assert!(bins[0].items.is_empty());
}

#[test]
fn current_item_is_the_one_at_the_index() {
    let items = vec![Item::new(2.0, 3.0, 4.0, 1), Item::new(5.0, 6.0, 7.0, 1)];
    assert_eq!(get_current_item(&items, 1), Some(items[1].clone()));
    assert_eq!(get_current_item(&items, 0).unwrap().dim, ItemDimension(2.0, 3.0, 4.0));
    assert_eq!(get_current_item(&items, 2), None);
}
