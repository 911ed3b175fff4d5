use cgmath::{InnerSpace, Point3, Vector3};
use collision::{Aabb3, Continuous, Ray3};
use octree::geometry::{Aabb, Point};
use octree::item::Item;
use octree::traversal::{calculate_goodness, DebugItem, RayIntersection};
use octree::tree::Octree;

fn bb(x0: i32, y0: i32, z0: i32, x1: i32, y1: i32, z1: i32) -> Aabb {
    Aabb::new(Point::new(x0, y0, z0), Point::new(x1, y1, z1))
}

fn world() -> Aabb {
    bb(0, 0, 0, 10, 10, 10)
}

fn to_aabb3(b: &Aabb) -> Aabb3<f32> {
    Aabb3::new(
        Point3::new(b.min.x as f32, b.min.y as f32, b.min.z as f32),
        Point3::new(b.max.x as f32, b.max.y as f32, b.max.z as f32),
    )
}

fn ray_hits(oc: &Octree, origin: Point3<f32>, dir: Vector3<f32>) -> Vec<RayIntersection<Point3<f32>>> {
    let ray = Ray3::new(origin, dir.normalize());
    oc.ray_intersections(&|b: &Aabb| to_aabb3(b).intersection(&ray))
}

fn node_records(oc: &Octree) -> usize {
    oc.debug_items().iter().filter(|d| matches!(d, DebugItem::Node { .. })).count()
}

#[test]
fn should_insert_if_not_fits_inside_world() {
    let mut oc = Octree::with_branch_size(1, world());
    oc.update(1, bb(0, 0, 0, 30, 30, 30));

    let list = oc.iterate_all();
    assert_eq!(list.len(), 1);
    assert_eq!(list[0].id, 1);
}

#[test]
fn should_insert_if_fits_inside_world() {
    let mut oc = Octree::with_branch_size(1, world());
    oc.update(1, bb(1, 1, 1, 5, 5, 5));

    let list = oc.iterate_all();
    assert_eq!(list.len(), 1);
    assert_eq!(list[0].id, 1);
}

#[test]
fn should_insert_and_subdivide() {
    let mut oc = Octree::with_branch_size(1, world());
    oc.update(1, bb(2, 2, 2, 5, 5, 5));
    oc.update(2, bb(1, 1, 1, 2, 2, 2));

    let list = oc.iterate_all();
    assert_eq!(list.len(), 2);

    assert_eq!(2, ray_hits(&oc, Point3::new(0.0, 0.0, 0.0), Vector3::new(1.0, 1.0, 1.0)).len());
    assert_eq!(0, ray_hits(&oc, Point3::new(0.0, 0.0, 0.0), Vector3::new(1.0, 0.0, 0.0)).len());

    let hits = ray_hits(&oc, Point3::new(1.5, 1.5, 0.0), Vector3::new(0.0, 0.0, 1.0));
    assert_eq!(1, hits.len());
    assert_eq!(hits[0].item().id, 2);

    let hits = ray_hits(&oc, Point3::new(3.0, 3.0, 0.0), Vector3::new(0.001, 0.001, 1.0));
    assert_eq!(1, hits.len());
    assert_eq!(hits[0].item().id, 1);
}

#[test]
fn should_be_able_to_remove_all() {
    let mut oc = Octree::with_branch_size(1, world());
    oc.update(1, bb(2, 2, 2, 5, 5, 5));
    oc.update(2, bb(1, 1, 1, 2, 2, 2));

    assert!(oc.root().is_branch());

    assert_eq!(oc.remove(3), None);
    assert_eq!(oc.remove(2), Some(Item { id: 2, bb: bb(1, 1, 1, 2, 2, 2) }));

    let list = oc.iterate_all();
    assert_eq!(1, list.len());
    assert_eq!(list[0].id, 1);

    assert_eq!(oc.remove(1), Some(Item { id: 1, bb: bb(2, 2, 2, 5, 5, 5) }));

    assert!(!oc.root().is_branch());
    assert!(oc.root().leafs.is_empty());
    assert_eq!(oc.node_count(), 1);
}

#[test]
fn items_moved_outside_of_the_world_should_be_moved_to_root_node() {
    let mut oc = Octree::with_branch_size(1, world());
    oc.update(1, bb(2, 2, 2, 5, 5, 5));
    oc.update(2, bb(1, 1, 1, 2, 2, 2));
    oc.update(2, bb(-2, -2, -2, -1, -1, -1));

    let list = oc.iterate_all();
    assert_eq!(2, list.len());
    assert!(!oc.root().is_branch());
    assert_eq!(2, oc.root().leafs.len());

    oc.update(1, bb(-2, -2, -2, -1, -1, -1));

    let list = oc.iterate_all();
    assert_eq!(2, list.len());
    assert!(!oc.root().is_branch());
    assert_eq!(2, oc.root().leafs.len());

    assert_eq!(list[0].bb, bb(-2, -2, -2, -1, -1, -1));
    assert_eq!(list[1].bb, bb(-2, -2, -2, -1, -1, -1));
}

#[test]
fn items_moved_outside_the_world_should_not_create_subnodes() {
    let mut oc = Octree::with_branch_size(1, world());
    oc.update(1, bb(-2, -2, -2, -1, -1, -1));
    oc.update(2, bb(-2, -2, -2, -1, -1, -1));
    oc.update(1, bb(-3, -2, -2, -1, -1, -1));

    let list = oc.iterate_all();
    assert_eq!(2, list.len());
    assert!(!oc.root().is_branch());
}

#[test]
fn items_moved_into_the_world_should_be_moved_to_subnodes() {
    let mut oc = Octree::with_branch_size(1, world());
    oc.update(1, bb(-2, -2, -2, -1, -1, -1));
    oc.update(2, bb(-2, -2, -2, -1, -1, -1));

    let list = oc.iterate_all();
    assert_eq!(2, list.len());
    assert!(!oc.root().is_branch());

    oc.update(2, bb(1, 1, 1, 2, 2, 2));
    assert_eq!(2, list.len());
    assert!(oc.root().is_branch());

    oc.update(1, bb(1, 1, 1, 2, 2, 2));
    assert_eq!(2, list.len());
    assert!(oc.root().is_branch());

    oc.remove(1);
    oc.remove(2);

    let list = oc.iterate_all();
    assert_eq!(0, list.len());
    assert!(!oc.root().is_branch());
}

#[test]
fn iterate_all_lists_live_items_with_latest_boxes() {
    let mut oc = Octree::with_branch_size(2, world());
    for id in 0..20u64 {
        let c = (id % 9) as i32;
        oc.update(id, bb(c, c, c, c + 1, c + 1, c + 1));
    }
    for id in (0..20u64).step_by(3) {
        assert!(oc.remove(id).is_some());
    }
    oc.update(4, bb(7, 7, 7, 8, 8, 8));
    oc.update(30, bb(-5, 0, 0, -4, 1, 1));
    let mut ids: Vec<u64> = oc.iterate_all().iter().map(|i| i.id).collect();
    ids.sort();
    let mut expected: Vec<u64> = (0..20u64).filter(|i| i % 3 != 0).collect();
    expected.push(30);
    assert_eq!(ids, expected);
    let four = oc.iterate_all().into_iter().find(|i| i.id == 4).unwrap();
    assert_eq!(four.bb, bb(7, 7, 7, 8, 8, 8));
}

#[test]
fn update_then_listing_holds_the_new_box() {
    let mut oc = Octree::new(world());
    oc.update(9, bb(1, 2, 3, 4, 5, 6));
    oc.update(9, bb(6, 6, 6, 9, 9, 9));
    let list = oc.iterate_all();
    assert_eq!(list, vec![Item { id: 9, bb: bb(6, 6, 6, 9, 9, 9) }]);
    assert_eq!(list[0].bb, bb(6, 6, 6, 9, 9, 9));
}

#[test]
fn items_are_equal_by_identifier() {
    assert_eq!(Item { id: 3, bb: bb(0, 0, 0, 1, 1, 1) }, Item { id: 3, bb: bb(2, 2, 2, 4, 4, 4) });
    assert_ne!(Item { id: 3, bb: bb(0, 0, 0, 1, 1, 1) }, Item { id: 4, bb: bb(0, 0, 0, 1, 1, 1) });
}

#[test]
fn removing_twice_gives_item_then_nothing() {
    let mut oc = Octree::new(world());
    oc.update(5, bb(1, 1, 1, 2, 2, 2));
    let first = oc.remove(5).unwrap();
    assert_eq!(first.id, 5);
    assert_eq!(first.bb, bb(1, 1, 1, 2, 2, 2));
    assert_eq!(oc.remove(5), None);
}

#[test]
fn removing_every_item_of_a_divided_subtree_collapses_the_root() {
    let mut oc = Octree::with_branch_size(1, world());
    oc.update(1, bb(1, 1, 1, 2, 2, 2));
    oc.update(2, bb(6, 6, 6, 7, 7, 7));
    oc.update(3, bb(7, 1, 1, 8, 2, 2));
    assert!(oc.root().is_branch());
    assert!(node_records(&oc) > 0);
    for id in 1..4u64 {
        oc.remove(id);
    }
    assert!(!oc.root().is_branch());
    assert_eq!(node_records(&oc), 0);
    assert!(oc.debug_items().is_empty());
    assert_eq!(oc.node_count(), 1);
}

#[test]
fn box_outside_the_world_stays_at_the_root_until_moved_in() {
    let mut oc = Octree::with_branch_size(1, world());
    oc.update(1, bb(20, 20, 20, 21, 21, 21));
    oc.update(2, bb(-3, 0, 0, -1, 1, 1));
    assert!(!oc.root().is_branch());
    assert_eq!(oc.root().leafs.len(), 2);
    assert_eq!(oc.iterate_all().len(), 2);

    oc.update(1, bb(1, 1, 1, 2, 2, 2));
    assert!(oc.root().is_branch());
    assert_eq!(oc.root().leafs.len(), 1);
    assert_eq!(oc.root().leafs[0].id, 2);
}

#[test]
fn straddling_item_stays_with_its_covering_node() {
    let mut oc = Octree::with_branch_size(1, world());
    oc.update(1, bb(1, 1, 1, 2, 2, 2));
    oc.update(2, bb(4, 4, 4, 6, 6, 6));
    oc.update(3, bb(6, 6, 6, 7, 7, 7));
    assert!(oc.root().is_branch());
    let at_root: Vec<u64> = oc.root().leafs.iter().map(|i| i.id).collect();
    assert_eq!(at_root, vec![2]);
    oc.update(4, bb(3, 3, 3, 7, 7, 7));
    let mut at_root: Vec<u64> = oc.root().leafs.iter().map(|i| i.id).collect();
    at_root.sort();
    assert_eq!(at_root, vec![2, 4]);
    assert_eq!(oc.iterate_all().len(), 4);
}

#[test]
fn item_flat_on_a_splitting_plane_stays_with_the_node() {
    let mut oc = Octree::with_branch_size(1, world());
    oc.update(1, bb(1, 1, 1, 2, 2, 2));
    oc.update(2, bb(5, 1, 1, 5, 2, 2));
    assert_eq!(oc.root().leafs.len(), 2);
    assert!(!oc.root().is_branch());
    let w = world();
    let c = w.center();
    assert_eq!(c, Point::new(5, 5, 5));
    assert_eq!(w.select_octant(&c, &bb(5, 1, 1, 5, 2, 2)), None);
    assert_eq!(w.select_octant(&c, &bb(5, 1, 1, 6, 2, 2)), Some(1));
    assert_eq!(w.select_octant(&c, &bb(3, 6, 6, 4, 7, 8)), Some(6));
    assert_eq!(w.select_octant(&c, &bb(3, 6, 6, 5, 7, 8)), None);
    assert_eq!(w.select_octant(&c, &bb(5, 5, 5, 6, 6, 6)), Some(7));
    assert_eq!(w.select_octant(&c, &bb(4, 4, 4, 6, 5, 5)), None);
    assert_eq!(w.select_octant(&c, &bb(4, 4, 4, 5, 5, 11)), None);
}

#[test]
fn octants_partition_the_box() {
    let w = bb(-4, 0, 2, 5, 7, 2);
    assert_eq!(w.center(), Point::new(0, 3, 2));
    assert_eq!(w.octant_box(0), bb(-4, 0, 2, 0, 3, 2));
    assert_eq!(w.octant_box(7), bb(0, 3, 2, 5, 7, 2));
    assert_eq!(w.octant_box(5), bb(0, 0, 2, 5, 3, 2));
}

#[test]
fn debug_items_report_depth_and_goodness() {
    let mut oc = Octree::with_branch_size(1, world());
    oc.update(1, bb(2, 2, 2, 5, 5, 5));
    oc.update(2, bb(1, 1, 1, 2, 2, 2));
    oc.update(3, bb(3, 3, 3, 7, 7, 7));
    let recs = oc.debug_items();
    assert_eq!(recs[0], DebugItem::Item {
        item: Item { id: 1, bb: bb(2, 2, 2, 5, 5, 5) },
        depth: 1,
        goodness: 0,
        in_branch: true,
    });
    match recs[1] {
        DebugItem::Item { item, depth, in_branch, .. } => {
            assert_eq!((item.id, depth, in_branch), (3, 1, true));
        }
        DebugItem::Node { .. } => panic!("expected an item record"),
    }
    assert_eq!(recs[2], DebugItem::Node { bb: bb(0, 0, 0, 5, 5, 5), depth: 2, goodness: 1, is_branch: false });
    match recs[3] {
        DebugItem::Item { item, depth, goodness, in_branch } => {
            assert_eq!((item.id, depth, goodness, in_branch), (2, 2, 1, false));
        }
        DebugItem::Node { .. } => panic!("expected an item record"),
    }
    let nodes = recs.iter().filter(|d| matches!(d, DebugItem::Node { .. })).count();
    assert_eq!(nodes, 1);
    assert_eq!(oc.iterate_all().len(), 3);
}

#[test]
fn goodness_is_clamped_depth_in_ninths() {
    assert_eq!(calculate_goodness(0), 0);
    assert_eq!(calculate_goodness(1), 0);
    assert_eq!(calculate_goodness(4), 3);
    assert_eq!(calculate_goodness(10), 9);
    assert_eq!(calculate_goodness(25), 9);
}

#[test]
fn boxes_are_normalized_and_contain() {
    let b = Aabb::new(Point::new(5, 0, 9), Point::new(1, 4, 2));
    assert_eq!(b, bb(1, 0, 2, 5, 4, 9));
    assert!(b.contains(&bb(1, 1, 2, 5, 2, 3)));
    assert!(!b.contains(&bb(0, 1, 2, 5, 2, 3)));
    assert!(b.has_volume());
    assert!(!bb(0, 0, 0, 0, 3, 3).has_volume());
}

#[test]
fn default_branch_size_is_sixteen() {
    let mut oc = Octree::new(world());
    assert_eq!(oc.branch_size(), 16);
    for id in 0..16u64 {
        oc.update(id, bb(1, 1, 1, 2, 2, 2));
    }
    assert!(!oc.root().is_branch());
    oc.update(16, bb(1, 1, 1, 2, 2, 2));
    assert!(oc.root().is_branch());
    assert_eq!(oc.iterate_all().len(), 17);
}

#[test]
fn identical_points_stop_at_unit_cells() {
    let mut oc = Octree::with_branch_size(1, world());
    oc.update(1, bb(9, 9, 9, 9, 9, 9));
    oc.update(2, bb(9, 9, 9, 9, 9, 9));
    oc.update(3, bb(9, 9, 9, 9, 9, 9));
    assert_eq!(oc.iterate_all().len(), 3);
    assert!(oc.root().is_branch());
}

fn overlaps(a: &Aabb, b: &Aabb) -> bool {
    a.min.x <= b.max.x && b.min.x <= a.max.x && a.min.y <= b.max.y && b.min.y <= a.max.y
        && a.min.z <= b.max.z && b.min.z <= a.max.z
}

#[test]
fn overlap_query_finds_exactly_the_overlapping_items() {
    let mut oc = Octree::with_branch_size(2, bb(0, 0, 0, 64, 64, 64));
    let mut boxes = Vec::new();
    for id in 0..120u64 {
        let x = ((id * 37) % 60) as i32;
        let y = ((id * 11) % 61) as i32;
        let z = ((id * 23) % 59) as i32;
        let w = (id % 4) as i32;
        let b = bb(x, y, z, x + w, y + w, z + w);
        boxes.push((id, b));
        oc.update(id, b);
    }
    oc.update(500, bb(-10, -10, -10, -5, -5, -5));
    boxes.push((500, bb(-10, -10, -10, -5, -5, -5)));
    let query = bb(-6, 10, 10, 30, 40, 35);
    let hits = oc.ray_intersections(&|b: &Aabb| if overlaps(b, &query) { Some(()) } else { None });
    let mut got: Vec<u64> = hits.iter().map(|h| h.item().id).collect();
    got.sort();
    let len = got.len();
    got.dedup();
    assert_eq!(len, got.len());
    let mut expected: Vec<u64> = boxes.iter().filter(|(_, b)| overlaps(b, &query)).map(|(id, _)| *id).collect();
    expected.sort();
    assert_eq!(got, expected);
    assert!(!expected.is_empty());
}

#[test]
fn debug_items_show_every_item_once() {
    let mut oc = Octree::with_branch_size(1, world());
    for id in 0..30u64 {
        let c = (id % 10) as i32;
        oc.update(id, bb(c, (id % 7) as i32, 1, c, (id % 7) as i32 + 1, 2));
    }
    let mut ids: Vec<u64> = oc
        .debug_items()
        .iter()
        .filter_map(|d| match d {
            DebugItem::Item { item, .. } => Some(item.id),
            DebugItem::Node { .. } => None,
        })
        .collect();
    ids.sort();
    assert_eq!(ids, (0..30u64).collect::<Vec<u64>>());
    let order: Vec<u64> = oc.iterate_all().iter().map(|i| i.id).collect();
    let debug_order: Vec<u64> = oc
        .debug_items()
        .iter()
        .filter_map(|d| match d {
            DebugItem::Item { item, .. } => Some(item.id),
            DebugItem::Node { .. } => None,
        })
        .collect();
    assert_eq!(order, debug_order);
}
