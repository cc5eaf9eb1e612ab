//! How groups share their areas, and what copies of trees keep.

use id_tree::{InsertBehavior, Node, Tree};

use scroll_tiling::actions::{Direction, ResizeEdge};
use scroll_tiling::copies::{duplicate, node_by_key};
use scroll_tiling::data::{resize_all, Data, PlaceholderType};
use scroll_tiling::drops::{clear_transient_tree_state, sweep_drag};
use scroll_tiling::geometry::{Orientation, Rectangle};
use scroll_tiling::neighbours::{has_adjacent_node, has_sibling_node, possible_resizes};
use scroll_tiling::queue::{TreeQueue, WaitState};
use scroll_tiling::surgery::unmap_internal;
use scroll_tiling::tree::TreeNode;
use scroll_tiling::units::Float64;

fn rect(x: i32, y: i32, w: i32, h: i32) -> Rectangle {
    Rectangle::new(x, y, w, h)
}

fn group(sizes: Vec<i32>, last_geometry: Rectangle) -> Data {
    Data::Group {
        orientation: Orientation::Vertical,
        sizes,
        last_geometry,
        pill_indicator: None,
    }
}

fn sizes(data: &Data) -> Vec<i32> {
    match data {
        Data::Group { sizes, .. } => sizes.clone(),
        _ => panic!("only groups have extents"),
    }
}

fn placeholder(key: u64, type_: PlaceholderType) -> Node<TreeNode> {
    Node::new(TreeNode {
        key,
        data: Data::Placeholder { last_geometry: rect(0, 0, 10, 10), type_ },
    })
}

/// A group with the key 100 of placeholders with these keys.
fn row(types: &[(u64, PlaceholderType)]) -> Tree<TreeNode> {
    let mut tree = Tree::new();
    let share = 900 / types.len() as i32;
    let root = tree
        .insert(
            Node::new(TreeNode {
                key: 100,
                data: group(vec![share; types.len()], rect(0, 0, 900, 300)),
            }),
            InsertBehavior::AsRoot,
        )
        .unwrap();
    for (key, type_) in types {
        tree.insert(placeholder(*key, *type_), InsertBehavior::UnderNode(&root))
            .unwrap();
    }
    tree
}

fn keys(tree: &Tree<TreeNode>) -> Vec<u64> {
    match tree.root_node_id() {
        Some(root) => tree
            .traverse_pre_order(root)
            .unwrap()
            .map(|node| node.data().key)
            .collect(),
        None => Vec::new(),
    }
}

#[test]
fn children_keep_their_shares_in_another_area() {
    let mut data = group(vec![300, 200, 100], rect(0, 0, 600, 400));
    data.update_geometry(rect(0, 0, 1_000, 400));
    assert_eq!(sizes(&data), [500, 333, 167]);
    data.update_geometry(rect(5, 5, 100, 90));
    assert_eq!(sizes(&data), [50, 33, 17]);
    assert_eq!(data.geometry(), rect(5, 5, 100, 90));
}

#[test]
fn extents_are_scaled_as_doubles_are() {
    let mut data = group(vec![29, 71], rect(0, 0, 100, 10));
    data.update_geometry(rect(0, 0, 50, 10));
    assert_eq!(sizes(&data), [14, 36]);
    for from in [1, 3, 7, 100, 641, 1_919, 3_840, 2_000_003] {
        for to in [1, 2, 50, 333, 1_080, 7_680, 1_000_001, i32::MAX] {
            for part in 0..40 {
                let len = from / 40 * part + part % 7;
                let mut scaled = vec![len, 0];
                resize_all(&mut scaled, from, to);
                let expected = (f64::from(len) / f64::from(from) * f64::from(to)).round() as i32;
                assert_eq!(scaled[0], expected, "{len} of {from} to {to}");
                let mut turned = vec![len, 0];
                resize_all(&mut turned, -from, to);
                assert_eq!(
                    turned[0],
                    (f64::from(len) / f64::from(-from) * f64::from(to)).round() as i32
                );
            }
        }
    }
    let mut nothing = vec![5, -5, 0, 1];
    resize_all(&mut nothing, 0, 10);
    assert_eq!(nothing[..3], [i32::MAX, i32::MIN, 0]);
}

#[test]
fn a_group_that_was_shorter_is_nearly_what_it_was() {
    let before = vec![97, 1, 303, 199];
    let mut data = group(before.clone(), rect(0, 0, 600, 10));
    data.update_geometry(rect(0, 0, 300, 10));
    data.update_geometry(rect(0, 0, 600, 10));
    let after = sizes(&data);
    assert_eq!(after.iter().sum::<i32>(), 600);
    for (old, new) in before.iter().zip(&after).take(3) {
        assert!((old - new).abs() <= 1);
    }
    assert!((before[3] - after[3]).abs() <= 4);
}

#[test]
fn a_new_child_gets_an_equal_share() {
    let mut data = group(vec![600, 600], rect(0, 0, 1_200, 400));
    data.add_window(1);
    assert_eq!(sizes(&data), [400, 400, 400]);
    data.add_window(3);
    assert_eq!(sizes(&data), [300, 300, 300, 300]);
    assert_eq!(data.len(), 4);
}

#[test]
fn the_others_grow_in_proportion_when_a_child_goes() {
    let mut data = group(vec![600, 400, 200], rect(0, 0, 1_200, 400));
    data.remove_window(2);
    assert_eq!(sizes(&data), [720, 480]);
    data.remove_window(0);
    assert_eq!(sizes(&data), [1_200]);
}

#[test]
fn children_that_change_places_take_their_extents_along() {
    let mut data = group(vec![600, 400, 200], rect(0, 0, 1_200, 400));
    data.swap_windows(0, 2);
    assert_eq!(sizes(&data), [200, 400, 600]);
}

#[test]
fn a_separator_moves_no_further_than_the_minimum() {
    let mut data = group(vec![600, 600], rect(0, 0, 1_200, 400));
    assert!(data.resize_children(0, 1, 100));
    assert_eq!(sizes(&data), [500, 700]);
    assert!(data.resize_children(0, 1, 5_000));
    assert_eq!(sizes(&data).iter().sum::<i32>(), 1_200);
    let least = sizes(&data)[0];
    assert!(data.resize_children(0, 1, 1));
    assert_eq!(sizes(&data)[0], least);
    let mut narrow = group(vec![10, 10], rect(0, 0, 20, 400));
    assert!(!narrow.resize_children(0, 1, 5));
    assert_eq!(sizes(&narrow), [10, 10]);
}

#[test]
fn a_new_group_halves_its_area() {
    let data = Data::new_group(Orientation::Horizontal, rect(0, 0, 300, 401));
    assert_eq!(sizes(&data), [200, 200]);
}

#[test]
fn copies_have_the_same_keys_in_the_same_order() {
    let tree = row(&[
        (1, PlaceholderType::GrabbedWindow),
        (2, PlaceholderType::GrabbedWindow),
        (3, PlaceholderType::DropZone),
    ]);
    let copy = duplicate(&tree);
    assert_eq!(keys(&copy), [100, 1, 2, 3]);
    assert_eq!(keys(&tree), keys(&copy));
    assert!(node_by_key(&copy, 2).is_some());
    assert!(node_by_key(&copy, 7).is_none());
    assert_eq!(keys(&duplicate(&Tree::new())), Vec::<u64>::new());
}

#[test]
fn the_last_of_a_group_takes_its_place() {
    let mut tree = row(&[
        (1, PlaceholderType::GrabbedWindow),
        (2, PlaceholderType::GrabbedWindow),
        (3, PlaceholderType::GrabbedWindow),
    ]);
    let second = node_by_key(&tree, 2).unwrap();
    unmap_internal(&mut tree, &second);
    assert_eq!(keys(&tree), [100, 1, 3]);
    let root = tree.root_node_id().unwrap().clone();
    assert_eq!(sizes(&tree.get(&root).unwrap().data().data), [450, 450]);
    let first = node_by_key(&tree, 1).unwrap();
    unmap_internal(&mut tree, &first);
    assert_eq!(keys(&tree), [3]);
    let third = node_by_key(&tree, 3).unwrap();
    unmap_internal(&mut tree, &third);
    assert_eq!(keys(&tree), Vec::<u64>::new());
}

#[test]
fn the_end_of_a_drag_clears_all_placeholders() {
    let types = [
        (1, PlaceholderType::GrabbedWindow),
        (2, PlaceholderType::DropZone),
        (3, PlaceholderType::DropZone),
    ];
    let mut tree = row(&types);
    assert_eq!(clear_transient_tree_state(&mut tree), Some(1));
    assert_eq!(keys(&tree), [1]);
    let mut tree = row(&types);
    sweep_drag(&mut tree);
    assert_eq!(keys(&tree), Vec::<u64>::new());
}

#[test]
fn neighbours_lie_along_the_orientation_of_their_group() {
    let tree = row(&[
        (1, PlaceholderType::GrabbedWindow),
        (2, PlaceholderType::GrabbedWindow),
        (3, PlaceholderType::GrabbedWindow),
    ]);
    let first = node_by_key(&tree, 1).unwrap();
    let second = node_by_key(&tree, 2).unwrap();
    assert!(!has_adjacent_node(&tree, &first, Direction::Left));
    assert!(has_adjacent_node(&tree, &first, Direction::Right));
    assert!(!has_adjacent_node(&tree, &first, Direction::Down));
    assert!(has_sibling_node(&tree, &second, Direction::Left));
    assert!(!has_sibling_node(&tree, &second, Direction::Up));
    assert_eq!(
        possible_resizes(&tree, &second),
        ResizeEdge { top: false, bottom: false, left: true, right: true }
    );
    assert_eq!(
        possible_resizes(&tree, &first),
        ResizeEdge { top: false, bottom: false, left: false, right: true }
    );
}

#[test]
fn trees_that_are_ready_are_skipped_to_the_last_one() {
    let done = WaitState { processed: true, ready: true };
    let mut queue = TreeQueue::new();
    let pair = |first: u64, second: u64| {
        row(&[(first, PlaceholderType::GrabbedWindow), (second, PlaceholderType::GrabbedWindow)])
    };
    queue.push_tree(pair(1, 2), 100, None);
    queue.push_tree(pair(3, 4), 300, Some(9));
    let newest = keys(&queue.trees[2].tree);
    queue.update_animation_state(0, &vec![done; 2]);
    assert_eq!(queue.trees.len(), 2);
    assert_eq!(queue.trees[1].duration, 300);
    assert_eq!(keys(&queue.trees[1].tree), newest);
    queue.update_animation_state(299, &vec![done]);
    assert_eq!(queue.trees.len(), 2);
    queue.update_animation_state(300, &vec![done]);
    assert_eq!(queue.trees.len(), 1);
    assert_eq!(keys(&queue.trees[0].tree), newest);
}

#[test]
fn numbers_are_read_exactly() {
    let number = |value: f64| Float64 { bits: value.to_bits() };
    assert!(number(1.5).is_finite());
    assert!(!number(f64::NAN).is_finite());
    assert!(!number(f64::INFINITY).is_finite());
    assert_eq!(number(1.5).subpixels(), 3 << 19);
    assert_eq!(number(-2.0).subpixels(), -(2 << 20));
    assert_eq!(number(0.0).subpixels(), 0);
}
