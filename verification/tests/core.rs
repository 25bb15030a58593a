use engine_core::error::EngineError;
use engine_core::graph::{Graph, Node, NodeKind};
use engine_core::math::{lerp_i64, Color, Transform, Vector3};
use engine_core::pool::Pool;

fn base_node(name: &str) -> Node {
    Node::new(String::from(name), NodeKind::Base)
}

#[test]
fn pool_add_then_get() {
    let mut pool: Pool<u32> = Pool::new();
    let h = pool.add(7);
    assert!(pool.is_valid(h));
    assert_eq!(pool.get(h), Some(&7));
    assert_eq!(pool.alive_count(), 1);
}

#[test]
fn pool_handle_goes_stale_after_remove() {
    let mut pool: Pool<u32> = Pool::new();
    let h = pool.add(1);
    assert!(pool.is_valid(h));
    assert_eq!(pool.remove(h), Some(1));
    assert!(!pool.is_valid(h));
    assert_eq!(pool.get(h), None);
    assert_eq!(pool.remove(h), None);
}

#[test]
fn pool_reused_slot_gets_new_generation() {
    let mut pool: Pool<u32> = Pool::new();
    let first = pool.add(1);
    pool.remove(first);
    let second = pool.add(2);
    // the slot is recycled, but the stale handle stays dead
    assert_eq!(second.index, first.index);
    assert_ne!(second.generation, first.generation);
    assert!(!pool.is_valid(first));
    assert!(pool.is_valid(second));
    assert_eq!(pool.get(second), Some(&2));
    assert_eq!(pool.get(first), None);
}

#[test]
fn graph_parent_and_children_link_up() {
    let mut graph = Graph::new();
    let root = graph.add_node(base_node("root"), None);
    let child = graph.add_node(base_node("child"), Some(root));
    let root_node = graph.get(root).unwrap();
    assert_eq!(root_node.base.children.len(), 1);
    assert_eq!(root_node.base.children[0], child);
    let child_node = graph.get(child).unwrap();
    assert_eq!(child_node.base.parent, Some(root));
}

#[test]
fn reparent_to_descendant_is_rejected() {
    let mut graph = Graph::new();
    let a = graph.add_node(base_node("a"), None);
    let b = graph.add_node(base_node("b"), Some(a));
    let c = graph.add_node(base_node("c"), Some(b));
    // a -> b -> c; moving a under c would close a cycle
    assert_eq!(graph.link_nodes(a, c), Err(EngineError::CycleDetected));
    assert_eq!(graph.link_nodes(a, a), Err(EngineError::CycleDetected));
    // the graph is unchanged
    assert_eq!(graph.get(a).unwrap().base.parent, None);
    assert_eq!(graph.get(b).unwrap().base.parent, Some(a));
    assert_eq!(graph.get(c).unwrap().base.parent, Some(b));
    // a legal reparent still works: move c directly under a
    assert_eq!(graph.link_nodes(c, a), Ok(()));
    assert_eq!(graph.get(c).unwrap().base.parent, Some(a));
}

#[test]
fn link_nodes_rejects_stale_handles() {
    let mut graph = Graph::new();
    let a = graph.add_node(base_node("a"), None);
    let b = graph.add_node(base_node("b"), None);
    graph.remove_node(b).unwrap();
    assert_eq!(graph.link_nodes(a, b), Err(EngineError::InvalidHandle));
    assert_eq!(graph.link_nodes(b, a), Err(EngineError::InvalidHandle));
}

#[test]
fn removing_a_node_removes_its_whole_subtree() {
    let mut graph = Graph::new();
    let root = graph.add_node(base_node("root"), None);
    let limb = graph.add_node(base_node("limb"), Some(root));
    let left = graph.add_node(base_node("left"), Some(limb));
    let right = graph.add_node(base_node("right"), Some(limb));
    let other = graph.add_node(base_node("other"), Some(root));
    assert_eq!(graph.node_count(), 5);
    // removing the limb takes its two leaves with it: exactly 3 nodes
    assert_eq!(graph.remove_node(limb), Ok(()));
    assert_eq!(graph.node_count(), 2);
    assert!(!graph.is_valid(limb));
    assert!(!graph.is_valid(left));
    assert!(!graph.is_valid(right));
    assert!(graph.is_valid(root));
    assert!(graph.is_valid(other));
    assert_eq!(graph.get(root).unwrap().base.children.len(), 1);
    // a second removal of the stale handle reports the stale handle
    assert_eq!(graph.remove_node(limb), Err(EngineError::InvalidHandle));
}

#[test]
fn collect_subtree_lists_descendants_once() {
    let mut graph = Graph::new();
    let root = graph.add_node(base_node("root"), None);
    let a = graph.add_node(base_node("a"), Some(root));
    let b = graph.add_node(base_node("b"), Some(a));
    let _outside = graph.add_node(base_node("outside"), None);
    let subtree = graph.collect_subtree(root);
    assert_eq!(subtree.len(), 3);
    assert!(subtree.contains(&root));
    assert!(subtree.contains(&a));
    assert!(subtree.contains(&b));
}

#[test]
fn color_packs_little_endian_rgba() {
    let c = Color { r: 0x11, g: 0x22, b: 0x33, a: 0x44 };
    assert_eq!(c.to_rgba32(), 0x4433_2211);
    let o = Color::opaque(1, 2, 3);
    assert_eq!(o.a, 255);
    assert_eq!(o.to_rgba32(), 0xFF03_0201);
}

#[test]
fn lerp_interpolates_exactly() {
    assert_eq!(lerp_i64(0, 1000, 0, 4), 0);
    assert_eq!(lerp_i64(0, 1000, 1, 4), 250);
    assert_eq!(lerp_i64(0, 1000, 4, 4), 1000);
    assert_eq!(lerp_i64(1000, 0, 1, 4), 750);
    assert_eq!(lerp_i64(-1000, 1000, 1, 2), 0);
}

#[test]
fn transforms_compose_componentwise() {
    let mut parent = Transform::identity();
    parent.position = Vector3::new(10, 20, 30);
    let mut child = Transform::identity();
    child.position = Vector3::new(1, 2, 3);
    child.scale = Vector3::new(500, 500, 500);
    let world = parent.combine(child);
    assert_eq!(world.position, Vector3::new(11, 22, 33));
    // unit scale times one half is one half
    assert_eq!(world.scale, Vector3::new(500, 500, 500));
}
