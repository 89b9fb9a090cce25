use gloom_rs::scene_graph::AttachError;
use gloom_rs::scene_graph::Drawable;
use gloom_rs::scene_graph::SceneGraph;
use gloom_rs::scene_graph::Visit;

#[test]
fn new_nodes_are_detached_and_bare() {
    let mut g: SceneGraph<i32> = SceneGraph::new();
    let a = g.create_node(7);
    let b = g.create_node(8);
    assert_eq!((a, b), (0, 1));
    assert_eq!(g.len(), 2);
    assert_eq!(*g.payload(b), 8);
    assert_eq!(g.drawable(a), None);
    assert_eq!(g.parent(a), None);
    assert!(g.children(a).is_empty());
}

#[test]
fn children_keep_insertion_order() {
    let mut g: SceneGraph<()> = SceneGraph::new();
    let p = g.create_node(());
    let c1 = g.create_node(());
    let c2 = g.create_node(());
    let c3 = g.create_node(());
    assert_eq!(g.add_child(p, c2), Ok(()));
    assert_eq!(g.add_child(p, c1), Ok(()));
    assert_eq!(g.add_child(p, c3), Ok(()));
    assert_eq!(g.children(p).clone(), vec![c2, c1, c3]);
    assert_eq!(g.parent(c1), Some(p));
}

#[test]
fn second_parent_is_refused() {
    let mut g: SceneGraph<()> = SceneGraph::new();
    let a = g.create_node(());
    let b = g.create_node(());
    let c = g.create_node(());
    assert_eq!(g.add_child(a, c), Ok(()));
    assert_eq!(g.add_child(b, c), Err(AttachError::AlreadyAttached));
    assert!(g.children(b).is_empty());
    assert_eq!(g.parent(c), Some(a));
}

#[test]
fn cycles_are_refused() {
    let mut g: SceneGraph<()> = SceneGraph::new();
    let a = g.create_node(());
    let b = g.create_node(());
    let c = g.create_node(());
    assert_eq!(g.add_child(a, a), Err(AttachError::WouldCycle));
    assert_eq!(g.add_child(a, b), Ok(()));
    assert_eq!(g.add_child(b, c), Ok(()));
    assert_eq!(g.add_child(c, a), Err(AttachError::WouldCycle));
    assert_eq!(g.parent(a), None);
    assert!(g.children(c).is_empty());
}

#[test]
fn geometry_and_payload_are_set_in_place() {
    let mut g: SceneGraph<(i32, i32)> = SceneGraph::new();
    let a = g.create_node((0, 0));
    g.attach_geometry(a, 5, 9);
    g.set_payload(a, (3, 4));
    assert_eq!(g.drawable(a), Some(Drawable { handle: 5, index_count: 9 }));
    assert!(g.drawable(a).unwrap().is_visible());
    assert_eq!(*g.payload(a), (3, 4));
}

#[test]
fn three_level_chain_links_each_step_to_its_parent() {
    let mut g: SceneGraph<()> = SceneGraph::new();
    let top = g.create_node(());
    let mid = g.create_node(());
    let low = g.create_node(());
    g.add_child(top, mid).unwrap();
    g.add_child(mid, low).unwrap();
    g.attach_geometry(low, 1, 3);
    let plan = g.render_plan(top);
    assert_eq!(
        plan,
        vec![
            Visit { node: top, parent_visit: None, draw: None },
            Visit { node: mid, parent_visit: Some(0), draw: None },
            Visit { node: low, parent_visit: Some(1), draw: Some(Drawable { handle: 1, index_count: 3 }) },
        ]
    );
}

#[test]
fn empty_geometry_draws_nothing_but_children_still_draw() {
    let mut g: SceneGraph<()> = SceneGraph::new();
    let root = g.create_node(());
    let empty = g.create_node(());
    let leaf = g.create_node(());
    g.attach_geometry(root, 1, 6);
    g.attach_geometry(empty, 2, 0);
    g.attach_geometry(leaf, 3, 12);
    g.add_child(root, empty).unwrap();
    g.add_child(empty, leaf).unwrap();
    let plan = g.render_plan(root);
    assert_eq!(plan.len(), 3);
    assert_eq!(plan[1].node, empty);
    assert_eq!(plan[1].draw, None);
    assert_eq!(plan[2].node, leaf);
    assert_eq!(plan[2].parent_visit, Some(1));
    assert_eq!(plan[2].draw, Some(Drawable { handle: 3, index_count: 12 }));
}

#[test]
fn pre_order_visits_subtrees_before_later_siblings() {
    let mut g: SceneGraph<()> = SceneGraph::new();
    let r = g.create_node(());
    let a = g.create_node(());
    let a1 = g.create_node(());
    let b = g.create_node(());
    g.add_child(r, a).unwrap();
    g.add_child(r, b).unwrap();
    g.add_child(a, a1).unwrap();
    let plan = g.render_plan(r);
    let order: Vec<usize> = plan.iter().map(|v| v.node).collect();
    assert_eq!(order, vec![r, a, a1, b]);
    let parents: Vec<Option<usize>> = plan.iter().map(|v| v.parent_visit).collect();
    assert_eq!(parents, vec![None, Some(0), Some(1), Some(0)]);
}

#[test]
fn terrain_vehicle_part_scene_draws_once() {
    let mut g: SceneGraph<()> = SceneGraph::new();
    let terrain = g.create_node(());
    let vehicle = g.create_node(());
    let part = g.create_node(());
    g.attach_geometry(part, 4, 9);
    g.add_child(terrain, vehicle).unwrap();
    g.add_child(vehicle, part).unwrap();
    let plan = g.render_plan(terrain);
    let draws: Vec<&Visit> = plan.iter().filter(|v| v.draw.is_some()).collect();
    assert_eq!(draws.len(), 1);
    assert_eq!(draws[0].node, part);
    assert_eq!(draws[0].draw, Some(Drawable { handle: 4, index_count: 9 }));
    assert_eq!(draws[0].parent_visit, Some(1));
}

#[test]
fn plan_from_inner_node_covers_only_its_subtree() {
    let mut g: SceneGraph<()> = SceneGraph::new();
    let r = g.create_node(());
    let a = g.create_node(());
    let b = g.create_node(());
    g.add_child(r, a).unwrap();
    g.add_child(a, b).unwrap();
    let plan = g.render_plan(a);
    assert_eq!(plan.len(), 2);
    assert_eq!(plan[0], Visit { node: a, parent_visit: None, draw: None });
    assert_eq!(plan[1].node, b);
}
