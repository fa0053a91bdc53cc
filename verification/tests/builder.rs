//! The deterministic tree builder: counts, identities, wiring and the
//! generated visual geometry.

use tree_game::branch_id::BranchId;
use tree_game::rat::Rat;
use tree_game::tree_builder::TreeBuilder;

#[test]
fn depth_one_tree_has_three_branches() {
    let tree = TreeBuilder::new(1).build_tree().unwrap();
    assert_eq!(tree.get_branches().len(), 3);
    assert_eq!(tree.get_root().unwrap().get_id(), BranchId::new(0, 0));
}

#[test]
fn branch_count_follows_the_closed_form() {
    // 3 * (2^depth - 1) branches for every configured depth.
    assert_eq!(TreeBuilder::new(2).build_tree().unwrap().get_branches().len(), 9);
    assert_eq!(TreeBuilder::new(3).build_tree().unwrap().get_branches().len(), 21);
    assert_eq!(TreeBuilder::new(8).build_tree().unwrap().get_branches().len(), 765);
}

#[test]
fn identities_are_unique() {
    let tree = TreeBuilder::new(3).build_tree().unwrap();
    let branches = tree.get_branches();
    for i in 0..branches.len() {
        for j in (i + 1)..branches.len() {
            assert_ne!(branches[i].get_id(), branches[j].get_id());
        }
    }
}

#[test]
fn every_connection_has_a_reciprocal() {
    let tree = TreeBuilder::new(3).build_tree().unwrap();
    let branches = tree.get_branches();
    for b in branches.iter() {
        for c in b.get_connections().iter() {
            let back = tree.get_matching_connection(b.get_id(), c).unwrap();
            assert_eq!(back.get_branch_id(), b.get_id());
        }
    }
}

#[test]
fn root_has_no_left_connection_and_two_right_ones() {
    let tree = TreeBuilder::new(2).build_tree().unwrap();
    let root = tree.get_root().unwrap();
    assert_eq!(root.get_left_connections().len(), 0);
    assert_eq!(root.get_right_connections().len(), 2);
}

#[test]
fn children_connect_back_through_their_left_edge() {
    let tree = TreeBuilder::new(1).build_tree().unwrap();
    let root = tree.get_root().unwrap();
    let rights = root.get_right_connections();
    assert_eq!(rights.len(), 2);
    assert_eq!(rights[0].get_branch_id(), BranchId::new(1, 0));
    assert_eq!(rights[1].get_branch_id(), BranchId::new(2, 0));
    let top = tree.get_branch(BranchId::new(1, 0)).unwrap();
    assert_eq!(top.get_left_connections().len(), 1);
    assert_eq!(top.get_left_connections()[0].get_branch_id(), BranchId::new(0, 0));
}

#[test]
fn trunk_visual_geometry_at_the_root() {
    let tree = TreeBuilder::new(1).build_tree().unwrap();
    let root = tree.get_root().unwrap();
    let v = root.get_visual();
    // Root trunk: width 2 * (1 - (1 - 2*1/2)^1) / 2^1 = 1, length
    // (3/10) * (7/10)^0 / 2 = 3/20, placed at (-1, 0).
    assert!(v.patch.width.value_eq(Rat::from_int(1)));
    assert!(v.patch.pos.x.value_eq(Rat::from_int(-1)));
    assert!(v.patch.pos.y.value_eq(Rat::zero()));
    assert!(v.patch.control.p1.x.value_eq(Rat::new(3, 20)));
    assert!(v.patch.control.p2.x.value_eq(Rat::new(3, 10)));
    assert!(v.patch.control.p2.y.value_eq(Rat::zero()));
}

#[test]
fn child_visual_geometry_curves_away() {
    let tree = TreeBuilder::new(1).build_tree().unwrap();
    let top = tree.get_branch(BranchId::new(1, 0)).unwrap().get_visual();
    // Children at layer zero: width 1/2, curving up to 1/4 at the end,
    // placed at (-1 + 3/10, 1/4).
    assert!(top.patch.width.value_eq(Rat::new(1, 2)));
    assert!(top.patch.pos.x.value_eq(Rat::new(-7, 10)));
    assert!(top.patch.pos.y.value_eq(Rat::new(1, 4)));
    assert!(top.patch.control.p2.y.value_eq(Rat::new(1, 4)));
    let bottom = tree.get_branch(BranchId::new(2, 0)).unwrap().get_visual();
    assert!(bottom.patch.pos.y.value_eq(Rat::new(-1, 4)));
    assert!(bottom.patch.control.p2.y.value_eq(Rat::new(-1, 4)));
}

#[test]
fn builder_reports_its_configuration() {
    let b = TreeBuilder::new(4);
    assert_eq!(b.num_layers, 4);
}
