//! The cross-branch movement algorithm and the entity-extent query.

use tree_game::branch_id::BranchId;
use tree_game::connection::Boundary;
use tree_game::error::TreeError;
use tree_game::tree::TreeData;
use tree_game::tree_branch::{BranchType, TreeBranch};
use tree_game::movable::{compute_new_position, Movable};
use tree_game::player::Player;
use tree_game::point::Point2;
use tree_game::position::Position;
use tree_game::rat::Rat;
use tree_game::tree_builder::TreeBuilder;

fn pt(xn: i64, xd: i64, yn: i64, yd: i64) -> Point2 {
    Point2::new(Rat::new(xn, xd), Rat::new(yn, yd))
}

#[test]
fn in_range_move_stays_on_the_branch() {
    let tree = TreeBuilder::new(1).build_tree().unwrap();
    let start = Position::new(BranchId::new(0, 0), pt(1, 4, 0, 1));
    let moved = compute_new_position(&tree, start, pt(1, 8, 1, 10)).unwrap();
    assert_eq!(moved.get_branch_id(), BranchId::new(0, 0));
    assert!(moved.get_branch_position().x.value_eq(Rat::new(3, 8)));
    assert!(moved.get_branch_position().y.value_eq(Rat::new(1, 10)));
}

#[test]
fn crossing_right_lands_on_the_owning_child() {
    // Move an entity from inside the trunk past its right end by one
    // trunk length: it lands at the start of the child that owns the
    // lateral position, with the lateral coordinate fitted between the
    // two boundary ranges.
    let tree = TreeBuilder::new(1).build_tree().unwrap();
    let start = Position::new(BranchId::new(0, 0), pt(1, 4, 1, 10));
    let moved = compute_new_position(&tree, start, pt(1, 2, 0, 1)).unwrap();
    assert_eq!(moved.get_branch_id(), BranchId::new(1, 0));
    assert!(moved.get_branch_position().x.value_eq(Rat::zero()));
    // [0, 1/2] fitted into [-1/4, 1/4] carries 1/10 to -3/20.
    assert!(moved.get_branch_position().y.value_eq(Rat::new(-3, 20)));
}

#[test]
fn crossing_right_into_the_bottom_child() {
    let tree = TreeBuilder::new(1).build_tree().unwrap();
    let start = Position::new(BranchId::new(0, 0), pt(1, 4, -1, 10));
    let moved = compute_new_position(&tree, start, pt(1, 2, 0, 1)).unwrap();
    assert_eq!(moved.get_branch_id(), BranchId::new(2, 0));
    assert!(moved.get_branch_position().x.value_eq(Rat::zero()));
    // [-1/2, 0] fitted into [-1/4, 1/4] carries -1/10 to 3/20.
    assert!(moved.get_branch_position().y.value_eq(Rat::new(3, 20)));
}

#[test]
fn crossing_left_lands_at_the_far_end_of_the_parent() {
    // From the top child back onto the trunk: a left crossing enters the
    // trunk at x = length.
    let tree = TreeBuilder::new(1).build_tree().unwrap();
    let start = Position::new(BranchId::new(1, 0), pt(1, 10, -3, 20));
    let moved = compute_new_position(&tree, start, pt(-1, 5, 0, 1)).unwrap();
    assert_eq!(moved.get_branch_id(), BranchId::new(0, 0));
    assert!(moved.get_branch_position().x.value_eq(Rat::new(1, 2)));
    // Tracking the taper turns -3/20 into -27/220 at the boundary, and
    // [-1/4, 1/4] fitted into [0, 1/2] carries that to 7/55.
    assert!(moved.get_branch_position().y.value_eq(Rat::new(7, 55)));
}

#[test]
fn dead_end_clamps_x_and_keeps_branch() {
    // The root trunk has no left connection: moving off its left end
    // clamps the along-branch coordinate at zero, on the same branch,
    // with the lateral coordinate unchanged from the tracking step.
    let tree = TreeBuilder::new(1).build_tree().unwrap();
    let start = Position::new(BranchId::new(0, 0), pt(0, 1, 0, 1));
    let moved = compute_new_position(&tree, start, pt(-1, 1, 0, 1)).unwrap();
    assert_eq!(moved.get_branch_id(), BranchId::new(0, 0));
    assert!(moved.get_branch_position().x.value_eq(Rat::zero()));
    assert!(moved.get_branch_position().y.value_eq(Rat::zero()));
}

#[test]
fn dead_end_leaves_lateral_coordinate_unbounded() {
    // The clamp bounds only x; a lateral displacement survives even past
    // the branch's physical half-width.
    let tree = TreeBuilder::new(1).build_tree().unwrap();
    let start = Position::new(BranchId::new(0, 0), pt(0, 1, 0, 1));
    let moved = compute_new_position(&tree, start, pt(-1, 1, 5, 1)).unwrap();
    assert_eq!(moved.get_branch_id(), BranchId::new(0, 0));
    assert!(moved.get_branch_position().x.value_eq(Rat::zero()));
    assert!(moved.get_branch_position().y.value_eq(Rat::from_int(5)));
}

#[test]
fn moving_on_a_missing_branch_is_caller_misuse() {
    let tree = TreeBuilder::new(1).build_tree().unwrap();
    let start = Position::new(BranchId::new(7, 7), pt(0, 1, 0, 1));
    let r = compute_new_position(&tree, start, pt(1, 1, 0, 1));
    assert_eq!(r.unwrap_err(), TreeError::BranchNotFound);
}

#[test]
fn unrepresentable_coordinates_are_reported() {
    let tree = TreeBuilder::new(1).build_tree().unwrap();
    let start = Position::new(BranchId::new(0, 0), pt(i64::MAX, 1, 0, 1));
    let r = compute_new_position(&tree, start, pt(1, 1, 0, 1));
    assert_eq!(r.unwrap_err(), TreeError::NumericOverflow);
}

#[test]
fn player_moves_through_the_trait() {
    let tree = TreeBuilder::new(1).build_tree().unwrap();
    let mut player = Player::new(
        Position::new(BranchId::new(0, 0), pt(1, 4, 1, 10)),
        Rat::new(1, 10),
        Rat::new(1, 10),
    );
    player.change_position(&tree, pt(1, 2, 0, 1)).unwrap();
    let p = player.get_position();
    assert_eq!(p.get_branch_id(), BranchId::new(1, 0));
    assert!(p.get_branch_position().x.value_eq(Rat::zero()));
    assert!(p.get_branch_position().y.value_eq(Rat::new(-3, 20)));
}

#[test]
fn failed_move_leaves_the_player_in_place() {
    let tree = TreeBuilder::new(1).build_tree().unwrap();
    let mut player = Player::new(
        Position::new(BranchId::new(9, 9), pt(0, 1, 0, 1)),
        Rat::new(1, 10),
        Rat::new(1, 10),
    );
    let r = player.change_position(&tree, pt(1, 1, 0, 1));
    assert_eq!(r.unwrap_err(), TreeError::BranchNotFound);
    assert_eq!(player.get_position().get_branch_id(), BranchId::new(9, 9));
}

#[test]
fn crossing_back_refits_the_lateral_coordinate() {
    // Crossing onto the child and stepping back re-enters the trunk at
    // its right end; the lateral coordinate first tracks the child's
    // taper and is then fitted back, so it does not return exactly.
    let tree = TreeBuilder::new(1).build_tree().unwrap();
    let start = Position::new(BranchId::new(0, 0), pt(1, 4, 1, 10));
    let there = compute_new_position(&tree, start, pt(1, 2, 0, 1)).unwrap();
    assert_eq!(there.get_branch_id(), BranchId::new(1, 0));
    let back = compute_new_position(&tree, there, pt(-1, 4, 0, 1)).unwrap();
    assert_eq!(back.get_branch_id(), BranchId::new(0, 0));
    assert!(back.get_branch_position().x.value_eq(Rat::new(1, 2)));
    assert!(back.get_branch_position().y.value_eq(Rat::new(11, 80)));
}

#[test]
fn extent_spills_onto_the_neighboring_branch() {
    let tree = TreeBuilder::new(1).build_tree().unwrap();
    let player = Player::new(
        Position::new(BranchId::new(0, 0), pt(1, 4, 1, 10)),
        Rat::new(3, 5),
        Rat::new(1, 10),
    );
    let parts = player.get_branch_objects(&tree).unwrap();
    assert_eq!(parts.len(), 2);
    assert_eq!(parts[0].branch_id, BranchId::new(0, 0));
    assert!(parts[0].pos.x.value_eq(Rat::new(1, 4)));
    assert!(parts[0].length.value_eq(Rat::new(3, 5)));
    // The right half of the extent pokes 1/20 past the trunk's right
    // boundary onto the top child, half the overhang in from its start,
    // with the lateral coordinate fitted between the boundary ranges.
    assert_eq!(parts[1].branch_id, BranchId::new(1, 0));
    assert!(parts[1].length.value_eq(Rat::new(1, 20)));
    assert!(parts[1].pos.x.value_eq(Rat::new(1, 40)));
    assert!(parts[1].pos.y.value_eq(Rat::new(-3, 20)));
}

#[test]
fn extent_within_the_branch_has_one_part() {
    let tree = TreeBuilder::new(1).build_tree().unwrap();
    let player = Player::new(
        Position::new(BranchId::new(0, 0), pt(1, 4, 1, 10)),
        Rat::new(1, 10),
        Rat::new(1, 10),
    );
    let parts = player.get_branch_objects(&tree).unwrap();
    assert_eq!(parts.len(), 1);
}

#[test]
fn extent_spills_left_onto_the_parent() {
    // A player near the start of the top child reaches back over the
    // child's left boundary onto the trunk: the spilled rectangle sits
    // half the overhang in from the trunk's far end.
    let tree = TreeBuilder::new(1).build_tree().unwrap();
    let player = Player::new(
        Position::new(BranchId::new(1, 0), pt(1, 20, -3, 20)),
        Rat::new(1, 5),
        Rat::new(1, 10),
    );
    let parts = player.get_branch_objects(&tree).unwrap();
    assert_eq!(parts.len(), 2);
    assert_eq!(parts[1].branch_id, BranchId::new(0, 0));
    assert!(parts[1].length.value_eq(Rat::new(1, 20)));
    assert!(parts[1].pos.x.value_eq(Rat::new(19, 40)));
    assert!(parts[1].pos.y.value_eq(Rat::new(1, 10)));
}

#[test]
fn zero_span_boundary_is_a_defect() {
    // A connection whose declared range has zero span cannot be fitted
    // across; crossing it reports the construction defect.
    let zero = Rat::zero();
    let origin = Point2::new(zero, zero);
    let mut a = TreeBranch::new(
        BranchId::new(0, 0),
        origin,
        BranchType::Trunk,
        Rat::new(1, 2),
        Rat::new(3, 10),
    ).unwrap();
    let mut b = TreeBranch::new(
        BranchId::new(1, 0),
        origin,
        BranchType::BranchTop,
        Rat::new(1, 2),
        Rat::new(3, 10),
    ).unwrap();
    b.add_connection(Boundary::Left(zero, zero), &mut a, Boundary::Right(zero, zero));
    let tree = TreeData::new(vec![a, b], 0);
    let start = Position::new(BranchId::new(0, 0), pt(1, 4, 0, 1));
    let r = compute_new_position(&tree, start, pt(1, 2, 0, 1));
    assert_eq!(r.unwrap_err(), TreeError::DegenerateBoundary);
}
