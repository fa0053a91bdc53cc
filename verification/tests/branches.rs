//! Branch frames, lateral tracking, boundary queries and connection
//! matching.

use tree_game::branch_id::BranchId;
use tree_game::connection::{Boundary, Connection};
use tree_game::error::TreeError;
use tree_game::logical::LogicalSpec;
use tree_game::point::Point2;
use tree_game::rat::Rat;
use tree_game::tree::TreeData;
use tree_game::tree_branch::{BranchSide, BranchType, TreeBranch};

fn trunk(id: BranchId) -> TreeBranch {
    TreeBranch::new(id, Point2::new(Rat::zero(), Rat::zero()), BranchType::Trunk, Rat::new(1, 2), Rat::new(3, 10)).unwrap()
}

fn child(id: BranchId, ty: BranchType) -> TreeBranch {
    TreeBranch::new(id, Point2::new(Rat::zero(), Rat::zero()), ty, Rat::new(1, 2), Rat::new(3, 10)).unwrap()
}

#[test]
fn trunk_frame_is_unit_rectangle() {
    let b = trunk(BranchId::new(0, 0));
    let l = b.get_logical();
    assert!(l.left_width.value_eq(Rat::from_int(1)));
    assert!(l.right_width.value_eq(Rat::from_int(1)));
    assert!(l.length.value_eq(Rat::new(1, 2)));
}

#[test]
fn child_frame_is_trapezoid() {
    let b = child(BranchId::new(1, 0), BranchType::BranchTop);
    let l = b.get_logical();
    assert!(l.left_width.value_eq(Rat::new(1, 2)));
    assert!(l.right_width.value_eq(Rat::from_int(1)));
    assert!(l.length.value_eq(Rat::from_int(1)));
}

#[test]
fn shift_on_rectangle_keeps_lateral_coordinate() {
    let l = LogicalSpec::new_logical_rect(Rat::from_int(1), Rat::new(1, 2));
    let p = l.shift_along_tracking_line(
        Point2::new(Rat::new(1, 4), Rat::new(1, 10)),
        Rat::new(1, 2),
    ).unwrap();
    assert!(p.x.value_eq(Rat::new(3, 4)));
    assert!(p.y.value_eq(Rat::new(1, 10)));
}

#[test]
fn shift_on_trapezoid_tracks_the_taper() {
    let l = LogicalSpec::new_logical_trapezoid(Rat::new(1, 2), Rat::from_int(1), Rat::from_int(1));
    // Starting at the narrow end at half the local half-width.
    let p = l.shift_along_tracking_line(
        Point2::new(Rat::zero(), Rat::new(1, 4)),
        Rat::from_int(1),
    ).unwrap();
    assert!(p.x.value_eq(Rat::from_int(1)));
    assert!(p.y.value_eq(Rat::new(1, 2)));
}

#[test]
fn shift_forward_then_back_restores_the_point() {
    let l = LogicalSpec::new_logical_trapezoid(Rat::new(1, 2), Rat::from_int(1), Rat::from_int(1));
    let start = Point2::new(Rat::new(1, 3), Rat::new(1, 5));
    let dx = Rat::new(2, 5);
    let there = l.shift_along_tracking_line(start, dx).unwrap();
    let back = l.shift_along_tracking_line(there, dx.neg().unwrap()).unwrap();
    assert!(back.x.value_eq(start.x));
    assert!(back.y.value_eq(start.y));
}

#[test]
fn get_connection_picks_the_covering_side_range() {
    let mut t = trunk(BranchId::new(0, 0));
    let mut top = child(BranchId::new(1, 0), BranchType::BranchTop);
    let mut bottom = child(BranchId::new(2, 0), BranchType::BranchBottom);
    top.add_connection(
        Boundary::Left(Rat::from_int(-1), Rat::from_int(1)),
        &mut t,
        Boundary::Right(Rat::from_int(0), Rat::from_int(1)),
    );
    bottom.add_connection(
        Boundary::Left(Rat::from_int(-1), Rat::from_int(1)),
        &mut t,
        Boundary::Right(Rat::from_int(-1), Rat::from_int(0)),
    );
    // The trunk's right half-width is 1/2, so the two ranges scale to
    // [0, 1/2] and [-1/2, 0].
    let up = t.get_connection(Rat::new(1, 4), BranchSide::Right).unwrap().unwrap();
    assert_eq!(up.get_branch_id(), BranchId::new(1, 0));
    let down = t.get_connection(Rat::new(-1, 4), BranchSide::Right).unwrap().unwrap();
    assert_eq!(down.get_branch_id(), BranchId::new(2, 0));
    // Outside both scaled ranges: no connection.
    assert!(t.get_connection(Rat::new(3, 4), BranchSide::Right).unwrap().is_none());
    // No connections on the left side at all.
    assert!(t.get_connection(Rat::zero(), BranchSide::Left).unwrap().is_none());
    assert_eq!(t.get_right_connections().len(), 2);
    assert_eq!(t.get_left_connections().len(), 0);
    assert_eq!(top.get_left_connections().len(), 1);
}

#[test]
fn overlapping_connections_are_a_defect() {
    let mut t = trunk(BranchId::new(0, 0));
    let mut top = child(BranchId::new(1, 0), BranchType::BranchTop);
    let mut bottom = child(BranchId::new(2, 0), BranchType::BranchBottom);
    top.add_connection(
        Boundary::Left(Rat::from_int(-1), Rat::from_int(1)),
        &mut t,
        Boundary::Right(Rat::from_int(0), Rat::from_int(1)),
    );
    bottom.add_connection(
        Boundary::Left(Rat::from_int(-1), Rat::from_int(1)),
        &mut t,
        Boundary::Right(Rat::from_int(-1), Rat::from_int(0)),
    );
    // Both closed ranges contain zero.
    let r = t.get_connection(Rat::zero(), BranchSide::Right);
    assert_eq!(r.unwrap_err(), TreeError::OverlappingConnections);
}

#[test]
fn boundary_interval_is_scaled_by_half_width() {
    let t = trunk(BranchId::new(0, 0));
    let iv = t.get_logical_boundary_interval(
        Boundary::Right(Rat::from_int(-1), Rat::from_int(1)),
    ).unwrap();
    assert!(iv.get_start().value_eq(Rat::new(-1, 2)));
    assert!(iv.get_end().value_eq(Rat::new(1, 2)));
}

#[test]
fn matching_connection_points_back() {
    let mut t = trunk(BranchId::new(0, 0));
    let mut top = child(BranchId::new(1, 0), BranchType::BranchTop);
    top.add_connection(
        Boundary::Left(Rat::from_int(-1), Rat::from_int(1)),
        &mut t,
        Boundary::Right(Rat::from_int(0), Rat::from_int(1)),
    );
    let conn = t.get_connection(Rat::new(1, 4), BranchSide::Right).unwrap().unwrap();
    let tree = TreeData::new(vec![t, top], 0);
    let back = tree.get_matching_connection(BranchId::new(0, 0), &conn).unwrap();
    assert_eq!(back.get_branch_id(), BranchId::new(0, 0));
}

#[test]
fn missing_reciprocal_is_a_defect() {
    let mut t = trunk(BranchId::new(0, 0));
    let top = child(BranchId::new(1, 0), BranchType::BranchTop);
    // One-sided wiring: the trunk points at the child, nothing back.
    t.add_connection(
        Boundary::Right(Rat::from_int(0), Rat::from_int(1)),
        &mut child(BranchId::new(9, 9), BranchType::BranchTop),
        Boundary::Left(Rat::from_int(-1), Rat::from_int(1)),
    );
    let conn = Connection::new(BranchId::new(1, 0), Boundary::Right(Rat::from_int(0), Rat::from_int(1)));
    let tree = TreeData::new(vec![t, top], 0);
    let r = tree.get_matching_connection(BranchId::new(0, 0), &conn);
    assert_eq!(r.unwrap_err(), TreeError::MissingReciprocal);
}

#[test]
fn branch_lookup_failure_is_caller_misuse() {
    let t = trunk(BranchId::new(0, 0));
    let tree = TreeData::new(vec![t], 0);
    assert!(tree.get_branch(BranchId::new(0, 0)).is_ok());
    let r = tree.get_branch(BranchId::new(5, 5));
    assert_eq!(r.unwrap_err(), TreeError::BranchNotFound);
}

#[test]
fn boundary_line_is_vertical_at_the_queried_end() {
    let t = trunk(BranchId::new(0, 0));
    let line = t.get_logical_boundary_line(
        Boundary::Right(Rat::from_int(0), Rat::from_int(1)),
    ).unwrap();
    assert!(line.p0.x.value_eq(Rat::new(1, 2)));
    assert!(line.p1.x.value_eq(Rat::new(1, 2)));
    assert!(line.p0.y.value_eq(Rat::zero()));
    assert!(line.p1.y.value_eq(Rat::new(1, 2)));
}
