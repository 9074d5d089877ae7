use ray_tracer_challenge::csg::{filter_intersections, Operation};
use ray_tracer_challenge::shape_id::ShapeTree;

#[test]
fn evaluating_the_rule_for_a_csg_operation() {
    let exs = vec![
        (Operation::Union, true, true, true, false),
        (Operation::Union, true, true, false, true),
        (Operation::Union, true, false, true, false),
        (Operation::Union, true, false, false, true),
        (Operation::Union, false, true, true, false),
        (Operation::Union, false, true, false, false),
        (Operation::Union, false, false, true, true),
        (Operation::Union, false, false, false, true),
        (Operation::Intersection, true, true, true, true),
        (Operation::Intersection, true, true, false, false),
        (Operation::Intersection, true, false, true, true),
        (Operation::Intersection, true, false, false, false),
        (Operation::Intersection, false, true, true, true),
        (Operation::Intersection, false, true, false, true),
        (Operation::Intersection, false, false, true, false),
        (Operation::Intersection, false, false, false, false),
        (Operation::Difference, true, true, true, false),
        (Operation::Difference, true, true, false, true),
        (Operation::Difference, true, false, true, false),
        (Operation::Difference, true, false, false, true),
        (Operation::Difference, false, true, true, true),
        (Operation::Difference, false, true, false, true),
        (Operation::Difference, false, false, true, false),
        (Operation::Difference, false, false, false, false),
    ];

    for (op, lhit, inl, inr, expected) in exs {
        let result = op.intersection_allowed(lhit, inl, inr);
        assert_eq!(expected, result)
    }
}

#[test]
fn filtering_a_list_of_intersections() {
    let s1: u128 = 1;
    let s2: u128 = 2;
    // Four hits sorted by ascending distance, owned alternately by the
    // left operand (s1) and the right one (s2).
    let xs: Vec<u128> = vec![s1, s2, s1, s2];
    let exs = vec![
        (Operation::Union, 0usize, 3usize),
        (Operation::Intersection, 1, 2),
        (Operation::Difference, 0, 1),
    ];

    for (op, x0, x1) in exs {
        let left = ShapeTree::Leaf(s1);
        let result = filter_intersections(&op, &left, &xs);
        assert_eq!(result.len(), 2);
        assert_eq!(result[0], x0);
        assert_eq!(result[1], x1);
    }
}

#[test]
fn csg_union_keeps_the_outer_surfaces() {
    // A union of two overlapping unit spheres, the second translated by
    // (0, 0, 0.5), hit by a ray along +z from z = -5: the sorted hits lie
    // at t = 4.0 (a), 4.5 (b), 6.0 (a) and 6.5 (b). Only the two outer
    // surfaces survive the union filter: t = 4.0 on a and t = 6.5 on b.
    let a: u128 = 10;
    let b: u128 = 20;
    let ids: Vec<u128> = vec![a, b, a, b];
    let kept = filter_intersections(&Operation::Union, &ShapeTree::Leaf(a), &ids);
    assert_eq!(kept, vec![0, 3]);
}

#[test]
fn filtering_an_empty_list_keeps_nothing() {
    let ids: Vec<u128> = vec![];
    let kept = filter_intersections(&Operation::Difference, &ShapeTree::Leaf(1), &ids);
    assert!(kept.is_empty());
}

#[test]
fn a_group_answers_membership_through_nested_children() {
    let tree = ShapeTree::Group(
        1,
        vec![
            ShapeTree::Leaf(2),
            ShapeTree::Group(3, vec![ShapeTree::Leaf(4), ShapeTree::Leaf(5)]),
        ],
    );
    assert!(tree.contains(2));
    assert!(tree.contains(4));
    assert!(tree.contains(5));
    // A group's own identifier never owns a hit record.
    assert!(!tree.contains(1));
    assert!(!tree.contains(3));
    assert!(!tree.contains(6));
}

#[test]
fn filtering_consults_the_whole_left_subtree() {
    // The left operand is itself a group of two leaves; hits owned by
    // either leaf count as left hits.
    let left = ShapeTree::Group(100, vec![ShapeTree::Leaf(1), ShapeTree::Leaf(2)]);
    let ids: Vec<u128> = vec![1, 3, 2, 3];
    let kept = filter_intersections(&Operation::Union, &left, &ids);
    assert_eq!(kept, vec![0, 3]);
}
