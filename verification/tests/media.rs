use ray_tracer_challenge::media::refraction_media;

#[test]
fn finding_n1_and_n2_at_various_intersections() {
    // Three overlapping glass spheres with refractive indices 1.5 (a),
    // 2.0 (b) and 2.5 (c); a ray along +z meets them in the order
    // a, b, c, b, c, a. For each hit, the indices on both sides of the
    // surface follow from the media the identifiers stand for.
    let a: u128 = 1;
    let b: u128 = 2;
    let c: u128 = 3;
    let ids: Vec<u128> = vec![a, b, c, b, c, a];
    let index_of = |m: Option<u128>| -> f64 {
        match m {
            None => 1.0,
            Some(x) if x == a => 1.5,
            Some(x) if x == b => 2.0,
            Some(x) if x == c => 2.5,
            _ => panic!("unknown medium"),
        }
    };

    let ns = vec![
        (1.0, 1.5),
        (1.5, 2.0),
        (2.0, 2.5),
        (2.5, 2.5),
        (2.5, 1.5),
        (1.5, 1.0),
    ];

    for (i, (n1, n2)) in ns.into_iter().enumerate() {
        let (before, after) = refraction_media(&ids, i);
        assert_eq!(n1, index_of(before));
        assert_eq!(n2, index_of(after));
    }
}

#[test]
fn a_ray_passing_through_a_shape_leaves_its_medium() {
    // Entering and exiting one shape: the second meeting of the same
    // identifier pops it, leaving the vacuum on the far side.
    let ids: Vec<u128> = vec![7, 7];
    assert_eq!((None, Some(7)), refraction_media(&ids, 0));
    assert_eq!((Some(7), None), refraction_media(&ids, 1));
}

#[test]
fn the_first_hit_comes_from_the_vacuum() {
    let ids: Vec<u128> = vec![4, 5, 4, 5];
    let (before, _) = refraction_media(&ids, 0);
    assert_eq!(None, before);
}
