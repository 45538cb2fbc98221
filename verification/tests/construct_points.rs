use breplot::construct::{
    default_degree, greville_parameters, interpolation_points, prepare_points, uniform_knots, wrap_points,
    ConstructError,
};

#[test]
fn default_degree_is_cubic() {
    assert_eq!(default_degree(), 3);
}

#[test]
fn open_controls_keep_every_point() {
    let dims = [2usize; 10];
    assert_eq!(prepare_points(&dims, true, false, 3, false, false), Ok((0..10).collect::<Vec<_>>()));
}

#[test]
fn clamped_uniform_knots_repeat_the_ends() {
    let knots = uniform_knots(10, 3, false);
    assert_eq!(knots.len(), 14);
    assert_eq!(&knots[..4], &[0; 4]);
    assert_eq!(&knots[10..], &[7; 4]);
    assert_eq!(knots, vec![0, 0, 0, 0, 1, 2, 3, 4, 5, 6, 7, 7, 7, 7]);
}

#[test]
fn periodic_uniform_knots_count_up() {
    assert_eq!(uniform_knots(4, 2, true), vec![-2, -1, 0, 1, 2, 3, 4, 5, 6]);
}

#[test]
fn close_appends_the_first_point_once() {
    let dims = [3usize; 5];
    assert_eq!(prepare_points(&dims, true, false, 3, true, false), Ok(vec![0, 1, 2, 3, 4, 0]));
    // Already closed: nothing is appended.
    assert_eq!(prepare_points(&dims, true, true, 3, true, false), Ok(vec![0, 1, 2, 3, 4]));
}

#[test]
fn periodic_drops_one_repeated_endpoint() {
    let dims = [2usize; 6];
    assert_eq!(prepare_points(&dims, true, true, 3, false, true), Ok(vec![0, 1, 2, 3, 4]));
    assert_eq!(prepare_points(&dims, true, false, 3, false, true), Ok(vec![0, 1, 2, 3, 4, 5]));
    // Periodic takes precedence over close.
    assert_eq!(prepare_points(&dims, true, false, 3, true, true), Ok(vec![0, 1, 2, 3, 4, 5]));
}

#[test]
fn invalid_points_are_refused() {
    assert_eq!(prepare_points(&[2, 2, 3, 2], true, false, 2, false, false), Err(ConstructError::InvalidPoints));
    assert_eq!(prepare_points(&[4, 4, 4, 4], true, false, 2, false, false), Err(ConstructError::InvalidPoints));
    assert_eq!(prepare_points(&[2, 2, 2, 2], false, false, 2, false, false), Err(ConstructError::InvalidPoints));
    assert_eq!(prepare_points(&[], true, false, 2, false, false), Err(ConstructError::InvalidPoints));
    assert_eq!(
        ConstructError::InvalidPoints.message(),
        "points must have a consistent dimension of 2 or 3 and finite coordinates"
    );
}

#[test]
fn point_set_degree_out_of_range_is_refused() {
    assert_eq!(prepare_points(&[2; 20], true, false, 0, false, false), Err(ConstructError::DegreeOutOfRange));
    assert_eq!(prepare_points(&[2; 20], true, false, 9, false, false), Err(ConstructError::DegreeOutOfRange));
    assert_eq!(ConstructError::DegreeOutOfRange.message(), "degree must be between 1 and 8");
}

#[test]
fn too_few_points_are_refused() {
    // Three equal points, periodic: one endpoint is dropped, two remain for a cubic.
    assert_eq!(prepare_points(&[2, 2, 2], true, true, 3, false, true), Err(ConstructError::TooFewPoints));
    assert_eq!(prepare_points(&[2, 2, 2, 2], true, true, 3, false, true), Err(ConstructError::TooFewPoints));
    assert_eq!(prepare_points(&[2, 2, 2, 2], true, false, 3, false, true), Ok(vec![0, 1, 2, 3]));
    assert_eq!(
        ConstructError::TooFewPoints.message(),
        "provide at least degree + 1 points (excluding the repeated periodic endpoint)"
    );
}

#[test]
fn periodic_wrap_repeats_the_first_points() {
    assert_eq!(wrap_points(5, 3, true), vec![0, 1, 2, 3, 4, 0, 1, 2]);
    assert_eq!(wrap_points(5, 3, false), vec![0, 1, 2, 3, 4]);
}

#[test]
fn greville_parameters_average_the_knots() {
    let knots = uniform_knots(5, 2, false);
    assert_eq!(knots, vec![0, 0, 0, 1, 2, 3, 3, 3]);
    let p = greville_parameters(5, 2, &knots, false);
    let values: Vec<f64> = p.iter().map(|q| q.numerator as f64 / q.denominator as f64).collect();
    assert_eq!(values, vec![0.0, 0.5, 1.5, 2.5, 3.0]);
}

#[test]
fn periodic_greville_parameters_are_shifted_for_even_degree() {
    let knots = uniform_knots(4, 2, true);
    let p = greville_parameters(4, 2, &knots, true);
    let values: Vec<f64> = p.iter().map(|q| q.numerator as f64 / q.denominator as f64).collect();
    assert_eq!(values, vec![0.5, 1.5, 2.5, 3.5]);
    let knots = uniform_knots(4, 3, true);
    let p = greville_parameters(4, 3, &knots, true);
    assert_eq!(
        p.iter().map(|q| q.numerator as f64 / q.denominator as f64).collect::<Vec<_>>(),
        vec![0.0, 1.0, 2.0, 3.0]
    );
    assert!(p.iter().all(|q| q.denominator > 0));
}

#[test]
fn interpolation_keeps_at_most_512_points() {
    let dims = vec![2usize; 512];
    assert_eq!(interpolation_points(&dims, true, false, 3, false, false).unwrap().len(), 512);
    let dims = vec![2usize; 513];
    assert_eq!(
        interpolation_points(&dims, true, false, 3, false, false),
        Err(ConstructError::TooManyPoints)
    );
    // The repeated periodic endpoint does not count.
    assert_eq!(interpolation_points(&dims, true, true, 3, false, true).unwrap().len(), 512);
    // Closing adds the first point again, and it counts.
    let dims = vec![2usize; 512];
    assert_eq!(
        interpolation_points(&dims, true, false, 3, true, false),
        Err(ConstructError::TooManyPoints)
    );
    assert_eq!(
        ConstructError::TooManyPoints.message(),
        "interpolation supports at most 512 points"
    );
    assert_eq!(
        interpolation_points(&[2, 2], true, false, 3, false, false),
        Err(ConstructError::TooFewPoints)
    );
}

#[test]
fn greville_parameters_strictly_increase() {
    for degree in 1..=8usize {
        for periodic in [false, true] {
            let count = 12;
            let knots = uniform_knots(count, degree, periodic);
            let p = greville_parameters(count, degree, &knots, periodic);
            assert_eq!(p.len(), count);
            for pair in p.windows(2) {
                assert_eq!(pair[0].denominator, pair[1].denominator);
                assert!(pair[0].denominator > 0);
                assert!(pair[0].numerator < pair[1].numerator);
            }
            if !periodic {
                // Open curves: parameters stay in the domain [0, count - degree].
                assert_eq!(p[0].numerator, 0);
                assert_eq!(p[count - 1].numerator, ((count - degree) * degree) as i64);
            }
        }
    }
}
