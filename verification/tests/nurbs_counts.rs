use breplot::nurbs::{
    check_control_points, infer_degree, rhino_full_knots, valid_hex_color, validate_colors,
    CurveError, KnotFormat,
};

#[test]
fn full_and_rhino_infer_the_same_degree() {
    // Nine full knots and five control points: a cubic.
    let full = [0.0, 0.1, 0.2, 0.3, 0.5, 0.7, 0.8, 0.9, 1.0];
    assert_eq!(infer_degree(KnotFormat::Full, full.len(), 5, None), Ok(3));
    let rhino = &full[1..full.len() - 1];
    assert_eq!(infer_degree(KnotFormat::Rhino, rhino.len(), 5, None), Ok(3));
    assert_eq!(rhino_full_knots(rhino), vec![0.1, 0.1, 0.2, 0.3, 0.5, 0.7, 0.8, 0.9, 0.9]);
    let err = infer_degree(KnotFormat::Full, full.len(), 5, Some(2)).unwrap_err();
    assert_eq!(err, CurveError::DegreeConflict(3));
    assert!(err.message().contains("conflicts"));
    assert_eq!(
        err.message(),
        "degree conflicts with degree 3 inferred from knots and control_points"
    );
}

#[test]
fn explicit_matching_degree_is_accepted() {
    assert_eq!(infer_degree(KnotFormat::Full, 6, 3, Some(2)), Ok(2));
}

#[test]
fn degree_out_of_range_is_refused() {
    assert_eq!(infer_degree(KnotFormat::Full, 4, 4, None), Err(CurveError::DegreeOutOfRange));
    assert_eq!(infer_degree(KnotFormat::Full, 5, 4, None), Err(CurveError::DegreeOutOfRange));
    assert_eq!(infer_degree(KnotFormat::Full, 19, 9, None), Err(CurveError::DegreeOutOfRange));
    assert_eq!(infer_degree(KnotFormat::Full, 18, 9, None), Ok(8));
    assert_eq!(
        CurveError::DegreeOutOfRange.message(),
        "knots and control_points must imply a degree between 1 and 8"
    );
}

#[test]
fn too_few_control_points_is_refused() {
    // Eight full knots over two control points imply degree 5.
    assert_eq!(infer_degree(KnotFormat::Full, 8, 2, None), Err(CurveError::TooFewControlPoints));
    assert_eq!(
        CurveError::TooFewControlPoints.message(),
        "control_points must contain at least degree + 1 points"
    );
}

#[test]
fn rhino_circle_is_quadratic() {
    let knots = [0, 0, 1, 1, 2, 2, 3, 3, 4, 4];
    assert_eq!(infer_degree(KnotFormat::Rhino, knots.len(), 9, None), Ok(2));
    let full = rhino_full_knots(&knots);
    assert_eq!(full, vec![0, 0, 0, 1, 1, 2, 2, 3, 3, 4, 4, 4]);
    assert_eq!(infer_degree(KnotFormat::Full, full.len(), 9, None), Ok(2));
}

#[test]
fn default_knot_format_is_full() {
    assert_eq!(KnotFormat::default(), KnotFormat::Full);
}

#[test]
fn hex_colors() {
    assert!(valid_hex_color("#244b75"));
    assert!(valid_hex_color("#ABCDEF"));
    assert!(!valid_hex_color("244b75"));
    assert!(!valid_hex_color("#244b7"));
    assert!(!valid_hex_color("#244b75f"));
    assert!(!valid_hex_color("#24gb75"));
    assert!(!valid_hex_color("#ééé"));
    assert!(!valid_hex_color(""));
}

#[test]
fn style_colors_are_checked_in_order() {
    assert_eq!(validate_colors("#244b75", "#8795a5", "#df7145"), Ok(()));
    assert_eq!(
        validate_colors("blue", "bad", "#df7145"),
        Err("stroke must be a #RRGGBB color".to_string())
    );
    assert_eq!(
        validate_colors("#244b75", "#8795a", "x"),
        Err("control_polygon_stroke must be a #RRGGBB color".to_string())
    );
    assert_eq!(
        validate_colors("#244b75", "#8795a5", "#df714"),
        Err("control_point_fill must be a #RRGGBB color".to_string())
    );
}

#[test]
fn first_bad_control_point_is_reported() {
    assert_eq!(check_control_points(&[2, 3, 2], &[true, true, true]), Ok(()));
    assert_eq!(check_control_points(&[], &[]), Ok(()));
    assert_eq!(
        check_control_points(&[2, 4, 1], &[true, true, true]),
        Err("control_points[1] must contain 2 or 3 finite numbers".to_string())
    );
    assert_eq!(
        check_control_points(&[2, 2, 2, 3], &[true, true, true, false]),
        Err("control_points[3] must contain 2 or 3 finite numbers".to_string())
    );
}
