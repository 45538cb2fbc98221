use breplot::step::{
    normalize_optional_axis_directions, parse_entity, scan_directions, AxisDirection,
    AxisReference, StepError,
};

fn perpendicular(id: u64, text: &str) -> AxisDirection {
    AxisDirection { id, reference: AxisReference::Perpendicular(text.to_string()) }
}

const UNIT_X: &str = "1.00000000000000000E0,0.00000000000000000E0,0.00000000000000000E0";

#[test]
fn fills_optional_reference_without_changing_given_one() {
    let src = "DATA;\n#1=DIRECTION('',(0.,1.,0.));\n#2=AXIS2_PLACEMENT_3D('',#5,#1,$);\n#3=AXIS2_PLACEMENT_3D('',#5,#1,#1);\nENDSEC;\n";
    let scan = scan_directions(src);
    assert!(!scan.malformed);
    assert_eq!(scan.records.len(), 1);
    assert_eq!(scan.records[0].id, 1);
    assert_eq!(scan.records[0].coordinates, "0.,1.,0.");
    // The unit vector perpendicular to (0, 1, 0) that the caller computes.
    let axes = vec![perpendicular(1, UNIT_X)];
    let (out, count) = normalize_optional_axis_directions(src, &axes).unwrap();
    assert_eq!(count, 1);
    assert!(out.contains("#2=AXIS2_PLACEMENT_3D('',#5,#1,#4);"));
    assert!(out.contains(
        "#4=DIRECTION('',(1.00000000000000000E0,0.00000000000000000E0,0.00000000000000000E0));"
    ));
    assert!(out.contains("#3=AXIS2_PLACEMENT_3D('',#5,#1,#1);"));
}

#[test]
fn new_direction_goes_before_endsec() {
    let src = "DATA;\n#1=DIRECTION('',(0.,1.,0.));\n#2=AXIS2_PLACEMENT_3D('',#5,#1,$);\nENDSEC;\nEND-ISO-10303-21;\n";
    let axes = vec![perpendicular(1, UNIT_X)];
    let (out, count) = normalize_optional_axis_directions(src, &axes).unwrap();
    assert_eq!(count, 1);
    assert_eq!(
        out,
        "DATA;\n#1=DIRECTION('',(0.,1.,0.));\n#2=AXIS2_PLACEMENT_3D('',#5,#1,#3);\n#3=DIRECTION('',(1.00000000000000000E0,0.00000000000000000E0,0.00000000000000000E0));\nENDSEC;\nEND-ISO-10303-21;\n"
    );
}

#[test]
fn ids_count_up_from_the_largest_entity() {
    let src = "DATA;\n#10=DIRECTION('',(0.,0.,1.));\n#2=AXIS2_PLACEMENT_3D('',#5,#10,$);\n#3=AXIS2_PLACEMENT_3D('',#5,#10,$);\nENDSEC;\n";
    let scan = scan_directions(src);
    assert_eq!(scan.max_id, 10);
    assert_eq!(scan.placements, 2);
    let axes = vec![perpendicular(10, "a,b,c")];
    let (out, count) = normalize_optional_axis_directions(src, &axes).unwrap();
    assert_eq!(count, 2);
    assert_eq!(
        out,
        "DATA;\n#10=DIRECTION('',(0.,0.,1.));\n#2=AXIS2_PLACEMENT_3D('',#5,#10,#11);\n#3=AXIS2_PLACEMENT_3D('',#5,#10,#12);\n#11=DIRECTION('',(a,b,c));\n#12=DIRECTION('',(a,b,c));\nENDSEC;\n"
    );
}

#[test]
fn nothing_to_fill_leaves_text_unchanged() {
    let src = "no data section\n#3=AXIS2_PLACEMENT_3D('',#5,#1,#1);\n";
    let (out, count) = normalize_optional_axis_directions(src, &[]).unwrap();
    assert_eq!(count, 0);
    assert_eq!(out, src);
}

#[test]
fn last_axis_entry_of_an_id_counts() {
    let src = "DATA;\n#2=AXIS2_PLACEMENT_3D('',#5,#1,$);\nENDSEC;\n";
    let axes = vec![perpendicular(1, "x"), perpendicular(1, "y")];
    let (out, _) = normalize_optional_axis_directions(src, &axes).unwrap();
    assert!(out.contains("#3=DIRECTION('',(y));"));
}

fn error_of(src: &str, axes: &[AxisDirection]) -> String {
    normalize_optional_axis_directions(src, axes).unwrap_err()
}

#[test]
fn malformed_direction_is_refused() {
    let src = "DATA;\n#1=DIRECTION('',(0.,1.,0.;\nENDSEC;\n";
    assert!(scan_directions(src).malformed);
    assert_eq!(error_of(src, &[]), "malformed DIRECTION");
}

#[test]
fn unsupported_layout_is_refused() {
    let src = "DATA;\n#2=AXIS2_PLACEMENT_3D('',#5,$);\nENDSEC;\n";
    assert_eq!(error_of(src, &[]), "unsupported AXIS2_PLACEMENT_3D layout");
}

#[test]
fn missing_axis_is_refused() {
    let src = "DATA;\n#2=AXIS2_PLACEMENT_3D('',#5,1,$);\nENDSEC;\n";
    assert_eq!(error_of(src, &[]), "missing AXIS2_PLACEMENT_3D axis");
}

#[test]
fn invalid_axis_reference_is_refused() {
    let src = "DATA;\n#2=AXIS2_PLACEMENT_3D('',#5,#x,$);\nENDSEC;\n";
    assert_eq!(error_of(src, &[]), "invalid AXIS2_PLACEMENT_3D axis reference");
}

#[test]
fn unknown_axis_is_refused() {
    let src = "DATA;\n#2=AXIS2_PLACEMENT_3D('',#5,#7,$);\nENDSEC;\n";
    assert_eq!(error_of(src, &[perpendicular(1, UNIT_X)]), "AXIS2_PLACEMENT_3D axis #7 not found");
}

#[test]
fn degenerate_axis_is_refused() {
    let src = "DATA;\n#1=DIRECTION('',(0.,0.,0.));\n#2=AXIS2_PLACEMENT_3D('',#5,#1,$);\nENDSEC;\n";
    let axes = vec![AxisDirection { id: 1, reference: AxisReference::Degenerate }];
    assert_eq!(error_of(src, &axes), "AXIS2_PLACEMENT_3D axis #1 is invalid");
}

#[test]
fn missing_data_section_is_refused() {
    let src = "#2=AXIS2_PLACEMENT_3D('',#5,#1,$);\nENDSEC;\n";
    assert_eq!(error_of(src, &[perpendicular(1, UNIT_X)]), "STEP DATA section missing");
}

#[test]
fn missing_endsec_is_refused() {
    let src = "DATA;\n#2=AXIS2_PLACEMENT_3D('',#5,#1,$);\n";
    assert_eq!(error_of(src, &[perpendicular(1, UNIT_X)]), "STEP DATA ENDSEC missing");
}

#[test]
fn error_messages() {
    assert_eq!(StepError::MalformedDirectionCoordinates.message(), "malformed DIRECTION coordinates");
    assert_eq!(StepError::MalformedPlacement.message(), "malformed AXIS2_PLACEMENT_3D");
    assert_eq!(StepError::AxisNotFound(42).message(), "AXIS2_PLACEMENT_3D axis #42 not found");
    assert_eq!(StepError::AxisInvalid(0).message(), "AXIS2_PLACEMENT_3D axis #0 is invalid");
}

#[test]
fn entity_lines_split_into_id_and_body() {
    assert_eq!(parse_entity("#12 = DIRECTION('',(1.,0.,0.)) "), Some((12, "DIRECTION('',(1.,0.,0.))".to_string())));
    assert_eq!(parse_entity("#7=X"), Some((7, "X".to_string())));
    assert_eq!(parse_entity("DATA;"), None);
    assert_eq!(parse_entity("#=X"), None);
    assert_eq!(parse_entity("#a=X"), None);
    assert_eq!(parse_entity("#7 X"), None);
}

#[test]
fn scan_counts_and_records() {
    let src = "ISO-10303-21;\nDATA;\n #4=DIRECTION('n',(1.,0.,0.));\n#9=CARTESIAN_POINT('',(0.,0.,0.));\n#5=AXIS2_PLACEMENT_3D('',#9,#4,$);\nENDSEC;\n";
    let scan = scan_directions(src);
    assert!(!scan.malformed);
    assert_eq!(scan.records.len(), 1);
    assert_eq!(scan.records[0].id, 4);
    assert_eq!(scan.records[0].coordinates, "1.,0.,0.");
    assert_eq!(scan.max_id, 9);
    assert_eq!(scan.placements, 1);
}

#[test]
fn second_pass_fills_nothing() {
    // The header's ENDSEC; shares a line; only the data section's must begin one.
    let src = "HEADER; FILE_NAME('x'); ENDSEC;\nDATA;\n#1=DIRECTION('',(0.,1.,0.));\n#2=AXIS2_PLACEMENT_3D('',#5,#1,$);\r\n#3=AXIS2_PLACEMENT_3D('',#5,#1,$);  \n#6=AXIS2_PLACEMENT_3D('',#5,#1,#1);\nENDSEC;\nEND-ISO-10303-21;\n";
    let axes = vec![perpendicular(1, UNIT_X)];
    let (out, count) = normalize_optional_axis_directions(src, &axes).unwrap();
    assert_eq!(count, 2);
    let (again, count) = normalize_optional_axis_directions(&out, &axes).unwrap();
    assert_eq!(count, 0);
    assert_eq!(again, out);
}
